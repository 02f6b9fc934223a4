use neuroscreencaster::cursor_asset::{
    cursor_candidate_rank, cursor_conversion_args, embedded_png_from_cur, powershell_cursor_args, escape_powershell_single_quote, parse_cur_entries_from_bytes,
    parse_cur_entry_info_from_bytes, pick_cursor_candidate, powershell_cursor_script, read_png_dimensions,
    tail_lines_joined, CurEntryInfo, PngHeaderError,
};
use neuroscreencaster::frames::{downscale_bgra_for_preview, normalize_frame_for_encoder};
use neuroscreencaster::preview::{preview_frame, preview_session_action, preview_should_stop, should_encode_preview, PreviewSessionAction};
use neuroscreencaster::wav::{
    check_block_align, le32_bytes, loopback_startup_result, packet_byte_count, packet_is_silent, wav_data_written_after,
    wav_final_sizes, wav_header, LoopbackStartup, ThreadEnd,
};

const PNG_SIG: [u8; 8] = [0x89, b'P', b'N', b'G', 0x0D, 0x0A, 0x1A, 0x0A];

fn entry(w: u8, h: u8, hx: u16, hy: u16, size: u32, offset: u32) -> Vec<u8> {
    let mut e = vec![w, h, 0, 0];
    e.extend_from_slice(&hx.to_le_bytes());
    e.extend_from_slice(&hy.to_le_bytes());
    e.extend_from_slice(&size.to_le_bytes());
    e.extend_from_slice(&offset.to_le_bytes());
    e
}

fn cur_file(entries: &[Vec<u8>], tail: &[u8]) -> Vec<u8> {
    let mut b = vec![0, 0, 2, 0, entries.len() as u8, 0];
    for e in entries {
        b.extend_from_slice(e);
    }
    b.extend_from_slice(tail);
    b
}

#[test]
fn cur_directory_entries_are_read() {
    let bytes = cur_file(&[entry(32, 32, 5, 6, 100, 38), entry(0, 0, 1, 2, 8, 70)], &[0u8; 40]);
    let entries = parse_cur_entries_from_bytes(&bytes);
    assert_eq!(
        entries,
        vec![
            CurEntryInfo { width: 32, height: 32, hotspot_x: 5, hotspot_y: 6, bytes_in_res: 100, image_offset: 38 },
            CurEntryInfo { width: 256, height: 256, hotspot_x: 1, hotspot_y: 2, bytes_in_res: 8, image_offset: 70 },
        ]
    );
    assert_eq!(parse_cur_entry_info_from_bytes(&bytes).unwrap().width, 256);
    // Not a cursor file, or a truncated directory.
    let mut icon = bytes.clone();
    icon[2] = 1;
    assert!(parse_cur_entries_from_bytes(&icon).is_empty());
    assert!(parse_cur_entries_from_bytes(&bytes[..20].to_vec()).is_empty());
    assert!(parse_cur_entry_info_from_bytes(&vec![0, 0, 2]).is_none());
}

#[test]
fn largest_entry_prefers_the_later_of_equals() {
    let bytes = cur_file(&[entry(48, 48, 1, 1, 0, 0), entry(48, 48, 9, 9, 0, 0), entry(16, 16, 3, 3, 0, 0)], &[]);
    assert_eq!(parse_cur_entry_info_from_bytes(&bytes).unwrap().hotspot_x, 9);
}

#[test]
fn embedded_png_of_the_largest_png_entry() {
    // Entry 0 (32x32) holds a PNG at 38; entry 1 (64x64) points at plain bytes.
    let mut payload = PNG_SIG.to_vec();
    payload.extend_from_slice(&[1, 2]);
    let mut tail = payload.clone();
    tail.extend_from_slice(&[7u8; 10]);
    let bytes = cur_file(&[entry(32, 32, 0, 0, 10, 38), entry(64, 64, 0, 0, 10, 48)], &tail);
    assert_eq!(embedded_png_from_cur(&bytes), Some(payload));
    // An entry pointing past the end is skipped.
    let bytes = cur_file(&[entry(32, 32, 0, 0, 100, 38)], &tail);
    assert_eq!(embedded_png_from_cur(&bytes), None);
}

#[test]
fn png_header_gives_the_size() {
    let mut header = PNG_SIG.to_vec();
    header.extend_from_slice(&[0, 0, 0, 13, b'I', b'H', b'D', b'R', 0, 0, 0, 32, 0, 0, 1, 0]);
    assert_eq!(read_png_dimensions(&header), Ok((32, 256)));
    let mut zero = header.clone();
    zero[19] = 0;
    assert_eq!(read_png_dimensions(&zero), Err(PngHeaderError::InvalidDimensions));
    let mut bad = header.clone();
    bad[1] = b'X';
    assert_eq!(read_png_dimensions(&bad), Err(PngHeaderError::NotPng));
    assert_eq!(PngHeaderError::NotPng.message("c.png"), "Cursor file is not a valid PNG: c.png");
    assert_eq!(PngHeaderError::InvalidDimensions.message("c.png"), "Invalid PNG cursor dimensions in c.png");
}

#[test]
fn cursor_source_files_are_ranked() {
    assert_eq!(cursor_candidate_rank("CUR", "cursor"), Some(0));
    assert_eq!(cursor_candidate_rank("cur", "arrow"), Some(1));
    assert_eq!(cursor_candidate_rank("png", "arrow"), Some(5));
    assert_eq!(cursor_candidate_rank("JPEG", "Cursor"), Some(10));
    assert_eq!(cursor_candidate_rank("txt", "cursor"), None);
    assert_eq!(pick_cursor_candidate(&vec![Some(5), None, Some(2), Some(2)]), Some(2));
    assert_eq!(pick_cursor_candidate(&vec![None, None]), None);
}

#[test]
fn conversion_command_texts() {
    assert_eq!(escape_powershell_single_quote("C:\\it's"), "C:\\it''s");
    let script = powershell_cursor_script("a'b.cur", "out.png");
    assert!(script.starts_with("$ErrorActionPreference='Stop'; Add-Type -AssemblyName System.Windows.Forms;"));
    assert!(script.contains("System.Windows.Forms.Cursor('a''b.cur');"));
    assert!(script.contains("$bmp.Save('out.png', [System.Drawing.Imaging.ImageFormat]::Png);"));
    assert_eq!(tail_lines_joined("l1\nl2\nl3\n", 2), "l3 | l2");
    assert_eq!(tail_lines_joined("only", 6), "only");
    assert_eq!(tail_lines_joined("", 6), "");
}

#[test]
fn wav_header_layout() {
    let h = wav_header(&vec![1, 2, 3]).unwrap();
    let mut expected = b"RIFF".to_vec();
    expected.extend_from_slice(&[0, 0, 0, 0]);
    expected.extend_from_slice(b"WAVEfmt ");
    expected.extend_from_slice(&[3, 0, 0, 0, 1, 2, 3, 0]);
    expected.extend_from_slice(b"data");
    expected.extend_from_slice(&[0, 0, 0, 0]);
    assert_eq!(h.bytes, expected);
    assert_eq!(h.riff_size_offset, 4);
    assert_eq!(h.data_size_offset, 28);
    let even = wav_header(&vec![9, 9]).unwrap();
    assert_eq!(even.bytes.len(), 30);
    assert_eq!(even.data_size_offset, 26);
}

#[test]
fn wav_sizes_and_packets() {
    assert_eq!(wav_final_sizes(100, 50), (92, 50));
    assert_eq!(wav_final_sizes(4, 10), (0, 10));
    assert_eq!(wav_final_sizes(u64::MAX, u64::MAX), (u32::MAX, u32::MAX));
    assert_eq!(wav_data_written_after(10, 5), 15);
    assert_eq!(wav_data_written_after(u64::MAX, 5), u64::MAX);
    assert_eq!(le32_bytes(0x0403_0201), vec![1, 2, 3, 4]);
    assert_eq!(packet_byte_count(10, 8), 80);
    assert!(packet_is_silent(2, 2, false, 80));
    assert!(!packet_is_silent(0, 2, false, 80));
    assert!(packet_is_silent(0, 2, true, 80));
    assert!(packet_is_silent(0, 2, false, 0));
    assert_eq!(check_block_align(0).unwrap_err().message(), "WASAPI loopback returned invalid block alignment (0)");
    assert_eq!(check_block_align(4), Ok(4));
}

#[test]
fn loopback_startup_outcomes() {
    assert!(loopback_startup_result(LoopbackStartup::Ready).is_ok());
    assert_eq!(loopback_startup_result(LoopbackStartup::Failed("no device".to_string())).unwrap_err().message(), "no device");
    assert_eq!(
        loopback_startup_result(LoopbackStartup::TimedOut).unwrap_err().message(),
        "Timed out while starting WASAPI loopback audio capture"
    );
    assert_eq!(
        loopback_startup_result(LoopbackStartup::Disconnected(ThreadEnd::Panicked)).unwrap_err().message(),
        "WASAPI loopback capture thread panicked during startup"
    );
    assert_eq!(
        loopback_startup_result(LoopbackStartup::Disconnected(ThreadEnd::Finished)).unwrap_err().message(),
        "WASAPI loopback capture thread exited unexpectedly during startup"
    );
    assert_eq!(
        loopback_startup_result(LoopbackStartup::Disconnected(ThreadEnd::Failed("x".to_string()))).unwrap_err().message(),
        "x"
    );
}

#[test]
fn encoder_frames_are_bottom_up() {
    let top: Vec<u8> = (0..8).collect();
    let bottom: Vec<u8> = (8..16).collect();
    let mut frame = top.clone();
    frame.extend_from_slice(&bottom);
    let mut expected = bottom.clone();
    expected.extend_from_slice(&top);
    assert_eq!(normalize_frame_for_encoder(&frame, 2, 2), expected);
    assert_eq!(normalize_frame_for_encoder(&frame, 3, 2), frame);
    assert_eq!(normalize_frame_for_encoder(&frame, 0, 2), frame);
}

#[test]
fn previews_are_scaled_by_nearest_neighbour() {
    let source: Vec<u8> = (0..32).collect();
    let scaled = downscale_bgra_for_preview(&source, 4, 2, 2).unwrap();
    assert_eq!((scaled.width, scaled.height), (2, 1));
    assert_eq!(scaled.pixels, vec![0, 1, 2, 3, 8, 9, 10, 11]);
    assert!(downscale_bgra_for_preview(&source, 4, 2, 8).is_none());
    assert!(downscale_bgra_for_preview(&source, 4, 3, 2).is_none());
    assert!(downscale_bgra_for_preview(&source, 4, 2, 0).is_none());
}

#[test]
fn preview_frames_and_throttling() {
    let f = preview_frame(&vec![1, 2, 3], 640, 360, 7);
    assert_eq!(f.data_url, "data:image/jpeg;base64,AQID");
    assert_eq!((f.width, f.height, f.sequence), (640, 360, 8));
    assert_eq!(preview_frame(&vec![0xff], 1, 1, u64::MAX).sequence, u64::MAX);
    assert_eq!(preview_frame(&vec![0xff], 1, 1, 0).data_url, "data:image/jpeg;base64,/w==");
    assert!(should_encode_preview(None, 83));
    assert!(!should_encode_preview(Some(50), 83));
    assert!(should_encode_preview(Some(83), 83));
    assert!(preview_should_stop(0, 10));
    assert!(!preview_should_stop(10, 10));
    assert_eq!(preview_session_action(Some(1), 1), PreviewSessionAction::KeepRunning);
    assert_eq!(preview_session_action(Some(0), 1), PreviewSessionAction::Restart);
    assert_eq!(preview_session_action(None, 1), PreviewSessionAction::Restart);
}

#[test]
fn flipping_rows_twice_restores_the_frame() {
    let frame: Vec<u8> = (0u8..36).collect();
    let once = normalize_frame_for_encoder(&frame, 3, 3);
    assert_ne!(once, frame);
    assert_eq!(normalize_frame_for_encoder(&once, 3, 3), frame);
}

#[test]
fn cursor_conversion_command_lines() {
    assert_eq!(cursor_conversion_args("a.cur", "b.png"), vec!["-y", "-i", "a.cur", "-frames:v", "1", "b.png"]);
    let args = powershell_cursor_args("C:\\it's.cur", "out.png");
    assert_eq!(&args[..5], &["-NoProfile", "-NonInteractive", "-ExecutionPolicy", "Bypass", "-Command"]);
    assert_eq!(args[5], powershell_cursor_script("C:\\it's.cur", "out.png"));
    assert!(args[5].contains("Cursor('C:\\it''s.cur')"));
}

#[test]
fn largest_entry_is_the_last_of_maximal_area() {
    let bytes = cur_file(
        &[entry(16, 16, 1, 1, 0, 0), entry(32, 8, 2, 2, 0, 0), entry(24, 24, 3, 3, 0, 0), entry(8, 72, 4, 4, 0, 0)],
        &[],
    );
    let best = parse_cur_entry_info_from_bytes(&bytes).unwrap();
    assert_eq!((best.width, best.height, best.hotspot_x), (8, 72, 4));
    let entries = parse_cur_entries_from_bytes(&bytes);
    assert!(entries.iter().all(|e| e.width * e.height <= best.width * best.height));
    assert_eq!(parse_cur_entry_info_from_bytes(&cur_file(&[], &[])), None);
}
