//! The custom cursor image: picking the source file, reading Windows `.cur`
//! directories and PNG headers, and the texts of the conversion commands.

use vstd::prelude::*;
use crate::text::{ascii_lower_seq, ascii_lowercase, chars_of, lines, lines_of, push_all, push_str, string_from_chars};
use crate::export_job::{push_args, views};

verus! {

broadcast use vstd::string::group_string_axioms;

// ---------------------------------------------------------------------------
// `.cur` directories
// ---------------------------------------------------------------------------

/// One image entry of a `.cur` file's directory.
#[derive(Clone, Copy, Debug, PartialEq, Eq, Structural)]
pub struct CurEntryInfo {
    pub width: u32,
    pub height: u32,
    pub hotspot_x: u32,
    pub hotspot_y: u32,
    pub bytes_in_res: u32,
    pub image_offset: u32,
}

/// Little-endian 16-bit value at `i`.
pub open spec fn le16(b: Seq<u8>, i: int) -> u32 {
    (b[i] + 256 * b[i + 1]) as u32
}

/// Little-endian 32-bit value at `i`.
pub open spec fn le32(b: Seq<u8>, i: int) -> u32 {
    (b[i] + 256 * b[i + 1] + 65536 * b[i + 2] + 16777216 * b[i + 3]) as u32
}

/// A width or height byte of a directory entry; 0 stands for 256.
pub open spec fn dimension(v: u8) -> u32 {
    if v == 0 { 256 } else { v as u32 }
}

/// The directory entry that starts at byte `o`.
pub open spec fn cur_entry_at(b: Seq<u8>, o: int) -> CurEntryInfo {
    CurEntryInfo {
        width: dimension(b[o]),
        height: dimension(b[o + 1]),
        hotspot_x: le16(b, o + 4),
        hotspot_y: le16(b, o + 6),
        bytes_in_res: le32(b, o + 8),
        image_offset: le32(b, o + 12),
    }
}

/// The directory of a `.cur` file: none unless the file is long enough, its
/// type field is 2 (cursor), it names at least one image, and all entries
/// are present.
pub open spec fn cur_entries(b: Seq<u8>) -> Seq<CurEntryInfo> {
    if b.len() < 6 || le16(b, 2) != 2 || le16(b, 4) == 0 || b.len() < 6 + le16(b, 4) * 16 {
        seq![]
    } else {
        Seq::new(le16(b, 4) as nat, |k: int| cur_entry_at(b, 6 + k * 16))
    }
}

fn read_le16(b: &Vec<u8>, i: usize) -> (v: u32)
    requires
        i + 1 < b.len(),
    ensures
        v == le16(b@, i as int),
        v < 65536,
{
    b[i] as u32 + 256 * (b[i + 1] as u32)
}

fn read_le32(b: &Vec<u8>, i: usize) -> (v: u32)
    requires
        i + 3 < b.len(),
    ensures
        v == le32(b@, i as int),
{
    let v: u64 = b[i] as u64 + 256 * (b[i + 1] as u64) + 65536 * (b[i + 2] as u64) + 16777216 * (b[i + 3] as u64);
    assert(v < 4294967296u64);
    v as u32
}

proof fn lemma_cur_entry_dimensions(b: Seq<u8>)
    ensures
        forall|i: int| 0 <= i < cur_entries(b).len() ==> #[trigger] cur_entries(b)[i].width <= 256
            && cur_entries(b)[i].height <= 256,
{
}

/// The image entries of a `.cur` file's directory.
pub fn parse_cur_entries_from_bytes(bytes: &Vec<u8>) -> (entries: Vec<CurEntryInfo>)
    ensures
        entries@ == cur_entries(bytes@),
{
    let mut entries: Vec<CurEntryInfo> = Vec::new();
    if bytes.len() < 6 {
        return entries;
    }
    let icon_type = read_le16(bytes, 2);
    let count = read_le16(bytes, 4) as usize;
    if icon_type != 2 || count == 0 {
        return entries;
    }
    if bytes.len() < 6 + count * 16 {
        return entries;
    }
    let mut index: usize = 0;
    while index < count
        invariant
            count == le16(bytes@, 4),
            count < 65536,
            6 + count * 16 <= bytes@.len(),
            index <= count,
            entries@ == Seq::new(index as nat, |k: int| cur_entry_at(bytes@, 6 + k * 16)),
        decreases count - index,
    {
        let offset = 6 + index * 16;
        assert(offset + 16 <= bytes@.len()) by (nonlinear_arith)
            requires
                offset == 6 + index * 16,
                index < count,
                6 + count * 16 <= bytes@.len(),
        ;
        let width = if bytes[offset] == 0 { 256 } else { bytes[offset] as u32 };
        let height = if bytes[offset + 1] == 0 { 256 } else { bytes[offset + 1] as u32 };
        entries.push(
            CurEntryInfo {
                width,
                height,
                hotspot_x: read_le16(bytes, offset + 4),
                hotspot_y: read_le16(bytes, offset + 6),
                bytes_in_res: read_le32(bytes, offset + 8),
                image_offset: read_le32(bytes, offset + 12),
            },
        );
        index += 1;
        assert(entries@ =~= Seq::new(index as nat, |k: int| cur_entry_at(bytes@, 6 + k * 16)));
    }
    entries
}

/// Pixel area of an entry.
pub open spec fn area(e: CurEntryInfo) -> int {
    e.width * e.height
}

/// Among the first `k` entries accepted by `ok`, the one of largest area,
/// the later one on ties (the last entry after a stable sort by area).
pub open spec fn largest_entry(entries: Seq<CurEntryInfo>, ok: spec_fn(int) -> bool, k: int) -> Option<int>
    decreases k,
{
    if k <= 0 {
        None
    } else {
        let prev = largest_entry(entries, ok, k - 1);
        if !ok(k - 1) {
            prev
        } else {
            match prev {
                Some(j) => if area(entries[k - 1]) >= area(entries[j]) { Some(k - 1) } else { Some(j) },
                None => Some(k - 1),
            }
        }
    }
}

/// The entry picked among the first `k` accepted ones is an accepted entry
/// of largest area, and the last of that area; there is none exactly when no
/// entry is accepted.
pub proof fn law_largest_entry_is_the_last_of_maximal_area(entries: Seq<CurEntryInfo>, ok: spec_fn(int) -> bool, k: int)
    requires
        0 <= k <= entries.len(),
    ensures
        largest_entry(entries, ok, k) is None <==> forall|i: int| 0 <= i < k ==> !#[trigger] ok(i),
        largest_entry(entries, ok, k) is Some ==> {
            let j = largest_entry(entries, ok, k)->0;
            &&& 0 <= j < k
            &&& ok(j)
            &&& forall|i: int| 0 <= i < k && #[trigger] ok(i) ==> area(entries[i]) <= area(entries[j])
            &&& forall|i: int| j < i < k && #[trigger] ok(i) ==> area(entries[i]) < area(entries[j])
        },
    decreases k,
{
    if k > 0 {
        law_largest_entry_is_the_last_of_maximal_area(entries, ok, k - 1);
        let prev = largest_entry(entries, ok, k - 1);
        if !ok(k - 1) {
            assert((forall|i: int| 0 <= i < k ==> !#[trigger] ok(i)) <==> (forall|i: int| 0 <= i < k - 1 ==> !#[trigger] ok(i)));
        } else {
            assert(!(forall|i: int| 0 <= i < k ==> !#[trigger] ok(i))) by {
                assert(ok(k - 1));
            }
        }
    }
}

/// The entry of a `.cur` file that describes its largest image (the later
/// one among equals).
pub fn parse_cur_entry_info_from_bytes(bytes: &Vec<u8>) -> (r: Option<CurEntryInfo>)
    ensures
        match largest_entry(cur_entries(bytes@), |i: int| true, cur_entries(bytes@).len() as int) {
            Some(j) => r == Some(cur_entries(bytes@)[j]),
            None => r is None,
        },
{
    let entries = parse_cur_entries_from_bytes(bytes);
    proof {
        lemma_cur_entry_dimensions(bytes@);
    }
    let ghost ok = |i: int| true;
    let mut best: Option<usize> = None;
    let mut k: usize = 0;
    while k < entries.len()
        invariant
            k <= entries@.len(),
            entries@.len() < 65536,
            ok == (|i: int| true),
            forall|i: int| 0 <= i < entries@.len() ==> #[trigger] entries@[i].width <= 256 && entries@[i].height <= 256,
            match best {
                Some(j) => largest_entry(entries@, ok, k as int) == Some(j as int) && j < k,
                None => largest_entry(entries@, ok, k as int) is None,
            },
        decreases entries.len() - k,
    {
        let e = entries[k];
        best = match best {
            Some(j) => {
                assert(entries@[k as int].width <= 256 && entries@[k as int].height <= 256);
                assert(entries@[j as int].width <= 256 && entries@[j as int].height <= 256);
                let wk = e.width;
                let hk = e.height;
                let wj = entries[j].width;
                let hj = entries[j].height;
                assert(wk * hk <= 65536 && wj * hj <= 65536) by (nonlinear_arith)
                    requires wk <= 256, hk <= 256, wj <= 256, hj <= 256;
                if wk * hk >= wj * hj { Some(k) } else { Some(j) }
            },
            None => Some(k),
        };
        k += 1;
    }
    match best {
        Some(j) => Some(entries[j]),
        None => None,
    }
}

/// The PNG file signature.
pub open spec fn png_signature() -> Seq<u8> {
    seq![0x89u8, 0x50u8, 0x4Eu8, 0x47u8, 0x0Du8, 0x0Au8, 0x1Au8, 0x0Au8]
}

/// Entry `k` of a `.cur` file's directory points at a PNG image inside the
/// file.
pub open spec fn holds_png(b: Seq<u8>, e: CurEntryInfo) -> bool {
    let start = e.image_offset as int;
    let end = start + e.bytes_in_res;
    &&& start < b.len()
    &&& end <= b.len()
    &&& e.bytes_in_res >= 8
    &&& b.subrange(start, start + 8) == png_signature()
}

/// The image of a `.cur` file that is stored as a PNG, preferring larger
/// images (and, among equals, later entries): its bytes.
pub fn embedded_png_from_cur(bytes: &Vec<u8>) -> (r: Option<Vec<u8>>)
    ensures
        match largest_entry(
            cur_entries(bytes@),
            |i: int| holds_png(bytes@, cur_entries(bytes@)[i]),
            cur_entries(bytes@).len() as int,
        ) {
            Some(j) => r is Some && r->0@ == bytes@.subrange(
                cur_entries(bytes@)[j].image_offset as int,
                cur_entries(bytes@)[j].image_offset + cur_entries(bytes@)[j].bytes_in_res,
            ),
            None => r is None,
        },
{
    let entries = parse_cur_entries_from_bytes(bytes);
    proof {
        lemma_cur_entry_dimensions(bytes@);
    }
    let ghost ok = |i: int| holds_png(bytes@, entries@[i]);
    let sig: Vec<u8> = vec![0x89u8, 0x50u8, 0x4Eu8, 0x47u8, 0x0Du8, 0x0Au8, 0x1Au8, 0x0Au8];
    assert(sig@ =~= png_signature());
    let mut best: Option<usize> = None;
    let mut k: usize = 0;
    while k < entries.len()
        invariant
            entries@ == cur_entries(bytes@),
            k <= entries@.len(),
            entries@.len() < 65536,
            sig@ == png_signature(),
            ok == (|i: int| holds_png(bytes@, entries@[i])),
            forall|i: int| 0 <= i < entries@.len() ==> #[trigger] entries@[i].width <= 256 && entries@[i].height <= 256,
            match best {
                Some(j) => largest_entry(entries@, ok, k as int) == Some(j as int) && j < k && holds_png(bytes@, entries@[j as int]),
                None => largest_entry(entries@, ok, k as int) is None,
            },
        decreases entries.len() - k,
    {
        let e = entries[k];
        let start = e.image_offset as u64;
        let end = start + e.bytes_in_res as u64;
        let mut valid = start < bytes.len() as u64 && end <= bytes.len() as u64 && e.bytes_in_res >= 8;
        if valid {
            let s = e.image_offset as usize;
            assert(s + 8 <= bytes.len());
            let mut t: usize = 0;
            while t < 8
                invariant
                    s + 8 <= bytes.len(),
                    s == e.image_offset,
                    sig@ == png_signature(),
                    t <= 8,
                    valid == forall|m: int| 0 <= m < t ==> bytes@[s + m] == sig@[m],
                decreases 8 - t,
            {
                if bytes[s + t] != sig[t] {
                    valid = false;
                }
                t += 1;
            }
            proof {
                if valid {
                    assert(bytes@.subrange(s as int, s + 8) =~= png_signature());
                } else {
                    let m = choose|m: int| 0 <= m < 8 && bytes@[s + m] != sig@[m];
                    assert(bytes@.subrange(s as int, s + 8)[m] != png_signature()[m]);
                }
            }
        }
        assert(valid == ok(k as int));
        if valid {
            best = match best {
                Some(j) => {
                    assert(entries@[k as int].width <= 256 && entries@[k as int].height <= 256);
                    assert(entries@[j as int].width <= 256 && entries@[j as int].height <= 256);
                    let wk = e.width;
                    let hk = e.height;
                    let wj = entries[j].width;
                    let hj = entries[j].height;
                    assert(wk * hk <= 65536 && wj * hj <= 65536) by (nonlinear_arith)
                        requires wk <= 256, hk <= 256, wj <= 256, hj <= 256;
                    if wk * hk >= wj * hj { Some(k) } else { Some(j) }
                },
                None => Some(k),
            };
        }
        k += 1;
    }
    match best {
        Some(j) => {
            let e = entries[j];
            let s = e.image_offset as usize;
            assert(bytes@.len() == bytes.len());
            let end = s + e.bytes_in_res as usize;
            let mut out: Vec<u8> = Vec::new();
            let mut i: usize = s;
            while i < end
                invariant
                    s <= i <= end <= bytes@.len(),
                    out@ == bytes@.subrange(s as int, i as int),
                decreases end - i,
            {
                out.push(bytes[i]);
                i += 1;
                assert(out@ =~= bytes@.subrange(s as int, i as int));
            }
            Some(out)
        },
        None => None,
    }
}

// ---------------------------------------------------------------------------
// PNG header
// ---------------------------------------------------------------------------

/// Big-endian 32-bit value at `i`.
pub open spec fn be32(b: Seq<u8>, i: int) -> u32 {
    (16777216 * b[i] + 65536 * b[i + 1] + 256 * b[i + 2] + b[i + 3]) as u32
}

/// Why a cursor image is not usable.
#[derive(Clone, Copy, Debug, PartialEq, Eq, Structural)]
pub enum PngHeaderError {
    /// The file does not start with the PNG signature.
    NotPng,
    /// The header gives a zero width or height.
    InvalidDimensions,
}

impl PngHeaderError {
    /// The message for the cursor file at `path`.
    pub fn message(&self, path: &str) -> (m: String)
        ensures
            m@ == match *self {
                PngHeaderError::NotPng => "Cursor file is not a valid PNG: "@ + path@,
                PngHeaderError::InvalidDimensions => "Invalid PNG cursor dimensions in "@ + path@,
            },
    {
        let mut out: Vec<char> = Vec::new();
        match self {
            PngHeaderError::NotPng => push_str(&mut out, "Cursor file is not a valid PNG: "),
            PngHeaderError::InvalidDimensions => push_str(&mut out, "Invalid PNG cursor dimensions in "),
        }
        push_str(&mut out, path);
        string_from_chars(out.as_slice())
    }
}

/// Width and height from the first 24 bytes of a PNG file (the signature and
/// the IHDR chunk).
pub fn read_png_dimensions(header: &Vec<u8>) -> (r: Result<(u32, u32), PngHeaderError>)
    requires
        header@.len() >= 24,
    ensures
        header@.subrange(0, 8) != png_signature() ==> r == Err::<(u32, u32), PngHeaderError>(PngHeaderError::NotPng),
        header@.subrange(0, 8) == png_signature() && (be32(header@, 16) == 0 || be32(header@, 20) == 0)
            ==> r == Err::<(u32, u32), PngHeaderError>(PngHeaderError::InvalidDimensions),
        header@.subrange(0, 8) == png_signature() && be32(header@, 16) != 0 && be32(header@, 20) != 0
            ==> r == Ok::<(u32, u32), PngHeaderError>((be32(header@, 16), be32(header@, 20))),
{
    let sig: Vec<u8> = vec![0x89u8, 0x50u8, 0x4Eu8, 0x47u8, 0x0Du8, 0x0Au8, 0x1Au8, 0x0Au8];
    let mut t: usize = 0;
    while t < 8
        invariant
            header@.len() >= 24,
            sig@ == png_signature(),
            t <= 8,
            forall|m: int| 0 <= m < t ==> header@[m] == sig@[m],
        decreases 8 - t,
    {
        if header[t] != sig[t] {
            proof {
                assert(header@.subrange(0, 8)[t as int] != png_signature()[t as int]);
            }
            return Err(PngHeaderError::NotPng);
        }
        t += 1;
    }
    assert(header@.subrange(0, 8) =~= png_signature());
    let width = 16777216 * (header[16] as u32) + 65536 * (header[17] as u32) + 256 * (header[18] as u32) + header[19] as u32;
    let height = 16777216 * (header[20] as u32) + 65536 * (header[21] as u32) + 256 * (header[22] as u32) + header[23] as u32;
    if width == 0 || height == 0 {
        return Err(PngHeaderError::InvalidDimensions);
    }
    Ok((width, height))
}

// ---------------------------------------------------------------------------
// Picking the source file
// ---------------------------------------------------------------------------

/// Preference of a cursor file by its extension, lower first: `.cur`, `.ico`,
/// `.png`, `.webp`, `.bmp`, `.jpg`/`.jpeg`; other files are not cursors.
pub open spec fn extension_rank(ext: Seq<char>) -> Option<u8> {
    let e = ascii_lower_seq(ext);
    if e == "cur"@ {
        Some(0u8)
    } else if e == "ico"@ {
        Some(1u8)
    } else if e == "png"@ {
        Some(2u8)
    } else if e == "webp"@ {
        Some(3u8)
    } else if e == "bmp"@ {
        Some(4u8)
    } else if e == "jpg"@ || e == "jpeg"@ {
        Some(5u8)
    } else {
        None
    }
}

/// Rank of a cursor file: twice its extension's preference, plus one unless
/// the file is named `cursor` (up to ASCII case).
pub open spec fn candidate_rank(ext: Seq<char>, stem: Seq<char>) -> Option<u8> {
    match extension_rank(ext) {
        None => None,
        Some(p) => Some((p * 2 + if ascii_lower_seq(stem) == "cursor"@ { 0u8 } else { 1u8 }) as u8),
    }
}

fn seq_is(v: &Vec<char>, lit: &str) -> (b: bool)
    ensures
        b == (v@ == lit@),
{
    let l = chars_of(lit);
    crate::text::chars_eq(v, &l)
}

/// Rank of a file as a cursor source, from its extension and file stem.
pub fn cursor_candidate_rank(ext: &str, stem: &str) -> (r: Option<u8>)
    ensures
        r == candidate_rank(ext@, stem@),
{
    let ec = chars_of(ext);
    let e = ascii_lowercase(&ec);
    let p: u8 = if seq_is(&e, "cur") {
        0
    } else if seq_is(&e, "ico") {
        1
    } else if seq_is(&e, "png") {
        2
    } else if seq_is(&e, "webp") {
        3
    } else if seq_is(&e, "bmp") {
        4
    } else if seq_is(&e, "jpg") || seq_is(&e, "jpeg") {
        5
    } else {
        return None;
    };
    let sc = chars_of(stem);
    let s = ascii_lowercase(&sc);
    let bias: u8 = if seq_is(&s, "cursor") { 0 } else { 1 };
    Some(p * 2 + bias)
}

/// Among candidate files (by rank, in listing order), the first one of the
/// lowest rank.
pub open spec fn best_candidate(ranks: Seq<Option<u8>>, k: int) -> Option<int>
    decreases k,
{
    if k <= 0 {
        None
    } else {
        let prev = best_candidate(ranks, k - 1);
        match ranks[k - 1] {
            None => prev,
            Some(r) => match prev {
                Some(j) => if r < ranks[j]->0 { Some(k - 1) } else { Some(j) },
                None => Some(k - 1),
            },
        }
    }
}

/// The file to take the cursor from: the first of lowest rank (a stable sort
/// by rank, then the first).
pub fn pick_cursor_candidate(ranks: &Vec<Option<u8>>) -> (r: Option<usize>)
    ensures
        match best_candidate(ranks@, ranks@.len() as int) {
            Some(j) => r == Some(j as usize),
            None => r is None,
        },
{
    let mut best: Option<usize> = None;
    let mut k: usize = 0;
    while k < ranks.len()
        invariant
            k <= ranks@.len(),
            match best {
                Some(j) => best_candidate(ranks@, k as int) == Some(j as int) && j < k && ranks@[j as int] is Some,
                None => best_candidate(ranks@, k as int) is None,
            },
        decreases ranks.len() - k,
    {
        match ranks[k] {
            Some(rk) => {
                best = match best {
                    Some(j) => match ranks[j] {
                        Some(rj) => if rk < rj { Some(k) } else { Some(j) },
                        None => Some(k),
                    },
                    None => Some(k),
                };
            },
            None => {},
        }
        k += 1;
    }
    best
}

// ---------------------------------------------------------------------------
// Conversion commands
// ---------------------------------------------------------------------------

/// `s` with every single quote doubled, as PowerShell single-quoted strings
/// need.
pub open spec fn ps_quoted(s: Seq<char>) -> Seq<char>
    decreases s.len(),
{
    if s.len() == 0 {
        seq![]
    } else {
        ps_quoted(s.drop_last()) + if s.last() == '\'' { seq!['\'', '\''] } else { seq![s.last()] }
    }
}

/// Escapes a path for a PowerShell single-quoted string.
pub fn escape_powershell_single_quote(path: &str) -> (r: String)
    ensures
        r@ == ps_quoted(path@),
{
    let cs = chars_of(path);
    let mut out: Vec<char> = Vec::new();
    let mut i: usize = 0;
    while i < cs.len()
        invariant
            i <= cs@.len(),
            cs@ == path@,
            out@ == ps_quoted(cs@.subrange(0, i as int)),
        decreases cs.len() - i,
    {
        proof {
            assert(cs@.subrange(0, i + 1).drop_last() =~= cs@.subrange(0, i as int));
        }
        if cs[i] == '\'' {
            out.push('\'');
            out.push('\'');
        } else {
            out.push(cs[i]);
        }
        i += 1;
        proof {
            assert(out@ =~= ps_quoted(cs@.subrange(0, i as int)));
        }
    }
    assert(cs@.subrange(0, cs@.len() as int) =~= cs@);
    string_from_chars(out.as_slice())
}

/// The PowerShell script that draws the cursor file `source` into the PNG
/// `target`.
pub open spec fn powershell_cursor_script_text(source: Seq<char>, target: Seq<char>) -> Seq<char> {
    "$ErrorActionPreference='Stop'; Add-Type -AssemblyName System.Windows.Forms; Add-Type -AssemblyName System.Drawing; $cursor = New-Object System.Windows.Forms.Cursor('"@
        + ps_quoted(source)
        + "'); $bmp = New-Object System.Drawing.Bitmap($cursor.Size.Width, $cursor.Size.Height); $g = [System.Drawing.Graphics]::FromImage($bmp); $g.Clear([System.Drawing.Color]::Transparent); $cursor.Draw($g, [System.Drawing.Rectangle]::new(0, 0, $bmp.Width, $bmp.Height)); $bmp.Save('"@
        + ps_quoted(target)
        + "', [System.Drawing.Imaging.ImageFormat]::Png); $g.Dispose(); $bmp.Dispose(); $cursor.Dispose();"@
}

pub fn powershell_cursor_script(source: &str, target: &str) -> (s: String)
    ensures
        s@ == powershell_cursor_script_text(source@, target@),
{
    let src = escape_powershell_single_quote(source);
    let dst = escape_powershell_single_quote(target);
    let mut out: Vec<char> = Vec::new();
    push_str(&mut out, "$ErrorActionPreference='Stop'; Add-Type -AssemblyName System.Windows.Forms; Add-Type -AssemblyName System.Drawing; $cursor = New-Object System.Windows.Forms.Cursor('");
    push_str(&mut out, src.as_str());
    push_str(&mut out, "'); $bmp = New-Object System.Drawing.Bitmap($cursor.Size.Width, $cursor.Size.Height); $g = [System.Drawing.Graphics]::FromImage($bmp); $g.Clear([System.Drawing.Color]::Transparent); $cursor.Draw($g, [System.Drawing.Rectangle]::new(0, 0, $bmp.Width, $bmp.Height)); $bmp.Save('");
    push_str(&mut out, dst.as_str());
    push_str(&mut out, "', [System.Drawing.Imaging.ImageFormat]::Png); $g.Dispose(); $bmp.Dispose(); $cursor.Dispose();");
    string_from_chars(out.as_slice())
}

/// The ffmpeg arguments that turn the first frame of the image `source` into
/// the PNG `target`.
pub fn cursor_conversion_args(source: &str, target: &str) -> (args: Vec<String>)
    ensures
        views(args@) == seq!["-y"@, "-i"@, source@, "-frames:v"@, "1"@, target@],
{
    let mut args: Vec<String> = Vec::new();
    push_args(&mut args, &["-y", "-i", source, "-frames:v", "1", target]);
    proof {
        assert(views(args@) =~= seq!["-y"@, "-i"@, source@, "-frames:v"@, "1"@, target@]);
    }
    args
}

/// The PowerShell arguments that run the cursor drawing script for `source`
/// and `target`, without a profile and without prompts.
pub fn powershell_cursor_args(source: &str, target: &str) -> (args: Vec<String>)
    ensures
        views(args@) == seq![
            "-NoProfile"@, "-NonInteractive"@, "-ExecutionPolicy"@, "Bypass"@, "-Command"@,
            powershell_cursor_script_text(source@, target@),
        ],
{
    let script = powershell_cursor_script(source, target);
    let mut args: Vec<String> = Vec::new();
    push_args(&mut args, &["-NoProfile", "-NonInteractive", "-ExecutionPolicy", "Bypass", "-Command", script.as_str()]);
    proof {
        assert(views(args@) =~= seq![
            "-NoProfile"@, "-NonInteractive"@, "-ExecutionPolicy"@, "Bypass"@, "-Command"@,
            powershell_cursor_script_text(source@, target@),
        ]);
    }
    args
}

/// The last `count` lines of `text`, last first, joined by ` | `.
pub open spec fn tail_lines_text(text: Seq<char>, count: nat) -> Seq<char> {
    let ls = lines_of(text);
    let n = if count < ls.len() { count } else { ls.len() };
    joined_reversed(ls, n)
}

/// The last `n` lines of `ls`, last first, joined by ` | `.
pub open spec fn joined_reversed(ls: Seq<Seq<char>>, n: nat) -> Seq<char>
    decreases n,
{
    if n == 0 {
        seq![]
    } else if n == 1 {
        ls[ls.len() - 1]
    } else {
        joined_reversed(ls, (n - 1) as nat) + " | "@ + ls[ls.len() - n]
    }
}

/// The last lines of a command's output, newest first, as error details show
/// them.
pub fn tail_lines_joined(text: &str, count: usize) -> (s: String)
    ensures
        s@ == tail_lines_text(text@, count as nat),
{
    let cs = chars_of(text);
    let ls = lines(&cs);
    let n = if count < ls.len() { count } else { ls.len() };
    let mut out: Vec<char> = Vec::new();
    let mut k: usize = 0;
    while k < n
        invariant
            n <= ls@.len(),
            ls@.len() == lines_of(text@).len(),
            forall|i: int| 0 <= i < ls@.len() ==> #[trigger] ls@[i]@ == lines_of(text@)[i],
            k <= n,
            out@ == joined_reversed(lines_of(text@), k as nat),
        decreases n - k,
    {
        if k > 0 {
            push_str(&mut out, " | ");
        }
        let line = &ls[ls.len() - 1 - k];
        push_all(&mut out, line);
        k += 1;
        proof {
            assert(out@ =~= joined_reversed(lines_of(text@), k as nat));
        }
    }
    string_from_chars(out.as_slice())
}

/// Law of a `.cur` directory: it lists as many entries as the little-endian
/// count at bytes 4..6 says (when the file holds them all and its type at
/// bytes 2..4 is 2), and entry `k` is read from the sixteen bytes at
/// `6 + 16k`: width and height from its first two bytes (0 meaning 256), the
/// hotspot from the little-endian 16-bit values at offsets 4 and 6, and the
/// image's size and offset from the little-endian 32-bit values at offsets 8
/// and 12.
pub proof fn law_cur_entries_read_the_directory(b: Seq<u8>, k: int)
    ensures
        b.len() >= 6 && b[2] + 256 * b[3] == 2 && b[4] + 256 * b[5] > 0 && b.len() >= 6 + 16 * (b[4] + 256 * b[5])
            ==> cur_entries(b).len() == b[4] + 256 * b[5],
        !(b.len() >= 6 && b[2] + 256 * b[3] == 2 && b[4] + 256 * b[5] > 0 && b.len() >= 6 + 16 * (b[4] + 256 * b[5]))
            ==> cur_entries(b).len() == 0,
        0 <= k < cur_entries(b).len() ==> {
            let o = 6 + 16 * k;
            let e = cur_entries(b)[k];
            &&& o + 16 <= b.len()
            &&& e.width == (if b[o] == 0 { 256 } else { b[o] as int })
            &&& e.height == (if b[o + 1] == 0 { 256 } else { b[o + 1] as int })
            &&& e.hotspot_x == b[o + 4] + 256 * b[o + 5]
            &&& e.hotspot_y == b[o + 6] + 256 * b[o + 7]
            &&& e.bytes_in_res == b[o + 8] + 256 * b[o + 9] + 65536 * b[o + 10] + 16777216 * b[o + 11]
            &&& e.image_offset == b[o + 12] + 256 * b[o + 13] + 65536 * b[o + 14] + 16777216 * b[o + 15]
        },
{
    if b.len() >= 6 {
        assert(le16(b, 2) == b[2] + 256 * b[3]);
        assert(le16(b, 4) == b[4] + 256 * b[5]);
    }
    if 0 <= k < cur_entries(b).len() {
        let o = 6 + 16 * k;
        let n = b[4] + 256 * b[5];
        assert(o + 16 <= b.len()) by (nonlinear_arith)
            requires
                o == 6 + 16 * k,
                0 <= k < n,
                b.len() >= 6 + 16 * n,
        ;
        assert(6 + k * 16 == o);
    }
}

/// Law of the embedded image: the entry whose bytes are handed out lies
/// inside the file, is at least 8 bytes long, and those bytes begin with the
/// PNG signature `89 50 4E 47 0D 0A 1A 0A`.
pub proof fn law_embedded_png_is_a_png_inside_the_file(b: Seq<u8>)
    ensures
        largest_entry(cur_entries(b), |i: int| holds_png(b, cur_entries(b)[i]), cur_entries(b).len() as int) matches Some(j)
            ==> {
            let e = cur_entries(b)[j];
            &&& 0 <= j < cur_entries(b).len()
            &&& e.image_offset + e.bytes_in_res <= b.len()
            &&& e.bytes_in_res >= 8
            &&& b.subrange(e.image_offset as int, e.image_offset + 8) == seq![
                0x89u8,
                0x50u8,
                0x4Eu8,
                0x47u8,
                0x0Du8,
                0x0Au8,
                0x1Au8,
                0x0Au8,
            ]
        },
{
    law_largest_entry_is_the_last_of_maximal_area(
        cur_entries(b),
        |i: int| holds_png(b, cur_entries(b)[i]),
        cur_entries(b).len() as int,
    );
}

} // verus!
