//! Character-sequence utilities shared by the parsers of this crate.
//!
//! Every operation is specified over `Seq<char>` by a small automaton that
//! consumes the sequence from the front one character at a time, which is the
//! way the standard library's `str` methods behave.

use vstd::prelude::*;
use vstd::std_specs::iter::IteratorSpec;

verus! {

broadcast use vstd::string::group_string_axioms;

// ---------------------------------------------------------------------------
// Character classes
// ---------------------------------------------------------------------------

/// `char::is_whitespace`: the Unicode `White_Space` property.
pub open spec fn is_ws(c: char) -> bool {
    ||| ('\u{9}' <= c && c <= '\u{d}')
    ||| c == ' '
    ||| c == '\u{85}'
    ||| c == '\u{a0}'
    ||| c == '\u{1680}'
    ||| ('\u{2000}' <= c && c <= '\u{200a}')
    ||| c == '\u{2028}'
    ||| c == '\u{2029}'
    ||| c == '\u{202f}'
    ||| c == '\u{205f}'
    ||| c == '\u{3000}'
}

pub open spec fn is_digit(c: char) -> bool {
    '0' <= c && c <= '9'
}

pub open spec fn digit_value(c: char) -> int {
    (c as int) - ('0' as int)
}

pub fn is_whitespace_char(c: char) -> (b: bool)
    ensures
        b == is_ws(c),
{
    ('\u{9}' <= c && c <= '\u{d}') || c == ' ' || c == '\u{85}' || c == '\u{a0}' || c
        == '\u{1680}' || ('\u{2000}' <= c && c <= '\u{200a}') || c == '\u{2028}' || c
        == '\u{2029}' || c == '\u{202f}' || c == '\u{205f}' || c == '\u{3000}'
}

pub fn is_digit_char(c: char) -> (b: bool)
    ensures
        b == is_digit(c),
{
    '0' <= c && c <= '9'
}

/// `char::to_ascii_lowercase`.
pub open spec fn ascii_lower(c: char) -> char {
    if 'A' <= c && c <= 'Z' {
        ((c as u32) + 32) as char
    } else {
        c
    }
}

pub fn ascii_lower_char(c: char) -> (r: char)
    ensures
        r == ascii_lower(c),
{
    if 'A' <= c && c <= 'Z' {
        let code: u32 = (c as u32) + 32;
        assert(0x61 <= code && code <= 0x7a);
        char_from_ascii_code(code)
    } else {
        c
    }
}

fn char_from_ascii_code(code: u32) -> (c: char)
    requires
        code < 128,
    ensures
        c == code as char,
{
    let b: u8 = code as u8;
    b as char
}

pub open spec fn ascii_lower_seq(s: Seq<char>) -> Seq<char> {
    Seq::new(s.len(), |i: int| ascii_lower(s[i]))
}

/// `str::eq_ignore_ascii_case`.
pub open spec fn eq_ignore_ascii_case(a: Seq<char>, b: Seq<char>) -> bool {
    ascii_lower_seq(a) == ascii_lower_seq(b)
}

// ---------------------------------------------------------------------------
// Conversions between `str`/`String` and character vectors
// ---------------------------------------------------------------------------

/// Copies the characters of `s` into a vector.
pub fn chars_of(s: &str) -> (v: Vec<char>)
    ensures
        v@ == s@,
{
    let mut it = s.chars();
    let mut v: Vec<char> = Vec::new();
    loop
        invariant
            v@ + it.remaining() == s@,
            it.obeys_prophetic_iter_laws(),
            it.decrease() is Some,
        decreases it.decrease()->0,
    {
        match it.next() {
            Some(c) => {
                v.push(c);
            },
            None => {
                assert(v@ == s@);
                return v;
            },
        }
    }
}

/// Builds a `String` holding exactly `chars`.
///
/// Trusted: calls std's `FromIterator<&char> for String` (`collect`), whose
/// documented result is the string of the given characters in order.
#[verifier::external_body]
pub(crate) fn string_from_chars(chars: &[char]) -> (s: String)
    ensures
        s@ == chars@,
{
    chars.iter().collect()
}

pub fn subvec(v: &Vec<char>, start: usize, end: usize) -> (r: Vec<char>)
    requires
        start <= end <= v.len(),
    ensures
        r@ == v@.subrange(start as int, end as int),
{
    let mut r: Vec<char> = Vec::new();
    let mut i = start;
    while i < end
        invariant
            start <= i <= end <= v.len(),
            r@ == v@.subrange(start as int, i as int),
        decreases end - i,
    {
        r.push(v[i]);
        i += 1;
        assert(r@ =~= v@.subrange(start as int, i as int));
    }
    r
}

pub fn chars_eq(a: &Vec<char>, b: &Vec<char>) -> (r: bool)
    ensures
        r == (a@ == b@),
{
    if a.len() != b.len() {
        return false;
    }
    let mut i: usize = 0;
    while i < a.len()
        invariant
            a.len() == b.len(),
            i <= a.len(),
            forall|j: int| 0 <= j < i ==> a@[j] == b@[j],
        decreases a.len() - i,
    {
        if a[i] != b[i] {
            return false;
        }
        i += 1;
    }
    assert(a@ =~= b@);
    true
}

// ---------------------------------------------------------------------------
// Leading / trailing runs and trimming
// ---------------------------------------------------------------------------

/// Length of the longest prefix of `s` whose characters all satisfy `p`.
pub open spec fn lead_count(s: Seq<char>, p: spec_fn(char) -> bool) -> nat
    decreases s.len(),
{
    if s.len() == 0 {
        0
    } else {
        let k = lead_count(s.drop_last(), p);
        if k == s.len() - 1 && p(s.last()) {
            s.len()
        } else {
            k
        }
    }
}

/// Length of the longest suffix of `s` whose characters all satisfy `p`.
pub open spec fn trail_count(s: Seq<char>, p: spec_fn(char) -> bool) -> nat
    decreases s.len(),
{
    if s.len() == 0 {
        0
    } else if p(s.last()) {
        trail_count(s.drop_last(), p) + 1
    } else {
        0
    }
}

/// `str::trim_matches` with a character predicate.
pub open spec fn trim_by(s: Seq<char>, p: spec_fn(char) -> bool) -> Seq<char> {
    let rest = s.subrange(lead_count(s, p) as int, s.len() as int);
    rest.subrange(0, rest.len() - trail_count(rest, p))
}

pub open spec fn ws_pred() -> spec_fn(char) -> bool {
    |c: char| is_ws(c)
}

pub open spec fn non_ws_pred() -> spec_fn(char) -> bool {
    |c: char| !is_ws(c)
}

pub open spec fn non_digit_pred() -> spec_fn(char) -> bool {
    |c: char| !is_digit(c)
}

/// `str::trim`.
pub open spec fn trim(s: Seq<char>) -> Seq<char> {
    trim_by(s, ws_pred())
}

pub proof fn lemma_lead_count(s: Seq<char>, p: spec_fn(char) -> bool)
    ensures
        lead_count(s, p) <= s.len(),
        forall|j: int| 0 <= j < lead_count(s, p) ==> #[trigger] p(s[j]),
        lead_count(s, p) < s.len() ==> !p(s[lead_count(s, p) as int]),
    decreases s.len(),
{
    if s.len() > 0 {
        lemma_lead_count(s.drop_last(), p);
        assert forall|j: int| 0 <= j < s.len() - 1 implies s.drop_last()[j] == s[j] by {}
    }
}

pub proof fn lemma_lead_count_char(s: Seq<char>, p: spec_fn(char) -> bool, i: int)
    requires
        0 <= i <= s.len(),
        forall|j: int| 0 <= j < i ==> #[trigger] p(s[j]),
        i < s.len() ==> !p(s[i]),
    ensures
        lead_count(s, p) == i,
{
    lemma_lead_count(s, p);
    if lead_count(s, p) < i {
        assert(p(s[lead_count(s, p) as int]));
    }
}

pub proof fn lemma_trail_count(s: Seq<char>, p: spec_fn(char) -> bool)
    ensures
        trail_count(s, p) <= s.len(),
        forall|j: int| s.len() - trail_count(s, p) <= j < s.len() ==> #[trigger] p(s[j]),
        trail_count(s, p) < s.len() ==> !p(s[s.len() - trail_count(s, p) - 1]),
    decreases s.len(),
{
    if s.len() > 0 {
        lemma_trail_count(s.drop_last(), p);
        assert forall|j: int| 0 <= j < s.len() - 1 implies s.drop_last()[j] == s[j] by {}
    }
}

pub proof fn lemma_trail_count_char(s: Seq<char>, p: spec_fn(char) -> bool, k: int)
    requires
        0 <= k <= s.len(),
        forall|j: int| s.len() - k <= j < s.len() ==> #[trigger] p(s[j]),
        k < s.len() ==> !p(s[s.len() - k - 1]),
    ensures
        trail_count(s, p) == k,
{
    lemma_trail_count(s, p);
    if trail_count(s, p) < k {
        assert(p(s[s.len() - trail_count(s, p) - 1]));
    }
    if trail_count(s, p) > k {
        assert(p(s[s.len() - k - 1]));
    }
}

/// `str::trim` on a character vector.
pub fn trim_ws(s: &Vec<char>) -> (r: Vec<char>)
    ensures
        r@ == trim(s@),
{
    let n = s.len();
    let mut a: usize = 0;
    while a < n && is_whitespace_char(s[a])
        invariant
            a <= n == s.len(),
            forall|j: int| 0 <= j < a ==> #[trigger] is_ws(s@[j]),
        decreases n - a,
    {
        a += 1;
    }
    proof {
        assert forall|j: int| 0 <= j < a implies #[trigger] ws_pred()(s@[j]) by {
            assert(is_ws(s@[j]));
        }
        lemma_lead_count_char(s@, ws_pred(), a as int);
    }
    let ghost rest = s@.subrange(a as int, n as int);
    let mut b: usize = n;
    while b > a && is_whitespace_char(s[b - 1])
        invariant
            a <= b <= n == s.len(),
            rest == s@.subrange(a as int, n as int),
            forall|j: int| b <= j < n ==> #[trigger] is_ws(s@[j]),
        decreases b - a,
    {
        b -= 1;
    }
    proof {
        let k = (n - b) as int;
        assert forall|j: int| rest.len() - k <= j < rest.len() implies #[trigger] ws_pred()(
            rest[j],
        ) by {
            assert(rest[j] == s@[j + a]);
            assert(is_ws(s@[j + a]));
        }
        if k < rest.len() {
            assert(rest[rest.len() - k - 1] == s@[b - 1]);
        }
        lemma_trail_count_char(rest, ws_pred(), k);
    }
    let r = subvec(s, a, b);
    assert(r@ =~= trim(s@));
    r
}

/// `str::trim_matches(|c: char| !c.is_ascii_digit())` on a character vector.
pub fn trim_non_digits(s: &Vec<char>) -> (r: Vec<char>)
    ensures
        r@ == trim_by(s@, non_digit_pred()),
{
    let n = s.len();
    let mut a: usize = 0;
    while a < n && !is_digit_char(s[a])
        invariant
            a <= n == s.len(),
            forall|j: int| 0 <= j < a ==> !#[trigger] is_digit(s@[j]),
        decreases n - a,
    {
        a += 1;
    }
    proof {
        assert forall|j: int| 0 <= j < a implies #[trigger] non_digit_pred()(s@[j]) by {
            assert(!is_digit(s@[j]));
        }
        lemma_lead_count_char(s@, non_digit_pred(), a as int);
    }
    let ghost rest = s@.subrange(a as int, n as int);
    let mut b: usize = n;
    while b > a && !is_digit_char(s[b - 1])
        invariant
            a <= b <= n == s.len(),
            rest == s@.subrange(a as int, n as int),
            forall|j: int| b <= j < n ==> !#[trigger] is_digit(s@[j]),
        decreases b - a,
    {
        b -= 1;
    }
    proof {
        let k = (n - b) as int;
        assert forall|j: int| rest.len() - k <= j < rest.len() implies #[trigger] non_digit_pred()(
            rest[j],
        ) by {
            assert(rest[j] == s@[j + a]);
            assert(!is_digit(s@[j + a]));
        }
        if k < rest.len() {
            assert(rest[rest.len() - k - 1] == s@[b - 1]);
        }
        lemma_trail_count_char(rest, non_digit_pred(), k);
    }
    let r = subvec(s, a, b);
    assert(r@ =~= trim_by(s@, non_digit_pred()));
    r
}

/// The first item of `str::split_whitespace`.
pub open spec fn first_word(s: Seq<char>) -> Option<Seq<char>> {
    let t = s.subrange(lead_count(s, ws_pred()) as int, s.len() as int);
    if t.len() == 0 {
        None
    } else {
        Some(t.subrange(0, lead_count(t, non_ws_pred()) as int))
    }
}

/// The first item of `str::split_whitespace` on a character vector.
pub fn first_word_exec(s: &Vec<char>) -> (r: Option<Vec<char>>)
    ensures
        match r {
            Some(w) => first_word(s@) == Some(w@),
            None => first_word(s@) is None,
        },
{
    let n = s.len();
    let mut a: usize = 0;
    while a < n && is_whitespace_char(s[a])
        invariant
            a <= n == s.len(),
            forall|j: int| 0 <= j < a ==> #[trigger] is_ws(s@[j]),
        decreases n - a,
    {
        a += 1;
    }
    proof {
        assert forall|j: int| 0 <= j < a implies #[trigger] ws_pred()(s@[j]) by {
            assert(is_ws(s@[j]));
        }
        lemma_lead_count_char(s@, ws_pred(), a as int);
    }
    if a == n {
        return None;
    }
    let ghost t = s@.subrange(a as int, n as int);
    let mut b: usize = a;
    while b < n && !is_whitespace_char(s[b])
        invariant
            a <= b <= n == s.len(),
            t == s@.subrange(a as int, n as int),
            forall|j: int| a <= j < b ==> !#[trigger] is_ws(s@[j]),
        decreases n - b,
    {
        b += 1;
    }
    proof {
        assert forall|j: int| 0 <= j < b - a implies #[trigger] non_ws_pred()(t[j]) by {
            assert(t[j] == s@[j + a]);
        }
        if b < n {
            assert(t[b - a] == s@[b as int]);
        }
        lemma_lead_count_char(t, non_ws_pred(), b - a);
    }
    let w = subvec(s, a, b);
    assert(w@ =~= t.subrange(0, (b - a) as int));
    Some(w)
}

// ---------------------------------------------------------------------------
// Splitting

// ---------------------------------------------------------------------------

/// `str::split` with a character predicate: always at least one piece, and
/// empty pieces are kept.
pub open spec fn split_by(s: Seq<char>, p: spec_fn(char) -> bool) -> Seq<Seq<char>>
    decreases s.len(),
{
    if s.len() == 0 {
        seq![Seq::<char>::empty()]
    } else {
        let prev = split_by(s.drop_last(), p);
        if p(s.last()) {
            prev.push(Seq::<char>::empty())
        } else {
            prev.update(prev.len() - 1, prev.last().push(s.last()))
        }
    }
}

pub open spec fn char_pred(sep: char) -> spec_fn(char) -> bool {
    |c: char| c == sep
}

/// `str::split(sep)` for a single separator character.
pub open spec fn split_char(s: Seq<char>, sep: char) -> Seq<Seq<char>> {
    split_by(s, char_pred(sep))
}

pub proof fn lemma_split_by_nonempty(s: Seq<char>, p: spec_fn(char) -> bool)
    ensures
        split_by(s, p).len() >= 1,
    decreases s.len(),
{
    if s.len() > 0 {
        lemma_split_by_nonempty(s.drop_last(), p);
    }
}

/// `str::split(sep)` on a character vector.
pub fn split_on(s: &Vec<char>, sep: char) -> (pieces: Vec<Vec<char>>)
    ensures
        pieces@.len() == split_char(s@, sep).len(),
        forall|i: int| 0 <= i < pieces@.len() ==> #[trigger] pieces@[i]@ == split_char(s@, sep)[i],
{
    let mut pieces: Vec<Vec<char>> = Vec::new();
    let mut current: Vec<char> = Vec::new();
    let mut i: usize = 0;
    while i < s.len()
        invariant
            i <= s.len(),
            pieces@.len() + 1 == split_char(s@.subrange(0, i as int), sep).len(),
            forall|j: int|
                0 <= j < pieces@.len() ==> #[trigger] pieces@[j]@ == split_char(
                    s@.subrange(0, i as int),
                    sep,
                )[j],
            current@ == split_char(s@.subrange(0, i as int), sep).last(),
        decreases s.len() - i,
    {
        let ghost prefix = s@.subrange(0, i as int);
        let ghost next = s@.subrange(0, i + 1);
        assert(next.drop_last() =~= prefix);
        proof {
            lemma_split_by_nonempty(prefix, char_pred(sep));
        }
        let c = s[i];
        if c == sep {
            let done = current;
            pieces.push(done);
            current = Vec::new();
        } else {
            current.push(c);
        }
        i += 1;
    }
    assert(s@.subrange(0, s.len() as int) =~= s@);
    pieces.push(current);
    pieces
}

/// `str::lines`: pieces ended by `\n`, each with one trailing `\r` removed
/// when it was followed by `\n`; no final empty piece.
pub open spec fn lines_of(s: Seq<char>) -> Seq<Seq<char>>
    decreases s.len(),
{
    let pieces = split_char(s, '\n');
    let done = pieces.drop_last();
    let body = Seq::new(done.len(), |i: int| strip_cr(done[i]));
    if pieces.last().len() == 0 {
        body
    } else {
        body.push(pieces.last())
    }
}

pub open spec fn strip_cr(line: Seq<char>) -> Seq<char> {
    if line.len() > 0 && line.last() == '\r' {
        line.drop_last()
    } else {
        line
    }
}

fn strip_cr_vec(line: Vec<char>) -> (r: Vec<char>)
    ensures
        r@ == strip_cr(line@),
{
    let mut line = line;
    if line.len() > 0 && line[line.len() - 1] == '\r' {
        line.pop();
    }
    line
}

/// `str::lines` on a character vector.
pub fn lines(s: &Vec<char>) -> (out: Vec<Vec<char>>)
    ensures
        out@.len() == lines_of(s@).len(),
        forall|i: int| 0 <= i < out@.len() ==> #[trigger] out@[i]@ == lines_of(s@)[i],
{
    let pieces = split_on(s, '\n');
    let ghost spec_pieces = split_char(s@, '\n');
    proof {
        lemma_split_by_nonempty(s@, char_pred('\n'));
    }
    let n = pieces.len();
    let mut out: Vec<Vec<char>> = Vec::new();
    let mut i: usize = 0;
    while i + 1 < n
        invariant
            n == pieces@.len() == spec_pieces.len() >= 1,
            spec_pieces == split_char(s@, '\n'),
            forall|j: int| 0 <= j < n ==> #[trigger] pieces@[j]@ == spec_pieces[j],
            i < n,
            out@.len() == i,
            forall|j: int| 0 <= j < i ==> #[trigger] out@[j]@ == strip_cr(spec_pieces[j]),
        decreases n - i,
    {
        let piece = pieces[i].clone();
        proof {
            assert(piece@ == pieces@[i as int]@);
        }
        out.push(strip_cr_vec(piece));
        i += 1;
    }
    let last = pieces[n - 1].clone();
    if last.len() > 0 {
        out.push(last);
    }
    proof {
        let done = spec_pieces.drop_last();
        let body = Seq::new(done.len(), |k: int| strip_cr(done[k]));
        if spec_pieces.last().len() == 0 {
            assert forall|j: int| 0 <= j < out@.len() implies #[trigger] out@[j]@ == lines_of(
                s@,
            )[j] by {
                assert(lines_of(s@) == body);
            }
        } else {
            assert(lines_of(s@) == body.push(spec_pieces.last()));
            assert forall|j: int| 0 <= j < out@.len() implies #[trigger] out@[j]@ == lines_of(
                s@,
            )[j] by {
                if j < i {
                    assert(lines_of(s@)[j] == body[j]);
                }
            }
        }
    }
    out
}

// ---------------------------------------------------------------------------
// Searching
// ---------------------------------------------------------------------------

pub open spec fn occurs_at(h: Seq<char>, n: Seq<char>, i: int) -> bool {
    0 <= i && i + n.len() <= h.len() && h.subrange(i, i + n.len()) == n
}

/// `str::find` for a string pattern: the first position where `n` occurs.
pub open spec fn find_str(h: Seq<char>, n: Seq<char>) -> Option<int>
    decreases h.len(),
{
    if h.len() < n.len() {
        None
    } else if h.len() == 0 {
        if n.len() == 0 {
            Some(0)
        } else {
            None
        }
    } else {
        match find_str(h.drop_last(), n) {
            Some(i) => Some(i),
            None => if occurs_at(h, n, h.len() - n.len()) {
                Some(h.len() - n.len())
            } else {
                None
            },
        }
    }
}

/// `str::contains` for a string pattern.
pub open spec fn contains_str(h: Seq<char>, n: Seq<char>) -> bool {
    find_str(h, n) is Some
}

pub proof fn lemma_find_str(h: Seq<char>, n: Seq<char>)
    ensures
        find_str(h, n) is Some ==> occurs_at(h, n, find_str(h, n)->0),
        find_str(h, n) is Some ==> forall|j: int|
            0 <= j < find_str(h, n)->0 ==> !#[trigger] occurs_at(h, n, j),
        find_str(h, n) is None ==> forall|j: int| !#[trigger] occurs_at(h, n, j),
    decreases h.len(),
{
    if h.len() < n.len() {
    } else if h.len() == 0 {
        if n.len() == 0 {
            assert(h.subrange(0, 0) =~= n);
        }
    } else {
        let p = h.drop_last();
        lemma_find_str(p, n);
        assert forall|j: int| occurs_at(p, n, j) <==> (occurs_at(h, n, j) && j + n.len() < h.len()) by {
            if 0 <= j && j + n.len() <= p.len() {
                assert(p.subrange(j, j + n.len()) =~= h.subrange(j, j + n.len()));
            }
        }
    }
}

fn occurs_at_exec(h: &Vec<char>, n: &Vec<char>, i: usize) -> (b: bool)
    requires
        i + n.len() <= h.len(),
    ensures
        b == occurs_at(h@, n@, i as int),
{
    let mut k: usize = 0;
    while k < n.len()
        invariant
            i + n.len() <= h.len(),
            k <= n.len(),
            forall|j: int| 0 <= j < k ==> h@[i + j] == n@[j],
        decreases n.len() - k,
    {
        if h[i + k] != n[k] {
            assert(h@.subrange(i as int, i + n.len())[k as int] != n@[k as int]);
            return false;
        }
        k += 1;
    }
    assert(h@.subrange(i as int, i + n.len()) =~= n@);
    true
}

/// `str::find` for a string pattern on character vectors.
pub fn find(h: &Vec<char>, n: &Vec<char>) -> (r: Option<usize>)
    ensures
        match r {
            Some(i) => find_str(h@, n@) == Some(i as int),
            None => find_str(h@, n@) is None,
        },
{
    proof {
        lemma_find_str(h@, n@);
    }
    if h.len() < n.len() {
        return None;
    }
    let last = h.len() - n.len();
    let mut i: usize = 0;
    loop
        invariant
            n.len() <= h.len(),
            last == h.len() - n.len(),
            i <= last,
            forall|j: int| 0 <= j < i ==> !occurs_at(h@, n@, j),
        decreases last - i,
    {
        if occurs_at_exec(h, n, i) {
            proof {
                lemma_find_str(h@, n@);
                match find_str(h@, n@) {
                    Some(f) => {
                        if f < i {
                            assert(!occurs_at(h@, n@, f));
                        } else if f > i {
                            assert(!occurs_at(h@, n@, i as int));
                        }
                    },
                    None => {
                        assert(occurs_at(h@, n@, i as int));
                    },
                }
            }
            return Some(i);
        }
        if i == last {
            proof {
                lemma_find_str(h@, n@);
                match find_str(h@, n@) {
                    Some(f) => {
                        if f < i {
                            assert(!occurs_at(h@, n@, f));
                        } else if f > i {
                        }
                    },
                    None => {},
                }
            }
            return None;
        }
        i += 1;
    }
}

/// `str::strip_prefix` for a string pattern.
pub open spec fn strip_prefix(s: Seq<char>, p: Seq<char>) -> Option<Seq<char>> {
    if p.len() <= s.len() && s.subrange(0, p.len() as int) == p {
        Some(s.subrange(p.len() as int, s.len() as int))
    } else {
        None
    }
}

pub fn strip_prefix_exec(s: &Vec<char>, p: &Vec<char>) -> (r: Option<Vec<char>>)
    ensures
        match r {
            Some(rest) => strip_prefix(s@, p@) == Some(rest@),
            None => strip_prefix(s@, p@) is None,
        },
{
    if p.len() > s.len() {
        return None;
    }
    if occurs_at_exec(s, p, 0) {
        Some(subvec(s, p.len(), s.len()))
    } else {
        None
    }
}

// ---------------------------------------------------------------------------
// Unsigned integer parsing (`<uN as FromStr>::from_str`) and printing
// ---------------------------------------------------------------------------

pub open spec fn all_digits(s: Seq<char>) -> bool {
    forall|i: int| 0 <= i < s.len() ==> #[trigger] is_digit(s[i])
}

pub open spec fn digits_value(s: Seq<char>) -> nat
    decreases s.len(),
{
    if s.len() == 0 {
        0
    } else {
        digits_value(s.drop_last()) * 10 + digit_value(s.last()) as nat
    }
}

/// The value that `from_str` gives an unsigned integer type whose largest
/// value is `max`: an optional `+`, then one or more ASCII digits, and no
/// overflow; `None` for every input it rejects.
pub open spec fn parse_unsigned(s: Seq<char>, max: int) -> Option<nat> {
    let body = if s.len() >= 2 && s[0] == '+' {
        s.drop_first()
    } else {
        s
    };
    if body.len() == 0 || !all_digits(body) || digits_value(body) > max {
        None
    } else {
        Some(digits_value(body))
    }
}

pub proof fn lemma_digits_value_grows(s: Seq<char>, c: char)
    requires
        is_digit(c),
    ensures
        digits_value(s.push(c)) >= digits_value(s),
        digits_value(s.push(c)) == digits_value(s) * 10 + digit_value(c),
{
    assert(s.push(c).drop_last() =~= s);
}

/// Parses `s` as a `u64` the way `str::parse::<u64>` does.
pub fn parse_u64(s: &Vec<char>) -> (r: Option<u64>)
    ensures
        match r {
            Some(v) => parse_unsigned(s@, u64::MAX as int) == Some(v as nat),
            None => parse_unsigned(s@, u64::MAX as int) is None,
        },
{
    let start: usize = if s.len() >= 2 && s[0] == '+' {
        1
    } else {
        0
    };
    let ghost body = if s@.len() >= 2 && s@[0] == '+' {
        s@.drop_first()
    } else {
        s@
    };
    assert(body =~= s@.subrange(start as int, s.len() as int));
    if start == s.len() {
        return None;
    }
    let mut value: u64 = 0;
    let mut overflow = false;
    let mut i = start;
    while i < s.len()
        invariant
            start <= i <= s.len(),
            body == s@.subrange(start as int, s.len() as int),
            body == (if s@.len() >= 2 && s@[0] == '+' {
                s@.drop_first()
            } else {
                s@
            }),
            all_digits(s@.subrange(start as int, i as int)),
            !overflow ==> value == digits_value(s@.subrange(start as int, i as int)),
            overflow ==> digits_value(s@.subrange(start as int, i as int)) > u64::MAX,
        decreases s.len() - i,
    {
        let c = s[i];
        if !is_digit_char(c) {
            assert(body[i - start] == c);
            assert(!is_digit(body[i - start]));
            assert(!all_digits(body));
            return None;
        }
        let ghost before = s@.subrange(start as int, i as int);
        let ghost after = s@.subrange(start as int, i + 1);
        assert(after =~= before.push(c));
        proof {
            lemma_digits_value_grows(before, c);
        }
        let d: u64 = (c as u32 - '0' as u32) as u64;
        if !overflow {
            if value > (u64::MAX - d) / 10 {
                overflow = true;
            } else {
                value = value * 10 + d;
            }
        }
        i += 1;
    }
    assert(s@.subrange(start as int, s.len() as int) == body);
    if overflow {
        None
    } else {
        Some(value)
    }
}

/// Parses `s` as a `u32` the way `str::parse::<u32>` does.
pub fn parse_u32(s: &Vec<char>) -> (r: Option<u32>)
    ensures
        match r {
            Some(v) => parse_unsigned(s@, u32::MAX as int) == Some(v as nat),
            None => parse_unsigned(s@, u32::MAX as int) is None,
        },
{
    match parse_u64(s) {
        Some(v) => if v <= u32::MAX as u64 {
            Some(v as u32)
        } else {
            None
        },
        None => None,
    }
}

pub open spec fn digit_char(d: int) -> char {
    ((d + 48) as u32) as char
}

/// Decimal representation of `n` (`Display` for unsigned integers).
pub open spec fn decimal(n: nat) -> Seq<char>
    decreases n,
{
    if n < 10 {
        seq![digit_char(n as int)]
    } else {
        decimal(n / 10).push(digit_char((n % 10) as int))
    }
}

/// Decimal representation of `n`, left-padded with `0` to `width` digits
/// (`{:0width$}`).
pub open spec fn decimal_padded(n: nat, width: nat) -> Seq<char> {
    let d = decimal(n);
    if d.len() >= width {
        d
    } else {
        Seq::new((width - d.len()) as nat, |i: int| '0') + d
    }
}

fn digit_to_char(d: u64) -> (c: char)
    requires
        d < 10,
    ensures
        c == digit_char(d as int),
{
    char_from_ascii_code((d + 48) as u32)
}

/// Appends the decimal representation of `n` to `out`.
pub fn push_decimal(out: &mut Vec<char>, n: u64)
    ensures
        final(out)@ == old(out)@ + decimal(n as nat),
    decreases n,
{
    if n < 10 {
        out.push(digit_to_char(n));
        assert(decimal(n as nat) == seq![digit_char(n as int)]);
    } else {
        push_decimal(out, n / 10);
        out.push(digit_to_char(n % 10));
    }
}

pub proof fn lemma_decimal_len(n: nat)
    ensures
        decimal(n).len() >= 1,
    decreases n,
{
    if n >= 10 {
        lemma_decimal_len(n / 10);
    }
}

/// Appends `n` in decimal, left-padded with `0` to `width` digits.
pub fn push_decimal_padded(out: &mut Vec<char>, n: u64, width: usize)
    ensures
        final(out)@ == old(out)@ + decimal_padded(n as nat, width as nat),
{
    let mut digits: Vec<char> = Vec::new();
    push_decimal(&mut digits, n);
    assert(digits@ =~= decimal(n as nat));
    let mut k = digits.len();
    let ghost start = out@;
    while k < width
        invariant
            digits@ == decimal(n as nat),
            digits.len() <= k <= width || (k == digits.len() && k >= width),
            out@ == start + Seq::new((k - digits.len()) as nat, |i: int| '0'),
        decreases width - k,
    {
        out.push('0');
        k += 1;
        assert(out@ =~= start + Seq::new((k - digits.len()) as nat, |i: int| '0'));
    }
    let mut j: usize = 0;
    let ghost mid = out@;
    while j < digits.len()
        invariant
            j <= digits.len(),
            out@ == mid + digits@.subrange(0, j as int),
        decreases digits.len() - j,
    {
        out.push(digits[j]);
        j += 1;
        assert(out@ =~= mid + digits@.subrange(0, j as int));
    }
    assert(digits@.subrange(0, digits.len() as int) =~= digits@);
    assert(out@ =~= start + decimal_padded(n as nat, width as nat));
}

/// Appends the characters of `s` to `out`.
pub fn push_all(out: &mut Vec<char>, s: &Vec<char>)
    ensures
        final(out)@ == old(out)@ + s@,
{
    let ghost start = out@;
    let mut j: usize = 0;
    while j < s.len()
        invariant
            j <= s.len(),
            out@ == start + s@.subrange(0, j as int),
        decreases s.len() - j,
    {
        out.push(s[j]);
        j += 1;
        assert(out@ =~= start + s@.subrange(0, j as int));
    }
    assert(s@.subrange(0, s.len() as int) =~= s@);
}

/// Appends the characters of `s` to `out`.
pub fn push_str(out: &mut Vec<char>, s: &str)
    ensures
        final(out)@ == old(out)@ + s@,
{
    let cs = chars_of(s);
    push_all(out, &cs);
}

/// `u64::to_string`.
pub fn u64_to_string(n: u64) -> (s: String)
    ensures
        s@ == decimal(n as nat),
{
    let mut out: Vec<char> = Vec::new();
    push_decimal(&mut out, n);
    assert(out@ =~= decimal(n as nat));
    string_from_chars(out.as_slice())
}

/// `str::trim` followed by `to_string`.
pub fn trim_string(s: &str) -> (r: String)
    ensures
        r@ == trim(s@),
{
    let cs = chars_of(s);
    let t = trim_ws(&cs);
    string_from_chars(t.as_slice())
}

/// `str::to_ascii_lowercase` on a character vector.
pub fn ascii_lowercase(s: &Vec<char>) -> (r: Vec<char>)
    ensures
        r@ == ascii_lower_seq(s@),
{
    let mut r: Vec<char> = Vec::new();
    let mut i: usize = 0;
    while i < s.len()
        invariant
            i <= s.len(),
            r@ == ascii_lower_seq(s@).subrange(0, i as int),
        decreases s.len() - i,
    {
        r.push(ascii_lower_char(s[i]));
        i += 1;
        assert(r@ =~= ascii_lower_seq(s@).subrange(0, i as int));
    }
    assert(r@ =~= ascii_lower_seq(s@));
    r
}

/// `str::contains` for a string pattern on character vectors.
pub fn contains(h: &Vec<char>, n: &str) -> (b: bool)
    ensures
        b == contains_str(h@, n@),
{
    let nv = chars_of(n);
    match find(h, &nv) {
        Some(_) => true,
        None => false,
    }
}

/// `str::to_lowercase` (full Unicode lower-casing) of `s`.
pub uninterp spec fn lowercase(s: Seq<char>) -> Seq<char>;

/// Lower-cases `s` with std's `str::to_lowercase`, which maps every
/// character by the Unicode lower-case tables; the contract only names the
/// result.
#[verifier::external_body]
pub(crate) fn to_lowercase(s: &str) -> (r: String)
    ensures
        r@ == lowercase(s@),
{
    s.to_lowercase()
}

} // verus!
