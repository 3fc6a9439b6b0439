//! The layout log that mkpsxiso writes: where every file of the image
//! was placed.

use vstd::prelude::*;

verus! {

/// A character Rust counts as white space (the Unicode White_Space
/// property).
pub open spec fn is_ws(c: char) -> bool {
    let u = c as u32;
    ||| (0x09 <= u && u <= 0x0d)
    ||| u == 0x20
    ||| u == 0x85
    ||| u == 0xa0
    ||| u == 0x1680
    ||| (0x2000 <= u && u <= 0x200a)
    ||| u == 0x2028
    ||| u == 0x2029
    ||| u == 0x202f
    ||| u == 0x205f
    ||| u == 0x3000
}

/// Whether the character is white space.
pub fn is_whitespace(c: char) -> (r: bool)
    ensures
        r == is_ws(c),
{
    let u = c as u32;
    (0x09 <= u && u <= 0x0d) || u == 0x20 || u == 0x85 || u == 0xa0 || u == 0x1680 || (0x2000 <= u && u
        <= 0x200a) || u == 0x2028 || u == 0x2029 || u == 0x202f || u == 0x205f || u == 0x3000
}

/// The words of `s` from `i` to `end`, as ranges, split at white space;
/// `start` is where the word being read began, if one is.
pub open spec fn words_from(s: Seq<char>, i: int, end: int, start: Option<int>) -> Seq<(int, int)>
    decreases end - i,
{
    if i >= end {
        match start {
            Some(a) => seq![(a, end)],
            None => Seq::empty(),
        }
    } else if is_ws(s[i]) {
        match start {
            Some(a) => seq![(a, i)] + words_from(s, i + 1, end, None),
            None => words_from(s, i + 1, end, None),
        }
    } else {
        match start {
            Some(a) => words_from(s, i + 1, end, Some(a)),
            None => words_from(s, i + 1, end, Some(i)),
        }
    }
}

/// The words of `s` from `a` to `b`.
pub open spec fn words(s: Seq<char>, a: int, b: int) -> Seq<(int, int)> {
    words_from(s, a, b, None)
}

/// The first position from `i` on, before `end`, that is not white space,
/// or `end`.
pub open spec fn skip_ws(s: Seq<char>, i: int, end: int) -> int
    decreases end - i,
{
    if i < end && is_ws(s[i]) {
        skip_ws(s, i + 1, end)
    } else {
        i
    }
}

/// The end of `s` from `a` to `end` without its trailing white space.
pub open spec fn trim_back(s: Seq<char>, a: int, end: int) -> int
    decreases end - a,
{
    if end > a && is_ws(s[end - 1]) {
        trim_back(s, a, end - 1)
    } else {
        end
    }
}

/// The range of `s` from `a` to `b` without white space at either end.
pub open spec fn trimmed(s: Seq<char>, a: int, b: int) -> (int, int) {
    let ta = skip_ws(s, a, b);
    (ta, trim_back(s, ta, b))
}

/// Skips white space.
fn skip_whitespace(s: &Vec<char>, i: usize, end: usize) -> (r: usize)
    requires
        i <= end <= s.len(),
    ensures
        r == skip_ws(s@, i as int, end as int),
        i <= r <= end,
{
    let mut k = i;
    while k < end && is_whitespace(s[k])
        invariant
            i <= k <= end <= s.len(),
            skip_ws(s@, k as int, end as int) == skip_ws(s@, i as int, end as int),
        decreases end - k,
    {
        k += 1;
    }
    k
}

/// Drops trailing white space.
fn trim_end(s: &Vec<char>, a: usize, end: usize) -> (r: usize)
    requires
        a <= end <= s.len(),
    ensures
        r == trim_back(s@, a as int, end as int),
        a <= r <= end,
{
    let mut k = end;
    while k > a && is_whitespace(s[k - 1])
        invariant
            a <= k <= end <= s.len(),
            trim_back(s@, a as int, k as int) == trim_back(s@, a as int, end as int),
        decreases k,
    {
        k -= 1;
    }
    k
}

/// The words of `s` from `a` to `b`.
fn split_words(s: &Vec<char>, a: usize, b: usize) -> (r: Vec<(usize, usize)>)
    requires
        a <= b <= s.len(),
    ensures
        r@.map_values(|w: (usize, usize)| (w.0 as int, w.1 as int)) == words(s@, a as int, b as int),
        forall|k: int| 0 <= k < r.len() ==> a <= (#[trigger] r@[k]).0 < r@[k].1 <= b,
{
    let mut r: Vec<(usize, usize)> = Vec::new();
    let mut start: Option<usize> = None;
    let mut i = a;
    while i < b
        invariant
            a <= i <= b <= s.len(),
            start matches Some(st) ==> a <= st < i,
            forall|k: int| 0 <= k < r.len() ==> a <= (#[trigger] r@[k]).0 < r@[k].1 <= i,
            r@.map_values(|w: (usize, usize)| (w.0 as int, w.1 as int)) + words_from(
                s@,
                i as int,
                b as int,
                match start {
                    Some(st) => Some(st as int),
                    None => None,
                },
            ) == words(s@, a as int, b as int),
        decreases b - i,
    {
        let ghost before = r@;
        if is_whitespace(s[i]) {
            match start {
                Some(st) => {
                    r.push((st, i));
                    start = None;
                },
                None => {},
            }
        } else {
            match start {
                Some(_) => {},
                None => {
                    start = Some(i);
                },
            }
        }
        proof {
            let f = |w: (usize, usize)| (w.0 as int, w.1 as int);
            if r@.len() > before.len() {
                assert(r@.map_values(f) =~= before.map_values(f).push(f(r@[before.len() as int])));
            }
        }
        i += 1;
    }
    match start {
        Some(st) => {
            let ghost before = r@;
            r.push((st, b));
            proof {
                let f = |w: (usize, usize)| (w.0 as int, w.1 as int);
                assert(r@.map_values(f) =~= before.map_values(f).push(f(r@[before.len() as int])));
            }
        },
        None => {},
    }
    r
}

/// A decimal digit.
pub open spec fn is_digit(c: char) -> bool {
    '0' <= c && c <= '9'
}

/// Every character is a decimal digit.
pub open spec fn all_digits(d: Seq<char>) -> bool {
    forall|k: int| 0 <= k < d.len() ==> is_digit(#[trigger] d[k])
}

/// The value of decimal digits.
pub open spec fn digits_value(d: Seq<char>) -> int
    decreases d.len(),
{
    if d.len() == 0 {
        0
    } else {
        digits_value(d.drop_last()) * 10 + (d.last() as int - '0' as int)
    }
}

/// The digits of a number as Rust reads an unsigned one: a leading plus
/// sign is allowed.
pub open spec fn unsigned_digits(tok: Seq<char>) -> Seq<char> {
    if tok.len() > 0 && tok[0] == '+' {
        tok.drop_first()
    } else {
        tok
    }
}

/// The word reads as an unsigned number of at most `max`.
pub open spec fn parses(tok: Seq<char>, max: int) -> bool {
    let d = unsigned_digits(tok);
    d.len() > 0 && all_digits(d) && digits_value(d) <= max
}

/// The value a word that parses reads as.
pub open spec fn parsed(tok: Seq<char>) -> int {
    digits_value(unsigned_digits(tok))
}

/// A prefix of digits has no larger value.
proof fn lemma_digits_prefix(d: Seq<char>, k: int)
    requires
        all_digits(d),
        0 <= k <= d.len(),
    ensures
        0 <= digits_value(d.take(k)) <= digits_value(d),
    decreases d.len(),
{
    if k == d.len() {
        assert(d.take(k) =~= d);
        lemma_digits_nonneg(d);
    } else {
        assert(d.drop_last().take(k) =~= d.take(k));
        lemma_digits_prefix(d.drop_last(), k);
        lemma_digits_nonneg(d.drop_last());
    }
}

/// Digits have a value of at least zero.
proof fn lemma_digits_nonneg(d: Seq<char>)
    requires
        all_digits(d),
    ensures
        digits_value(d) >= 0,
    decreases d.len(),
{
    if d.len() > 0 {
        lemma_digits_nonneg(d.drop_last());
    }
}

/// Reads the word of `s` from `a` to `b` as an unsigned number of at most
/// `max`, as Rust's `parse` does.
fn parse_number(s: &Vec<char>, a: usize, b: usize, max: u64) -> (r: Option<u64>)
    requires
        a <= b <= s.len(),
        max >= 9,
    ensures
        r is Some <==> parses(s@.subrange(a as int, b as int), max as int),
        r matches Some(v) ==> v == parsed(s@.subrange(a as int, b as int)),
{
    let ghost tok = s@.subrange(a as int, b as int);
    let mut i = a;
    if i < b && s[i] == '+' {
        i += 1;
    }
    let ghost d = unsigned_digits(tok);
    proof {
        assert(d =~= s@.subrange(i as int, b as int));
    }
    if i == b {
        return None;
    }
    let start = i;
    let mut value: u64 = 0;
    while i < b
        invariant
            start <= i <= b <= s.len(),
            d == s@.subrange(start as int, b as int),
            d == unsigned_digits(s@.subrange(a as int, b as int)),
            max >= 9,
            d.len() > 0,
            value as int == digits_value(d.take(i - start)),
            value <= max,
            all_digits(d.take(i - start)),
        decreases b - i,
    {
        let c = s[i];
        let ghost t1 = d.take(i - start + 1);
        proof {
            assert(t1.drop_last() =~= d.take(i - start));
            assert(t1.last() == c);
        }
        if !('0' <= c && c <= '9') {
            proof {
                assert(d[i - start] == c);
                assert(!is_digit(d[i - start]));
                assert(!all_digits(d));
            }
            return None;
        }
        let digit = (c as u32 - '0' as u32) as u64;
        assert(digit <= 9);
        if value > (max - digit) / 10 {
            proof {
                assert(value * 10 + digit > max) by (nonlinear_arith)
                    requires
                        value > (max - digit) / 10,
                        digit <= max,
                ;
                if all_digits(d) {
                    lemma_digits_prefix(d, i - start + 1);
                }
            }
            return None;
        }
        proof {
            assert(value * 10 + digit <= max) by (nonlinear_arith)
                requires
                    value <= (max - digit) / 10,
                    digit <= max,
            ;
        }
        value = value * 10 + digit;
        i += 1;
        proof {
            assert forall|k: int| 0 <= k < t1.len() implies is_digit(#[trigger] t1[k]) by {
                if k < t1.len() - 1 {
                    assert(t1[k] == d.take(i - 1 - start)[k]);
                }
            }
        }
    }
    proof {
        assert(d.take(i - start) =~= d);
    }
    Some(value)
}

/// An entry of the layout log.
#[derive(Debug, Clone)]
pub enum Entry {
    File { name: String, length: u32, lba: u32, _timecode: String, _bytes: u64, _source: String },
    Dir { _name: String, _lba: u32, _timecode: String },
    Xa { name: String, length: u32, lba: u32, _timecode: String, _bytes: u64, _source: String },
    DirEnd(String),
}

/// The layout log: the image's files and its entries in order.
#[derive(Debug, Clone)]
pub struct LbaLog {
    pub bin_file: String,
    pub cue_file: String,
    pub entries: Vec<Entry>,
}

/// An entry with its texts as characters.
pub enum EntryView {
    File { name: Seq<char>, length: u32, lba: u32, timecode: Seq<char>, bytes: u64, source: Seq<char> },
    Dir { name: Seq<char>, lba: u32, timecode: Seq<char> },
    Xa { name: Seq<char>, length: u32, lba: u32, timecode: Seq<char>, bytes: u64, source: Seq<char> },
    DirEnd(Seq<char>),
}

/// The entry with its texts as characters.
pub open spec fn entry_view(e: Entry) -> EntryView {
    match e {
        Entry::File { name, length, lba, _timecode, _bytes, _source } => EntryView::File {
            name: name@,
            length,
            lba,
            timecode: _timecode@,
            bytes: _bytes,
            source: _source@,
        },
        Entry::Dir { _name, _lba, _timecode } => EntryView::Dir { name: _name@, lba: _lba, timecode: _timecode@ },
        Entry::Xa { name, length, lba, _timecode, _bytes, _source } => EntryView::Xa {
            name: name@,
            length,
            lba,
            timecode: _timecode@,
            bytes: _bytes,
            source: _source@,
        },
        Entry::DirEnd(name) => EntryView::DirEnd(name@),
    }
}

/// The log with its texts as characters.
pub struct LogView {
    pub bin_file: Seq<char>,
    pub cue_file: Seq<char>,
    pub entries: Seq<EntryView>,
}

/// The log with its texts as characters.
pub open spec fn log_view(l: LbaLog) -> LogView {
    LogView {
        bin_file: l.bin_file@,
        cue_file: l.cue_file@,
        entries: l.entries@.map_values(|e: Entry| entry_view(e)),
    }
}

/// What a line of the log tells.
pub enum LineEffect {
    Bin(Seq<char>),
    Cue(Seq<char>),
    Push(EntryView),
    Nothing,
}

/// The line that names the image's data file starts so.
pub const BIN_PREFIX: [char; 15] = ['I', 'm', 'a', 'g', 'e', ' ', 'b', 'i', 'n', ' ', 'f', 'i', 'l', 'e', ':'];

/// The line that names the image's cue sheet starts so.
pub const CUE_PREFIX: [char; 15] = ['I', 'm', 'a', 'g', 'e', ' ', 'c', 'u', 'e', ' ', 'f', 'i', 'l', 'e', ':'];

/// The kinds of entries.
pub const FILE_WORD: [char; 4] = ['F', 'i', 'l', 'e'];

/// An entry of an XA file.
pub const XA_WORD: [char; 2] = ['X', 'A'];

/// An entry of a directory.
pub const DIR_WORD: [char; 3] = ['D', 'i', 'r'];

/// The end of a directory.
pub const END_WORD: [char; 3] = ['E', 'n', 'd'];

/// The range from `a` to `b` starts with `p`.
pub open spec fn has_prefix(s: Seq<char>, a: int, b: int, p: Seq<char>) -> bool {
    b - a >= p.len() && s.subrange(a, a + p.len()) == p
}

/// The characters of a word.
pub open spec fn word_text(s: Seq<char>, w: (int, int)) -> Seq<char> {
    s.subrange(w.0, w.1)
}

/// The text of the trimmed range after a prefix of `n` characters.
pub open spec fn value_after(s: Seq<char>, ta: int, tb: int, n: int) -> Seq<char> {
    let (va, vb) = trimmed(s, ta + n, tb);
    s.subrange(va, vb)
}

/// What the line of `s` from `a` to `b` tells: the names of the image's
/// files, or an entry given by its words: a file or XA file with name,
/// length, sector, time code, size and source (the entry is skipped if
/// one of these up to the size is missing or is not a number); a
/// directory with name, and sector and time code if given; the end of a
/// directory.
pub open spec fn line_effect(s: Seq<char>, a: int, b: int) -> LineEffect {
    let (ta, tb) = trimmed(s, a, b);
    let ws = words(s, ta, tb);
    if has_prefix(s, ta, tb, BIN_PREFIX@) {
        LineEffect::Bin(value_after(s, ta, tb, 15))
    } else if has_prefix(s, ta, tb, CUE_PREFIX@) {
        LineEffect::Cue(value_after(s, ta, tb, 15))
    } else if ws.len() == 0 {
        LineEffect::Nothing
    } else {
        let t0 = word_text(s, ws[0]);
        if t0 == FILE_WORD@ || t0 == XA_WORD@ {
            if ws.len() >= 6 && parses(word_text(s, ws[2]), u32::MAX as int) && parses(
                word_text(s, ws[3]),
                u32::MAX as int,
            ) && parses(word_text(s, ws[5]), u64::MAX as int) {
                let name = word_text(s, ws[1]);
                let length = parsed(word_text(s, ws[2])) as u32;
                let lba = parsed(word_text(s, ws[3])) as u32;
                let timecode = word_text(s, ws[4]);
                let bytes = parsed(word_text(s, ws[5])) as u64;
                let source = if ws.len() >= 7 {
                    word_text(s, ws[6])
                } else {
                    Seq::empty()
                };
                if t0 == XA_WORD@ {
                    LineEffect::Push(EntryView::Xa { name, length, lba, timecode, bytes, source })
                } else {
                    LineEffect::Push(EntryView::File { name, length, lba, timecode, bytes, source })
                }
            } else {
                LineEffect::Nothing
            }
        } else if t0 == DIR_WORD@ {
            if ws.len() >= 2 {
                LineEffect::Push(
                    EntryView::Dir {
                        name: word_text(s, ws[1]),
                        lba: if ws.len() >= 3 && parses(word_text(s, ws[2]), u32::MAX as int) {
                            parsed(word_text(s, ws[2])) as u32
                        } else {
                            0
                        },
                        timecode: if ws.len() >= 4 {
                            word_text(s, ws[3])
                        } else {
                            Seq::empty()
                        },
                    },
                )
            } else {
                LineEffect::Nothing
            }
        } else if t0 == END_WORD@ {
            LineEffect::Push(
                EntryView::DirEnd(
                    if ws.len() >= 2 {
                        word_text(s, ws[1])
                    } else {
                        Seq::empty()
                    },
                ),
            )
        } else {
            LineEffect::Nothing
        }
    }
}

/// The log after a line's effect.
pub open spec fn applied(l: LogView, e: LineEffect) -> LogView {
    match e {
        LineEffect::Bin(v) => LogView { bin_file: v, ..l },
        LineEffect::Cue(v) => LogView { cue_file: v, ..l },
        LineEffect::Push(entry) => LogView { entries: l.entries.push(entry), ..l },
        LineEffect::Nothing => l,
    }
}

/// The lines of `s` from `i` on, as ranges, split at line feeds; the
/// current line began at `a`.
pub open spec fn lines_from(s: Seq<char>, i: int, a: int) -> Seq<(int, int)>
    decreases s.len() - i,
{
    if i >= s.len() {
        seq![(a, s.len() as int)]
    } else if s[i] == '\n' {
        seq![(a, i)] + lines_from(s, i + 1, i + 1)
    } else {
        lines_from(s, i + 1, a)
    }
}

/// The log after the lines, in order.
pub open spec fn log_of(s: Seq<char>, ls: Seq<(int, int)>) -> LogView
    decreases ls.len(),
{
    if ls.len() == 0 {
        LogView { bin_file: Seq::empty(), cue_file: Seq::empty(), entries: Seq::empty() }
    } else {
        applied(log_of(s, ls.drop_last()), line_effect(s, ls.last().0, ls.last().1))
    }
}

/// The log that the text describes.
pub open spec fn lba_log_of(s: Seq<char>) -> LogView {
    log_of(s, lines_from(s, 0, 0))
}

/// Calls `String::from_iter` on the characters from `a` to `b`: a string
/// of those characters in order.
#[verifier::external_body]
fn string_of(s: &Vec<char>, a: usize, b: usize) -> (r: String)
    requires
        a <= b <= s.len(),
    ensures
        r@ == s@.subrange(a as int, b as int),
{
    String::from_iter(s[a..b].iter())
}

/// Whether the range from `a` to `b` starts with `p`.
fn starts_with<const N: usize>(s: &Vec<char>, a: usize, b: usize, p: &[char; N]) -> (r: bool)
    requires
        a <= b <= s.len(),
    ensures
        r == has_prefix(s@, a as int, b as int, p@),
{
    if b - a < N {
        return false;
    }
    let mut k: usize = 0;
    while k < N
        invariant
            k <= N,
            a + N <= b <= s.len(),
            forall|j: int| 0 <= j < k ==> s@[a + j] == p@[j],
        decreases N - k,
    {
        if s[a + k] != p[k] {
            proof {
                assert(s@.subrange(a as int, a + N)[k as int] != p@[k as int]);
            }
            return false;
        }
        k += 1;
    }
    assert(s@.subrange(a as int, a + N) =~= p@);
    true
}

/// Whether the word is `p`.
fn word_is<const N: usize>(s: &Vec<char>, w: (usize, usize), p: &[char; N]) -> (r: bool)
    requires
        w.0 <= w.1 <= s.len(),
    ensures
        r == (word_text(s@, (w.0 as int, w.1 as int)) == p@),
{
    if w.1 - w.0 != N {
        proof {
            assert(word_text(s@, (w.0 as int, w.1 as int)).len() != p@.len());
        }
        return false;
    }
    let r = starts_with(s, w.0, w.1, p);
    proof {
        assert(s@.subrange(w.0 as int, w.0 + N) == word_text(s@, (w.0 as int, w.1 as int)));
    }
    r
}

/// Adds an entry to the log.
fn push_entry(log: &mut LbaLog, e: Entry)
    ensures
        log_view(*final(log)) == applied(log_view(*old(log)), LineEffect::Push(entry_view(e))),
{
    log.entries.push(e);
    assert(log.entries@.map_values(|x: Entry| entry_view(x)) =~= old(log).entries@.map_values(|x: Entry| entry_view(x)).push(
        entry_view(e),
    ));
}

/// Applies what the line of `s` from `a` to `b` tells to the log.
#[verifier::rlimit(40)]
fn process_line(s: &Vec<char>, a: usize, b: usize, log: &mut LbaLog)
    requires
        a <= b <= s.len(),
    ensures
        log_view(*final(log)) == applied(log_view(*old(log)), line_effect(s@, a as int, b as int)),
{
    let ta = skip_whitespace(s, a, b);
    let tb = trim_end(s, ta, b);
    if starts_with(s, ta, tb, &BIN_PREFIX) {
        let va = skip_whitespace(s, ta + 15, tb);
        let vb = trim_end(s, va, tb);
        log.bin_file = string_of(s, va, vb);
        return;
    }
    if starts_with(s, ta, tb, &CUE_PREFIX) {
        let va = skip_whitespace(s, ta + 15, tb);
        let vb = trim_end(s, va, tb);
        log.cue_file = string_of(s, va, vb);
        return;
    }
    let ws = split_words(s, ta, tb);
    let ghost wsv = words(s@, ta as int, tb as int);
    proof {
        let f = |w: (usize, usize)| (w.0 as int, w.1 as int);
        assert(ws@.map_values(f) == wsv);
        assert forall|k: int| 0 <= k < ws.len() implies #[trigger] wsv[k] == (ws@[k].0 as int, ws@[k].1 as int) by {
            assert(ws@.map_values(f)[k] == f(ws@[k]));
        }
    }
    if ws.len() == 0 {
        return;
    }
    let w0 = ws[0];
    let is_file = word_is(s, w0, &FILE_WORD);
    let is_xa = word_is(s, w0, &XA_WORD);
    if is_file || is_xa {
        if ws.len() < 6 {
            return;
        }
        let length = match parse_number(s, ws[2].0, ws[2].1, u32::MAX as u64) {
            Some(v) => v as u32,
            None => return,
        };
        let lba = match parse_number(s, ws[3].0, ws[3].1, u32::MAX as u64) {
            Some(v) => v as u32,
            None => return,
        };
        let bytes = match parse_number(s, ws[5].0, ws[5].1, u64::MAX) {
            Some(v) => v,
            None => return,
        };
        let name = string_of(s, ws[1].0, ws[1].1);
        let timecode = string_of(s, ws[4].0, ws[4].1);
        let source = if ws.len() >= 7 {
            string_of(s, ws[6].0, ws[6].1)
        } else {
            String::new()
        };
        if is_xa {
            push_entry(log, Entry::Xa { name, length, lba, _timecode: timecode, _bytes: bytes, _source: source });
        } else {
            push_entry(log, Entry::File { name, length, lba, _timecode: timecode, _bytes: bytes, _source: source });
        }
        return;
    }
    if word_is(s, w0, &DIR_WORD) {
        if ws.len() < 2 {
            return;
        }
        let name = string_of(s, ws[1].0, ws[1].1);
        let lba: u32 = if ws.len() >= 3 {
            match parse_number(s, ws[2].0, ws[2].1, u32::MAX as u64) {
                Some(v) => v as u32,
                None => 0,
            }
        } else {
            0
        };
        let timecode = if ws.len() >= 4 {
            string_of(s, ws[3].0, ws[3].1)
        } else {
            String::new()
        };
        push_entry(log, Entry::Dir { _name: name, _lba: lba, _timecode: timecode });
        return;
    }
    if word_is(s, w0, &END_WORD) {
        let name = if ws.len() >= 2 {
            string_of(s, ws[1].0, ws[1].1)
        } else {
            String::new()
        };
        push_entry(log, Entry::DirEnd(name));
    }
}

/// Reads the layout log that mkpsxiso writes: the lines naming the image's
/// data file and cue sheet, and one entry per line that gives a file, an
/// XA file, a directory or a directory's end.
pub fn parse_lba_log(content: &Vec<char>) -> (log: LbaLog)
    ensures
        log_view(log) == lba_log_of(content@),
{
    let mut log = LbaLog { bin_file: String::new(), cue_file: String::new(), entries: Vec::new() };
    let ghost mut done: Seq<(int, int)> = Seq::empty();
    proof {
        assert(log.entries@.map_values(|x: Entry| entry_view(x)) =~= Seq::<EntryView>::empty());
    }
    let mut a: usize = 0;
    let mut i: usize = 0;
    while i < content.len()
        invariant
            a <= i <= content.len(),
            done + lines_from(content@, i as int, a as int) == lines_from(content@, 0, 0),
            log_view(log) == log_of(content@, done),
        decreases content.len() - i,
    {
        if content[i] == '\n' {
            process_line(content, a, i, &mut log);
            proof {
                let d2 = done.push((a as int, i as int));
                assert(d2.drop_last() =~= done);
                assert(d2 + lines_from(content@, i + 1, i + 1) =~= done + lines_from(content@, i as int, a as int));
                done = d2;
            }
            a = i + 1;
        }
        i += 1;
    }
    process_line(content, a, content.len(), &mut log);
    proof {
        let d2 = done.push((a as int, content.len() as int));
        assert(d2.drop_last() =~= done);
        assert(d2 =~= done + lines_from(content@, i as int, a as int));
    }
    log
}

} // verus!
