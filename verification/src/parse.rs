//! Delimited-text parsing: an optional preamble of any length, an optional
//! header line, then rows of fields separated by tab, comma, semicolon or
//! pipe. The text is decoded, its line endings normalized, its lines and
//! fields split; the delimiter, decimal separator and data block are found
//! from how each candidate splits the lines and which fields read as
//! numbers; the header is cleaned up and ragged rows dropped.
//!
//! Whether a field reads as a number is a floating-point question, so the
//! functions that need it take it as a table: for each candidate
//! delimiter, decimal separator and line, whether every field of the line
//! (as `split_fields` splits it) is a number or a missing-value token, and
//! how many of them are.

use vstd::prelude::*;
use vstd::slice::slice_subrange;
use vstd::utf8::{valid_utf8, decode_utf8};
use crate::codec::{decode_utf8_lossy, utf8_lossy, decode_utf8_strict, decode_cp1252, cp1252_decoded, push_char};

verus! {

/// Files above this size are refused.
pub const MAX_FILE_BYTES: usize = 262144000;
/// Files above this size are parsed with a warning.
pub const WARN_FILE_BYTES: usize = 104857600;
/// The sniffer looks at no more than this many lines.
pub const SNIFF_LINE_CAP: usize = 5000;
/// A data block has at least this many rows.
pub const MIN_RUN_LENGTH: usize = 5;
/// Automatic delimiter detection needs at least this many fields per row.
pub const MIN_FIELD_COUNT: usize = 2;
/// Anomalous trailing lines (such as one truncated final line) the data
/// block search tolerates.
pub const TAIL_LOOKBACK: usize = 3;
/// Reports list at most this many row numbers.
pub const MAX_REPORTED_ROWS: usize = 10;
/// The lenient delimiter scorer looks at no more than this many rows.
pub const LENIENT_SAMPLE_ROWS: usize = 200;

/// The text encoding a file was decoded with.
#[derive(Debug, Clone, Copy, PartialEq, Eq, Hash, Structural)]
pub enum Encoding {
    Utf8,
    Cp1252,
}

/// The field delimiter.
#[derive(Debug, Clone, Copy, PartialEq, Eq, Hash, Structural)]
pub enum Delimiter {
    Tab,
    Comma,
    Semicolon,
    Pipe,
}

/// The character a delimiter stands for.
pub open spec fn delimiter_char(d: Delimiter) -> char {
    match d {
        Delimiter::Tab => '\t',
        Delimiter::Comma => ',',
        Delimiter::Semicolon => ';',
        Delimiter::Pipe => '|',
    }
}

impl Delimiter {
    /// The delimiter's character.
    pub fn as_char(self) -> (c: char)
        ensures
            c == delimiter_char(self),
    {
        match self {
            Delimiter::Tab => '\t',
            Delimiter::Comma => ',',
            Delimiter::Semicolon => ';',
            Delimiter::Pipe => '|',
        }
    }

    /// The delimiters tried, in order: tab, comma, semicolon, pipe.
    pub fn candidates() -> (v: Vec<Delimiter>)
        ensures
            v@ == seq![Delimiter::Tab, Delimiter::Comma, Delimiter::Semicolon, Delimiter::Pipe],
    {
        let mut v = Vec::new();
        v.push(Delimiter::Tab);
        v.push(Delimiter::Comma);
        v.push(Delimiter::Semicolon);
        v.push(Delimiter::Pipe);
        v
    }
}

/// The decimal separator of numbers.
#[derive(Debug, Clone, Copy, PartialEq, Eq, Hash, Structural)]
pub enum DecimalSeparator {
    Dot,
    Comma,
}

impl DecimalSeparator {
    /// The separators tried, in order: dot, comma.
    pub fn candidates() -> (v: Vec<DecimalSeparator>)
        ensures
            v@ == seq![DecimalSeparator::Dot, DecimalSeparator::Comma],
    {
        let mut v = Vec::new();
        v.push(DecimalSeparator::Dot);
        v.push(DecimalSeparator::Comma);
        v
    }
}

/// Which parser produced a table: the delimited-text one, or the MDF4
/// reader (for which delimiter, decimal separator and encoding mean nothing).
#[derive(Debug, Clone, Copy, PartialEq, Eq, Hash, Structural)]
pub enum SourceFormat {
    Text,
    Mdf4,
}

/// A numeric column's count of cells that were neither a number nor a
/// missing-value token.
#[derive(Debug, Clone)]
pub struct CoercionFailure {
    pub column: String,
    pub count: usize,
    /// Row indices into the final rows, the first `MAX_REPORTED_ROWS` only.
    pub first_rows: Vec<usize>,
}

/// What the parser decided and dropped.
#[derive(Debug, Clone)]
pub struct ParseReport {
    pub encoding: Encoding,
    pub delimiter: Delimiter,
    pub decimal_separator: DecimalSeparator,
    pub preamble_lines_skipped: usize,
    pub header_present: bool,
    pub header_synthesized: bool,
    pub n_rows: usize,
    pub n_columns: usize,
    pub trailing_column_dropped: bool,
    pub ragged_rows_dropped: usize,
    /// 1-based line numbers, the first `MAX_REPORTED_ROWS` only.
    pub ragged_row_line_numbers: Vec<usize>,
    pub coercion_failures: Vec<CoercionFailure>,
    pub warnings: Vec<String>,
    pub source: SourceFormat,
}

/// Manual overrides of the sniffer's decisions; `None` keeps its own.
#[derive(Debug, Clone, Default)]
pub struct ParseOverrides {
    pub encoding: Option<Encoding>,
    pub delimiter: Option<Delimiter>,
    pub decimal_separator: Option<DecimalSeparator>,
    pub skip_lines: Option<usize>,
    pub header_present: Option<bool>,
}

/// Why a file could not be parsed.
#[derive(Debug, Clone, PartialEq)]
pub enum ParseError {
    EmptyFile,
    FileTooLarge { bytes: usize, limit: usize },
    NoDataBlockFound { delimiters_tried: Vec<Delimiter> },
    NoDataRows,
}

/// The bytes after a leading UTF-8 byte-order mark, if there is one.
pub open spec fn without_bom(b: Seq<u8>) -> Seq<u8> {
    if b.len() >= 3 && b[0] == 0xEF && b[1] == 0xBB && b[2] == 0xBF {
        b.skip(3)
    } else {
        b
    }
}

/// Drops a leading UTF-8 byte-order mark.
pub fn strip_bom(bytes: &[u8]) -> (r: &[u8])
    ensures
        r@ == without_bom(bytes@),
{
    if bytes.len() >= 3 && bytes[0] == 0xEF && bytes[1] == 0xBB && bytes[2] == 0xBF {
        slice_subrange(bytes, 3, bytes.len())
    } else {
        bytes
    }
}

/// Decoding a file's bytes (its byte-order mark dropped): as the override
/// says, else as UTF-8 where they are valid UTF-8, else as Windows-1252.
pub open spec fn spec_decode(bytes: Seq<u8>, forced: Option<Encoding>) -> (Seq<char>, Encoding) {
    let b = without_bom(bytes);
    match forced {
        Some(Encoding::Utf8) => (utf8_lossy(b), Encoding::Utf8),
        Some(Encoding::Cp1252) => (cp1252_decoded(b), Encoding::Cp1252),
        None => if valid_utf8(b) {
            (decode_utf8(b), Encoding::Utf8)
        } else {
            (cp1252_decoded(b), Encoding::Cp1252)
        },
    }
}

/// Decodes a file's bytes into text.
pub fn decode(bytes: &[u8], forced: Option<Encoding>) -> (r: (String, Encoding))
    ensures
        (r.0@, r.1) == spec_decode(bytes@, forced),
{
    let b = strip_bom(bytes);
    match forced {
        Some(Encoding::Utf8) => (decode_utf8_lossy(b), Encoding::Utf8),
        Some(Encoding::Cp1252) => (decode_cp1252(b), Encoding::Cp1252),
        None => match decode_utf8_strict(b) {
            Some(s) => (s, Encoding::Utf8),
            None => (decode_cp1252(b), Encoding::Cp1252),
        },
    }
}

/// The characters of a text.
pub fn text_chars(s: &str) -> (v: Vec<char>)
    ensures
        v@ == s@,
{
    let mut v: Vec<char> = Vec::new();
    for c in it: s.chars()
        invariant
            v@ == it.seq().take(it.index() as int),
            it.seq() == s@,
    {
        v.push(c);
    }
    v
}

/// A text built from characters.
pub fn chars_to_string(v: &[char]) -> (s: String)
    ensures
        s@ == v@,
{
    let mut s = String::new();
    let mut i: usize = 0;
    while i < v.len()
        invariant
            i <= v@.len(),
            s@ == v@.take(i as int),
        decreases v@.len() - i,
    {
        push_char(&mut s, v[i]);
        i += 1;
        assert(s@ =~= v@.take(i as int));
    }
    assert(v@.take(v@.len() as int) =~= v@);
    s
}

/// `s` with every CR LF pair and every other CR turned into LF.
pub open spec fn normalized_line_endings(s: Seq<char>) -> Seq<char>
    decreases s.len(),
{
    if s.len() == 0 {
        s
    } else if s[0] == '\r' && s.len() >= 2 && s[1] == '\n' {
        seq!['\n'] + normalized_line_endings(s.skip(2))
    } else if s[0] == '\r' {
        seq!['\n'] + normalized_line_endings(s.skip(1))
    } else {
        seq![s[0]] + normalized_line_endings(s.skip(1))
    }
}

/// Normalized text holds no CR.
pub proof fn lemma_normalized_has_no_cr(s: Seq<char>)
    ensures
        !normalized_line_endings(s).contains('\r'),
    decreases s.len(),
{
    if s.len() > 0 {
        let t = if s[0] == '\r' && s.len() >= 2 && s[1] == '\n' {
            s.skip(2)
        } else {
            s.skip(1)
        };
        lemma_normalized_has_no_cr(t);
        let head = if s[0] == '\r' {
            '\n'
        } else {
            s[0]
        };
        let r = normalized_line_endings(s);
        assert(r =~= seq![head] + normalized_line_endings(t));
        if r.contains('\r') {
            let k = choose|k: int| 0 <= k < r.len() && r[k] == '\r';
            if k > 0 {
                assert(normalized_line_endings(t)[k - 1] == '\r');
            }
        }
    }
}

/// Text without CR is left as it is.
pub proof fn lemma_normalize_without_cr(s: Seq<char>)
    requires
        !s.contains('\r'),
    ensures
        normalized_line_endings(s) == s,
    decreases s.len(),
{
    if s.len() > 0 {
        assert(s[0] != '\r');
        assert(!s.skip(1).contains('\r')) by {
            if s.skip(1).contains('\r') {
                let k = choose|k: int| 0 <= k < s.skip(1).len() && s.skip(1)[k] == '\r';
                assert(s[k + 1] == '\r');
            }
        }
        lemma_normalize_without_cr(s.skip(1));
        assert(seq![s[0]] + s.skip(1) =~= s);
    }
}

/// Normalizing line endings twice gives what normalizing once gives.
pub proof fn lemma_normalize_idempotent(s: Seq<char>)
    ensures
        normalized_line_endings(normalized_line_endings(s)) == normalized_line_endings(s),
{
    lemma_normalized_has_no_cr(s);
    lemma_normalize_without_cr(normalized_line_endings(s));
}

/// Normalizes line endings to LF.
pub fn normalize_line_endings(s: &Vec<char>) -> (out: Vec<char>)
    ensures
        out@ == normalized_line_endings(s@),
{
    let mut out: Vec<char> = Vec::new();
    let mut i: usize = 0;
    assert(s@.skip(0) =~= s@);
    assert(out@ + normalized_line_endings(s@) =~= normalized_line_endings(s@));
    while i < s.len()
        invariant
            i <= s@.len(),
            out@ + normalized_line_endings(s@.skip(i as int)) == normalized_line_endings(s@),
        decreases s@.len() - i,
    {
        let ghost t = s@.skip(i as int);
        if s[i] == '\r' {
            if i + 1 < s.len() && s[i + 1] == '\n' {
                assert(t.skip(2) =~= s@.skip(i + 2));
                out.push('\n');
                i += 2;
            } else {
                assert(t.skip(1) =~= s@.skip(i + 1));
                out.push('\n');
                i += 1;
            }
        } else {
            assert(t.skip(1) =~= s@.skip(i + 1));
            out.push(s[i]);
            i += 1;
        }
        proof {
            let o = out@.drop_last();
            assert(out@ =~= o + seq![out@.last()]);
            assert(out@ + normalized_line_endings(s@.skip(i as int)) =~= o + (seq![out@.last()] + normalized_line_endings(s@.skip(i as int))));
        }
    }
    assert(s@.skip(i as int) =~= seq![]);
    assert(out@ + seq![] =~= out@);
    out
}

/// The pieces of `s` between occurrences of `sep` (one piece when there is
/// none, empty pieces kept).
pub open spec fn split_on(s: Seq<char>, sep: char) -> Seq<Seq<char>>
    decreases s.len(),
{
    if s.len() == 0 {
        seq![seq![]]
    } else {
        let p = split_on(s.drop_last(), sep);
        if s.last() == sep {
            p.push(seq![])
        } else {
            p.update(p.len() - 1, p.last().push(s.last()))
        }
    }
}

proof fn lemma_split_on_nonempty(s: Seq<char>, sep: char)
    ensures
        split_on(s, sep).len() >= 1,
    decreases s.len(),
{
    if s.len() > 0 {
        lemma_split_on_nonempty(s.drop_last(), sep);
    }
}

/// Pieces of text by their characters.
pub open spec fn pieces(v: Seq<Vec<char>>) -> Seq<Seq<char>> {
    v.map_values(|p: Vec<char>| p@)
}

proof fn lemma_pieces_push(v: Seq<Vec<char>>, p: Vec<char>)
    ensures
        pieces(v.push(p)) == pieces(v).push(p@),
{
    assert(pieces(v.push(p)) =~= pieces(v).push(p@));
}

/// The parts joined with `sep` between each two.
pub open spec fn joined(parts: Seq<Seq<char>>, sep: char) -> Seq<char>
    decreases parts.len(),
{
    if parts.len() == 0 {
        seq![]
    } else if parts.len() == 1 {
        parts[0]
    } else {
        joined(parts.drop_last(), sep) + seq![sep] + parts.last()
    }
}

proof fn lemma_joined_extend_last(parts: Seq<Seq<char>>, sep: char, c: char)
    requires
        parts.len() > 0,
    ensures
        joined(parts.update(parts.len() - 1, parts.last().push(c)), sep) == joined(parts, sep).push(c),
{
    let q = parts.update(parts.len() - 1, parts.last().push(c));
    if parts.len() > 1 {
        assert(q.drop_last() =~= parts.drop_last());
        assert(q.last() == parts.last().push(c));
        assert(joined(q, sep) =~= joined(parts, sep).push(c));
    } else {
        assert(joined(q, sep) =~= joined(parts, sep).push(c));
    }
}

/// Splitting loses nothing: the pieces joined with the separator give the
/// text back, and no piece holds the separator.
pub proof fn lemma_split_join(s: Seq<char>, sep: char)
    ensures
        joined(split_on(s, sep), sep) == s,
        forall|i: int| 0 <= i < split_on(s, sep).len() ==> !(#[trigger] split_on(s, sep)[i]).contains(sep),
    decreases s.len(),
{
    if s.len() > 0 {
        let p = split_on(s.drop_last(), sep);
        lemma_split_join(s.drop_last(), sep);
        lemma_split_on_nonempty(s.drop_last(), sep);
        if s.last() == sep {
            let q = p.push(seq![]);
            assert(q.drop_last() =~= p);
            assert(joined(q, sep) =~= s);
            assert forall|i: int| 0 <= i < q.len() implies !(#[trigger] q[i]).contains(sep) by {
                if i < p.len() {
                    assert(q[i] == p[i]);
                }
            }
        } else {
            lemma_joined_extend_last(p, sep, s.last());
            assert(joined(p, sep).push(s.last()) =~= s);
            let q = p.update(p.len() - 1, p.last().push(s.last()));
            assert forall|i: int| 0 <= i < q.len() implies !(#[trigger] q[i]).contains(sep) by {
                if i < p.len() - 1 {
                    assert(q[i] == p[i]);
                } else {
                    let x = p.last();
                    assert(!x.contains(sep));
                    if q[i].contains(sep) {
                        let k = choose|k: int| 0 <= k < q[i].len() && q[i][k] == sep;
                        if k < x.len() {
                            assert(x[k] == sep);
                        }
                    }
                }
            }
        }
    }
}

/// Splits `s` at every `sep`.
pub fn split_at_char(s: &[char], sep: char) -> (out: Vec<Vec<char>>)
    ensures
        pieces(out@) == split_on(s@, sep),
{
    let mut out: Vec<Vec<char>> = Vec::new();
    let mut cur: Vec<char> = Vec::new();
    let mut i: usize = 0;
    assert(s@.take(0) =~= seq![]);
    assert(pieces(out@).push(cur@) =~= seq![seq![]]);
    while i < s.len()
        invariant
            i <= s@.len(),
            pieces(out@).push(cur@) == split_on(s@.take(i as int), sep),
        decreases s@.len() - i,
    {
        let ghost before = pieces(out@).push(cur@);
        assert(s@.take(i + 1).drop_last() =~= s@.take(i as int));
        assert(s@.take(i + 1).last() == s@[i as int]);
        proof {
            lemma_split_on_nonempty(s@.take(i as int), sep);
        }
        if s[i] == sep {
            let done = cur;
            proof { lemma_pieces_push(out@, done); }
            out.push(done);
            cur = Vec::new();
            assert(pieces(out@).push(cur@) =~= before.push(seq![]));
        } else {
            cur.push(s[i]);
            assert(pieces(out@).push(cur@) =~= before.update(before.len() - 1, before.last().push(s@[i as int])));
        }
        i += 1;
    }
    assert(s@.take(s@.len() as int) =~= s@);
    proof { lemma_pieces_push(out@, cur); }
    out.push(cur);
    out
}

/// `ls` without its trailing empty lines.
pub open spec fn drop_empty_tail(ls: Seq<Seq<char>>) -> Seq<Seq<char>>
    decreases ls.len(),
{
    if ls.len() > 0 && ls.last().len() == 0 {
        drop_empty_tail(ls.drop_last())
    } else {
        ls
    }
}

/// The lines of a text: its pieces between LFs, trailing empty ones dropped.
pub open spec fn text_lines(text: Seq<char>) -> Seq<Seq<char>> {
    drop_empty_tail(split_on(text, '\n'))
}

/// Splits a text into lines at LF and drops trailing empty lines.
pub fn split_lines(text: &Vec<char>) -> (lines: Vec<Vec<char>>)
    ensures
        pieces(lines@) == text_lines(text@),
{
    let mut lines = split_at_char(text.as_slice(), '\n');
    while lines.len() > 0 && lines[lines.len() - 1].len() == 0
        invariant
            drop_empty_tail(pieces(lines@)) == text_lines(text@),
        decreases lines@.len(),
    {
        let ghost before = pieces(lines@);
        lines.pop();
        assert(pieces(lines@) =~= before.drop_last());
    }
    lines
}

/// The fields of a line.
pub open spec fn line_fields(line: Seq<char>, d: Delimiter) -> Seq<Seq<char>> {
    split_on(line, delimiter_char(d))
}

/// Splits a line into fields at the delimiter.
pub fn split_fields(line: &[char], d: Delimiter) -> (fields: Vec<Vec<char>>)
    ensures
        pieces(fields@) == line_fields(line@, d),
{
    split_at_char(line, d.as_char())
}

/// `fields` has `target` fields, or one more whose last is empty (a
/// trailing delimiter on a header line, which is dropped later).
pub open spec fn count_matches_allowing_trailing_empty(fields: Seq<Seq<char>>, target: int) -> bool {
    fields.len() == target || (fields.len() == target + 1 && fields.last().len() == 0)
}

/// Whether `fields` has `target` fields, allowing one trailing empty field.
pub fn field_count_matches_allowing_trailing_empty(fields: &Vec<Vec<char>>, target: usize) -> (r: bool)
    ensures
        r == count_matches_allowing_trailing_empty(pieces(fields@), target as int),
{
    fields.len() == target || (fields.len() > 0 && fields.len() - 1 == target && fields[fields.len() - 1].len() == 0)
}

/// Line `idx` has `f` fields, all numbers or missing-value tokens.
pub open spec fn row_ok(counts: Seq<int>, ok: Seq<bool>, idx: int, f: int) -> bool {
    counts[idx] == f && ok[idx]
}

/// The field counts of the last `k` lookback lines (last line first), each
/// kept once and only where it reaches `min_f`.
pub open spec fn f_candidates(counts: Seq<int>, last: int, min_f: int, k: int) -> Seq<int>
    decreases k,
{
    if k <= 0 {
        seq![]
    } else {
        let p = f_candidates(counts, last, min_f, k - 1);
        let f = counts[last - (k - 1)];
        if f >= min_f && !p.contains(f) {
            p.push(f)
        } else {
            p
        }
    }
}

/// The last line, within the lookback, that is a numeric row of `f`
/// fields: trying the last line first (-1 where there is none).
pub open spec fn block_end(counts: Seq<int>, ok: Seq<bool>, last: int, lookback: int, f: int, k: int) -> int
    decreases lookback - k,
{
    if k >= lookback {
        -1
    } else if row_ok(counts, ok, last - k, f) {
        last - k
    } else {
        block_end(counts, ok, last, lookback, f, k + 1)
    }
}

/// How many consecutive numeric rows of `f` fields end at `end`.
pub open spec fn run_length(counts: Seq<int>, ok: Seq<bool>, end: int, f: int) -> int
    decreases end,
{
    if end <= 0 {
        1
    } else if row_ok(counts, ok, end - 1, f) {
        run_length(counts, ok, end - 1, f) + 1
    } else {
        1
    }
}

/// A candidate data block: its score (rows times fields), the positions
/// of its delimiter and decimal separator among the candidates, its first
/// line and its field count.
pub type Block = (int, int, int, int, int);

/// Folds the field-count candidates of one delimiter and decimal separator
/// (at positions `di`, `ei`) into the best block so far: a block of at
/// least `MIN_RUN_LENGTH` rows replaces it only with a strictly higher score.
pub open spec fn best_over_counts(
    best: Option<Block>,
    fs: Seq<int>,
    counts: Seq<int>,
    ok: Seq<bool>,
    last: int,
    lookback: int,
    di: int,
    ei: int,
) -> Option<Block>
    decreases fs.len(),
{
    if fs.len() == 0 {
        best
    } else {
        let f = fs[0];
        let end = block_end(counts, ok, last, lookback, f, 0);
        let next = if end < 0 {
            best
        } else {
            let run = run_length(counts, ok, end, f);
            let score = run * f;
            if run < MIN_RUN_LENGTH {
                best
            } else {
                match best {
                    None => Some((score, di, ei, end + 1 - run, f)),
                    Some(b) => if score > b.0 {
                        Some((score, di, ei, end + 1 - run, f))
                    } else {
                        best
                    },
                }
            }
        };
        best_over_counts(next, fs.drop_first(), counts, ok, last, lookback, di, ei)
    }
}

/// Folds the decimal separators `decs` (from position `ei` on) of the
/// delimiter at position `di` into the best block; a comma as both
/// delimiter and decimal separator is skipped.
pub open spec fn best_over_decimals(
    best: Option<Block>,
    decs: Seq<DecimalSeparator>,
    ei: int,
    d: Delimiter,
    di: int,
    counts: Seq<int>,
    oks: Seq<Seq<bool>>,
    last: int,
    lookback: int,
    min_f: int,
) -> Option<Block>
    decreases decs.len() - ei,
{
    if ei >= decs.len() || ei < 0 {
        best
    } else {
        let next = if d == Delimiter::Comma && decs[ei] == DecimalSeparator::Comma {
            best
        } else {
            best_over_counts(best, f_candidates(counts, last, min_f, lookback), counts, oks[ei], last, lookback, di, ei)
        };
        best_over_decimals(next, decs, ei + 1, d, di, counts, oks, last, lookback, min_f)
    }
}

/// The field counts of `sample` split at `d`.
pub open spec fn field_counts(sample: Seq<Seq<char>>, d: Delimiter) -> Seq<int> {
    Seq::new(sample.len(), |i: int| line_fields(sample[i], d).len() as int)
}

/// Folds the delimiters `delims` (from position `di` on) into the best block.
pub open spec fn best_over_delims(
    best: Option<Block>,
    delims: Seq<Delimiter>,
    di: int,
    decs: Seq<DecimalSeparator>,
    sample: Seq<Seq<char>>,
    table: Seq<Seq<Seq<bool>>>,
    last: int,
    lookback: int,
    min_f: int,
) -> Option<Block>
    decreases delims.len() - di,
{
    if di >= delims.len() || di < 0 {
        best
    } else {
        let next = best_over_decimals(best, decs, 0, delims[di], di, field_counts(sample, delims[di]), table[di], last, lookback, min_f);
        best_over_delims(next, delims, di + 1, decs, sample, table, last, lookback, min_f)
    }
}

/// The table of numeric rows by its booleans.
pub open spec fn table_view(t: Seq<Vec<Vec<bool>>>) -> Seq<Seq<Seq<bool>>> {
    t.map_values(|x: Vec<Vec<bool>>| x@.map_values(|y: Vec<bool>| y@))
}

/// The best data block: over the first `SNIFF_LINE_CAP` lines, for each
/// delimiter, decimal separator and candidate field count in turn, the
/// longest run of numeric rows ending within the lookback of the last
/// line; the highest score wins, the first one found among equals. Field
/// counts below `MIN_FIELD_COUNT` are not tried unless the delimiter is
/// the only candidate.
pub open spec fn spec_best_block(lines: Seq<Seq<char>>, delims: Seq<Delimiter>, decs: Seq<DecimalSeparator>, table: Seq<Seq<Seq<bool>>>) -> Option<Block> {
    let n = if lines.len() < SNIFF_LINE_CAP { lines.len() as int } else { SNIFF_LINE_CAP as int };
    let lookback = if TAIL_LOOKBACK < n { TAIL_LOOKBACK as int } else { n };
    let min_f = if delims.len() == 1 { 1int } else { MIN_FIELD_COUNT as int };
    if n == 0 {
        None
    } else {
        best_over_delims(None, delims, 0, decs, lines.take(n), table, n - 1, lookback, min_f)
    }
}

/// The block a field count `f` gives for one delimiter and decimal
/// separator (at positions `di`, `ei`): the run of numeric rows of `f`
/// fields ending at the last such row within the lookback, where it is at
/// least `MIN_RUN_LENGTH` rows long; its score is rows times fields.
pub open spec fn candidate_block(counts: Seq<int>, ok: Seq<bool>, last: int, lookback: int, f: int, di: int, ei: int) -> Option<Block> {
    let end = block_end(counts, ok, last, lookback, f, 0);
    if end < 0 {
        None
    } else {
        let run = run_length(counts, ok, end, f);
        if run < MIN_RUN_LENGTH {
            None
        } else {
            Some((run * f, di, ei, end + 1 - run, f))
        }
    }
}

/// `b` scores at least as high as `c`, where `c` is a block.
pub open spec fn beats(b: Option<Block>, c: Option<Block>) -> bool {
    c matches Some(cb) ==> (b matches Some(bb) && cb.0 <= bb.0)
}

/// Candidate `j` of the decimal separator at `ei` for delimiter `d`.
pub open spec fn dec_candidate(
    decs: Seq<DecimalSeparator>,
    d: Delimiter,
    di: int,
    counts: Seq<int>,
    oks: Seq<Seq<bool>>,
    last: int,
    lookback: int,
    min_f: int,
    ei: int,
    j: int,
) -> Option<Block> {
    let fs = f_candidates(counts, last, min_f, lookback);
    if (d == Delimiter::Comma && decs[ei] == DecimalSeparator::Comma) || !(0 <= j < fs.len()) {
        None
    } else {
        candidate_block(counts, oks[ei], last, lookback, fs[j], di, ei)
    }
}

proof fn lemma_over_counts(best: Option<Block>, fs: Seq<int>, counts: Seq<int>, ok: Seq<bool>, last: int, lookback: int, di: int, ei: int)
    ensures
        beats(best_over_counts(best, fs, counts, ok, last, lookback, di, ei), best),
        best_over_counts(best, fs, counts, ok, last, lookback, di, ei) == best
            || exists|j: int| 0 <= j < fs.len()
            && #[trigger] candidate_block(counts, ok, last, lookback, fs[j], di, ei) == best_over_counts(best, fs, counts, ok, last, lookback, di, ei),
        forall|j: int| 0 <= j < fs.len() ==> beats(best_over_counts(best, fs, counts, ok, last, lookback, di, ei),
            #[trigger] candidate_block(counts, ok, last, lookback, fs[j], di, ei)),
    decreases fs.len(),
{
    if fs.len() > 0 {
        let c = candidate_block(counts, ok, last, lookback, fs[0], di, ei);
        let next = match c {
            None => best,
            Some(cb) => match best {
                None => c,
                Some(b) => if cb.0 > b.0 { c } else { best },
            },
        };
        let rest = fs.drop_first();
        assert(best_over_counts(best, fs, counts, ok, last, lookback, di, ei) == best_over_counts(next, rest, counts, ok, last, lookback, di, ei));
        lemma_over_counts(next, rest, counts, ok, last, lookback, di, ei);
        let r = best_over_counts(next, rest, counts, ok, last, lookback, di, ei);
        assert forall|j: int| 0 <= j < fs.len() implies beats(r, #[trigger] candidate_block(counts, ok, last, lookback, fs[j], di, ei)) by {
            if j > 0 {
                assert(rest[j - 1] == fs[j]);
                assert(beats(r, candidate_block(counts, ok, last, lookback, rest[j - 1], di, ei)));
            }
        }
        if r != best {
            if r == next {
                assert(candidate_block(counts, ok, last, lookback, fs[0], di, ei) == r);
            } else {
                let j = choose|j: int| 0 <= j < rest.len() && #[trigger] candidate_block(counts, ok, last, lookback, rest[j], di, ei) == r;
                assert(rest[j] == fs[j + 1]);
                assert(candidate_block(counts, ok, last, lookback, fs[j + 1], di, ei) == r);
            }
        }
    }
}

proof fn lemma_over_decimals(
    best: Option<Block>,
    decs: Seq<DecimalSeparator>,
    ei: int,
    d: Delimiter,
    di: int,
    counts: Seq<int>,
    oks: Seq<Seq<bool>>,
    last: int,
    lookback: int,
    min_f: int,
)
    requires
        0 <= ei,
    ensures
        ({
            let r = best_over_decimals(best, decs, ei, d, di, counts, oks, last, lookback, min_f);
            &&& beats(r, best)
            &&& (r == best || exists|e: int, j: int| ei <= e < decs.len()
                && #[trigger] dec_candidate(decs, d, di, counts, oks, last, lookback, min_f, e, j) == r)
            &&& forall|e: int, j: int| ei <= e < decs.len() ==> beats(r, #[trigger] dec_candidate(decs, d, di, counts, oks, last, lookback, min_f, e, j))
        }),
    decreases decs.len() - ei,
{
    if ei < decs.len() {
        let fs = f_candidates(counts, last, min_f, lookback);
        let skip = d == Delimiter::Comma && decs[ei] == DecimalSeparator::Comma;
        let next = if skip { best } else { best_over_counts(best, fs, counts, oks[ei], last, lookback, di, ei) };
        if !skip {
            lemma_over_counts(best, fs, counts, oks[ei], last, lookback, di, ei);
        }
        lemma_over_decimals(next, decs, ei + 1, d, di, counts, oks, last, lookback, min_f);
        let r = best_over_decimals(next, decs, ei + 1, d, di, counts, oks, last, lookback, min_f);
        assert(best_over_decimals(best, decs, ei, d, di, counts, oks, last, lookback, min_f) == r);
        assert forall|e: int, j: int| ei <= e < decs.len() implies beats(r, #[trigger] dec_candidate(decs, d, di, counts, oks, last, lookback, min_f, e, j)) by {
            if e == ei && !skip && 0 <= j < fs.len() {
                assert(beats(next, candidate_block(counts, oks[ei], last, lookback, fs[j], di, ei)));
            }
        }
        if r != best && r == next {
            let j = choose|j: int| 0 <= j < fs.len() && #[trigger] candidate_block(counts, oks[ei], last, lookback, fs[j], di, ei) == next;
            assert(dec_candidate(decs, d, di, counts, oks, last, lookback, min_f, ei, j) == r);
        }
    }
}

/// Candidate `j` of the delimiter at `di` and decimal separator at `ei`
/// among the sniffer's first lines `sample`.
pub open spec fn sniff_candidate(
    sample: Seq<Seq<char>>,
    delims: Seq<Delimiter>,
    decs: Seq<DecimalSeparator>,
    table: Seq<Seq<Seq<bool>>>,
    last: int,
    lookback: int,
    min_f: int,
    di: int,
    ei: int,
    j: int,
) -> Option<Block> {
    dec_candidate(decs, delims[di], di, field_counts(sample, delims[di]), table[di], last, lookback, min_f, ei, j)
}

proof fn lemma_over_delims(
    best: Option<Block>,
    delims: Seq<Delimiter>,
    di: int,
    decs: Seq<DecimalSeparator>,
    sample: Seq<Seq<char>>,
    table: Seq<Seq<Seq<bool>>>,
    last: int,
    lookback: int,
    min_f: int,
)
    requires
        0 <= di,
    ensures
        ({
            let r = best_over_delims(best, delims, di, decs, sample, table, last, lookback, min_f);
            &&& beats(r, best)
            &&& (r == best || exists|dd: int, e: int, j: int| di <= dd < delims.len() && 0 <= e < decs.len()
                && #[trigger] sniff_candidate(sample, delims, decs, table, last, lookback, min_f, dd, e, j) == r)
            &&& forall|dd: int, e: int, j: int| di <= dd < delims.len() && 0 <= e < decs.len()
                ==> beats(r, #[trigger] sniff_candidate(sample, delims, decs, table, last, lookback, min_f, dd, e, j))
        }),
    decreases delims.len() - di,
{
    if di < delims.len() {
        let d = delims[di];
        let counts = field_counts(sample, d);
        let next = best_over_decimals(best, decs, 0, d, di, counts, table[di], last, lookback, min_f);
        lemma_over_decimals(best, decs, 0, d, di, counts, table[di], last, lookback, min_f);
        lemma_over_delims(next, delims, di + 1, decs, sample, table, last, lookback, min_f);
        let r = best_over_delims(next, delims, di + 1, decs, sample, table, last, lookback, min_f);
        assert(best_over_delims(best, delims, di, decs, sample, table, last, lookback, min_f) == r);
        assert forall|dd: int, e: int, j: int| di <= dd < delims.len() && 0 <= e < decs.len()
            implies beats(r, #[trigger] sniff_candidate(sample, delims, decs, table, last, lookback, min_f, dd, e, j)) by {
            if dd == di {
                assert(beats(next, dec_candidate(decs, d, di, counts, table[di], last, lookback, min_f, e, j)));
            }
        }
        if r != best && r == next {
            let (e, j) = choose|e: int, j: int| 0 <= e < decs.len()
                && #[trigger] dec_candidate(decs, d, di, counts, table[di], last, lookback, min_f, e, j) == next;
            assert(sniff_candidate(sample, delims, decs, table, last, lookback, min_f, di, e, j) == r);
        }
    }
}

/// The rows `start .. start + run` are numeric rows of `f` fields, the
/// last of them within the lookback of line `last` and no such row after
/// it up to `last`, and the row before `start` (if any) is not one.
pub open spec fn terminal_run(counts: Seq<int>, ok: Seq<bool>, last: int, lookback: int, start: int, run: int, f: int) -> bool {
    &&& 0 <= start
    &&& last - lookback < start + run - 1 <= last
    &&& forall|r: int| start <= r < start + run ==> #[trigger] row_ok(counts, ok, r, f)
    &&& forall|r: int| start + run - 1 < r <= last ==> !#[trigger] row_ok(counts, ok, r, f)
    &&& start > 0 ==> !row_ok(counts, ok, start - 1, f)
}

proof fn lemma_run_length(counts: Seq<int>, ok: Seq<bool>, end: int, f: int)
    requires
        0 <= end,
        row_ok(counts, ok, end, f),
    ensures
        1 <= run_length(counts, ok, end, f) <= end + 1,
        forall|r: int| end + 1 - run_length(counts, ok, end, f) <= r <= end ==> #[trigger] row_ok(counts, ok, r, f),
        end + 1 - run_length(counts, ok, end, f) > 0 ==> !row_ok(counts, ok, end - run_length(counts, ok, end, f), f),
    decreases end,
{
    if end > 0 && row_ok(counts, ok, end - 1, f) {
        lemma_run_length(counts, ok, end - 1, f);
    }
}

proof fn lemma_block_end(counts: Seq<int>, ok: Seq<bool>, last: int, lookback: int, f: int, k: int)
    requires
        0 <= k,
    ensures
        block_end(counts, ok, last, lookback, f, k) >= 0 ==> ({
            let e = block_end(counts, ok, last, lookback, f, k);
            &&& last - lookback < e <= last - k && row_ok(counts, ok, e, f)
            &&& forall|r: int| e < r <= last - k ==> !#[trigger] row_ok(counts, ok, r, f)
        }),
    decreases lookback - k,
{
    if k < lookback && !row_ok(counts, ok, last - k, f) {
        lemma_block_end(counts, ok, last, lookback, f, k + 1);
    }
}

/// How many of the last sampled lines a data block may end in.
pub open spec fn lookback_of(n: int) -> int {
    if TAIL_LOOKBACK < n { TAIL_LOOKBACK as int } else { n }
}

/// The least field count tried.
pub open spec fn min_field_count_for(delims: Seq<Delimiter>) -> int {
    if delims.len() == 1 { 1int } else { MIN_FIELD_COUNT as int }
}

/// The sniffer's block is the best candidate: a run of at least
/// `MIN_RUN_LENGTH` numeric rows of its field count, ending at the last
/// such row within the lookback of the last sampled line and reaching back
/// as far as such rows go, for one of the delimiters, decimal separators
/// and field counts tried; and no candidate scores higher (rows times
/// fields). Where there is none, no delimiter, decimal separator and field
/// count gives a block.
pub proof fn lemma_best_block_is_best(lines: Seq<Seq<char>>, delims: Seq<Delimiter>, decs: Seq<DecimalSeparator>, table: Seq<Seq<Seq<bool>>>)
    ensures
        forall|di: int, ei: int, j: int| 0 <= di < delims.len() && 0 <= ei < decs.len() ==> beats(
            spec_best_block(lines, delims, decs, table),
            #[trigger] sniff_candidate(lines.take(sample_len(lines.len() as int)), delims, decs, table, sample_len(lines.len() as int) - 1,
                lookback_of(sample_len(lines.len() as int)), min_field_count_for(delims), di, ei, j),
        ),
        spec_best_block(lines, delims, decs, table) is Some ==> exists|di: int, ei: int, j: int|
            0 <= di < delims.len() && 0 <= ei < decs.len()
            && #[trigger] sniff_candidate(lines.take(sample_len(lines.len() as int)), delims, decs, table, sample_len(lines.len() as int) - 1,
                lookback_of(sample_len(lines.len() as int)), min_field_count_for(delims), di, ei, j) == spec_best_block(lines, delims, decs, table),
        spec_best_block(lines, delims, decs, table) matches Some(b) ==> {
            &&& 0 <= b.1 < delims.len()
            &&& 0 <= b.2 < decs.len()
            &&& exists|run: int| run >= MIN_RUN_LENGTH && b.0 == run * b.4
                && #[trigger] terminal_run(field_counts(lines.take(sample_len(lines.len() as int)), delims[b.1]), table[b.1][b.2],
                    sample_len(lines.len() as int) - 1, lookback_of(sample_len(lines.len() as int)), b.3, run, b.4)
        },
{
    let n = sample_len(lines.len() as int);
    let lookback = lookback_of(n);
    let min_f = min_field_count_for(delims);
    let sample = lines.take(n);
    let best = spec_best_block(lines, delims, decs, table);
    if n > 0 {
        assert(best == best_over_delims(None, delims, 0, decs, sample, table, n - 1, lookback, min_f));
        lemma_over_delims(None, delims, 0, decs, sample, table, n - 1, lookback, min_f);
        if best is Some {
            let (di, ei, j) = choose|di: int, ei: int, j: int| 0 <= di < delims.len() && 0 <= ei < decs.len()
                && #[trigger] sniff_candidate(sample, delims, decs, table, n - 1, lookback, min_f, di, ei, j) == best;
            let d = delims[di];
            let counts = field_counts(sample, d);
            let fs = f_candidates(counts, n - 1, min_f, lookback);
            let ok = table[di][ei];
            let f = fs[j];
            lemma_block_end(counts, ok, n - 1, lookback, f, 0);
            let end = block_end(counts, ok, n - 1, lookback, f, 0);
            lemma_run_length(counts, ok, end, f);
            let run = run_length(counts, ok, end, f);
            let b = best.unwrap();
            assert(sniff_candidate(sample, delims, decs, table, n - 1, lookback, min_f, di, ei, j)
                == candidate_block(counts, ok, n - 1, lookback, f, di, ei));
            assert(b == (run * f, di, ei, end + 1 - run, f));
            assert(run >= MIN_RUN_LENGTH && b.0 == run * b.4
                && terminal_run(field_counts(sample, delims[b.1]), table[b.1][b.2], n - 1, lookback, b.3, run, b.4));
        }
    } else {
        assert forall|di: int, ei: int, j: int| 0 <= di < delims.len() && 0 <= ei < decs.len() implies beats(best,
            #[trigger] sniff_candidate(sample, delims, decs, table, n - 1, lookback, min_f, di, ei, j)) by {
            assert(lookback == 0);
            assert(f_candidates(field_counts(sample, delims[di]), n - 1, min_f, lookback).len() == 0);
        }
    }
}

/// The last numeric row of `f` fields within the lookback, found from
/// line `last - k` back, is `e` where `e` is one and none after it is.
proof fn lemma_block_end_is(counts: Seq<int>, ok: Seq<bool>, last: int, lookback: int, f: int, e: int, k: int)
    requires
        0 <= k,
        last - lookback < e <= last - k,
        row_ok(counts, ok, e, f),
        forall|r: int| e < r <= last - k ==> !#[trigger] row_ok(counts, ok, r, f),
    ensures
        block_end(counts, ok, last, lookback, f, k) == e,
    decreases lookback - k,
{
    if e < last - k {
        assert(!row_ok(counts, ok, last - k, f));
        lemma_block_end_is(counts, ok, last, lookback, f, e, k + 1);
    }
}

/// A run of numeric rows of `f` fields from `start` through `end`, with no
/// such row just before it, has `end - start + 1` rows.
proof fn lemma_run_length_is(counts: Seq<int>, ok: Seq<bool>, end: int, f: int, start: int)
    requires
        0 <= start <= end,
        forall|r: int| start <= r <= end ==> #[trigger] row_ok(counts, ok, r, f),
        start > 0 ==> !row_ok(counts, ok, start - 1, f),
    ensures
        run_length(counts, ok, end, f) == end - start + 1,
    decreases end,
{
    if end > start {
        assert(row_ok(counts, ok, end - 1, f));
        lemma_run_length_is(counts, ok, end - 1, f, start);
    }
}

/// The field count of each of the last `k` lines, where it reaches
/// `min_f`, is among the candidates.
proof fn lemma_f_candidates_contains(counts: Seq<int>, last: int, min_f: int, k: int, r: int)
    requires
        last - k < r <= last,
        counts[r] >= min_f,
    ensures
        f_candidates(counts, last, min_f, k).contains(counts[r]),
    decreases k,
{
    let p = f_candidates(counts, last, min_f, k - 1);
    let f = counts[last - (k - 1)];
    if r == last - (k - 1) {
        if f >= min_f && !p.contains(f) {
            assert(p.push(f)[p.len() as int] == f);
        }
    } else {
        lemma_f_candidates_contains(counts, last, min_f, k - 1, r);
        let i = choose|i: int| 0 <= i < p.len() && p[i] == counts[r];
        if f >= min_f && !p.contains(f) {
            assert(p.push(f)[i] == counts[r]);
        }
    }
}

/// No data block scores more than the sniffer's: for every delimiter and
/// decimal separator tried, every run of at least `MIN_RUN_LENGTH`
/// numeric rows of a field count it tries (at least the least field count),
/// ending at the last such row within the lookback and reaching back as far
/// as such rows go, the sniffer finds a block scoring at least as much
/// (rows times fields).
pub proof fn lemma_no_run_scores_more(
    lines: Seq<Seq<char>>,
    delims: Seq<Delimiter>,
    decs: Seq<DecimalSeparator>,
    table: Seq<Seq<Seq<bool>>>,
    di: int,
    ei: int,
    start: int,
    run: int,
    f: int,
)
    requires
        0 <= di < delims.len(),
        0 <= ei < decs.len(),
        !(delims[di] == Delimiter::Comma && decs[ei] == DecimalSeparator::Comma),
        f >= min_field_count_for(delims),
        run >= MIN_RUN_LENGTH,
        terminal_run(field_counts(lines.take(sample_len(lines.len() as int)), delims[di]), table[di][ei],
            sample_len(lines.len() as int) - 1, lookback_of(sample_len(lines.len() as int)), start, run, f),
    ensures
        spec_best_block(lines, delims, decs, table) matches Some(b) && run * f <= b.0,
{
    let n = sample_len(lines.len() as int);
    let lookback = lookback_of(n);
    let min_f = min_field_count_for(delims);
    let sample = lines.take(n);
    let counts = field_counts(sample, delims[di]);
    let ok = table[di][ei];
    let end = start + run - 1;
    assert(row_ok(counts, ok, end, f));
    lemma_block_end_is(counts, ok, n - 1, lookback, f, end, 0);
    lemma_run_length_is(counts, ok, end, f, start);
    lemma_f_candidates_contains(counts, n - 1, min_f, lookback, end);
    let fs = f_candidates(counts, n - 1, min_f, lookback);
    let j = choose|j: int| 0 <= j < fs.len() && fs[j] == counts[end];
    assert(sniff_candidate(sample, delims, decs, table, n - 1, lookback, min_f, di, ei, j)
        == Some::<Block>((run * f, di, ei, start, f)));
    lemma_best_block_is_best(lines, delims, decs, table);
    assert(beats(spec_best_block(lines, delims, decs, table),
        sniff_candidate(sample, delims, decs, table, n - 1, lookback, min_f, di, ei, j)));
}

/// Field counts as integers.
pub open spec fn count_ints(v: Seq<usize>) -> Seq<int> {
    v.map_values(|x: usize| x as int)
}

/// The field-count candidates of the lookback lines.
fn field_count_candidates(counts: &Vec<usize>, last: usize, min_f: usize, lookback: usize) -> (fs: Vec<usize>)
    requires
        lookback <= last + 1,
        last < counts@.len(),
    ensures
        count_ints(fs@) == f_candidates(count_ints(counts@), last as int, min_f as int, lookback as int),
{
    let mut fs: Vec<usize> = Vec::new();
    let mut k: usize = 0;
    assert(count_ints(fs@) =~= seq![]);
    while k < lookback
        invariant
            lookback <= last + 1,
            last < counts@.len(),
            k <= lookback,
            count_ints(fs@) == f_candidates(count_ints(counts@), last as int, min_f as int, k as int),
        decreases lookback - k,
    {
        let f = counts[last - k];
        let mut found = false;
        let mut j: usize = 0;
        while j < fs.len()
            invariant
                j <= fs@.len(),
                found == (exists|i: int| 0 <= i < j && fs@[i] == f),
            decreases fs@.len() - j,
        {
            if fs[j] == f {
                found = true;
            }
            j += 1;
        }
        proof {
            let ci = count_ints(fs@);
            assert(found == ci.contains(f as int)) by {
                if found {
                    let i = choose|i: int| 0 <= i < j && fs@[i] == f;
                    assert(ci[i] == f as int);
                }
                if ci.contains(f as int) {
                    let i = choose|i: int| 0 <= i < ci.len() && ci[i] == f as int;
                    assert(fs@[i] == f);
                }
            }
        }
        if f >= min_f && !found {
            fs.push(f);
            assert(count_ints(fs@) =~= count_ints(fs@.drop_last()).push(f as int));
        }
        k += 1;
    }
    fs
}

/// Where the block of numeric rows of `f` fields ends, if within the lookback.
fn find_block_end(counts: &Vec<usize>, ok: &Vec<bool>, last: usize, lookback: usize, f: usize) -> (r: Option<usize>)
    requires
        lookback <= last + 1,
        last < counts@.len(),
        last < ok@.len(),
    ensures
        match r {
            Some(e) => e as int == block_end(count_ints(counts@), ok@, last as int, lookback as int, f as int, 0),
            None => block_end(count_ints(counts@), ok@, last as int, lookback as int, f as int, 0) == -1,
        },
        r matches Some(e) ==> e <= last,
{
    let ghost goal = block_end(count_ints(counts@), ok@, last as int, lookback as int, f as int, 0);
    let mut k: usize = 0;
    while k < lookback
        invariant
            lookback <= last + 1,
            last < counts@.len(),
            last < ok@.len(),
            k <= lookback,
            goal == block_end(count_ints(counts@), ok@, last as int, lookback as int, f as int, 0),
            block_end(count_ints(counts@), ok@, last as int, lookback as int, f as int, k as int) == goal,
        decreases lookback - k,
    {
        let idx = last - k;
        assert(count_ints(counts@)[idx as int] == counts@[idx as int] as int);
        if counts[idx] == f && ok[idx] {
            return Some(idx);
        }
        k += 1;
    }
    None
}

/// How many consecutive numeric rows of `f` fields end at `end`.
fn run_length_at(counts: &Vec<usize>, ok: &Vec<bool>, end: usize, f: usize) -> (r: usize)
    requires
        end < counts@.len(),
        end < ok@.len(),
    ensures
        r as int == run_length(count_ints(counts@), ok@, end as int, f as int),
        1 <= r <= end + 1,
{
    let mut i: usize = end;
    let mut run: usize = 1;
    let len = counts.len();
    while i > 0 && counts[i - 1] == f && ok[i - 1]
        invariant
            len == counts@.len(),
            i <= end < counts@.len(),
            end < ok@.len(),
            run == end - i + 1,
            run_length(count_ints(counts@), ok@, end as int, f as int) == run_length(count_ints(counts@), ok@, i as int, f as int) + (run - 1),
        decreases i,
    {
        assert(count_ints(counts@)[i - 1] == counts@[i - 1] as int);
        run += 1;
        i -= 1;
    }
    if i > 0 {
        assert(count_ints(counts@)[i - 1] == counts@[i - 1] as int);
    }
    run
}

/// A block as integers.
pub open spec fn block_view(b: Option<(u128, usize, usize, usize, usize)>) -> Option<Block> {
    match b {
        None => None,
        Some(x) => Some((x.0 as int, x.1 as int, x.2 as int, x.3 as int, x.4 as int)),
    }
}

/// Folds field-count candidates into the best block.
fn fold_counts(
    best: Option<(u128, usize, usize, usize, usize)>,
    fs: &Vec<usize>,
    counts: &Vec<usize>,
    ok: &Vec<bool>,
    last: usize,
    lookback: usize,
    di: usize,
    ei: usize,
) -> (r: Option<(u128, usize, usize, usize, usize)>)
    requires
        lookback <= last + 1,
        last < counts@.len(),
        last < ok@.len(),
    ensures
        block_view(r) == best_over_counts(block_view(best), count_ints(fs@), count_ints(counts@), ok@, last as int,
            lookback as int, di as int, ei as int),
        r matches Some(b) ==> (best matches Some(b0) && b == b0) || (b.1 == di && b.2 == ei && b.3 <= last),
{
    let ghost goal = best_over_counts(block_view(best), count_ints(fs@), count_ints(counts@), ok@, last as int,
        lookback as int, di as int, ei as int);
    let mut cur = best;
    let mut i: usize = 0;
    assert(count_ints(fs@).skip(0) =~= count_ints(fs@));
    while i < fs.len()
        invariant
            lookback <= last + 1,
            last < counts@.len(),
            last < ok@.len(),
            i <= fs@.len(),
            best_over_counts(block_view(cur), count_ints(fs@).skip(i as int), count_ints(counts@), ok@, last as int,
                lookback as int, di as int, ei as int) == goal,
            cur matches Some(b) ==> (best matches Some(b0) && b == b0) || (b.1 == di && b.2 == ei && b.3 <= last),
        decreases fs@.len() - i,
    {
        let f = fs[i];
        assert(count_ints(fs@).skip(i as int).drop_first() =~= count_ints(fs@).skip(i + 1));
        assert(count_ints(fs@).skip(i as int)[0] == f as int);
        match find_block_end(counts, ok, last, lookback, f) {
            None => {},
            Some(end) => {
                let run = run_length_at(counts, ok, end, f);
                assert((run as int) * (f as int) < 0x1_0000_0000_0000_0000_0000_0000_0000_0000int) by (nonlinear_arith)
                    requires
                        (run as int) < 0x1_0000_0000_0000_0000int,
                        (f as int) < 0x1_0000_0000_0000_0000int,
                ;
                let score: u128 = (run as u128) * (f as u128);
                if run >= MIN_RUN_LENGTH {
                    let better = match cur {
                        None => true,
                        Some(b) => score > b.0,
                    };
                    if better {
                        cur = Some((score, di, ei, end - (run - 1), f));
                    }
                }
            },
        }
        i += 1;
    }
    cur
}

/// The numeric-row table of one delimiter by its booleans.
pub open spec fn oks_view(t: Seq<Vec<bool>>) -> Seq<Seq<bool>> {
    t.map_values(|y: Vec<bool>| y@)
}

/// Folds the decimal separators of one delimiter into the best block.
fn fold_decimals(
    best: Option<(u128, usize, usize, usize, usize)>,
    decs: &Vec<DecimalSeparator>,
    d: Delimiter,
    di: usize,
    counts: &Vec<usize>,
    oks: &Vec<Vec<bool>>,
    last: usize,
    lookback: usize,
    min_f: usize,
) -> (r: Option<(u128, usize, usize, usize, usize)>)
    requires
        lookback <= last + 1,
        last < counts@.len(),
        oks@.len() == decs@.len(),
        forall|e: int| 0 <= e < oks@.len() ==> last < (#[trigger] oks@[e])@.len(),
    ensures
        block_view(r) == best_over_decimals(block_view(best), decs@, 0, d, di as int, count_ints(counts@), oks_view(oks@),
            last as int, lookback as int, min_f as int),
        r matches Some(b) ==> (best matches Some(b0) && b == b0) || (b.1 == di && b.2 < decs@.len() && b.3 <= last),
{
    let ghost goal = best_over_decimals(block_view(best), decs@, 0, d, di as int, count_ints(counts@), oks_view(oks@),
        last as int, lookback as int, min_f as int);
    let fs = field_count_candidates(counts, last, min_f, lookback);
    let mut cur = best;
    let mut ei: usize = 0;
    while ei < decs.len()
        invariant
            lookback <= last + 1,
            last < counts@.len(),
            oks@.len() == decs@.len(),
            forall|e: int| 0 <= e < oks@.len() ==> last < (#[trigger] oks@[e])@.len(),
            ei <= decs@.len(),
            count_ints(fs@) == f_candidates(count_ints(counts@), last as int, min_f as int, lookback as int),
            best_over_decimals(block_view(cur), decs@, ei as int, d, di as int, count_ints(counts@), oks_view(oks@),
                last as int, lookback as int, min_f as int) == goal,
            cur matches Some(b) ==> (best matches Some(b0) && b == b0) || (b.1 == di && b.2 < decs@.len() && b.3 <= last),
        decreases decs@.len() - ei,
    {
        if !(d == Delimiter::Comma && decs[ei] == DecimalSeparator::Comma) {
            assert(oks_view(oks@)[ei as int] == oks@[ei as int]@);
            cur = fold_counts(cur, &fs, counts, &oks[ei], last, lookback, di, ei);
        }
        ei += 1;
    }
    cur
}

/// The field counts of the first `n` lines split at `d`.
fn count_fields(lines: &Vec<Vec<char>>, n: usize, d: Delimiter) -> (counts: Vec<usize>)
    requires
        n <= lines@.len(),
    ensures
        counts@.len() == n,
        count_ints(counts@) == field_counts(pieces(lines@).take(n as int), d),
{
    let mut counts: Vec<usize> = Vec::new();
    let mut i: usize = 0;
    while i < n
        invariant
            n <= lines@.len(),
            i <= n,
            counts@.len() == i,
            forall|k: int| 0 <= k < i ==> #[trigger] counts@[k] as int == line_fields(lines@[k]@, d).len(),
        decreases n - i,
    {
        let fields = split_fields(lines[i].as_slice(), d);
        assert(fields@.len() == pieces(fields@).len());
        counts.push(fields.len());
        i += 1;
    }
    assert(count_ints(counts@) =~= field_counts(pieces(lines@).take(n as int), d));
    counts
}

/// The best data block over all candidate delimiters and decimal separators,
/// as positions among the candidates.
fn best_block(
    lines: &Vec<Vec<char>>,
    delims: &Vec<Delimiter>,
    decs: &Vec<DecimalSeparator>,
    numeric: &Vec<Vec<Vec<bool>>>,
) -> (r: Option<(u128, usize, usize, usize, usize)>)
    requires
        numeric@.len() == delims@.len(),
        forall|di: int| 0 <= di < numeric@.len() ==> (#[trigger] numeric@[di])@.len() == decs@.len(),
        forall|di: int, ei: int| 0 <= di < numeric@.len() && 0 <= ei < decs@.len() ==>
            sample_len(lines@.len() as int) <= (#[trigger] numeric@[di]@[ei])@.len(),
    ensures
        block_view(r) == spec_best_block(pieces(lines@), delims@, decs@, table_view(numeric@)),
        r matches Some(b) ==> b.1 < delims@.len() && b.2 < decs@.len() && b.3 < sample_len(lines@.len() as int),
{
    let n = if lines.len() < SNIFF_LINE_CAP { lines.len() } else { SNIFF_LINE_CAP };
    if n == 0 {
        return None;
    }
    let lookback = if TAIL_LOOKBACK < n { TAIL_LOOKBACK } else { n };
    let min_f: usize = if delims.len() == 1 { 1 } else { MIN_FIELD_COUNT };
    let last = n - 1;
    let ghost sample = pieces(lines@).take(n as int);
    let ghost goal = best_over_delims(None, delims@, 0, decs@, sample, table_view(numeric@), last as int, lookback as int, min_f as int);
    assert(pieces(lines@).take(n as int) =~= pieces(lines@).take(sample_len(lines@.len() as int)));
    let mut cur: Option<(u128, usize, usize, usize, usize)> = None;
    let mut di: usize = 0;
    while di < delims.len()
        invariant
            n == sample_len(lines@.len() as int),
            1 <= n <= lines@.len(),
            last == n - 1,
            lookback <= n,
            numeric@.len() == delims@.len(),
            forall|i: int| 0 <= i < numeric@.len() ==> (#[trigger] numeric@[i])@.len() == decs@.len(),
            forall|i: int, e: int| 0 <= i < numeric@.len() && 0 <= e < decs@.len() ==>
                n <= (#[trigger] numeric@[i]@[e])@.len(),
            sample == pieces(lines@).take(n as int),
            di <= delims@.len(),
            best_over_delims(block_view(cur), delims@, di as int, decs@, sample, table_view(numeric@), last as int,
                lookback as int, min_f as int) == goal,
            cur matches Some(b) ==> b.1 < di && b.2 < decs@.len() && b.3 <= last,
        decreases delims@.len() - di,
    {
        let d = delims[di];
        let counts = count_fields(lines, n, d);
        assert(table_view(numeric@)[di as int] == oks_view(numeric@[di as int]@));
        assert forall|e: int| 0 <= e < numeric@[di as int]@.len() implies last < (#[trigger] numeric@[di as int]@[e])@.len() by {
            assert(n <= numeric@[di as int]@[e]@.len());
        }
        cur = fold_decimals(cur, decs, d, di, &counts, &numeric[di], last, lookback, min_f);
        di += 1;
    }
    cur
}

/// How many lines the sniffer looks at.
pub open spec fn sample_len(n: int) -> int {
    if n < SNIFF_LINE_CAP {
        n
    } else {
        SNIFF_LINE_CAP as int
    }
}

/// What the sniffer decided.
#[derive(Debug, Clone, Copy)]
pub struct Sniff {
    pub delimiter: Delimiter,
    pub decimal_separator: DecimalSeparator,
    pub preamble_lines: usize,
    pub header_present: bool,
}

/// Every line from `start` on ends in an empty field (a trailing delimiter).
pub open spec fn rows_end_empty(lines: Seq<Seq<char>>, start: int, d: Delimiter) -> bool {
    forall|k: int| start <= k < lines.len() ==> (#[trigger] line_fields(lines[k], d)).last().len() == 0
}

/// A header line's fields fit rows of `f` fields: as many (or one more,
/// empty), or one fewer where every row ends in an empty field, whose
/// phantom column is dropped when the table is laid out.
pub open spec fn header_fits(fields: Seq<Seq<char>>, f: int, rows_trailing: bool) -> bool {
    count_matches_allowing_trailing_empty(fields, f) || (fields.len() + 1 == f && rows_trailing)
}

/// Header detection above a data block starting at `start` with `f`
/// fields: the line just above is a header when its fields fit the block's
/// and not all of them read as numbers; the preamble ends there, else at
/// the block. `candidate_numeric` says whether all fields of the line
/// above read as numbers or missing values.
pub open spec fn spec_detect_header(lines: Seq<Seq<char>>, start: int, d: Delimiter, f: int, candidate_numeric: bool) -> (bool, int) {
    if start == 0 {
        (false, 0)
    } else if header_fits(line_fields(lines[start - 1], d), f, rows_end_empty(lines, start, d)) && !candidate_numeric {
        (true, start - 1)
    } else {
        (false, start)
    }
}

/// Whether every line from `start` on ends in an empty field.
fn rows_end_empty_at(lines: &Vec<Vec<char>>, start: usize, d: Delimiter) -> (r: bool)
    ensures
        r == rows_end_empty(pieces(lines@), start as int, d),
{
    let mut k = start;
    while k < lines.len()
        invariant
            start <= k || k == start,
            forall|q: int| start <= q < k && q < lines@.len() ==> (#[trigger] line_fields(pieces(lines@)[q], d)).last().len() == 0,
        decreases lines@.len() - k,
    {
        let fields = split_fields(lines[k].as_slice(), d);
        assert(pieces(lines@)[k as int] == lines@[k as int]@);
        proof {
            lemma_split_on_nonempty(lines@[k as int]@, delimiter_char(d));
        }
        assert(pieces(fields@).last() == fields@[fields@.len() - 1]@);
        if fields[fields.len() - 1].len() != 0 {
            return false;
        }
        k += 1;
    }
    true
}

/// Finds where the data block starts and whether a header precedes it.
fn detect_header(lines: &Vec<Vec<char>>, start: usize, d: Delimiter, f: usize, candidate_numeric: bool) -> (r: (bool, usize))
    requires
        start <= lines@.len(),
    ensures
        (r.0, r.1 as int) == spec_detect_header(pieces(lines@), start as int, d, f as int, candidate_numeric),
{
    if start == 0 {
        return (false, 0);
    }
    let fields = split_fields(lines[start - 1].as_slice(), d);
    assert(pieces(lines@)[start - 1] == lines@[start - 1]@);
    assert(fields@.len() == pieces(fields@).len());
    let fits = field_count_matches_allowing_trailing_empty(&fields, f)
        || (f > 0 && fields.len() == f - 1 && rows_end_empty_at(lines, start, d));
    if fits && !candidate_numeric {
        (true, start - 1)
    } else {
        (false, start)
    }
}

/// The sniffer's decision, or the delimiters tried where no data block is found.
pub open spec fn spec_sniff(lines: Seq<Seq<char>>, delims: Seq<Delimiter>, decs: Seq<DecimalSeparator>, table: Seq<Seq<Seq<bool>>>) -> Option<(Delimiter, DecimalSeparator, int, bool)> {
    match spec_best_block(lines, delims, decs, table) {
        None => None,
        Some(b) => {
            let d = delims[b.1];
            let e = decs[b.2];
            let start = b.3;
            let numeric_above = if start > 0 { table[b.1][b.2][start - 1] } else { false };
            let h = spec_detect_header(lines, start, d, b.4, numeric_above);
            Some((d, e, h.1, h.0))
        },
    }
}

/// Finds the delimiter, decimal separator and data block of the lines,
/// and whether a header precedes the block. `numeric[di][ei][l]` says
/// whether every field of line `l` split at `delims[di]` is a number or a
/// missing value with decimal separator `decs[ei]`; it covers the lines
/// the sniffer looks at.
pub fn sniff_constrained(
    lines: &Vec<Vec<char>>,
    delims: &Vec<Delimiter>,
    decs: &Vec<DecimalSeparator>,
    numeric: &Vec<Vec<Vec<bool>>>,
) -> (r: Result<Sniff, ParseError>)
    requires
        numeric@.len() == delims@.len(),
        forall|di: int| 0 <= di < numeric@.len() ==> (#[trigger] numeric@[di])@.len() == decs@.len(),
        forall|di: int, ei: int| 0 <= di < numeric@.len() && 0 <= ei < decs@.len() ==>
            sample_len(lines@.len() as int) <= (#[trigger] numeric@[di]@[ei])@.len(),
    ensures
        match (r, spec_sniff(pieces(lines@), delims@, decs@, table_view(numeric@))) {
            (Ok(s), Some((d, e, pre, hp))) => s.delimiter == d && s.decimal_separator == e
                && s.preamble_lines == pre && s.header_present == hp,
            (Err(ParseError::NoDataBlockFound { delimiters_tried }), None) => delimiters_tried@ == delims@,
            _ => false,
        },
{
    match best_block(lines, delims, decs, numeric) {
        None => Err(ParseError::NoDataBlockFound { delimiters_tried: delims.clone() }),
        Some((_, di, ei, start, f)) => {
            let d = delims[di];
            let e = decs[ei];
            let numeric_above = if start > 0 { numeric[di][ei][start - 1] } else { false };
            let (header_present, preamble_lines) = detect_header(lines, start, d, f, numeric_above);
            Ok(Sniff { delimiter: d, decimal_separator: e, preamble_lines, header_present })
        },
    }
}

/// Header detection at a known line `skip`: it is a header when its
/// fields fit the next line's (its own count where it is the last line),
/// the lines after it being the rows, and not all of them read as numbers.
pub open spec fn spec_header_present_at(lines: Seq<Seq<char>>, skip: int, d: Delimiter, candidate_numeric: bool) -> bool {
    if skip >= lines.len() {
        false
    } else {
        let candidate = line_fields(lines[skip], d);
        let reference = if skip + 1 < lines.len() {
            line_fields(lines[skip + 1], d).len() as int
        } else {
            candidate.len() as int
        };
        header_fits(candidate, reference, rows_end_empty(lines, skip + 1, d)) && !candidate_numeric
    }
}

/// Whether line `skip` is a header. `candidate_numeric` says whether all
/// its fields read as numbers or missing values.
pub fn header_present_at(lines: &Vec<Vec<char>>, skip: usize, d: Delimiter, candidate_numeric: bool) -> (r: bool)
    ensures
        r == spec_header_present_at(pieces(lines@), skip as int, d, candidate_numeric),
{
    if skip >= lines.len() {
        return false;
    }
    let candidate = split_fields(lines[skip].as_slice(), d);
    assert(pieces(lines@)[skip as int] == lines@[skip as int]@);
    assert(candidate@.len() == pieces(candidate@).len());
    let reference = if skip + 1 < lines.len() {
        let next = split_fields(lines[skip + 1].as_slice(), d);
        assert(pieces(lines@)[skip + 1] == lines@[skip + 1]@);
        assert(next@.len() == pieces(next@).len());
        next.len()
    } else {
        candidate.len()
    };
    let fits = field_count_matches_allowing_trailing_empty(&candidate, reference)
        || (reference > 0 && candidate.len() == reference - 1 && rows_end_empty_at(lines, skip + 1, d));
    fits && !candidate_numeric
}

/// The first line and the length of the lenient scorer's sample when the
/// data starts at line `skip`: the lines after it (or from it, where none
/// follow), at most `LENIENT_SAMPLE_ROWS` of them.
pub open spec fn lenient_sample(n: int, skip: int) -> (int, int) {
    let scan_start = if skip + 1 < n { skip + 1 } else { n };
    let lo = if scan_start < n {
        scan_start
    } else if skip < n {
        skip
    } else {
        n
    };
    let len = if n - lo > LENIENT_SAMPLE_ROWS { LENIENT_SAMPLE_ROWS as int } else { n - lo };
    (lo, len)
}

/// Over the sample rows with `f` fields: how many there are, and how many of
/// their fields read as numbers (`numeric_counts` by line).
pub open spec fn lenient_tally(lines: Seq<Seq<char>>, d: Delimiter, f: int, counts: Seq<nat>, lo: int, k: int) -> (nat, nat)
    decreases k,
{
    if k <= 0 {
        (0, 0)
    } else {
        let t = lenient_tally(lines, d, f, counts, lo, k - 1);
        if line_fields(lines[lo + k - 1], d).len() == f {
            ((t.0 + 1) as nat, t.1 + counts[lo + k - 1])
        } else {
            t
        }
    }
}

/// A lenient candidate: numeric fields and matching rows (its score is
/// their ratio), and the positions of its delimiter and decimal separator.
pub type LenientPick = (nat, nat, int, int);

/// Folds the decimal separators of one delimiter into the best lenient pick:
/// a candidate replaces it only with a strictly higher ratio of numeric
/// fields to matching rows.
pub open spec fn lenient_over_decimals(
    best: Option<LenientPick>,
    lines: Seq<Seq<char>>,
    d: Delimiter,
    di: int,
    decs: Seq<DecimalSeparator>,
    ei: int,
    f: int,
    table: Seq<Seq<nat>>,
    lo: int,
    len: int,
) -> Option<LenientPick>
    decreases decs.len() - ei,
{
    if ei >= decs.len() || ei < 0 {
        best
    } else {
        let t = lenient_tally(lines, d, f, table[ei], lo, len);
        let next = if d == Delimiter::Comma && decs[ei] == DecimalSeparator::Comma {
            best
        } else if t.0 == 0 {
            best
        } else {
            match best {
                None => Some((t.1, t.0, di, ei)),
                Some(b) => if t.1 * b.1 > b.0 * t.0 {
                    Some((t.1, t.0, di, ei))
                } else {
                    best
                },
            }
        };
        lenient_over_decimals(next, lines, d, di, decs, ei + 1, f, table, lo, len)
    }
}

/// Folds the delimiters into the best lenient pick; a delimiter whose
/// first sample row has no field (an empty sample) is skipped.
pub open spec fn lenient_over_delims(
    best: Option<LenientPick>,
    lines: Seq<Seq<char>>,
    delims: Seq<Delimiter>,
    di: int,
    decs: Seq<DecimalSeparator>,
    table: Seq<Seq<Seq<nat>>>,
    lo: int,
    len: int,
) -> Option<LenientPick>
    decreases delims.len() - di,
{
    if di >= delims.len() || di < 0 {
        best
    } else {
        let d = delims[di];
        let next = if len == 0 {
            best
        } else {
            lenient_over_decimals(best, lines, d, di, decs, 0, line_fields(lines[lo], d).len() as int, table[di], lo, len)
        };
        lenient_over_delims(next, lines, delims, di + 1, decs, table, lo, len)
    }
}

/// The counts table by its numbers.
pub open spec fn counts_view(t: Seq<Vec<Vec<usize>>>) -> Seq<Seq<Seq<nat>>> {
    t.map_values(|x: Vec<Vec<usize>>| x@.map_values(|y: Vec<usize>| nat_counts(y@)))
}

/// Counts as natural numbers.
pub open spec fn nat_counts(v: Seq<usize>) -> Seq<nat> {
    v.map_values(|z: usize| z as nat)
}

/// The lenient tally of one delimiter and decimal separator.
fn tally(lines: &Vec<Vec<char>>, d: Delimiter, f: usize, counts: &Vec<usize>, lo: usize, len: usize) -> (t: (usize, u128))
    requires
        lo + len <= lines@.len(),
        lo + len <= counts@.len(),
        len <= LENIENT_SAMPLE_ROWS,
    ensures
        (t.0 as nat, t.1 as nat) == lenient_tally(pieces(lines@), d, f as int, nat_counts(counts@), lo as int, len as int),
        t.0 <= len,
        t.1 <= len * 0x1_0000_0000_0000_0000,
{
    let mut rows: usize = 0;
    let mut ok: u128 = 0;
    let mut k: usize = 0;
    let n_lines = lines.len();
    while k < len
        invariant
            n_lines == lines@.len(),
            lo + len <= lines@.len(),
            lo + len <= counts@.len(),
            len <= LENIENT_SAMPLE_ROWS,
            k <= len,
            rows <= k,
            ok <= k * 0x1_0000_0000_0000_0000,
            (rows as nat, ok as nat) == lenient_tally(pieces(lines@), d, f as int, nat_counts(counts@), lo as int, k as int),
        decreases len - k,
    {
        let fields = split_fields(lines[lo + k].as_slice(), d);
        assert(pieces(lines@)[lo + k] == lines@[lo + k]@);
        assert(fields@.len() == pieces(fields@).len());
        assert(nat_counts(counts@)[lo + k] == counts@[lo + k] as nat);
        if fields.len() == f {
            rows += 1;
            ok += counts[lo + k] as u128;
        }
        k += 1;
    }
    (rows, ok)
}

/// A lenient pick by its numbers.
pub open spec fn pick_view(p: Option<(u128, usize, usize, usize)>) -> Option<LenientPick> {
    match p {
        None => None,
        Some(x) => Some((x.0 as nat, x.1 as nat, x.2 as int, x.3 as int)),
    }
}

/// The delimiter and decimal separator that best split the lines from
/// `skip` on, with the error naming the delimiters tried where none does.
pub open spec fn spec_pick_lenient(
    lines: Seq<Seq<char>>,
    skip: int,
    delims: Seq<Delimiter>,
    decs: Seq<DecimalSeparator>,
    table: Seq<Seq<Seq<nat>>>,
) -> Option<(Delimiter, DecimalSeparator)> {
    let (lo, len) = lenient_sample(lines.len() as int, skip);
    match lenient_over_delims(None, lines, delims, 0, decs, table, lo, len) {
        None => None,
        Some(b) => Some((delims[b.2], decs[b.3])),
    }
}

/// Picks the delimiter and decimal separator when the data's first line is
/// known: over a sample of the lines that follow, the candidate whose rows
/// (those with as many fields as the first sample row) hold the most
/// numeric fields per row wins, the first among equals. `numeric_counts
/// [di][ei][l]` is how many fields of line `l` split at `delims[di]` read
/// as numbers or missing values with decimal separator `decs[ei]`, for the
/// sampled lines.
pub fn pick_delimiter_lenient(
    lines: &Vec<Vec<char>>,
    skip: usize,
    delims: &Vec<Delimiter>,
    decs: &Vec<DecimalSeparator>,
    numeric_counts: &Vec<Vec<Vec<usize>>>,
) -> (r: Result<(Delimiter, DecimalSeparator), ParseError>)
    requires
        numeric_counts@.len() == delims@.len(),
        forall|di: int| 0 <= di < numeric_counts@.len() ==> (#[trigger] numeric_counts@[di])@.len() == decs@.len(),
        forall|di: int, ei: int| 0 <= di < numeric_counts@.len() && 0 <= ei < decs@.len() ==> ({
            let s = lenient_sample(lines@.len() as int, skip as int);
            s.0 + s.1 <= (#[trigger] numeric_counts@[di]@[ei])@.len()
        }),
    ensures
        match (r, spec_pick_lenient(pieces(lines@), skip as int, delims@, decs@, counts_view(numeric_counts@))) {
            (Ok(p), Some(q)) => p == q,
            (Err(ParseError::NoDataBlockFound { delimiters_tried }), None) => delimiters_tried@ == delims@,
            _ => false,
        },
{
    let n = lines.len();
    let scan_start = if skip < n && skip + 1 < n { skip + 1 } else { n };
    let lo = if scan_start < n {
        scan_start
    } else if skip < n {
        skip
    } else {
        n
    };
    let len = if n - lo > LENIENT_SAMPLE_ROWS { LENIENT_SAMPLE_ROWS } else { n - lo };
    assert((lo as int, len as int) == lenient_sample(n as int, skip as int));
    let ghost pl = pieces(lines@);
    let ghost table = counts_view(numeric_counts@);
    let ghost goal = lenient_over_delims(None, pl, delims@, 0, decs@, table, lo as int, len as int);
    let mut best: Option<(u128, usize, usize, usize)> = None;
    let mut di: usize = 0;
    while di < delims.len()
        invariant
            n == lines@.len(),
            lo + len <= n,
            len <= LENIENT_SAMPLE_ROWS,
            pl == pieces(lines@),
            table == counts_view(numeric_counts@),
            numeric_counts@.len() == delims@.len(),
            forall|i: int| 0 <= i < numeric_counts@.len() ==> (#[trigger] numeric_counts@[i])@.len() == decs@.len(),
            forall|i: int, e: int| 0 <= i < numeric_counts@.len() && 0 <= e < decs@.len() ==>
                lo + len <= (#[trigger] numeric_counts@[i]@[e])@.len(),
            di <= delims@.len(),
            lenient_over_delims(pick_view(best), pl, delims@, di as int, decs@, table, lo as int, len as int) == goal,
            best matches Some(b) ==> b.2 < di && b.3 < decs@.len() && b.1 <= LENIENT_SAMPLE_ROWS && b.0 <= LENIENT_SAMPLE_ROWS * 0x1_0000_0000_0000_0000,
        decreases delims@.len() - di,
    {
        let d = delims[di];
        if len > 0 {
            let first = split_fields(lines[lo].as_slice(), d);
            assert(pl[lo as int] == lines@[lo as int]@);
            assert(first@.len() == pieces(first@).len());
            let f = first.len();
            let ghost dtable = table[di as int];
            assert(dtable == numeric_counts@[di as int]@.map_values(|y: Vec<usize>| nat_counts(y@)));
            let ghost dgoal = lenient_over_decimals(pick_view(best), pl, d, di as int, decs@, 0, f as int, dtable, lo as int, len as int);
            let mut ei: usize = 0;
            while ei < decs.len()
                invariant
                    n == lines@.len(),
                    lo + len <= n,
                    len <= LENIENT_SAMPLE_ROWS,
                    pl == pieces(lines@),
                    di < delims@.len(),
                    numeric_counts@.len() == delims@.len(),
                    d == delims@[di as int],
                    numeric_counts@[di as int]@.len() == decs@.len(),
                    forall|e: int| 0 <= e < decs@.len() ==> lo + len <= (#[trigger] numeric_counts@[di as int]@[e])@.len(),
                    dtable == numeric_counts@[di as int]@.map_values(|y: Vec<usize>| nat_counts(y@)),
                    ei <= decs@.len(),
                    lenient_over_decimals(pick_view(best), pl, d, di as int, decs@, ei as int, f as int, dtable, lo as int, len as int) == dgoal,
                    best matches Some(b) ==> b.2 <= di && b.3 < decs@.len() && b.1 <= LENIENT_SAMPLE_ROWS && b.0 <= LENIENT_SAMPLE_ROWS * 0x1_0000_0000_0000_0000,
                decreases decs@.len() - ei,
            {
                let e = decs[ei];
                if !(d == Delimiter::Comma && e == DecimalSeparator::Comma) {
                    let (rows, ok) = tally(lines, d, f, &numeric_counts[di][ei], lo, len);
                    assert(dtable[ei as int] == nat_counts(numeric_counts@[di as int]@[ei as int]@));
                    if rows > 0 {
                        let better = match best {
                            None => true,
                            Some(b) => {
                                assert((ok as int) * (b.1 as int) <= 0x1_0000_0000_0000_0000_0000_0000int) by (nonlinear_arith)
                                    requires
                                        (ok as int) <= 200 * 0x1_0000_0000_0000_0000int,
                                        (b.1 as int) <= 200,
                                ;
                                assert((b.0 as int) * (rows as int) <= 0x1_0000_0000_0000_0000_0000_0000int) by (nonlinear_arith)
                                    requires
                                        (b.0 as int) <= 200 * 0x1_0000_0000_0000_0000int,
                                        (rows as int) <= 200,
                                ;
                                ok * (b.1 as u128) > b.0 * (rows as u128)
                            },
                        };
                        if better {
                            best = Some((ok, rows, di, ei));
                        }
                    }
                }
                ei += 1;
            }
        }
        di += 1;
    }
    match best {
        None => Err(ParseError::NoDataBlockFound { delimiters_tried: delims.clone() }),
        Some((_, _, di, ei)) => Ok((delims[di], decs[ei])),
    }
}

/// White space as `char::is_whitespace` has it (the Unicode White_Space
/// property).
pub open spec fn is_white_space(c: char) -> bool {
    ||| ('\u{9}' <= c && c <= '\u{d}')
    ||| c == ' '
    ||| c == '\u{85}'
    ||| c == '\u{a0}'
    ||| c == '\u{1680}'
    ||| ('\u{2000}' <= c && c <= '\u{200a}')
    ||| c == '\u{2028}'
    ||| c == '\u{2029}'
    ||| c == '\u{202f}'
    ||| c == '\u{205f}'
    ||| c == '\u{3000}'
}

/// Whether `c` is white space.
pub fn white_space(c: char) -> (r: bool)
    ensures
        r == is_white_space(c),
{
    ('\u{9}' <= c && c <= '\u{d}') || c == ' ' || c == '\u{85}' || c == '\u{a0}' || c == '\u{1680}'
        || ('\u{2000}' <= c && c <= '\u{200a}') || c == '\u{2028}' || c == '\u{2029}' || c == '\u{202f}'
        || c == '\u{205f}' || c == '\u{3000}'
}

/// `s` without leading white space.
pub open spec fn trim_start_ws(s: Seq<char>) -> Seq<char>
    decreases s.len(),
{
    if s.len() > 0 && is_white_space(s[0]) {
        trim_start_ws(s.drop_first())
    } else {
        s
    }
}

/// `s` without trailing white space.
pub open spec fn trim_end_ws(s: Seq<char>) -> Seq<char>
    decreases s.len(),
{
    if s.len() > 0 && is_white_space(s.last()) {
        trim_end_ws(s.drop_last())
    } else {
        s
    }
}

/// `s` without leading and trailing white space.
pub open spec fn trim_ws(s: Seq<char>) -> Seq<char> {
    trim_end_ws(trim_start_ws(s))
}

/// Drops leading and trailing white space.
pub fn trim(s: &[char]) -> (t: Vec<char>)
    ensures
        t@ == trim_ws(s@),
{
    let mut lo: usize = 0;
    assert(s@.skip(0) =~= s@);
    while lo < s.len() && white_space(s[lo])
        invariant
            lo <= s@.len(),
            trim_start_ws(s@) == trim_start_ws(s@.skip(lo as int)),
        decreases s@.len() - lo,
    {
        assert(s@.skip(lo as int).drop_first() =~= s@.skip(lo + 1));
        lo += 1;
    }
    let mut hi: usize = s.len();
    assert(s@.skip(lo as int) =~= s@.subrange(lo as int, hi as int));
    while hi > lo && white_space(s[hi - 1])
        invariant
            lo <= hi <= s@.len(),
            trim_ws(s@) == trim_end_ws(s@.subrange(lo as int, hi as int)),
        decreases hi,
    {
        assert(s@.subrange(lo as int, hi as int).drop_last() =~= s@.subrange(lo as int, hi - 1));
        hi -= 1;
    }
    vstd::slice::slice_to_vec(slice_subrange(s, lo, hi))
}

/// The decimal digits of `n`.
pub open spec fn decimal_digits(n: nat) -> Seq<char>
    decreases n,
{
    if n < 10 {
        seq![digit_char(n)]
    } else {
        decimal_digits(n / 10) + seq![digit_char(n % 10)]
    }
}

/// The digit character of `d` (below 10).
pub open spec fn digit_char(d: nat) -> char {
    if d == 0 { '0' } else if d == 1 { '1' } else if d == 2 { '2' } else if d == 3 { '3' } else if d == 4 { '4' }
    else if d == 5 { '5' } else if d == 6 { '6' } else if d == 7 { '7' } else if d == 8 { '8' } else { '9' }
}

fn digit(d: usize) -> (c: char)
    requires
        d < 10,
    ensures
        c == digit_char(d as nat),
{
    if d == 0 { '0' } else if d == 1 { '1' } else if d == 2 { '2' } else if d == 3 { '3' } else if d == 4 { '4' }
    else if d == 5 { '5' } else if d == 6 { '6' } else if d == 7 { '7' } else if d == 8 { '8' } else { '9' }
}

/// Appends the decimal digits of `n`.
fn push_decimal(out: &mut Vec<char>, n: usize)
    ensures
        final(out)@ == old(out)@ + decimal_digits(n as nat),
    decreases n,
{
    if n >= 10 {
        push_decimal(out, n / 10);
    }
    out.push(digit(n % 10));
    proof {
        if n >= 10 {
            assert(out@ =~= old(out)@ + decimal_digits(n as nat));
        } else {
            assert(out@ =~= old(out)@ + decimal_digits(n as nat));
        }
    }
}

/// The name `col<i>` given to an unnamed column.
pub open spec fn column_name(i: nat) -> Seq<char> {
    seq!['c', 'o', 'l'] + decimal_digits(i)
}

fn make_column_name(i: usize) -> (v: Vec<char>)
    ensures
        v@ == column_name(i as nat),
{
    let mut v: Vec<char> = Vec::new();
    v.push('c');
    v.push('o');
    v.push('l');
    push_decimal(&mut v, i);
    v
}

/// Header names `col1`, `col2`, ... for `f` columns.
pub open spec fn synthesized_header(f: int) -> Seq<Seq<char>> {
    Seq::new(f as nat, |i: int| column_name((i + 1) as nat))
}

/// Each field without its surrounding white space.
pub open spec fn trimmed(fs: Seq<Seq<char>>) -> Seq<Seq<char>> {
    fs.map_values(|x: Seq<char>| trim_ws(x))
}

/// The fields of every line from `ds` on.
pub open spec fn body_rows(lines: Seq<Seq<char>>, ds: int, d: Delimiter) -> Seq<Seq<Seq<char>>> {
    Seq::new((lines.len() - ds) as nat, |k: int| line_fields(lines[ds + k], d))
}

/// Rows of fields by their characters.
pub open spec fn rows_view(v: Seq<Vec<Vec<char>>>) -> Seq<Seq<Seq<char>>> {
    v.map_values(|r: Vec<Vec<char>>| pieces(r@))
}

/// The header and body after dropping a trailing empty column: one on the
/// header only (a header with one field more than the first row, the last
/// empty), and one that every row ends in (dropped from the rows, and from
/// the header too where the header has as many fields as the first row or
/// was synthesized). Also gives whether each of the two was dropped.
pub open spec fn spec_trailing_fix(h0: Seq<Seq<char>>, synth: bool, body: Seq<Seq<Seq<char>>>) -> (Seq<Seq<char>>, Seq<Seq<Seq<char>>>, bool, bool) {
    let body_len = if body.len() > 0 { body[0].len() as int } else { 0 };
    let a = !synth && h0.len() > 0 && h0.last().len() == 0 && h0.len() == body_len + 1;
    let h1 = if a { h0.drop_last() } else { h0 };
    let all = body.len() > 0 && forall|k: int| 0 <= k < body.len() ==> (#[trigger] body[k]).len() > 0 && body[k].last().len() == 0;
    let ok = synth || h1.len() == body_len || h1.len() + 1 == body_len;
    let b = all && ok;
    let body2 = if b { Seq::new(body.len(), |k: int| body[k].drop_last()) } else { body };
    let h2 = if b && (synth || h1.len() == body_len) { h1.drop_last() } else { h1 };
    (h2, body2, a, b)
}

/// Header names that are empty (or white space) become `col<i>` by position.
pub open spec fn named(h: Seq<Seq<char>>) -> Seq<Seq<char>> {
    Seq::new(h.len(), |i: int| if trim_ws(h[i]).len() == 0 { column_name((i + 1) as nat) } else { h[i] })
}

/// How many of the names up to and including `i` equal name `i`.
pub open spec fn occurrences(h: Seq<Seq<char>>, i: int, k: int) -> nat
    decreases k,
{
    if k <= 0 {
        0
    } else {
        occurrences(h, i, k - 1) + if h[k - 1] == h[i] { 1nat } else { 0nat }
    }
}

/// `x` with ` (k)` appended.
pub open spec fn suffixed(x: Seq<char>, k: nat) -> Seq<char> {
    x + seq![' ', '('] + decimal_digits(k) + seq![')']
}

/// The first number from `k` on (trying at most `fuel` of them) whose
/// suffixed name is not in `taken`.
pub open spec fn free_suffix(x: Seq<char>, k: nat, taken: Seq<Seq<char>>, fuel: nat) -> nat
    decreases fuel,
{
    if fuel == 0 || !taken.contains(suffixed(x, k)) {
        k
    } else {
        free_suffix(x, k + 1, taken, (fuel - 1) as nat)
    }
}

/// Name `i` of `h` once the names before it have become `prev`: a first
/// occurrence keeps its name; the `c`-th occurrence of `x` becomes
/// `x (c)`, or `x (c+1)`, ... where that name is already taken by a name
/// of `h` or by an earlier renamed one.
pub open spec fn renamed(h: Seq<Seq<char>>, prev: Seq<Seq<char>>, i: int) -> Seq<char> {
    let c = occurrences(h, i, i + 1);
    if c <= 1 {
        h[i]
    } else {
        let taken = h + prev;
        suffixed(h[i], free_suffix(h[i], c, taken, taken.len() + 1))
    }
}

/// The first `n` names of `h` renamed.
pub open spec fn deduped_prefix(h: Seq<Seq<char>>, n: int) -> Seq<Seq<char>>
    decreases n,
{
    if n <= 0 {
        seq![]
    } else {
        let p = deduped_prefix(h, n - 1);
        p.push(renamed(h, p, n - 1))
    }
}

/// Repeated names numbered apart: `name (2)`, `name (3)`, ..., skipping
/// any number whose name is already taken.
pub open spec fn deduped(h: Seq<Seq<char>>) -> Seq<Seq<char>> {
    deduped_prefix(h, h.len() as int)
}

/// Renaming the first `n` names gives `n` names.
pub proof fn lemma_deduped_prefix_len(h: Seq<Seq<char>>, n: int)
    requires
        0 <= n,
    ensures
        deduped_prefix(h, n).len() == n,
    decreases n,
{
    if n > 0 {
        lemma_deduped_prefix_len(h, n - 1);
    }
}

proof fn lemma_digits_nonempty(n: nat)
    ensures
        decimal_digits(n).len() >= 1,
        n >= 10 ==> decimal_digits(n).len() >= 2,
    decreases n,
{
    if n >= 10 {
        lemma_digits_nonempty(n / 10);
    }
}

/// Different numbers have different decimal digits.
pub proof fn lemma_digits_injective(a: nat, b: nat)
    requires
        decimal_digits(a) == decimal_digits(b),
    ensures
        a == b,
    decreases a,
{
    lemma_digits_nonempty(a);
    lemma_digits_nonempty(b);
    if a < 10 && b < 10 {
        assert(decimal_digits(a) == seq![digit_char(a)]);
        assert(decimal_digits(b) == seq![digit_char(b)]);
        assert(seq![digit_char(a)][0] == digit_char(a));
        assert(seq![digit_char(b)][0] == digit_char(b));
        assert(decimal_digits(a)[0] == decimal_digits(b)[0]);
        lemma_digit_char_injective(a, b);
    } else if a >= 10 && b >= 10 {
        let da = decimal_digits(a);
        let db = decimal_digits(b);
        assert(da.last() == db.last());
        assert(da.drop_last() =~= decimal_digits(a / 10));
        assert(db.drop_last() =~= decimal_digits(b / 10));
        lemma_digits_injective(a / 10, b / 10);
        assert(digit_char(a % 10) == digit_char(b % 10));
        lemma_digit_char_injective(a % 10, b % 10);
        assert(a == 10 * (a / 10) + a % 10);
        assert(b == 10 * (b / 10) + b % 10);
    } else if a < 10 {
        assert(decimal_digits(a).len() == 1);
    } else {
        assert(decimal_digits(b).len() == 1);
    }
}

proof fn lemma_digit_char_injective(a: nat, b: nat)
    requires
        a < 10,
        b < 10,
        digit_char(a) == digit_char(b),
    ensures
        a == b,
{
}

/// Different numbers give different suffixed names.
pub proof fn lemma_suffixed_injective(x: Seq<char>, a: nat, b: nat)
    requires
        suffixed(x, a) == suffixed(x, b),
    ensures
        a == b,
{
    let sa = suffixed(x, a);
    let sb = suffixed(x, b);
    assert(sa.len() == sb.len());
    let lo = x.len() + 2;
    assert(sa.subrange(lo as int, sa.len() - 1) =~= decimal_digits(a));
    assert(sb.subrange(lo as int, sb.len() - 1) =~= decimal_digits(b));
    lemma_digits_injective(a, b);
}

/// Among `taken.len() + 1` consecutive numbers one gives a free name.
pub proof fn lemma_free_exists(x: Seq<char>, c: nat, taken: Seq<Seq<char>>)
    ensures
        exists|k: nat| c <= k <= c + taken.len() && !taken.contains(#[trigger] suffixed(x, k)),
    decreases taken.len(),
{
    if !taken.contains(suffixed(x, c)) {
        assert(c <= c <= c + taken.len() && !taken.contains(suffixed(x, c)));
    } else {
        let j = choose|j: int| 0 <= j < taken.len() && taken[j] == suffixed(x, c);
        let rest = taken.remove(j);
        lemma_free_exists(x, c + 1, rest);
        let k = choose|k: nat| c + 1 <= k <= c + 1 + rest.len() && !rest.contains(#[trigger] suffixed(x, k));
        if taken.contains(suffixed(x, k)) {
            let i = choose|i: int| 0 <= i < taken.len() && taken[i] == suffixed(x, k);
            if i == j {
                lemma_suffixed_injective(x, k, c);
            } else if i < j {
                assert(rest[i] == taken[i]);
            } else {
                assert(rest[i - 1] == taken[i]);
            }
        }
        assert(c <= k <= c + taken.len() && !taken.contains(suffixed(x, k)));
    }
}

/// The search finds a free name when one lies within its reach.
proof fn lemma_free_suffix_free(x: Seq<char>, a: nat, taken: Seq<Seq<char>>, fuel: nat)
    requires
        exists|k: nat| a <= k < a + fuel && !taken.contains(#[trigger] suffixed(x, k)),
    ensures
        !taken.contains(suffixed(x, free_suffix(x, a, taken, fuel))),
    decreases fuel,
{
    if taken.contains(suffixed(x, a)) {
        let k = choose|k: nat| a <= k < a + fuel && !taken.contains(#[trigger] suffixed(x, k));
        assert(k != a);
        assert(a + 1 <= k < (a + 1) + (fuel - 1) && !taken.contains(suffixed(x, k)));
        lemma_free_suffix_free(x, a + 1, taken, (fuel - 1) as nat);
    }
}

/// The search stops at the first free number.
proof fn lemma_free_suffix_is(x: Seq<char>, a: nat, taken: Seq<Seq<char>>, fuel: nat, k: nat)
    requires
        a <= k < a + fuel,
        forall|j: nat| a <= j < k ==> taken.contains(#[trigger] suffixed(x, j)),
        !taken.contains(suffixed(x, k)),
    ensures
        free_suffix(x, a, taken, fuel) == k,
    decreases k - a,
{
    if a < k {
        assert(taken.contains(suffixed(x, a)));
        lemma_free_suffix_is(x, a + 1, taken, (fuel - 1) as nat, k);
    }
}

/// An earlier name equal to name `i` makes it at least its second occurrence.
proof fn lemma_occurrences_count(h: Seq<Seq<char>>, i: int, k: int)
    requires
        0 <= k <= h.len(),
    ensures
        occurrences(h, i, k) >= 1 <==> exists|j: int| 0 <= j < k && h[j] == h[i],
    decreases k,
{
    if k > 0 {
        lemma_occurrences_count(h, i, k - 1);
        if exists|j: int| 0 <= j < k && h[j] == h[i] {
            let j = choose|j: int| 0 <= j < k && h[j] == h[i];
            if j < k - 1 {
                assert(exists|j2: int| 0 <= j2 < k - 1 && h[j2] == h[i]);
            }
        }
    }
}

/// Renaming leaves no two names equal: first occurrences keep their name,
/// and every renamed name is new, both to the input and to the names
/// given before it.
pub proof fn lemma_deduped_distinct(h: Seq<Seq<char>>)
    ensures
        deduped(h).len() == h.len(),
        forall|i: int, j: int| 0 <= i < j < h.len() ==> deduped(h)[i] != deduped(h)[j],
{
    lemma_deduped_prefix_distinct(h, h.len() as int);
}

proof fn lemma_deduped_prefix_distinct(h: Seq<Seq<char>>, n: int)
    requires
        0 <= n <= h.len(),
    ensures
        deduped_prefix(h, n).len() == n,
        forall|i: int, j: int| 0 <= i < j < n ==> deduped_prefix(h, n)[i] != deduped_prefix(h, n)[j],
        forall|i: int| 0 <= i < n ==> (occurrences(h, i, i + 1) <= 1 ==> #[trigger] deduped_prefix(h, n)[i] == h[i]),
        forall|i: int| 0 <= i < n ==> (occurrences(h, i, i + 1) > 1 ==> !h.contains(#[trigger] deduped_prefix(h, n)[i])),
    decreases n,
{
    if n > 0 {
        lemma_deduped_prefix_distinct(h, n - 1);
        let p = deduped_prefix(h, n - 1);
        let q = deduped_prefix(h, n);
        let m = n - 1;
        assert(q == p.push(renamed(h, p, m)));
        let c = occurrences(h, m, m + 1);
        let taken = h + p;
        if c > 1 {
            lemma_free_exists(h[m], c, taken);
            let k = choose|k: nat| c <= k <= c + taken.len() && !taken.contains(#[trigger] suffixed(h[m], k));
            assert(c <= k < c + (taken.len() + 1) && !taken.contains(suffixed(h[m], k)));
            lemma_free_suffix_free(h[m], c, taken, taken.len() + 1);
            let nm = q[m];
            assert(!taken.contains(nm));
            assert forall|i: int| 0 <= i < m implies q[i] != nm by {
                assert(q[i] == p[i]);
                assert(taken[h.len() + i] == p[i]);
            }
            assert(!h.contains(nm)) by {
                if h.contains(nm) {
                    let t = choose|t: int| 0 <= t < h.len() && h[t] == nm;
                    assert(taken[t] == nm);
                }
            }
        } else {
            lemma_occurrences_count(h, m, m);
            assert forall|i: int| 0 <= i < m implies q[i] != q[m] by {
                assert(q[i] == p[i]);
                if occurrences(h, i, i + 1) <= 1 {
                    assert(q[i] == h[i]);
                    if h[i] == h[m] {
                        assert(occurrences(h, m, m) >= 1);
                        assert(occurrences(h, m, m + 1) >= 2);
                    }
                } else {
                    assert(h.contains(h[m]));
                }
            }
        }
        assert forall|i: int, j: int| 0 <= i < j < n implies q[i] != q[j] by {
            if j < m {
                assert(q[i] == p[i] && q[j] == p[j]);
            }
        }
        assert forall|i: int| 0 <= i < n implies (occurrences(h, i, i + 1) <= 1 ==> #[trigger] q[i] == h[i]) by {
            if i < m {
                assert(q[i] == p[i]);
            }
        }
        assert forall|i: int| 0 <= i < n implies (occurrences(h, i, i + 1) > 1 ==> !h.contains(#[trigger] q[i])) by {
            if i < m {
                assert(q[i] == p[i]);
            }
        }
    }
}

/// The rows with exactly `f` fields.
pub open spec fn rows_with(rows: Seq<Seq<Seq<char>>>, f: int) -> Seq<Seq<Seq<char>>>
    decreases rows.len(),
{
    if rows.len() == 0 {
        seq![]
    } else if rows.last().len() == f {
        rows_with(rows.drop_last(), f).push(rows.last())
    } else {
        rows_with(rows.drop_last(), f)
    }
}

/// The 1-based line numbers of the rows (the first on line `ds`) without
/// exactly `f` fields.
pub open spec fn ragged_lines(rows: Seq<Seq<Seq<char>>>, f: int, ds: int) -> Seq<int>
    decreases rows.len(),
{
    if rows.len() == 0 {
        seq![]
    } else if rows.last().len() != f {
        ragged_lines(rows.drop_last(), f, ds).push(ds + rows.len())
    } else {
        ragged_lines(rows.drop_last(), f, ds)
    }
}

/// The table's layout: header names, whether they were synthesized, the two
/// trailing-column fixes, the rows kept (fields untrimmed), how many ragged
/// rows were dropped and the line numbers of the first of them.
pub struct LayoutView {
    pub header: Seq<Seq<char>>,
    pub synthesized: bool,
    pub header_trailing_dropped: bool,
    pub body_trailing_dropped: bool,
    pub rows: Seq<Seq<Seq<char>>>,
    pub ragged_dropped: nat,
    pub ragged_line_numbers: Seq<int>,
}

/// Lays out the table whose data starts at line `ds`, a header (when
/// present) on the line before.
pub open spec fn spec_layout(lines: Seq<Seq<char>>, ds: int, d: Delimiter, header_present: bool) -> LayoutView {
    let h0 = if header_present {
        trimmed(line_fields(lines[ds - 1], d))
    } else {
        synthesized_header(line_fields(lines[ds], d).len() as int)
    };
    let body = body_rows(lines, ds, d);
    let fixed = spec_trailing_fix(h0, !header_present, body);
    let h = deduped(named(fixed.0));
    let kept = rows_with(fixed.1, h.len() as int);
    let ragged = ragged_lines(fixed.1, h.len() as int, ds);
    LayoutView {
        header: h,
        synthesized: !header_present,
        header_trailing_dropped: fixed.2,
        body_trailing_dropped: fixed.3,
        rows: kept,
        ragged_dropped: (fixed.1.len() - kept.len()) as nat,
        ragged_line_numbers: if ragged.len() > MAX_REPORTED_ROWS { ragged.take(MAX_REPORTED_ROWS as int) } else { ragged },
    }
}

/// Rows kept and rows dropped as ragged split the rows: the kept ones all
/// have `f` fields.
proof fn lemma_rows_split(rows: Seq<Seq<Seq<char>>>, f: int, ds: int)
    ensures
        rows_with(rows, f).len() + ragged_lines(rows, f, ds).len() == rows.len(),
        forall|i: int| 0 <= i < rows_with(rows, f).len() ==> (#[trigger] rows_with(rows, f)[i]).len() == f,
    decreases rows.len(),
{
    if rows.len() > 0 {
        lemma_rows_split(rows.drop_last(), f, ds);
    }
}

/// The shape of a laid-out table: every row kept has one field per header
/// name, and as many line numbers are reported as ragged rows were
/// dropped, at most `MAX_REPORTED_ROWS` of them.
pub proof fn lemma_layout_shape(lines: Seq<Seq<char>>, ds: int, d: Delimiter, header_present: bool)
    ensures
        ({
            let v = spec_layout(lines, ds, d, header_present);
            &&& forall|i: int| 0 <= i < v.rows.len() ==> (#[trigger] v.rows[i]).len() == v.header.len()
            &&& v.ragged_line_numbers.len() == if v.ragged_dropped > MAX_REPORTED_ROWS {
                MAX_REPORTED_ROWS as nat
            } else {
                v.ragged_dropped
            }
        }),
{
    let h0 = if header_present {
        trimmed(line_fields(lines[ds - 1], d))
    } else {
        synthesized_header(line_fields(lines[ds], d).len() as int)
    };
    let fixed = spec_trailing_fix(h0, !header_present, body_rows(lines, ds, d));
    let h = deduped(named(fixed.0));
    lemma_rows_split(fixed.1, h.len() as int, ds);
}

fn trim_all(fields: &Vec<Vec<char>>) -> (out: Vec<Vec<char>>)
    ensures
        pieces(out@) == trimmed(pieces(fields@)),
{
    let mut out: Vec<Vec<char>> = Vec::new();
    let mut i: usize = 0;
    while i < fields.len()
        invariant
            i <= fields@.len(),
            out@.len() == i,
            forall|k: int| 0 <= k < i ==> (#[trigger] out@[k])@ == trim_ws(fields@[k]@),
        decreases fields@.len() - i,
    {
        out.push(trim(fields[i].as_slice()));
        i += 1;
    }
    assert(pieces(out@) =~= trimmed(pieces(fields@)));
    out
}

fn synth_header(f: usize) -> (out: Vec<Vec<char>>)
    ensures
        pieces(out@) == synthesized_header(f as int),
{
    let mut out: Vec<Vec<char>> = Vec::new();
    let mut i: usize = 0;
    while i < f
        invariant
            i <= f,
            out@.len() == i,
            forall|k: int| 0 <= k < i ==> (#[trigger] out@[k])@ == column_name((k + 1) as nat),
        decreases f - i,
    {
        out.push(make_column_name(i + 1));
        i += 1;
    }
    assert(pieces(out@) =~= synthesized_header(f as int));
    out
}

fn split_body(lines: &Vec<Vec<char>>, ds: usize, d: Delimiter) -> (rows: Vec<Vec<Vec<char>>>)
    requires
        ds <= lines@.len(),
    ensures
        rows_view(rows@) == body_rows(pieces(lines@), ds as int, d),
{
    let mut rows: Vec<Vec<Vec<char>>> = Vec::new();
    let mut i: usize = ds;
    while i < lines.len()
        invariant
            ds <= i <= lines@.len(),
            rows@.len() == i - ds,
            forall|k: int| 0 <= k < rows@.len() ==> pieces((#[trigger] rows@[k])@) == line_fields(lines@[ds + k]@, d),
        decreases lines@.len() - i,
    {
        rows.push(split_fields(lines[i].as_slice(), d));
        i += 1;
    }
    assert(rows_view(rows@) =~= body_rows(pieces(lines@), ds as int, d));
    rows
}

proof fn lemma_split_on_len(s: Seq<char>, sep: char)
    ensures
        split_on(s, sep).len() >= 1,
{
    lemma_split_on_nonempty(s, sep);
}

/// Drops the trailing empty columns.
fn trailing_fix(h0: Vec<Vec<char>>, synth: bool, body: Vec<Vec<Vec<char>>>) -> (r: (Vec<Vec<char>>, Vec<Vec<Vec<char>>>, bool, bool))
    requires
        forall|k: int| 0 <= k < body@.len() ==> (#[trigger] body@[k])@.len() > 0,
        synth ==> h0@.len() == (if body@.len() > 0 { body@[0]@.len() as int } else { 0 }),
        synth ==> h0@.len() > 0,
    ensures
        (pieces(r.0@), rows_view(r.1@), r.2, r.3) == spec_trailing_fix(pieces(h0@), synth, rows_view(body@)),
{
    let ghost hv = pieces(h0@);
    let ghost bv = rows_view(body@);
    let body_len: usize = if body.len() > 0 { body[0].len() } else { 0 };
    assert(body_len as int == (if bv.len() > 0 { bv[0].len() as int } else { 0 })) by {
        if body@.len() > 0 {
            assert(bv[0] == pieces(body@[0]@));
        }
    }
    let mut h = h0;
    let a = !synth && h.len() > 0 && h[h.len() - 1].len() == 0 && h.len() - 1 == body_len;
    assert(a == (!synth && hv.len() > 0 && hv.last().len() == 0 && hv.len() == body_len + 1));
    if a {
        h.pop();
        assert(pieces(h@) =~= hv.drop_last());
    }
    let ghost h1 = pieces(h@);
    let mut all = body.len() > 0;
    let mut k: usize = 0;
    while k < body.len()
        invariant
            k <= body@.len(),
            bv == rows_view(body@),
            forall|j: int| 0 <= j < body@.len() ==> (#[trigger] body@[j])@.len() > 0,
            all == (body@.len() > 0 && forall|j: int| 0 <= j < k ==> (#[trigger] bv[j]).len() > 0 && bv[j].last().len() == 0),
        decreases body@.len() - k,
    {
        let row = &body[k];
        assert(bv[k as int] == pieces(row@));
        if row[row.len() - 1].len() != 0 {
            all = false;
        }
        k += 1;
    }
    let ok = synth || h.len() == body_len || (body_len > 0 && h.len() == body_len - 1);
    let b = all && ok;
    let mut body2 = body;
    if b {
        let ghost before = body2@;
        let mut i: usize = 0;
        while i < body2.len()
            invariant
                i <= body2@.len(),
                body2@.len() == before.len(),
                bv == rows_view(before),
                forall|j: int| 0 <= j < before.len() ==> (#[trigger] before[j])@.len() > 0,
                forall|j: int| 0 <= j < i ==> pieces((#[trigger] body2@[j])@) == bv[j].drop_last(),
                forall|j: int| i <= j < body2@.len() ==> (#[trigger] body2@[j]) == before[j],
            decreases body2@.len() - i,
        {
            let ghost rv = body2@[i as int]@;
            assert(body2@[i as int] == before[i as int]);
            body2[i].pop();
            assert(pieces(body2@[i as int]@) =~= pieces(rv).drop_last());
            assert(bv[i as int] == pieces(rv));
            i += 1;
        }
        assert(rows_view(body2@) =~= Seq::new(bv.len(), |j: int| bv[j].drop_last()));
        if synth || h.len() == body_len {
            let ghost hb = pieces(h@);
            h.pop();
            assert(pieces(h@) =~= hb.drop_last());
        }
    }
    (h, body2, a, b)
}

fn name_columns(h: &Vec<Vec<char>>) -> (out: Vec<Vec<char>>)
    ensures
        pieces(out@) == named(pieces(h@)),
{
    let mut out: Vec<Vec<char>> = Vec::new();
    let mut i: usize = 0;
    while i < h.len()
        invariant
            i <= h@.len(),
            out@.len() == i,
            forall|k: int| 0 <= k < i ==> (#[trigger] out@[k])@ == (if trim_ws(h@[k]@).len() == 0 { column_name((k + 1) as nat) } else { h@[k]@ }),
        decreases h@.len() - i,
    {
        let t = trim(h[i].as_slice());
        if t.len() == 0 {
            out.push(make_column_name(i + 1));
        } else {
            out.push(vstd::slice::slice_to_vec(h[i].as_slice()));
        }
        i += 1;
    }
    assert(pieces(out@) =~= named(pieces(h@)));
    out
}

fn same_text(a: &Vec<char>, b: &Vec<char>) -> (r: bool)
    ensures
        r == (a@ == b@),
{
    if a.len() != b.len() {
        return false;
    }
    let mut i: usize = 0;
    while i < a.len()
        invariant
            a@.len() == b@.len(),
            i <= a@.len(),
            forall|k: int| 0 <= k < i ==> a@[k] == b@[k],
        decreases a@.len() - i,
    {
        if a[i] != b[i] {
            return false;
        }
        i += 1;
    }
    assert(a@ =~= b@);
    true
}

/// Appends the decimal digits of `n`.
fn push_decimal_wide(out: &mut Vec<char>, n: u128)
    ensures
        final(out)@ == old(out)@ + decimal_digits(n as nat),
    decreases n,
{
    if n >= 10 {
        push_decimal_wide(out, n / 10);
    }
    out.push(digit((n % 10) as usize));
    proof {
        assert(out@ =~= old(out)@ + decimal_digits(n as nat));
    }
}

/// `x` with ` (k)` appended.
fn make_suffixed(x: &Vec<char>, k: u128) -> (r: Vec<char>)
    ensures
        r@ == suffixed(x@, k as nat),
{
    let mut r = vstd::slice::slice_to_vec(x.as_slice());
    r.push(' ');
    r.push('(');
    push_decimal_wide(&mut r, k);
    r.push(')');
    assert(r@ =~= suffixed(x@, k as nat));
    r
}

/// Whether `s` is one of the names `v`.
fn holds_name(v: &Vec<Vec<char>>, s: &Vec<char>) -> (r: bool)
    ensures
        r == pieces(v@).contains(s@),
{
    let mut j: usize = 0;
    while j < v.len()
        invariant
            j <= v@.len(),
            forall|t: int| 0 <= t < j ==> v@[t]@ != s@,
        decreases v@.len() - j,
    {
        if same_text(&v[j], s) {
            assert(pieces(v@)[j as int] == s@);
            return true;
        }
        j += 1;
    }
    proof {
        if pieces(v@).contains(s@) {
            let t = choose|t: int| 0 <= t < pieces(v@).len() && pieces(v@)[t] == s@;
            assert(v@[t]@ == s@);
        }
    }
    false
}

/// Numbers repeated names apart: the second `x` becomes `x (2)`, the
/// third `x (3)`, and so on, skipping any number whose name is already
/// taken, so that no two names are left equal.
pub fn dedupe_header(h: &Vec<Vec<char>>) -> (out: Vec<Vec<char>>)
    ensures
        out@.len() == h@.len(),
        pieces(out@) == deduped(pieces(h@)),
{
    let ghost hv = pieces(h@);
    let mut out: Vec<Vec<char>> = Vec::new();
    let mut i: usize = 0;
    while i < h.len()
        invariant
            i <= h@.len(),
            hv == pieces(h@),
            out@.len() == i,
            pieces(out@) == deduped_prefix(hv, i as int),
        decreases h@.len() - i,
    {
        let mut c: usize = 0;
        let mut j: usize = 0;
        let hn = h.len();
        while j <= i
            invariant
                hn == h@.len(),
                i < h@.len(),
                hv == pieces(h@),
                j <= i + 1,
                c <= j,
                c == occurrences(hv, i as int, j as int),
            decreases i + 1 - j,
        {
            assert(hv[j as int] == h@[j as int]@ && hv[i as int] == h@[i as int]@);
            if same_text(&h[j], &h[i]) {
                c += 1;
            }
            j += 1;
        }
        let ghost prev = pieces(out@);
        assert(hv[i as int] == h@[i as int]@);
        let name = if c > 1 {
            let ghost x = hv[i as int];
            let ghost taken = hv + prev;
            proof {
                lemma_free_exists(x, c as nat, taken);
            }
            let ghost kstar = choose|k: nat| c <= k <= c + taken.len() && !taken.contains(#[trigger] suffixed(x, k));
            let mut k: u128 = c as u128;
            let mut cand = make_suffixed(&h[i], k);
            while holds_name(h, &cand) || holds_name(&out, &cand)
                invariant
                    i < h@.len(),
                    c <= i + 1,
                    out@.len() == i,
                    taken.len() == h@.len() + out@.len(),
                    c <= k <= kstar,
                    kstar <= c + taken.len(),
                    !taken.contains(suffixed(x, kstar)),
                    x == h@[i as int]@,
                    taken == pieces(h@) + pieces(out@),
                    cand@ == suffixed(x, k as nat),
                    forall|t: nat| c <= t < k ==> taken.contains(#[trigger] suffixed(x, t)),
                decreases kstar - k,
            {
                proof {
                    if pieces(h@).contains(cand@) {
                        let t = choose|t: int| 0 <= t < pieces(h@).len() && pieces(h@)[t] == cand@;
                        assert(taken[t] == cand@);
                    } else {
                        let t = choose|t: int| 0 <= t < pieces(out@).len() && pieces(out@)[t] == cand@;
                        assert(taken[pieces(h@).len() + t] == cand@);
                    }
                    assert(taken.contains(suffixed(x, k as nat)));
                    assert(k < kstar);
                    assert(kstar <= c + h@.len() + out@.len());
                    assert(h@.len() == h.len() && c <= i + 1 && i < h.len());
                    assert(usize::MAX <= u64::MAX);
                    assert(k + 1 <= u128::MAX);
                }
                k = k + 1;
                cand = make_suffixed(&h[i], k);
            }
            proof {
                assert(!taken.contains(cand@)) by {
                    if taken.contains(cand@) {
                        let t = choose|t: int| 0 <= t < taken.len() && taken[t] == cand@;
                        if t < pieces(h@).len() {
                            assert(pieces(h@)[t] == cand@);
                        } else {
                            assert(pieces(out@)[t - pieces(h@).len()] == cand@);
                        }
                    }
                }
                lemma_free_suffix_is(x, c as nat, taken, taken.len() + 1, k as nat);
            }
            cand
        } else {
            vstd::slice::slice_to_vec(h[i].as_slice())
        };
        assert(name@ == renamed(hv, prev, i as int));
        out.push(name);
        proof {
            assert(pieces(out@) =~= prev.push(name@));
        }
        i += 1;
    }
    proof {
        lemma_deduped_prefix_len(hv, hv.len() as int);
    }
    out
}

/// Keeps the rows with exactly `f` fields; gives them, how many others
/// there were, and the line numbers of the first `MAX_REPORTED_ROWS` of
/// those (the first row being on line `ds`).
fn keep_rows(rows: Vec<Vec<Vec<char>>>, f: usize, ds: usize) -> (r: (Vec<Vec<Vec<char>>>, usize, Vec<usize>))
    requires
        ds + rows@.len() <= usize::MAX,
    ensures
        rows_view(r.0@) == rows_with(rows_view(rows@), f as int),
        r.1 == rows@.len() - r.0@.len(),
        r.2@.map_values(|x: usize| x as int) == ({
            let all = ragged_lines(rows_view(rows@), f as int, ds as int);
            if all.len() > MAX_REPORTED_ROWS { all.take(MAX_REPORTED_ROWS as int) } else { all }
        }),
{
    let ghost rv = rows_view(rows@);
    let n = rows.len();
    let mut kept: Vec<Vec<Vec<char>>> = Vec::new();
    let mut lines_out: Vec<usize> = Vec::new();
    let mut dropped: usize = 0;
    let mut rest = rows;
    let mut k: usize = 0;
    let ghost orig = rest@;
    assert(rv.take(0) =~= seq![]);
    while k < n
        invariant
            n == orig.len(),
            rv == rows_view(orig),
            ds + n <= usize::MAX,
            k <= n,
            rest@.len() == n,
            forall|j: int| k <= j < n ==> (#[trigger] rest@[j]) == orig[j],
            rows_view(kept@) == rows_with(rv.take(k as int), f as int),
            dropped == k - kept@.len(),
            kept@.len() <= k,
            lines_out@.map_values(|x: usize| x as int) == ({
                let all = ragged_lines(rv.take(k as int), f as int, ds as int);
                if all.len() > MAX_REPORTED_ROWS { all.take(MAX_REPORTED_ROWS as int) } else { all }
            }),
            lines_out@.len() <= MAX_REPORTED_ROWS,
        decreases n - k,
    {
        assert(rv.take(k + 1).drop_last() =~= rv.take(k as int));
        assert(rv.take(k + 1).last() == rv[k as int]);
        let mut row: Vec<Vec<char>> = Vec::new();
        std::mem::swap(&mut row, &mut rest[k]);
        assert(row == orig[k as int]);
        assert(rv[k as int] == pieces(row@));
        if row.len() == f {
            let ghost kb = rows_view(kept@);
            kept.push(row);
            assert(rows_view(kept@) =~= kb.push(rv[k as int]));
        } else {
            dropped += 1;
            let ghost lb = lines_out@;
            if lines_out.len() < MAX_REPORTED_ROWS {
                lines_out.push(ds + k + 1);
                assert(lines_out@.map_values(|x: usize| x as int) =~= lb.map_values(|x: usize| x as int).push(ds + k + 1));
            }
        }
        k += 1;
    }
    assert(rv.take(n as int) =~= rv);
    (kept, dropped, lines_out)
}

/// Texts by their characters.
pub open spec fn texts(v: Seq<String>) -> Seq<Seq<char>> {
    v.map_values(|t: String| t@)
}

/// The table laid out: header names, rows of fields, and what was fixed
/// or dropped on the way.
#[derive(Debug, Clone)]
pub struct TableLayout {
    pub header: Vec<String>,
    pub header_synthesized: bool,
    /// A trailing empty column on the header line only was dropped.
    pub header_trailing_dropped: bool,
    /// A trailing empty column on every row was dropped.
    pub body_trailing_dropped: bool,
    /// The fields (untrimmed) of the rows kept.
    pub rows: Vec<Vec<Vec<char>>>,
    pub ragged_rows_dropped: usize,
    /// 1-based line numbers of the first dropped rows.
    pub ragged_row_line_numbers: Vec<usize>,
}

/// Lays out the table whose data starts at line `data_start` (a header,
/// where present, on the line before): header from the header line
/// (fields trimmed) or synthesized as `col1`, `col2`, ... from the first
/// row; trailing empty columns dropped; empty names replaced by position
/// and repeated names numbered; rows without as many fields as there are
/// names dropped.
pub fn lay_out_table(lines: &Vec<Vec<char>>, data_start: usize, d: Delimiter, header_present: bool) -> (t: TableLayout)
    requires
        data_start < lines@.len(),
        header_present ==> data_start >= 1,
    ensures
        ({
            let v = spec_layout(pieces(lines@), data_start as int, d, header_present);
            &&& texts(t.header@) == v.header
            &&& t.header_synthesized == v.synthesized
            &&& t.header_trailing_dropped == v.header_trailing_dropped
            &&& t.body_trailing_dropped == v.body_trailing_dropped
            &&& rows_view(t.rows@) == v.rows
            &&& t.ragged_rows_dropped == v.ragged_dropped
            &&& t.ragged_row_line_numbers@.map_values(|x: usize| x as int) == v.ragged_line_numbers
        }),
{
    let ghost pl = pieces(lines@);
    let h0 = if header_present {
        let fields = split_fields(lines[data_start - 1].as_slice(), d);
        assert(pl[data_start - 1] == lines@[data_start - 1]@);
        trim_all(&fields)
    } else {
        let first = split_fields(lines[data_start].as_slice(), d);
        assert(pl[data_start as int] == lines@[data_start as int]@);
        assert(first@.len() == pieces(first@).len());
        synth_header(first.len())
    };
    let body = split_body(lines, data_start, d);
    proof {
        assert(body@.len() == rows_view(body@).len());
        assert(rows_view(body@).len() == pl.len() - data_start);
        assert(pl.len() == lines@.len());
        assert forall|k: int| 0 <= k < body@.len() implies (#[trigger] body@[k])@.len() > 0 by {
            assert(rows_view(body@)[k] == pieces(body@[k]@));
            assert(pieces(body@[k]@).len() == body@[k]@.len());
            lemma_split_on_len(pl[data_start + k], delimiter_char(d));
        }
        if !header_present {
            assert(rows_view(body@)[0] == pieces(body@[0]@));
            assert(pieces(body@[0]@).len() == body@[0]@.len());
            assert(pieces(h0@).len() == h0@.len());
            lemma_split_on_len(pl[data_start as int], delimiter_char(d));
        }
    }
    let (h1, body1, a, b) = trailing_fix(h0, !header_present, body);
    let h2 = name_columns(&h1);
    let h3 = dedupe_header(&h2);
    let f = h3.len();
    assert(f == pieces(h3@).len());
    let nl = lines.len();
    assert(data_start + body1@.len() <= usize::MAX) by {
        assert(body1@.len() == rows_view(body1@).len());
        assert(rows_view(body1@).len() == pl.len() - data_start);
        assert(pl.len() == nl);
    }
    let (rows, dropped, line_numbers) = keep_rows(body1, f, data_start);
    let mut header: Vec<String> = Vec::new();
    let mut i: usize = 0;
    while i < h3.len()
        invariant
            i <= h3@.len(),
            header@.len() == i,
            forall|k: int| 0 <= k < i ==> (#[trigger] header@[k])@ == h3@[k]@,
        decreases h3@.len() - i,
    {
        header.push(chars_to_string(h3[i].as_slice()));
        i += 1;
    }
    assert(texts(header@) =~= pieces(h3@));
    TableLayout {
        header,
        header_synthesized: !header_present,
        header_trailing_dropped: a,
        body_trailing_dropped: b,
        rows,
        ragged_rows_dropped: dropped,
        ragged_row_line_numbers: line_numbers,
    }
}

/// The delimiters tried: the override alone, else all four.
pub open spec fn candidate_delims(forced: Option<Delimiter>) -> Seq<Delimiter> {
    match forced {
        Some(d) => seq![d],
        None => seq![Delimiter::Tab, Delimiter::Comma, Delimiter::Semicolon, Delimiter::Pipe],
    }
}

/// The decimal separators tried: the override alone, else both.
pub open spec fn candidate_decimals(forced: Option<DecimalSeparator>) -> Seq<DecimalSeparator> {
    match forced {
        Some(e) => seq![e],
        None => seq![DecimalSeparator::Dot, DecimalSeparator::Comma],
    }
}

/// The position of `d` among the delimiters (0 where absent).
pub open spec fn delim_position(s: Seq<Delimiter>, d: Delimiter) -> int
    decreases s.len(),
{
    if s.len() == 0 || s[0] == d {
        0
    } else {
        1 + delim_position(s.drop_first(), d)
    }
}

/// The position of `e` among the decimal separators (0 where absent).
pub open spec fn decimal_position(s: Seq<DecimalSeparator>, e: DecimalSeparator) -> int
    decreases s.len(),
{
    if s.len() == 0 || s[0] == e {
        0
    } else {
        1 + decimal_position(s.drop_first(), e)
    }
}

/// The settings a parse runs with, after the overrides: with a known first
/// data line (`skip_lines`), the delimiter and decimal separator are the
/// overrides when both are given and the lenient pick otherwise, and the
/// header is the override or detected at that line; else the sniffer
/// decides, each override replacing its decision. `None` where no
/// delimiter fits (the error then names the delimiters tried).
pub open spec fn spec_settings(
    lines: Seq<Seq<char>>,
    ov: ParseOverrides,
    table: Seq<Seq<Seq<bool>>>,
    counts: Seq<Seq<Seq<nat>>>,
) -> Option<(Delimiter, DecimalSeparator, int, bool)> {
    let delims = candidate_delims(ov.delimiter);
    let decs = candidate_decimals(ov.decimal_separator);
    match ov.skip_lines {
        Some(skip) => {
            let picked = match (ov.delimiter, ov.decimal_separator) {
                (Some(d), Some(e)) => Some((d, e)),
                _ => spec_pick_lenient(lines, skip as int, delims, decs, counts),
            };
            match picked {
                None => None,
                Some((d, e)) => {
                    let numeric = table[delim_position(delims, d)][decimal_position(decs, e)][skip as int];
                    let hp = match ov.header_present {
                        Some(h) => h,
                        None => spec_header_present_at(lines, skip as int, d, numeric),
                    };
                    Some((d, e, skip as int, hp))
                },
            }
        },
        None => match spec_sniff(lines, delims, decs, table) {
            None => None,
            Some((d, e, pre, hp)) => Some((
                match ov.delimiter { Some(x) => x, None => d },
                match ov.decimal_separator { Some(x) => x, None => e },
                pre,
                match ov.header_present { Some(x) => x, None => hp },
            )),
        },
    }
}

/// The candidate delimiters: the forced one, or all of them.
pub fn delims_for(forced: Option<Delimiter>) -> (v: Vec<Delimiter>)
    ensures
        v@ == candidate_delims(forced),
{
    match forced {
        Some(d) => {
            let mut v = Vec::new();
            v.push(d);
            assert(v@ =~= seq![d]);
            v
        },
        None => Delimiter::candidates(),
    }
}

/// The candidate decimal separators: the forced one, or both.
pub fn decimals_for(forced: Option<DecimalSeparator>) -> (v: Vec<DecimalSeparator>)
    ensures
        v@ == candidate_decimals(forced),
{
    match forced {
        Some(e) => {
            let mut v = Vec::new();
            v.push(e);
            assert(v@ =~= seq![e]);
            v
        },
        None => DecimalSeparator::candidates(),
    }
}

fn find_delim(s: &Vec<Delimiter>, d: Delimiter) -> (i: usize)
    ensures
        i as int == delim_position(s@, d),
        s@.contains(d) ==> i < s@.len(),
{
    let mut i: usize = 0;
    assert(s@.skip(0) =~= s@);
    while i < s.len() && s[i] != d
        invariant
            i <= s@.len(),
            delim_position(s@, d) == i + delim_position(s@.skip(i as int), d),
            forall|k: int| 0 <= k < i ==> s@[k] != d,
        decreases s@.len() - i,
    {
        assert(s@.skip(i as int).drop_first() =~= s@.skip(i + 1));
        i += 1;
    }
    i
}

fn find_decimal(s: &Vec<DecimalSeparator>, e: DecimalSeparator) -> (i: usize)
    ensures
        i as int == decimal_position(s@, e),
        s@.contains(e) ==> i < s@.len(),
{
    let mut i: usize = 0;
    assert(s@.skip(0) =~= s@);
    while i < s.len() && s[i] != e
        invariant
            i <= s@.len(),
            decimal_position(s@, e) == i + decimal_position(s@.skip(i as int), e),
            forall|k: int| 0 <= k < i ==> s@[k] != e,
        decreases s@.len() - i,
    {
        assert(s@.skip(i as int).drop_first() =~= s@.skip(i + 1));
        i += 1;
    }
    i
}

/// How many lines the tables must cover: the sniffer's sample, and the
/// known first data line where one is given.
pub open spec fn table_cover(n: int, skip: Option<usize>) -> int {
    match skip {
        Some(k) if k < n && k + 1 > sample_len(n) => k + 1,
        _ => sample_len(n),
    }
}

/// Settles the delimiter, decimal separator, preamble length and header
/// presence of a parse. `numeric` and `numeric_counts` are the
/// classification tables (see the module's documentation) for the
/// candidate delimiters and decimal separators the overrides leave.
pub fn resolve_settings(
    lines: &Vec<Vec<char>>,
    ov: &ParseOverrides,
    numeric: &Vec<Vec<Vec<bool>>>,
    numeric_counts: &Vec<Vec<Vec<usize>>>,
) -> (r: Result<Sniff, ParseError>)
    requires
        numeric@.len() == candidate_delims(ov.delimiter).len(),
        forall|di: int| 0 <= di < numeric@.len() ==> (#[trigger] numeric@[di])@.len() == candidate_decimals(ov.decimal_separator).len(),
        forall|di: int, ei: int| 0 <= di < numeric@.len() && 0 <= ei < candidate_decimals(ov.decimal_separator).len() ==>
            table_cover(lines@.len() as int, ov.skip_lines) <= (#[trigger] numeric@[di]@[ei])@.len(),
        numeric_counts@.len() == candidate_delims(ov.delimiter).len(),
        forall|di: int| 0 <= di < numeric_counts@.len() ==> (#[trigger] numeric_counts@[di])@.len() == candidate_decimals(ov.decimal_separator).len(),
        forall|di: int, ei: int| 0 <= di < numeric_counts@.len() && 0 <= ei < candidate_decimals(ov.decimal_separator).len() ==> ({
            let s = lenient_sample(lines@.len() as int, match ov.skip_lines { Some(k) => k as int, None => 0 });
            s.0 + s.1 <= (#[trigger] numeric_counts@[di]@[ei])@.len()
        }),
    ensures
        match (r, spec_settings(pieces(lines@), *ov, table_view(numeric@), counts_view(numeric_counts@))) {
            (Ok(s), Some((d, e, pre, hp))) => s.delimiter == d && s.decimal_separator == e
                && s.preamble_lines == pre && s.header_present == hp,
            (Err(ParseError::NoDataBlockFound { delimiters_tried }), None) => delimiters_tried@ == candidate_delims(ov.delimiter),
            _ => false,
        },
{
    let delims = delims_for(ov.delimiter);
    let decs = decimals_for(ov.decimal_separator);
    match ov.skip_lines {
        Some(skip) => {
            let (d, e) = match (ov.delimiter, ov.decimal_separator) {
                (Some(d), Some(e)) => (d, e),
                _ => pick_delimiter_lenient(lines, skip, &delims, &decs, numeric_counts)?,
            };
            let header_present = match ov.header_present {
                Some(h) => h,
                None => {
                    let di = find_delim(&delims, d);
                    let ei = find_decimal(&decs, e);
                    proof {
                        let pl = pieces(lines@);
                        if ov.delimiter is Some && ov.decimal_separator is Some {
                            assert(delims@[0] == d && decs@[0] == e);
                        } else {
                            let lp = lenient_over_delims(None, pl, delims@, 0, decs@, counts_view(numeric_counts@),
                                lenient_sample(pl.len() as int, skip as int).0, lenient_sample(pl.len() as int, skip as int).1);
                            lemma_lenient_range(None, pl, delims@, 0, decs@, counts_view(numeric_counts@),
                                lenient_sample(pl.len() as int, skip as int).0, lenient_sample(pl.len() as int, skip as int).1);
                            let b = lp->Some_0;
                            assert(delims@[b.2] == d && decs@[b.3] == e);
                        }
                        assert(delims@.contains(d));
                        assert(decs@.contains(e));
                    }
                    let numeric_here = if skip < lines.len() { numeric[di][ei][skip] } else { false };
                    header_present_at(lines, skip, d, numeric_here)
                },
            };
            Ok(Sniff { delimiter: d, decimal_separator: e, preamble_lines: skip, header_present })
        },
        None => {
            let sniff = sniff_constrained(lines, &delims, &decs, numeric)?;
            Ok(Sniff {
                delimiter: match ov.delimiter { Some(x) => x, None => sniff.delimiter },
                decimal_separator: match ov.decimal_separator { Some(x) => x, None => sniff.decimal_separator },
                preamble_lines: sniff.preamble_lines,
                header_present: match ov.header_present { Some(x) => x, None => sniff.header_present },
            })
        },
    }
}

proof fn lemma_lenient_decimals(
    best: Option<LenientPick>,
    lines: Seq<Seq<char>>,
    d: Delimiter,
    di: int,
    decs: Seq<DecimalSeparator>,
    ei: int,
    f: int,
    table: Seq<Seq<nat>>,
    lo: int,
    len: int,
)
    requires
        0 <= ei,
    ensures
        ({
            let r = lenient_over_decimals(best, lines, d, di, decs, ei, f, table, lo, len);
            r == best || (r matches Some(b) && b.2 == di && ei <= b.3 < decs.len())
        }),
    decreases decs.len() - ei,
{
    if ei < decs.len() {
        let t = lenient_tally(lines, d, f, table[ei], lo, len);
        let next = if d == Delimiter::Comma && decs[ei] == DecimalSeparator::Comma {
            best
        } else if t.0 == 0 {
            best
        } else {
            match best {
                None => Some((t.1, t.0, di, ei)),
                Some(b) => if t.1 * b.1 > b.0 * t.0 {
                    Some((t.1, t.0, di, ei))
                } else {
                    best
                },
            }
        };
        lemma_lenient_decimals(next, lines, d, di, decs, ei + 1, f, table, lo, len);
    }
}

proof fn lemma_lenient_range(
    best: Option<LenientPick>,
    lines: Seq<Seq<char>>,
    delims: Seq<Delimiter>,
    di: int,
    decs: Seq<DecimalSeparator>,
    table: Seq<Seq<Seq<nat>>>,
    lo: int,
    len: int,
)
    requires
        0 <= di,
    ensures
        ({
            let r = lenient_over_delims(best, lines, delims, di, decs, table, lo, len);
            r == best || (r matches Some(b) && di <= b.2 < delims.len() && 0 <= b.3 < decs.len())
        }),
    decreases delims.len() - di,
{
    if di < delims.len() {
        let d = delims[di];
        let next = if len == 0 {
            best
        } else {
            lenient_over_decimals(best, lines, d, di, decs, 0, line_fields(lines[lo], d).len() as int, table[di], lo, len)
        };
        if len != 0 {
            lemma_lenient_decimals(best, lines, d, di, decs, 0, line_fields(lines[lo], d).len() as int, table[di], lo, len);
        }
        lemma_lenient_range(next, lines, delims, di + 1, decs, table, lo, len);
    }
}

/// `s` equals the ASCII token whose lower- and upper-case spellings are
/// `lower` and `upper`, ignoring ASCII case.
pub open spec fn token_ci(s: Seq<char>, lower: Seq<char>, upper: Seq<char>) -> bool {
    s.len() == lower.len() && forall|i: int| 0 <= i < s.len() ==> s[i] == lower[i] || s[i] == upper[i]
}

/// A missing-value token: `na`, `nan`, `inf`, `-inf`, `null` or `-`, in
/// any ASCII case.
pub open spec fn is_missing_token(s: Seq<char>) -> bool {
    ||| token_ci(s, seq!['n', 'a'], seq!['N', 'A'])
    ||| token_ci(s, seq!['n', 'a', 'n'], seq!['N', 'A', 'N'])
    ||| token_ci(s, seq!['i', 'n', 'f'], seq!['I', 'N', 'F'])
    ||| token_ci(s, seq!['-', 'i', 'n', 'f'], seq!['-', 'I', 'N', 'F'])
    ||| token_ci(s, seq!['n', 'u', 'l', 'l'], seq!['N', 'U', 'L', 'L'])
    ||| s == seq!['-']
}

fn token_matches(s: &Vec<char>, lower: &[char], upper: &[char]) -> (r: bool)
    requires
        lower@.len() == upper@.len(),
    ensures
        r == token_ci(s@, lower@, upper@),
{
    if s.len() != lower.len() {
        return false;
    }
    let mut i: usize = 0;
    while i < s.len()
        invariant
            s@.len() == lower@.len() == upper@.len(),
            i <= s@.len(),
            forall|k: int| 0 <= k < i ==> s@[k] == lower@[k] || s@[k] == upper@[k],
        decreases s@.len() - i,
    {
        if s[i] != lower[i] && s[i] != upper[i] {
            return false;
        }
        i += 1;
    }
    true
}

fn missing_token(s: &Vec<char>) -> (r: bool)
    ensures
        r == is_missing_token(s@),
{
    let r = token_matches(s, &['n', 'a'], &['N', 'A'])
        || token_matches(s, &['n', 'a', 'n'], &['N', 'A', 'N'])
        || token_matches(s, &['i', 'n', 'f'], &['I', 'N', 'F'])
        || token_matches(s, &['-', 'i', 'n', 'f'], &['-', 'I', 'N', 'F'])
        || token_matches(s, &['n', 'u', 'l', 'l'], &['N', 'U', 'L', 'L'])
        || (s.len() == 1 && s[0] == '-');
    proof {
        if s@.len() == 1 && s@[0] == '-' {
            assert(s@ =~= seq!['-']);
        }
    }
    r
}

/// `s` with its first comma (if any) turned into a dot.
pub open spec fn first_comma_to_dot(s: Seq<char>) -> Seq<char>
    decreases s.len(),
{
    if s.len() == 0 {
        s
    } else if s[0] == ',' {
        seq!['.'] + s.drop_first()
    } else {
        seq![s[0]] + first_comma_to_dot(s.drop_first())
    }
}

/// Characters a unit label may be made of.
pub open spec fn is_unit_char(c: char) -> bool {
    ('a' <= c && c <= 'z') || ('A' <= c && c <= 'Z') || c == '%' || c == '\u{b0}' || c == '\u{b5}' || c == '\u{3a9}'
}

/// Where a trailing run of unit characters in the first `n` characters starts.
pub open spec fn unit_start(s: Seq<char>, n: int) -> int
    decreases n,
{
    if n <= 0 {
        0
    } else if is_unit_char(s[n - 1]) {
        unit_start(s, n - 1)
    } else {
        n
    }
}

/// The number a cell holds before a short unit label (`12.5 sec`): the
/// text before a trailing run of 1 to 8 unit characters, without trailing
/// white space; none where there is no such run or nothing before it.
pub open spec fn unit_prefix(t: Seq<char>) -> Option<Seq<char>> {
    let u = trim_end_ws(t);
    let n = u.len() as int;
    let split = unit_start(u, n);
    if split == n || split == 0 || n - split > 8 {
        None
    } else {
        Some(trim_end_ws(u.take(split)))
    }
}

/// A trailing run of unit characters from `k` up to `m`, after a character
/// that is not one, starts at `k`.
proof fn lemma_unit_start_at(s: Seq<char>, k: int, m: int)
    requires
        0 < k <= m <= s.len(),
        !is_unit_char(s[k - 1]),
        forall|j: int| k <= j < m ==> is_unit_char(#[trigger] s[j]),
    ensures
        unit_start(s, m) == k,
    decreases m,
{
    if m > k {
        lemma_unit_start_at(s, k, m - 1);
    }
}

/// Trailing white space after text that does not end in it is trimmed off.
proof fn lemma_trim_end_after(num: Seq<char>, ws: Seq<char>)
    requires
        num.len() > 0,
        !is_white_space(num.last()),
        forall|i: int| 0 <= i < ws.len() ==> is_white_space(#[trigger] ws[i]),
    ensures
        trim_end_ws(num + ws) == num,
    decreases ws.len(),
{
    if ws.len() == 0 {
        assert(num + ws =~= num);
    } else {
        assert((num + ws).drop_last() =~= num + ws.drop_last());
        lemma_trim_end_after(num, ws.drop_last());
    }
}

/// A cell holding a number (from its first digit to its last), optional
/// white space and a unit label of 1 to 8 characters, each an ASCII letter,
/// '%', '°', 'µ' or 'Ω', is a candidate whose unit prefix is that number.
pub proof fn lemma_number_before_unit(num: Seq<char>, ws: Seq<char>, label: Seq<char>)
    requires
        num.len() >= 1,
        '0' <= num[0] <= '9',
        '0' <= num.last() <= '9',
        forall|i: int| 0 <= i < ws.len() ==> is_white_space(#[trigger] ws[i]),
        1 <= label.len() <= 8,
        forall|i: int| 0 <= i < label.len() ==> {
            let c = #[trigger] label[i];
            ('a' <= c <= 'z') || ('A' <= c <= 'Z') || c == '%' || c == '\u{b0}' || c == '\u{b5}' || c == '\u{3a9}'
        },
    ensures
        unit_prefix(num + ws + label) == Some(num),
        spec_prepare_cell(num + ws + label, DecimalSeparator::Dot) == Some((num + ws + label, Some(num))),
{
    let t = num + ws + label;
    let k = (num.len() + ws.len()) as int;
    assert(t.last() == label.last());
    assert(!is_white_space(t.last()));
    assert(trim_end_ws(t) == t);
    assert(t[0] == num[0]);
    assert(trim_start_ws(t) == t);
    assert(trim_ws(t) == t);
    assert forall|j: int| k <= j < t.len() implies is_unit_char(#[trigger] t[j]) by {
        assert(t[j] == label[j - k]);
    }
    if ws.len() > 0 {
        assert(t[k - 1] == ws.last());
        assert(is_white_space(ws[ws.len() - 1]));
    } else {
        assert(t[k - 1] == num.last());
    }
    lemma_unit_start_at(t, k, t.len() as int);
    assert(t.take(k) =~= num + ws);
    lemma_trim_end_after(num, ws);
    assert(!is_missing_token(t)) by {
        assert(t.len() >= 2);
        if token_ci(t, seq!['n', 'a'], seq!['N', 'A']) { assert(t[0] == 'n' || t[0] == 'N'); }
        if token_ci(t, seq!['n', 'a', 'n'], seq!['N', 'A', 'N']) { assert(t[0] == 'n' || t[0] == 'N'); }
        if token_ci(t, seq!['i', 'n', 'f'], seq!['I', 'N', 'F']) { assert(t[0] == 'i' || t[0] == 'I'); }
        if token_ci(t, seq!['-', 'i', 'n', 'f'], seq!['-', 'I', 'N', 'F']) { assert(t[0] == '-'); }
        if token_ci(t, seq!['n', 'u', 'l', 'l'], seq!['N', 'U', 'L', 'L']) { assert(t[0] == 'n' || t[0] == 'N'); }
    }
}

/// A cell prepared for reading as a number: a missing value (empty or a
/// missing-value token), or the text to read and, failing that, the text
/// before a unit label.
pub enum PreparedCell {
    Missing,
    Candidate { text: Vec<char>, unit_prefix: Option<Vec<char>> },
}

/// What a field prepares to, by its text.
pub open spec fn spec_prepare_cell(field: Seq<char>, decimal: DecimalSeparator) -> Option<(Seq<char>, Option<Seq<char>>)> {
    let t = trim_ws(field);
    if t.len() == 0 || is_missing_token(t) {
        None
    } else {
        let text = match decimal {
            DecimalSeparator::Dot => t,
            DecimalSeparator::Comma => first_comma_to_dot(t),
        };
        Some((text, unit_prefix(text)))
    }
}

fn comma_to_dot(t: &Vec<char>) -> (out: Vec<char>)
    ensures
        out@ == first_comma_to_dot(t@),
{
    let mut out: Vec<char> = Vec::new();
    let mut i: usize = 0;
    let mut done = false;
    assert(t@.skip(0) =~= t@);
    while i < t.len()
        invariant
            i <= t@.len(),
            done ==> out@ + t@.skip(i as int) == first_comma_to_dot(t@),
            !done ==> out@ + first_comma_to_dot(t@.skip(i as int)) == first_comma_to_dot(t@),
        decreases t@.len() - i,
    {
        let ghost rest = t@.skip(i as int);
        assert(rest.drop_first() =~= t@.skip(i + 1));
        if !done && t[i] == ',' {
            out.push('.');
            done = true;
            assert(out@ + t@.skip(i + 1) =~= out@.drop_last() + (seq!['.'] + rest.drop_first()));
        } else {
            out.push(t[i]);
            if done {
                assert(out@ + t@.skip(i + 1) =~= out@.drop_last() + rest);
            } else {
                assert(out@ + first_comma_to_dot(t@.skip(i + 1)) =~= out@.drop_last() + (seq![rest[0]] + first_comma_to_dot(rest.drop_first())));
            }
        }
        i += 1;
    }
    assert(t@.skip(i as int) =~= seq![]);
    assert(out@ + seq![] =~= out@);
    out
}

fn unit_char(c: char) -> (r: bool)
    ensures
        r == is_unit_char(c),
{
    ('a' <= c && c <= 'z') || ('A' <= c && c <= 'Z') || c == '%' || c == '\u{b0}' || c == '\u{b5}' || c == '\u{3a9}'
}

fn trim_end(s: &[char]) -> (t: Vec<char>)
    ensures
        t@ == trim_end_ws(s@),
{
    let mut hi: usize = s.len();
    assert(s@.subrange(0, hi as int) =~= s@);
    while hi > 0 && white_space(s[hi - 1])
        invariant
            hi <= s@.len(),
            trim_end_ws(s@) == trim_end_ws(s@.subrange(0, hi as int)),
        decreases hi,
    {
        assert(s@.subrange(0, hi as int).drop_last() =~= s@.subrange(0, hi - 1));
        hi -= 1;
    }
    assert(trim_end_ws(s@.subrange(0, hi as int)) == s@.subrange(0, hi as int));
    vstd::slice::slice_to_vec(slice_subrange(s, 0, hi))
}

fn number_before_unit(text: &Vec<char>) -> (r: Option<Vec<char>>)
    ensures
        match (r, unit_prefix(text@)) {
            (Some(a), Some(b)) => a@ == b,
            (None, None) => true,
            _ => false,
        },
{
    let u = trim_end(text.as_slice());
    let n = u.len();
    let mut split = n;
    while split > 0 && unit_char(u[split - 1])
        invariant
            split <= n == u@.len(),
            unit_start(u@, n as int) == unit_start(u@, split as int),
        decreases split,
    {
        split -= 1;
    }
    if split == n || split == 0 || n - split > 8 {
        None
    } else {
        let head = slice_subrange(u.as_slice(), 0, split);
        assert(head@ =~= u@.take(split as int));
        Some(trim_end(head))
    }
}

/// Prepares a field for reading as a number: trimmed; a missing value when
/// empty or a missing-value token; else its text (first comma made a dot
/// under a decimal comma) and the text before a unit label, if any.
pub fn prepare_cell(field: &[char], decimal: DecimalSeparator) -> (r: PreparedCell)
    ensures
        match (r, spec_prepare_cell(field@, decimal)) {
            (PreparedCell::Missing, None) => true,
            (PreparedCell::Candidate { text, unit_prefix: p }, Some((t, q))) => text@ == t && match (p, q) {
                (Some(a), Some(b)) => a@ == b,
                (None, None) => true,
                _ => false,
            },
            _ => false,
        },
{
    let t = trim(field);
    if t.len() == 0 || missing_token(&t) {
        return PreparedCell::Missing;
    }
    let text = match decimal {
        DecimalSeparator::Dot => t,
        DecimalSeparator::Comma => comma_to_dot(&t),
    };
    let unit_prefix = number_before_unit(&text);
    PreparedCell::Candidate { text, unit_prefix }
}

/// How a cell reads: a number, a missing value, or neither.
#[derive(Debug, Clone, Copy, PartialEq, Eq, Structural)]
pub enum CellKind {
    Number,
    Missing,
    Invalid,
}

/// How many of the first `k` rows hold a cell of kind `kind` in column `c`.
pub open spec fn kind_count(kinds: Seq<Seq<CellKind>>, c: int, kind: CellKind, k: int) -> nat
    decreases k,
{
    if k <= 0 {
        0
    } else {
        kind_count(kinds, c, kind, k - 1) + if kinds[k - 1][c] == kind { 1nat } else { 0nat }
    }
}

/// The first rows of the first `k` with an unreadable cell in column `c`.
pub open spec fn invalid_rows(kinds: Seq<Seq<CellKind>>, c: int, k: int) -> Seq<int>
    decreases k,
{
    if k <= 0 {
        seq![]
    } else if kinds[k - 1][c] == CellKind::Invalid {
        invalid_rows(kinds, c, k - 1).push(k - 1)
    } else {
        invalid_rows(kinds, c, k - 1)
    }
}

/// A column is numeric where at least half its non-missing cells are
/// numbers (or it has none).
pub open spec fn column_is_numeric(kinds: Seq<Seq<CellKind>>, c: int) -> bool {
    let numbers = kind_count(kinds, c, CellKind::Number, kinds.len() as int);
    let invalid = kind_count(kinds, c, CellKind::Invalid, kinds.len() as int);
    numbers + invalid == 0 || numbers * 2 >= numbers + invalid
}

/// The kinds table by its rows.
pub open spec fn kinds_view(v: Seq<Vec<CellKind>>) -> Seq<Seq<CellKind>> {
    v.map_values(|r: Vec<CellKind>| r@)
}

/// Per column of a parsed body: whether it is numeric, how many cells could
/// not be read, and the first `MAX_REPORTED_ROWS` rows of those.
pub struct ColumnKinds {
    pub is_numeric: Vec<bool>,
    pub invalid_counts: Vec<usize>,
    pub first_invalid_rows: Vec<Vec<usize>>,
}

/// Column `j` of `n` rows classified: numeric or not, its invalid count
/// and the first rows of its invalid cells.
pub open spec fn column_classified(kv: Seq<Seq<CellKind>>, n: int, j: int, num: bool, inv: usize, rows: Seq<usize>) -> bool {
    let all = invalid_rows(kv, j, n);
    &&& num == column_is_numeric(kv, j)
    &&& inv == kind_count(kv, j, CellKind::Invalid, n)
    &&& crate::segment::as_ints(rows) == (if all.len() > MAX_REPORTED_ROWS { all.take(MAX_REPORTED_ROWS as int) } else { all })
}

/// Classifies the columns of a body of `n_cols` columns from the kinds of
/// its cells (`kinds[row][column]`).
#[verifier::spinoff_prover]
pub fn classify_columns(kinds: &Vec<Vec<CellKind>>, n_cols: usize) -> (r: ColumnKinds)
    requires
        forall|k: int| 0 <= k < kinds@.len() ==> (#[trigger] kinds@[k])@.len() == n_cols,
    ensures
        r.is_numeric@.len() == n_cols && r.invalid_counts@.len() == n_cols && r.first_invalid_rows@.len() == n_cols,
        forall|c: int| 0 <= c < n_cols ==> {
            let all = invalid_rows(kinds_view(kinds@), c, kinds@.len() as int);
            &&& #[trigger] r.is_numeric@[c] == column_is_numeric(kinds_view(kinds@), c)
            &&& r.invalid_counts@[c] == kind_count(kinds_view(kinds@), c, CellKind::Invalid, kinds@.len() as int)
            &&& crate::segment::as_ints(r.first_invalid_rows@[c]@)
                == (if all.len() > MAX_REPORTED_ROWS { all.take(MAX_REPORTED_ROWS as int) } else { all })
        },
{
    let ghost kv = kinds_view(kinds@);
    let n = kinds.len();
    let mut is_numeric: Vec<bool> = Vec::new();
    let mut invalid_counts: Vec<usize> = Vec::new();
    let mut first_invalid_rows: Vec<Vec<usize>> = Vec::new();
    let mut c: usize = 0;
    while c < n_cols
        invariant
            n == kinds@.len(),
            kv == kinds_view(kinds@),
            forall|k: int| 0 <= k < kinds@.len() ==> (#[trigger] kinds@[k])@.len() == n_cols,
            c <= n_cols,
            is_numeric@.len() == c && invalid_counts@.len() == c && first_invalid_rows@.len() == c,
            forall|j: int| 0 <= j < c ==> column_classified(kv, n as int, j, #[trigger] is_numeric@[j], invalid_counts@[j], first_invalid_rows@[j]@),
        decreases n_cols - c,
    {
        let mut numbers: usize = 0;
        let mut invalid: usize = 0;
        let mut rows: Vec<usize> = Vec::new();
        let mut k: usize = 0;
        while k < n
            invariant
                n == kinds@.len(),
                kv == kinds_view(kinds@),
                forall|q: int| 0 <= q < kinds@.len() ==> (#[trigger] kinds@[q])@.len() == n_cols,
                c < n_cols,
                k <= n,
                numbers + invalid <= k,
                numbers == kind_count(kv, c as int, CellKind::Number, k as int),
                invalid == kind_count(kv, c as int, CellKind::Invalid, k as int),
                rows@.len() <= MAX_REPORTED_ROWS,
                crate::segment::as_ints(rows@) == ({
                    let all = invalid_rows(kv, c as int, k as int);
                    if all.len() > MAX_REPORTED_ROWS { all.take(MAX_REPORTED_ROWS as int) } else { all }
                }),
            decreases n - k,
        {
            assert(kv[k as int] == kinds@[k as int]@);
            let kind = kinds[k][c];
            if kind == CellKind::Number {
                numbers += 1;
            } else if kind == CellKind::Invalid {
                invalid += 1;
                let ghost before = rows@;
                if rows.len() < MAX_REPORTED_ROWS {
                    rows.push(k);
                    assert(crate::segment::as_ints(rows@) =~= crate::segment::as_ints(before).push(k as int));
                }
            }
            k += 1;
        }
        let denom = numbers + invalid;
        let ghost old_num = is_numeric@;
        let ghost old_inv = invalid_counts@;
        let ghost old_rows = first_invalid_rows@;
        let ghost rv = rows@;
        is_numeric.push(denom == 0 || numbers >= invalid);
        invalid_counts.push(invalid);
        first_invalid_rows.push(rows);
        proof {
            assert forall|j: int| 0 <= j < c + 1 implies column_classified(kv, n as int, j, #[trigger] is_numeric@[j], invalid_counts@[j], first_invalid_rows@[j]@) by {
                if j < c {
                    assert(is_numeric@[j] == old_num[j]);
                    assert(invalid_counts@[j] == old_inv[j]);
                    assert(first_invalid_rows@[j] == old_rows[j]);
                } else {
                    assert(first_invalid_rows@[j]@ == rv);
                }
            }
        }
        c += 1;
    }
    let r = ColumnKinds { is_numeric, invalid_counts, first_invalid_rows };
    proof {
        assert forall|j: int| 0 <= j < n_cols implies {
            let all = invalid_rows(kinds_view(kinds@), j, kinds@.len() as int);
            &&& #[trigger] r.is_numeric@[j] == column_is_numeric(kinds_view(kinds@), j)
            &&& r.invalid_counts@[j] == kind_count(kinds_view(kinds@), j, CellKind::Invalid, kinds@.len() as int)
            &&& crate::segment::as_ints(r.first_invalid_rows@[j]@)
                == (if all.len() > MAX_REPORTED_ROWS { all.take(MAX_REPORTED_ROWS as int) } else { all })
        } by {
            assert(column_classified(kv, n as int, j, r.is_numeric@[j], r.invalid_counts@[j], r.first_invalid_rows@[j]@));
        }
    }
    r
}

/// How a delimiter is named in messages.
pub open spec fn delimiter_name(d: Delimiter) -> Seq<char> {
    match d {
        Delimiter::Tab => "Tab"@,
        Delimiter::Comma => "Comma"@,
        Delimiter::Semicolon => "Semicolon"@,
        Delimiter::Pipe => "Pipe"@,
    }
}

/// The delimiters' names separated by `", "`.
pub open spec fn delimiter_names(ds: Seq<Delimiter>) -> Seq<char>
    decreases ds.len(),
{
    if ds.len() == 0 {
        seq![]
    } else if ds.len() == 1 {
        delimiter_name(ds[0])
    } else {
        delimiter_names(ds.drop_last()) + ", "@ + delimiter_name(ds.last())
    }
}

/// The message a parse error is shown with.
pub open spec fn error_message(e: ParseError) -> Seq<char> {
    match e {
        ParseError::EmptyFile => "File is empty."@,
        ParseError::FileTooLarge { bytes, limit } => "File is "@ + decimal_digits(bytes as nat) + " bytes, exceeding the "@
            + decimal_digits(limit as nat) + " byte limit."@,
        ParseError::NoDataBlockFound { delimiters_tried } => "Could not locate a delimited data block. Tried delimiters: ["@
            + delimiter_names(delimiters_tried@) + "]."@,
        ParseError::NoDataRows => "No data rows remain after the header/preamble boundary currently in effect."@,
    }
}

/// Appends the characters of `s`.
fn push_str(out: &mut Vec<char>, s: &str)
    ensures
        final(out)@ == old(out)@ + s@,
{
    let len = s.unicode_len();
    let mut j: usize = 0;
    while j < len
        invariant
            len == s@.len(),
            j <= len,
            out@ == old(out)@ + s@.take(j as int),
        decreases len - j,
    {
        out.push(s.get_char(j));
        j += 1;
        assert(out@ =~= old(out)@ + s@.take(j as int));
    }
    assert(s@.take(len as int) =~= s@);
}

impl Delimiter {
    /// How the delimiter is named in messages.
    pub fn name(self) -> (s: &'static str)
        ensures
            s@ == delimiter_name(self),
    {
        match self {
            Delimiter::Tab => "Tab",
            Delimiter::Comma => "Comma",
            Delimiter::Semicolon => "Semicolon",
            Delimiter::Pipe => "Pipe",
        }
    }
}

impl ParseError {
    /// The message the error is shown with.
    pub fn message(&self) -> (s: String)
        ensures
            s@ == error_message(*self),
    {
        let mut out: Vec<char> = Vec::new();
        match self {
            ParseError::EmptyFile => push_str(&mut out, "File is empty."),
            ParseError::FileTooLarge { bytes, limit } => {
                push_str(&mut out, "File is ");
                push_decimal(&mut out, *bytes);
                push_str(&mut out, " bytes, exceeding the ");
                push_decimal(&mut out, *limit);
                push_str(&mut out, " byte limit.");
            },
            ParseError::NoDataBlockFound { delimiters_tried } => {
                push_str(&mut out, "Could not locate a delimited data block. Tried delimiters: [");
                let ghost start = out@;
                let mut k: usize = 0;
                while k < delimiters_tried.len()
                    invariant
                        k <= delimiters_tried@.len(),
                        out@ == start + delimiter_names(delimiters_tried@.take(k as int)),
                    decreases delimiters_tried@.len() - k,
                {
                    let ghost before = delimiters_tried@.take(k as int);
                    if k > 0 {
                        push_str(&mut out, ", ");
                    }
                    push_str(&mut out, delimiters_tried[k].name());
                    k += 1;
                    proof {
                        let now = delimiters_tried@.take(k as int);
                        assert(now.drop_last() =~= before);
                        assert(now.last() == delimiters_tried@[k - 1]);
                        if k == 1 {
                            assert(delimiter_names(now) == delimiter_name(now[0]));
                            assert(delimiter_names(before) =~= seq![]);
                        }
                        assert(out@ =~= start + delimiter_names(now));
                    }
                }
                assert(delimiters_tried@.take(delimiters_tried@.len() as int) =~= delimiters_tried@);
                push_str(&mut out, "].");
            },
            ParseError::NoDataRows => push_str(
                &mut out,
                "No data rows remain after the header/preamble boundary currently in effect.",
            ),
        }
        let s = chars_to_string(&out);
        proof {
            assert(out@ =~= error_message(*self));
        }
        s
    }
}

/// The lines of a file's text: its bytes decoded (as `spec_decode` says),
/// line endings normalized to LF, split at LF, trailing empty lines dropped.
pub open spec fn file_lines(bytes: Seq<u8>, forced: Option<Encoding>) -> Seq<Seq<char>> {
    text_lines(normalized_line_endings(spec_decode(bytes, forced).0))
}

/// Reads a file's bytes into lines: refused when empty or above
/// `MAX_FILE_BYTES`, and as empty when no line is left once decoded.
pub fn read_lines(bytes: &[u8], forced: Option<Encoding>) -> (r: Result<(Vec<Vec<char>>, Encoding), ParseError>)
    ensures
        bytes@.len() == 0 ==> (r matches Err(ParseError::EmptyFile)),
        bytes@.len() > MAX_FILE_BYTES ==> (r matches Err(ParseError::FileTooLarge { bytes: b, limit: l })
            && b == bytes@.len() && l == MAX_FILE_BYTES),
        0 < bytes@.len() <= MAX_FILE_BYTES ==> match r {
            Ok((lines, e)) => pieces(lines@) == file_lines(bytes@, forced) && lines@.len() > 0
                && e == spec_decode(bytes@, forced).1,
            Err(err) => err == ParseError::EmptyFile && file_lines(bytes@, forced).len() == 0,
        },
{
    check_size(bytes.len())?;
    let (decoded, encoding) = decode(bytes, forced);
    let lines = split_lines(&normalize_line_endings(&text_chars(decoded.as_str())));
    if lines.len() == 0 {
        return Err(ParseError::EmptyFile);
    }
    Ok((lines, encoding))
}

/// How many lines the classification tables cover: the sniffer's sample
/// (or the known first data line) and the lenient scorer's sample, which
/// starts after line `skip` (0 where none is given).
pub open spec fn rows_to_classify(n: int, skip: Option<usize>) -> int {
    let s = lenient_sample(n, match skip { Some(k) => k as int, None => 0 });
    if table_cover(n, skip) >= s.0 + s.1 { table_cover(n, skip) } else { s.0 + s.1 }
}

/// How many of the `n` lines must be classified for the sniffer.
pub fn classify_row_count(n: usize, skip: Option<usize>) -> (upto: usize)
    ensures
        upto == rows_to_classify(n as int, skip),
        upto <= n,
{
    let sample = if n < SNIFF_LINE_CAP { n } else { SNIFF_LINE_CAP };
    let cover = match skip {
        Some(k) => if k < n && k + 1 > sample { k + 1 } else { sample },
        None => sample,
    };
    let k = match skip {
        Some(k) => k,
        None => 0,
    };
    let lenient = if n > 0 && k < n - 1 {
        let room = n - (k + 1);
        k + 1 + if room > LENIENT_SAMPLE_ROWS { LENIENT_SAMPLE_ROWS } else { room }
    } else {
        n
    };
    if cover >= lenient { cover } else { lenient }
}

/// The first data line once the sniffer has settled: after the preamble
/// and the header, if any; no data rows are left where that is not a line.
pub fn data_start_line(n: usize, s: &Sniff) -> (r: Result<usize, ParseError>)
    ensures
        match r {
            Ok(d) => d == s.preamble_lines + (if s.header_present { 1int } else { 0int }) && d < n,
            Err(e) => e == ParseError::NoDataRows && s.preamble_lines + (if s.header_present { 1int } else { 0int }) >= n,
        },
{
    if s.preamble_lines >= n || (s.header_present && s.preamble_lines + 1 >= n) {
        return Err(ParseError::NoDataRows);
    }
    Ok(if s.header_present { s.preamble_lines + 1 } else { s.preamble_lines })
}

/// Why a file's size refuses it: empty, or above `MAX_FILE_BYTES`.
pub fn check_size(len: usize) -> (r: Result<(), ParseError>)
    ensures
        len == 0 ==> r == Err::<(), ParseError>(ParseError::EmptyFile),
        len > MAX_FILE_BYTES ==> r == Err::<(), ParseError>(ParseError::FileTooLarge { bytes: len, limit: MAX_FILE_BYTES }),
        0 < len <= MAX_FILE_BYTES ==> r is Ok,
{
    if len == 0 {
        return Err(ParseError::EmptyFile);
    }
    if len > MAX_FILE_BYTES {
        return Err(ParseError::FileTooLarge { bytes: len, limit: MAX_FILE_BYTES });
    }
    Ok(())
}

} // verus!
