//! The on-disk history log: an append-only delimited text file, one line per
//! accepted reading.
//!
//! The current format is `DateTime,Temperature,Humidity` under that header:
//! a fixed-width sortable timestamp, the temperature with exactly one
//! fractional digit and a dot separator, the humidity as a plain integer.
//! Reading also accepts a legacy four-column layout `Date;Time;Temp;Hum`
//! with a dot or comma decimal. All functions work on the file's bytes; the
//! caller does the file handling.

use vstd::prelude::*;
use crate::data::{HistoryPoint, Timestamp};

verus! {

// --- Byte constants of the format ---

/// `,`
pub const COMMA: u8 = 44;

/// `;`
pub const SEMICOLON: u8 = 59;

/// `\n`
pub const LF: u8 = 10;

/// `\r`
pub const CR: u8 = 13;

/// `-`
pub const DASH: u8 = 45;

/// `+`
pub const PLUS: u8 = 43;

/// `.`
pub const DOT: u8 = 46;

/// `:`
pub const COLON: u8 = 58;

/// `T`
pub const UPPER_T: u8 = 84;

/// `0`
pub const DIGIT_0: u8 = 48;

// --- Number and timestamp images ---

/// Two zero-padded decimal digits.
pub open spec fn spec_two_digits(n: int) -> Seq<u8> {
    seq![(DIGIT_0 + n / 10) as u8, (DIGIT_0 + n % 10) as u8]
}

/// Four zero-padded decimal digits.
pub open spec fn spec_four_digits(n: int) -> Seq<u8> {
    seq![
        (DIGIT_0 + n / 1000) as u8,
        (DIGIT_0 + (n / 100) % 10) as u8,
        (DIGIT_0 + (n / 10) % 10) as u8,
        (DIGIT_0 + n % 10) as u8,
    ]
}

/// Unpadded decimal digits of a nonnegative number.
pub open spec fn spec_dec_digits(n: nat) -> Seq<u8>
    decreases n,
{
    if n < 10 {
        seq![(DIGIT_0 + n) as u8]
    } else {
        spec_dec_digits(n / 10).push((DIGIT_0 + n % 10) as u8)
    }
}

/// The current-format timestamp image `YYYY-MM-DDTHH:MM:SS`.
pub open spec fn spec_timestamp_bytes(ts: Timestamp) -> Seq<u8> {
    spec_four_digits(ts.year as int) + seq![DASH] + spec_two_digits(ts.month as int)
        + seq![DASH] + spec_two_digits(ts.day as int) + seq![UPPER_T]
        + spec_two_digits(ts.hour as int) + seq![COLON] + spec_two_digits(ts.minute as int)
        + seq![COLON] + spec_two_digits(ts.second as int)
}

/// The temperature image under a given decimal separator: optional minus
/// sign, the whole degrees, the separator, and exactly one fractional
/// digit; `t` is in tenths of a degree. The current format writes a dot;
/// legacy rows may carry a comma.
pub open spec fn spec_temp_bytes_sep(t: int, sep: u8) -> Seq<u8> {
    let a = if t < 0 { -t } else { t };
    let sign: Seq<u8> = if t < 0 { seq![DASH] } else { Seq::empty() };
    sign + spec_dec_digits((a / 10) as nat) + seq![sep, (DIGIT_0 + a % 10) as u8]
}

/// The temperature image of the current format.
pub open spec fn spec_temp_bytes(t: int) -> Seq<u8> {
    spec_temp_bytes_sep(t, DOT)
}

/// The humidity image: a plain decimal integer.
pub open spec fn spec_hum_bytes(h: int) -> Seq<u8> {
    spec_dec_digits(h as nat)
}

/// One current-format data row, terminated by a line feed.
pub open spec fn spec_row(ts: Timestamp, temp_deci: int, hum: int) -> Seq<u8> {
    spec_timestamp_bytes(ts) + seq![COMMA] + spec_temp_bytes(temp_deci) + seq![COMMA]
        + spec_hum_bytes(hum) + seq![LF]
}

/// `DateTime`
pub open spec fn spec_header_field_datetime() -> Seq<u8> {
    seq![68u8, 97u8, 116u8, 101u8, 84u8, 105u8, 109u8, 101u8]
}

/// `Temperature`
pub open spec fn spec_header_field_temperature() -> Seq<u8> {
    seq![84u8, 101u8, 109u8, 112u8, 101u8, 114u8, 97u8, 116u8, 117u8, 114u8, 101u8]
}

/// `Humidity`
pub open spec fn spec_header_field_humidity() -> Seq<u8> {
    seq![72u8, 117u8, 109u8, 105u8, 100u8, 105u8, 116u8, 121u8]
}

/// The header line `DateTime,Temperature,Humidity` without its terminator.
pub open spec fn spec_header_line() -> Seq<u8> {
    spec_header_field_datetime() + seq![COMMA] + spec_header_field_temperature()
        + seq![COMMA] + spec_header_field_humidity()
}

/// The header row as written to a new or empty file.
pub open spec fn spec_header() -> Seq<u8> {
    spec_header_line() + seq![LF]
}

/// The daily file name `log_YYYY-MM-DD.csv`.
pub open spec fn spec_log_filename(year: int, month: int, day: int) -> Seq<u8> {
    seq![108u8, 111u8, 103u8, 95u8] + spec_four_digits(year) + seq![DASH]
        + spec_two_digits(month) + seq![DASH] + spec_two_digits(day)
        + seq![46u8, 99u8, 115u8, 118u8]
}

// --- Executable builders ---

/// Appends two zero-padded digits.
fn push_two_digits(v: &mut Vec<u8>, n: u8)
    requires
        n < 100,
    ensures
        final(v)@ == old(v)@ + spec_two_digits(n as int),
{
    v.push(DIGIT_0 + n / 10);
    v.push(DIGIT_0 + n % 10);
    proof {
        assert(v@ =~= old(v)@ + spec_two_digits(n as int));
    }
}

/// Appends four zero-padded digits.
fn push_four_digits(v: &mut Vec<u8>, n: u16)
    requires
        n <= 9999,
    ensures
        final(v)@ == old(v)@ + spec_four_digits(n as int),
{
    v.push((DIGIT_0 as u16 + n / 1000) as u8);
    v.push((DIGIT_0 as u16 + (n / 100) % 10) as u8);
    v.push((DIGIT_0 as u16 + (n / 10) % 10) as u8);
    v.push((DIGIT_0 as u16 + n % 10) as u8);
    proof {
        assert(v@ =~= old(v)@ + spec_four_digits(n as int));
    }
}

/// Appends the unpadded decimal digits of `n`.
fn push_dec_digits(v: &mut Vec<u8>, n: u16)
    ensures
        final(v)@ == old(v)@ + spec_dec_digits(n as nat),
{
    proof {
        reveal_with_fuel(spec_dec_digits, 6);
    }
    if n < 10 {
        v.push((DIGIT_0 as u16 + n) as u8);
    } else if n < 100 {
        v.push((DIGIT_0 as u16 + n / 10) as u8);
        v.push((DIGIT_0 as u16 + n % 10) as u8);
    } else if n < 1000 {
        v.push((DIGIT_0 as u16 + n / 100) as u8);
        v.push((DIGIT_0 as u16 + (n / 10) % 10) as u8);
        v.push((DIGIT_0 as u16 + n % 10) as u8);
    } else if n < 10000 {
        v.push((DIGIT_0 as u16 + n / 1000) as u8);
        v.push((DIGIT_0 as u16 + (n / 100) % 10) as u8);
        v.push((DIGIT_0 as u16 + (n / 10) % 10) as u8);
        v.push((DIGIT_0 as u16 + n % 10) as u8);
    } else {
        v.push((DIGIT_0 as u16 + n / 10000) as u8);
        v.push((DIGIT_0 as u16 + (n / 1000) % 10) as u8);
        v.push((DIGIT_0 as u16 + (n / 100) % 10) as u8);
        v.push((DIGIT_0 as u16 + (n / 10) % 10) as u8);
        v.push((DIGIT_0 as u16 + n % 10) as u8);
    }
    proof {
        assert(v@ =~= old(v)@ + spec_dec_digits(n as nat));
    }
}

/// Builds the header row.
pub fn header_row() -> (r: Vec<u8>)
    ensures
        r@ == spec_header(),
{
    let mut v: Vec<u8> = Vec::new();
    v.push(68);
    v.push(97);
    v.push(116);
    v.push(101);
    v.push(84);
    v.push(105);
    v.push(109);
    v.push(101);
    v.push(COMMA);
    v.push(84);
    v.push(101);
    v.push(109);
    v.push(112);
    v.push(101);
    v.push(114);
    v.push(97);
    v.push(116);
    v.push(117);
    v.push(114);
    v.push(101);
    v.push(COMMA);
    v.push(72);
    v.push(117);
    v.push(109);
    v.push(105);
    v.push(100);
    v.push(105);
    v.push(116);
    v.push(121);
    v.push(LF);
    proof {
        assert(v@ =~= spec_header());
    }
    v
}

/// Builds one current-format data row for a reading persisted at `ts`.
pub fn format_row(ts: &Timestamp, temp_deci: i16, hum: u8) -> (r: Vec<u8>)
    requires
        ts.wf(),
    ensures
        r@ == spec_row(*ts, temp_deci as int, hum as int),
{
    let mut v: Vec<u8> = Vec::new();
    push_four_digits(&mut v, ts.year);
    v.push(DASH);
    push_two_digits(&mut v, ts.month);
    v.push(DASH);
    push_two_digits(&mut v, ts.day);
    v.push(UPPER_T);
    push_two_digits(&mut v, ts.hour);
    v.push(COLON);
    push_two_digits(&mut v, ts.minute);
    v.push(COLON);
    push_two_digits(&mut v, ts.second);
    v.push(COMMA);
    let a: u16 = if temp_deci < 0 {
        v.push(DASH);
        (-(temp_deci as i32)) as u16
    } else {
        temp_deci as u16
    };
    push_dec_digits(&mut v, a / 10);
    v.push(DOT);
    v.push((DIGIT_0 as u16 + a % 10) as u8);
    v.push(COMMA);
    push_dec_digits(&mut v, hum as u16);
    v.push(LF);
    proof {
        assert(v@ =~= spec_row(*ts, temp_deci as int, hum as int));
    }
    v
}

/// Builds the daily log file name for the given calendar day.
pub fn log_filename(year: u16, month: u8, day: u8) -> (r: Vec<u8>)
    requires
        year <= 9999,
        month < 100,
        day < 100,
    ensures
        r@ == spec_log_filename(year as int, month as int, day as int),
{
    let mut v: Vec<u8> = Vec::new();
    v.push(108);
    v.push(111);
    v.push(103);
    v.push(95);
    push_four_digits(&mut v, year);
    v.push(DASH);
    push_two_digits(&mut v, month);
    v.push(DASH);
    push_two_digits(&mut v, day);
    v.push(46);
    v.push(99);
    v.push(115);
    v.push(118);
    proof {
        assert(v@ =~= spec_log_filename(year as int, month as int, day as int));
    }
    v
}

// --- Splitting file contents into lines and fields ---

/// Splits `s` at every occurrence of `sep`. Splitting the empty string
/// yields one empty piece; a trailing separator yields a final empty piece.
pub open spec fn spec_split(s: Seq<u8>, sep: u8) -> Seq<Seq<u8>>
    decreases s.len(),
{
    if s.len() == 0 {
        seq![Seq::<u8>::empty()]
    } else if s[0] == sep {
        seq![Seq::<u8>::empty()] + spec_split(s.skip(1), sep)
    } else {
        let rest = spec_split(s.skip(1), sep);
        seq![seq![s[0]] + rest[0]] + rest.skip(1)
    }
}

/// Splitting yields at least one piece.
pub proof fn lemma_split_nonempty(s: Seq<u8>, sep: u8)
    ensures
        spec_split(s, sep).len() >= 1,
    decreases s.len(),
{
    if s.len() == 0 {
    } else {
        lemma_split_nonempty(s.skip(1), sep);
    }
}

/// A string without the separator splits into itself alone.
pub proof fn lemma_split_no_sep(s: Seq<u8>, sep: u8)
    requires
        forall|i: int| 0 <= i < s.len() ==> s[i] != sep,
    ensures
        spec_split(s, sep) == seq![s],
    decreases s.len(),
{
    if s.len() == 0 {
        assert(s =~= Seq::<u8>::empty());
        assert(spec_split(s, sep) =~= seq![s]);
    } else {
        lemma_split_no_sep(s.skip(1), sep);
        let rest = spec_split(s.skip(1), sep);
        assert(rest == seq![s.skip(1)]);
        assert(seq![s[0]] + rest[0] =~= s);
        assert(rest.skip(1) =~= Seq::<Seq<u8>>::empty());
        assert(spec_split(s, sep) =~= seq![s]);
    }
}

/// Splitting walks separators one at a time: with no separator in `a`,
/// `a`, one separator, and `b` split into `a` followed by the split of `b`.
pub proof fn lemma_split_append(a: Seq<u8>, b: Seq<u8>, sep: u8)
    requires
        forall|i: int| 0 <= i < a.len() ==> a[i] != sep,
    ensures
        spec_split(a + seq![sep] + b, sep) == seq![a] + spec_split(b, sep),
    decreases a.len(),
{
    let s = a + seq![sep] + b;
    if a.len() == 0 {
        assert(s[0] == sep);
        assert(s.skip(1) =~= b);
        assert(a =~= Seq::<u8>::empty());
        assert(spec_split(s, sep) =~= seq![a] + spec_split(b, sep));
    } else {
        assert(s[0] == a[0]);
        assert(s.skip(1) =~= a.skip(1) + seq![sep] + b);
        lemma_split_append(a.skip(1), b, sep);
        let rest = spec_split(s.skip(1), sep);
        assert(rest == seq![a.skip(1)] + spec_split(b, sep));
        lemma_split_nonempty(b, sep);
        assert(rest[0] == a.skip(1));
        assert(seq![s[0]] + rest[0] =~= a);
        assert(rest.skip(1) =~= spec_split(b, sep));
        assert(spec_split(s, sep) =~= seq![a] + spec_split(b, sep));
    }
}

/// Removes one trailing carriage return, as a line of a file with `\r\n`
/// endings carries one after splitting at line feeds.
pub open spec fn spec_strip_cr(l: Seq<u8>) -> Seq<u8> {
    if l.len() > 0 && l[l.len() - 1] == CR {
        l.drop_last()
    } else {
        l
    }
}

/// Cleans the raw pieces of a split at line feeds: strips one trailing
/// carriage return from each and drops empty lines.
pub open spec fn spec_clean_lines(ls: Seq<Seq<u8>>) -> Seq<Seq<u8>>
    decreases ls.len(),
{
    if ls.len() == 0 {
        Seq::empty()
    } else {
        let l = spec_strip_cr(ls[0]);
        (if l.len() > 0 {
            seq![l]
        } else {
            Seq::empty()
        }) + spec_clean_lines(ls.skip(1))
    }
}

pub proof fn lemma_clean_lines_add(a: Seq<Seq<u8>>, b: Seq<Seq<u8>>)
    ensures
        spec_clean_lines(a + b) == spec_clean_lines(a) + spec_clean_lines(b),
    decreases a.len(),
{
    if a.len() == 0 {
        assert(a + b =~= b);
        assert(spec_clean_lines(a) + spec_clean_lines(b) =~= spec_clean_lines(b));
    } else {
        assert((a + b)[0] == a[0]);
        assert((a + b).skip(1) =~= a.skip(1) + b);
        lemma_clean_lines_add(a.skip(1), b);
        assert(spec_clean_lines(a + b) =~= spec_clean_lines(a) + spec_clean_lines(b));
    }
}

/// The lines of a file: split at line feeds, trailing carriage returns
/// stripped, empty lines dropped.
pub open spec fn spec_lines(s: Seq<u8>) -> Seq<Seq<u8>> {
    spec_clean_lines(spec_split(s, LF))
}

/// Keeps, as field lists, the lines whose field count under `delim` equals
/// `ncols`.
pub open spec fn spec_keep_matching(ls: Seq<Seq<u8>>, delim: u8, ncols: int) -> Seq<Seq<Seq<u8>>>
    decreases ls.len(),
{
    if ls.len() == 0 {
        Seq::empty()
    } else {
        let f = spec_split(ls[0], delim);
        (if f.len() == ncols {
            seq![f]
        } else {
            Seq::empty()
        }) + spec_keep_matching(ls.skip(1), delim, ncols)
    }
}

pub proof fn lemma_keep_matching_add(a: Seq<Seq<u8>>, b: Seq<Seq<u8>>, delim: u8, ncols: int)
    ensures
        spec_keep_matching(a + b, delim, ncols) == spec_keep_matching(a, delim, ncols)
            + spec_keep_matching(b, delim, ncols),
    decreases a.len(),
{
    if a.len() == 0 {
        assert(a + b =~= b);
        assert(spec_keep_matching(a, delim, ncols) + spec_keep_matching(b, delim, ncols)
            =~= spec_keep_matching(b, delim, ncols));
    } else {
        assert((a + b)[0] == a[0]);
        assert((a + b).skip(1) =~= a.skip(1) + b);
        lemma_keep_matching_add(a.skip(1), b, delim, ncols);
        assert(spec_keep_matching(a + b, delim, ncols) =~= spec_keep_matching(a, delim, ncols)
            + spec_keep_matching(b, delim, ncols));
    }
}

/// The records a delimiter yields: the first line is the header, and every
/// later line splits into fields, kept when its field count equals the
/// header's.
pub open spec fn spec_records(s: Seq<u8>, delim: u8) -> Seq<Seq<Seq<u8>>> {
    let ls = spec_lines(s);
    if ls.len() == 0 {
        Seq::empty()
    } else {
        spec_keep_matching(ls.skip(1), delim, spec_split(ls[0], delim).len() as int)
    }
}

/// The views of a list of byte vectors.
pub open spec fn views_of(v: Seq<Vec<u8>>) -> Seq<Seq<u8>> {
    v.map_values(|p: Vec<u8>| p@)
}

/// Splits a byte string at every occurrence of `sep`.
pub fn split_bytes(s: &[u8], sep: u8) -> (r: Vec<Vec<u8>>)
    ensures
        views_of(r@) == spec_split(s@, sep),
{
    let mut done: Vec<Vec<u8>> = Vec::new();
    let mut start: usize = 0;
    let mut i: usize = 0;
    proof {
        assert(views_of(done@) =~= Seq::<Seq<u8>>::empty());
        assert(s@.skip(0) =~= s@);
        assert(Seq::<Seq<u8>>::empty() + spec_split(s@, sep) =~= spec_split(s@, sep));
    }
    while i < s.len()
        invariant
            0 <= start <= i <= s@.len(),
            forall|j: int| start <= j < i ==> s@[j] != sep,
            spec_split(s@, sep) == views_of(done@) + spec_split(s@.skip(start as int), sep),
        decreases s@.len() - i,
    {
        if s[i] == sep {
            let field = vstd::slice::slice_to_vec(vstd::slice::slice_subrange(s, start, i));
            proof {
                lemma_split_append(s@.subrange(start as int, i as int), s@.skip(i as int + 1), sep);
                assert(s@.skip(start as int) =~= s@.subrange(start as int, i as int)
                    + seq![sep] + s@.skip(i as int + 1));
                assert(views_of(done@.push(field)) =~= views_of(done@) + seq![field@]);
                assert(views_of(done@) + (seq![s@.subrange(start as int, i as int)]
                    + spec_split(s@.skip(i as int + 1), sep))
                    =~= (views_of(done@) + seq![s@.subrange(start as int, i as int)])
                    + spec_split(s@.skip(i as int + 1), sep));
            }
            done.push(field);
            start = i + 1;
        }
        i += 1;
    }
    let field = vstd::slice::slice_to_vec(vstd::slice::slice_subrange(s, start, s.len()));
    proof {
        assert(s@.skip(start as int) =~= s@.subrange(start as int, s@.len() as int));
        lemma_split_no_sep(s@.skip(start as int), sep);
        assert(views_of(done@.push(field)) =~= views_of(done@) + seq![field@]);
    }
    done.push(field);
    proof {
        assert(views_of(done@) =~= spec_split(s@, sep));
    }
    done
}

/// The lines of the file contents, cleaned.
fn file_lines(s: &[u8]) -> (r: Vec<Vec<u8>>)
    ensures
        views_of(r@) == spec_lines(s@),
{
    let raw = split_bytes(s, LF);
    let mut out: Vec<Vec<u8>> = Vec::new();
    let mut i: usize = 0;
    while i < raw.len()
        invariant
            0 <= i <= raw@.len(),
            views_of(raw@) == spec_split(s@, LF),
            views_of(out@) == spec_clean_lines(views_of(raw@).take(i as int)),
        decreases raw@.len() - i,
    {
        let ghost prefix = views_of(raw@).take(i as int);
        let ghost raw_line = raw@[i as int]@;
        let mut line = vstd::slice::slice_to_vec(raw[i].as_slice());
        if line.len() > 0 && line[line.len() - 1] == CR {
            line.pop();
        }
        proof {
            assert(raw_line == views_of(raw@)[i as int]);
            assert(line@ == spec_strip_cr(raw_line));
            assert(views_of(raw@).take(i as int + 1) =~= prefix + seq![raw_line]);
            lemma_clean_lines_add(prefix, seq![raw_line]);
            assert(seq![raw_line].skip(1) =~= Seq::<Seq<u8>>::empty());
            assert(spec_clean_lines(seq![raw_line]) == (if spec_strip_cr(raw_line).len() > 0 {
                seq![spec_strip_cr(raw_line)]
            } else {
                Seq::<Seq<u8>>::empty()
            }) + spec_clean_lines(Seq::<Seq<u8>>::empty()));
        }
        if line.len() > 0 {
            proof {
                assert(views_of(out@.push(line)) =~= views_of(out@) + seq![line@]);
                assert(views_of(out@) + spec_clean_lines(seq![raw_line])
                    =~= views_of(out@) + seq![line@]);
            }
            out.push(line);
        } else {
            proof {
                assert(views_of(out@) + spec_clean_lines(seq![raw_line]) =~= views_of(out@));
            }
        }
        i += 1;
    }
    proof {
        assert(views_of(raw@).take(raw@.len() as int) =~= views_of(raw@));
    }
    out
}

/// The views of a list of records.
pub open spec fn record_views_of(v: Seq<Vec<Vec<u8>>>) -> Seq<Seq<Seq<u8>>> {
    v.map_values(|rec: Vec<Vec<u8>>| views_of(rec@))
}

/// Reads the records of the file contents under one delimiter.
pub fn records_from(s: &[u8], delim: u8) -> (r: Vec<Vec<Vec<u8>>>)
    ensures
        record_views_of(r@) == spec_records(s@, delim),
{
    let lines = file_lines(s);
    let mut out: Vec<Vec<Vec<u8>>> = Vec::new();
    if lines.len() == 0 {
        proof {
            assert(record_views_of(out@) =~= spec_records(s@, delim));
        }
        return out;
    }
    let header_fields = split_bytes(lines[0].as_slice(), delim);
    let ncols = header_fields.len();
    proof {
        assert(views_of(lines@)[0] == lines@[0]@);
        assert(ncols as int == spec_split(views_of(lines@)[0], delim).len()) by {
            lemma_split_nonempty(lines@[0]@, delim);
        }
    }
    let mut i: usize = 1;
    while i < lines.len()
        invariant
            1 <= i <= lines@.len(),
            views_of(lines@) == spec_lines(s@),
            lines@.len() >= 1,
            ncols as int == spec_split(views_of(lines@)[0], delim).len(),
            record_views_of(out@) == spec_keep_matching(
                views_of(lines@).subrange(1, i as int),
                delim,
                ncols as int,
            ),
        decreases lines@.len() - i,
    {
        let ghost prefix = views_of(lines@).subrange(1, i as int);
        let ghost cur_line = lines@[i as int]@;
        let fields = split_bytes(lines[i].as_slice(), delim);
        proof {
            assert(cur_line == views_of(lines@)[i as int]);
            assert(views_of(lines@).subrange(1, i as int + 1) =~= prefix + seq![cur_line]);
            lemma_keep_matching_add(prefix, seq![cur_line], delim, ncols as int);
            assert(seq![cur_line].skip(1) =~= Seq::<Seq<u8>>::empty());
            assert(spec_keep_matching(seq![cur_line], delim, ncols as int)
                == (if spec_split(cur_line, delim).len() == ncols as int {
                    seq![spec_split(cur_line, delim)]
                } else {
                    Seq::<Seq<Seq<u8>>>::empty()
                }) + spec_keep_matching(Seq::<Seq<u8>>::empty(), delim, ncols as int));
        }
        if fields.len() == ncols {
            proof {
                assert(record_views_of(out@.push(fields)) =~= record_views_of(out@)
                    + seq![views_of(fields@)]);
                assert(record_views_of(out@) + spec_keep_matching(seq![cur_line], delim,
                    ncols as int) =~= record_views_of(out@) + seq![views_of(fields@)]);
            }
            out.push(fields);
        } else {
            proof {
                assert(record_views_of(out@) + spec_keep_matching(seq![cur_line], delim,
                    ncols as int) =~= record_views_of(out@));
            }
        }
        i += 1;
    }
    proof {
        assert(views_of(lines@).subrange(1, lines@.len() as int)
            =~= views_of(lines@).skip(1));
    }
    out
}

// --- Parsing fields ---

/// Whether the bytes of `s` in `[from, to)` are decimal digits.
pub open spec fn spec_digits_in(s: Seq<u8>, from: int, to: int) -> bool {
    forall|i: int| from <= i < to ==> DIGIT_0 <= #[trigger] s[i] <= 57
}

/// The value of the digit byte at `i`.
pub open spec fn spec_digit_at(s: Seq<u8>, i: int) -> int {
    s[i] - DIGIT_0
}

/// The value of the two digit bytes at `i`, `i + 1`.
pub open spec fn spec_two_digit_value(s: Seq<u8>, i: int) -> int {
    10 * spec_digit_at(s, i) + spec_digit_at(s, i + 1)
}

/// The value of the four digit bytes starting at `i`.
pub open spec fn spec_four_digit_value(s: Seq<u8>, i: int) -> int {
    1000 * spec_digit_at(s, i) + 100 * spec_digit_at(s, i + 1) + 10 * spec_digit_at(s, i + 2)
        + spec_digit_at(s, i + 3)
}

/// Parses the current-format timestamp `YYYY-MM-DDTHH:MM:SS`: exact widths,
/// and the fields within the ranges of [`Timestamp::wf`].
pub open spec fn spec_parse_timestamp(s: Seq<u8>) -> Option<Timestamp> {
    if s.len() == 19 && s[4] == DASH && s[7] == DASH && s[10] == UPPER_T && s[13] == COLON
        && s[16] == COLON && spec_digits_in(s, 0, 4) && spec_digits_in(s, 5, 7)
        && spec_digits_in(s, 8, 10) && spec_digits_in(s, 11, 13) && spec_digits_in(s, 14, 16)
        && spec_digits_in(s, 17, 19) {
        let ts = Timestamp {
            year: spec_four_digit_value(s, 0) as u16,
            month: spec_two_digit_value(s, 5) as u8,
            day: spec_two_digit_value(s, 8) as u8,
            hour: spec_two_digit_value(s, 11) as u8,
            minute: spec_two_digit_value(s, 14) as u8,
            second: spec_two_digit_value(s, 17) as u8,
        };
        if ts.wf() {
            Some(ts)
        } else {
            None
        }
    } else {
        None
    }
}

/// Parses the legacy date and time columns `YYYY.MM.DD` and `HH:MM:SS`.
pub open spec fn spec_parse_legacy_timestamp(d: Seq<u8>, t: Seq<u8>) -> Option<Timestamp> {
    if d.len() == 10 && d[4] == DOT && d[7] == DOT && spec_digits_in(d, 0, 4)
        && spec_digits_in(d, 5, 7) && spec_digits_in(d, 8, 10) && t.len() == 8 && t[2] == COLON
        && t[5] == COLON && spec_digits_in(t, 0, 2) && spec_digits_in(t, 3, 5)
        && spec_digits_in(t, 6, 8) {
        let ts = Timestamp {
            year: spec_four_digit_value(d, 0) as u16,
            month: spec_two_digit_value(d, 5) as u8,
            day: spec_two_digit_value(d, 8) as u8,
            hour: spec_two_digit_value(t, 0) as u8,
            minute: spec_two_digit_value(t, 3) as u8,
            second: spec_two_digit_value(t, 6) as u8,
        };
        if ts.wf() {
            Some(ts)
        } else {
            None
        }
    } else {
        None
    }
}

/// The value of a digit string, most significant digit first.
pub open spec fn spec_digits_value(s: Seq<u8>) -> int
    decreases s.len(),
{
    if s.len() == 0 {
        0
    } else {
        spec_digits_value(s.drop_last()) * 10 + (s.last() - DIGIT_0)
    }
}

/// The first position of a decimal separator, dot or comma.
pub open spec fn spec_find_dec_sep(s: Seq<u8>) -> Option<int>
    decreases s.len(),
{
    if s.len() == 0 {
        None
    } else if s[0] == DOT || s[0] == COMMA {
        Some(0)
    } else {
        match spec_find_dec_sep(s.skip(1)) {
            Option::None => None,
            Option::Some(i) => Some(i + 1),
        }
    }
}

/// What the found position means: the first decimal separator, or none.
pub proof fn lemma_find_dec_sep(s: Seq<u8>)
    ensures
        match spec_find_dec_sep(s) {
            Option::Some(i) => 0 <= i < s.len() && (s[i] == DOT || s[i] == COMMA)
                && forall|j: int| 0 <= j < i ==> !(s[j] == DOT || s[j] == COMMA),
            Option::None => forall|j: int| 0 <= j < s.len() ==> !(s[j] == DOT || s[j] == COMMA),
        },
    decreases s.len(),
{
    if s.len() == 0 {
    } else if s[0] == DOT || s[0] == COMMA {
    } else {
        lemma_find_dec_sep(s.skip(1));
        assert(forall|j: int| 1 <= j < s.len() ==> s[j] == s.skip(1)[j - 1]);
    }
}

/// The value of a signed decimal with at most one fractional digit kept, in
/// tenths: the digits before the separator, times ten, plus the first
/// fractional digit. Values outside the sensor's signed 16-bit range in
/// tenths are rejected.
pub open spec fn spec_temp_value(neg: bool, ip: Seq<u8>, fp: Seq<u8>) -> Option<int> {
    if spec_digits_in(ip, 0, ip.len() as int) && spec_digits_in(fp, 0, fp.len() as int)
        && ip.len() + fp.len() >= 1 {
        let frac = if fp.len() > 0 {
            fp[0] - DIGIT_0
        } else {
            0
        };
        let v = spec_digits_value(ip) * 10 + frac;
        let sv = if neg {
            -v
        } else {
            v
        };
        if -32768 <= sv <= 32767 {
            Some(sv)
        } else {
            None
        }
    } else {
        None
    }
}

/// Parses a temperature into tenths of a degree: an optional sign, digits,
/// and optionally one dot or comma decimal separator followed by digits, of
/// which the first is kept. This is the shape the log writer produces and
/// the legacy files hold; anything else is rejected.
pub open spec fn spec_parse_temp(s: Seq<u8>) -> Option<int> {
    if s.len() == 0 {
        None
    } else {
        let neg = s[0] == DASH;
        let body = if s[0] == DASH || s[0] == PLUS {
            s.skip(1)
        } else {
            s
        };
        match spec_find_dec_sep(body) {
            Option::None => spec_temp_value(neg, body, Seq::empty()),
            Option::Some(i) => spec_temp_value(neg, body.take(i), body.skip(i + 1)),
        }
    }
}

/// Parses a humidity percentage: an optional plus sign and digits, with a
/// value that fits in a byte.
pub open spec fn spec_parse_hum(s: Seq<u8>) -> Option<u8> {
    if s.len() == 0 {
        None
    } else {
        let body = if s[0] == PLUS {
            s.skip(1)
        } else {
            s
        };
        if spec_digits_in(body, 0, body.len() as int) && body.len() >= 1
            && spec_digits_value(body) <= 255 {
            Some(spec_digits_value(body) as u8)
        } else {
            None
        }
    }
}

/// Parses one record: the current three-column format first, then the
/// legacy four-column one; a record matching neither yields nothing.
pub open spec fn spec_parse_record(r: Seq<Seq<u8>>) -> Option<HistoryPoint> {
    let cur: Option<HistoryPoint> = if r.len() >= 3 {
        match (spec_parse_timestamp(r[0]), spec_parse_temp(r[1]), spec_parse_hum(r[2])) {
            (Option::Some(ts), Option::Some(t), Option::Some(h)) => Some(HistoryPoint {
                timestamp: ts,
                temp_deci: t as i16,
                hum: h,
            }),
            _ => None,
        }
    } else {
        None
    };
    if cur is Some {
        cur
    } else if r.len() >= 4 {
        match (spec_parse_legacy_timestamp(r[0], r[1]), spec_parse_temp(r[2]),
        spec_parse_hum(r[3])) {
            (Option::Some(ts), Option::Some(t), Option::Some(h)) => Some(HistoryPoint {
                timestamp: ts,
                temp_deci: t as i16,
                hum: h,
            }),
            _ => None,
        }
    } else {
        None
    }
}

/// The points of the records that parse, in record order.
pub open spec fn spec_parsed_points(recs: Seq<Seq<Seq<u8>>>) -> Seq<HistoryPoint>
    decreases recs.len(),
{
    if recs.len() == 0 {
        Seq::empty()
    } else {
        (match spec_parse_record(recs[0]) {
            Option::Some(p) => seq![p],
            Option::None => Seq::empty(),
        }) + spec_parsed_points(recs.skip(1))
    }
}

pub proof fn lemma_parsed_points_add(a: Seq<Seq<Seq<u8>>>, b: Seq<Seq<Seq<u8>>>)
    ensures
        spec_parsed_points(a + b) == spec_parsed_points(a) + spec_parsed_points(b),
    decreases a.len(),
{
    if a.len() == 0 {
        assert(a + b =~= b);
        assert(spec_parsed_points(a) + spec_parsed_points(b) =~= spec_parsed_points(b));
    } else {
        assert((a + b)[0] == a[0]);
        assert((a + b).skip(1) =~= a.skip(1) + b);
        lemma_parsed_points_add(a.skip(1), b);
        assert(spec_parsed_points(a + b) =~= spec_parsed_points(a) + spec_parsed_points(b));
    }
}

/// What loading file contents yields: records under a comma, or under a
/// semicolon when the comma yields none; the points of the records that
/// parse; and, for a bounded history, only the most recent fixed-size
/// suffix of those points.
pub open spec fn spec_load_history(content: Seq<u8>, load_all: bool) -> Seq<HistoryPoint> {
    let recs0 = spec_records(content, COMMA);
    let recs = if recs0.len() == 0 {
        spec_records(content, SEMICOLON)
    } else {
        recs0
    };
    let pts = spec_parsed_points(recs);
    if load_all || pts.len() <= crate::MAX_HISTORY_POINTS as int {
        pts
    } else {
        pts.skip(pts.len() - crate::MAX_HISTORY_POINTS as int)
    }
}

// --- Executable parsers ---

/// Checks that the bytes in `[from, to)` are decimal digits.
fn digits_in_range(s: &[u8], from: usize, to: usize) -> (r: bool)
    requires
        from <= to <= s@.len(),
    ensures
        r == spec_digits_in(s@, from as int, to as int),
{
    let mut i: usize = from;
    while i < to
        invariant
            from <= i <= to <= s@.len(),
            spec_digits_in(s@, from as int, i as int),
        decreases to - i,
    {
        let b = s[i];
        if b < DIGIT_0 || b > 57 {
            return false;
        }
        i += 1;
    }
    true
}

/// Largest value `scan_digits` reports exactly; beyond it the scan
/// saturates, and every accepting caller bound lies far below it.
const DIGIT_SCAN_CAP: u32 = 1000000;

/// Scans the bytes in `[from, to)` as a decimal number. Yields nothing when
/// a byte is not a digit; otherwise the value, saturated at
/// `DIGIT_SCAN_CAP`.
fn scan_digits(s: &[u8], from: usize, to: usize) -> (r: Option<u32>)
    requires
        from <= to <= s@.len(),
    ensures
        ({
            let sub = s@.subrange(from as int, to as int);
            match r {
                Option::Some(v) => spec_digits_in(sub, 0, sub.len() as int) && v as int == {
                    let dv = spec_digits_value(sub);
                    if dv <= DIGIT_SCAN_CAP as int {
                        dv
                    } else {
                        DIGIT_SCAN_CAP as int
                    }
                },
                Option::None => !spec_digits_in(sub, 0, sub.len() as int),
            }
        }),
{
    let ghost sub = s@.subrange(from as int, to as int);
    proof {
        assert(forall|j: int| 0 <= j < sub.len() ==> #[trigger] sub[j] == s@[from + j]);
    }
    let mut acc: u32 = 0;
    let mut i: usize = from;
    proof {
        assert(s@.subrange(from as int, from as int) =~= Seq::<u8>::empty());
    }
    while i < to
        invariant
            from <= i <= to <= s@.len(),
            sub == s@.subrange(from as int, to as int),
            spec_digits_in(s@, from as int, i as int),
            acc as int == {
                let dv = spec_digits_value(s@.subrange(from as int, i as int));
                if dv <= DIGIT_SCAN_CAP as int {
                    dv
                } else {
                    DIGIT_SCAN_CAP as int
                }
            },
            acc <= DIGIT_SCAN_CAP,
        decreases to - i,
    {
        let b = s[i];
        if b < DIGIT_0 || b > 57 {
            proof {
                assert(sub[i - from as int] == s@[i as int]);
                assert(!spec_digits_in(sub, 0, sub.len() as int));
            }
            return None;
        }
        let t: u32 = acc * 10 + (b - DIGIT_0) as u32;
        proof {
            let pfx = s@.subrange(from as int, i as int);
            let pfx1 = s@.subrange(from as int, i as int + 1);
            assert(pfx1.drop_last() =~= pfx);
            assert(pfx1.last() == b);
            assert(spec_digits_value(pfx1) == spec_digits_value(pfx) * 10 + (b - DIGIT_0));
            assert(forall|j: int| 0 <= j < pfx.len() ==> #[trigger] pfx[j] == s@[from + j]);
            assert(spec_digits_value(pfx) >= 0) by {
                lemma_digits_value_nonneg(pfx);
            }
        }
        acc = if t > DIGIT_SCAN_CAP {
            DIGIT_SCAN_CAP
        } else {
            t
        };
        i += 1;
    }
    proof {
        assert(sub =~= s@.subrange(from as int, to as int));
        assert(forall|j: int| 0 <= j < sub.len() ==> #[trigger] sub[j] == s@[from + j]);
        assert(spec_digits_in(sub, 0, sub.len() as int));
    }
    Some(acc)
}

/// A digit string's value is nonnegative.
pub proof fn lemma_digits_value_nonneg(s: Seq<u8>)
    requires
        spec_digits_in(s, 0, s.len() as int),
    ensures
        spec_digits_value(s) >= 0,
    decreases s.len(),
{
    if s.len() > 0 {
        assert(spec_digits_in(s.drop_last(), 0, s.len() - 1)) by {
            assert(forall|j: int| 0 <= j < s.len() - 1 ==> #[trigger] s.drop_last()[j] == s[j]);
        }
        lemma_digits_value_nonneg(s.drop_last());
        assert(s.last() >= DIGIT_0);
    }
}

/// Parses the current-format timestamp column.
pub fn parse_timestamp(s: &[u8]) -> (r: Option<Timestamp>)
    ensures
        r == spec_parse_timestamp(s@),
{
    if s.len() != 19 {
        return None;
    }
    if !(s[4] == DASH && s[7] == DASH && s[10] == UPPER_T && s[13] == COLON && s[16] == COLON) {
        return None;
    }
    if !(digits_in_range(s, 0, 4) && digits_in_range(s, 5, 7) && digits_in_range(s, 8, 10)
        && digits_in_range(s, 11, 13) && digits_in_range(s, 14, 16)
        && digits_in_range(s, 17, 19)) {
        return None;
    }
    let year: u16 = ((s[0] - DIGIT_0) as u16) * 1000 + ((s[1] - DIGIT_0) as u16) * 100
        + ((s[2] - DIGIT_0) as u16) * 10 + ((s[3] - DIGIT_0) as u16);
    let month: u8 = (s[5] - DIGIT_0) * 10 + (s[6] - DIGIT_0);
    let day: u8 = (s[8] - DIGIT_0) * 10 + (s[9] - DIGIT_0);
    let hour: u8 = (s[11] - DIGIT_0) * 10 + (s[12] - DIGIT_0);
    let minute: u8 = (s[14] - DIGIT_0) * 10 + (s[15] - DIGIT_0);
    let second: u8 = (s[17] - DIGIT_0) * 10 + (s[18] - DIGIT_0);
    Timestamp::new(year, month, day, hour, minute, second)
}

/// Parses the legacy date and time columns.
pub fn parse_legacy_timestamp(d: &[u8], t: &[u8]) -> (r: Option<Timestamp>)
    ensures
        r == spec_parse_legacy_timestamp(d@, t@),
{
    if d.len() != 10 || t.len() != 8 {
        return None;
    }
    if !(d[4] == DOT && d[7] == DOT && t[2] == COLON && t[5] == COLON) {
        return None;
    }
    if !(digits_in_range(d, 0, 4) && digits_in_range(d, 5, 7) && digits_in_range(d, 8, 10)
        && digits_in_range(t, 0, 2) && digits_in_range(t, 3, 5) && digits_in_range(t, 6, 8)) {
        return None;
    }
    let year: u16 = ((d[0] - DIGIT_0) as u16) * 1000 + ((d[1] - DIGIT_0) as u16) * 100
        + ((d[2] - DIGIT_0) as u16) * 10 + ((d[3] - DIGIT_0) as u16);
    let month: u8 = (d[5] - DIGIT_0) * 10 + (d[6] - DIGIT_0);
    let day: u8 = (d[8] - DIGIT_0) * 10 + (d[9] - DIGIT_0);
    let hour: u8 = (t[0] - DIGIT_0) * 10 + (t[1] - DIGIT_0);
    let minute: u8 = (t[3] - DIGIT_0) * 10 + (t[4] - DIGIT_0);
    let second: u8 = (t[6] - DIGIT_0) * 10 + (t[7] - DIGIT_0);
    Timestamp::new(year, month, day, hour, minute, second)
}

/// Parses a temperature column into tenths of a degree.
pub fn parse_temp(s: &[u8]) -> (r: Option<i16>)
    ensures
        match r {
            Some(v) => spec_parse_temp(s@) == Some(v as int),
            None => spec_parse_temp(s@) is None,
        },
{
    if s.len() == 0 {
        return None;
    }
    let neg = s[0] == DASH;
    let start: usize = if s[0] == DASH || s[0] == PLUS {
        1
    } else {
        0
    };
    let ghost body = s@.skip(start as int);
    proof {
        if start == 0 {
            assert(body =~= s@);
        }
    }
    // Find the first decimal separator in the body.
    let mut sep_idx: usize = start;
    while sep_idx < s.len() && !(s[sep_idx] == DOT || s[sep_idx] == COMMA)
        invariant
            start <= sep_idx <= s@.len(),
            forall|j: int| start <= j < sep_idx ==> !(s@[j] == DOT || s@[j] == COMMA),
        decreases s@.len() - sep_idx,
    {
        sep_idx += 1;
    }
    proof {
        lemma_find_dec_sep(body);
        assert(forall|j: int| 0 <= j < body.len() ==> body[j] == s@[start + j]);
        if sep_idx < s@.len() {
            assert(spec_find_dec_sep(body) == Some(sep_idx - start as int)) by {
                match spec_find_dec_sep(body) {
                    Option::None => {
                        assert(!(body[sep_idx - start as int] == DOT
                            || body[sep_idx - start as int] == COMMA));
                    },
                    Option::Some(i) => {
                        if i < sep_idx - start as int {
                            assert(s@[start + i] == DOT || s@[start + i] == COMMA);
                        } else if i > sep_idx - start as int {
                            assert(!(body[sep_idx - start as int] == DOT
                                || body[sep_idx - start as int] == COMMA));
                        }
                    },
                }
            }
        } else {
            assert(spec_find_dec_sep(body) is None) by {
                match spec_find_dec_sep(body) {
                    Option::Some(i) => {
                        assert(s@[start + i] == DOT || s@[start + i] == COMMA);
                    },
                    Option::None => {},
                }
            }
        }
    }
    let ghost ip = if sep_idx < s@.len() {
        body.take(sep_idx - start as int)
    } else {
        body
    };
    let ghost fp = if sep_idx < s@.len() {
        body.skip(sep_idx - start as int + 1)
    } else {
        Seq::<u8>::empty()
    };
    proof {
        assert(ip =~= s@.subrange(start as int, sep_idx as int));
        if sep_idx < s@.len() {
            assert(fp =~= s@.subrange(sep_idx as int + 1, s@.len() as int));
        }
    }
    // Scan the integer part and the fractional part.
    let whole = match scan_digits(s, start, sep_idx) {
        None => {
            return None;
        },
        Some(v) => v,
    };
    let frac: u32 = if sep_idx < s.len() {
        match scan_digits(s, sep_idx + 1, s.len()) {
            None => {
                return None;
            },
            Some(_) => {
                if sep_idx + 1 < s.len() {
                    proof {
                        let sub = s@.subrange(sep_idx as int + 1, s@.len() as int);
                        assert(sub[0] == s@[sep_idx as int + 1]);
                    }
                    (s[sep_idx + 1] - DIGIT_0) as u32
                } else {
                    0
                }
            },
        }
    } else {
        0
    };
    if sep_idx == start && (sep_idx >= s.len() || sep_idx + 1 >= s.len()) {
        // No digits at all.
        return None;
    }
    proof {
        lemma_digits_value_nonneg(ip);
        if fp.len() > 0 {
            assert(fp[0] == s@[sep_idx as int + 1]);
        }
    }
    let v: u32 = whole * 10 + frac;
    let sv: Option<i16> = if neg {
        if v <= 32768 {
            Some((-(v as i64)) as i16)
        } else {
            None
        }
    } else {
        if v <= 32767 {
            Some(v as i16)
        } else {
            None
        }
    };
    proof {
        let dv = spec_digits_value(ip);
        let sfrac: int = if fp.len() > 0 {
            fp[0] - DIGIT_0
        } else {
            0
        };
        let specv = dv * 10 + sfrac;
        if dv <= DIGIT_SCAN_CAP as int {
            assert(whole as int == dv);
            assert(v as int == specv);
        } else {
            assert(whole == DIGIT_SCAN_CAP);
            assert(v as int >= 10 * DIGIT_SCAN_CAP as int);
            assert(specv >= 10 * DIGIT_SCAN_CAP as int);
        }
    }
    sv
}

/// Parses a humidity column.
pub fn parse_hum(s: &[u8]) -> (r: Option<u8>)
    ensures
        r == spec_parse_hum(s@),
{
    if s.len() == 0 {
        return None;
    }
    let start: usize = if s[0] == PLUS {
        1
    } else {
        0
    };
    if start >= s.len() {
        return None;
    }
    let ghost body = s@.skip(start as int);
    proof {
        assert(body =~= s@.subrange(start as int, s@.len() as int));
        if start == 0 {
            assert(body =~= s@);
        }
    }
    match scan_digits(s, start, s.len()) {
        None => None,
        Some(v) => {
            proof {
                lemma_digits_value_nonneg(body);
            }
            if v <= 255 {
                Some(v as u8)
            } else {
                None
            }
        },
    }
}

/// Parses one record into a history point, the current format first, the
/// legacy format second.
pub fn parse_record(rec: &Vec<Vec<u8>>) -> (r: Option<HistoryPoint>)
    ensures
        r == spec_parse_record(views_of(rec@)),
{
    let ghost rv = views_of(rec@);
    if rec.len() >= 3 {
        proof {
            assert(rv[0] == rec@[0]@);
            assert(rv[1] == rec@[1]@);
            assert(rv[2] == rec@[2]@);
        }
        let ts = parse_timestamp(rec[0].as_slice());
        let t = parse_temp(rec[1].as_slice());
        let h = parse_hum(rec[2].as_slice());
        if let (Some(ts), Some(t), Some(h)) = (ts, t, h) {
            return Some(HistoryPoint { timestamp: ts, temp_deci: t, hum: h });
        }
    }
    if rec.len() >= 4 {
        proof {
            assert(rv[0] == rec@[0]@);
            assert(rv[1] == rec@[1]@);
            assert(rv[2] == rec@[2]@);
            assert(rv[3] == rec@[3]@);
        }
        let ts = parse_legacy_timestamp(rec[0].as_slice(), rec[1].as_slice());
        let t = parse_temp(rec[2].as_slice());
        let h = parse_hum(rec[3].as_slice());
        if let (Some(ts), Some(t), Some(h)) = (ts, t, h) {
            return Some(HistoryPoint { timestamp: ts, temp_deci: t, hum: h });
        }
    }
    None
}

/// Loads the history points of the file contents: comma records, or
/// semicolon records when the comma yields none; every record that parses,
/// in order; and, when the configuration bounds the history, only the most
/// recent `MAX_HISTORY_POINTS` of them.
pub fn load_history(content: &[u8], load_all: bool) -> (r: Vec<HistoryPoint>)
    ensures
        r@ == spec_load_history(content@, load_all),
        !load_all ==> r@.len() <= crate::MAX_HISTORY_POINTS as int,
{
    let recs0 = records_from(content, COMMA);
    let recs = if recs0.len() == 0 {
        proof {
            assert(spec_records(content@, COMMA).len() == 0);
        }
        records_from(content, SEMICOLON)
    } else {
        recs0
    };
    let ghost recs_v = record_views_of(recs@);
    let mut pts: Vec<HistoryPoint> = Vec::new();
    let mut i: usize = 0;
    proof {
        assert(recs_v.take(0) =~= Seq::<Seq<Seq<u8>>>::empty());
    }
    while i < recs.len()
        invariant
            0 <= i <= recs@.len(),
            recs_v == record_views_of(recs@),
            pts@ == spec_parsed_points(recs_v.take(i as int)),
        decreases recs@.len() - i,
    {
        let ghost prefix = recs_v.take(i as int);
        let ghost cur = recs_v[i as int];
        let p = parse_record(&recs[i]);
        proof {
            assert(cur == views_of(recs@[i as int]@));
            assert(recs_v.take(i as int + 1) =~= prefix + seq![cur]);
            lemma_parsed_points_add(prefix, seq![cur]);
            assert(seq![cur].skip(1) =~= Seq::<Seq<Seq<u8>>>::empty());
            assert(spec_parsed_points(seq![cur]) == (match spec_parse_record(cur) {
                Option::Some(q) => seq![q],
                Option::None => Seq::<HistoryPoint>::empty(),
            }) + spec_parsed_points(Seq::<Seq<Seq<u8>>>::empty()));
        }
        match p {
            Some(point) => {
                proof {
                    assert(pts@ + spec_parsed_points(seq![cur]) =~= pts@.push(point));
                }
                pts.push(point);
            },
            None => {
                proof {
                    assert(pts@ + spec_parsed_points(seq![cur]) =~= pts@);
                }
            },
        }
        i += 1;
    }
    proof {
        assert(recs_v.take(recs@.len() as int) =~= recs_v);
    }
    if !load_all && pts.len() > crate::MAX_HISTORY_POINTS {
        let tail = pts.split_off(pts.len() - crate::MAX_HISTORY_POINTS);
        proof {
            assert(tail@ =~= spec_parsed_points(recs_v).skip(
                spec_parsed_points(recs_v).len() - crate::MAX_HISTORY_POINTS as int,
            ));
        }
        tail
    } else {
        pts
    }
}

// --- Round-trip laws: what was written reads back ---

/// The digits of a formatted two-digit field read back as its value.
proof fn lemma_two_digits_inverse(n: int)
    requires
        0 <= n <= 99,
    ensures
        spec_two_digits(n).len() == 2,
        spec_digits_in(spec_two_digits(n), 0, 2),
        spec_two_digit_value(spec_two_digits(n), 0) == n,
{
    let s = spec_two_digits(n);
    assert(s[0] == DIGIT_0 + n / 10);
    assert(s[1] == DIGIT_0 + n % 10);
}

/// The digits of a formatted four-digit field read back as its value.
proof fn lemma_four_digits_inverse(n: int)
    requires
        0 <= n <= 9999,
    ensures
        spec_four_digits(n).len() == 4,
        spec_digits_in(spec_four_digits(n), 0, 4),
        spec_four_digit_value(spec_four_digits(n), 0) == n,
{
    let s = spec_four_digits(n);
    vstd::arithmetic::div_mod::lemma_div_denominator(n, 10, 10);
    vstd::arithmetic::div_mod::lemma_div_denominator(n, 100, 10);
    assert(n / 10 / 10 == n / 100);
    assert(n / 100 / 10 == n / 1000);
    assert(n == 10 * (n / 10) + n % 10);
    assert(n / 10 == 10 * (n / 10 / 10) + (n / 10) % 10);
    assert(n / 100 == 10 * (n / 100 / 10) + (n / 100) % 10);
    assert((n / 10) % 10 == (n / 10) % 10);
    assert(n / 1000 <= 9);
    assert(spec_four_digit_value(s, 0) == 1000 * (n / 1000) + 100 * ((n / 100) % 10) + 10 * ((n
        / 10) % 10) + n % 10);
}

/// Every byte a decimal formatting produces is a digit.
proof fn lemma_dec_digits_are_digits(n: nat)
    ensures
        spec_dec_digits(n).len() >= 1,
        spec_digits_in(spec_dec_digits(n), 0, spec_dec_digits(n).len() as int),
    decreases n,
{
    if n < 10 {
    } else {
        lemma_dec_digits_are_digits(n / 10);
        let pre = spec_dec_digits(n / 10);
        let s = spec_dec_digits(n);
        assert(s == pre.push((DIGIT_0 + n % 10) as u8));
        assert(forall|i: int| 0 <= i < pre.len() ==> s[i] == pre[i]);
        assert(s[s.len() - 1] == (DIGIT_0 + n % 10) as u8);
    }
}

/// The digits of a decimal formatting read back as the formatted value.
proof fn lemma_dec_digits_value(n: nat)
    ensures
        spec_digits_value(spec_dec_digits(n)) == n,
    decreases n,
{
    if n < 10 {
        let s = spec_dec_digits(n);
        assert(s == seq![(DIGIT_0 + n) as u8]);
        assert(s.drop_last() =~= Seq::<u8>::empty());
        assert(spec_digits_value(s.drop_last()) == 0);
    } else {
        lemma_dec_digits_value(n / 10);
        let pre = spec_dec_digits(n / 10);
        let s = spec_dec_digits(n);
        assert(s == pre.push((DIGIT_0 + n % 10) as u8));
        assert(s.drop_last() =~= pre);
        assert(spec_digits_value(s) == spec_digits_value(pre) * 10 + (n % 10));
        assert(n == 10 * (n as int / 10) + n as int % 10);
    }
}

/// A formatted current-format timestamp parses back to the same timestamp.
pub proof fn lemma_parse_timestamp_inverse(ts: Timestamp)
    requires
        ts.wf(),
    ensures
        spec_parse_timestamp(spec_timestamp_bytes(ts)) == Some(ts),
{
    let s = spec_timestamp_bytes(ts);
    let y = spec_four_digits(ts.year as int);
    let mo = spec_two_digits(ts.month as int);
    let d = spec_two_digits(ts.day as int);
    let h = spec_two_digits(ts.hour as int);
    let mi = spec_two_digits(ts.minute as int);
    let se = spec_two_digits(ts.second as int);
    lemma_four_digits_inverse(ts.year as int);
    lemma_two_digits_inverse(ts.month as int);
    lemma_two_digits_inverse(ts.day as int);
    lemma_two_digits_inverse(ts.hour as int);
    lemma_two_digits_inverse(ts.minute as int);
    lemma_two_digits_inverse(ts.second as int);
    assert(s =~= seq![
        y[0], y[1], y[2], y[3], DASH, mo[0], mo[1], DASH, d[0], d[1], UPPER_T, h[0], h[1],
        COLON, mi[0], mi[1], COLON, se[0], se[1],
    ]);
    assert(spec_four_digit_value(s, 0) == ts.year as int);
    assert(spec_two_digit_value(s, 5) == ts.month as int);
    assert(spec_two_digit_value(s, 8) == ts.day as int);
    assert(spec_two_digit_value(s, 11) == ts.hour as int);
    assert(spec_two_digit_value(s, 14) == ts.minute as int);
    assert(spec_two_digit_value(s, 17) == ts.second as int);
}

/// The legacy date column image `YYYY.MM.DD`.
pub open spec fn spec_legacy_date_bytes(ts: Timestamp) -> Seq<u8> {
    spec_four_digits(ts.year as int) + seq![DOT] + spec_two_digits(ts.month as int) + seq![DOT]
        + spec_two_digits(ts.day as int)
}

/// The legacy time column image `HH:MM:SS`.
pub open spec fn spec_legacy_time_bytes(ts: Timestamp) -> Seq<u8> {
    spec_two_digits(ts.hour as int) + seq![COLON] + spec_two_digits(ts.minute as int)
        + seq![COLON] + spec_two_digits(ts.second as int)
}

/// Formatted legacy date and time columns parse back to the same timestamp.
pub proof fn lemma_parse_legacy_timestamp_inverse(ts: Timestamp)
    requires
        ts.wf(),
    ensures
        spec_parse_legacy_timestamp(spec_legacy_date_bytes(ts), spec_legacy_time_bytes(ts))
            == Some(ts),
{
    let d = spec_legacy_date_bytes(ts);
    let t = spec_legacy_time_bytes(ts);
    let y = spec_four_digits(ts.year as int);
    let mo = spec_two_digits(ts.month as int);
    let da = spec_two_digits(ts.day as int);
    let h = spec_two_digits(ts.hour as int);
    let mi = spec_two_digits(ts.minute as int);
    let se = spec_two_digits(ts.second as int);
    lemma_four_digits_inverse(ts.year as int);
    lemma_two_digits_inverse(ts.month as int);
    lemma_two_digits_inverse(ts.day as int);
    lemma_two_digits_inverse(ts.hour as int);
    lemma_two_digits_inverse(ts.minute as int);
    lemma_two_digits_inverse(ts.second as int);
    assert(d =~= seq![y[0], y[1], y[2], y[3], DOT, mo[0], mo[1], DOT, da[0], da[1]]);
    assert(t =~= seq![h[0], h[1], COLON, mi[0], mi[1], COLON, se[0], se[1]]);
    assert(spec_four_digit_value(d, 0) == ts.year as int);
    assert(spec_two_digit_value(d, 5) == ts.month as int);
    assert(spec_two_digit_value(d, 8) == ts.day as int);
    assert(spec_two_digit_value(t, 0) == ts.hour as int);
    assert(spec_two_digit_value(t, 3) == ts.minute as int);
    assert(spec_two_digit_value(t, 6) == ts.second as int);
}

/// A formatted temperature parses back to the same tenths value, under
/// either decimal separator.
pub proof fn lemma_parse_temp_inverse(t: int, sep: u8)
    requires
        -32768 <= t <= 32767,
        sep == DOT || sep == COMMA,
    ensures
        spec_parse_temp(spec_temp_bytes_sep(t, sep)) == Some(t),
{
    let a = if t < 0 {
        -t
    } else {
        t
    };
    let ip = spec_dec_digits((a / 10) as nat);
    let fd = (DIGIT_0 + a % 10) as u8;
    let s = spec_temp_bytes_sep(t, sep);
    lemma_dec_digits_are_digits((a / 10) as nat);
    lemma_dec_digits_value((a / 10) as nat);
    let body = ip + seq![sep, fd];
    assert(forall|j: int| 0 <= j < ip.len() ==> body[j] == ip[j]);
    assert(body[ip.len() as int] == sep);
    assert(body[ip.len() as int + 1] == fd);
    if t < 0 {
        assert(s =~= seq![DASH] + body);
        assert(s[0] == DASH);
        assert(s.skip(1) =~= body);
    } else {
        assert(s =~= body);
        assert(s[0] == ip[0]);
        assert(DIGIT_0 <= ip[0] <= 57);
    }
    lemma_find_dec_sep(body);
    match spec_find_dec_sep(body) {
        Option::None => {
            assert(body[ip.len() as int] == DOT || body[ip.len() as int] == COMMA);
            assert(false);
        },
        Option::Some(i) => {
            if i < ip.len() {
                assert(DIGIT_0 <= body[i] <= 57);
                assert(false);
            } else if i > ip.len() {
                assert(!(body[ip.len() as int] == DOT || body[ip.len() as int] == COMMA));
                assert(false);
            }
        },
    }
    assert(spec_find_dec_sep(body) == Some(ip.len() as int));
    assert(body.take(ip.len() as int) =~= ip);
    assert(body.skip(ip.len() as int + 1) =~= seq![fd]);
    let fp = seq![fd];
    assert(spec_digits_in(fp, 0, 1));
    assert(spec_digits_value(ip) == a / 10);
    assert(fp[0] - DIGIT_0 == a % 10);
    assert((a / 10) * 10 + a % 10 == a);
    assert(spec_temp_value(t < 0, ip, fp) == Some(t));
}

/// A formatted humidity parses back to the same value.
pub proof fn lemma_parse_hum_inverse(h: int)
    requires
        0 <= h <= 255,
    ensures
        spec_parse_hum(spec_hum_bytes(h)) == Some(h as u8),
{
    let s = spec_hum_bytes(h);
    lemma_dec_digits_are_digits(h as nat);
    lemma_dec_digits_value(h as nat);
    assert(DIGIT_0 <= s[0] <= 57);
}

/// Whether a byte can stand inside a field of a row: not a line ending and
/// not one of the two delimiters.
pub open spec fn spec_field_byte(b: u8) -> bool {
    b != LF && b != CR && b != COMMA && b != SEMICOLON
}

/// A timestamp image holds only field bytes.
proof fn lemma_timestamp_bytes_clean(ts: Timestamp)
    requires
        ts.wf(),
    ensures
        spec_timestamp_bytes(ts).len() == 19,
        forall|i: int| 0 <= i < 19 ==> spec_field_byte(#[trigger] spec_timestamp_bytes(ts)[i]),
{
    let s = spec_timestamp_bytes(ts);
    let y = spec_four_digits(ts.year as int);
    let mo = spec_two_digits(ts.month as int);
    let d = spec_two_digits(ts.day as int);
    let h = spec_two_digits(ts.hour as int);
    let mi = spec_two_digits(ts.minute as int);
    let se = spec_two_digits(ts.second as int);
    lemma_four_digits_inverse(ts.year as int);
    lemma_two_digits_inverse(ts.month as int);
    lemma_two_digits_inverse(ts.day as int);
    lemma_two_digits_inverse(ts.hour as int);
    lemma_two_digits_inverse(ts.minute as int);
    lemma_two_digits_inverse(ts.second as int);
    assert(s =~= seq![
        y[0], y[1], y[2], y[3], DASH, mo[0], mo[1], DASH, d[0], d[1], UPPER_T, h[0], h[1],
        COLON, mi[0], mi[1], COLON, se[0], se[1],
    ]);
}

/// A temperature image holds only digits, at most one leading minus, and
/// its separator; under a dot separator every byte is a field byte, and
/// the separator position carries the separator.
proof fn lemma_temp_bytes_clean(t: int, sep: u8)
    requires
        -32768 <= t <= 32767,
        sep == DOT || sep == COMMA,
    ensures
        spec_temp_bytes_sep(t, sep).len() >= 3,
        forall|i: int| 0 <= i < spec_temp_bytes_sep(t, sep).len()
            ==> (spec_field_byte(#[trigger] spec_temp_bytes_sep(t, sep)[i])
                || spec_temp_bytes_sep(t, sep)[i] == sep),
        exists|k: int| 0 <= k < spec_temp_bytes_sep(t, sep).len()
            && spec_temp_bytes_sep(t, sep)[k] == sep,
        spec_temp_bytes_sep(t, sep)[spec_temp_bytes_sep(t, sep).len() - 1] != CR,
        spec_temp_bytes_sep(t, sep)[spec_temp_bytes_sep(t, sep).len() - 1] != LF,
{
    let a = if t < 0 {
        -t
    } else {
        t
    };
    let ip = spec_dec_digits((a / 10) as nat);
    let fd = (DIGIT_0 + a % 10) as u8;
    let s = spec_temp_bytes_sep(t, sep);
    lemma_dec_digits_are_digits((a / 10) as nat);
    if t < 0 {
        assert(s =~= seq![DASH] + ip + seq![sep, fd]);
        assert(forall|i: int| 1 <= i < 1 + ip.len() ==> s[i] == ip[i - 1]);
        assert(s[1 + ip.len() as int] == sep);
        assert(s[s.len() - 1] == fd);
    } else {
        assert(s =~= ip + seq![sep, fd]);
        assert(forall|i: int| 0 <= i < ip.len() ==> s[i] == ip[i]);
        assert(s[ip.len() as int] == sep);
        assert(s[s.len() - 1] == fd);
    }
}

/// A humidity image holds only digits.
proof fn lemma_hum_bytes_clean(h: int)
    requires
        0 <= h <= 255,
    ensures
        spec_hum_bytes(h).len() >= 1,
        forall|i: int| 0 <= i < spec_hum_bytes(h).len()
            ==> DIGIT_0 <= #[trigger] spec_hum_bytes(h)[i] <= 57,
{
    lemma_dec_digits_are_digits(h as nat);
}

/// Splitting at a separator the string contains yields at least two pieces.
proof fn lemma_contains_sep_split(s: Seq<u8>, sep: u8, k: int)
    requires
        0 <= k < s.len(),
        s[k] == sep,
    ensures
        spec_split(s, sep).len() >= 2,
    decreases s.len(),
{
    if s[0] == sep {
        lemma_split_nonempty(s.skip(1), sep);
    } else {
        assert(k >= 1);
        assert(s.skip(1)[k - 1] == sep);
        lemma_contains_sep_split(s.skip(1), sep, k - 1);
    }
}

/// One current-format row without its line feed.
pub open spec fn spec_row_body(p: HistoryPoint) -> Seq<u8> {
    spec_timestamp_bytes(p.timestamp) + seq![COMMA] + spec_temp_bytes(p.temp_deci as int)
        + seq![COMMA] + spec_hum_bytes(p.hum as int)
}

/// The field images of one current-format row.
pub open spec fn spec_row_fields(p: HistoryPoint) -> Seq<Seq<u8>> {
    seq![
        spec_timestamp_bytes(p.timestamp),
        spec_temp_bytes(p.temp_deci as int),
        spec_hum_bytes(p.hum as int),
    ]
}

/// A written row splits into its three fields, which parse back to the
/// point; the row body holds no line ending.
proof fn lemma_row_round_trip(p: HistoryPoint)
    requires
        p.wf(),
    ensures
        spec_row(p.timestamp, p.temp_deci as int, p.hum as int) == spec_row_body(p) + seq![LF],
        spec_row_body(p).len() > 0,
        forall|i: int| 0 <= i < spec_row_body(p).len()
            ==> #[trigger] spec_row_body(p)[i] != LF && spec_row_body(p)[i] != CR,
        spec_split(spec_row_body(p), COMMA) == spec_row_fields(p),
        spec_parse_record(spec_row_fields(p)) == Some(p),
{
    let tsb = spec_timestamp_bytes(p.timestamp);
    let teb = spec_temp_bytes(p.temp_deci as int);
    let hub = spec_hum_bytes(p.hum as int);
    let body = spec_row_body(p);
    lemma_timestamp_bytes_clean(p.timestamp);
    lemma_temp_bytes_clean(p.temp_deci as int, DOT);
    lemma_hum_bytes_clean(p.hum as int);
    assert(spec_row(p.timestamp, p.temp_deci as int, p.hum as int) =~= body + seq![LF]);
    // The split walks the two commas.
    assert(body =~= tsb + seq![COMMA] + (teb + seq![COMMA] + hub));
    lemma_split_append(tsb, teb + seq![COMMA] + hub, COMMA);
    lemma_split_append(teb, hub, COMMA);
    assert(forall|i: int| 0 <= i < teb.len() ==> #[trigger] teb[i] != COMMA);
    assert(forall|i: int| 0 <= i < hub.len() ==> #[trigger] hub[i] != COMMA);
    lemma_split_no_sep(hub, COMMA);
    assert(spec_split(body, COMMA) =~= spec_row_fields(p));
    // The fields parse back.
    lemma_parse_timestamp_inverse(p.timestamp);
    lemma_parse_temp_inverse(p.temp_deci as int, DOT);
    lemma_parse_hum_inverse(p.hum as int);
    // No line endings inside the body.
    assert(forall|i: int| 0 <= i < body.len() ==> #[trigger] body[i] != LF && body[i] != CR);
}

/// The bytes of consecutive current-format rows.
pub open spec fn spec_rows_bytes(pts: Seq<HistoryPoint>) -> Seq<u8>
    decreases pts.len(),
{
    if pts.len() == 0 {
        Seq::empty()
    } else {
        spec_row(pts[0].timestamp, pts[0].temp_deci as int, pts[0].hum as int)
            + spec_rows_bytes(pts.skip(1))
    }
}

/// A freshly written log: the header row, then one row per point.
pub open spec fn spec_log_bytes(pts: Seq<HistoryPoint>) -> Seq<u8> {
    spec_header() + spec_rows_bytes(pts)
}

/// The row bodies of consecutive points.
spec fn spec_row_bodies(pts: Seq<HistoryPoint>) -> Seq<Seq<u8>>
    decreases pts.len(),
{
    if pts.len() == 0 {
        Seq::empty()
    } else {
        seq![spec_row_body(pts[0])] + spec_row_bodies(pts.skip(1))
    }
}

/// Row bytes split at line feeds into the row bodies and a final empty
/// piece.
proof fn lemma_rows_bytes_lines(pts: Seq<HistoryPoint>)
    requires
        forall|i: int| 0 <= i < pts.len() ==> (#[trigger] pts[i]).wf(),
    ensures
        spec_split(spec_rows_bytes(pts), LF) == spec_row_bodies(pts) + seq![Seq::<u8>::empty()],
        spec_clean_lines(spec_row_bodies(pts)) == spec_row_bodies(pts),
    decreases pts.len(),
{
    if pts.len() == 0 {
        assert(spec_split(spec_rows_bytes(pts), LF) =~= spec_row_bodies(pts)
            + seq![Seq::<u8>::empty()]);
        assert(spec_clean_lines(spec_row_bodies(pts)) =~= spec_row_bodies(pts));
    } else {
        let p = pts[0];
        let body = spec_row_body(p);
        let rest = pts.skip(1);
        lemma_row_round_trip(p);
        lemma_rows_bytes_lines(rest);
        assert(spec_rows_bytes(pts) =~= body + seq![LF] + spec_rows_bytes(rest));
        lemma_split_append(body, spec_rows_bytes(rest), LF);
        assert(spec_split(spec_rows_bytes(pts), LF) =~= spec_row_bodies(pts)
            + seq![Seq::<u8>::empty()]);
        // Cleaning keeps every body: nonempty, no trailing carriage return.
        let bodies = spec_row_bodies(pts);
        assert(bodies[0] == body);
        assert(spec_strip_cr(body) == body);
        assert(bodies.skip(1) =~= spec_row_bodies(rest));
        assert(spec_clean_lines(bodies) =~= bodies);
    }
}

/// The header line splits into its three column names, and none of its
/// bytes is a line ending or a semicolon.
proof fn lemma_header_line_facts()
    ensures
        spec_split(spec_header_line(), COMMA).len() == 3,
        forall|i: int| 0 <= i < spec_header_line().len()
            ==> #[trigger] spec_header_line()[i] != LF && spec_header_line()[i] != CR,
        spec_header_line().len() > 0,
{
    let f1 = spec_header_field_datetime();
    let f2 = spec_header_field_temperature();
    let f3 = spec_header_field_humidity();
    let line = spec_header_line();
    assert(forall|i: int| 0 <= i < f1.len() ==> #[trigger] f1[i] != COMMA);
    assert(forall|i: int| 0 <= i < f2.len() ==> #[trigger] f2[i] != COMMA);
    assert(forall|i: int| 0 <= i < f3.len() ==> #[trigger] f3[i] != COMMA);
    assert(line =~= f1 + seq![COMMA] + (f2 + seq![COMMA] + f3));
    lemma_split_append(f1, f2 + seq![COMMA] + f3, COMMA);
    lemma_split_append(f2, f3, COMMA);
    lemma_split_no_sep(f3, COMMA);
    assert(spec_split(line, COMMA) == seq![f1] + (seq![f2] + seq![f3]));
    assert((seq![f1] + (seq![f2] + seq![f3])).len() == 3);
}

/// The records of a freshly written log are exactly the written rows'
/// fields.
proof fn lemma_log_records(pts: Seq<HistoryPoint>)
    requires
        forall|i: int| 0 <= i < pts.len() ==> (#[trigger] pts[i]).wf(),
    ensures
        spec_lines(spec_log_bytes(pts)) == seq![spec_header_line()] + spec_row_bodies(pts),
        spec_records(spec_log_bytes(pts), COMMA) == spec_keep_matching(
            spec_row_bodies(pts),
            COMMA,
            3,
        ),
        spec_keep_matching(spec_row_bodies(pts), COMMA, 3) == pts.map_values(
            |p: HistoryPoint| spec_row_fields(p),
        ),
        spec_parsed_points(pts.map_values(|p: HistoryPoint| spec_row_fields(p))) == pts,
{
    let log = spec_log_bytes(pts);
    lemma_header_line_facts();
    lemma_rows_bytes_lines(pts);
    assert(log =~= spec_header_line() + seq![LF] + spec_rows_bytes(pts));
    lemma_split_append(spec_header_line(), spec_rows_bytes(pts), LF);
    let raw = spec_split(log, LF);
    assert(raw == seq![spec_header_line()] + (spec_row_bodies(pts) + seq![Seq::<u8>::empty()]));
    // Clean: the header line stays, the bodies stay, the final empty piece
    // goes.
    assert(raw =~= seq![spec_header_line()] + spec_row_bodies(pts) + seq![Seq::<u8>::empty()]);
    lemma_clean_lines_add(seq![spec_header_line()] + spec_row_bodies(pts),
        seq![Seq::<u8>::empty()]);
    assert(seq![Seq::<u8>::empty()].skip(1) =~= Seq::<Seq<u8>>::empty());
    assert(spec_clean_lines(Seq::<Seq<u8>>::empty()) == Seq::<Seq<u8>>::empty());
    assert(spec_strip_cr(Seq::<u8>::empty()) == Seq::<u8>::empty());
    assert(spec_clean_lines(seq![Seq::<u8>::empty()]) =~= Seq::<Seq<u8>>::empty());
    lemma_clean_lines_add(seq![spec_header_line()], spec_row_bodies(pts));
    assert(spec_strip_cr(spec_header_line()) == spec_header_line());
    assert(seq![spec_header_line()].skip(1) =~= Seq::<Seq<u8>>::empty());
    assert(spec_clean_lines(seq![spec_header_line()]) =~= seq![spec_header_line()]);
    assert(spec_lines(log) =~= seq![spec_header_line()] + spec_row_bodies(pts));
    // Records: the header has three columns, and every row keeps its three
    // fields.
    let ls = spec_lines(log);
    assert(ls[0] == spec_header_line());
    assert(ls.skip(1) =~= spec_row_bodies(pts));
    lemma_keep_rows(pts);
    lemma_parse_rows(pts);
}

/// Every written row body yields its three fields under the header's
/// column count.
proof fn lemma_keep_rows(pts: Seq<HistoryPoint>)
    requires
        forall|i: int| 0 <= i < pts.len() ==> (#[trigger] pts[i]).wf(),
    ensures
        spec_keep_matching(spec_row_bodies(pts), COMMA, 3) == pts.map_values(
            |p: HistoryPoint| spec_row_fields(p),
        ),
    decreases pts.len(),
{
    let f = |p: HistoryPoint| spec_row_fields(p);
    if pts.len() == 0 {
        assert(spec_keep_matching(spec_row_bodies(pts), COMMA, 3) =~= pts.map_values(f));
    } else {
        lemma_row_round_trip(pts[0]);
        lemma_keep_rows(pts.skip(1));
        let bodies = spec_row_bodies(pts);
        assert(bodies[0] == spec_row_body(pts[0]));
        assert(bodies.skip(1) =~= spec_row_bodies(pts.skip(1)));
        assert(spec_split(bodies[0], COMMA).len() == 3);
        assert(spec_keep_matching(bodies, COMMA, 3) =~= pts.map_values(f));
    }
}

/// The written rows' fields parse back to the written points.
proof fn lemma_parse_rows(pts: Seq<HistoryPoint>)
    requires
        forall|i: int| 0 <= i < pts.len() ==> (#[trigger] pts[i]).wf(),
    ensures
        spec_parsed_points(pts.map_values(|p: HistoryPoint| spec_row_fields(p))) == pts,
    decreases pts.len(),
{
    let f = |p: HistoryPoint| spec_row_fields(p);
    if pts.len() == 0 {
        assert(spec_parsed_points(pts.map_values(f)) =~= pts);
    } else {
        lemma_row_round_trip(pts[0]);
        lemma_parse_rows(pts.skip(1));
        let recs = pts.map_values(f);
        assert(recs[0] == spec_row_fields(pts[0]));
        assert(recs.skip(1) =~= pts.skip(1).map_values(f));
        assert(spec_parsed_points(recs) =~= pts);
    }
}

/// Round trip: loading a freshly written log with an unbounded history
/// yields exactly the written points, in order.
pub proof fn lemma_log_round_trip(pts: Seq<HistoryPoint>)
    requires
        forall|i: int| 0 <= i < pts.len() ==> (#[trigger] pts[i]).wf(),
    ensures
        spec_load_history(spec_log_bytes(pts), true) == pts,
{
    let log = spec_log_bytes(pts);
    lemma_log_records(pts);
    if pts.len() == 0 {
        // The comma pass yields no records, so the loader retries with a
        // semicolon; a log of bare header has none either way.
        lemma_header_line_facts();
        assert(spec_lines(log) == seq![spec_header_line()] + spec_row_bodies(pts));
        assert(spec_row_bodies(pts) =~= Seq::<Seq<u8>>::empty());
        assert(spec_lines(log).skip(1) =~= Seq::<Seq<u8>>::empty());
        assert(spec_records(log, SEMICOLON) =~= Seq::<Seq<Seq<u8>>>::empty());
        assert(spec_load_history(log, true) =~= pts);
    } else {
        assert(pts.map_values(|p: HistoryPoint| spec_row_fields(p)).len() == pts.len());
        assert(spec_records(log, COMMA).len() > 0);
    }
}

// --- The legacy layout reads back too ---

/// `Date`
pub open spec fn spec_legacy_field_date() -> Seq<u8> {
    seq![68u8, 97u8, 116u8, 101u8]
}

/// `Time`
pub open spec fn spec_legacy_field_time() -> Seq<u8> {
    seq![84u8, 105u8, 109u8, 101u8]
}

/// `Temp`
pub open spec fn spec_legacy_field_temp() -> Seq<u8> {
    seq![84u8, 101u8, 109u8, 112u8]
}

/// `Hum`
pub open spec fn spec_legacy_field_hum() -> Seq<u8> {
    seq![72u8, 117u8, 109u8]
}

/// The legacy header line `Date;Time;Temp;Hum`.
pub open spec fn spec_legacy_header_line() -> Seq<u8> {
    spec_legacy_field_date() + seq![SEMICOLON] + spec_legacy_field_time() + seq![SEMICOLON]
        + spec_legacy_field_temp() + seq![SEMICOLON] + spec_legacy_field_hum()
}

/// One legacy row without its line feed: four semicolon-delimited columns,
/// the temperature with a comma decimal.
pub open spec fn spec_legacy_row_body(p: HistoryPoint) -> Seq<u8> {
    spec_legacy_date_bytes(p.timestamp) + seq![SEMICOLON] + spec_legacy_time_bytes(p.timestamp)
        + seq![SEMICOLON] + spec_temp_bytes_sep(p.temp_deci as int, COMMA) + seq![SEMICOLON]
        + spec_hum_bytes(p.hum as int)
}

/// The field images of one legacy row.
pub open spec fn spec_legacy_row_fields(p: HistoryPoint) -> Seq<Seq<u8>> {
    seq![
        spec_legacy_date_bytes(p.timestamp),
        spec_legacy_time_bytes(p.timestamp),
        spec_temp_bytes_sep(p.temp_deci as int, COMMA),
        spec_hum_bytes(p.hum as int),
    ]
}

/// The bytes of consecutive legacy rows.
pub open spec fn spec_legacy_rows_bytes(pts: Seq<HistoryPoint>) -> Seq<u8>
    decreases pts.len(),
{
    if pts.len() == 0 {
        Seq::empty()
    } else {
        spec_legacy_row_body(pts[0]) + seq![LF] + spec_legacy_rows_bytes(pts.skip(1))
    }
}

/// A legacy log file: the legacy header line, then one legacy row per
/// point.
pub open spec fn spec_legacy_log_bytes(pts: Seq<HistoryPoint>) -> Seq<u8> {
    spec_legacy_header_line() + seq![LF] + spec_legacy_rows_bytes(pts)
}

/// The legacy date and time images hold only field bytes.
proof fn lemma_legacy_timestamp_bytes_clean(ts: Timestamp)
    requires
        ts.wf(),
    ensures
        spec_legacy_date_bytes(ts).len() == 10,
        forall|i: int| 0 <= i < 10 ==> spec_field_byte(#[trigger] spec_legacy_date_bytes(ts)[i]),
        spec_legacy_time_bytes(ts).len() == 8,
        forall|i: int| 0 <= i < 8 ==> spec_field_byte(#[trigger] spec_legacy_time_bytes(ts)[i]),
{
    let d = spec_legacy_date_bytes(ts);
    let t = spec_legacy_time_bytes(ts);
    let y = spec_four_digits(ts.year as int);
    let mo = spec_two_digits(ts.month as int);
    let da = spec_two_digits(ts.day as int);
    let h = spec_two_digits(ts.hour as int);
    let mi = spec_two_digits(ts.minute as int);
    let se = spec_two_digits(ts.second as int);
    lemma_four_digits_inverse(ts.year as int);
    lemma_two_digits_inverse(ts.month as int);
    lemma_two_digits_inverse(ts.day as int);
    lemma_two_digits_inverse(ts.hour as int);
    lemma_two_digits_inverse(ts.minute as int);
    lemma_two_digits_inverse(ts.second as int);
    assert(d =~= seq![y[0], y[1], y[2], y[3], DOT, mo[0], mo[1], DOT, da[0], da[1]]);
    assert(t =~= seq![h[0], h[1], COLON, mi[0], mi[1], COLON, se[0], se[1]]);
}

/// A legacy row splits at semicolons into its four fields, splits at
/// commas into more than one piece, holds no line ending, and its fields
/// parse back to the point.
proof fn lemma_legacy_row_facts(p: HistoryPoint)
    requires
        p.wf(),
    ensures
        spec_legacy_row_body(p).len() > 0,
        forall|i: int| 0 <= i < spec_legacy_row_body(p).len()
            ==> #[trigger] spec_legacy_row_body(p)[i] != LF && spec_legacy_row_body(p)[i] != CR,
        spec_split(spec_legacy_row_body(p), SEMICOLON) == spec_legacy_row_fields(p),
        spec_split(spec_legacy_row_body(p), COMMA).len() >= 2,
        spec_parse_record(spec_legacy_row_fields(p)) == Some(p),
{
    let da = spec_legacy_date_bytes(p.timestamp);
    let ti = spec_legacy_time_bytes(p.timestamp);
    let te = spec_temp_bytes_sep(p.temp_deci as int, COMMA);
    let hu = spec_hum_bytes(p.hum as int);
    let body = spec_legacy_row_body(p);
    lemma_legacy_timestamp_bytes_clean(p.timestamp);
    lemma_temp_bytes_clean(p.temp_deci as int, COMMA);
    lemma_hum_bytes_clean(p.hum as int);
    // Semicolon split: none of the four fields holds a semicolon.
    assert(body =~= da + seq![SEMICOLON] + (ti + seq![SEMICOLON] + (te + seq![SEMICOLON] + hu)));
    lemma_split_append(da, ti + seq![SEMICOLON] + (te + seq![SEMICOLON] + hu), SEMICOLON);
    lemma_split_append(ti, te + seq![SEMICOLON] + hu, SEMICOLON);
    lemma_split_append(te, hu, SEMICOLON);
    lemma_split_no_sep(hu, SEMICOLON);
    assert(spec_split(body, SEMICOLON) =~= spec_legacy_row_fields(p));
    // Comma split: the temperature column carries a comma decimal.
    let k: int = choose|k: int| 0 <= k < te.len() && te[k] == COMMA;
    assert(body[da.len() + 1 + ti.len() + 1 + k] == te[k]);
    lemma_contains_sep_split(body, COMMA, da.len() + 1 + ti.len() + 1 + k);
    // The fields parse back, through the legacy branch: the date column is
    // too short for the current-format timestamp.
    lemma_parse_legacy_timestamp_inverse(p.timestamp);
    lemma_parse_temp_inverse(p.temp_deci as int, COMMA);
    lemma_parse_hum_inverse(p.hum as int);
    let r = spec_legacy_row_fields(p);
    assert(r[0].len() == 10);
    assert(spec_parse_timestamp(r[0]) is None);
    assert(spec_parse_record(r) == Some(p));
    // No line endings inside the body.
    assert(forall|i: int| 0 <= i < body.len() ==> #[trigger] body[i] != LF && body[i] != CR);
}

/// The legacy header line splits at semicolons into its four column names
/// and holds no comma and no line ending.
proof fn lemma_legacy_header_facts()
    ensures
        spec_legacy_header_line().len() > 0,
        forall|i: int| 0 <= i < spec_legacy_header_line().len()
            ==> #[trigger] spec_legacy_header_line()[i] != LF
                && spec_legacy_header_line()[i] != CR,
        spec_split(spec_legacy_header_line(), SEMICOLON).len() == 4,
        spec_split(spec_legacy_header_line(), COMMA).len() == 1,
{
    let f1 = spec_legacy_field_date();
    let f2 = spec_legacy_field_time();
    let f3 = spec_legacy_field_temp();
    let f4 = spec_legacy_field_hum();
    let line = spec_legacy_header_line();
    assert(line =~= f1 + seq![SEMICOLON] + (f2 + seq![SEMICOLON] + (f3 + seq![SEMICOLON]
        + f4)));
    lemma_split_append(f1, f2 + seq![SEMICOLON] + (f3 + seq![SEMICOLON] + f4), SEMICOLON);
    lemma_split_append(f2, f3 + seq![SEMICOLON] + f4, SEMICOLON);
    lemma_split_append(f3, f4, SEMICOLON);
    lemma_split_no_sep(f4, SEMICOLON);
    assert(spec_split(line, SEMICOLON).len() == 4);
    assert(forall|i: int| 0 <= i < line.len() ==> #[trigger] line[i] != COMMA);
    lemma_split_no_sep(line, COMMA);
}

/// The row bodies of consecutive legacy rows.
spec fn spec_legacy_row_bodies(pts: Seq<HistoryPoint>) -> Seq<Seq<u8>>
    decreases pts.len(),
{
    if pts.len() == 0 {
        Seq::empty()
    } else {
        seq![spec_legacy_row_body(pts[0])] + spec_legacy_row_bodies(pts.skip(1))
    }
}

/// Legacy row bytes split at line feeds into the row bodies and a final
/// empty piece, and cleaning keeps every body.
proof fn lemma_legacy_rows_lines(pts: Seq<HistoryPoint>)
    requires
        forall|i: int| 0 <= i < pts.len() ==> (#[trigger] pts[i]).wf(),
    ensures
        spec_split(spec_legacy_rows_bytes(pts), LF) == spec_legacy_row_bodies(pts)
            + seq![Seq::<u8>::empty()],
        spec_clean_lines(spec_legacy_row_bodies(pts)) == spec_legacy_row_bodies(pts),
    decreases pts.len(),
{
    if pts.len() == 0 {
        assert(spec_split(spec_legacy_rows_bytes(pts), LF) =~= spec_legacy_row_bodies(pts)
            + seq![Seq::<u8>::empty()]);
        assert(spec_clean_lines(spec_legacy_row_bodies(pts)) =~= spec_legacy_row_bodies(pts));
    } else {
        let body = spec_legacy_row_body(pts[0]);
        let rest = pts.skip(1);
        lemma_legacy_row_facts(pts[0]);
        lemma_legacy_rows_lines(rest);
        assert(spec_legacy_rows_bytes(pts) =~= body + seq![LF] + spec_legacy_rows_bytes(rest));
        lemma_split_append(body, spec_legacy_rows_bytes(rest), LF);
        assert(spec_split(spec_legacy_rows_bytes(pts), LF) =~= spec_legacy_row_bodies(pts)
            + seq![Seq::<u8>::empty()]);
        let bodies = spec_legacy_row_bodies(pts);
        assert(bodies[0] == body);
        assert(spec_strip_cr(body) == body);
        assert(bodies.skip(1) =~= spec_legacy_row_bodies(rest));
        assert(spec_clean_lines(bodies) =~= bodies);
    }
}

/// Under a comma no legacy row matches the one-column header, so none is
/// kept.
proof fn lemma_legacy_keep_comma(pts: Seq<HistoryPoint>)
    requires
        forall|i: int| 0 <= i < pts.len() ==> (#[trigger] pts[i]).wf(),
    ensures
        spec_keep_matching(spec_legacy_row_bodies(pts), COMMA, 1) == Seq::<Seq<Seq<u8>>>::empty(),
    decreases pts.len(),
{
    if pts.len() == 0 {
        assert(spec_keep_matching(spec_legacy_row_bodies(pts), COMMA, 1)
            =~= Seq::<Seq<Seq<u8>>>::empty());
    } else {
        lemma_legacy_row_facts(pts[0]);
        lemma_legacy_keep_comma(pts.skip(1));
        let bodies = spec_legacy_row_bodies(pts);
        assert(bodies[0] == spec_legacy_row_body(pts[0]));
        assert(bodies.skip(1) =~= spec_legacy_row_bodies(pts.skip(1)));
        assert(spec_keep_matching(bodies, COMMA, 1) =~= Seq::<Seq<Seq<u8>>>::empty());
    }
}

/// Under a semicolon every legacy row keeps its four fields.
proof fn lemma_legacy_keep_semi(pts: Seq<HistoryPoint>)
    requires
        forall|i: int| 0 <= i < pts.len() ==> (#[trigger] pts[i]).wf(),
    ensures
        spec_keep_matching(spec_legacy_row_bodies(pts), SEMICOLON, 4) == pts.map_values(
            |p: HistoryPoint| spec_legacy_row_fields(p),
        ),
    decreases pts.len(),
{
    let f = |p: HistoryPoint| spec_legacy_row_fields(p);
    if pts.len() == 0 {
        assert(spec_keep_matching(spec_legacy_row_bodies(pts), SEMICOLON, 4)
            =~= pts.map_values(f));
    } else {
        lemma_legacy_row_facts(pts[0]);
        lemma_legacy_keep_semi(pts.skip(1));
        let bodies = spec_legacy_row_bodies(pts);
        assert(bodies[0] == spec_legacy_row_body(pts[0]));
        assert(bodies.skip(1) =~= spec_legacy_row_bodies(pts.skip(1)));
        assert(spec_split(bodies[0], SEMICOLON).len() == 4);
        assert(spec_keep_matching(bodies, SEMICOLON, 4) =~= pts.map_values(f));
    }
}

/// The legacy rows' fields parse back to the points.
proof fn lemma_legacy_parse_rows(pts: Seq<HistoryPoint>)
    requires
        forall|i: int| 0 <= i < pts.len() ==> (#[trigger] pts[i]).wf(),
    ensures
        spec_parsed_points(pts.map_values(|p: HistoryPoint| spec_legacy_row_fields(p))) == pts,
    decreases pts.len(),
{
    let f = |p: HistoryPoint| spec_legacy_row_fields(p);
    if pts.len() == 0 {
        assert(spec_parsed_points(pts.map_values(f)) =~= pts);
    } else {
        lemma_legacy_row_facts(pts[0]);
        lemma_legacy_parse_rows(pts.skip(1));
        let recs = pts.map_values(f);
        assert(recs[0] == spec_legacy_row_fields(pts[0]));
        assert(recs.skip(1) =~= pts.skip(1).map_values(f));
        assert(spec_parsed_points(recs) =~= pts);
    }
}

/// Legacy fallback: on a legacy log the comma pass yields zero records, and
/// the loader's semicolon retry then parses every legacy row.
pub proof fn lemma_legacy_round_trip(pts: Seq<HistoryPoint>)
    requires
        forall|i: int| 0 <= i < pts.len() ==> (#[trigger] pts[i]).wf(),
    ensures
        spec_records(spec_legacy_log_bytes(pts), COMMA) == Seq::<Seq<Seq<u8>>>::empty(),
        spec_load_history(spec_legacy_log_bytes(pts), true) == pts,
{
    let log = spec_legacy_log_bytes(pts);
    lemma_legacy_header_facts();
    lemma_legacy_rows_lines(pts);
    assert(log =~= spec_legacy_header_line() + seq![LF] + spec_legacy_rows_bytes(pts));
    lemma_split_append(spec_legacy_header_line(), spec_legacy_rows_bytes(pts), LF);
    let raw = spec_split(log, LF);
    assert(raw =~= seq![spec_legacy_header_line()] + spec_legacy_row_bodies(pts)
        + seq![Seq::<u8>::empty()]);
    lemma_clean_lines_add(seq![spec_legacy_header_line()] + spec_legacy_row_bodies(pts),
        seq![Seq::<u8>::empty()]);
    assert(seq![Seq::<u8>::empty()].skip(1) =~= Seq::<Seq<u8>>::empty());
    assert(spec_clean_lines(Seq::<Seq<u8>>::empty()) == Seq::<Seq<u8>>::empty());
    assert(spec_strip_cr(Seq::<u8>::empty()) == Seq::<u8>::empty());
    assert(spec_clean_lines(seq![Seq::<u8>::empty()]) =~= Seq::<Seq<u8>>::empty());
    lemma_clean_lines_add(seq![spec_legacy_header_line()], spec_legacy_row_bodies(pts));
    assert(spec_strip_cr(spec_legacy_header_line()) == spec_legacy_header_line());
    assert(seq![spec_legacy_header_line()].skip(1) =~= Seq::<Seq<u8>>::empty());
    assert(spec_clean_lines(seq![spec_legacy_header_line()])
        =~= seq![spec_legacy_header_line()]);
    assert(spec_lines(log) =~= seq![spec_legacy_header_line()] + spec_legacy_row_bodies(pts));
    let ls = spec_lines(log);
    assert(ls[0] == spec_legacy_header_line());
    assert(ls.skip(1) =~= spec_legacy_row_bodies(pts));
    lemma_legacy_keep_comma(pts);
    assert(spec_records(log, COMMA) == Seq::<Seq<Seq<u8>>>::empty());
    lemma_legacy_keep_semi(pts);
    lemma_legacy_parse_rows(pts);
    assert(spec_records(log, SEMICOLON) == pts.map_values(
        |p: HistoryPoint| spec_legacy_row_fields(p),
    ));
    assert(spec_load_history(log, true) == pts);
}

/// Bounded load: loading a freshly written log with a bounded history
/// keeps exactly the most recent points, the oldest discarded.
pub proof fn lemma_log_bounded_load(pts: Seq<HistoryPoint>)
    requires
        forall|i: int| 0 <= i < pts.len() ==> (#[trigger] pts[i]).wf(),
    ensures
        spec_load_history(spec_log_bytes(pts), false) == if pts.len()
            <= crate::MAX_HISTORY_POINTS as int {
            pts
        } else {
            pts.skip(pts.len() - crate::MAX_HISTORY_POINTS as int)
        },
{
    let log = spec_log_bytes(pts);
    lemma_log_records(pts);
    if pts.len() == 0 {
        lemma_header_line_facts();
        assert(spec_row_bodies(pts) =~= Seq::<Seq<u8>>::empty());
        assert(spec_lines(log).skip(1) =~= Seq::<Seq<u8>>::empty());
        assert(spec_records(log, SEMICOLON) =~= Seq::<Seq<Seq<u8>>>::empty());
        assert(spec_load_history(log, false) =~= pts);
    } else {
        assert(pts.map_values(|p: HistoryPoint| spec_row_fields(p)).len() == pts.len());
        assert(spec_records(log, COMMA).len() > 0);
    }
}

} // verus!
