//! The dump parser: bulk-insert text in, validated range records out.
//!
//! The input starts with a fixed-size preamble of boilerplate lines. The rest
//! is one or more insert statements; each carries a list of tuple literals
//! `(id,is_ipv6,'start','end','country','region','city')`, and a single
//! logical tuple may wrap across raw lines. So the parser first drops the
//! preamble, then removes every line break, then scans the flattened text
//! with an explicit token grammar: after each `VALUES` keyword, tuples of
//! number and quoted-string tokens, separated by commas, closed by `;`.
//! Quoted text takes commas and blanks literally; no escape exists, so a
//! value ends at the next quote character.
//!
//! A tuple whose discard flag reads `1` is dropped. Every other tuple must
//! yield a record whose identifier fits 32 bits, whose boundary fields decode
//! as addresses, and whose range is ordered; any failure, or any text that
//! breaks the grammar, is one malformed row and ends the parse.

use vstd::prelude::*;
use crate::codec::{ip_from_chars, ip_value, valid_ip};
use crate::record::{models_of, RangeRecord, RecordModel};
use crate::text::{
    all_digits, chars_to_string, dec_val, digits_end, digits_end_from, find_char, find_char_from,
    find_pat, find_pat_from, is_digits, is_line_break, parse_u32_digits, skip_ws, skip_ws_from,
    str_to_chars, subvec,
};

verus! {

/// Lines of boilerplate before the first data row.
pub const PREAMBLE_LINES: usize = 42;

/// Failure of the parser: a tuple that does not fit the grammar or whose
/// numeric fields do not parse.
#[derive(Clone, Copy, Debug, PartialEq, Eq)]
pub enum DumpError {
    MalformedRow,
}

/// The raw text fields of one tuple, before validation.
pub ghost struct RawRow {
    pub id_text: Seq<char>,
    pub flag: Seq<char>,
    pub start_text: Seq<char>,
    pub end_text: Seq<char>,
    pub country: Seq<char>,
    pub region: Seq<char>,
    pub city: Seq<char>,
}

/// Exec carrier for one raw tuple.
struct RawRowVec {
    id_text: Vec<char>,
    flag: Vec<char>,
    start_text: Vec<char>,
    end_text: Vec<char>,
    country: Vec<char>,
    region: Vec<char>,
    city: Vec<char>,
}

impl View for RawRowVec {
    type V = RawRow;

    closed spec fn view(&self) -> RawRow {
        RawRow {
            id_text: self.id_text@,
            flag: self.flag@,
            start_text: self.start_text@,
            end_text: self.end_text@,
            country: self.country@,
            region: self.region@,
            city: self.city@,
        }
    }
}

/// Start of the text once `n` leading lines are dropped.
pub open spec fn line_start_after(s: Seq<char>, i: int, n: nat) -> int
    decreases n,
{
    if n == 0 {
        i
    } else {
        match find_char(s, '\n', i) {
            None => s.len() as int,
            Some(j) => line_start_after(s, j + 1, (n - 1) as nat),
        }
    }
}

/// The text from `i` on, with line-break characters removed.
pub open spec fn strip_breaks_from(s: Seq<char>, i: int) -> Seq<char>
    decreases s.len() - i,
{
    if i < 0 || i >= s.len() {
        Seq::empty()
    } else if is_line_break(s[i]) {
        strip_breaks_from(s, i + 1)
    } else {
        seq![s[i]] + strip_breaks_from(s, i + 1)
    }
}

/// The keyword that introduces each value list.
pub open spec fn values_kw() -> Seq<char> {
    seq!['V', 'A', 'L', 'U', 'E', 'S']
}

/// A number token at `i`: a maximal non-empty digit run and the position
/// after it.
pub open spec fn token_num(s: Seq<char>, i: int) -> Option<(Seq<char>, int)> {
    if 0 <= i <= s.len() {
        if digits_end(s, i) > i {
            Some((s.subrange(i, digits_end(s, i)), digits_end(s, i)))
        } else {
            None
        }
    } else {
        None
    }
}

/// A quoted token at `i`: its contents and the position after the closing
/// quote. No escape exists, so the contents end at the next quote character.
pub open spec fn token_quoted(s: Seq<char>, i: int) -> Option<(Seq<char>, int)> {
    if 0 <= i < s.len() && s[i] == '\'' {
        match find_char(s, '\'', i + 1) {
            None => None,
            Some(j) => Some((s.subrange(i + 1, j), j + 1)),
        }
    } else {
        None
    }
}

/// A comma between tokens, blanks allowed on both sides; the position after.
pub open spec fn after_comma(s: Seq<char>, i: int) -> Option<int> {
    if 0 <= i <= s.len() {
        if skip_ws(s, i) < s.len() && s[skip_ws(s, i)] == ',' {
            Some(skip_ws(s, skip_ws(s, i) + 1))
        } else {
            None
        }
    } else {
        None
    }
}

/// A comma followed by a quoted token.
pub open spec fn token_qfield(s: Seq<char>, i: int) -> Option<(Seq<char>, int)> {
    match after_comma(s, i) {
        None => None,
        Some(j) => token_quoted(s, j),
    }
}

/// One tuple literal: parenthesised identifier, discard flag, and five
/// quoted fields. Yields the raw row and the position after the `)`.
pub open spec fn parse_tuple(s: Seq<char>, i: int) -> Option<(RawRow, int)> {
    if !(0 <= i < s.len() && s[i] == '(') {
        None
    } else {
        match token_num(s, skip_ws(s, i + 1)) {
            None => None,
            Some((id_text, a1)) => match after_comma(s, a1) {
                None => None,
                Some(a2) => match token_num(s, a2) {
                    None => None,
                    Some((flag, a3)) => match token_qfield(s, a3) {
                        None => None,
                        Some((start_text, a4)) => match token_qfield(s, a4) {
                            None => None,
                            Some((end_text, a5)) => match token_qfield(s, a5) {
                                None => None,
                                Some((country, a6)) => match token_qfield(s, a6) {
                                    None => None,
                                    Some((region, a7)) => match token_qfield(s, a7) {
                                        None => None,
                                        Some((city, a8)) => {
                                            if skip_ws(s, a8) < s.len() && s[skip_ws(s, a8)] == ')' {
                                                Some(
                                                    (
                                                        RawRow {
                                                            id_text,
                                                            flag,
                                                            start_text,
                                                            end_text,
                                                            country,
                                                            region,
                                                            city,
                                                        },
                                                        skip_ws(s, a8) + 1,
                                                    ),
                                                )
                                            } else {
                                                None
                                            }
                                        },
                                    },
                                },
                            },
                        },
                    },
                },
            },
        }
    }
}

/// All raw rows of every statement, scanning from `i`. With `in_list` a tuple
/// is expected next; otherwise the scan seeks the next `VALUES` keyword and
/// ends quietly when none is left.
pub open spec fn rows_from(s: Seq<char>, i: int, in_list: bool) -> Option<Seq<RawRow>>
    decreases s.len() - i, (if in_list {
        0int
    } else {
        1int
    }),
{
    if !(0 <= i <= s.len()) {
        None
    } else if in_list {
        match parse_tuple(s, i) {
            None => None,
            Some((row, k)) => {
                if !(i < k && k <= skip_ws(s, k) <= s.len()) {
                    None  // unreachable: a parsed tuple advances the scan
                } else {
                    if skip_ws(s, k) == s.len() {
                        Some(seq![row])
                    } else if s[skip_ws(s, k)] == ',' {
                        if !(skip_ws(s, k) < skip_ws(s, skip_ws(s, k) + 1) <= s.len()) {
                            None  // unreachable
                        } else {
                            match rows_from(s, skip_ws(s, skip_ws(s, k) + 1), true) {
                                None => None,
                                Some(rest) => Some(seq![row] + rest),
                            }
                        }
                    } else if s[skip_ws(s, k)] == ';' {
                        match rows_from(s, skip_ws(s, k) + 1, false) {
                            None => None,
                            Some(rest) => Some(seq![row] + rest),
                        }
                    } else {
                        None
                    }
                }
            },
        }
    } else {
        match find_pat(s, values_kw(), i) {
            None => Some(Seq::empty()),
            Some(j) => {
                if !(i < skip_ws(s, j + 6) <= s.len()) {
                    None  // unreachable: the keyword advances the scan
                } else {
                    rows_from(s, skip_ws(s, j + 6), true)
                }
            },
        }
    }
}

/// The record of one raw row: nothing for a discarded row, the typed record
/// otherwise, and failure when a numeric field does not parse or the range
/// is not ordered.
pub open spec fn row_record(r: RawRow) -> Option<Option<RecordModel>> {
    if r.flag == seq!['1'] {
        Some(None)
    } else if !(r.id_text.len() > 0 && all_digits(r.id_text)) || dec_val(r.id_text) > u32::MAX {
        None
    } else if !valid_ip(r.start_text) || !valid_ip(r.end_text) {
        None
    } else if ip_value(r.start_text) > ip_value(r.end_text) {
        None
    } else {
        Some(
            Some(
                RecordModel {
                    id: dec_val(r.id_text) as u32,
                    range_start: ip_value(r.start_text),
                    range_end: ip_value(r.end_text),
                    country: r.country,
                    region: r.region,
                    city: r.city,
                },
            ),
        )
    }
}

/// Records of a row sequence: discarded rows vanish, the rest keep their
/// order, and one bad row fails the whole parse.
pub open spec fn records_of(rows: Seq<RawRow>) -> Option<Seq<RecordModel>>
    decreases rows.len(),
{
    if rows.len() == 0 {
        Some(Seq::empty())
    } else {
        match row_record(rows[0]) {
            None => None,
            Some(None) => records_of(rows.drop_first()),
            Some(Some(m)) => match records_of(rows.drop_first()) {
                None => None,
                Some(rest) => Some(seq![m] + rest),
            },
        }
    }
}

/// The whole pipeline: drop the preamble, flatten the lines, scan the
/// statements, validate every kept row.
pub open spec fn spec_parse_dump(s: Seq<char>) -> Option<Seq<RecordModel>> {
    match rows_from(strip_breaks_from(s, line_start_after(s, 0, PREAMBLE_LINES as nat)), 0, false) {
        None => None,
        Some(rows) => records_of(rows),
    }
}

fn line_start_after_exec(s: &Vec<char>, from: usize, n: usize) -> (r: usize)
    requires
        from <= s@.len(),
    ensures
        r == line_start_after(s@, from as int, n as nat),
        r <= s@.len(),
{
    let len = s.len();
    let mut i: usize = from;
    let mut m: usize = n;
    while m > 0
        invariant
            len == s@.len(),
            i <= s@.len(),
            line_start_after(s@, from as int, n as nat) == line_start_after(
                s@,
                i as int,
                m as nat,
            ),
        decreases m,
    {
        match find_char_from(s, '\n', i) {
            None => {
                proof {
                    assert(line_start_after(s@, i as int, m as nat) == s@.len());
                }
                return s.len();
            },
            Some(j) => {
                i = j + 1;
                m = m - 1;
            },
        }
    }
    i
}

fn strip_breaks_exec(s: &Vec<char>, from: usize) -> (r: Vec<char>)
    requires
        from <= s@.len(),
    ensures
        r@ == strip_breaks_from(s@, from as int),
{
    let n = s.len();
    let mut out: Vec<char> = Vec::new();
    let mut i: usize = from;
    while i < n
        invariant
            n == s@.len(),
            from <= i <= n,
            strip_breaks_from(s@, from as int) == out@ + strip_breaks_from(s@, i as int),
        decreases n - i,
    {
        let c = s[i];
        if c != '\n' && c != '\r' {
            out.push(c);
            proof {
                assert(out@.drop_last() + (seq![s@[i as int]] + strip_breaks_from(
                    s@,
                    i + 1,
                )) =~= out@ + strip_breaks_from(s@, i + 1));
            }
        }
        i = i + 1;
    }
    proof {
        assert(out@ + strip_breaks_from(s@, n as int) =~= out@);
    }
    out
}

fn token_num_exec(s: &Vec<char>, i: usize) -> (r: Option<(Vec<char>, usize)>)
    requires
        i <= s@.len(),
    ensures
        match r {
            Some((t, e)) => token_num(s@, i as int) == Some((t@, e as int)) && i < e <= s@.len(),
            None => token_num(s@, i as int) is None,
        },
{
    let e = digits_end_from(s, i);
    if e > i {
        Some((subvec(s, i, e), e))
    } else {
        None
    }
}

fn token_quoted_exec(s: &Vec<char>, i: usize) -> (r: Option<(Vec<char>, usize)>)
    requires
        i <= s@.len(),
    ensures
        match r {
            Some((t, e)) => token_quoted(s@, i as int) == Some((t@, e as int)) && i < e
                <= s@.len(),
            None => token_quoted(s@, i as int) is None,
        },
{
    if i < s.len() && s[i] == '\'' {
        match find_char_from(s, '\'', i + 1) {
            None => None,
            Some(j) => Some((subvec(s, i + 1, j), j + 1)),
        }
    } else {
        None
    }
}

fn after_comma_exec(s: &Vec<char>, i: usize) -> (r: Option<usize>)
    requires
        i <= s@.len(),
    ensures
        match r {
            Some(j) => after_comma(s@, i as int) == Some(j as int) && i < j <= s@.len(),
            None => after_comma(s@, i as int) is None,
        },
{
    let j = skip_ws_from(s, i);
    if j < s.len() && s[j] == ',' {
        Some(skip_ws_from(s, j + 1))
    } else {
        None
    }
}

fn token_qfield_exec(s: &Vec<char>, i: usize) -> (r: Option<(Vec<char>, usize)>)
    requires
        i <= s@.len(),
    ensures
        match r {
            Some((t, e)) => token_qfield(s@, i as int) == Some((t@, e as int)) && i < e
                <= s@.len(),
            None => token_qfield(s@, i as int) is None,
        },
{
    match after_comma_exec(s, i) {
        None => None,
        Some(j) => token_quoted_exec(s, j),
    }
}

fn parse_tuple_exec(s: &Vec<char>, i: usize) -> (r: Option<(RawRowVec, usize)>)
    requires
        i <= s@.len(),
    ensures
        match r {
            Some((row, k)) => parse_tuple(s@, i as int) == Some((row@, k as int)) && i < k
                <= s@.len(),
            None => parse_tuple(s@, i as int) is None,
        },
{
    if i >= s.len() || s[i] != '(' {
        return None;
    }
    let a0 = skip_ws_from(s, i + 1);
    let (id_text, a1) = match token_num_exec(s, a0) {
        None => {
            return None;
        },
        Some(x) => x,
    };
    let a2 = match after_comma_exec(s, a1) {
        None => {
            return None;
        },
        Some(x) => x,
    };
    let (flag, a3) = match token_num_exec(s, a2) {
        None => {
            return None;
        },
        Some(x) => x,
    };
    let (start_text, a4) = match token_qfield_exec(s, a3) {
        None => {
            return None;
        },
        Some(x) => x,
    };
    let (end_text, a5) = match token_qfield_exec(s, a4) {
        None => {
            return None;
        },
        Some(x) => x,
    };
    let (country, a6) = match token_qfield_exec(s, a5) {
        None => {
            return None;
        },
        Some(x) => x,
    };
    let (region, a7) = match token_qfield_exec(s, a6) {
        None => {
            return None;
        },
        Some(x) => x,
    };
    let (city, a8) = match token_qfield_exec(s, a7) {
        None => {
            return None;
        },
        Some(x) => x,
    };
    let e = skip_ws_from(s, a8);
    if e < s.len() && s[e] == ')' {
        let row = RawRowVec { id_text, flag, start_text, end_text, country, region, city };
        Some((row, e + 1))
    } else {
        None
    }
}

/// Scan the flattened text into its raw rows.
fn scan_rows(s: &Vec<char>) -> (r: Result<Vec<RawRowVec>, DumpError>)
    ensures
        match r {
            Ok(rows) => rows_from(s@, 0, false) == Some(rows@.map_values(|x: RawRowVec| x@)),
            Err(e) => rows_from(s@, 0, false) is None && e == DumpError::MalformedRow,
        },
{
    let kw: Vec<char> = vec!['V', 'A', 'L', 'U', 'E', 'S'];
    proof {
        assert(kw@ =~= values_kw());
    }
    let len = s.len();
    let mut out: Vec<RawRowVec> = Vec::new();
    let mut i: usize = 0;
    let mut in_list = false;
    loop
        invariant
            len == s@.len(),
            i <= s@.len(),
            kw@ == values_kw(),
            rows_from(s@, 0, false) == (match rows_from(s@, i as int, in_list) {
                None => None::<Seq<RawRow>>,
                Some(rest) => Some(out@.map_values(|x: RawRowVec| x@) + rest),
            }),
        decreases s@.len() - i, (if in_list {
            0int
        } else {
            1int
        }),
    {
        let ghost done = out@.map_values(|x: RawRowVec| x@);
        if !in_list {
            match find_pat_from(s, &kw, i) {
                None => {
                    proof {
                        assert(done + Seq::<RawRow>::empty() =~= done);
                    }
                    return Ok(out);
                },
                Some(j) => {
                    i = skip_ws_from(s, j + 6);
                    in_list = true;
                },
            }
        } else {
            match parse_tuple_exec(s, i) {
                None => {
                    return Err(DumpError::MalformedRow);
                },
                Some((row, k)) => {
                    let ghost rowm = row@;
                    let k2 = skip_ws_from(s, k);
                    out.push(row);
                    proof {
                        assert(out@.map_values(|x: RawRowVec| x@) =~= done.push(rowm));
                    }
                    if k2 == s.len() {
                        proof {
                            assert(done + seq![rowm] =~= done.push(rowm));
                        }
                        return Ok(out);
                    }
                    let c = s[k2];
                    if c == ',' {
                        i = skip_ws_from(s, k2 + 1);
                        proof {
                            assert forall|rest: Seq<RawRow>|
                                done + (seq![rowm] + rest) =~= done.push(rowm) + rest by {}
                        }
                    } else if c == ';' {
                        i = k2 + 1;
                        in_list = false;
                        proof {
                            assert forall|rest: Seq<RawRow>|
                                done + (seq![rowm] + rest) =~= done.push(rowm) + rest by {}
                        }
                    } else {
                        return Err(DumpError::MalformedRow);
                    }
                },
            }
        }
    }
}

/// Validate one raw row into its record, or discard it.
fn row_to_record(row: &RawRowVec) -> (r: Result<Option<RangeRecord>, DumpError>)
    ensures
        match r {
            Ok(None) => row_record(row@) == Some(None::<RecordModel>),
            Ok(Some(rec)) => row_record(row@) == Some(Some(rec@)),
            Err(e) => row_record(row@) is None && e == DumpError::MalformedRow,
        },
{
    if row.flag.len() == 1 && row.flag[0] == '1' {
        proof {
            assert(row@.flag =~= seq!['1']);
        }
        return Ok(None);
    }
    proof {
        if row@.flag.len() == 1 {
            assert(row@.flag[0] != '1');
        }
        assert(row@.flag != seq!['1']);
    }
    if !is_digits(&row.id_text) {
        return Err(DumpError::MalformedRow);
    }
    let id = match parse_u32_digits(&row.id_text) {
        None => {
            return Err(DumpError::MalformedRow);
        },
        Some(v) => v,
    };
    let start = match ip_from_chars(&row.start_text) {
        None => {
            return Err(DumpError::MalformedRow);
        },
        Some(v) => v,
    };
    let end = match ip_from_chars(&row.end_text) {
        None => {
            return Err(DumpError::MalformedRow);
        },
        Some(v) => v,
    };
    if start > end {
        return Err(DumpError::MalformedRow);
    }
    Ok(
        Some(
            RangeRecord {
                id,
                range_start: start,
                range_end: end,
                country: chars_to_string(&row.country),
                region: chars_to_string(&row.region),
                city: chars_to_string(&row.city),
            },
        ),
    )
}

/// Validate every raw row, keeping order and dropping discarded rows.
fn rows_to_records(rows: &Vec<RawRowVec>) -> (r: Result<Vec<RangeRecord>, DumpError>)
    ensures
        match r {
            Ok(v) => records_of(rows@.map_values(|x: RawRowVec| x@)) == Some(models_of(v@)),
            Err(e) => records_of(rows@.map_values(|x: RawRowVec| x@)) is None && e
                == DumpError::MalformedRow,
        },
{
    let ghost all = rows@.map_values(|x: RawRowVec| x@);
    let n = rows.len();
    let mut out: Vec<RangeRecord> = Vec::new();
    let mut i: usize = 0;
    proof {
        assert(all.skip(0) =~= all);
        assert(models_of(out@) =~= Seq::<RecordModel>::empty());
        assert forall|rest: Seq<RecordModel>| models_of(out@) + rest =~= rest by {}
    }
    while i < n
        invariant
            n == rows@.len(),
            i <= n,
            all == rows@.map_values(|x: RawRowVec| x@),
            records_of(all) == (match records_of(all.skip(i as int)) {
                None => None::<Seq<RecordModel>>,
                Some(rest) => Some(models_of(out@) + rest),
            }),
        decreases n - i,
    {
        let ghost done = models_of(out@);
        proof {
            assert(all.skip(i as int)[0] == all[i as int]);
            assert(all.skip(i as int).drop_first() =~= all.skip(i as int + 1));
            assert(all[i as int] == rows@[i as int]@);
        }
        match row_to_record(&rows[i]) {
            Err(e) => {
                return Err(e);
            },
            Ok(None) => {},
            Ok(Some(rec)) => {
                let ghost recm = rec@;
                out.push(rec);
                proof {
                    assert(models_of(out@) =~= done.push(recm));
                    assert forall|rest: Seq<RecordModel>|
                        done + (seq![recm] + rest) =~= done.push(recm) + rest by {}
                }
            },
        }
        i = i + 1;
    }
    proof {
        assert(all.skip(n as int) =~= Seq::<RawRow>::empty());
        assert(records_of(all.skip(n as int)) == Some(Seq::<RecordModel>::empty()));
        assert(models_of(out@) + Seq::<RecordModel>::empty() =~= models_of(out@));
    }
    Ok(out)
}

/// Parse a whole dump: the records of every kept row in statement order, or
/// the malformed-row failure. On success every record's range is ordered.
pub fn parse_dump(text: &str) -> (r: Result<Vec<RangeRecord>, DumpError>)
    ensures
        match r {
            Ok(v) => spec_parse_dump(text@) == Some(models_of(v@)) && (forall|k: int|
                0 <= k < v@.len() ==> (#[trigger] v@[k])@.range_start <= v@[k]@.range_end),
            Err(e) => spec_parse_dump(text@) is None && e == DumpError::MalformedRow,
        },
{
    let chars = str_to_chars(text);
    let start = line_start_after_exec(&chars, 0, PREAMBLE_LINES);
    let content = strip_breaks_exec(&chars, start);
    let rows = match scan_rows(&content) {
        Err(e) => {
            return Err(e);
        },
        Ok(rows) => rows,
    };
    match rows_to_records(&rows) {
        Err(e) => Err(e),
        Ok(v) => {
            proof {
                let recs = models_of(v@);
                assert(records_of(rows@.map_values(|x: RawRowVec| x@)) == Some(recs));
                lemma_records_ordered(rows@.map_values(|x: RawRowVec| x@), recs);
                assert forall|k: int| 0 <= k < v@.len() implies (#[trigger] v@[k])@.range_start
                    <= v@[k]@.range_end by {
                    assert(recs[k] == v@[k]@);
                    assert(recs[k].range_start <= recs[k].range_end);
                }
            }
            Ok(v)
        },
    }
}

/// A row whose discard flag reads `1` contributes no record, whatever its
/// other fields hold.
pub proof fn lemma_ipv6_row_discarded(r: RawRow)
    requires
        r.flag == seq!['1'],
    ensures
        row_record(r) == Some(None::<RecordModel>),
{
}

/// Every record that survives validation has an ordered range.
pub proof fn lemma_records_ordered(rows: Seq<RawRow>, recs: Seq<RecordModel>)
    requires
        records_of(rows) == Some(recs),
    ensures
        forall|k: int|
            0 <= k < recs.len() ==> (#[trigger] recs[k]).range_start <= recs[k].range_end,
    decreases rows.len(),
{
    if rows.len() > 0 {
        match row_record(rows[0]) {
            None => {
                assert(false);
            },
            Some(None) => {
                lemma_records_ordered(rows.drop_first(), recs);
            },
            Some(Some(m)) => {
                match records_of(rows.drop_first()) {
                    None => {
                        assert(false);
                    },
                    Some(rest) => {
                        lemma_records_ordered(rows.drop_first(), rest);
                        assert(recs == seq![m] + rest);
                        assert forall|k: int| 0 <= k < recs.len() implies (#[trigger]
                            recs[k]).range_start <= recs[k].range_end by {
                            if k == 0 {
                                assert(recs[k] == m);
                            } else {
                                assert(recs[k] == rest[k - 1]);
                            }
                        }
                    },
                }
            },
        }
    }
}

} // verus!
