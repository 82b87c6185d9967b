//! The executable parser, verified against the grammar of [`crate::grammar`].
//!
//! Each `scan_*` function walks the input from a character index and is
//! proved to agree with the corresponding `parse_*` specification function
//! applied to the input from that index on. The public functions parse from
//! the start of their input and hand back the unconsumed remainder.

use vstd::prelude::*;

use vstd::string::StrSliceExecFns;
use vstd::string::StringExecFns;

use crate::cron_item::{CronItem, TimeItem};
use crate::grammar::{
    blank_count, digit_val, is_blank, is_digit, lemma_blank_count_is, lemma_digit_count_is,
    lemma_parse_command_found, lemma_parse_command_none, parse_command, parse_cron, parse_field,
    parse_interval, parse_more_numbers, parse_multiple, parse_number, parse_number_list,
    parse_single, parse_wildcard, parser_error_text, seq_val, terminator, TimeItemModel,
};

verus! {

/// The one error a failed parse reports. Every failure collapses to the
/// same generic message; the design carries no position or kind.
#[derive(Debug, PartialEq)]
pub struct ParserError {
    pub message: String,
}

/// The generic parse error value.
fn parse_failure() -> (e: ParserError)
    ensures
        e.message@ == parser_error_text(),
{
    ParserError { message: "Coundn't parse cron item".to_owned() }
}

fn char_is_blank(c: char) -> (r: bool)
    ensures
        r == is_blank(c),
{
    c == ' ' || c == '\t'
}

fn char_is_digit(c: char) -> (r: bool)
    ensures
        r == is_digit(c),
{
    '0' <= c && c <= '9'
}

fn digit_value(c: char) -> (r: u8)
    requires
        is_digit(c),
    ensures
        r as int == digit_val(c),
        r <= 9,
{
    (c as u32 - '0' as u32) as u8
}

/// Walk past the run of blanks that starts at `i`.
fn scan_blanks(s: &str, i: usize) -> (j: usize)
    requires
        i <= s@.len(),
    ensures
        i <= j <= s@.len(),
        j - i == blank_count(s@.skip(i as int)),
{
    let n = s.unicode_len();
    let mut j = i;
    loop
        invariant
            i <= j <= n,
            n == s@.len(),
            forall|k: int| i <= k < j ==> is_blank(#[trigger] s@[k]),
        ensures
            i <= j <= n,
            forall|k: int| i <= k < j ==> is_blank(#[trigger] s@[k]),
            j == n || !is_blank(s@[j as int]),
        decreases n - j,
    {
        if j == n {
            break ;
        }
        if !char_is_blank(s.get_char(j)) {
            break ;
        }
        j = j + 1;
    }
    proof {
        let u = s@.skip(i as int);
        assert forall|k: int| 0 <= k < j - i implies is_blank(#[trigger] u[k]) by {
            assert(u[k] == s@[i + k]);
        }
        if j < n {
            assert(u[j - i] == s@[j as int]);
        }
        lemma_blank_count_is(u, j - i);
    }
    j
}

/// Scan the number that starts at `i`: the maximal digit run, required to
/// be non-empty and to denote a value of at most 255.
fn scan_number(s: &str, i: usize) -> (r: Option<(u8, usize)>)
    requires
        i <= s@.len(),
    ensures
        match r {
            Some((v, j)) => {
                &&& i < j <= s@.len()
                &&& parse_number(s@.skip(i as int)) == Some((v, s@.skip(j as int)))
            },
            None => parse_number(s@.skip(i as int)) is None,
        },
{
    let n = s.unicode_len();
    let mut j = i;
    let mut val: u32 = 0;
    let mut small = true;
    loop
        invariant
            i <= j <= n,
            n == s@.len(),
            forall|k: int| i <= k < j ==> is_digit(#[trigger] s@[k]),
            small ==> val as int == seq_val(s@.subrange(i as int, j as int)) && val <= 255,
            !small ==> seq_val(s@.subrange(i as int, j as int)) > 255,
        ensures
            i <= j <= n,
            forall|k: int| i <= k < j ==> is_digit(#[trigger] s@[k]),
            j == n || !is_digit(s@[j as int]),
            small ==> val as int == seq_val(s@.subrange(i as int, j as int)) && val <= 255,
            !small ==> seq_val(s@.subrange(i as int, j as int)) > 255,
        decreases n - j,
    {
        if j == n {
            break ;
        }
        let c = s.get_char(j);
        if !char_is_digit(c) {
            break ;
        }
        let d = digit_value(c);
        proof {
            assert(s@.subrange(i as int, j + 1).drop_last() =~= s@.subrange(i as int, j as int));
            assert(s@.subrange(i as int, j + 1).last() == s@[j as int]);
        }
        if small && val * 10 + d as u32 <= 255 {
            val = val * 10 + d as u32;
        } else {
            small = false;
        }
        j = j + 1;
    }
    proof {
        let u = s@.skip(i as int);
        assert forall|k: int| 0 <= k < j - i implies is_digit(#[trigger] u[k]) by {
            assert(u[k] == s@[i + k]);
        }
        if j < n {
            assert(u[j - i] == s@[j as int]);
        }
        lemma_digit_count_is(u, j - i);
        assert(u.take(j - i) =~= s@.subrange(i as int, j as int));
    }
    if j == i {
        None
    } else if small {
        proof {
            assert(s@.skip(i as int).skip(j - i) =~= s@.skip(j as int));
        }
        Some((val as u8, j))
    } else {
        None
    }
}

/// Scan an interval field, `start-end` followed by blanks, at `i`.
fn scan_interval(s: &str, i: usize) -> (r: Option<((u8, u8), usize)>)
    requires
        i <= s@.len(),
    ensures
        match r {
            Some(((a, b), j)) => {
                &&& i < j <= s@.len()
                &&& parse_interval(s@.skip(i as int)) == Some(((a, b), s@.skip(j as int)))
            },
            None => parse_interval(s@.skip(i as int)) is None,
        },
{
    let n = s.unicode_len();
    match scan_number(s, i) {
        None => None,
        Some((a, j1)) => {
            if j1 < n && s.get_char(j1) == '-' {
                proof {
                    assert(s@.skip(j1 as int)[0] == s@[j1 as int]);
                    assert(s@.skip(j1 as int).skip(1) =~= s@.skip(j1 + 1));
                }
                match scan_number(s, j1 + 1) {
                    None => None,
                    Some((b, j2)) => {
                        let j3 = scan_blanks(s, j2);
                        if j3 > j2 {
                            proof {
                                assert(s@.skip(j2 as int).skip(j3 - j2) =~= s@.skip(j3 as int));
                            }
                            Some(((a, b), j3))
                        } else {
                            None
                        }
                    },
                }
            } else {
                proof {
                    if j1 < n {
                        assert(s@.skip(j1 as int)[0] == s@[j1 as int]);
                    }
                }
                None
            }
        },
    }
}

/// Scan a single-value field, a number followed by blanks, at `i`.
fn scan_single(s: &str, i: usize) -> (r: Option<(u8, usize)>)
    requires
        i <= s@.len(),
    ensures
        match r {
            Some((v, j)) => {
                &&& i < j <= s@.len()
                &&& parse_single(s@.skip(i as int)) == Some((v, s@.skip(j as int)))
            },
            None => parse_single(s@.skip(i as int)) is None,
        },
{
    match scan_number(s, i) {
        None => None,
        Some((v, j1)) => {
            let j2 = scan_blanks(s, j1);
            if j2 > j1 {
                proof {
                    assert(s@.skip(j1 as int).skip(j2 - j1) =~= s@.skip(j2 as int));
                }
                Some((v, j2))
            } else {
                None
            }
        },
    }
}

/// Scan a wildcard field, `*` followed by blanks, at `i`.
fn scan_wildcard(s: &str, i: usize) -> (r: Option<usize>)
    requires
        i <= s@.len(),
    ensures
        match r {
            Some(j) => {
                &&& i < j <= s@.len()
                &&& parse_wildcard(s@.skip(i as int)) == Some(s@.skip(j as int))
            },
            None => parse_wildcard(s@.skip(i as int)) is None,
        },
{
    let n = s.unicode_len();
    if i < n && s.get_char(i) == '*' {
        proof {
            assert(s@.skip(i as int)[0] == s@[i as int]);
            assert(s@.skip(i as int).skip(1) =~= s@.skip(i + 1));
        }
        let j = scan_blanks(s, i + 1);
        if j > i + 1 {
            proof {
                assert(s@.skip(i + 1).skip(j - i - 1) =~= s@.skip(j as int));
            }
            Some(j)
        } else {
            None
        }
    } else {
        proof {
            if i < n {
                assert(s@.skip(i as int)[0] == s@[i as int]);
            }
        }
        None
    }
}

/// Scan a comma-separated list of numbers at `i`; trailing blanks are not
/// consumed here.
fn scan_list(s: &str, i: usize) -> (r: Option<(Vec<u8>, usize)>)
    requires
        i <= s@.len(),
    ensures
        match r {
            Some((vs, j)) => {
                &&& i < j <= s@.len()
                &&& parse_number_list(s@.skip(i as int)) == Some((vs@, s@.skip(j as int)))
            },
            None => parse_number_list(s@.skip(i as int)) is None,
        },
{
    let n = s.unicode_len();
    match scan_number(s, i) {
        None => None,
        Some((v0, j0)) => {
            let mut values: Vec<u8> = Vec::new();
            values.push(v0);
            let mut j = j0;
            proof {
                assert(values@ =~= seq![v0]);
            }
            loop
                invariant
                    i < j <= n,
                    n == s@.len(),
                    parse_number_list(s@.skip(i as int)) == Some(
                        (
                            values@ + parse_more_numbers(s@.skip(j as int)).0,
                            parse_more_numbers(s@.skip(j as int)).1,
                        ),
                    ),
                ensures
                    i < j <= n,
                    parse_number_list(s@.skip(i as int)) == Some((values@, s@.skip(j as int))),
                decreases n - j,
            {
                if j == n {
                    proof {
                        assert(values@ + parse_more_numbers(s@.skip(j as int)).0 =~= values@);
                    }
                    break ;
                }
                if s.get_char(j) != ',' {
                    proof {
                        assert(s@.skip(j as int)[0] == s@[j as int]);
                        assert(values@ + parse_more_numbers(s@.skip(j as int)).0 =~= values@);
                    }
                    break ;
                }
                proof {
                    assert(s@.skip(j as int)[0] == s@[j as int]);
                    assert(s@.skip(j as int).skip(1) =~= s@.skip(j + 1));
                }
                match scan_number(s, j + 1) {
                    None => {
                        proof {
                            assert(values@ + parse_more_numbers(s@.skip(j as int)).0 =~= values@);
                        }
                        break ;
                    },
                    Some((v, j2)) => {
                        proof {
                            let ghost prev = values@;
                            assert(parse_more_numbers(s@.skip(j as int)) == (
                                seq![v] + parse_more_numbers(s@.skip(j2 as int)).0,
                                parse_more_numbers(s@.skip(j2 as int)).1,
                            ));
                            assert(prev + (seq![v] + parse_more_numbers(s@.skip(j2 as int)).0)
                                =~= (prev + seq![v]) + parse_more_numbers(s@.skip(j2 as int)).0);
                            assert(prev.push(v) =~= prev + seq![v]);
                        }
                        values.push(v);
                        j = j2;
                    },
                }
            }
            Some((values, j))
        },
    }
}

/// Scan a list field at `i`: the list, then required blanks.
fn scan_multiple(s: &str, i: usize) -> (r: Option<(Vec<u8>, usize)>)
    requires
        i <= s@.len(),
    ensures
        match r {
            Some((vs, j)) => {
                &&& i < j <= s@.len()
                &&& parse_multiple(s@.skip(i as int)) == Some((vs@, s@.skip(j as int)))
            },
            None => parse_multiple(s@.skip(i as int)) is None,
        },
{
    match scan_list(s, i) {
        None => None,
        Some((vs, j1)) => {
            let j2 = scan_blanks(s, j1);
            if j2 > j1 {
                proof {
                    assert(s@.skip(j1 as int).skip(j2 - j1) =~= s@.skip(j2 as int));
                }
                Some((vs, j2))
            } else {
                None
            }
        },
    }
}

/// Scan one time field at `i`, trying the four alternatives in their
/// precedence order.
fn scan_field(s: &str, i: usize) -> (r: Option<(TimeItem, usize)>)
    requires
        i <= s@.len(),
    ensures
        match r {
            Some((t, j)) => {
                &&& i < j <= s@.len()
                &&& parse_field(s@.skip(i as int)) == Some((t@, s@.skip(j as int)))
            },
            None => parse_field(s@.skip(i as int)) is None,
        },
{
    if let Some(((a, b), j)) = scan_interval(s, i) {
        return Some((TimeItem::Interval((a, b)), j));
    }
    if let Some((v, j)) = scan_single(s, i) {
        return Some((TimeItem::SingleValue(v), j));
    }
    if let Some(j) = scan_wildcard(s, i) {
        return Some((TimeItem::AllValues, j));
    }
    match scan_multiple(s, i) {
        Some((vs, j)) => Some((TimeItem::MultipleValues(vs), j)),
        None => None,
    }
}

/// Whether the text of `pat` occurs in `s` at character index `i`.
fn match_at(s: &str, i: usize, pat: &str) -> (r: bool)
    requires
        i + pat@.len() <= s@.len(),
    ensures
        r == (s@.subrange(i as int, i + pat@.len()) == pat@),
{
    let n = s.unicode_len();
    let m = pat.unicode_len();
    let mut k: usize = 0;
    loop
        invariant
            k <= m,
            m == pat@.len(),
            n == s@.len(),
            i + m <= n,
            forall|t: int| 0 <= t < k ==> s@[i + t] == pat@[t],
        ensures
            k <= m,
            forall|t: int| 0 <= t < k ==> s@[i + t] == pat@[t],
            k == m || s@[i + k] != pat@[k as int],
        decreases m - k,
    {
        if k == m {
            break ;
        }
        if s.get_char(i + k) != pat.get_char(k) {
            break ;
        }
        k = k + 1;
    }
    if k == m {
        proof {
            assert(s@.subrange(i as int, i + pat@.len()) =~= pat@);
        }
        true
    } else {
        proof {
            assert(s@.subrange(i as int, i + pat@.len())[k as int] == s@[i + k]);
        }
        false
    }
}

/// Scan the command at `i`: everything up to the first occurrence of the
/// terminator. Returns the command's end and the index after the
/// terminator.
fn scan_command(s: &str, i: usize) -> (r: Option<(usize, usize)>)
    requires
        i <= s@.len(),
    ensures
        match r {
            Some((e, j)) => {
                &&& i <= e <= j <= s@.len()
                &&& parse_command(s@.skip(i as int)) == Some(
                    (s@.subrange(i as int, e as int), s@.skip(j as int)),
                )
            },
            None => parse_command(s@.skip(i as int)) is None,
        },
{
    let n = s.unicode_len();
    let pat = "command_end";
    proof {
        reveal_strlit("command_end");
    }
    let m = pat.unicode_len();
    let mut p = i;
    loop
        invariant
            i <= p <= n,
            n == s@.len(),
            m == terminator().len(),
            m == 11,
            pat@ == terminator(),
            forall|q: int|
                i <= q < p && q + m <= n ==> #[trigger] s@.subrange(q, q + m as int)
                    != terminator(),
        ensures
            i <= p <= n,
            forall|q: int|
                i <= q < p && q + m <= n ==> #[trigger] s@.subrange(q, q + m as int)
                    != terminator(),
            p + m <= n && s@.subrange(p as int, p + m as int) == terminator() || p + m > n,
        decreases n - p,
    {
        if m > n - p {
            break ;
        }
        if match_at(s, p, pat) {
            break ;
        }
        p = p + 1;
    }
    if m <= n - p {
        proof {
            let u = s@.skip(i as int);
            assert forall|q: int| 0 <= q < p - i implies #[trigger] u.subrange(
                q,
                q + terminator().len(),
            ) != terminator() by {
                assert(u.subrange(q, q + terminator().len()) =~= s@.subrange(
                    i + q,
                    i + q + terminator().len(),
                ));
            }
            assert(u.subrange(p - i, p - i + terminator().len()) =~= s@.subrange(
                p as int,
                p + m as int,
            ));
            lemma_parse_command_found(u, p - i);
            assert(u.take(p - i) =~= s@.subrange(i as int, p as int));
            assert(u.skip(p - i + terminator().len()) =~= s@.skip(p + m));
        }
        Some((p, p + m))
    } else {
        proof {
            let u = s@.skip(i as int);
            assert forall|q: int|
                0 <= q && q + terminator().len() <= u.len() implies #[trigger] u.subrange(
                q,
                q + terminator().len(),
            ) != terminator() by {
                assert(u.subrange(q, q + terminator().len()) =~= s@.subrange(
                    i + q,
                    i + q + terminator().len(),
                ));
            }
            lemma_parse_command_none(u);
        }
        None
    }
}

/// Parse an interval field at the start of the input; on success, the
/// unconsumed remainder is handed back beside the value.
pub fn time_interval<'a>(s: &'a str) -> (r: Result<(&'a str, TimeItem), ParserError>)
    ensures
        match r {
            Ok((rest, t)) => parse_interval(s@) matches Some((p, rem)) && t@
                == TimeItemModel::Interval(p.0, p.1) && rest@ == rem,
            Err(e) => parse_interval(s@) is None && e.message@ == parser_error_text(),
        },
{
    proof {
        assert(s@.skip(0) =~= s@);
    }
    match scan_interval(s, 0) {
        Some(((a, b), j)) => {
            let n = s.unicode_len();
            Ok((s.substring_char(j, n), TimeItem::Interval((a, b))))
        },
        None => Err(parse_failure()),
    }
}

/// Parse a single-value field at the start of the input.
pub fn single_time_value<'a>(s: &'a str) -> (r: Result<(&'a str, TimeItem), ParserError>)
    ensures
        match r {
            Ok((rest, t)) => parse_single(s@) matches Some((v, rem)) && t@
                == TimeItemModel::SingleValue(v) && rest@ == rem,
            Err(e) => parse_single(s@) is None && e.message@ == parser_error_text(),
        },
{
    proof {
        assert(s@.skip(0) =~= s@);
    }
    match scan_single(s, 0) {
        Some((v, j)) => {
            let n = s.unicode_len();
            Ok((s.substring_char(j, n), TimeItem::SingleValue(v)))
        },
        None => Err(parse_failure()),
    }
}

/// Parse a wildcard field at the start of the input.
pub fn all_time_values<'a>(s: &'a str) -> (r: Result<(&'a str, TimeItem), ParserError>)
    ensures
        match r {
            Ok((rest, t)) => parse_wildcard(s@) matches Some(rem) && t@ == TimeItemModel::AllValues
                && rest@ == rem,
            Err(e) => parse_wildcard(s@) is None && e.message@ == parser_error_text(),
        },
{
    proof {
        assert(s@.skip(0) =~= s@);
    }
    match scan_wildcard(s, 0) {
        Some(j) => {
            let n = s.unicode_len();
            Ok((s.substring_char(j, n), TimeItem::AllValues))
        },
        None => Err(parse_failure()),
    }
}

/// Parse a list field at the start of the input.
pub fn multiple_time_values<'a>(s: &'a str) -> (r: Result<(&'a str, TimeItem), ParserError>)
    ensures
        match r {
            Ok((rest, t)) => parse_multiple(s@) matches Some((ns, rem)) && t@
                == TimeItemModel::MultipleValues(ns) && rest@ == rem,
            Err(e) => parse_multiple(s@) is None && e.message@ == parser_error_text(),
        },
{
    proof {
        assert(s@.skip(0) =~= s@);
    }
    match scan_multiple(s, 0) {
        Some((vs, j)) => {
            let n = s.unicode_len();
            Ok((s.substring_char(j, n), TimeItem::MultipleValues(vs)))
        },
        None => Err(parse_failure()),
    }
}

/// Parse one time field at the start of the input, whichever alternative
/// matches first in the precedence order.
pub fn time_item<'a>(s: &'a str) -> (r: Result<(&'a str, TimeItem), ParserError>)
    ensures
        match r {
            Ok((rest, t)) => parse_field(s@) matches Some((m, rem)) && t@ == m && rest@ == rem,
            Err(e) => parse_field(s@) is None && e.message@ == parser_error_text(),
        },
{
    proof {
        assert(s@.skip(0) =~= s@);
    }
    match scan_field(s, 0) {
        Some((t, j)) => {
            let n = s.unicode_len();
            Ok((s.substring_char(j, n), t))
        },
        None => Err(parse_failure()),
    }
}

/// Parse a whole line whose command is bounded by the terminator already
/// present in the input. Hands back what follows the terminator.
pub fn cron_item<'a>(s: &'a str) -> (r: Result<(&'a str, CronItem), ParserError>)
    ensures
        match r {
            Ok((rest, c)) => parse_cron(s@) matches Some((m, rem)) && c@ == m && rest@ == rem,
            Err(e) => parse_cron(s@) is None && e.message@ == parser_error_text(),
        },
{
    proof {
        assert(s@.skip(0) =~= s@);
    }
    let i1 = match scan_field(s, 0) {
        Some((t, j)) => (t, j),
        None => {
            return Err(parse_failure());
        },
    };
    let (minute, j1) = i1;
    let i2 = match scan_field(s, j1) {
        Some((t, j)) => (t, j),
        None => {
            return Err(parse_failure());
        },
    };
    let (hour, j2) = i2;
    let i3 = match scan_field(s, j2) {
        Some((t, j)) => (t, j),
        None => {
            return Err(parse_failure());
        },
    };
    let (day_of_month, j3) = i3;
    let i4 = match scan_field(s, j3) {
        Some((t, j)) => (t, j),
        None => {
            return Err(parse_failure());
        },
    };
    let (month, j4) = i4;
    let i5 = match scan_field(s, j4) {
        Some((t, j)) => (t, j),
        None => {
            return Err(parse_failure());
        },
    };
    let (day_of_week, j5) = i5;
    let ends = match scan_command(s, j5) {
        Some((e, j)) => (e, j),
        None => {
            return Err(parse_failure());
        },
    };
    let (cmd_end, after) = ends;
    let n = s.unicode_len();
    let command = s.substring_char(j5, cmd_end).to_owned();
    let item = CronItem {
        minute,
        hour,
        day_of_month,
        month,
        day_of_week,
        command,
    };
    Ok((s.substring_char(after, n), item))
}

/// Parse one line of cron-table text into a [`CronItem`].
///
/// The command of a line is everything after the fifth time field and its
/// separating blanks; to bound that greedy scan the function appends the
/// internal terminator to the input before parsing, and the terminator is
/// not part of the parsed command.
pub fn parse_cron_item(s: &str) -> (r: Result<CronItem, ParserError>)
    ensures
        match r {
            Ok(c) => parse_cron(s@ + terminator()) matches Some((m, rem)) && c@ == m,
            Err(e) => parse_cron(s@ + terminator()) is None && e.message@ == parser_error_text(),
        },
{
    let mut t = s.to_owned();
    t.append("command_end");
    match cron_item(t.as_str()) {
        Ok((_, c)) => Ok(c),
        Err(e) => Err(e),
    }
}

} // verus!
