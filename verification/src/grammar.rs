//! The grammar of a cron-table line and the canonical text of a value, as
//! specification functions over sequences of characters.
//!
//! A time field is one of four alternatives, tried in this order: an
//! interval `start-end`, a single value, the wildcard `*`, and a
//! comma-separated list of values. Every alternative must be followed by at
//! least one blank (space or tab), which separates it from the next field or
//! from the command. Five fields are parsed in a fixed order; the command is
//! everything that follows, up to an internal terminator string that the
//! public entry point appends so that the end of the command is unambiguous.

use vstd::prelude::*;

verus! {

/// A time field as a mathematical value: the model that contracts speak of.
pub enum TimeItemModel {
    AllValues,
    SingleValue(u8),
    MultipleValues(Seq<u8>),
    Interval(u8, u8),
}

/// A whole cron line as a mathematical value.
pub struct CronItemModel {
    pub minute: TimeItemModel,
    pub hour: TimeItemModel,
    pub day_of_month: TimeItemModel,
    pub month: TimeItemModel,
    pub day_of_week: TimeItemModel,
    pub command: Seq<char>,
}

/// The internal marker that bounds the command text.
pub open spec fn terminator() -> Seq<char> {
    "command_end"@
}

/// The text of the one generic parse error.
pub open spec fn parser_error_text() -> Seq<char> {
    "Coundn't parse cron item"@
}

/// A blank: the characters that separate fields.
pub open spec fn is_blank(c: char) -> bool {
    c == ' ' || c == '\t'
}

pub open spec fn is_digit(c: char) -> bool {
    '0' <= c && c <= '9'
}

pub open spec fn digit_val(c: char) -> int {
    c as u32 - '0' as u32
}

/// Length of the leading run of blanks.
pub open spec fn blank_count(s: Seq<char>) -> nat
    decreases s.len(),
{
    if s.len() > 0 && is_blank(s[0]) {
        1 + blank_count(s.drop_first())
    } else {
        0
    }
}

/// Length of the leading run of decimal digits.
pub open spec fn digit_count(s: Seq<char>) -> nat
    decreases s.len(),
{
    if s.len() > 0 && is_digit(s[0]) {
        1 + digit_count(s.drop_first())
    } else {
        0
    }
}

/// The number denoted by a sequence of decimal digits, most significant
/// digit first.
pub open spec fn seq_val(d: Seq<char>) -> int
    decreases d.len(),
{
    if d.len() == 0 {
        0
    } else {
        10 * seq_val(d.drop_last()) + digit_val(d.last())
    }
}

pub proof fn lemma_digit_count_le(s: Seq<char>)
    ensures
        digit_count(s) <= s.len(),
    decreases s.len(),
{
    if s.len() > 0 && is_digit(s[0]) {
        lemma_digit_count_le(s.drop_first());
    }
}

/// The leading digit run has length `d` exactly when the first `d`
/// characters are digits and the next one, if any, is not.
pub proof fn lemma_digit_count_is(s: Seq<char>, d: int)
    requires
        0 <= d <= s.len(),
        forall|k: int| 0 <= k < d ==> is_digit(#[trigger] s[k]),
        d == s.len() || !is_digit(s[d]),
    ensures
        digit_count(s) == d,
    decreases d,
{
    if d == 0 {
    } else {
        assert(is_digit(s[0]));
        lemma_digit_count_is(s.drop_first(), d - 1);
    }
}

/// The counterpart of `lemma_digit_count_is` for blanks.
pub proof fn lemma_blank_count_is(s: Seq<char>, d: int)
    requires
        0 <= d <= s.len(),
        forall|k: int| 0 <= k < d ==> is_blank(#[trigger] s[k]),
        d == s.len() || !is_blank(s[d]),
    ensures
        blank_count(s) == d,
    decreases d,
{
    if d == 0 {
    } else {
        assert(is_blank(s[0]));
        lemma_blank_count_is(s.drop_first(), d - 1);
    }
}

/// Parse one number: the maximal leading digit run, which must be non-empty
/// and denote a value of at most 255. Returns the value and the remaining
/// input.
pub open spec fn parse_number(s: Seq<char>) -> Option<(u8, Seq<char>)> {
    let d = digit_count(s) as int;
    if d > 0 && 0 <= seq_val(s.take(d)) <= 255 {
        Some((seq_val(s.take(d)) as u8, s.skip(d)))
    } else {
        None
    }
}

/// Consume the separating run of blanks, which must be non-empty.
pub open spec fn parse_blanks(s: Seq<char>) -> Option<Seq<char>> {
    if blank_count(s) > 0 {
        Some(s.skip(blank_count(s) as int))
    } else {
        None
    }
}

/// `start-end`, followed by blanks.
pub open spec fn parse_interval(s: Seq<char>) -> Option<((u8, u8), Seq<char>)> {
    match parse_number(s) {
        Some((start, s1)) => if s1.len() > 0 && s1[0] == '-' {
            match parse_number(s1.skip(1)) {
                Some((end, s2)) => match parse_blanks(s2) {
                    Some(s3) => Some(((start, end), s3)),
                    None => None,
                },
                None => None,
            }
        } else {
            None
        },
        None => None,
    }
}

/// A single number, followed by blanks.
pub open spec fn parse_single(s: Seq<char>) -> Option<(u8, Seq<char>)> {
    match parse_number(s) {
        Some((n, s1)) => match parse_blanks(s1) {
            Some(s2) => Some((n, s2)),
            None => None,
        },
        None => None,
    }
}

/// The literal `*`, followed by blanks.
pub open spec fn parse_wildcard(s: Seq<char>) -> Option<Seq<char>> {
    if s.len() > 0 && s[0] == '*' {
        parse_blanks(s.skip(1))
    } else {
        None
    }
}

/// After one number: as long as a comma and a further valid number follow,
/// consume both; the values gathered and the remaining input. A trailing
/// comma that no valid number follows is left unconsumed.
pub open spec fn parse_more_numbers(s: Seq<char>) -> (Seq<u8>, Seq<char>)
    decreases s.len(),
{
    if s.len() > 0 && s[0] == ',' {
        match parse_number(s.skip(1)) {
            Some((n, s1)) => {
                proof {
                    lemma_digit_count_le(s.skip(1));
                }
                let (rest, s2) = parse_more_numbers(s1);
                (seq![n] + rest, s2)
            },
            None => (Seq::empty(), s),
        }
    } else {
        (Seq::empty(), s)
    }
}

/// A non-empty comma-separated list of numbers. Blanks are not consumed
/// here; the field grammar requires them afterwards.
pub open spec fn parse_number_list(s: Seq<char>) -> Option<(Seq<u8>, Seq<char>)> {
    match parse_number(s) {
        Some((n, s1)) => {
            let (rest, s2) = parse_more_numbers(s1);
            Some((seq![n] + rest, s2))
        },
        None => None,
    }
}

/// A list field: the list itself, followed by blanks.
pub open spec fn parse_multiple(s: Seq<char>) -> Option<(Seq<u8>, Seq<char>)> {
    match parse_number_list(s) {
        Some((ns, s1)) => match parse_blanks(s1) {
            Some(s2) => Some((ns, s2)),
            None => None,
        },
        None => None,
    }
}

/// One time field: the four alternatives in their precedence order. The
/// order matters: a lone number is a single value, never a one-element
/// list, and `1-5` is an interval, never the number 1 with leftover text.
pub open spec fn parse_field(s: Seq<char>) -> Option<(TimeItemModel, Seq<char>)> {
    match parse_interval(s) {
        Some(((start, end), s1)) => Some((TimeItemModel::Interval(start, end), s1)),
        None => match parse_single(s) {
            Some((n, s1)) => Some((TimeItemModel::SingleValue(n), s1)),
            None => match parse_wildcard(s) {
                Some(s1) => Some((TimeItemModel::AllValues, s1)),
                None => match parse_multiple(s) {
                    Some((ns, s1)) => Some((TimeItemModel::MultipleValues(ns), s1)),
                    None => None,
                },
            },
        },
    }
}

pub open spec fn starts_with(s: Seq<char>, p: Seq<char>) -> bool {
    p.len() <= s.len() && s.take(p.len() as int) == p
}

/// The command: everything up to the first occurrence of the terminator,
/// which is consumed. Fails when the terminator never occurs.
pub open spec fn parse_command(s: Seq<char>) -> Option<(Seq<char>, Seq<char>)>
    decreases s.len(),
{
    if starts_with(s, terminator()) {
        Some((Seq::empty(), s.skip(terminator().len() as int)))
    } else if s.len() > 0 {
        match parse_command(s.drop_first()) {
            Some((c, r)) => Some((seq![s[0]] + c, r)),
            None => None,
        }
    } else {
        None
    }
}

/// `parse_command` succeeds exactly at the first occurrence of the
/// terminator.
pub proof fn lemma_parse_command_found(u: Seq<char>, p: int)
    requires
        0 <= p,
        p + terminator().len() <= u.len(),
        u.subrange(p, p + terminator().len()) == terminator(),
        forall|q: int| 0 <= q < p ==> #[trigger] u.subrange(q, q + terminator().len()) != terminator(),
    ensures
        parse_command(u) == Some((u.take(p), u.skip(p + terminator().len()))),
    decreases p,
{
    if p == 0 {
        assert(u.take(terminator().len() as int) =~= u.subrange(0, terminator().len() as int));
        assert(starts_with(u, terminator()));
        assert(u.take(0) =~= Seq::<char>::empty());
    } else {
        assert(u.subrange(0, 0int + terminator().len()) != terminator());
        assert(u.subrange(0, terminator().len() as int) != terminator());
        assert(u.take(terminator().len() as int) =~= u.subrange(0, terminator().len() as int));
        assert(!starts_with(u, terminator()));
        let v = u.drop_first();
        assert forall|q: int| 0 <= q < p - 1 implies #[trigger] v.subrange(
            q,
            q + terminator().len(),
        ) != terminator() by {
            assert(v.subrange(q, q + terminator().len()) =~= u.subrange(
                q + 1,
                q + 1 + terminator().len(),
            ));
        }
        assert(v.subrange(p - 1, p - 1 + terminator().len()) =~= u.subrange(
            p,
            p + terminator().len(),
        ));
        lemma_parse_command_found(v, p - 1);
        assert(seq![u[0]] + v.take(p - 1) =~= u.take(p));
        assert(v.skip(p - 1 + terminator().len()) =~= u.skip(p + terminator().len()));
    }
}

/// When the terminator occurs nowhere, `parse_command` fails.
pub proof fn lemma_parse_command_none(u: Seq<char>)
    requires
        forall|q: int|
            0 <= q && q + terminator().len() <= u.len() ==> #[trigger] u.subrange(
                q,
                q + terminator().len(),
            ) != terminator(),
    ensures
        parse_command(u) is None,
    decreases u.len(),
{
    if terminator().len() <= u.len() {
        assert(u.subrange(0, 0int + terminator().len()) != terminator());
        assert(u.subrange(0, terminator().len() as int) != terminator());
        assert(u.take(terminator().len() as int) =~= u.subrange(0, terminator().len() as int));
    }
    assert(!starts_with(u, terminator()));
    if u.len() > 0 {
        let v = u.drop_first();
        assert forall|q: int|
            0 <= q && q + terminator().len() <= v.len() implies #[trigger] v.subrange(
            q,
            q + terminator().len(),
        ) != terminator() by {
            assert(v.subrange(q, q + terminator().len()) =~= u.subrange(
                q + 1,
                q + 1 + terminator().len(),
            ));
        }
        lemma_parse_command_none(v);
    }
}

/// A whole line: five fields in fixed order, then the command.
pub open spec fn parse_cron(s: Seq<char>) -> Option<(CronItemModel, Seq<char>)> {
    match parse_field(s) {
        None => None,
        Some((minute, s1)) => match parse_field(s1) {
            None => None,
            Some((hour, s2)) => match parse_field(s2) {
                None => None,
                Some((day_of_month, s3)) => match parse_field(s3) {
                    None => None,
                    Some((month, s4)) => match parse_field(s4) {
                        None => None,
                        Some((day_of_week, s5)) => match parse_command(s5) {
                            None => None,
                            Some((command, rest)) => Some((
                                CronItemModel {
                                    minute: minute,
                                    hour: hour,
                                    day_of_month: day_of_month,
                                    month: month,
                                    day_of_week: day_of_week,
                                    command: command,
                                },
                                rest,
                            )),
                        },
                    },
                },
            },
        },
    }
}

/// The character that renders one decimal digit.
pub open spec fn digit_char(d: int) -> char {
    if d == 0 {
        '0'
    } else if d == 1 {
        '1'
    } else if d == 2 {
        '2'
    } else if d == 3 {
        '3'
    } else if d == 4 {
        '4'
    } else if d == 5 {
        '5'
    } else if d == 6 {
        '6'
    } else if d == 7 {
        '7'
    } else if d == 8 {
        '8'
    } else {
        '9'
    }
}

/// The decimal text of a non-negative number, without leading zeros.
pub open spec fn number_text(n: int) -> Seq<char>
    decreases n,
{
    if n <= 9 {
        seq![digit_char(n)]
    } else {
        number_text(n / 10) + seq![digit_char(n % 10)]
    }
}

/// The text of a list: the values joined by commas, in order.
pub open spec fn list_text(ns: Seq<u8>) -> Seq<char>
    decreases ns.len(),
{
    if ns.len() == 0 {
        Seq::empty()
    } else if ns.len() == 1 {
        number_text(ns[0] as int)
    } else {
        number_text(ns[0] as int) + seq![','] + list_text(ns.drop_first())
    }
}

/// Appending one more value to a non-empty list appends a comma and the
/// value's text.
pub proof fn lemma_list_text_push(ns: Seq<u8>, x: u8)
    requires
        ns.len() >= 1,
    ensures
        list_text(ns.push(x)) == list_text(ns) + seq![','] + number_text(x as int),
    decreases ns.len(),
{
    let p = ns.push(x);
    assert(p[0] == ns[0]);
    if ns.len() == 1 {
        assert(p.drop_first() =~= seq![x]);
        assert(list_text(seq![x]) == number_text(x as int));
        assert(list_text(p) == number_text(p[0] as int) + seq![','] + list_text(p.drop_first()));
        assert(list_text(p) =~= list_text(ns) + seq![','] + number_text(x as int));
    } else {
        assert(p.drop_first() =~= ns.drop_first().push(x));
        lemma_list_text_push(ns.drop_first(), x);
        assert(list_text(p) == number_text(p[0] as int) + seq![','] + list_text(p.drop_first()));
        assert(list_text(p) =~= list_text(ns) + seq![','] + number_text(x as int));
    }
}

/// The canonical text of one time field.
pub open spec fn time_item_text(t: TimeItemModel) -> Seq<char> {
    match t {
        TimeItemModel::AllValues => seq!['*'],
        TimeItemModel::SingleValue(n) => number_text(n as int),
        TimeItemModel::MultipleValues(ns) => list_text(ns),
        TimeItemModel::Interval(start, end) => number_text(start as int) + seq!['-'] + number_text(
            end as int,
        ),
    }
}

/// The canonical text of a whole line: the five fields joined by single
/// spaces, one more space, then the command verbatim.
pub open spec fn cron_item_text(c: CronItemModel) -> Seq<char> {
    time_item_text(c.minute) + seq![' '] + time_item_text(c.hour) + seq![' '] + time_item_text(
        c.day_of_month,
    ) + seq![' '] + time_item_text(c.month) + seq![' '] + time_item_text(c.day_of_week) + seq![' ']
        + c.command
}

} // verus!
