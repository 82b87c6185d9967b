//! The round-trip law: parsing the canonical text of a value yields the
//! value back.
//!
//! [`lemma_format_then_parse`] states the law for a whole line;
//! [`lemma_parse_field_text`] states it for one time field. The law asks
//! three things of the value, and nothing else: every list field holds at
//! least two values (a one-element list renders as a lone number, which the
//! precedence order reads back as a single value); the command does not
//! begin with a blank (a leading blank would be swallowed by the separator
//! run); and the command does not contain the internal terminator (the
//! command scan would stop at it).

use vstd::prelude::*;

use crate::grammar::{
    blank_count, cron_item_text, digit_char, digit_count, digit_val, is_blank, is_digit,
    lemma_blank_count_is, lemma_digit_count_is, lemma_parse_command_found, list_text, number_text,
    parse_blanks, parse_command, parse_cron, parse_field, parse_interval, parse_more_numbers,
    parse_multiple, parse_number, parse_number_list, parse_single, parse_wildcard, seq_val,
    terminator, time_item_text, CronItemModel, TimeItemModel,
};

verus! {

/// Each digit character denotes its digit.
pub proof fn lemma_digit_char_val(d: int)
    requires
        0 <= d <= 9,
    ensures
        is_digit(digit_char(d)),
        digit_val(digit_char(d)) == d,
{
}

/// The decimal text of a number is a non-empty run of digits.
pub proof fn lemma_number_text_digits(n: int)
    requires
        n >= 0,
    ensures
        number_text(n).len() >= 1,
        forall|k: int| 0 <= k < number_text(n).len() ==> is_digit(#[trigger] number_text(n)[k]),
    decreases n,
{
    if n <= 9 {
        lemma_digit_char_val(n);
    } else {
        lemma_number_text_digits(n / 10);
        lemma_digit_char_val(n % 10);
        assert forall|k: int| 0 <= k < number_text(n).len() implies is_digit(
            #[trigger] number_text(n)[k],
        ) by {
            if k < number_text(n / 10).len() {
                assert(number_text(n)[k] == number_text(n / 10)[k]);
            } else {
                assert(number_text(n)[k] == digit_char(n % 10));
            }
        }
    }
}

/// The decimal text of a number denotes the number.
pub proof fn lemma_seq_val_number_text(n: int)
    requires
        n >= 0,
    ensures
        seq_val(number_text(n)) == n,
    decreases n,
{
    if n <= 9 {
        lemma_digit_char_val(n);
        assert(number_text(n).len() == 1);
        assert(number_text(n).drop_last() =~= Seq::<char>::empty());
        assert(seq_val(Seq::<char>::empty()) == 0);
        assert(number_text(n).last() == digit_char(n));
        assert(seq_val(number_text(n)) == 10 * seq_val(number_text(n).drop_last()) + digit_val(
            number_text(n).last(),
        ));
    } else {
        lemma_seq_val_number_text(n / 10);
        lemma_digit_char_val(n % 10);
        assert(number_text(n).drop_last() =~= number_text(n / 10));
        assert(number_text(n).last() == digit_char(n % 10));
    }
}

/// A rendered number followed by anything that does not begin with a digit
/// parses back to the number.
pub proof fn lemma_parse_number_text(n: u8, rest: Seq<char>)
    requires
        rest.len() == 0 || !is_digit(rest[0]),
    ensures
        parse_number(number_text(n as int) + rest) == Some((n, rest)),
{
    let nt = number_text(n as int);
    let u = nt + rest;
    lemma_number_text_digits(n as int);
    assert forall|k: int| 0 <= k < nt.len() implies is_digit(#[trigger] u[k]) by {
        assert(u[k] == nt[k]);
    }
    if rest.len() > 0 {
        assert(u[nt.len() as int] == rest[0]);
    }
    lemma_digit_count_is(u, nt.len() as int);
    assert(u.take(nt.len() as int) =~= nt);
    lemma_seq_val_number_text(n as int);
    assert(u.skip(nt.len() as int) =~= rest);
}

/// One blank followed by anything that does not begin with a blank is
/// consumed exactly.
pub proof fn lemma_parse_blanks_one(rest: Seq<char>)
    requires
        rest.len() == 0 || !is_blank(rest[0]),
    ensures
        parse_blanks(seq![' '] + rest) == Some(rest),
{
    let u = seq![' '] + rest;
    assert(u[0] == ' ');
    if rest.len() > 0 {
        assert(u[1] == rest[0]);
    }
    lemma_blank_count_is(u, 1);
    assert(u.skip(1) =~= rest);
}

/// A rendered list followed by anything that does not begin with a digit or
/// a comma parses back to the same values.
pub proof fn lemma_parse_list_text(ns: Seq<u8>, rest: Seq<char>)
    requires
        ns.len() >= 1,
        rest.len() == 0 || (!is_digit(rest[0]) && rest[0] != ','),
    ensures
        parse_number_list(list_text(ns) + rest) == Some((ns, rest)),
    decreases ns.len(),
{
    let u = list_text(ns) + rest;
    if ns.len() == 1 {
        assert(u =~= number_text(ns[0] as int) + rest);
        lemma_parse_number_text(ns[0], rest);
        assert(parse_more_numbers(rest) == (Seq::<u8>::empty(), rest));
        assert(seq![ns[0]] + Seq::<u8>::empty() =~= ns);
    } else {
        let tail = list_text(ns.drop_first()) + rest;
        let r1 = seq![','] + tail;
        assert(u =~= number_text(ns[0] as int) + r1);
        assert(r1[0] == ',');
        lemma_parse_number_text(ns[0], r1);
        lemma_parse_list_text(ns.drop_first(), rest);
        assert(r1.skip(1) =~= tail);
        assert(parse_more_numbers(r1) == (ns.drop_first(), rest));
        assert(seq![ns[0]] + ns.drop_first() =~= ns);
    }
}

/// What the round-trip law asks of one field: a list holds at least two
/// values. A one-element list renders as a lone number, which parses back
/// as a single value, so it cannot survive a round trip.
pub open spec fn field_round_trip_ok(t: TimeItemModel) -> bool {
    t matches TimeItemModel::MultipleValues(ns) ==> ns.len() >= 2
}

/// The canonical text of a field is non-empty and starts with a digit or
/// `*`, never with a blank.
pub proof fn lemma_time_item_text_head(t: TimeItemModel)
    requires
        field_round_trip_ok(t),
    ensures
        time_item_text(t).len() >= 1,
        !is_blank(time_item_text(t)[0]),
{
    match t {
        TimeItemModel::AllValues => {},
        TimeItemModel::SingleValue(n) => {
            lemma_number_text_digits(n as int);
        },
        TimeItemModel::Interval(a, b) => {
            lemma_number_text_digits(a as int);
            assert(time_item_text(t)[0] == number_text(a as int)[0]);
        },
        TimeItemModel::MultipleValues(ns) => {
            lemma_number_text_digits(ns[0] as int);
            assert(list_text(ns)[0] == number_text(ns[0] as int)[0]);
        },
    }
}

/// The canonical text of one field, one separating blank, and any
/// remainder that does not begin with a blank, parses back to the field.
/// The precedence order settles every overlap between the alternatives.
pub proof fn lemma_parse_field_text(t: TimeItemModel, rest: Seq<char>)
    requires
        field_round_trip_ok(t),
        rest.len() == 0 || !is_blank(rest[0]),
    ensures
        parse_field(time_item_text(t) + seq![' '] + rest) == Some((t, rest)),
{
    let u = time_item_text(t) + seq![' '] + rest;
    match t {
        TimeItemModel::AllValues => {
            assert(u[0] == '*');
            assert(!is_digit('*'));
            assert(digit_count(u) == 0);
            assert(parse_number(u) is None);
            assert(u.skip(1) =~= seq![' '] + rest);
            lemma_parse_blanks_one(rest);
        },
        TimeItemModel::SingleValue(n) => {
            let r1 = seq![' '] + rest;
            assert(u =~= number_text(n as int) + r1);
            assert(r1[0] == ' ');
            lemma_parse_number_text(n, r1);
            lemma_parse_blanks_one(rest);
            assert(parse_interval(u) is None);
            assert(parse_single(u) == Some((n, rest)));
        },
        TimeItemModel::Interval(a, b) => {
            let r2 = seq![' '] + rest;
            let r1 = seq!['-'] + (number_text(b as int) + r2);
            assert(u =~= number_text(a as int) + r1);
            assert(r1[0] == '-');
            lemma_parse_number_text(a, r1);
            assert(r1.skip(1) =~= number_text(b as int) + r2);
            assert(r2[0] == ' ');
            lemma_parse_number_text(b, r2);
            lemma_parse_blanks_one(rest);
            assert(parse_interval(u) == Some(((a, b), rest)));
        },
        TimeItemModel::MultipleValues(ns) => {
            let r1 = seq![' '] + rest;
            assert(u =~= list_text(ns) + r1);
            assert(r1[0] == ' ');
            lemma_parse_list_text(ns, r1);
            lemma_parse_blanks_one(rest);
            let r_num = seq![','] + (list_text(ns.drop_first()) + r1);
            assert(u =~= number_text(ns[0] as int) + r_num);
            assert(r_num[0] == ',');
            lemma_parse_number_text(ns[0], r_num);
            assert(parse_interval(u) is None);
            assert(blank_count(r_num) == 0);
            assert(parse_single(u) is None);
            lemma_number_text_digits(ns[0] as int);
            assert(u[0] == number_text(ns[0] as int)[0]);
            assert(!is_digit('*'));
            assert(u[0] != '*');
            assert(parse_wildcard(u) is None);
            assert(parse_multiple(u) == Some((ns, rest)));
        },
    }
}

/// Whether `sub` occurs in `h` starting at position `p`.
pub open spec fn occurs_at(h: Seq<char>, sub: Seq<char>, p: int) -> bool {
    0 <= p && p + sub.len() <= h.len() && h.subrange(p, p + sub.len()) == sub
}

/// Whether the internal terminator occurs anywhere in `s`.
pub open spec fn contains_terminator(s: Seq<char>) -> bool {
    exists|p: int| occurs_at(s, terminator(), p)
}

/// The characters of the terminator: it starts with `c` and holds no other
/// `c`, so no proper prefix of it is also a suffix of it.
pub proof fn lemma_terminator_chars()
    ensures
        terminator().len() == 11,
        terminator()[0] == 'c',
        forall|k: int| 1 <= k < 11 ==> #[trigger] terminator()[k] != 'c',
{
    reveal_strlit("command_end");
    assert(terminator()[1] == 'o');
    assert(terminator()[2] == 'm');
    assert(terminator()[3] == 'm');
    assert(terminator()[4] == 'a');
    assert(terminator()[5] == 'n');
    assert(terminator()[6] == 'd');
    assert(terminator()[7] == '_');
    assert(terminator()[8] == 'e');
    assert(terminator()[9] == 'n');
    assert(terminator()[10] == 'd');
    assert forall|k: int| 1 <= k < 11 implies #[trigger] terminator()[k] != 'c' by {
        if k == 1 {
        } else if k == 2 {
        } else if k == 3 {
        } else if k == 4 {
        } else if k == 5 {
        } else if k == 6 {
        } else if k == 7 {
        } else if k == 8 {
        } else if k == 9 {
        } else {
            assert(k == 10);
        }
    }
}

/// When a command does not contain the terminator, appending the
/// terminator creates no occurrence before the end of the command either:
/// an occurrence straddling the boundary would put the terminator's first
/// character, `c`, at a later position inside the terminator, and no such
/// position holds a `c`.
pub proof fn lemma_no_terminator_prefix(cmd: Seq<char>)
    requires
        !contains_terminator(cmd),
    ensures
        forall|p: int|
            0 <= p < cmd.len() ==> #[trigger] (cmd + terminator()).subrange(
                p,
                p + terminator().len(),
            ) != terminator(),
{
    lemma_terminator_chars();
    let u = cmd + terminator();
    assert forall|p: int| 0 <= p < cmd.len() implies #[trigger] u.subrange(
        p,
        p + terminator().len(),
    ) != terminator() by {
        if u.subrange(p, p + terminator().len()) == terminator() {
            if p + 11 <= cmd.len() {
                assert(cmd.subrange(p, p + terminator().len()) =~= u.subrange(
                    p,
                    p + terminator().len(),
                ));
                assert(occurs_at(cmd, terminator(), p));
                assert(false);
            } else {
                let k = cmd.len() - p;
                assert(1 <= k < 11);
                assert(u[cmd.len() as int] == terminator()[0]);
                assert(u.subrange(p, p + terminator().len())[k] == u[p + k]);
                assert(terminator()[k] == 'c');
                assert(false);
            }
        }
    }
}

/// A command that does not contain the terminator, followed by the
/// terminator, parses back to the command with nothing left over.
pub proof fn lemma_parse_command_text(cmd: Seq<char>)
    requires
        !contains_terminator(cmd),
    ensures
        parse_command(cmd + terminator()) == Some((cmd, Seq::<char>::empty())),
{
    let u = cmd + terminator();
    lemma_no_terminator_prefix(cmd);
    assert(u.subrange(cmd.len() as int, cmd.len() as int + terminator().len()) =~= terminator());
    lemma_parse_command_found(u, cmd.len() as int);
    assert(u.take(cmd.len() as int) =~= cmd);
    assert(u.skip(cmd.len() as int + terminator().len()) =~= Seq::<char>::empty());
}

/// What the round-trip law asks of a whole line; see the module note.
pub open spec fn round_trip_ok(c: CronItemModel) -> bool {
    &&& field_round_trip_ok(c.minute)
    &&& field_round_trip_ok(c.hour)
    &&& field_round_trip_ok(c.day_of_month)
    &&& field_round_trip_ok(c.month)
    &&& field_round_trip_ok(c.day_of_week)
    &&& c.command.len() > 0 ==> !is_blank(c.command[0])
    &&& !contains_terminator(c.command)
}

/// The round-trip law: the canonical text of a value, with the terminator
/// appended as the parse entry point does, parses back to the value
/// exactly, with no input left over.
pub proof fn lemma_format_then_parse(c: CronItemModel)
    requires
        round_trip_ok(c),
    ensures
        parse_cron(cron_item_text(c) + terminator()) == Some((c, Seq::<char>::empty())),
{
    lemma_terminator_chars();
    let ct = c.command + terminator();
    let t5 = time_item_text(c.day_of_week) + seq![' '] + ct;
    let t4 = time_item_text(c.month) + seq![' '] + t5;
    let t3 = time_item_text(c.day_of_month) + seq![' '] + t4;
    let t2 = time_item_text(c.hour) + seq![' '] + t3;
    let t1 = time_item_text(c.minute) + seq![' '] + t2;
    assert(cron_item_text(c) + terminator() =~= t1);
    lemma_time_item_text_head(c.hour);
    lemma_time_item_text_head(c.day_of_month);
    lemma_time_item_text_head(c.month);
    lemma_time_item_text_head(c.day_of_week);
    if c.command.len() > 0 {
        assert(ct[0] == c.command[0]);
    } else {
        assert(ct[0] == terminator()[0]);
    }
    assert(!is_blank(ct[0]));
    assert(t2[0] == time_item_text(c.hour)[0]);
    assert(t3[0] == time_item_text(c.day_of_month)[0]);
    assert(t4[0] == time_item_text(c.month)[0]);
    assert(t5[0] == time_item_text(c.day_of_week)[0]);
    lemma_parse_field_text(c.minute, t2);
    lemma_parse_field_text(c.hour, t3);
    lemma_parse_field_text(c.day_of_month, t4);
    lemma_parse_field_text(c.month, t5);
    lemma_parse_field_text(c.day_of_week, ct);
    lemma_parse_command_text(c.command);
    assert(parse_cron(t1) == Some((c, Seq::<char>::empty())));
}

} // verus!
