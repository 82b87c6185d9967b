//! The in-memory representation of a cron line and its rendering back to
//! canonical text.

use vstd::prelude::*;

use vstd::string::StringExecFns;

use crate::grammar::{
    cron_item_text, digit_char, lemma_list_text_push, list_text, number_text, parse_cron,
    parser_error_text, terminator, time_item_text, CronItemModel, TimeItemModel,
};

verus! {

/// One time field of a cron line.
#[derive(Debug, PartialEq)]
pub enum TimeItem {
    /// The field matches every value; textual form `*`.
    AllValues,
    /// The field matches exactly one value; textual form `5`.
    SingleValue(u8),
    /// An ordered, non-empty list of values; textual form `1,2,5`. The
    /// order is preserved from the input.
    MultipleValues(Vec<u8>),
    /// A closed range; textual form `start-end`. The model does not require
    /// `start <= end`.
    Interval((u8, u8)),
}

/// A whole cron line: five time fields in fixed order, and the command,
/// which is the untyped remainder of the line.
#[derive(Debug, PartialEq)]
pub struct CronItem {
    pub minute: TimeItem,
    pub hour: TimeItem,
    pub day_of_month: TimeItem,
    pub month: TimeItem,
    pub day_of_week: TimeItem,
    pub command: String,
}

impl View for TimeItem {
    type V = TimeItemModel;

    open spec fn view(&self) -> TimeItemModel {
        match self {
            TimeItem::AllValues => TimeItemModel::AllValues,
            TimeItem::SingleValue(n) => TimeItemModel::SingleValue(*n),
            TimeItem::MultipleValues(ns) => TimeItemModel::MultipleValues(ns@),
            TimeItem::Interval(p) => TimeItemModel::Interval(p.0, p.1),
        }
    }
}

impl View for CronItem {
    type V = CronItemModel;

    open spec fn view(&self) -> CronItemModel {
        CronItemModel {
            minute: self.minute@,
            hour: self.hour@,
            day_of_month: self.day_of_month@,
            month: self.month@,
            day_of_week: self.day_of_week@,
            command: self.command@,
        }
    }
}

impl core::str::FromStr for CronItem {
    type Err = crate::parser::ParserError;

    /// Delegates to [`crate::parser::parse_cron_item`] and keeps its
    /// contract: success exactly when the grammar accepts the line with the
    /// terminator appended, failure with the one fixed message otherwise.
    fn from_str(s: &str) -> (r: Result<CronItem, crate::parser::ParserError>)
        ensures
            r matches Ok(c) ==> parse_cron(s@ + terminator()) matches Some((m, rem)) && c@ == m,
            r matches Err(e) ==> parse_cron(s@ + terminator()) is None && e.message@
                == parser_error_text(),
    {
        crate::parser::parse_cron_item(s)
    }
}

/// The one-character text of a decimal digit.
fn digit_str(d: u8) -> (r: &'static str)
    requires
        d <= 9,
    ensures
        r@ == seq![digit_char(d as int)],
{
    proof {
        reveal_strlit("0");
        reveal_strlit("1");
        reveal_strlit("2");
        reveal_strlit("3");
        reveal_strlit("4");
        reveal_strlit("5");
        reveal_strlit("6");
        reveal_strlit("7");
        reveal_strlit("8");
        reveal_strlit("9");
        assert("0"@ =~= seq!['0']);
        assert("1"@ =~= seq!['1']);
        assert("2"@ =~= seq!['2']);
        assert("3"@ =~= seq!['3']);
        assert("4"@ =~= seq!['4']);
        assert("5"@ =~= seq!['5']);
        assert("6"@ =~= seq!['6']);
        assert("7"@ =~= seq!['7']);
        assert("8"@ =~= seq!['8']);
        assert("9"@ =~= seq!['9']);
    }
    match d {
        0 => "0",
        1 => "1",
        2 => "2",
        3 => "3",
        4 => "4",
        5 => "5",
        6 => "6",
        7 => "7",
        8 => "8",
        _ => "9",
    }
}

/// The decimal text of a number, without leading zeros.
fn number_to_string(n: u8) -> (r: String)
    ensures
        r@ == number_text(n as int),
{
    if n <= 9 {
        digit_str(n).to_owned()
    } else if n <= 99 {
        let mut r = digit_str(n / 10).to_owned();
        r.append(digit_str(n % 10));
        proof {
            assert(number_text(n as int / 10) == seq![digit_char(n as int / 10)]);
            assert(r@ =~= number_text(n as int / 10) + seq![digit_char(n as int % 10)]);
        }
        r
    } else {
        let q = n / 10;
        let mut r = digit_str(q / 10).to_owned();
        r.append(digit_str(q % 10));
        r.append(digit_str(n % 10));
        proof {
            assert(number_text(q as int / 10) == seq![digit_char(q as int / 10)]);
            assert(number_text(q as int) == number_text(q as int / 10) + seq![
                digit_char(q as int % 10),
            ]);
            assert(r@ =~= number_text(q as int) + seq![digit_char(n as int % 10)]);
        }
        r
    }
}

impl TimeItem {
    /// Render this field to its canonical text.
    pub fn to_string(&self) -> (r: String)
        ensures
            r@ == time_item_text(self@),
    {
        match self {
            TimeItem::AllValues => {
                let r = "*".to_owned();
                proof {
                    reveal_strlit("*");
                    assert(r@ =~= seq!['*']);
                }
                r
            },
            TimeItem::SingleValue(n) => number_to_string(*n),
            TimeItem::Interval(p) => {
                let mut r = number_to_string(p.0);
                let dash = "-";
                proof {
                    reveal_strlit("-");
                    assert(dash@ =~= seq!['-']);
                }
                r.append(dash);
                let end_text = number_to_string(p.1);
                r.append(end_text.as_str());
                r
            },
            TimeItem::MultipleValues(ns) => {
                let mut r = String::new();
                let mut k: usize = 0;
                let comma = ",";
                proof {
                    reveal_strlit(",");
                    assert(comma@ =~= seq![',']);
                    assert(ns@.take(0) =~= Seq::<u8>::empty());
                }
                while k < ns.len()
                    invariant
                        k <= ns@.len(),
                        r@ == list_text(ns@.take(k as int)),
                        comma@ == seq![','],
                    decreases ns@.len() - k,
                {
                    if k > 0 {
                        r.append(comma);
                    }
                    let value_text = number_to_string(ns[k]);
                    r.append(value_text.as_str());
                    proof {
                        assert(ns@.take(k + 1) =~= ns@.take(k as int).push(ns@[k as int]));
                        if k > 0 {
                            lemma_list_text_push(ns@.take(k as int), ns@[k as int]);
                        } else {
                            assert(list_text(ns@.take(1)) == number_text(ns@[0] as int));
                            assert(r@ =~= number_text(ns@[0] as int));
                        }
                    }
                    k = k + 1;
                }
                proof {
                    assert(ns@.take(ns@.len() as int) =~= ns@);
                }
                r
            },
        }
    }
}

impl CronItem {
    /// Render this line to its canonical text: the five fields joined by
    /// single spaces, one more space, then the command verbatim.
    pub fn to_string(&self) -> (r: String)
        ensures
            r@ == cron_item_text(self@),
    {
        let blank = " ";
        proof {
            reveal_strlit(" ");
            assert(blank@ =~= seq![' ']);
        }
        let mut r = self.minute.to_string();
        r.append(blank);
        let hour_text = self.hour.to_string();
        r.append(hour_text.as_str());
        r.append(blank);
        let day_of_month_text = self.day_of_month.to_string();
        r.append(day_of_month_text.as_str());
        r.append(blank);
        let month_text = self.month.to_string();
        r.append(month_text.as_str());
        r.append(blank);
        let day_of_week_text = self.day_of_week.to_string();
        r.append(day_of_week_text.as_str());
        r.append(blank);
        r.append(self.command.as_str());
        proof {
            assert(r@ =~= cron_item_text(self@));
        }
        r
    }
}

} // verus!
