use cronenberg::parser::{
    all_time_values, cron_item, multiple_time_values, parse_cron_item, single_time_value,
    time_interval, time_item,
};
use cronenberg::CronItem;
use cronenberg::ParserError;
use cronenberg::TimeItem::{AllValues, Interval, MultipleValues, SingleValue};
use std::str::FromStr;

#[test]
fn parse_time_iterval() {
    assert_eq!(time_interval("1-100 1"), Ok(("1", Interval((1, 100)))));
}

#[test]
fn parse_multiple_time_values() {
    assert_eq!(
        multiple_time_values("1,5,25 1"),
        Ok(("1", MultipleValues(vec![1, 5, 25])))
    );
}

#[test]
fn parse_single_time_value() {
    assert_eq!(single_time_value("55   1"), Ok(("1", SingleValue(55))));
}

#[test]
fn parse_all_values() {
    assert_eq!(all_time_values("*     55"), Ok(("55", AllValues)));
}

#[test]
fn parse_time_item_as_interval() {
    assert_eq!(time_item("1-100  0"), Ok(("0", Interval((1, 100)))));
}

#[test]
fn parse_time_item_as_multiple_values() {
    assert_eq!(
        time_item("1,5,25   9"),
        Ok(("9", MultipleValues(vec![1, 5, 25])))
    );
}

#[test]
fn parse_time_item_as_single_value() {
    assert_eq!(time_item("1  sad"), Ok(("sad", SingleValue(1))));
}

#[test]
fn parse_time_item_as_all_values() {
    assert_eq!(time_item("*  wanna die"), Ok(("wanna die", AllValues)));
}

#[test]
fn parser_parse_cron_item() {
    assert_eq!(
        cron_item("* 1-5 * 2,5,6 5 lscommand_end"),
        Ok((
            "",
            CronItem {
                minute: AllValues,
                hour: Interval((1, 5)),
                day_of_month: AllValues,
                month: MultipleValues(vec![2, 5, 6]),
                day_of_week: SingleValue(5),
                command: String::from("ls"),
            }
        ))
    );
}

#[test]
fn parse_cron_item_with_multiword_command() {
    assert_eq!(
        cron_item("* 1-5 * 2,5,6 5 /bin/kill_me_please --now command_end"),
        Ok((
            "",
            CronItem {
                minute: AllValues,
                hour: Interval((1, 5)),
                day_of_month: AllValues,
                month: MultipleValues(vec![2, 5, 6]),
                day_of_week: SingleValue(5),
                command: String::from("/bin/kill_me_please --now "),
            }
        ))
    );
}

#[test]
fn failes_with_error() {
    let input = "1 command";

    assert_eq!(
        Err(ParserError {
            message: String::from("Coundn\'t parse cron item")
        }),
        CronItem::from_str(input)
    );
}

#[test]
fn too_few_fields_fail() {
    assert!(parse_cron_item("1 ").is_err());
}

#[test]
fn out_of_range_value_fails() {
    assert!(parse_cron_item("* * * * 300 ls").is_err());
    assert_eq!(time_item("256 "), Err(ParserError {
        message: String::from("Coundn't parse cron item")
    }));
}

#[test]
fn largest_value_parses() {
    assert_eq!(time_item("255 "), Ok(("", SingleValue(255))));
}

#[test]
fn empty_input_fails_with_generic_message() {
    let err = parse_cron_item("").unwrap_err();
    assert_eq!(err.message, "Coundn't parse cron item");
}

#[test]
fn empty_command_is_allowed() {
    let item = parse_cron_item("* * * * * ").unwrap();
    assert_eq!(item.command, "");
}

#[test]
fn missing_separator_fails() {
    assert!(time_item("1-5").is_err());
    assert!(time_item("*").is_err());
}

#[test]
fn tab_separates_fields() {
    assert_eq!(time_item("5\t6 "), Ok(("6 ", SingleValue(5))));
}

#[test]
fn list_order_and_duplicates_are_kept() {
    assert_eq!(time_item("9,3,1 "), Ok(("", MultipleValues(vec![9, 3, 1]))));
    assert_eq!(time_item("5,5 "), Ok(("", MultipleValues(vec![5, 5]))));
}
