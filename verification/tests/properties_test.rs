use cronenberg::parser::{parse_cron_item, time_item};
use cronenberg::CronItem;
use cronenberg::TimeItem::{AllValues, Interval, MultipleValues, SingleValue};

#[test]
fn round_trip_from_direct_construction() {
    let built = CronItem {
        minute: MultipleValues(vec![1, 10]),
        hour: Interval((1, 4)),
        day_of_month: SingleValue(31),
        month: AllValues,
        day_of_week: MultipleValues(vec![0, 6]),
        command: String::from("echo hello  world"),
    };
    let text = built.to_string();
    let reparsed = parse_cron_item(&text).unwrap();
    assert_eq!(reparsed, built);
}

#[test]
fn formatting_twice_yields_identical_text() {
    let item = CronItem {
        minute: SingleValue(1),
        hour: Interval((2, 3)),
        day_of_month: AllValues,
        month: MultipleValues(vec![4, 5]),
        day_of_week: SingleValue(6),
        command: String::from("ls -l"),
    };
    assert_eq!(item.to_string(), item.to_string());
    let field = MultipleValues(vec![7, 8, 9]);
    assert_eq!(field.to_string(), field.to_string());
}

#[test]
fn interval_takes_precedence_over_single_value() {
    assert_eq!(time_item("1-5 "), Ok(("", Interval((1, 5)))));
}

#[test]
fn single_value_and_list_are_distinguished() {
    assert_eq!(time_item("5 "), Ok(("", SingleValue(5))));
    assert_eq!(time_item("5,6 "), Ok(("", MultipleValues(vec![5, 6]))));
}

#[test]
fn wildcard_parses_in_every_field_position() {
    let parsed = parse_cron_item("* 1 1 1 1 x").unwrap();
    assert_eq!(parsed.minute, AllValues);
    let parsed = parse_cron_item("1 * 1 1 1 x").unwrap();
    assert_eq!(parsed.hour, AllValues);
    let parsed = parse_cron_item("1 1 * 1 1 x").unwrap();
    assert_eq!(parsed.day_of_month, AllValues);
    let parsed = parse_cron_item("1 1 1 * 1 x").unwrap();
    assert_eq!(parsed.month, AllValues);
    let parsed = parse_cron_item("1 1 1 1 * x").unwrap();
    assert_eq!(parsed.day_of_week, AllValues);
}

#[test]
fn full_line_parses_to_expected_value() {
    assert_eq!(
        parse_cron_item("* 1-5 * 2,5,6 5 ls").unwrap(),
        CronItem {
            minute: AllValues,
            hour: Interval((1, 5)),
            day_of_month: AllValues,
            month: MultipleValues(vec![2, 5, 6]),
            day_of_week: SingleValue(5),
            command: String::from("ls"),
        }
    );
}
