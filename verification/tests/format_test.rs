use cronenberg::CronItem;
use cronenberg::TimeItem::{AllValues, Interval, MultipleValues, SingleValue};
use std::str::FromStr;

#[test]
fn create_cron_item_from_str() {
    let s = "* * 5-7 1,2,5 8 sudo rm -rf /";

    assert_eq!(
        CronItem::from_str(s).unwrap(),
        CronItem {
            minute: AllValues,
            hour: AllValues,
            day_of_month: Interval((5, 7)),
            month: MultipleValues(vec![1, 2, 5]),
            day_of_week: SingleValue(8),
            command: String::from("sudo rm -rf /"),
        }
    );
}

#[test]
fn convert_time_item_interval_to_string() {
    let interval = Interval((1, 10));

    assert_eq!("1-10", interval.to_string());
}

#[test]
fn convert_time_item_single_value_to_string() {
    let value = SingleValue(5);

    assert_eq!("5", value.to_string());
}

#[test]
fn convert_time_item_multiple_values_to_string() {
    let value = MultipleValues(vec![1, 5, 7]);

    assert_eq!("1,5,7", value.to_string());
}

#[test]
fn convert_time_item_all_values_to_string() {
    let value = AllValues;

    assert_eq!("*", value.to_string());
}

#[test]
fn convert_cron_item_to_string() {
    let cron_item = CronItem {
        minute: MultipleValues(vec![1, 10]),
        hour: Interval((1, 4)),
        day_of_month: Interval((1, 11)),
        month: MultipleValues(vec![1, 2, 5]),
        day_of_week: AllValues,
        command: String::from("sudo rm -rf /"),
    };

    assert_eq!("1,10 1-4 1-11 1,2,5 * sudo rm -rf /", cron_item.to_string());
}

#[test]
fn three_digit_values_format_exactly() {
    assert_eq!("100-255", Interval((100, 255)).to_string());
    assert_eq!("0", SingleValue(0).to_string());
    assert_eq!("37,208", MultipleValues(vec![37, 208]).to_string());
}
