use diet_manager::dates::{
    chosen_date, date_after_step, is_valid_date, next_day, previous_day, select_date,
};

#[test]
fn valid_dates_are_year_month_day() {
    assert!(is_valid_date("2024-02-29"));
    assert!(is_valid_date("2023-12-31"));
    assert!(!is_valid_date("2023-02-29"));
    assert!(!is_valid_date("2023-13-01"));
    assert!(!is_valid_date("2023/01/01"));
    assert!(!is_valid_date("yesterday"));
    assert!(!is_valid_date(""));
}

#[test]
fn previous_day_steps_back_over_months_and_years() {
    assert_eq!(previous_day("2024-03-15"), Some("2024-03-14".to_string()));
    assert_eq!(previous_day("2024-03-01"), Some("2024-02-29".to_string()));
    assert_eq!(previous_day("2023-03-01"), Some("2023-02-28".to_string()));
    assert_eq!(previous_day("2024-01-01"), Some("2023-12-31".to_string()));
    assert_eq!(previous_day("not a date"), None);
}

#[test]
fn next_day_steps_forward_over_months_and_years() {
    assert_eq!(next_day("2024-03-15"), Some("2024-03-16".to_string()));
    assert_eq!(next_day("2024-02-28"), Some("2024-02-29".to_string()));
    assert_eq!(next_day("2023-02-28"), Some("2023-03-01".to_string()));
    assert_eq!(next_day("2023-12-31"), Some("2024-01-01".to_string()));
    assert_eq!(next_day("2023-02-30"), None);
}

#[test]
fn steps_write_the_date_in_full() {
    assert_eq!(next_day("2024-1-9"), Some("2024-01-10".to_string()));
    assert_eq!(previous_day("0999-01-01"), Some("0998-12-31".to_string()));
}

#[test]
fn date_after_step_keeps_the_date_where_no_day_was_found() {
    assert_eq!(date_after_step("2024-03-15", Some("2024-03-16".to_string())), "2024-03-16");
    assert_eq!(date_after_step("garbage", None), "garbage");
    assert_eq!(date_after_step("2024-03-15", next_day("2024-03-15")), "2024-03-16");
    assert_eq!(date_after_step("garbage", previous_day("garbage")), "garbage");
}

#[test]
fn chosen_date_falls_back_to_today() {
    assert_eq!(chosen_date("2024-05-06", true, "2024-01-01"), "2024-05-06");
    assert_eq!(chosen_date("nonsense", false, "2024-01-01"), "2024-01-01");
    assert_eq!(chosen_date("", true, "2024-01-01"), "2024-01-01");
    assert_eq!(chosen_date("", false, "2024-01-01"), "2024-01-01");
}

#[test]
fn select_date_takes_a_valid_input_as_typed() {
    assert_eq!(select_date("2024-05-06", "2024-01-01"), "2024-05-06");
    assert_eq!(select_date("2024-5-6", "2024-01-01"), "2024-5-6");
    assert_eq!(select_date("2024-02-30", "2024-01-01"), "2024-01-01");
    assert_eq!(select_date("", "2024-01-01"), "2024-01-01");
}
