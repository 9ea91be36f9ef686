use diet_manager::amount::Amount;
use diet_manager::database::Database;
use diet_manager::food::{BasicFood, CompositeFood, Food};
use diet_manager::log::{calories_of_entry, DailyLog, LogEntry};
use diet_manager::resolver::ResolveError;

fn entries_of(log: &DailyLog, date: &str) -> Vec<(String, u64)> {
    log.get_log_entries(date)
        .iter()
        .map(|e| (e.food_id.clone(), e.servings.thousandths / 1000))
        .collect()
}

fn pair(id: &str, servings: u64) -> (String, u64) {
    (id.to_string(), servings)
}

fn foods() -> Database {
    let mut db = Database::new("f");
    db.add_food(Food::Basic(BasicFood { id: "egg".to_string(), keywords: vec![], calories: Amount::whole(70) }));
    db.add_food(Food::Basic(BasicFood { id: "rice".to_string(), keywords: vec![], calories: Amount::whole(130) }));
    db.add_food(Food::Composite(CompositeFood {
        id: "omelet".to_string(),
        keywords: vec![],
        components: vec![("egg".to_string(), Amount::whole(2))],
    }));
    db.add_food(Food::Composite(CompositeFood {
        id: "loop".to_string(),
        keywords: vec![],
        components: vec![("loop".to_string(), Amount::whole(1))],
    }));
    db.add_food(Food::Basic(BasicFood { id: "huge".to_string(), keywords: vec![], calories: Amount::from_thousandths(u64::MAX) }));
    db
}

#[test]
fn new_log_has_no_entries() {
    let log = DailyLog::new("log.json");
    assert_eq!(log.file_path(), "log.json");
    assert!(!log.has_entries_for_date("2024-01-01"));
    assert!(log.get_log_entries("2024-01-01").is_empty());
    assert!(log.get_all_dates().is_empty());
    assert_eq!(log.get_total_calories("2024-01-01", &foods()), Ok(Amount::whole(0)));
}

#[test]
fn add_food_appends_and_gives_the_position() {
    let mut log = DailyLog::new("l");
    assert_eq!(log.add_food("2024-01-01", "egg", Amount::whole(2)), 0);
    assert_eq!(log.add_food("2024-01-01", "rice", Amount::whole(1)), 1);
    assert_eq!(log.add_food("2024-01-02", "egg", Amount::whole(3)), 0);
    assert_eq!(log.add_food("2024-01-01", "egg", Amount::whole(5)), 2);
    assert_eq!(entries_of(&log, "2024-01-01"), vec![pair("egg", 2), pair("rice", 1), pair("egg", 5)]);
    assert_eq!(entries_of(&log, "2024-01-02"), vec![pair("egg", 3)]);
    assert!(log.has_entries_for_date("2024-01-01"));
    assert!(!log.has_entries_for_date("2024-01-03"));
    assert_eq!(log.get_all_dates(), vec!["2024-01-01", "2024-01-02"]);
}

#[test]
fn remove_food_takes_the_entry_and_shifts_the_rest() {
    let mut log = DailyLog::new("l");
    log.add_food("d", "a", Amount::whole(1));
    log.add_food("d", "b", Amount::whole(2));
    log.add_food("d", "c", Amount::whole(3));
    log.add_food("e", "z", Amount::whole(9));
    let taken = log.remove_food("d", 1).unwrap();
    assert_eq!((taken.food_id.as_str(), taken.servings), ("b", Amount::whole(2)));
    assert_eq!(entries_of(&log, "d"), vec![pair("a", 1), pair("c", 3)]);
    assert_eq!(entries_of(&log, "e"), vec![pair("z", 9)]);
    let last = log.remove_food("d", 1).unwrap();
    assert_eq!(last.food_id, "c");
    assert_eq!(entries_of(&log, "d"), vec![pair("a", 1)]);
}

#[test]
fn remove_food_out_of_range_changes_nothing() {
    let mut log = DailyLog::new("l");
    log.add_food("d", "a", Amount::whole(1));
    assert!(log.remove_food("d", 1).is_none());
    assert!(log.remove_food("d", usize::MAX).is_none());
    assert!(log.remove_food("other", 0).is_none());
    assert_eq!(entries_of(&log, "d"), vec![pair("a", 1)]);
    assert_eq!(log.get_all_dates(), vec!["d"]);
}

#[test]
fn append_then_remove_at_the_position_restores_the_date() {
    let mut log = DailyLog::new("l");
    log.add_food("d", "a", Amount::whole(1));
    log.add_food("d", "b", Amount::whole(2));
    let before = entries_of(&log, "d");
    let position = log.add_food("d", "c", Amount::whole(3));
    assert_eq!(position, before.len());
    let taken = log.remove_food("d", position).unwrap();
    assert_eq!((taken.food_id.as_str(), taken.servings), ("c", Amount::whole(3)));
    assert_eq!(entries_of(&log, "d"), before);
    let fresh = log.add_food("new", "x", Amount::whole(1));
    assert_eq!(fresh, 0);
    assert!(log.remove_food("new", fresh).is_some());
    assert!(entries_of(&log, "new").is_empty());
}

#[test]
fn emptied_date_counts_as_no_entries() {
    let mut log = DailyLog::new("l");
    log.add_food("d", "a", Amount::whole(1));
    log.remove_food("d", 0);
    assert!(!log.has_entries_for_date("d"));
    assert!(log.get_log_entries("d").is_empty());
    assert_eq!(log.get_total_calories("d", &foods()), Ok(Amount::whole(0)));
    assert!(log.get_all_dates().is_empty());
    assert_eq!(log.add_food("d", "b", Amount::whole(2)), 0);
    assert_eq!(log.get_all_dates(), vec!["d"]);
}

#[test]
fn all_dates_are_those_with_entries_each_once() {
    let mut log = DailyLog::new("l");
    log.add_food("d1", "a", Amount::whole(1));
    log.add_food("d2", "b", Amount::whole(1));
    log.add_food("d1", "c", Amount::whole(1));
    log.add_food("d3", "d", Amount::whole(1));
    assert_eq!(log.get_all_dates(), vec!["d1", "d2", "d3"]);
    log.remove_food("d2", 0);
    assert_eq!(log.get_all_dates(), vec!["d1", "d3"]);
    log.remove_food("d1", 0);
    assert_eq!(log.get_all_dates(), vec!["d1", "d3"]);
    log.remove_food("d1", 0);
    assert_eq!(log.get_all_dates(), vec!["d3"]);
    for date in ["d1", "d2", "d3", "d4"] {
        let listed = log.get_all_dates().iter().any(|d| d.as_str() == date);
        assert_eq!(listed, log.has_entries_for_date(date));
        assert_eq!(listed, !log.get_log_entries(date).is_empty());
    }
    log.add_food("d2", "e", Amount::whole(1));
    assert_eq!(log.get_all_dates(), vec!["d2", "d3"]);
}

#[test]
fn total_calories_sums_the_entries() {
    let db = foods();
    let mut log = DailyLog::new("l");
    log.add_food("d", "egg", Amount::whole(2));
    log.add_food("d", "omelet", Amount::whole(3));
    log.add_food("d", "rice", Amount::whole(1));
    log.add_food("e", "rice", Amount::whole(10));
    assert_eq!(log.get_total_calories("d", &db), Ok(Amount::whole(2 * 70 + 3 * 140 + 130)));
    assert_eq!(log.get_total_calories("e", &db), Ok(Amount::whole(1300)));
}

#[test]
fn total_calories_counts_unknown_food_as_nothing() {
    let db = foods();
    let mut log = DailyLog::new("l");
    log.add_food("d", "ghost", Amount::whole(4));
    log.add_food("d", "egg", Amount::whole(1));
    assert_eq!(log.get_total_calories("d", &db), Ok(Amount::whole(70)));
    assert_eq!(log.get_total_calories("d", &Database::new("none")), Ok(Amount::whole(0)));
}

#[test]
fn total_calories_reports_a_cycle() {
    let db = foods();
    let mut log = DailyLog::new("l");
    log.add_food("d", "egg", Amount::whole(1));
    log.add_food("d", "loop", Amount::whole(1));
    assert_eq!(log.get_total_calories("d", &db), Err(ResolveError::CycleDetected));
}

#[test]
fn total_calories_reports_an_overflow() {
    let db = foods();
    let mut log = DailyLog::new("l");
    log.add_food("d", "huge", Amount::whole(1));
    assert_eq!(log.get_total_calories("d", &db), Ok(Amount::from_thousandths(u64::MAX)));
    log.add_food("d", "egg", Amount::whole(1));
    assert_eq!(log.get_total_calories("d", &db), Err(ResolveError::Overflow));
    log.add_food("d", "loop", Amount::whole(0));
    assert_eq!(log.get_total_calories("d", &db), Err(ResolveError::CycleDetected));
}

#[test]
fn calories_of_one_entry() {
    let db = foods();
    let entry =
        |id: &str, servings: u32| LogEntry { food_id: id.to_string(), servings: Amount::whole(servings) };
    assert_eq!(calories_of_entry(&entry("omelet", 3), &db), Ok(Amount::whole(420)));
    assert_eq!(calories_of_entry(&entry("ghost", 3), &db), Ok(Amount::whole(0)));
    assert_eq!(calories_of_entry(&entry("egg", 0), &db), Ok(Amount::whole(0)));
    assert_eq!(calories_of_entry(&entry("huge", 2), &db), Err(ResolveError::Overflow));
    assert_eq!(calories_of_entry(&entry("loop", 1), &db), Err(ResolveError::CycleDetected));
}

#[test]
fn load_replaces_the_days_and_save_hands_them_out() {
    let mut log = DailyLog::new("l");
    log.add_food("old", "a", Amount::whole(1));
    let entry =
        |id: &str, servings: u32| LogEntry { food_id: id.to_string(), servings: Amount::whole(servings) };
    log.load(vec![
        ("d1".to_string(), vec![entry("egg", 1), entry("rice", 2)]),
        ("d2".to_string(), vec![]),
        ("d1".to_string(), vec![entry("bread", 3)]),
    ]);
    assert!(!log.has_entries_for_date("old"));
    assert_eq!(entries_of(&log, "d1"), vec![pair("bread", 3)]);
    assert_eq!(log.get_all_dates(), vec!["d1"]);
    assert!(!log.has_entries_for_date("d2"));
    log.add_food("d2", "egg", Amount::whole(4));
    assert_eq!(log.get_all_dates(), vec!["d1", "d2"]);
    let saved = log.save();
    assert_eq!(saved.len(), 2);
    assert_eq!(saved[0].0, "d1");
    assert_eq!(saved[1].0, "d2");
    assert_eq!(saved[1].1.len(), 1);
    assert_eq!(saved[1].1[0].food_id, "egg");
    assert_eq!(saved[1].1[0].servings, Amount::whole(4));
    assert_eq!(log.file_path(), "l");
}

#[test]
fn total_calories_counts_fractions_of_servings() {
    let db = foods();
    let mut log = DailyLog::new("l");
    log.add_food("d", "omelet", Amount::from_thousandths(1_500));
    log.add_food("d", "egg", Amount::from_thousandths(250));
    assert_eq!(log.get_total_calories("d", &db), Ok(Amount::from_thousandths(210_000 + 17_500)));
    let entry = LogEntry { food_id: "rice".to_string(), servings: Amount::from_thousandths(333) };
    assert_eq!(calories_of_entry(&entry, &db), Ok(Amount::from_thousandths(43_290)));
}
