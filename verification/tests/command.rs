use diet_manager::amount::Amount;
use diet_manager::command::{
    removal_of, AddFoodCommand, Command, CommandError, CommandManager, LogFoodCommand,
    RemoveLogEntryCommand, UndoableCommand,
};
use diet_manager::database::Database;
use diet_manager::food::{BasicFood, CompositeFood, Food};
use diet_manager::log::DailyLog;

fn egg(calories: u32) -> Food {
    Food::Basic(BasicFood {
        id: "egg".to_string(),
        keywords: vec!["egg".to_string()],
        calories: Amount::whole(calories),
    })
}

fn omelet() -> Food {
    Food::Composite(CompositeFood {
        id: "omelet".to_string(),
        keywords: vec![],
        components: vec![("egg".to_string(), Amount::whole(2))],
    })
}

fn logged(log: &DailyLog, date: &str) -> Vec<(String, u64)> {
    log.get_log_entries(date)
        .iter()
        .map(|e| (e.food_id.clone(), e.servings.thousandths / 1000))
        .collect()
}

fn item(id: &str, servings: u64) -> (String, u64) {
    (id.to_string(), servings)
}

fn basic_calories(db: &Database, id: &str) -> Option<u64> {
    match db.get_food(id) {
        Some(Food::Basic(b)) => Some(b.calories.thousandths / 1000),
        _ => None,
    }
}

#[test]
fn log_twice_then_undo_twice() {
    let mut db = Database::new("f");
    let mut log = DailyLog::new("l");
    let mut manager = CommandManager::new();
    assert!(manager.execute_command(
        Command::LogFood(LogFoodCommand::new("D", "A", Amount::whole(2))),
        &mut db,
        &mut log
    ));
    assert!(manager.execute_command(
        Command::LogFood(LogFoodCommand::new("D", "B", Amount::whole(1))),
        &mut db,
        &mut log
    ));
    assert_eq!(logged(&log, "D"), vec![item("A", 2), item("B", 1)]);
    assert_eq!(
        manager.undo_last_command(&mut db, &mut log),
        Some("Log 1.0 serving(s) of 'B' on D".to_string())
    );
    assert_eq!(logged(&log, "D"), vec![item("A", 2)]);
    assert_eq!(
        manager.undo_last_command(&mut db, &mut log),
        Some("Log 2.0 serving(s) of 'A' on D".to_string())
    );
    assert!(logged(&log, "D").is_empty());
    assert!(!manager.has_commands());
}

#[test]
fn remove_out_of_range_fails_and_is_not_in_history() {
    let mut db = Database::new("f");
    let mut log = DailyLog::new("l");
    let mut manager = CommandManager::new();
    manager.execute_command(Command::LogFood(LogFoodCommand::new("D", "A", Amount::whole(2))), &mut db, &mut log);
    let history = manager.command_history();
    assert!(!manager.execute_command(
        Command::RemoveLogEntry(RemoveLogEntryCommand::new("D", 1, "A", Amount::whole(2))),
        &mut db,
        &mut log
    ));
    assert!(!manager.execute_command(
        Command::RemoveLogEntry(RemoveLogEntryCommand::new("other", 0, "A", Amount::whole(2))),
        &mut db,
        &mut log
    ));
    assert_eq!(logged(&log, "D"), vec![item("A", 2)]);
    assert_eq!(manager.command_history(), history);
    assert_eq!(manager.command_history(), vec!["Log 2.0 serving(s) of 'A' on D"]);
}

#[test]
fn undo_on_empty_stack_does_nothing() {
    let mut db = Database::new("f");
    let mut log = DailyLog::new("l");
    db.add_food(egg(70));
    log.add_food("D", "egg", Amount::whole(1));
    let mut manager = CommandManager::new();
    assert!(!manager.has_commands());
    assert_eq!(manager.undo_last_command(&mut db, &mut log), None);
    assert_eq!(db.len(), 1);
    assert_eq!(logged(&log, "D"), vec![item("egg", 1)]);
    assert!(manager.command_history().is_empty());
    assert!(!manager.has_commands());
}

#[test]
fn add_food_command_adds_and_undo_removes() {
    let mut db = Database::new("f");
    let mut log = DailyLog::new("l");
    let mut manager = CommandManager::new();
    assert!(manager.execute_command(Command::AddFood(AddFoodCommand::new(egg(70))), &mut db, &mut log));
    assert!(manager.execute_command(
        Command::AddFood(AddFoodCommand::new(omelet())),
        &mut db,
        &mut log
    ));
    assert_eq!(db.len(), 2);
    assert_eq!(
        manager.command_history(),
        vec!["Add basic food 'egg'", "Add composite food 'omelet'"]
    );
    assert_eq!(
        manager.undo_last_command(&mut db, &mut log),
        Some("Add composite food 'omelet'".to_string())
    );
    assert!(db.get_food("omelet").is_none());
    assert_eq!(basic_calories(&db, "egg"), Some(70));
    manager.undo_last_command(&mut db, &mut log);
    assert!(db.is_empty());
}

#[test]
fn add_food_command_over_an_id_restores_the_old_food_on_undo() {
    let mut db = Database::new("f");
    let mut log = DailyLog::new("l");
    let mut manager = CommandManager::new();
    db.add_food(egg(70));
    db.add_food(omelet());
    assert!(manager.execute_command(Command::AddFood(AddFoodCommand::new(egg(90))), &mut db, &mut log));
    assert_eq!(basic_calories(&db, "egg"), Some(90));
    assert_eq!(db.len(), 2);
    assert!(manager.undo_last_command(&mut db, &mut log).is_some());
    assert_eq!(basic_calories(&db, "egg"), Some(70));
    assert_eq!(db.len(), 2);
    assert_eq!(db.foods()[0].id(), "egg");
}

#[test]
fn remove_command_captures_the_entry_and_undo_appends_it() {
    let mut db = Database::new("f");
    let mut log = DailyLog::new("l");
    let mut manager = CommandManager::new();
    log.add_food("D", "a", Amount::whole(1));
    log.add_food("D", "b", Amount::whole(2));
    log.add_food("D", "c", Amount::whole(3));
    assert!(manager.execute_command(
        Command::RemoveLogEntry(RemoveLogEntryCommand::new("D", 0, "stale", Amount::whole(9))),
        &mut db,
        &mut log
    ));
    assert_eq!(logged(&log, "D"), vec![item("b", 2), item("c", 3)]);
    assert_eq!(manager.command_history(), vec!["Remove entry #1 (food: 'a') from D"]);
    assert_eq!(
        manager.undo_last_command(&mut db, &mut log),
        Some("Remove entry #1 (food: 'a') from D".to_string())
    );
    assert_eq!(logged(&log, "D"), vec![item("b", 2), item("c", 3), item("a", 1)]);
}

#[test]
fn undo_that_fails_still_takes_the_command_off_the_stack() {
    let mut db = Database::new("f");
    let mut log = DailyLog::new("l");
    let mut manager = CommandManager::new();
    manager.execute_command(Command::LogFood(LogFoodCommand::new("D", "A", Amount::whole(2))), &mut db, &mut log);
    log.remove_food("D", 0);
    assert_eq!(
        manager.undo_last_command(&mut db, &mut log),
        Some("Log 2.0 serving(s) of 'A' on D".to_string())
    );
    assert!(!manager.has_commands());
    assert!(logged(&log, "D").is_empty());
}

#[test]
fn command_is_executed_once_and_undone_once() {
    let mut db = Database::new("f");
    let mut log = DailyLog::new("l");
    let mut command = LogFoodCommand::new("D", "A", Amount::whole(2));
    assert_eq!(command.undo(&mut db, &mut log), Err(CommandError::OutOfOrder));
    assert_eq!(command.execute(&mut db, &mut log), Ok(()));
    assert_eq!(command.execute(&mut db, &mut log), Err(CommandError::OutOfOrder));
    assert_eq!(logged(&log, "D"), vec![item("A", 2)]);
    assert_eq!(command.undo(&mut db, &mut log), Ok(()));
    assert_eq!(command.undo(&mut db, &mut log), Err(CommandError::OutOfOrder));
    assert_eq!(command.execute(&mut db, &mut log), Err(CommandError::OutOfOrder));
    assert!(logged(&log, "D").is_empty());

    let mut add = AddFoodCommand::new(egg(70));
    assert_eq!(add.undo(&mut db, &mut log), Err(CommandError::OutOfOrder));
    assert_eq!(add.execute(&mut db, &mut log), Ok(()));
    assert_eq!(add.execute(&mut db, &mut log), Err(CommandError::OutOfOrder));
    assert_eq!(add.undo(&mut db, &mut log), Ok(()));
    assert_eq!(add.undo(&mut db, &mut log), Err(CommandError::OutOfOrder));
    assert!(db.is_empty());
}

#[test]
fn each_error_has_an_input_that_gives_it() {
    let mut db = Database::new("f");
    let mut log = DailyLog::new("l");
    let mut remove = RemoveLogEntryCommand::new("D", 0, "a", Amount::whole(1));
    assert_eq!(remove.execute(&mut db, &mut log), Err(CommandError::OutOfRange));
    assert_eq!(remove.undo(&mut db, &mut log), Err(CommandError::OutOfOrder));
    log.add_food("D", "a", Amount::whole(1));
    assert_eq!(remove.execute(&mut db, &mut log), Ok(()));
    let mut add = LogFoodCommand::new("D", "b", Amount::whole(1));
    assert_eq!(add.execute(&mut db, &mut log), Ok(()));
    log.remove_food("D", 0);
    assert_eq!(add.undo(&mut db, &mut log), Err(CommandError::NotFound));
    assert_eq!(remove.undo(&mut db, &mut log), Ok(()));
    assert_eq!(logged(&log, "D"), vec![item("a", 1)]);
}

#[test]
fn descriptions_read_as_sentences() {
    assert_eq!(AddFoodCommand::new(egg(70)).description(), "Add basic food 'egg'");
    assert_eq!(AddFoodCommand::new(omelet()).description(), "Add composite food 'omelet'");
    assert_eq!(
        LogFoodCommand::new("2024-03-01", "egg", Amount::whole(12)).description(),
        "Log 12.0 serving(s) of 'egg' on 2024-03-01"
    );
    assert_eq!(
        LogFoodCommand::new("d", "egg", Amount::whole(0)).description(),
        "Log 0.0 serving(s) of 'egg' on d"
    );
    assert_eq!(
        LogFoodCommand::new("d", "egg", Amount::from_thousandths(u64::MAX)).description(),
        "Log 18446744073709551.615 serving(s) of 'egg' on d"
    );
    assert_eq!(
        LogFoodCommand::new("d", "egg", Amount::from_thousandths(1_500)).description(),
        "Log 1.5 serving(s) of 'egg' on d"
    );
    assert_eq!(
        RemoveLogEntryCommand::new("2024-03-01", 9, "rice", Amount::whole(1)).description(),
        "Remove entry #10 (food: 'rice') from 2024-03-01"
    );
    assert_eq!(
        RemoveLogEntryCommand::new("d", usize::MAX, "rice", Amount::whole(1)).description(),
        format!("Remove entry #{} (food: 'rice') from d", usize::MAX as u128 + 1)
    );
    assert_eq!(
        Command::AddFood(AddFoodCommand::new(egg(1))).description(),
        "Add basic food 'egg'"
    );
}

#[test]
fn history_runs_from_oldest_to_newest() {
    let mut db = Database::new("f");
    let mut log = DailyLog::new("l");
    let mut manager = CommandManager::new();
    manager.execute_command(Command::AddFood(AddFoodCommand::new(egg(70))), &mut db, &mut log);
    manager.execute_command(Command::LogFood(LogFoodCommand::new("D", "egg", Amount::whole(2))), &mut db, &mut log);
    manager.execute_command(
        Command::RemoveLogEntry(RemoveLogEntryCommand::new("D", 0, "egg", Amount::whole(2))),
        &mut db,
        &mut log,
    );
    assert!(manager.has_commands());
    assert_eq!(
        manager.command_history(),
        vec![
            "Add basic food 'egg'",
            "Log 2.0 serving(s) of 'egg' on D",
            "Remove entry #1 (food: 'egg') from D"
        ]
    );
    assert_eq!(manager.command_history().len(), 3);
    manager.undo_last_command(&mut db, &mut log);
    assert_eq!(manager.command_history().len(), 2);
    assert_eq!(logged(&log, "D"), vec![item("egg", 2)]);
}

#[test]
fn removal_of_goes_by_number_from_one() {
    let mut db = Database::new("f");
    let mut log = DailyLog::new("l");
    log.add_food("D", "a", Amount::whole(1));
    log.add_food("D", "b", Amount::whole(2));
    assert!(removal_of(&log, "D", 0).is_none());
    assert!(removal_of(&log, "D", 3).is_none());
    assert!(removal_of(&log, "other", 1).is_none());
    let mut second = removal_of(&log, "D", 2).unwrap();
    assert_eq!(second.description(), "Remove entry #2 (food: 'b') from D");
    assert_eq!(second.execute(&mut db, &mut log), Ok(()));
    assert_eq!(logged(&log, "D"), vec![item("a", 1)]);
}
