use crate::amount::{amount_text, Amount};
use crate::database::{
    distinct_ids, has_id, index_of, lemma_index_of, lemma_upsert, lookup, upsert, without,
    Database,
};
use crate::food::{Food, FoodView};
use crate::log::{
    appended, distinct_dates, entries_on, lemma_append_then_remove, lemma_appended,
    lemma_removed, removed, DailyLog, Days, LogEntryView,
};
pub use crate::manager::CommandManager;
use crate::text::{decimal, decimal_text};
use vstd::prelude::*;
use vstd::string::StringExecFns;

verus! {

/// Why a command did not do its work.
#[derive(Debug, Clone, Copy, PartialEq, Eq)]
pub enum CommandError {
    /// The entry that an undo was to take out is no longer at its position.
    NotFound,
    /// The date has no entry at the index that was to be removed.
    OutOfRange,
    /// The command was executed before, or it is not executed and was to be undone.
    OutOfOrder,
}

/// Where a command stands in its life: it is executed once, and after that undone once.
#[derive(Debug, Clone, Copy, PartialEq, Eq, Structural)]
pub enum Phase {
    Constructed,
    Executed,
    Undone,
}

/// The two stores that commands work on, as mathematical values.
pub struct Stores {
    pub foods: Seq<FoodView>,
    pub days: Days,
}

pub struct AddFoodView {
    pub food: FoodView,
    /// The food that the store held under the same id when the command was executed.
    pub replaced: Option<FoodView>,
    pub phase: Phase,
}

pub struct LogFoodView {
    pub date: Seq<char>,
    pub food_id: Seq<char>,
    pub servings: nat,
    /// The position that the entry got on its date when the command was executed.
    pub position: Option<nat>,
    pub phase: Phase,
}

pub struct RemoveLogEntryView {
    pub date: Seq<char>,
    pub index: nat,
    /// The entry that was removed, once the command is executed.
    pub food_id: Seq<char>,
    pub servings: nat,
    pub phase: Phase,
}

pub enum CommandView {
    AddFood(AddFoodView),
    LogFood(LogFoodView),
    RemoveLogEntry(RemoveLogEntryView),
}

/// What a step of a command comes to: the command and the stores after it, and
/// whether it did its work.
pub struct Step {
    pub command: CommandView,
    pub stores: Stores,
    pub result: Result<(), CommandError>,
}

/// A step that fails and changes nothing.
pub open spec fn refused(command: CommandView, stores: Stores, error: CommandError) -> Step {
    Step { command, stores, result: Err(error) }
}

impl AddFoodView {
    /// Stores the food, and keeps the food that it replaces.
    pub open spec fn executed(self, stores: Stores) -> Step {
        if self.phase != Phase::Constructed {
            refused(CommandView::AddFood(self), stores, CommandError::OutOfOrder)
        } else {
            Step {
                command: CommandView::AddFood(
                    AddFoodView {
                        replaced: lookup(stores.foods, self.food.id()),
                        phase: Phase::Executed,
                        ..self
                    },
                ),
                stores: Stores { foods: upsert(stores.foods, self.food), ..stores },
                result: Ok(()),
            }
        }
    }

    /// Puts back the food that was replaced, or takes the food out where it replaced
    /// none.
    pub open spec fn undone(self, stores: Stores) -> Step {
        if self.phase != Phase::Executed {
            refused(CommandView::AddFood(self), stores, CommandError::OutOfOrder)
        } else {
            Step {
                command: CommandView::AddFood(AddFoodView { phase: Phase::Undone, ..self }),
                stores: Stores {
                    foods: match self.replaced {
                        Some(previous) => upsert(stores.foods, previous),
                        None => without(stores.foods, self.food.id()),
                    },
                    ..stores
                },
                result: Ok(()),
            }
        }
    }

    pub open spec fn description(self) -> Seq<char> {
        match self.food {
            FoodView::Basic(b) => "Add basic food '"@ + b.id + "'"@,
            FoodView::Composite(c) => "Add composite food '"@ + c.id + "'"@,
        }
    }
}

impl LogFoodView {
    pub open spec fn entry(self) -> LogEntryView {
        LogEntryView { food_id: self.food_id, servings: self.servings }
    }

    /// Puts the entry at the end of its date, and keeps the position that it got.
    pub open spec fn executed(self, stores: Stores) -> Step {
        if self.phase != Phase::Constructed {
            refused(CommandView::LogFood(self), stores, CommandError::OutOfOrder)
        } else {
            Step {
                command: CommandView::LogFood(
                    LogFoodView {
                        position: Some(entries_on(stores.days, self.date).len()),
                        phase: Phase::Executed,
                        ..self
                    },
                ),
                stores: Stores { days: appended(stores.days, self.date, self.entry()), ..stores },
                result: Ok(()),
            }
        }
    }

    /// Takes out the entry at the position that executing gave.
    pub open spec fn undone(self, stores: Stores) -> Step {
        if self.phase != Phase::Executed || self.position.is_none() {
            refused(CommandView::LogFood(self), stores, CommandError::OutOfOrder)
        } else if self.position.unwrap() >= entries_on(stores.days, self.date).len() {
            refused(CommandView::LogFood(self), stores, CommandError::NotFound)
        } else {
            Step {
                command: CommandView::LogFood(LogFoodView { phase: Phase::Undone, ..self }),
                stores: Stores {
                    days: removed(stores.days, self.date, self.position.unwrap() as int),
                    ..stores
                },
                result: Ok(()),
            }
        }
    }

    pub open spec fn description(self) -> Seq<char> {
        "Log "@ + amount_text(self.servings) + " serving(s) of '"@ + self.food_id + "' on "@ + self.date
    }
}

impl RemoveLogEntryView {
    pub open spec fn entry(self) -> LogEntryView {
        LogEntryView { food_id: self.food_id, servings: self.servings }
    }

    /// Takes the entry at the index out of the date, and keeps what it was.
    pub open spec fn executed(self, stores: Stores) -> Step {
        if self.phase != Phase::Constructed {
            refused(CommandView::RemoveLogEntry(self), stores, CommandError::OutOfOrder)
        } else if self.index >= entries_on(stores.days, self.date).len() {
            refused(CommandView::RemoveLogEntry(self), stores, CommandError::OutOfRange)
        } else {
            let taken = entries_on(stores.days, self.date)[self.index as int];
            Step {
                command: CommandView::RemoveLogEntry(
                    RemoveLogEntryView {
                        food_id: taken.food_id,
                        servings: taken.servings,
                        phase: Phase::Executed,
                        ..self
                    },
                ),
                stores: Stores { days: removed(stores.days, self.date, self.index as int), ..stores },
                result: Ok(()),
            }
        }
    }

    /// Puts the removed entry at the end of its date: the entry is back, though not
    /// at the index that it was removed from.
    pub open spec fn undone(self, stores: Stores) -> Step {
        if self.phase != Phase::Executed {
            refused(CommandView::RemoveLogEntry(self), stores, CommandError::OutOfOrder)
        } else {
            Step {
                command: CommandView::RemoveLogEntry(
                    RemoveLogEntryView { phase: Phase::Undone, ..self },
                ),
                stores: Stores { days: appended(stores.days, self.date, self.entry()), ..stores },
                result: Ok(()),
            }
        }
    }

    pub open spec fn description(self) -> Seq<char> {
        "Remove entry #"@ + decimal(self.index + 1) + " (food: '"@ + self.food_id + "') from "@
            + self.date
    }
}

impl CommandView {
    pub open spec fn phase(self) -> Phase {
        match self {
            CommandView::AddFood(c) => c.phase,
            CommandView::LogFood(c) => c.phase,
            CommandView::RemoveLogEntry(c) => c.phase,
        }
    }

    /// The command and the stores after the command was executed.
    pub open spec fn executed(self, stores: Stores) -> Step {
        match self {
            CommandView::AddFood(c) => c.executed(stores),
            CommandView::LogFood(c) => c.executed(stores),
            CommandView::RemoveLogEntry(c) => c.executed(stores),
        }
    }

    /// The command and the stores after the command was undone.
    pub open spec fn undone(self, stores: Stores) -> Step {
        match self {
            CommandView::AddFood(c) => c.undone(stores),
            CommandView::LogFood(c) => c.undone(stores),
            CommandView::RemoveLogEntry(c) => c.undone(stores),
        }
    }

    pub open spec fn description(self) -> Seq<char> {
        match self {
            CommandView::AddFood(c) => c.description(),
            CommandView::LogFood(c) => c.description(),
            CommandView::RemoveLogEntry(c) => c.description(),
        }
    }
}

/// Adding a food and undoing that leaves the store as it was: a new food is gone
/// again, and a food that was replaced is back in its place.
pub proof fn lemma_add_food_undo_restores(command: AddFoodView, stores: Stores)
    requires
        command.phase == Phase::Constructed,
        distinct_ids(stores.foods),
    ensures
        command.executed(stores).result.is_ok(),
        command.executed(stores).command.undone(command.executed(stores).stores).result.is_ok(),
        command.executed(stores).command.undone(command.executed(stores).stores).stores == stores,
{
    let foods = stores.foods;
    let id = command.food.id();
    let after = upsert(foods, command.food);
    lemma_upsert(foods, command.food, id);
    let back = command.executed(stores).command.undone(command.executed(stores).stores);
    if has_id(foods, id) {
        let i = index_of(foods, id);
        assert(after[i].id() == foods[i].id());
        lemma_index_of(after, i);
        assert(back.stores.foods =~= foods);
    } else {
        let i = foods.len() as int;
        assert(after[i].id() == id);
        lemma_index_of(after, i);
        assert(back.stores.foods =~= foods);
    }
}

/// Logging a food and undoing that leaves each date with the entries that it had.
pub proof fn lemma_log_food_undo_restores(command: LogFoodView, stores: Stores, date: Seq<char>)
    requires
        command.phase == Phase::Constructed,
        distinct_dates(stores.days),
    ensures
        command.executed(stores).result.is_ok(),
        command.executed(stores).command.undone(command.executed(stores).stores).result.is_ok(),
        entries_on(
            command.executed(stores).command.undone(command.executed(stores).stores).stores.days,
            date,
        ) == entries_on(stores.days, date),
        command.executed(stores).command.undone(command.executed(stores).stores).stores.foods
            == stores.foods,
{
    lemma_appended(stores.days, command.date, command.entry(), command.date);
    lemma_append_then_remove(stores.days, command.date, command.entry(), date);
}

/// Removing an entry and undoing that puts the entry back at the end of its date:
/// the date has its entries again, the removed one last, and the other dates are as
/// they were.
pub proof fn lemma_remove_undo_puts_back(
    command: RemoveLogEntryView,
    stores: Stores,
    date: Seq<char>,
)
    requires
        command.phase == Phase::Constructed,
        command.index < entries_on(stores.days, command.date).len(),
        distinct_dates(stores.days),
    ensures
        command.executed(stores).result.is_ok(),
        command.executed(stores).command.undone(command.executed(stores).stores).result.is_ok(),
        entries_on(
            command.executed(stores).command.undone(command.executed(stores).stores).stores.days,
            date,
        ) == if date == command.date {
            entries_on(stores.days, date).remove(command.index as int).push(
                entries_on(stores.days, date)[command.index as int],
            )
        } else {
            entries_on(stores.days, date)
        },
{
    let done = command.executed(stores);
    let taken = entries_on(stores.days, command.date)[command.index as int];
    lemma_removed(stores.days, command.date, command.index as int, date);
    lemma_appended(done.stores.days, command.date, taken, date);
}

/// Removing at an index that the date does not have fails and changes nothing.
pub proof fn lemma_remove_out_of_range(command: RemoveLogEntryView, stores: Stores)
    requires
        command.phase == Phase::Constructed,
        command.index >= entries_on(stores.days, command.date).len(),
    ensures
        command.executed(stores).result == Err::<(), CommandError>(CommandError::OutOfRange),
        command.executed(stores).stores == stores,
        command.executed(stores).command == CommandView::RemoveLogEntry(command),
{
}

/// A step that fails changes nothing: neither the stores nor the command.
pub proof fn lemma_failure_changes_nothing(command: CommandView, stores: Stores)
    ensures
        command.executed(stores).result.is_err() ==> command.executed(stores).stores == stores
            && command.executed(stores).command == command,
        command.undone(stores).result.is_err() ==> command.undone(stores).stores == stores
            && command.undone(stores).command == command,
{
}

/// A command does its work once: executing it again, or undoing it again, is refused
/// and changes nothing.
pub proof fn lemma_once_only(command: CommandView, stores: Stores, later: Stores)
    ensures
        command.executed(stores).result.is_ok() ==> command.executed(stores).command.phase()
            == Phase::Executed && command.executed(stores).command.executed(later) == refused(
            command.executed(stores).command,
            later,
            CommandError::OutOfOrder,
        ),
        command.undone(stores).result.is_ok() ==> command.undone(stores).command.phase()
            == Phase::Undone && command.undone(stores).command.undone(later) == refused(
            command.undone(stores).command,
            later,
            CommandError::OutOfOrder,
        ) && command.undone(stores).command.executed(later) == refused(
            command.undone(stores).command,
            later,
            CommandError::OutOfOrder,
        ),
        command.phase() == Phase::Constructed ==> command.undone(stores) == refused(
            command,
            stores,
            CommandError::OutOfOrder,
        ),
{
}

/// The two stores as mathematical values.
pub open spec fn stores_of(db: &Database, log: &DailyLog) -> Stores {
    Stores { foods: db@, days: log@ }
}

/// A change to the stores that can be taken back.
pub trait UndoableCommand {
    /// The command as a mathematical value.
    spec fn model(&self) -> CommandView;

    /// Does the command's work on the stores. A command that was executed before is
    /// refused.
    fn execute(&mut self, db: &mut Database, log: &mut DailyLog) -> (result: Result<
        (),
        CommandError,
    >)
        ensures
            final(self).model() == old(self).model().executed(stores_of(old(db), old(log))).command,
            stores_of(final(db), final(log)) == old(self).model().executed(
                stores_of(old(db), old(log)),
            ).stores,
            result == old(self).model().executed(stores_of(old(db), old(log))).result,
            final(db).path() == old(db).path(),
            final(log).path() == old(log).path(),
            distinct_ids(old(db)@) && distinct_ids(final(db)@),
            distinct_dates(old(log)@) && distinct_dates(final(log)@),
    ;

    /// Takes the command's work back. A command that is not executed is refused.
    fn undo(&mut self, db: &mut Database, log: &mut DailyLog) -> (result: Result<(), CommandError>)
        ensures
            final(self).model() == old(self).model().undone(stores_of(old(db), old(log))).command,
            stores_of(final(db), final(log)) == old(self).model().undone(
                stores_of(old(db), old(log)),
            ).stores,
            result == old(self).model().undone(stores_of(old(db), old(log))).result,
            final(db).path() == old(db).path(),
            final(log).path() == old(log).path(),
            distinct_ids(old(db)@) && distinct_ids(final(db)@),
            distinct_dates(old(log)@) && distinct_dates(final(log)@),
    ;

    /// What the command does, in words.
    fn description(&self) -> (text: String)
        ensures
            text@ == self.model().description(),
    ;
}

/// Adds a food to the store. Where the store holds a food with the same id, the new
/// food takes its place and the command keeps the old one: undoing puts it back.
/// Where the id is new, undoing takes the food out again.
#[derive(Debug)]
pub struct AddFoodCommand {
    food: Food,
    replaced: Option<Food>,
    phase: Phase,
}

impl View for AddFoodCommand {
    type V = AddFoodView;

    closed spec fn view(&self) -> AddFoodView {
        AddFoodView {
            food: self.food@,
            replaced: match self.replaced {
                Some(food) => Some(food@),
                None => None,
            },
            phase: self.phase,
        }
    }
}

impl AddFoodCommand {
    pub fn new(food: Food) -> (command: AddFoodCommand)
        ensures
            command@ == (AddFoodView { food: food@, replaced: None, phase: Phase::Constructed }),
    {
        AddFoodCommand { food, replaced: None, phase: Phase::Constructed }
    }
}

impl UndoableCommand for AddFoodCommand {
    open spec fn model(&self) -> CommandView {
        CommandView::AddFood(self@)
    }

    fn execute(&mut self, db: &mut Database, log: &mut DailyLog) -> (result: Result<
        (),
        CommandError,
    >) {
        proof {
            use_type_invariant(&*db);
            use_type_invariant(&*log);
        }
        if self.phase != Phase::Constructed {
            return Err(CommandError::OutOfOrder);
        }
        self.replaced = db.add_food(self.food.clone());
        self.phase = Phase::Executed;
        Ok(())
    }

    fn undo(&mut self, db: &mut Database, log: &mut DailyLog) -> (result: Result<(), CommandError>) {
        proof {
            use_type_invariant(&*db);
            use_type_invariant(&*log);
        }
        if self.phase != Phase::Executed {
            return Err(CommandError::OutOfOrder);
        }
        match &self.replaced {
            Some(previous) => {
                db.add_food(previous.clone());
            },
            None => {
                db.remove_food(self.food.id().as_str());
            },
        }
        self.phase = Phase::Undone;
        Ok(())
    }

    fn description(&self) -> (text: String) {
        let mut text = match &self.food {
            Food::Basic(_) => "Add basic food '".to_owned(),
            Food::Composite(_) => "Add composite food '".to_owned(),
        };
        text.append(self.food.id().as_str());
        text.append("'");
        text
    }
}

/// Logs servings of a food on a date. The command keeps the position that the entry
/// got; undoing removes the entry at that position, which is the same entry as long
/// as the commands on the date are undone in the reverse of their order.
#[derive(Debug)]
pub struct LogFoodCommand {
    date: String,
    food_id: String,
    servings: Amount,
    entry_index: Option<usize>,
    phase: Phase,
}

impl View for LogFoodCommand {
    type V = LogFoodView;

    closed spec fn view(&self) -> LogFoodView {
        LogFoodView {
            date: self.date@,
            food_id: self.food_id@,
            servings: self.servings@,
            position: match self.entry_index {
                Some(index) => Some(index as nat),
                None => None,
            },
            phase: self.phase,
        }
    }
}

impl LogFoodCommand {
    pub fn new(date: &str, food_id: &str, servings: Amount) -> (command: LogFoodCommand)
        ensures
            command@ == (LogFoodView {
                date: date@,
                food_id: food_id@,
                servings: servings@,
                position: None,
                phase: Phase::Constructed,
            }),
    {
        LogFoodCommand {
            date: date.to_owned(),
            food_id: food_id.to_owned(),
            servings,
            entry_index: None,
            phase: Phase::Constructed,
        }
    }
}

impl UndoableCommand for LogFoodCommand {
    open spec fn model(&self) -> CommandView {
        CommandView::LogFood(self@)
    }

    fn execute(&mut self, db: &mut Database, log: &mut DailyLog) -> (result: Result<
        (),
        CommandError,
    >) {
        proof {
            use_type_invariant(&*db);
            use_type_invariant(&*log);
        }
        if self.phase != Phase::Constructed {
            return Err(CommandError::OutOfOrder);
        }
        let position = log.add_food(self.date.as_str(), self.food_id.as_str(), self.servings);
        self.entry_index = Some(position);
        self.phase = Phase::Executed;
        Ok(())
    }

    fn undo(&mut self, db: &mut Database, log: &mut DailyLog) -> (result: Result<(), CommandError>) {
        proof {
            use_type_invariant(&*db);
            use_type_invariant(&*log);
        }
        if self.phase != Phase::Executed {
            return Err(CommandError::OutOfOrder);
        }
        let index = match self.entry_index {
            Some(index) => index,
            None => {
                return Err(CommandError::OutOfOrder);
            },
        };
        match log.remove_food(self.date.as_str(), index) {
            Some(_) => {
                self.phase = Phase::Undone;
                Ok(())
            },
            None => Err(CommandError::NotFound),
        }
    }

    fn description(&self) -> (text: String) {
        let mut text = "Log ".to_owned();
        text.append(self.servings.to_text().as_str());
        text.append(" serving(s) of '");
        text.append(self.food_id.as_str());
        text.append("' on ");
        text.append(self.date.as_str());
        text
    }
}

/// Removes the entry at an index from a date. Undoing puts the entry back at the end
/// of the date, not at the index that it had.
#[derive(Debug)]
pub struct RemoveLogEntryCommand {
    date: String,
    index: usize,
    food_id: String,
    servings: Amount,
    phase: Phase,
}

impl View for RemoveLogEntryCommand {
    type V = RemoveLogEntryView;

    closed spec fn view(&self) -> RemoveLogEntryView {
        RemoveLogEntryView {
            date: self.date@,
            index: self.index as nat,
            food_id: self.food_id@,
            servings: self.servings@,
            phase: self.phase,
        }
    }
}

impl RemoveLogEntryCommand {
    /// A command to remove the entry at `index` of a date. `food_id` and `servings`
    /// say what the caller saw there; executing replaces them by what it removes.
    pub fn new(date: &str, index: usize, food_id: &str, servings: Amount) -> (command:
        RemoveLogEntryCommand)
        ensures
            command@ == (RemoveLogEntryView {
                date: date@,
                index: index as nat,
                food_id: food_id@,
                servings: servings@,
                phase: Phase::Constructed,
            }),
    {
        RemoveLogEntryCommand {
            date: date.to_owned(),
            index,
            food_id: food_id.to_owned(),
            servings,
            phase: Phase::Constructed,
        }
    }
}

/// The command that removes the entry which a user picked from a date's numbered
/// entries, the first entry being number one; none where the date has no such number.
pub fn removal_of(log: &DailyLog, date: &str, number: usize) -> (command: Option<
    RemoveLogEntryCommand,
>)
    ensures
        match command {
            Some(c) => 1 <= number <= log.entries(date@).len() && c@ == (RemoveLogEntryView {
                date: date@,
                index: (number - 1) as nat,
                food_id: log.entries(date@)[number - 1].food_id,
                servings: log.entries(date@)[number - 1].servings,
                phase: Phase::Constructed,
            }),
            None => number == 0 || number > log.entries(date@).len(),
        },
{
    let entries = log.get_log_entries(date);
    if number == 0 || number > entries.len() {
        None
    } else {
        let entry = entries[number - 1];
        assert(crate::log::entry_ref_views(entries@)[number - 1] == entry@);
        Some(RemoveLogEntryCommand::new(date, number - 1, entry.food_id.as_str(), entry.servings))
    }
}

impl UndoableCommand for RemoveLogEntryCommand {
    open spec fn model(&self) -> CommandView {
        CommandView::RemoveLogEntry(self@)
    }

    fn execute(&mut self, db: &mut Database, log: &mut DailyLog) -> (result: Result<
        (),
        CommandError,
    >) {
        proof {
            use_type_invariant(&*db);
            use_type_invariant(&*log);
        }
        if self.phase != Phase::Constructed {
            return Err(CommandError::OutOfOrder);
        }
        match log.remove_food(self.date.as_str(), self.index) {
            Some(taken) => {
                self.food_id = taken.food_id;
                self.servings = taken.servings;
                self.phase = Phase::Executed;
                Ok(())
            },
            None => Err(CommandError::OutOfRange),
        }
    }

    fn undo(&mut self, db: &mut Database, log: &mut DailyLog) -> (result: Result<(), CommandError>) {
        proof {
            use_type_invariant(&*db);
            use_type_invariant(&*log);
        }
        if self.phase != Phase::Executed {
            return Err(CommandError::OutOfOrder);
        }
        log.add_food(self.date.as_str(), self.food_id.as_str(), self.servings);
        self.phase = Phase::Undone;
        Ok(())
    }

    fn description(&self) -> (text: String) {
        let mut text = "Remove entry #".to_owned();
        text.append(decimal_text(self.index as u128 + 1).as_str());
        text.append(" (food: '");
        text.append(self.food_id.as_str());
        text.append("') from ");
        text.append(self.date.as_str());
        text
    }
}

/// One of the three commands.
#[derive(Debug)]
pub enum Command {
    AddFood(AddFoodCommand),
    LogFood(LogFoodCommand),
    RemoveLogEntry(RemoveLogEntryCommand),
}

impl UndoableCommand for Command {
    open spec fn model(&self) -> CommandView {
        match self {
            Command::AddFood(c) => c.model(),
            Command::LogFood(c) => c.model(),
            Command::RemoveLogEntry(c) => c.model(),
        }
    }

    fn execute(&mut self, db: &mut Database, log: &mut DailyLog) -> (result: Result<
        (),
        CommandError,
    >) {
        match self {
            Command::AddFood(c) => c.execute(db, log),
            Command::LogFood(c) => c.execute(db, log),
            Command::RemoveLogEntry(c) => c.execute(db, log),
        }
    }

    fn undo(&mut self, db: &mut Database, log: &mut DailyLog) -> (result: Result<(), CommandError>) {
        match self {
            Command::AddFood(c) => c.undo(db, log),
            Command::LogFood(c) => c.undo(db, log),
            Command::RemoveLogEntry(c) => c.undo(db, log),
        }
    }

    fn description(&self) -> (text: String) {
        match self {
            Command::AddFood(c) => c.description(),
            Command::LogFood(c) => c.description(),
            Command::RemoveLogEntry(c) => c.description(),
        }
    }
}

} // verus!
