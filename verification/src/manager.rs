use crate::command::{
    lemma_failure_changes_nothing, stores_of, Command, CommandView, Phase, UndoableCommand,
};
use crate::database::{distinct_ids, Database};
use crate::log::{distinct_dates, DailyLog};
use vstd::prelude::*;

verus! {

/// The mathematical values of a list of commands.
pub open spec fn command_views(commands: Seq<Command>) -> Seq<CommandView> {
    Seq::new(commands.len(), |i: int| commands[i].model())
}

/// Every command of the list is executed and not undone.
pub open spec fn all_executed(commands: Seq<CommandView>) -> bool {
    forall|i: int| 0 <= i < commands.len() ==> (#[trigger] commands[i]).phase() == Phase::Executed
}

/// What the commands of a list do, in words, in the list's order.
pub open spec fn descriptions(commands: Seq<CommandView>) -> Seq<Seq<char>> {
    Seq::new(commands.len(), |i: int| commands[i].description())
}

/// The undo stack: the commands that were executed and not undone, the oldest first.
#[derive(Debug)]
pub struct CommandManager {
    undo_stack: Vec<Command>,
}

impl View for CommandManager {
    type V = Seq<CommandView>;

    closed spec fn view(&self) -> Seq<CommandView> {
        command_views(self.undo_stack@)
    }
}

impl CommandManager {
    #[verifier::type_invariant]
    spec fn well_formed(self) -> bool {
        all_executed(command_views(self.undo_stack@))
    }

    pub fn new() -> (manager: CommandManager)
        ensures
            manager@ == Seq::<CommandView>::empty(),
    {
        let manager = CommandManager { undo_stack: Vec::new() };
        assert(manager@ =~= Seq::<CommandView>::empty());
        manager
    }

    /// Executes a command on the stores. One that did its work goes on top of the
    /// stack; one that failed is dropped.
    pub fn execute_command(
        &mut self,
        command: Command,
        db: &mut Database,
        log: &mut DailyLog,
    ) -> (done: bool)
        ensures
            done == command.model().executed(stores_of(old(db), old(log))).result.is_ok(),
            stores_of(final(db), final(log)) == command.model().executed(
                stores_of(old(db), old(log)),
            ).stores,
            final(self)@ == if done {
                old(self)@.push(command.model().executed(stores_of(old(db), old(log))).command)
            } else {
                old(self)@
            },
            !done ==> stores_of(final(db), final(log)) == stores_of(old(db), old(log)),
            all_executed(final(self)@),
            final(db).path() == old(db).path(),
            final(log).path() == old(log).path(),
            distinct_ids(old(db)@) && distinct_ids(final(db)@),
            distinct_dates(old(log)@) && distinct_dates(final(log)@),
    {
        proof {
            use_type_invariant(&*self);
            use_type_invariant(&*db);
            use_type_invariant(&*log);
        }
        let ghost before = self@;
        let mut command = command;
        proof {
            lemma_failure_changes_nothing(command.model(), stores_of(db, log));
        }
        match command.execute(db, log) {
            Ok(()) => {
                let mut stack: Vec<Command> = Vec::new();
                std::mem::swap(&mut stack, &mut self.undo_stack);
                stack.push(command);
                assert(command_views(stack@) =~= before.push(command.model()));
                self.undo_stack = stack;
                true
            },
            Err(_) => false,
        }
    }

    /// Takes the newest command off the stack, undoes it on the stores and says what
    /// it was. The command is off the stack whether or not its undo did its work.
    /// With an empty stack nothing happens.
    pub fn undo_last_command(&mut self, db: &mut Database, log: &mut DailyLog) -> (undone: Option<
        String,
    >)
        ensures
            old(self)@.len() == 0 ==> undone.is_none() && final(self)@ == old(self)@ && stores_of(
                final(db),
                final(log),
            ) == stores_of(old(db), old(log)),
            old(self)@.len() > 0 ==> undone.is_some() && undone.unwrap()@ == old(
                self,
            )@.last().description() && final(self)@ == old(self)@.drop_last() && stores_of(
                final(db),
                final(log),
            ) == old(self)@.last().undone(stores_of(old(db), old(log))).stores,
            all_executed(final(self)@),
            final(db).path() == old(db).path(),
            final(log).path() == old(log).path(),
            distinct_ids(old(db)@) && distinct_ids(final(db)@),
            distinct_dates(old(log)@) && distinct_dates(final(log)@),
    {
        proof {
            use_type_invariant(&*self);
            use_type_invariant(&*db);
            use_type_invariant(&*log);
        }
        let ghost before = self@;
        let mut stack: Vec<Command> = Vec::new();
        std::mem::swap(&mut stack, &mut self.undo_stack);
        let top = stack.pop();
        assert(command_views(stack@) =~= if before.len() > 0 {
            before.drop_last()
        } else {
            before
        });
        self.undo_stack = stack;
        match top {
            Some(command) => {
                let mut command = command;
                assert(command.model() == before.last());
                let description = command.description();
                let _ = command.undo(db, log);
                Some(description)
            },
            None => None,
        }
    }

    /// Whether there is a command to undo.
    pub fn has_commands(&self) -> (any: bool)
        ensures
            any == (self@.len() > 0),
    {
        self.undo_stack.len() > 0
    }

    /// What the commands on the stack do, in words, the oldest first.
    pub fn command_history(&self) -> (history: Vec<String>)
        ensures
            crate::text::texts(history@) == descriptions(self@),
    {
        let mut history: Vec<String> = Vec::new();
        let mut i: usize = 0;
        while i < self.undo_stack.len()
            invariant
                i <= self.undo_stack.len(),
                history.len() == i,
                forall|k: int|
                    0 <= k < i ==> history@[k]@ == (#[trigger] command_views(
                        self.undo_stack@,
                    )[k]).description(),
            decreases self.undo_stack.len() - i,
        {
            history.push(self.undo_stack[i].description());
            i += 1;
        }
        assert(crate::text::texts(history@) =~= descriptions(self@));
        history
    }
}

} // verus!
