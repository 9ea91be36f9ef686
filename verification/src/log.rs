use crate::amount::Amount;
use crate::database::{lookup, Database};
use crate::food::FoodView;
use crate::resolver::{compute_calories, outcome, resolve, Resolution, ResolveError};
use crate::traversal::{add_scaled, lemma_added_nothing, lemma_added_scaled};
use crate::text::{ref_texts, same_text};
use vstd::prelude::*;

verus! {

/// One consumption: so many servings of the food with this id.
#[derive(Debug)]
pub struct LogEntry {
    pub food_id: String,
    pub servings: Amount,
}

pub struct LogEntryView {
    pub food_id: Seq<char>,
    pub servings: nat,
}

impl View for LogEntry {
    type V = LogEntryView;

    open spec fn view(&self) -> LogEntryView {
        LogEntryView { food_id: self.food_id@, servings: self.servings@ }
    }
}

impl Clone for LogEntry {
    fn clone(&self) -> (copy: LogEntry)
        ensures
            copy@ == self@,
    {
        LogEntry { food_id: self.food_id.clone(), servings: self.servings }
    }
}

/// A copy of a list of entries.
pub fn copy_entries(entries: &Vec<LogEntry>) -> (copy: Vec<LogEntry>)
    ensures
        entry_views(copy@) == entry_views(entries@),
{
    let mut copy: Vec<LogEntry> = Vec::new();
    let mut i: usize = 0;
    while i < entries.len()
        invariant
            i <= entries.len(),
            copy.len() == i,
            forall|k: int| 0 <= k < i ==> copy@[k]@ == entries@[k]@,
        decreases entries.len() - i,
    {
        copy.push(entries[i].clone());
        i += 1;
    }
    assert(entry_views(copy@) =~= entry_views(entries@));
    copy
}

/// The mathematical values of a list of entries.
pub open spec fn entry_views(entries: Seq<LogEntry>) -> Seq<LogEntryView> {
    Seq::new(entries.len(), |i: int| entries[i]@)
}

/// The mathematical values of the entries that a list of references leads to.
pub open spec fn entry_ref_views(entries: Seq<&LogEntry>) -> Seq<LogEntryView> {
    Seq::new(entries.len(), |i: int| entries[i]@)
}

/// A log as a list of days: each a date with its entries in the order of logging.
pub type Days = Seq<(Seq<char>, Seq<LogEntryView>)>;

/// The mathematical value of a list of days.
pub open spec fn day_views(days: Seq<(String, Vec<LogEntry>)>) -> Days {
    Seq::new(days.len(), |i: int| (days[i].0@, entry_views(days[i].1@)))
}

/// No two days of the list have the same date.
pub open spec fn distinct_dates(days: Days) -> bool {
    forall|i: int, j: int| 0 <= i < j < days.len() ==> days[i].0 != days[j].0
}

/// The list has a day of this date.
pub open spec fn has_date(days: Days, date: Seq<char>) -> bool {
    exists|i: int| 0 <= i < days.len() && (#[trigger] days[i]).0 == date
}

/// Where the day of this date stands in the list, if `has_date` holds.
pub open spec fn day_of(days: Days, date: Seq<char>) -> int {
    choose|i: int| 0 <= i < days.len() && (#[trigger] days[i]).0 == date
}

/// The entries of a date, in the order of logging; none where the list has no such day.
pub open spec fn entries_on(days: Days, date: Seq<char>) -> Seq<LogEntryView> {
    if has_date(days, date) {
        days[day_of(days, date)].1
    } else {
        Seq::empty()
    }
}

/// The list after an entry was put at the end of a date's entries.
pub open spec fn appended(days: Days, date: Seq<char>, entry: LogEntryView) -> Days {
    if has_date(days, date) {
        let i = day_of(days, date);
        days.update(i, (date, days[i].1.push(entry)))
    } else {
        days.push((date, seq![entry]))
    }
}

/// The list after the entry at `index` was taken out of a date's entries; the list
/// itself where the date has no entry there.
pub open spec fn removed(days: Days, date: Seq<char>, index: int) -> Days {
    if 0 <= index < entries_on(days, date).len() {
        let i = day_of(days, date);
        days.update(i, (date, days[i].1.remove(index)))
    } else {
        days
    }
}

/// The dates on which something is logged, in the list's order: a day without
/// entries counts as no day.
pub open spec fn dates_with_entries(days: Days) -> Seq<Seq<char>>
    decreases days.len(),
{
    if days.len() == 0 {
        Seq::empty()
    } else {
        let before = dates_with_entries(days.drop_last());
        if days.last().1.len() > 0 {
            before.push(days.last().0)
        } else {
            before
        }
    }
}

/// The list has a day of this date that has an entry.
pub open spec fn has_entries(days: Days, date: Seq<char>) -> bool {
    exists|i: int| 0 <= i < days.len() && (#[trigger] days[i]).0 == date && days[i].1.len() > 0
}

proof fn lemma_dates_listed(days: Days, date: Seq<char>)
    ensures
        dates_with_entries(days).contains(date) <==> has_entries(days, date),
    decreases days.len(),
{
    if days.len() > 0 {
        let rest = days.drop_last();
        let before = dates_with_entries(rest);
        lemma_dates_listed(rest, date);
        if dates_with_entries(days).contains(date) {
            let k = choose|k: int|
                0 <= k < dates_with_entries(days).len() && dates_with_entries(days)[k] == date;
            if k < before.len() {
                assert(before[k] == date);
                let i = choose|i: int|
                    0 <= i < rest.len() && (#[trigger] rest[i]).0 == date && rest[i].1.len() > 0;
                assert(days[i].0 == date && days[i].1.len() > 0);
            } else {
                assert(days[days.len() - 1].0 == date);
            }
        }
        if has_entries(days, date) {
            let i = choose|i: int|
                0 <= i < days.len() && (#[trigger] days[i]).0 == date && days[i].1.len() > 0;
            if i < rest.len() {
                assert(rest[i].0 == date && rest[i].1.len() > 0);
                let k = choose|k: int| 0 <= k < before.len() && before[k] == date;
                assert(dates_with_entries(days)[k] == date);
            } else {
                assert(dates_with_entries(days)[before.len() as int] == date);
            }
        }
    }
}

/// The dates on which something is logged are those that have entries, each once.
pub proof fn lemma_dates_with_entries(days: Days, date: Seq<char>)
    requires
        distinct_dates(days),
    ensures
        dates_with_entries(days).contains(date) <==> entries_on(days, date).len() > 0,
        dates_with_entries(days).no_duplicates(),
    decreases days.len(),
{
    lemma_dates_listed(days, date);
    if has_entries(days, date) {
        let i = choose|i: int|
            0 <= i < days.len() && (#[trigger] days[i]).0 == date && days[i].1.len() > 0;
        lemma_day_of(days, i);
    }
    if entries_on(days, date).len() > 0 {
        let i = day_of(days, date);
        assert(days[i].0 == date && days[i].1.len() > 0);
    }
    if days.len() > 0 {
        let rest = days.drop_last();
        let last = days.last();
        lemma_dates_with_entries(rest, last.0);
        lemma_dates_listed(rest, last.0);
        if has_entries(rest, last.0) {
            let i = choose|i: int|
                0 <= i < rest.len() && (#[trigger] rest[i]).0 == last.0 && rest[i].1.len() > 0;
            assert(days[i].0 != days[days.len() - 1].0);
        }
    }
}

/// The list after a day was put in: it takes the place of the day with its date, or
/// goes to the end where the date is new.
pub open spec fn put_day(days: Days, day: (Seq<char>, Seq<LogEntryView>)) -> Days {
    if has_date(days, day.0) {
        days.update(day_of(days, day.0), day)
    } else {
        days.push(day)
    }
}

/// The list that comes of putting in the days of `list` one after the other: of two
/// days with one date the later one stays.
pub open spec fn kept_days(list: Days) -> Days
    decreases list.len(),
{
    if list.len() == 0 {
        Seq::empty()
    } else {
        put_day(kept_days(list.drop_last()), list.last())
    }
}

/// In a list without repeated dates, the place of a date is the one place that holds it.
pub proof fn lemma_day_of(days: Days, i: int)
    requires
        distinct_dates(days),
        0 <= i < days.len(),
    ensures
        has_date(days, days[i].0),
        day_of(days, days[i].0) == i,
        entries_on(days, days[i].0) == days[i].1,
{
    let date = days[i].0;
    assert(has_date(days, date));
    let j = day_of(days, date);
    assert(0 <= j < days.len() && days[j].0 == date);
    if j < i {
        assert(days[j].0 != days[i].0);
    } else if i < j {
        assert(days[i].0 != days[j].0);
    }
}

/// What appending does to each date: the entry comes last on its date, and the other
/// dates keep their entries.
pub proof fn lemma_appended(days: Days, date: Seq<char>, entry: LogEntryView, other: Seq<char>)
    requires
        distinct_dates(days),
    ensures
        distinct_dates(appended(days, date, entry)),
        entries_on(appended(days, date, entry), date) == entries_on(days, date).push(entry),
        other != date ==> entries_on(appended(days, date, entry), other) == entries_on(days, other),
{
    let after = appended(days, date, entry);
    if has_date(days, date) {
        let i = day_of(days, date);
        assert(after[i].0 == date);
        lemma_day_of(after, i);
        if other != date {
            if has_date(days, other) {
                let k = day_of(days, other);
                assert(after[k].0 == other);
                lemma_day_of(after, k);
            } else if has_date(after, other) {
                let k = day_of(after, other);
                assert(days[k].0 == other);
            }
        }
    } else {
        let i = days.len() as int;
        assert(after[i].0 == date);
        assert forall|a: int, b: int| 0 <= a < b < after.len() implies after[a].0 != after[b].0 by {
            if b == i {
                assert(days[a].0 != date);
            }
        }
        lemma_day_of(after, i);
        assert(entries_on(days, date).push(entry) =~= seq![entry]);
        if other != date {
            if has_date(days, other) {
                let k = day_of(days, other);
                assert(after[k].0 == other);
                lemma_day_of(after, k);
            } else if has_date(after, other) {
                let k = day_of(after, other);
                assert(days[k].0 == other);
            }
        }
    }
}

/// What removing does to each date: the date loses the entry at the index, where it
/// has one there, and the other dates keep their entries.
pub proof fn lemma_removed(days: Days, date: Seq<char>, index: int, other: Seq<char>)
    requires
        distinct_dates(days),
    ensures
        distinct_dates(removed(days, date, index)),
        0 <= index < entries_on(days, date).len() ==> entries_on(removed(days, date, index), date)
            == entries_on(days, date).remove(index),
        !(0 <= index < entries_on(days, date).len()) ==> removed(days, date, index) == days,
        other != date ==> entries_on(removed(days, date, index), other) == entries_on(days, other),
{
    let after = removed(days, date, index);
    if 0 <= index < entries_on(days, date).len() {
        let i = day_of(days, date);
        assert(after[i].0 == date);
        lemma_day_of(after, i);
        if other != date {
            if has_date(days, other) {
                let k = day_of(days, other);
                assert(after[k].0 == other);
                lemma_day_of(after, k);
            } else if has_date(after, other) {
                let k = day_of(after, other);
                assert(days[k].0 == other);
            }
        }
    }
}

/// Appending an entry and then removing the entry at the position that appending gave
/// leaves each date with the entries that it had, in their order.
pub proof fn lemma_append_then_remove(
    days: Days,
    date: Seq<char>,
    entry: LogEntryView,
    other: Seq<char>,
)
    requires
        distinct_dates(days),
    ensures
        entries_on(
            removed(appended(days, date, entry), date, entries_on(days, date).len() as int),
            other,
        ) == entries_on(days, other),
{
    let position = entries_on(days, date).len() as int;
    let middle = appended(days, date, entry);
    lemma_appended(days, date, entry, other);
    lemma_removed(middle, date, position, other);
    if other == date {
        assert(entries_on(days, date).push(entry).remove(position) =~= entries_on(days, date));
    }
}

/// The calories of an entry: those of its food, resolved against the list, times the
/// servings; nothing where no food has the entry's id.
pub open spec fn entry_calories(foods: Seq<FoodView>, entry: LogEntryView) -> Resolution {
    match lookup(foods, entry.food_id) {
        None => Resolution::Calories(0),
        Some(food) => resolve(foods, food).times(entry.servings),
    }
}

/// The calories of a list of entries: the sum over the entries.
pub open spec fn total_of(foods: Seq<FoodView>, entries: Seq<LogEntryView>) -> Resolution
    decreases entries.len(),
{
    if entries.len() == 0 {
        Resolution::Calories(0)
    } else {
        total_of(foods, entries.drop_last()).plus(entry_calories(foods, entries.last()))
    }
}

/// Counting one more entry adds that entry's calories.
pub proof fn lemma_total_next(foods: Seq<FoodView>, entries: Seq<LogEntryView>, i: int)
    requires
        0 <= i < entries.len(),
    ensures
        total_of(foods, entries.take(i + 1)) == total_of(foods, entries.take(i)).plus(
            entry_calories(foods, entries[i]),
        ),
{
    assert(entries.take(i + 1).drop_last() =~= entries.take(i));
}

/// A cycle among the first entries is a cycle of the whole list.
pub proof fn lemma_total_cycle(foods: Seq<FoodView>, entries: Seq<LogEntryView>, i: int)
    requires
        0 <= i <= entries.len(),
        total_of(foods, entries.take(i)) is Cycle,
    ensures
        total_of(foods, entries) is Cycle,
    decreases entries.len() - i,
{
    if i < entries.len() {
        lemma_total_next(foods, entries, i);
        lemma_total_cycle(foods, entries, i + 1);
    } else {
        assert(entries.take(i) =~= entries);
    }
}

/// The calories of an entry: those of its food in the store times the servings;
/// nothing where the store does not have the food.
pub fn calories_of_entry(entry: &LogEntry, foods: &Database) -> (calories: Result<
    Amount,
    ResolveError,
>)
    ensures
        calories == outcome(entry_calories(foods@, entry@)),
{
    match foods.get_food(entry.food_id.as_str()) {
        None => Ok(Amount { thousandths: 0 }),
        Some(food) => {
            let amount = match compute_calories(food, foods) {
                Ok(calories) => calories,
                Err(error) => {
                    return Err(error);
                },
            };
            match amount.times(entry.servings) {
                Some(calories) => Ok(calories),
                None => Err(ResolveError::Overflow),
            }
        },
    }
}

/// The daily log: for each date the entries logged on it, in the order of logging.
/// A date whose entries were all removed is a date on which nothing is logged: no
/// query tells it from a date that was never logged on.
#[derive(Debug)]
pub struct DailyLog {
    days: Vec<(String, Vec<LogEntry>)>,
    file_path: String,
}

impl View for DailyLog {
    type V = Days;

    closed spec fn view(&self) -> Days {
        day_views(self.days@)
    }
}

impl DailyLog {
    /// What holds of every log: it has no date twice.
    #[verifier::type_invariant]
    pub open spec fn well_formed(self) -> bool {
        distinct_dates(self@)
    }

    /// The path of the file that the log is saved to.
    pub closed spec fn path(&self) -> Seq<char> {
        self.file_path@
    }

    /// The entries of a date.
    pub open spec fn entries(&self, date: Seq<char>) -> Seq<LogEntryView> {
        entries_on(self@, date)
    }

    pub fn new(file_path: &str) -> (log: DailyLog)
        ensures
            log@ == Seq::<(Seq<char>, Seq<LogEntryView>)>::empty(),
            log.path() == file_path@,
            distinct_dates(log@),
    {
        let log = DailyLog { days: Vec::new(), file_path: file_path.to_owned() };
        assert(log@ =~= Seq::<(Seq<char>, Seq<LogEntryView>)>::empty());
        log
    }

    pub fn file_path(&self) -> (path: &String)
        ensures
            path@ == self.path(),
    {
        &self.file_path
    }

    /// The place of the day of this date.
    fn day_index(&self, date: &str) -> (place: Option<usize>)
        ensures
            distinct_dates(self@),
            match place {
                Some(i) => i < self@.len() && has_date(self@, date@) && day_of(self@, date@) == i,
                None => !has_date(self@, date@),
            },
    {
        proof {
            use_type_invariant(self);
        }
        let mut i: usize = 0;
        while i < self.days.len()
            invariant
                i <= self.days.len(),
                distinct_dates(self@),
                forall|k: int| 0 <= k < i ==> (#[trigger] day_views(self.days@)[k]).0 != date@,
            decreases self.days.len() - i,
        {
            if same_text(self.days[i].0.as_str(), date) {
                proof {
                    lemma_day_of(self@, i as int);
                }
                return Some(i);
            }
            i += 1;
        }
        None
    }

    /// Puts an entry at the end of a date's entries and says at which position it
    /// stands there.
    pub fn add_food(&mut self, date: &str, food_id: &str, servings: Amount) -> (position: usize)
        ensures
            final(self)@ == appended(
                old(self)@,
                date@,
                (LogEntryView { food_id: food_id@, servings: servings@ }),
            ),
            final(self).path() == old(self).path(),
            position == old(self).entries(date@).len(),
            final(self).entries(date@) == old(self).entries(date@).push(
                (LogEntryView { food_id: food_id@, servings: servings@ }),
            ),
            forall|other: Seq<char>|
                other != date@ ==> #[trigger] final(self).entries(other) == old(self).entries(other),
            distinct_dates(old(self)@),
            distinct_dates(final(self)@),
    {
        let entry = LogEntry { food_id: food_id.to_owned(), servings };
        let place = self.day_index(date);
        let ghost before = self@;
        proof {
            assert forall|other: Seq<char>| other != date@ implies #[trigger] entries_on(
                appended(before, date@, entry@),
                other,
            ) == entries_on(before, other) by {
                lemma_appended(before, date@, entry@, other);
            }
            lemma_appended(before, date@, entry@, date@);
        }
        let mut days: Vec<(String, Vec<LogEntry>)> = Vec::new();
        std::mem::swap(&mut days, &mut self.days);
        let position = match place {
            Some(i) => {
                let mut entries: Vec<LogEntry> = Vec::new();
                std::mem::swap(&mut entries, &mut days[i].1);
                let position = entries.len();
                entries.push(entry);
                assert(entry_views(entries@) =~= before[i as int].1.push(entry@));
                std::mem::swap(&mut entries, &mut days[i].1);
                assert(day_views(days@)[i as int] == (date@, before[i as int].1.push(entry@)));
                assert forall|k: int| 0 <= k < days@.len() && k != i implies day_views(days@)[k]
                    == before[k] by {}
                position
            },
            None => {
                let mut entries: Vec<LogEntry> = Vec::new();
                entries.push(entry);
                assert(entry_views(entries@) =~= seq![entry@]);
                days.push((date.to_owned(), entries));
                assert(day_views(days@)[before.len() as int] == (date@, seq![entry@]));
                0
            },
        };
        assert(day_views(days@) =~= appended(before, date@, entry@));
        self.days = days;
        position
    }

    /// Takes the entry at `index` out of a date's entries and hands it back; the later
    /// entries of the date move down by one. Where the date has no entry at `index`,
    /// nothing changes.
    pub fn remove_food(&mut self, date: &str, index: usize) -> (taken: Option<LogEntry>)
        ensures
            final(self)@ == removed(old(self)@, date@, index as int),
            final(self).path() == old(self).path(),
            match taken {
                Some(entry) => index < old(self).entries(date@).len() && entry@ == old(
                    self,
                ).entries(date@)[index as int] && final(self).entries(date@) == old(
                    self,
                ).entries(date@).remove(index as int),
                None => index >= old(self).entries(date@).len() && final(self)@ == old(self)@,
            },
            forall|other: Seq<char>|
                other != date@ ==> #[trigger] final(self).entries(other) == old(self).entries(other),
            distinct_dates(old(self)@),
            distinct_dates(final(self)@),
    {
        let place = self.day_index(date);
        let ghost before = self@;
        proof {
            assert forall|other: Seq<char>| other != date@ implies #[trigger] entries_on(
                removed(before, date@, index as int),
                other,
            ) == entries_on(before, other) by {
                lemma_removed(before, date@, index as int, other);
            }
            lemma_removed(before, date@, index as int, date@);
        }
        match place {
            Some(i) => {
                if index < self.days[i].1.len() {
                    let mut days: Vec<(String, Vec<LogEntry>)> = Vec::new();
                    std::mem::swap(&mut days, &mut self.days);
                    let mut entries: Vec<LogEntry> = Vec::new();
                    std::mem::swap(&mut entries, &mut days[i].1);
                    let entry = entries.remove(index);
                    assert(entry_views(entries@) =~= before[i as int].1.remove(index as int));
                    std::mem::swap(&mut entries, &mut days[i].1);
                    assert(day_views(days@)[i as int] == (
                        date@,
                        before[i as int].1.remove(index as int),
                    ));
                    assert forall|k: int| 0 <= k < days@.len() && k != i implies day_views(
                        days@,
                    )[k] == before[k] by {}
                    assert(day_views(days@) =~= removed(before, date@, index as int));
                    self.days = days;
                    Some(entry)
                } else {
                    None
                }
            },
            None => None,
        }
    }

    /// The calories logged on a date: for each entry the calories of its food in the
    /// store times the servings, summed up. An entry whose food the store does not
    /// have counts as nothing; a cycle under any entry's food is an error.
    pub fn get_total_calories(&self, date: &str, foods: &Database) -> (total: Result<
        Amount,
        ResolveError,
    >)
        ensures
            total == outcome(total_of(foods@, self.entries(date@))),
            distinct_dates(self@),
    {
        proof {
            use_type_invariant(self);
        }
        let place = match self.day_index(date) {
            Some(i) => i,
            None => {
                return Ok(Amount { thousandths: 0 });
            },
        };
        let day = &self.days[place].1;
        let ghost entries = self.entries(date@);
        assert(entries == entry_views(day@));
        assert(entries.take(0) =~= Seq::<LogEntryView>::empty());
        let mut sum: Option<Amount> = Some(Amount { thousandths: 0 });
        let mut k: usize = 0;
        while k < day.len()
            invariant
                k <= day.len(),
                entries == entry_views(day@),
                entries == self.entries(date@),
                distinct_dates(self@),
                !(total_of(foods@, entries.take(k as int)) is Cycle),
                sum == total_of(foods@, entries.take(k as int)).amount(),
            decreases day.len() - k,
        {
            let entry = &day[k];
            let ghost counted = total_of(foods@, entries.take(k as int));
            proof {
                lemma_total_next(foods@, entries, k as int);
                assert(entries[k as int] == entry@);
            }
            match foods.get_food(entry.food_id.as_str()) {
                None => {
                    proof {
                        lemma_added_nothing(counted);
                    }
                },
                Some(food) => {
                    let amount = match compute_calories(food, foods) {
                        Ok(calories) => Some(calories),
                        Err(ResolveError::Overflow) => None,
                        Err(ResolveError::CycleDetected) => {
                            proof {
                                lemma_total_cycle(foods@, entries, k as int + 1);
                            }
                            return Err(ResolveError::CycleDetected);
                        },
                    };
                    proof {
                        lemma_added_scaled(counted, resolve(foods@, food@), entry.servings);
                    }
                    sum = add_scaled(sum, amount, entry.servings);
                },
            }
            k += 1;
        }
        assert(entries.take(k as int) =~= entries);
        match sum {
            Some(calories) => Ok(calories),
            None => Err(ResolveError::Overflow),
        }
    }

    /// The entries of a date, in the order of logging.
    pub fn get_log_entries(&self, date: &str) -> (entries: Vec<&LogEntry>)
        ensures
            entry_ref_views(entries@) == self.entries(date@),
            distinct_dates(self@),
    {
        let mut found: Vec<&LogEntry> = Vec::new();
        match self.day_index(date) {
            Some(i) => {
                let day = &self.days[i].1;
                let mut k: usize = 0;
                while k < day.len()
                    invariant
                        k <= day.len(),
                        found.len() == k,
                        forall|j: int| 0 <= j < k ==> found@[j]@ == day@[j]@,
                    decreases day.len() - k,
                {
                    found.push(&day[k]);
                    k += 1;
                }
                assert(entry_ref_views(found@) =~= self.entries(date@));
            },
            None => {
                assert(entry_ref_views(found@) =~= self.entries(date@));
            },
        }
        found
    }

    /// Whether anything is logged on a date.
    pub fn has_entries_for_date(&self, date: &str) -> (any: bool)
        ensures
            any == (self.entries(date@).len() > 0),
            distinct_dates(self@),
    {
        match self.day_index(date) {
            Some(i) => self.days[i].1.len() > 0,
            None => false,
        }
    }

    /// Replaces what the log holds by the days of a list, each under its date.
    pub fn load(&mut self, days: Vec<(String, Vec<LogEntry>)>)
        ensures
            final(self)@ == kept_days(day_views(days@)),
            final(self).path() == old(self).path(),
            distinct_dates(final(self)@),
    {
        self.days = Vec::new();
        assert(self@ =~= Seq::<(Seq<char>, Seq<LogEntryView>)>::empty());
        let ghost list = day_views(days@);
        assert(list.take(0) =~= Seq::<(Seq<char>, Seq<LogEntryView>)>::empty());
        let mut i: usize = 0;
        while i < days.len()
            invariant
                i <= days.len(),
                list == day_views(days@),
                self@ == kept_days(list.take(i as int)),
                self.path() == old(self).path(),
                distinct_dates(self@),
            decreases days.len() - i,
        {
            proof {
                assert(list.take(i + 1).drop_last() =~= list.take(i as int));
            }
            let date = days[i].0.clone();
            let entries = copy_entries(&days[i].1);
            let place = self.day_index(date.as_str());
            let ghost before = self@;
            let mut kept: Vec<(String, Vec<LogEntry>)> = Vec::new();
            std::mem::swap(&mut kept, &mut self.days);
            match place {
                Some(at) => {
                    let mut day = (date, entries);
                    std::mem::swap(&mut day, &mut kept[at]);
                },
                None => {
                    kept.push((date, entries));
                },
            }
            assert(day_views(kept@) =~= put_day(before, list[i as int]));
            assert forall|a: int, b: int| 0 <= a < b < day_views(kept@).len() implies day_views(
                kept@,
            )[a].0 != day_views(kept@)[b].0 by {
                if place.is_none() && b == before.len() {
                    assert(before[a].0 != list[i as int].0);
                }
            }
            self.days = kept;
            i += 1;
        }
        assert(list.take(i as int) =~= list);
    }

    /// A copy of the days with their entries, in the log's order: what there is to save.
    pub fn save(&self) -> (days: Vec<(String, Vec<LogEntry>)>)
        ensures
            day_views(days@) == self@,
            distinct_dates(self@),
    {
        proof {
            use_type_invariant(self);
        }
        let mut days: Vec<(String, Vec<LogEntry>)> = Vec::new();
        let mut i: usize = 0;
        while i < self.days.len()
            invariant
                i <= self.days.len(),
                days.len() == i,
                forall|k: int|
                    0 <= k < i ==> days@[k].0@ == self.days@[k].0@ && entry_views(days@[k].1@)
                        == entry_views(self.days@[k].1@),
            decreases self.days.len() - i,
        {
            days.push((self.days[i].0.clone(), copy_entries(&self.days[i].1)));
            i += 1;
        }
        assert(day_views(days@) =~= self@);
        days
    }

    /// The dates on which something is logged, each once, in the order in which
    /// they first came. A date whose entries were all removed is not among them.
    pub fn get_all_dates(&self) -> (dates: Vec<&String>)
        ensures
            ref_texts(dates@) == dates_with_entries(self@),
            ref_texts(dates@).no_duplicates(),
            forall|date: Seq<char>| #[trigger]
                ref_texts(dates@).contains(date) <==> self.entries(date).len() > 0,
            distinct_dates(self@),
    {
        proof {
            use_type_invariant(self);
        }
        let mut dates: Vec<&String> = Vec::new();
        let mut i: usize = 0;
        assert(self@.take(0) =~= Seq::<(Seq<char>, Seq<LogEntryView>)>::empty());
        while i < self.days.len()
            invariant
                i <= self.days.len(),
                ref_texts(dates@) == dates_with_entries(self@.take(i as int)),
            decreases self.days.len() - i,
        {
            let ghost before = ref_texts(dates@);
            assert(self@.take(i + 1).drop_last() =~= self@.take(i as int));
            assert(self@.take(i + 1).last() == self@[i as int]);
            if self.days[i].1.len() > 0 {
                dates.push(&self.days[i].0);
                assert(ref_texts(dates@) =~= before.push(self@[i as int].0));
            }
            i += 1;
        }
        assert(self@.take(i as int) =~= self@);
        proof {
            assert forall|date: Seq<char>| #[trigger]
                ref_texts(dates@).contains(date) <==> self.entries(date).len() > 0 by {
                lemma_dates_with_entries(self@, date);
            }
            lemma_dates_with_entries(self@, Seq::empty());
        }
        dates
    }
}

} // verus!
