use crate::food::{Food, FoodView};
use crate::text::{contains, contains_text, lowercased, same_text, to_lowercase};
use vstd::prelude::*;

verus! {

/// No two foods of the list share an id.
pub open spec fn distinct_ids(foods: Seq<FoodView>) -> bool {
    forall|i: int, j: int| 0 <= i < j < foods.len() ==> foods[i].id() != foods[j].id()
}

/// Some food of the list has this id.
pub open spec fn has_id(foods: Seq<FoodView>, id: Seq<char>) -> bool {
    exists|i: int| 0 <= i < foods.len() && #[trigger] foods[i].id() == id
}

/// Where the food with this id stands in the list, if `has_id` holds.
pub open spec fn index_of(foods: Seq<FoodView>, id: Seq<char>) -> int {
    choose|i: int| 0 <= i < foods.len() && #[trigger] foods[i].id() == id
}

/// The food stored under an id, if there is one.
pub open spec fn lookup(foods: Seq<FoodView>, id: Seq<char>) -> Option<FoodView> {
    if has_id(foods, id) {
        Some(foods[index_of(foods, id)])
    } else {
        None
    }
}

/// The list after storing `food`: it takes the place of the food with its id, or
/// goes to the end where the id is new.
pub open spec fn upsert(foods: Seq<FoodView>, food: FoodView) -> Seq<FoodView> {
    if has_id(foods, food.id()) {
        foods.update(index_of(foods, food.id()), food)
    } else {
        foods.push(food)
    }
}

/// The list without the food of this id; the others keep their order.
pub open spec fn without(foods: Seq<FoodView>, id: Seq<char>) -> Seq<FoodView> {
    if has_id(foods, id) {
        foods.remove(index_of(foods, id))
    } else {
        foods
    }
}

/// The mathematical values of a list of foods.
pub open spec fn food_views(foods: Seq<Food>) -> Seq<FoodView> {
    Seq::new(foods.len(), |i: int| foods[i]@)
}

/// The mathematical values of the foods that a list of references leads to.
pub open spec fn food_ref_views(foods: Seq<&Food>) -> Seq<FoodView> {
    Seq::new(foods.len(), |i: int| foods[i]@)
}

/// One of the food's keywords holds `keyword` as a part.
pub open spec fn has_keyword(food: FoodView, keyword: Seq<char>) -> bool {
    exists|k: int|
        0 <= k < food.keywords().len() && contains_text(#[trigger] food.keywords()[k], keyword)
}

/// The test by which a search for `keyword` keeps a food.
pub open spec fn keyword_test(keyword: Seq<char>) -> spec_fn(FoodView) -> bool {
    |food: FoodView| has_keyword(food, keyword)
}

/// The foods with a keyword that holds `keyword`, in the list's order.
pub open spec fn search(foods: Seq<FoodView>, keyword: Seq<char>) -> Seq<FoodView> {
    foods.filter(keyword_test(keyword))
}

/// One of the food's keywords is `keyword` when put in lower case.
pub open spec fn names_keyword(food: FoodView, keyword: Seq<char>) -> bool {
    exists|k: int|
        0 <= k < food.keywords().len() && lowercased(#[trigger] food.keywords()[k]) == keyword
}

/// The food's keywords, put in lower case, hold every one of `keywords`; or, without
/// `match_all`, at least one of them.
pub open spec fn names_keywords(food: FoodView, keywords: Seq<Seq<char>>, match_all: bool) -> bool {
    if match_all {
        forall|i: int| 0 <= i < keywords.len() ==> names_keyword(food, #[trigger] keywords[i])
    } else {
        exists|i: int| 0 <= i < keywords.len() && names_keyword(food, #[trigger] keywords[i])
    }
}

/// The test by which a search for several keywords keeps a food.
pub open spec fn keywords_test(keywords: Seq<Seq<char>>, match_all: bool) -> spec_fn(
    FoodView,
) -> bool {
    |food: FoodView| names_keywords(food, keywords, match_all)
}

/// The foods that a search for several keywords keeps, in the list's order.
pub open spec fn search_all(
    foods: Seq<FoodView>,
    keywords: Seq<Seq<char>>,
    match_all: bool,
) -> Seq<FoodView> {
    foods.filter(keywords_test(keywords, match_all))
}

/// The list that comes of storing the foods of `list` one after the other: of two
/// foods with one id the later one stays, at the place of the first.
pub open spec fn stored(list: Seq<FoodView>) -> Seq<FoodView>
    decreases list.len(),
{
    if list.len() == 0 {
        Seq::empty()
    } else {
        upsert(stored(list.drop_last()), list.last())
    }
}

/// In a list without repeated ids, the place of an id is the one place that holds it.
pub proof fn lemma_index_of(foods: Seq<FoodView>, i: int)
    requires
        distinct_ids(foods),
        0 <= i < foods.len(),
    ensures
        has_id(foods, foods[i].id()),
        index_of(foods, foods[i].id()) == i,
        lookup(foods, foods[i].id()) == Some(foods[i]),
{
    let id = foods[i].id();
    assert(has_id(foods, id));
    let j = index_of(foods, id);
    assert(0 <= j < foods.len() && foods[j].id() == id);
    if j < i {
        assert(foods[j].id() != foods[i].id());
    } else if i < j {
        assert(foods[i].id() != foods[j].id());
    }
}

/// What storing a food does to each id: the food is found under its own id, and
/// every other id leads to what it led to.
pub proof fn lemma_upsert(foods: Seq<FoodView>, food: FoodView, other: Seq<char>)
    requires
        distinct_ids(foods),
    ensures
        distinct_ids(upsert(foods, food)),
        lookup(upsert(foods, food), food.id()) == Some(food),
        other != food.id() ==> lookup(upsert(foods, food), other) == lookup(foods, other),
{
    let after = upsert(foods, food);
    let id = food.id();
    if has_id(foods, id) {
        let i = index_of(foods, id);
        assert forall|a: int, b: int| 0 <= a < b < after.len() implies after[a].id()
            != after[b].id() by {
            assert(after[a].id() == foods[a].id() && after[b].id() == foods[b].id());
        }
        lemma_index_of(after, i);
    } else {
        let i = foods.len() as int;
        assert forall|a: int, b: int| 0 <= a < b < after.len() implies after[a].id()
            != after[b].id() by {
            if b == i {
                assert(foods[a].id() != id);
            }
        }
        lemma_index_of(after, i);
    }
    if other != id {
        if has_id(foods, other) {
            let k = index_of(foods, other);
            assert(after[k] == foods[k]);
            lemma_index_of(after, k);
        } else if has_id(after, other) {
            let k = index_of(after, other);
            assert(foods[k].id() == other);
        }
    }
}

/// What taking an id out does to each id: nothing is found under the id, and every
/// other id leads to what it led to.
pub proof fn lemma_without(foods: Seq<FoodView>, id: Seq<char>, other: Seq<char>)
    requires
        distinct_ids(foods),
    ensures
        distinct_ids(without(foods, id)),
        lookup(without(foods, id), id).is_none(),
        other != id ==> lookup(without(foods, id), other) == lookup(foods, other),
{
    let after = without(foods, id);
    if has_id(foods, id) {
        let i = index_of(foods, id);
        assert forall|a: int| 0 <= a < after.len() implies #[trigger] after[a] == foods[if a < i {
            a
        } else {
            a + 1
        }] by {}
        assert forall|a: int, b: int| 0 <= a < b < after.len() implies after[a].id()
            != after[b].id() by {
            let x = if a < i { a } else { a + 1 };
            let y = if b < i { b } else { b + 1 };
            assert(after[a] == foods[x] && after[b] == foods[y]);
        }
        if has_id(after, id) {
            let k = index_of(after, id);
            let x = if k < i { k } else { k + 1 };
            assert(after[k] == foods[x]);
            lemma_index_of(foods, x);
        }
        if other != id {
            if has_id(foods, other) {
                let k = index_of(foods, other);
                let x = if k < i { k } else { k - 1 };
                assert(after[x] == foods[k]);
                lemma_index_of(after, x);
            } else if has_id(after, other) {
                let k = index_of(after, other);
                let x = if k < i { k } else { k + 1 };
                assert(after[k] == foods[x]);
                assert(foods[x].id() == other);
            }
        }
    }
}

/// The food store: foods kept by id, in the order in which their ids first came.
#[derive(Debug)]
pub struct Database {
    foods: Vec<Food>,
    file_path: String,
}

impl View for Database {
    type V = Seq<FoodView>;

    closed spec fn view(&self) -> Seq<FoodView> {
        food_views(self.foods@)
    }
}

impl Database {
    /// What holds of every store: it has no id twice.
    #[verifier::type_invariant]
    pub open spec fn well_formed(self) -> bool {
        distinct_ids(self@)
    }

    /// The path of the file that the store is saved to.
    pub closed spec fn path(&self) -> Seq<char> {
        self.file_path@
    }

    pub fn new(file_path: &str) -> (db: Database)
        ensures
            db@ == Seq::<FoodView>::empty(),
            db.path() == file_path@,
            distinct_ids(db@),
    {
        let db = Database { foods: Vec::new(), file_path: file_path.to_owned() };
        assert(db@ =~= Seq::<FoodView>::empty());
        db
    }

    pub fn file_path(&self) -> (path: &String)
        ensures
            path@ == self.path(),
    {
        &self.file_path
    }

    /// The stored foods, in the store's order, with no id twice.
    pub fn foods(&self) -> (foods: &Vec<Food>)
        ensures
            food_views(foods@) == self@,
            distinct_ids(self@),
    {
        proof {
            use_type_invariant(self);
        }
        &self.foods
    }

    pub fn len(&self) -> (len: usize)
        ensures
            len == self@.len(),
    {
        self.foods.len()
    }

    pub fn is_empty(&self) -> (empty: bool)
        ensures
            empty == (self@.len() == 0),
    {
        self.foods.len() == 0
    }

    /// The place of the food with this id.
    pub fn position(&self, id: &str) -> (place: Option<usize>)
        ensures
            distinct_ids(self@),
            match place {
                Some(i) => i < self@.len() && has_id(self@, id@) && index_of(self@, id@) == i,
                None => !has_id(self@, id@),
            },
    {
        proof {
            use_type_invariant(self);
        }
        let mut i: usize = 0;
        while i < self.foods.len()
            invariant
                i <= self.foods.len(),
                distinct_ids(self@),
                forall|k: int| 0 <= k < i ==> food_views(self.foods@)[k].id() != id@,
            decreases self.foods.len() - i,
        {
            if same_text(self.foods[i].id().as_str(), id) {
                proof {
                    lemma_index_of(self@, i as int);
                }
                return Some(i);
            }
            i += 1;
        }
        None
    }

    /// The food stored under an id.
    pub fn get_food(&self, id: &str) -> (found: Option<&Food>)
        ensures
            match found {
                Some(food) => lookup(self@, id@) == Some(food@),
                None => lookup(self@, id@).is_none(),
            },
            distinct_ids(self@),
    {
        match self.position(id) {
            Some(i) => Some(&self.foods[i]),
            None => None,
        }
    }

    /// Stores a food under its id and hands back the food that it replaced.
    pub fn add_food(&mut self, food: Food) -> (previous: Option<Food>)
        ensures
            final(self)@ == upsert(old(self)@, food@),
            final(self).path() == old(self).path(),
            distinct_ids(old(self)@),
            distinct_ids(final(self)@),
            match previous {
                Some(p) => lookup(old(self)@, food@.id()) == Some(p@),
                None => lookup(old(self)@, food@.id()).is_none(),
            },
    {
        let place = self.position(food.id().as_str());
        let ghost before = self@;
        let mut foods: Vec<Food> = Vec::new();
        std::mem::swap(&mut foods, &mut self.foods);
        let previous = match place {
            Some(i) => {
                let mut incoming = food;
                std::mem::swap(&mut incoming, &mut foods[i]);
                Some(incoming)
            },
            None => {
                foods.push(food);
                None
            },
        };
        assert(food_views(foods@) =~= upsert(before, food@));
        self.foods = foods;
        previous
    }

    /// Takes the food with this id out of the store; says whether there was one.
    pub fn remove_food(&mut self, id: &str) -> (removed: bool)
        ensures
            final(self)@ == without(old(self)@, id@),
            final(self).path() == old(self).path(),
            distinct_ids(old(self)@),
            distinct_ids(final(self)@),
            removed == has_id(old(self)@, id@),
    {
        let place = self.position(id);
        let ghost before = self@;
        match place {
            Some(i) => {
                let mut foods: Vec<Food> = Vec::new();
                std::mem::swap(&mut foods, &mut self.foods);
                foods.remove(i);
                assert(food_views(foods@) =~= without(before, id@));
                self.foods = foods;
                true
            },
            None => false,
        }
    }
}

/// Whether one of the food's keywords holds `keyword` as a part.
pub fn food_has_keyword(food: &Food, keyword: &str) -> (found: bool)
    ensures
        found == has_keyword(food@, keyword@),
{
    let keywords = food.keywords();
    let mut k: usize = 0;
    while k < keywords.len()
        invariant
            k <= keywords.len(),
            crate::text::texts(keywords@) == food@.keywords(),
            forall|j: int| 0 <= j < k ==> !contains_text(#[trigger] food@.keywords()[j], keyword@),
        decreases keywords.len() - k,
    {
        assert(food@.keywords()[k as int] == keywords@[k as int]@);
        if contains(keywords[k].as_str(), keyword) {
            return true;
        }
        k += 1;
    }
    false
}

/// Whether one of the food's keywords is `keyword` when put in lower case.
pub fn food_names_keyword(food: &Food, keyword: &str) -> (found: bool)
    ensures
        found == names_keyword(food@, keyword@),
{
    let keywords = food.keywords();
    let mut k: usize = 0;
    while k < keywords.len()
        invariant
            k <= keywords.len(),
            crate::text::texts(keywords@) == food@.keywords(),
            forall|j: int| 0 <= j < k ==> lowercased(#[trigger] food@.keywords()[j]) != keyword@,
        decreases keywords.len() - k,
    {
        assert(food@.keywords()[k as int] == keywords@[k as int]@);
        let lower = to_lowercase(keywords[k].as_str());
        if same_text(lower.as_str(), keyword) {
            return true;
        }
        k += 1;
    }
    false
}

/// Whether the food's keywords, put in lower case, hold every one of `keywords`; or,
/// without `match_all`, at least one of them.
pub fn food_names_keywords(food: &Food, keywords: &Vec<String>, match_all: bool) -> (found: bool)
    ensures
        found == names_keywords(food@, crate::text::texts(keywords@), match_all),
{
    let ghost wanted = crate::text::texts(keywords@);
    let mut i: usize = 0;
    while i < keywords.len()
        invariant
            i <= keywords.len(),
            wanted == crate::text::texts(keywords@),
            forall|j: int| 0 <= j < i ==> names_keyword(food@, #[trigger] wanted[j]) == match_all,
        decreases keywords.len() - i,
    {
        assert(wanted[i as int] == keywords@[i as int]@);
        if food_names_keyword(food, keywords[i].as_str()) != match_all {
            return !match_all;
        }
        i += 1;
    }
    match_all
}

/// The id of the food that a user picked from a numbered list by its number, the
/// first food being number one; none where the list has no such number.
pub fn pick_food(foods: &Vec<&Food>, number: usize) -> (id: Option<String>)
    ensures
        match id {
            Some(picked) => 1 <= number <= foods@.len() && picked@ == foods@[number - 1]@.id(),
            None => number == 0 || number > foods@.len(),
        },
{
    if number == 0 || number > foods.len() {
        None
    } else {
        Some(foods[number - 1].id().clone())
    }
}

impl Database {
    /// The foods with a keyword that holds `keyword` as a part, in the store's order.
    pub fn search_by_keyword(&self, keyword: &str) -> (found: Vec<&Food>)
        ensures
            food_ref_views(found@) == search(self@, keyword@),
            distinct_ids(self@),
    {
        proof {
            use_type_invariant(self);
        }
        let mut found: Vec<&Food> = Vec::new();
        let mut i: usize = 0;
        proof {
            reveal(Seq::filter);
            assert(self@.take(0) =~= Seq::<FoodView>::empty());
        }
        while i < self.foods.len()
            invariant
                i <= self.foods.len(),
                food_ref_views(found@) == search(self@.take(i as int), keyword@),
            decreases self.foods.len() - i,
        {
            let food = &self.foods[i];
            let ghost before = food_ref_views(found@);
            proof {
                reveal(Seq::filter);
                assert(self@.take(i + 1).drop_last() =~= self@.take(i as int));
                assert(self@.take(i + 1).last() == food@);
            }
            if food_has_keyword(food, keyword) {
                found.push(food);
                assert(food_ref_views(found@) =~= before.push(food@));
            }
            i += 1;
        }
        assert(self@.take(i as int) =~= self@);
        found
    }

    /// The foods whose keywords, put in lower case, hold every one of `keywords`, or,
    /// without `match_all`, at least one of them; in the store's order.
    pub fn search_by_keywords(&self, keywords: &Vec<String>, match_all: bool) -> (found: Vec<
        &Food,
    >)
        ensures
            food_ref_views(found@) == search_all(
                self@,
                crate::text::texts(keywords@),
                match_all,
            ),
    {
        let ghost wanted = crate::text::texts(keywords@);
        let mut found: Vec<&Food> = Vec::new();
        let mut i: usize = 0;
        proof {
            reveal(Seq::filter);
            assert(self@.take(0) =~= Seq::<FoodView>::empty());
        }
        while i < self.foods.len()
            invariant
                i <= self.foods.len(),
                wanted == crate::text::texts(keywords@),
                food_ref_views(found@) == search_all(self@.take(i as int), wanted, match_all),
            decreases self.foods.len() - i,
        {
            let food = &self.foods[i];
            let ghost before = food_ref_views(found@);
            proof {
                reveal(Seq::filter);
                assert(self@.take(i + 1).drop_last() =~= self@.take(i as int));
                assert(self@.take(i + 1).last() == food@);
            }
            if food_names_keywords(food, keywords, match_all) {
                found.push(food);
                assert(food_ref_views(found@) =~= before.push(food@));
            }
            i += 1;
        }
        assert(self@.take(i as int) =~= self@);
        found
    }

    /// Replaces what the store holds by the foods of a list, each under its id.
    pub fn load(&mut self, foods: Vec<Food>)
        ensures
            final(self)@ == stored(food_views(foods@)),
            final(self).path() == old(self).path(),
            distinct_ids(final(self)@),
    {
        self.foods = Vec::new();
        assert(self@ =~= Seq::<FoodView>::empty());
        let ghost list = food_views(foods@);
        assert(list.take(0) =~= Seq::<FoodView>::empty());
        let mut i: usize = 0;
        while i < foods.len()
            invariant
                i <= foods.len(),
                list == food_views(foods@),
                self@ == stored(list.take(i as int)),
                self.path() == old(self).path(),
                distinct_ids(self@),
            decreases foods.len() - i,
        {
            proof {
                assert(list.take(i + 1).drop_last() =~= list.take(i as int));
            }
            self.add_food(foods[i].clone());
            i += 1;
        }
        assert(list.take(i as int) =~= list);
    }

    /// A copy of the stored foods, in the store's order: what there is to save.
    pub fn save(&self) -> (foods: Vec<Food>)
        ensures
            food_views(foods@) == self@,
            distinct_ids(self@),
    {
        proof {
            use_type_invariant(self);
        }
        let mut foods: Vec<Food> = Vec::new();
        let mut i: usize = 0;
        while i < self.foods.len()
            invariant
                i <= self.foods.len(),
                foods.len() == i,
                forall|k: int| 0 <= k < i ==> foods@[k]@ == self.foods@[k]@,
            decreases self.foods.len() - i,
        {
            foods.push(self.foods[i].clone());
            i += 1;
        }
        assert(food_views(foods@) =~= self@);
        foods
    }
}

} // verus!
