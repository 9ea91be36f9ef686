use crate::amount::Amount;
pub use crate::resolver::compute_calories;
use crate::text::{copy_texts, texts};
use vstd::prelude::*;

verus! {

/// The mathematical value of a component list: each component's id and servings, the
/// servings in thousandths.
pub open spec fn component_views(list: Seq<(String, Amount)>) -> Seq<(Seq<char>, nat)> {
    Seq::new(list.len(), |i: int| (list[i].0@, list[i].1@))
}

/// A food with a fixed number of calories per serving.
#[derive(Debug)]
pub struct BasicFood {
    pub id: String,
    pub keywords: Vec<String>,
    pub calories: Amount,
}

/// A food made of servings of other foods, each named by its id.
#[derive(Debug)]
pub struct CompositeFood {
    pub id: String,
    pub keywords: Vec<String>,
    pub components: Vec<(String, Amount)>,
}

#[derive(Debug)]
pub enum Food {
    Basic(BasicFood),
    Composite(CompositeFood),
}

pub struct BasicFoodView {
    pub id: Seq<char>,
    pub keywords: Seq<Seq<char>>,
    pub calories: nat,
}

pub struct CompositeFoodView {
    pub id: Seq<char>,
    pub keywords: Seq<Seq<char>>,
    pub components: Seq<(Seq<char>, nat)>,
}

pub enum FoodView {
    Basic(BasicFoodView),
    Composite(CompositeFoodView),
}

impl FoodView {
    pub open spec fn id(self) -> Seq<char> {
        match self {
            FoodView::Basic(b) => b.id,
            FoodView::Composite(c) => c.id,
        }
    }

    pub open spec fn keywords(self) -> Seq<Seq<char>> {
        match self {
            FoodView::Basic(b) => b.keywords,
            FoodView::Composite(c) => c.keywords,
        }
    }
}

impl View for BasicFood {
    type V = BasicFoodView;

    open spec fn view(&self) -> BasicFoodView {
        BasicFoodView {
            id: self.id@,
            keywords: texts(self.keywords@),
            calories: self.calories@,
        }
    }
}

impl View for CompositeFood {
    type V = CompositeFoodView;

    open spec fn view(&self) -> CompositeFoodView {
        CompositeFoodView {
            id: self.id@,
            keywords: texts(self.keywords@),
            components: component_views(self.components@),
        }
    }
}

impl View for Food {
    type V = FoodView;

    open spec fn view(&self) -> FoodView {
        match self {
            Food::Basic(b) => FoodView::Basic(b@),
            Food::Composite(c) => FoodView::Composite(c@),
        }
    }
}

impl Clone for BasicFood {
    fn clone(&self) -> (copy: BasicFood)
        ensures
            copy@ == self@,
    {
        BasicFood {
            id: self.id.clone(),
            keywords: copy_texts(&self.keywords),
            calories: self.calories,
        }
    }
}

impl Clone for CompositeFood {
    fn clone(&self) -> (copy: CompositeFood)
        ensures
            copy@ == self@,
    {
        let mut components: Vec<(String, Amount)> = Vec::new();
        let mut i: usize = 0;
        while i < self.components.len()
            invariant
                i <= self.components.len(),
                components.len() == i,
                forall|k: int|
                    0 <= k < i ==> components@[k].0@ == self.components@[k].0@
                        && components@[k].1 == self.components@[k].1,
            decreases self.components.len() - i,
        {
            let servings: Amount = self.components[i].1;
            components.push((self.components[i].0.clone(), servings));
            i += 1;
        }
        assert(component_views(components@) =~= component_views(self.components@));
        CompositeFood { id: self.id.clone(), keywords: copy_texts(&self.keywords), components }
    }
}

impl Food {
    /// The id under which a store keeps this food.
    pub fn id(&self) -> (id: &String)
        ensures
            id@ == self@.id(),
    {
        match self {
            Food::Basic(b) => &b.id,
            Food::Composite(c) => &c.id,
        }
    }

    pub fn keywords(&self) -> (keywords: &Vec<String>)
        ensures
            texts(keywords@) == self@.keywords(),
    {
        match self {
            Food::Basic(b) => &b.keywords,
            Food::Composite(c) => &c.keywords,
        }
    }
}

impl Clone for Food {
    fn clone(&self) -> (copy: Food)
        ensures
            copy@ == self@,
    {
        match self {
            Food::Basic(b) => Food::Basic(b.clone()),
            Food::Composite(c) => Food::Composite(c.clone()),
        }
    }
}

} // verus!
