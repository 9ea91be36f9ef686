use crate::amount::{fits, held, product, Amount};
use crate::database::{has_id, index_of, lookup};
use crate::food::{CompositeFoodView, FoodView};
pub use crate::traversal::compute_calories;
use vstd::prelude::*;

verus! {

/// What resolving a food comes to: a number of calories, in thousandths; an
/// overflow, where an amount on the way is more than an `Amount` holds; or a cycle
/// among the components. A cycle goes before an overflow.
pub enum Resolution {
    Calories(nat),
    Overflow,
    Cycle,
}

impl Resolution {
    /// The calories of a number of servings, the servings in thousandths.
    pub open spec fn times(self, servings: nat) -> Resolution {
        match self {
            Resolution::Calories(n) => if fits(n) && fits(product(n, servings)) {
                Resolution::Calories(product(n, servings))
            } else {
                Resolution::Overflow
            },
            Resolution::Overflow => Resolution::Overflow,
            Resolution::Cycle => Resolution::Cycle,
        }
    }

    /// The calories of two parts together.
    pub open spec fn plus(self, other: Resolution) -> Resolution {
        match (self, other) {
            (Resolution::Cycle, _) => Resolution::Cycle,
            (_, Resolution::Cycle) => Resolution::Cycle,
            (Resolution::Calories(a), Resolution::Calories(b)) => if fits(a) && fits(b) && fits(
                a + b,
            ) {
                Resolution::Calories(a + b)
            } else {
                Resolution::Overflow
            },
            _ => Resolution::Overflow,
        }
    }

    /// The amount that the resolution comes to, if it comes to one.
    pub open spec fn amount(self) -> Option<Amount> {
        match self {
            Resolution::Calories(n) => held(n),
            _ => None,
        }
    }
}

/// How many foods of the list have an id that is not on the path.
pub open spec fn unvisited(foods: Seq<FoodView>, path: Set<Seq<char>>) -> nat
    decreases foods.len(),
{
    if foods.len() == 0 {
        0
    } else {
        unvisited(foods.drop_last(), path) + if path.contains(foods.last().id()) {
            0nat
        } else {
            1nat
        }
    }
}

/// Putting an id on the path leaves no more foods unvisited, and fewer where the id
/// is that of a food which was not on the path.
pub proof fn lemma_unvisited_shrinks(foods: Seq<FoodView>, path: Set<Seq<char>>, id: Seq<char>)
    ensures
        unvisited(foods, path.insert(id)) <= unvisited(foods, path),
        has_id(foods, id) && !path.contains(id) ==> unvisited(foods, path.insert(id)) < unvisited(
            foods,
            path,
        ),
    decreases foods.len(),
{
    if foods.len() > 0 {
        let rest = foods.drop_last();
        lemma_unvisited_shrinks(rest, path, id);
        if has_id(foods, id) && !path.contains(id) && foods.last().id() != id {
            let i = index_of(foods, id);
            assert(rest[i].id() == id);
        }
    }
}

/// The calories of one serving of a food, resolved while the ids in `path` are being
/// resolved: a composite's components are looked up in `foods`; one that is missing
/// counts as nothing, one whose id is on the path is a cycle.
pub open spec fn resolve_food(foods: Seq<FoodView>, food: FoodView, path: Set<Seq<char>>) -> Resolution
    decreases unvisited(foods, path), 1nat, 0nat,
{
    match food {
        FoodView::Basic(b) => if fits(b.calories) {
            Resolution::Calories(b.calories)
        } else {
            Resolution::Overflow
        },
        FoodView::Composite(c) => resolve_components(foods, c.components, path),
    }
}

/// The calories of one component: nothing where no food has its id, a cycle where the
/// id is on the path.
pub open spec fn resolve_component(
    foods: Seq<FoodView>,
    component: (Seq<char>, nat),
    path: Set<Seq<char>>,
) -> Resolution
    decreases unvisited(foods, path), 0nat, 0nat,
{
    let (id, servings) = component;
    if path.contains(id) {
        Resolution::Cycle
    } else {
        match lookup(foods, id) {
            None => Resolution::Calories(0),
            Some(food) => {
                proof {
                    lemma_unvisited_shrinks(foods, path, id);
                }
                resolve_food(foods, food, path.insert(id)).times(servings)
            },
        }
    }
}

/// The calories of a list of components: the sum over the components.
pub open spec fn resolve_components(
    foods: Seq<FoodView>,
    components: Seq<(Seq<char>, nat)>,
    path: Set<Seq<char>>,
) -> Resolution
    decreases unvisited(foods, path), 0nat, components.len() + 1,
{
    if components.len() == 0 {
        Resolution::Calories(0)
    } else {
        resolve_components(foods, components.drop_last(), path).plus(
            resolve_component(foods, components.last(), path),
        )
    }
}

/// The calories of one serving of a food against a list of foods.
pub open spec fn resolve(foods: Seq<FoodView>, food: FoodView) -> Resolution {
    resolve_food(foods, food, set![food.id()])
}

/// The food that a lookup finds has the id that was looked up.
pub proof fn lemma_lookup_id(foods: Seq<FoodView>, id: Seq<char>)
    ensures
        lookup(foods, id) matches Some(food) ==> food.id() == id,
{
}

/// Resolving one more component adds that component's calories.
pub proof fn lemma_resolve_next(
    foods: Seq<FoodView>,
    components: Seq<(Seq<char>, nat)>,
    path: Set<Seq<char>>,
    i: int,
)
    requires
        0 <= i < components.len(),
    ensures
        resolve_components(foods, components.take(i + 1), path) == resolve_components(
            foods,
            components.take(i),
            path,
        ).plus(resolve_component(foods, components[i], path)),
{
    assert(components.take(i + 1).drop_last() =~= components.take(i));
}

/// A cycle among the first components is a cycle of the whole list.
pub proof fn lemma_cycle_in_prefix(
    foods: Seq<FoodView>,
    components: Seq<(Seq<char>, nat)>,
    path: Set<Seq<char>>,
    i: int,
)
    requires
        0 <= i <= components.len(),
        resolve_components(foods, components.take(i), path) is Cycle,
    ensures
        resolve_components(foods, components, path) is Cycle,
    decreases components.len() - i,
{
    if i < components.len() {
        lemma_resolve_next(foods, components, path, i);
        lemma_cycle_in_prefix(foods, components, path, i + 1);
    } else {
        assert(components.take(i) =~= components);
    }
}

/// Resolving with fewer ids on the path gives the same calories: where no cycle was
/// met, no id of the path was met.
pub proof fn lemma_smaller_path(
    foods: Seq<FoodView>,
    components: Seq<(Seq<char>, nat)>,
    path: Set<Seq<char>>,
    smaller: Set<Seq<char>>,
)
    requires
        smaller.subset_of(path),
        !(resolve_components(foods, components, path) is Cycle),
    ensures
        resolve_components(foods, components, smaller) == resolve_components(
            foods,
            components,
            path,
        ),
    decreases unvisited(foods, path), components.len(),
{
    if components.len() > 0 {
        let last = components.last();
        let id = last.0;
        assert(!(resolve_component(foods, last, path) is Cycle));
        lemma_smaller_path(foods, components.drop_last(), path, smaller);
        if let Some(food) = lookup(foods, id) {
            assert(!(resolve_food(foods, food, path.insert(id)) is Cycle));
            if let FoodView::Composite(c) = food {
                lemma_unvisited_shrinks(foods, path, id);
                lemma_smaller_path(foods, c.components, path.insert(id), smaller.insert(id));
            }
            assert(resolve_food(foods, food, smaller.insert(id)) == resolve_food(
                foods,
                food,
                path.insert(id),
            ));
        }
        assert(resolve_component(foods, last, smaller) == resolve_component(foods, last, path));
    }
}

/// Resolving with more ids on the path gives the same calories, where no chain of
/// components comes to one of the ids that are added.
pub proof fn lemma_larger_path(
    foods: Seq<FoodView>,
    components: Seq<(Seq<char>, nat)>,
    path: Set<Seq<char>>,
    extra: Set<Seq<char>>,
)
    requires
        !(resolve_components(foods, components, path) is Cycle),
        forall|ids: Seq<Seq<char>>| #[trigger]
            component_chain(foods, components, ids) ==> !extra.contains(ids.last()),
    ensures
        resolve_components(foods, components, path.union(extra)) == resolve_components(
            foods,
            components,
            path,
        ),
    decreases unvisited(foods, path), components.len(),
{
    if components.len() > 0 {
        let last = components.last();
        let rest = components.drop_last();
        let id = last.0;
        assert(!(resolve_component(foods, last, path) is Cycle));
        assert forall|ids: Seq<Seq<char>>| #[trigger]
            component_chain(foods, rest, ids) implies !extra.contains(ids.last()) by {
            let i = choose|i: int| 0 <= i < rest.len() && (#[trigger] rest[i]).0 == ids[0];
            assert(components[i].0 == ids[0]);
            assert(component_chain(foods, components, ids));
        }
        lemma_larger_path(foods, rest, path, extra);
        assert(!extra.contains(id)) by {
            let ids = seq![id];
            assert(components[components.len() - 1].0 == ids[0]);
            assert(component_chain(foods, components, ids));
            assert(ids.last() == id);
        }
        if let Some(food) = lookup(foods, id) {
            assert(!(resolve_food(foods, food, path.insert(id)) is Cycle));
            if let FoodView::Composite(c) = food {
                lemma_unvisited_shrinks(foods, path, id);
                assert forall|ids: Seq<Seq<char>>| #[trigger]
                    component_chain(foods, c.components, ids) implies !extra.contains(
                    ids.last(),
                ) by {
                    let longer = seq![id] + ids;
                    assert(longer[0] == id);
                    assert(components[components.len() - 1].0 == longer[0]);
                    assert(longer.drop_first() =~= ids);
                    assert(component_chain(foods, components, longer));
                    assert(longer.last() == ids.last());
                }
                lemma_larger_path(foods, c.components, path.insert(id), extra);
                assert(path.insert(id).union(extra) =~= path.union(extra).insert(id));
            }
            assert(resolve_food(foods, food, path.union(extra).insert(id)) == resolve_food(
                foods,
                food,
                path.insert(id),
            ));
        }
        assert(resolve_component(foods, last, path.union(extra)) == resolve_component(
            foods,
            last,
            path,
        ));
    }
}

/// The calories that a component adds when its food is resolved by itself: nothing
/// where no food has its id.
pub open spec fn part_calories(foods: Seq<FoodView>, component: (Seq<char>, nat)) -> Resolution {
    match lookup(foods, component.0) {
        None => Resolution::Calories(0),
        Some(food) => resolve(foods, food).times(component.1),
    }
}

/// The sum, over the components, of the calories that each adds.
pub open spec fn sum_of_parts(
    foods: Seq<FoodView>,
    components: Seq<(Seq<char>, nat)>,
) -> Resolution
    decreases components.len(),
{
    if components.len() == 0 {
        Resolution::Calories(0)
    } else {
        sum_of_parts(foods, components.drop_last()).plus(part_calories(foods, components.last()))
    }
}

proof fn lemma_sum_of_parts(
    foods: Seq<FoodView>,
    components: Seq<(Seq<char>, nat)>,
    root: Seq<char>,
)
    requires
        !(resolve_components(foods, components, set![root]) is Cycle),
    ensures
        resolve_components(foods, components, set![root]) == sum_of_parts(foods, components),
        forall|i: int|
            0 <= i < components.len() ==> (#[trigger] lookup(foods, components[i].0) matches Some(
                food,
            ) ==> !(resolve(foods, food) is Cycle)),
    decreases components.len(),
{
    if components.len() > 0 {
        let rest = components.drop_last();
        let last = components.last();
        let id = last.0;
        let path = set![root];
        assert(!(resolve_component(foods, last, path) is Cycle));
        lemma_sum_of_parts(foods, rest, root);
        lemma_lookup_id(foods, id);
        if let Some(food) = lookup(foods, id) {
            assert(!(resolve_food(foods, food, path.insert(id)) is Cycle));
            if let FoodView::Composite(c) = food {
                assert(set![id].subset_of(path.insert(id)));
                lemma_smaller_path(foods, c.components, path.insert(id), set![id]);
            }
            assert(resolve(foods, food) == resolve_food(foods, food, path.insert(id)));
        }
        assert(resolve_component(foods, last, path) == part_calories(foods, last));
        assert forall|i: int| 0 <= i < components.len() implies (#[trigger] lookup(
            foods,
            components[i].0,
        ) matches Some(food) ==> !(resolve(foods, food) is Cycle)) by {
            if i < rest.len() {
                assert(rest[i] == components[i]);
            }
        }
    }
}

/// A composite that resolves without a cycle has the calories of its components: the
/// sum, over the components whose food is in the list, of that food's calories times
/// the servings. Each such food resolves without a cycle too.
pub proof fn lemma_composite_is_sum_of_parts(foods: Seq<FoodView>, composite: CompositeFoodView)
    requires
        !(resolve(foods, FoodView::Composite(composite)) is Cycle),
    ensures
        resolve(foods, FoodView::Composite(composite)) == sum_of_parts(
            foods,
            composite.components,
        ),
        forall|i: int|
            0 <= i < composite.components.len() ==> (#[trigger] lookup(
                foods,
                composite.components[i].0,
            ) matches Some(food) ==> !(resolve(foods, food) is Cycle)),
{
    lemma_sum_of_parts(foods, composite.components, composite.id);
}

/// Some component of the list has this id.
pub open spec fn names(components: Seq<(Seq<char>, nat)>, id: Seq<char>) -> bool {
    exists|i: int| 0 <= i < components.len() && (#[trigger] components[i]).0 == id
}

/// `ids` follows the components down: the first id is that of one of `components`,
/// and each id before the last is that of a stored composite of which the next id is
/// a component.
pub open spec fn component_chain(
    foods: Seq<FoodView>,
    components: Seq<(Seq<char>, nat)>,
    ids: Seq<Seq<char>>,
) -> bool
    decreases ids.len(),
{
    &&& ids.len() > 0
    &&& names(components, ids[0])
    &&& ids.len() > 1 ==> {
        &&& lookup(foods, ids[0]) matches Some(FoodView::Composite(next))
        &&& component_chain(foods, next.components, ids.drop_first())
    }
}

/// The chain comes back: its last id is on the path, or is an id that the chain
/// passed before.
pub open spec fn comes_back(ids: Seq<Seq<char>>, path: Set<Seq<char>>) -> bool {
    ids.len() > 0 && (path.contains(ids.last()) || ids.drop_last().contains(ids.last()))
}

/// The components of a composite lead round in a circle: some chain of components
/// comes back to the composite's id or to an id of its own.
pub open spec fn has_cycle(foods: Seq<FoodView>, composite: CompositeFoodView) -> bool {
    exists|ids: Seq<Seq<char>>|
        component_chain(foods, composite.components, ids) && comes_back(ids, set![composite.id])
}

proof fn lemma_chain_comes_back(
    foods: Seq<FoodView>,
    components: Seq<(Seq<char>, nat)>,
    path: Set<Seq<char>>,
    ids: Seq<Seq<char>>,
)
    requires
        component_chain(foods, components, ids),
        comes_back(ids, path),
    ensures
        resolve_components(foods, components, path) is Cycle,
    decreases ids.len(),
{
    let i = choose|i: int| 0 <= i < components.len() && (#[trigger] components[i]).0 == ids[0];
    if !path.contains(ids[0]) {
        let rest = ids.drop_first();
        if ids.len() == 1 {
            assert(ids.drop_last() =~= Seq::<Seq<char>>::empty());
            assert(false);
        }
        let next = lookup(foods, ids[0])->Some_0->Composite_0;
        assert(rest.last() == ids.last());
        if !path.contains(ids.last()) {
            let j = choose|j: int| 0 <= j < ids.drop_last().len() && ids.drop_last()[j] == ids.last();
            if j > 0 {
                assert(rest.drop_last()[j - 1] == ids.last());
            }
        }
        lemma_chain_comes_back(foods, next.components, path.insert(ids[0]), rest);
    }
    assert(resolve_component(foods, components[i], path) is Cycle);
    lemma_resolve_next(foods, components, path, i);
    lemma_cycle_in_prefix(foods, components, path, i + 1);
}

proof fn lemma_cycle_in_part(
    foods: Seq<FoodView>,
    components: Seq<(Seq<char>, nat)>,
    path: Set<Seq<char>>,
) -> (i: int)
    requires
        resolve_components(foods, components, path) is Cycle,
    ensures
        0 <= i < components.len(),
        resolve_component(foods, components[i], path) is Cycle,
    decreases components.len(),
{
    if resolve_component(foods, components.last(), path) is Cycle {
        components.len() - 1
    } else {
        lemma_cycle_in_part(foods, components.drop_last(), path)
    }
}

proof fn lemma_cycle_has_chain(
    foods: Seq<FoodView>,
    components: Seq<(Seq<char>, nat)>,
    path: Set<Seq<char>>,
) -> (ids: Seq<Seq<char>>)
    requires
        resolve_components(foods, components, path) is Cycle,
    ensures
        component_chain(foods, components, ids),
        comes_back(ids, path),
    decreases unvisited(foods, path),
{
    let i = lemma_cycle_in_part(foods, components, path);
    let id = components[i].0;
    if path.contains(id) {
        let ids = seq![id];
        assert(ids.last() == id);
        ids
    } else {
        let food = lookup(foods, id)->Some_0;
        assert(resolve_food(foods, food, path.insert(id)) is Cycle);
        let next = food->Composite_0;
        lemma_unvisited_shrinks(foods, path, id);
        let rest = lemma_cycle_has_chain(foods, next.components, path.insert(id));
        let ids = seq![id] + rest;
        assert(ids[0] == id);
        assert(ids.drop_first() =~= rest);
        assert(ids.last() == rest.last());
        if !path.contains(rest.last()) {
            if rest.last() == id {
                assert(ids.drop_last()[0] == id);
            } else {
                let j = choose|j: int| 0 <= j < rest.drop_last().len() && rest.drop_last()[j] == rest.last();
                assert(ids.drop_last()[j + 1] == rest.last());
            }
        }
        ids
    }
}

/// A composite whose components lead back to its own id resolves to a cycle.
pub proof fn lemma_cycle_is_detected(
    foods: Seq<FoodView>,
    composite: CompositeFoodView,
    ids: Seq<Seq<char>>,
)
    requires
        component_chain(foods, composite.components, ids),
        ids.last() == composite.id,
    ensures
        resolve(foods, FoodView::Composite(composite)) is Cycle,
        outcome(resolve(foods, FoodView::Composite(composite))) == Err::<Amount, ResolveError>(
            ResolveError::CycleDetected,
        ),
{
    lemma_chain_comes_back(foods, composite.components, set![composite.id], ids);
}

/// A composite resolves to a cycle exactly where its components lead round in a
/// circle: no cycle is missed, and none is reported that is not there.
pub proof fn lemma_cycle_iff_circle(foods: Seq<FoodView>, composite: CompositeFoodView)
    ensures
        resolve(foods, FoodView::Composite(composite)) is Cycle <==> has_cycle(foods, composite),
{
    let path = set![composite.id];
    if resolve(foods, FoodView::Composite(composite)) is Cycle {
        let ids = lemma_cycle_has_chain(foods, composite.components, path);
        assert(component_chain(foods, composite.components, ids) && comes_back(ids, path));
    }
    if has_cycle(foods, composite) {
        let ids = choose|ids: Seq<Seq<char>>|
            component_chain(foods, composite.components, ids) && comes_back(ids, path);
        lemma_chain_comes_back(foods, composite.components, path, ids);
    }
}

/// A composite whose components do not lead round in a circle has the calories of
/// its components: the sum, over the components whose food is in the list, of that
/// food's calories times the servings.
pub proof fn lemma_acyclic_is_sum_of_parts(foods: Seq<FoodView>, composite: CompositeFoodView)
    requires
        !has_cycle(foods, composite),
    ensures
        resolve(foods, FoodView::Composite(composite)) == sum_of_parts(
            foods,
            composite.components,
        ),
{
    lemma_cycle_iff_circle(foods, composite);
    lemma_composite_is_sum_of_parts(foods, composite);
}

#[derive(Debug, Clone, Copy, PartialEq, Eq)]
pub enum ResolveError {
    /// A component's id is that of a food which is being resolved.
    CycleDetected,
    /// An amount on the way is more than an `Amount` holds.
    Overflow,
}

/// What the resolver answers for a resolution.
pub open spec fn outcome(r: Resolution) -> Result<Amount, ResolveError> {
    match r {
        Resolution::Cycle => Err(ResolveError::CycleDetected),
        Resolution::Overflow => Err(ResolveError::Overflow),
        Resolution::Calories(n) => match held(n) {
            Some(amount) => Ok(amount),
            None => Err(ResolveError::Overflow),
        },
    }
}

} // verus!
