use crate::amount::{held, product, Amount};
use crate::database::{
    distinct_ids, food_views, has_id, index_of, lemma_index_of, lookup, Database,
};
use crate::food::{component_views, CompositeFoodView, Food, FoodView};
use crate::resolver::{
    component_chain, lemma_cycle_in_prefix, lemma_larger_path, lemma_resolve_next,
    lemma_smaller_path, outcome, resolve, resolve_component, resolve_components, resolve_food,
    Resolution, ResolveError,
};
use crate::text::same_text;
use vstd::prelude::*;

verus! {

/// How far the resolver is with a food of the store.
#[derive(Clone, Copy)]
enum Mark {
    /// Not met.
    New,
    /// Being resolved: its id is on the path.
    Open,
    /// Resolved: a composite with these calories, which are `None` where an amount on
    /// the way was more than an `Amount` holds.
    Done { total: Option<Amount> },
}

/// A composite that is being resolved: its components up to `next` are summed up in
/// `total`, which is `None` once an amount was more than an `Amount` holds. `at` is
/// its place in the store; the food that is asked for has none.
struct Frame<'a> {
    id: &'a String,
    components: &'a Vec<(String, Amount)>,
    next: usize,
    total: Option<Amount>,
    at: Option<usize>,
}

struct FrameView {
    id: Seq<char>,
    components: Seq<(Seq<char>, nat)>,
    next: int,
    total: Option<Amount>,
    at: Option<int>,
}

impl<'a> View for Frame<'a> {
    type V = FrameView;

    closed spec fn view(&self) -> FrameView {
        FrameView {
            id: self.id@,
            components: component_views(self.components@),
            next: self.next as int,
            total: self.total,
            at: match self.at {
                Some(i) => Some(i as int),
                None => None,
            },
        }
    }
}

spec fn frame_views(frames: Seq<Frame>) -> Seq<FrameView> {
    Seq::new(frames.len(), |i: int| frames[i]@)
}

/// The ids of the frames: the path down to the last of them.
spec fn trail(frames: Seq<FrameView>) -> Set<Seq<char>> {
    Set::new(|id: Seq<char>| exists|j: int| 0 <= j < frames.len() && #[trigger] frames[j].id == id)
}

proof fn lemma_trail_push(frames: Seq<FrameView>, frame: FrameView)
    ensures
        trail(frames.push(frame)) == trail(frames).insert(frame.id),
{
    let longer = frames.push(frame);
    assert forall|id: Seq<char>| trail(longer).contains(id) implies trail(frames).insert(
        frame.id,
    ).contains(id) by {
        let j = choose|j: int| 0 <= j < longer.len() && #[trigger] longer[j].id == id;
        if j < frames.len() {
            assert(frames[j].id == id);
        }
    }
    assert forall|id: Seq<char>| trail(frames).insert(frame.id).contains(id) implies trail(
        longer,
    ).contains(id) by {
        if id == frame.id {
            assert(longer[frames.len() as int].id == id);
        } else {
            let j = choose|j: int| 0 <= j < frames.len() && #[trigger] frames[j].id == id;
            assert(longer[j].id == id);
        }
    }
    assert(trail(longer) =~= trail(frames).insert(frame.id));
}

/// A component with this id needs no resolving any more: it is not the id that is
/// asked for, and its food is missing, basic and untouched, or resolved.
spec fn settled(foods: Seq<FoodView>, marks: Seq<Mark>, root: Seq<char>, id: Seq<char>) -> bool {
    &&& id != root
    &&& match lookup(foods, id) {
        None => true,
        Some(FoodView::Basic(_)) => marks[index_of(foods, id)] is New,
        Some(FoodView::Composite(_)) => marks[index_of(foods, id)] is Done,
    }
}

/// The first `upto` components are settled.
spec fn settled_upto(
    foods: Seq<FoodView>,
    marks: Seq<Mark>,
    root: Seq<char>,
    components: Seq<(Seq<char>, nat)>,
    upto: int,
) -> bool {
    forall|j: int| 0 <= j < upto ==> settled(foods, marks, root, (#[trigger] components[j]).0)
}

/// What the mark of a resolved food says is right: the food is a composite with
/// these calories, and its components are settled.
spec fn done_right(foods: Seq<FoodView>, marks: Seq<Mark>, root: Seq<char>, i: int) -> bool {
    &&& foods[i] matches FoodView::Composite(c)
    &&& settled_upto(foods, marks, root, c.components, c.components.len() as int)
    &&& !(resolve(foods, foods[i]) is Cycle)
    &&& marks[i]->total == resolve(foods, foods[i]).amount()
}

/// There is a mark for each food, and the marks of the resolved foods are right.
spec fn marks_right(foods: Seq<FoodView>, marks: Seq<Mark>, root: Seq<char>) -> bool {
    &&& marks.len() == foods.len()
    &&& forall|i: int| 0 <= i < marks.len() && #[trigger] marks[i] is Done ==> done_right(
        foods,
        marks,
        root,
        i,
    )
}

/// The path holds the id that is asked for and the ids of the foods that are being
/// resolved, and no others.
spec fn path_right(
    foods: Seq<FoodView>,
    marks: Seq<Mark>,
    root: Seq<char>,
    path: Set<Seq<char>>,
) -> bool {
    forall|id: Seq<char>| #[trigger]
        path.contains(id) <==> (id == root || (has_id(foods, id) && marks[index_of(
            foods,
            id,
        )] is Open))
}

/// The frame's total is the sum of its components before `next`.
spec fn tallied(foods: Seq<FoodView>, frame: FrameView, path: Set<Seq<char>>) -> bool {
    &&& 0 <= frame.next <= frame.components.len()
    &&& !(resolve_components(foods, frame.components.take(frame.next), path) is Cycle)
    &&& frame.total == resolve_components(foods, frame.components.take(frame.next), path).amount()
}

/// The frames above `frame` lead to it from the food that is asked for: each is
/// waiting for the component that the next one resolves.
spec fn chain(
    foods: Seq<FoodView>,
    marks: Seq<Mark>,
    root: CompositeFoodView,
    above: Seq<FrameView>,
    frame: FrameView,
) -> bool
    decreases above.len(),
{
    &&& tallied(foods, frame, trail(above).insert(frame.id))
    &&& settled_upto(foods, marks, root.id, frame.components, frame.next)
    &&& trail(above).insert(frame.id).contains(root.id)
    &&& if above.len() == 0 {
        frame.id == root.id && frame.components == root.components && frame.at is None
    } else {
        let parent = above.last();
        &&& parent.next < parent.components.len()
        &&& parent.components[parent.next].0 == frame.id
        &&& !trail(above).contains(frame.id)
        &&& frame.at matches Some(i)
        &&& 0 <= i < foods.len()
        &&& marks[i] is Open
        &&& foods[i] matches FoodView::Composite(c)
        &&& c.id == frame.id
        &&& c.components == frame.components
        &&& chain(foods, marks, root, above.drop_last(), parent)
    }
}

/// How many foods are not met.
spec fn fresh(marks: Seq<Mark>) -> nat
    decreases marks.len(),
{
    if marks.len() == 0 {
        0
    } else {
        fresh(marks.drop_last()) + if marks.last() is New {
            1nat
        } else {
            0nat
        }
    }
}

proof fn lemma_fresh_update(marks: Seq<Mark>, i: int, mark: Mark)
    requires
        0 <= i < marks.len(),
        !(mark is New),
    ensures
        fresh(marks.update(i, mark)) == fresh(marks) - if marks[i] is New {
            1int
        } else {
            0int
        },
    decreases marks.len(),
{
    let after = marks.update(i, mark);
    if i == marks.len() - 1 {
        assert(after.drop_last() =~= marks.drop_last());
    } else {
        assert(after.drop_last() =~= marks.drop_last().update(i, mark));
        lemma_fresh_update(marks.drop_last(), i, mark);
    }
}

/// How many components the frames have left, the one that each waits for among them.
spec fn left(frames: Seq<FrameView>) -> int
    decreases frames.len(),
{
    if frames.len() == 0 {
        0
    } else {
        left(frames.drop_last()) + frames.last().components.len() - frames.last().next
    }
}

proof fn lemma_left(
    foods: Seq<FoodView>,
    marks: Seq<Mark>,
    root: CompositeFoodView,
    above: Seq<FrameView>,
    frame: FrameView,
)
    requires
        chain(foods, marks, root, above, frame),
    ensures
        left(above) >= 0,
    decreases above.len(),
{
    if above.len() > 0 {
        lemma_left(foods, marks, root, above.drop_last(), above.last());
    }
}

/// A cycle below a frame is a cycle of the food that is asked for.
proof fn lemma_cycle_reaches_root(
    foods: Seq<FoodView>,
    marks: Seq<Mark>,
    root: CompositeFoodView,
    above: Seq<FrameView>,
    frame: FrameView,
)
    requires
        distinct_ids(foods),
        chain(foods, marks, root, above, frame),
        resolve_components(foods, frame.components, trail(above).insert(frame.id)) is Cycle,
    ensures
        resolve(foods, FoodView::Composite(root)) is Cycle,
    decreases above.len(),
{
    if above.len() == 0 {
        assert(trail(above).insert(frame.id) =~= set![root.id]);
    } else {
        let parent = above.last();
        let rest = above.drop_last();
        assert(rest.push(parent) =~= above);
        lemma_trail_push(rest, parent);
        let path = trail(above);
        assert(chain(foods, marks, root, rest, parent));
        assert(tallied(foods, parent, path));
        lemma_index_of(foods, frame.at->Some_0);
        lemma_resolve_next(foods, parent.components, path, parent.next);
        lemma_cycle_in_prefix(foods, parent.components, path, parent.next + 1);
        lemma_cycle_reaches_root(foods, marks, root, rest, parent);
    }
}

/// A changed mark leaves the frames as they are, where it is not the mark of a
/// resolved food nor that of a frame.
proof fn lemma_chain_keeps(
    foods: Seq<FoodView>,
    marks: Seq<Mark>,
    changed: int,
    mark: Mark,
    root: CompositeFoodView,
    above: Seq<FrameView>,
    frame: FrameView,
)
    requires
        distinct_ids(foods),
        marks.len() == foods.len(),
        chain(foods, marks, root, above, frame),
        0 <= changed < marks.len(),
        foods[changed] is Composite,
        !(marks[changed] is Done),
        marks[changed] is Open ==> !trail(above).insert(frame.id).contains(foods[changed].id()),
    ensures
        chain(foods, marks.update(changed, mark), root, above, frame),
    decreases above.len(),
{
    let after = marks.update(changed, mark);
    lemma_settled_keeps(foods, marks, changed, mark, root.id, frame.components, frame.next);
    if above.len() > 0 {
        let parent = above.last();
        let rest = above.drop_last();
        assert(rest.push(parent) =~= above);
        lemma_trail_push(rest, parent);
        lemma_chain_keeps(foods, marks, changed, mark, root, rest, parent);
    }
}

proof fn lemma_settled_keeps(
    foods: Seq<FoodView>,
    marks: Seq<Mark>,
    changed: int,
    mark: Mark,
    root: Seq<char>,
    components: Seq<(Seq<char>, nat)>,
    upto: int,
)
    requires
        distinct_ids(foods),
        marks.len() == foods.len(),
        0 <= changed < marks.len(),
        foods[changed] is Composite,
        !(marks[changed] is Done),
        settled_upto(foods, marks, root, components, upto),
    ensures
        settled_upto(foods, marks.update(changed, mark), root, components, upto),
{
    assert forall|j: int| 0 <= j < upto implies settled(
        foods,
        marks.update(changed, mark),
        root,
        (#[trigger] components[j]).0,
    ) by {
        assert(settled(foods, marks, root, components[j].0));
    }
}

/// A changed mark leaves the marks of the resolved foods right, where it is not the
/// mark of a resolved food, or where the new mark is right.
proof fn lemma_marks_keep(
    foods: Seq<FoodView>,
    marks: Seq<Mark>,
    changed: int,
    mark: Mark,
    root: Seq<char>,
)
    requires
        distinct_ids(foods),
        marks_right(foods, marks, root),
        0 <= changed < marks.len(),
        foods[changed] is Composite,
        !(marks[changed] is Done),
        mark is Done ==> done_right(foods, marks.update(changed, mark), root, changed),
    ensures
        marks_right(foods, marks.update(changed, mark), root),
{
    let after = marks.update(changed, mark);
    assert forall|i: int| 0 <= i < after.len() && #[trigger] after[i] is Done implies done_right(
        foods,
        after,
        root,
        i,
    ) by {
        if i != changed {
            assert(marks[i] is Done);
            assert(done_right(foods, marks, root, i));
            let c = foods[i]->Composite_0;
            lemma_settled_keeps(
                foods,
                marks,
                changed,
                mark,
                root,
                c.components,
                c.components.len() as int,
            );
        }
    }
}

/// No chain of components that starts among settled components comes to an id on
/// the path.
proof fn lemma_settled_stay_off_path(
    foods: Seq<FoodView>,
    marks: Seq<Mark>,
    root: Seq<char>,
    path: Set<Seq<char>>,
    components: Seq<(Seq<char>, nat)>,
    ids: Seq<Seq<char>>,
)
    requires
        marks_right(foods, marks, root),
        path_right(foods, marks, root, path),
        settled_upto(foods, marks, root, components, components.len() as int),
        component_chain(foods, components, ids),
    ensures
        !path.contains(ids.last()),
    decreases ids.len(),
{
    let i = choose|i: int| 0 <= i < components.len() && (#[trigger] components[i]).0 == ids[0];
    assert(settled(foods, marks, root, components[i].0));
    if ids.len() > 1 {
        let next = lookup(foods, ids[0])->Some_0->Composite_0;
        let at = index_of(foods, ids[0]);
        assert(marks[at] is Done);
        assert(done_right(foods, marks, root, at));
        assert(ids.drop_first().last() == ids.last());
        lemma_settled_stay_off_path(foods, marks, root, path, next.components, ids.drop_first());
    }
}

/// A resolved food has its calories on every path that the resolver is on.
proof fn lemma_done_value(
    foods: Seq<FoodView>,
    marks: Seq<Mark>,
    root: Seq<char>,
    path: Set<Seq<char>>,
    i: int,
)
    requires
        marks_right(foods, marks, root),
        path_right(foods, marks, root, path),
        0 <= i < marks.len(),
        marks[i] is Done,
    ensures
        resolve_food(foods, foods[i], path.insert(foods[i].id())) == resolve(foods, foods[i]),
{
    assert(done_right(foods, marks, root, i));
    let c = foods[i]->Composite_0;
    assert forall|ids: Seq<Seq<char>>| #[trigger]
        component_chain(foods, c.components, ids) implies !path.contains(ids.last()) by {
        lemma_settled_stay_off_path(foods, marks, root, path, c.components, ids);
    }
    lemma_larger_path(foods, c.components, set![c.id], path);
    assert(set![c.id].union(path) =~= path.insert(c.id));
}

/// A total with so many servings of an amount added; `None` stands for what is
/// more than an `Amount` holds.
pub open spec fn added_scaled(
    total: Option<Amount>,
    amount: Option<Amount>,
    servings: Amount,
) -> Option<Amount> {
    match (total, amount) {
        (Some(t), Some(a)) => match held(product(a@, servings@)) {
            Some(p) => held(t@ + p@),
            None => None,
        },
        _ => None,
    }
}

/// Adds so many servings of an amount to a total.
pub fn add_scaled(total: Option<Amount>, amount: Option<Amount>, servings: Amount) -> (sum: Option<
    Amount,
>)
    ensures
        sum == added_scaled(total, amount, servings),
{
    match (total, amount) {
        (Some(t), Some(a)) => match a.times(servings) {
            Some(p) => t.plus(p),
            None => None,
        },
        _ => None,
    }
}

/// Adding up amounts follows adding up resolutions, where there is no cycle.
pub proof fn lemma_added_scaled(sum: Resolution, part: Resolution, servings: Amount)
    requires
        !(sum is Cycle),
        !(part is Cycle),
    ensures
        !(sum.plus(part.times(servings@)) is Cycle),
        sum.plus(part.times(servings@)).amount() == added_scaled(
            sum.amount(),
            part.amount(),
            servings,
        ),
{
}

/// A part of no calories leaves a sum as it is.
pub proof fn lemma_added_nothing(sum: Resolution)
    requires
        !(sum is Cycle),
    ensures
        !(sum.plus(Resolution::Calories(0)) is Cycle),
        sum.plus(Resolution::Calories(0)).amount() == sum.amount(),
{
}

/// A mark for each food of the store, each `New`.
fn new_marks(count: usize) -> (marks: Vec<Mark>)
    ensures
        marks@.len() == count,
        forall|i: int| 0 <= i < count ==> #[trigger] marks@[i] is New,
{
    let mut marks: Vec<Mark> = Vec::new();
    let mut i: usize = 0;
    while i < count
        invariant
            i <= count,
            marks@.len() == i,
            forall|k: int| 0 <= k < i ==> #[trigger] marks@[k] is New,
        decreases count - i,
    {
        marks.push(Mark::New);
        i += 1;
    }
    marks
}

/// The calories of one serving of a food, its components looked up in the store.
///
/// The components are gone through depth first, without recursion, and each stored
/// composite is resolved once: the work grows with the number of components in the
/// store, not with the number of ways that lead to them.
pub fn compute_calories(food: &Food, db: &Database) -> (result: Result<Amount, ResolveError>)
    ensures
        result == outcome(resolve(db@, food@)),
        *food matches Food::Basic(b) ==> result == Ok::<Amount, ResolveError>(b.calories),
{
    let root = match food {
        Food::Basic(b) => {
            return Ok(b.calories);
        },
        Food::Composite(root) => root,
    };
    let foods = db.foods();
    let mut marks = new_marks(foods.len());
    let mut stack: Vec<Frame> = Vec::new();
    let mut current = Frame {
        id: &root.id,
        components: &root.components,
        next: 0,
        total: Some(Amount { thousandths: 0 }),
        at: None,
    };
    proof {
        assert(current@.components.take(0) =~= Seq::empty());
        assert(trail(frame_views(stack@)).insert(current@.id) =~= set![root@.id]);
    }
    loop
        invariant
            food@ == FoodView::Composite(root@),
            food_views(foods@) == db@,
            distinct_ids(db@),
            marks_right(db@, marks@, root@.id),
            path_right(db@, marks@, root@.id, trail(frame_views(stack@)).insert(current@.id)),
            chain(db@, marks@, root@, frame_views(stack@), current@),
        decreases fresh(marks@),
            left(frame_views(stack@)) + current@.components.len() - current@.next,
    {
        let ghost above = frame_views(stack@);
        let ghost path = trail(above).insert(current@.id);
        let ghost before = current@;
        let ghost marked = marks@;
        proof {
            lemma_left(db@, marked, root@, above, before);
        }
        if current.next < current.components.len() {
            let component = &current.components[current.next];
            let ghost entry = before.components[before.next];
            let ghost counted = resolve_components(
                db@,
                before.components.take(before.next),
                path,
            );
            proof {
                assert(entry == (component.0@, component.1@));
                lemma_resolve_next(db@, before.components, path, before.next);
            }
            if same_text(component.0.as_str(), root.id.as_str()) {
                proof {
                    lemma_cycle_in_prefix(db@, before.components, path, before.next + 1);
                    lemma_cycle_reaches_root(db@, marked, root@, above, before);
                }
                return Err(ResolveError::CycleDetected);
            }
            match db.position(component.0.as_str()) {
                None => {
                    current.next = current.next + 1;
                    proof {
                        assert(resolve_component(db@, entry, path) == Resolution::Calories(0));
                        lemma_added_nothing(counted);
                        assert(settled(db@, marked, root@.id, entry.0));
                    }
                },
                Some(i) => {
                    assert(lookup(db@, entry.0) == Some(db@[i as int]));
                    assert(db@[i as int] == foods@[i as int]@);
                    match marks[i] {
                        Mark::Open => {
                            proof {
                                lemma_cycle_in_prefix(db@, before.components, path, before.next + 1);
                                lemma_cycle_reaches_root(db@, marked, root@, above, before);
                            }
                            return Err(ResolveError::CycleDetected);
                        },
                        Mark::Done { total } => {
                            proof {
                                assert(done_right(db@, marked, root@.id, i as int));
                                lemma_done_value(db@, marked, root@.id, path, i as int);
                                assert(resolve_component(db@, entry, path) == resolve(
                                    db@,
                                    db@[i as int],
                                ).times(entry.1));
                                lemma_added_scaled(
                                    counted,
                                    resolve(db@, db@[i as int]),
                                    component.1,
                                );
                            }
                            current.total = add_scaled(current.total, total, component.1);
                            current.next = current.next + 1;
                            assert(settled(db@, marked, root@.id, entry.0));
                        },
                        Mark::New => {
                            match &foods[i] {
                                Food::Basic(b) => {
                                    proof {
                                        assert(resolve_component(db@, entry, path)
                                            == Resolution::Calories(b.calories@).times(entry.1));
                                        lemma_added_scaled(
                                            counted,
                                            Resolution::Calories(b.calories@),
                                            component.1,
                                        );
                                    }
                                    current.total = add_scaled(
                                        current.total,
                                        Some(b.calories),
                                        component.1,
                                    );
                                    current.next = current.next + 1;
                                    assert(settled(db@, marked, root@.id, entry.0));
                                },
                                Food::Composite(c) => {
                                    proof {
                                        lemma_trail_push(above, before);
                                        assert(above.push(before).drop_last() =~= above);
                                        assert(component_views(c.components@).take(0)
                                            =~= Seq::empty());
                                        lemma_chain_keeps(
                                            db@,
                                            marked,
                                            i as int,
                                            Mark::Open,
                                            root@,
                                            above,
                                            before,
                                        );
                                        lemma_marks_keep(
                                            db@,
                                            marked,
                                            i as int,
                                            Mark::Open,
                                            root@.id,
                                        );
                                        lemma_fresh_update(marked, i as int, Mark::Open);
                                    }
                                    marks.set(i, Mark::Open);
                                    stack.push(current);
                                    current = Frame {
                                        id: &c.id,
                                        components: &c.components,
                                        next: 0,
                                        total: Some(Amount { thousandths: 0 }),
                                        at: Some(i),
                                    };
                                    proof {
                                        assert(frame_views(stack@) =~= above.push(before));
                                        let wider = path.insert(entry.0);
                                        assert forall|id: Seq<char>| #[trigger]
                                            wider.contains(id) <==> (id == root@.id || (has_id(
                                                db@,
                                                id,
                                            ) && marks@[index_of(db@, id)] is Open)) by {
                                            if has_id(db@, id) {
                                                lemma_index_of(db@, index_of(db@, id));
                                            }
                                        }
                                    }
                                },
                            }
                        },
                    }
                },
            }
        } else {
            proof {
                assert(before.components.take(before.next) =~= before.components);
            }
            match stack.pop() {
                None => {
                    proof {
                        assert(path =~= set![root@.id]);
                    }
                    return match current.total {
                        Some(v) => Ok(v),
                        None => Err(ResolveError::Overflow),
                    };
                },
                Some(parent) => {
                    let ghost rest = frame_views(stack@);
                    let ghost p = parent@;
                    let at = current.at.unwrap();
                    let done = Mark::Done { total: current.total };
                    proof {
                        assert(rest =~= above.drop_last());
                        assert(above.last() == p);
                        assert(rest.push(p) =~= above);
                        lemma_trail_push(rest, p);
                        assert(chain(db@, marked, root@, rest, p));
                        assert(tallied(db@, p, trail(above)));
                        lemma_resolve_next(db@, p.components, trail(above), p.next);
                        lemma_index_of(db@, at as int);
                        let c = db@[at as int]->Composite_0;
                        assert(set![c.id].subset_of(path));
                        lemma_smaller_path(db@, c.components, path, set![c.id]);
                        lemma_settled_keeps(
                            db@,
                            marked,
                            at as int,
                            done,
                            root@.id,
                            c.components,
                            c.components.len() as int,
                        );
                        lemma_marks_keep(db@, marked, at as int, done, root@.id);
                        lemma_chain_keeps(db@, marked, at as int, done, root@, rest, p);
                        lemma_fresh_update(marked, at as int, done);
                    }
                    marks.set(at, done);
                    assert(parent.next < parent.components.len());
                    let servings: Amount = parent.components[parent.next].1;
                    proof {
                        lemma_added_scaled(
                            resolve_components(db@, p.components.take(p.next), trail(above)),
                            resolve_components(db@, before.components, path),
                            servings,
                        );
                    }
                    let total = add_scaled(parent.total, current.total, servings);
                    current = Frame {
                        id: parent.id,
                        components: parent.components,
                        next: parent.next + 1,
                        total,
                        at: parent.at,
                    };
                    proof {
                        assert(settled(db@, marks@, root@.id, p.components[p.next].0));
                        assert(trail(above).contains(root@.id));
                        assert(before.id != root@.id);
                        assert forall|id: Seq<char>| #[trigger]
                            trail(above).contains(id) <==> (id == root@.id || (has_id(db@, id)
                                && marks@[index_of(db@, id)] is Open)) by {
                            assert(path.contains(id) <==> (id == root@.id || (has_id(db@, id)
                                && marked[index_of(db@, id)] is Open)));
                            if has_id(db@, id) {
                                lemma_index_of(db@, index_of(db@, id));
                            }
                        }
                        assert(left(above) == left(rest) + p.components.len() - p.next);
                        lemma_left(db@, marked, root@, rest, p);
                    }
                },
            }
        }
    }
}

} // verus!
