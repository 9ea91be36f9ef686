use diet_manager::amount::Amount;
use diet_manager::database::Database;
use diet_manager::food::{compute_calories, BasicFood, CompositeFood, Food};
use diet_manager::resolver::ResolveError;

fn basic(id: &str, calories: u32) -> Food {
    basic_of(id, Amount::whole(calories))
}

fn basic_of(id: &str, calories: Amount) -> Food {
    Food::Basic(BasicFood { id: id.to_string(), keywords: vec![id.to_string()], calories })
}

fn composite(id: &str, components: Vec<(&str, u32)>) -> Food {
    composite_of(id, components.into_iter().map(|(c, s)| (c, Amount::whole(s))).collect())
}

fn composite_of(id: &str, components: Vec<(&str, Amount)>) -> Food {
    Food::Composite(CompositeFood {
        id: id.to_string(),
        keywords: vec![id.to_string()],
        components: components.into_iter().map(|(c, s)| (c.to_string(), s)).collect(),
    })
}

fn store(foods: Vec<Food>) -> Database {
    let mut db = Database::new("foods.json");
    for food in foods {
        db.add_food(food);
    }
    db
}

fn thousandths(n: u64) -> Amount {
    Amount::from_thousandths(n)
}

#[test]
fn basic_food_resolves_to_its_calories() {
    let db = store(vec![basic("egg", 70)]);
    assert_eq!(compute_calories(&basic("egg", 70), &db), Ok(Amount::whole(70)));
    assert_eq!(compute_calories(&basic("rice", 0), &db), Ok(Amount::whole(0)));
    assert_eq!(
        compute_calories(&basic_of("half", thousandths(70_500)), &db),
        Ok(thousandths(70_500))
    );
    assert_eq!(
        compute_calories(&basic_of("big", thousandths(u64::MAX)), &Database::new("x")),
        Ok(thousandths(u64::MAX))
    );
}

#[test]
fn omelet_of_two_eggs_has_140_calories() {
    let omelet = composite("omelet", vec![("egg", 2)]);
    let db = store(vec![basic("egg", 70), omelet.clone()]);
    assert_eq!(compute_calories(&omelet, &db), Ok(Amount::whole(140)));
}

#[test]
fn composite_is_the_sum_of_its_components() {
    let sandwich = composite("sandwich", vec![("bread", 2), ("cheese", 1), ("omelet", 1)]);
    let db = store(vec![
        basic("egg", 70),
        basic("bread", 80),
        basic("cheese", 110),
        composite("omelet", vec![("egg", 2)]),
        sandwich.clone(),
    ]);
    assert_eq!(compute_calories(&sandwich, &db), Ok(Amount::whole(2 * 80 + 110 + 140)));
    let lunch = composite("lunch", vec![("sandwich", 2), ("egg", 1)]);
    assert_eq!(compute_calories(&lunch, &db), Ok(Amount::whole(2 * 410 + 70)));
}

#[test]
fn servings_may_be_fractions() {
    let db = store(vec![
        basic("egg", 70),
        composite("omelet", vec![("egg", 2)]),
        composite_of("plate", vec![("omelet", thousandths(1_500))]),
    ]);
    assert_eq!(
        compute_calories(&composite_of("plate", vec![("omelet", thousandths(1_500))]), &db),
        Ok(Amount::whole(210))
    );
    assert_eq!(
        compute_calories(&composite_of("table", vec![("plate", thousandths(500))]), &db),
        Ok(Amount::whole(105))
    );
    assert_eq!(
        compute_calories(
            &composite_of(
                "snack",
                vec![("egg", thousandths(250)), ("omelet", thousandths(100))]
            ),
            &db
        ),
        Ok(thousandths(17_500 + 14_000))
    );
}

#[test]
fn what_is_beyond_the_third_decimal_is_cut_off() {
    let db = store(vec![basic_of("crumb", thousandths(1)), basic_of("bit", thousandths(1_999))]);
    assert_eq!(
        compute_calories(&composite_of("c", vec![("crumb", thousandths(999))]), &db),
        Ok(thousandths(0))
    );
    assert_eq!(
        compute_calories(&composite_of("b", vec![("bit", thousandths(1))]), &db),
        Ok(thousandths(1))
    );
    assert_eq!(
        compute_calories(
            &composite_of("two", vec![("crumb", thousandths(999)), ("crumb", thousandths(999))]),
            &db
        ),
        Ok(thousandths(0))
    );
}

#[test]
fn shared_component_is_no_cycle() {
    let both = composite("both", vec![("omelet", 1), ("scramble", 1)]);
    let db = store(vec![
        basic("egg", 70),
        composite("omelet", vec![("egg", 2)]),
        composite("scramble", vec![("egg", 3)]),
    ]);
    assert_eq!(compute_calories(&both, &db), Ok(Amount::whole(350)));
    let twice = composite("twice", vec![("omelet", 1), ("omelet", 2)]);
    assert_eq!(compute_calories(&twice, &db), Ok(Amount::whole(420)));
}

#[test]
fn missing_component_counts_as_nothing() {
    let plate = composite("plate", vec![("egg", 1), ("ghost", 5)]);
    let db = store(vec![basic("egg", 70)]);
    assert_eq!(compute_calories(&plate, &db), Ok(Amount::whole(70)));
    assert_eq!(compute_calories(&composite("empty", vec![]), &db), Ok(Amount::whole(0)));
    assert_eq!(compute_calories(&composite("none", vec![("ghost", 1)]), &db), Ok(Amount::whole(0)));
}

#[test]
fn composite_that_names_itself_is_a_cycle() {
    let selfish = composite("a", vec![("a", 1)]);
    let db = store(vec![selfish.clone()]);
    assert_eq!(compute_calories(&selfish, &db), Err(ResolveError::CycleDetected));
    assert_eq!(compute_calories(&selfish, &Database::new("x")), Err(ResolveError::CycleDetected));
}

#[test]
fn composite_that_contains_itself_is_a_cycle() {
    let a = composite("a", vec![("b", 1)]);
    let db = store(vec![a.clone(), composite("b", vec![("c", 2)]), composite("c", vec![("a", 2)])]);
    assert_eq!(compute_calories(&a, &db), Err(ResolveError::CycleDetected));
}

#[test]
fn cycle_below_a_component_is_a_cycle() {
    let top = composite("top", vec![("egg", 1), ("x", 1)]);
    let db = store(vec![
        basic("egg", 70),
        composite("x", vec![("y", 1)]),
        composite("y", vec![("x", 1)]),
    ]);
    assert_eq!(compute_calories(&top, &db), Err(ResolveError::CycleDetected));
}

#[test]
fn cycle_is_found_even_with_no_servings() {
    let a = composite("a", vec![("a", 0)]);
    assert_eq!(compute_calories(&a, &store(vec![a.clone()])), Err(ResolveError::CycleDetected));
}

#[test]
fn amounts_beyond_the_largest_are_an_overflow() {
    let db = store(vec![basic_of("huge", thousandths(u64::MAX))]);
    assert_eq!(
        compute_calories(&composite("one", vec![("huge", 1)]), &db),
        Ok(thousandths(u64::MAX))
    );
    assert_eq!(
        compute_calories(&composite("two", vec![("huge", 2)]), &db),
        Err(ResolveError::Overflow)
    );
    assert_eq!(
        compute_calories(&composite("sum", vec![("huge", 1), ("huge", 1)]), &db),
        Err(ResolveError::Overflow)
    );
    assert_eq!(
        compute_calories(&composite_of("part", vec![("huge", thousandths(500))]), &db),
        Ok(thousandths(u64::MAX / 2))
    );
}

#[test]
fn overflow_on_the_way_stays_an_overflow() {
    let db = store(vec![
        basic_of("huge", thousandths(u64::MAX)),
        composite("two", vec![("huge", 2)]),
    ]);
    assert_eq!(
        compute_calories(&composite("none", vec![("two", 0)]), &db),
        Err(ResolveError::Overflow)
    );
    assert_eq!(
        compute_calories(&composite_of("half", vec![("two", thousandths(1))]), &db),
        Err(ResolveError::Overflow)
    );
}

#[test]
fn cycle_goes_before_overflow() {
    let db = store(vec![
        basic_of("huge", thousandths(u64::MAX)),
        composite("loop", vec![("loop", 1)]),
    ]);
    let food = composite("both", vec![("huge", 2), ("loop", 1)]);
    assert_eq!(compute_calories(&food, &db), Err(ResolveError::CycleDetected));
}

#[test]
fn deep_chain_resolves_without_recursion() {
    let mut foods = vec![basic("f0", 3)];
    for i in 1..300 {
        foods.push(composite_of(&format!("f{}", i), vec![(&format!("f{}", i - 1), Amount::whole(1))]));
    }
    let top = foods[299].clone();
    let mut db = Database::new("x");
    db.load(foods);
    assert_eq!(compute_calories(&top, &db), Ok(Amount::whole(3)));
}

#[test]
fn shared_components_are_resolved_once() {
    let mut foods = vec![basic_of("level0", thousandths(1))];
    for i in 1..=60 {
        let below = format!("level{}", i - 1);
        foods.push(composite_of(
            &format!("level{}", i),
            vec![(&below, Amount::whole(1)), (&below, Amount::whole(1))],
        ));
    }
    let top = foods[60].clone();
    let mut db = Database::new("x");
    db.load(foods);
    assert_eq!(compute_calories(&top, &db), Ok(thousandths(1u64 << 60)));
    assert_eq!(
        compute_calories(&composite("over", vec![("level60", 16)]), &db),
        Err(ResolveError::Overflow)
    );
    assert_eq!(
        compute_calories(&composite("under", vec![("level60", 15), ("level59", 1)]), &db),
        Ok(thousandths(15 * (1u64 << 60) + (1u64 << 59)))
    );
}

#[test]
fn food_asked_for_need_not_be_the_stored_one() {
    let db = store(vec![basic("egg", 70), composite("omelet", vec![("egg", 2)])]);
    assert_eq!(
        compute_calories(&composite("omelet", vec![("egg", 3)]), &db),
        Ok(Amount::whole(210))
    );
    assert_eq!(
        compute_calories(&composite("brunch", vec![("omelet", 1), ("egg", 1)]), &db),
        Ok(Amount::whole(210))
    );
    assert_eq!(
        compute_calories(&composite("egg", vec![("omelet", 1)]), &db),
        Err(ResolveError::CycleDetected)
    );
}

#[test]
fn cycle_met_after_a_resolved_component() {
    let db = store(vec![
        basic("egg", 70),
        composite("omelet", vec![("egg", 2)]),
        composite("a", vec![("omelet", 1), ("b", 1)]),
        composite("b", vec![("omelet", 1), ("a", 1)]),
    ]);
    assert_eq!(
        compute_calories(&composite("top", vec![("omelet", 1), ("a", 1)]), &db),
        Err(ResolveError::CycleDetected)
    );
    assert_eq!(
        compute_calories(&composite("fine", vec![("omelet", 2), ("omelet", 1)]), &db),
        Ok(Amount::whole(420))
    );
}
