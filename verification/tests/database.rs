use diet_manager::amount::Amount;
use diet_manager::database::{food_has_keyword, food_names_keywords, pick_food, Database};
use diet_manager::food::{BasicFood, CompositeFood, Food};

fn plain(id: &str, keywords: Vec<&str>, calories: u32) -> Food {
    Food::Basic(BasicFood {
        id: id.to_string(),
        keywords: keywords.into_iter().map(|k| k.to_string()).collect(),
        calories: Amount::whole(calories),
    })
}

fn mixed(id: &str, keywords: Vec<&str>, components: Vec<(&str, u32)>) -> Food {
    Food::Composite(CompositeFood {
        id: id.to_string(),
        keywords: keywords.into_iter().map(|k| k.to_string()).collect(),
        components: components.into_iter().map(|(c, s)| (c.to_string(), Amount::whole(s))).collect(),
    })
}

fn ids(foods: &Vec<&Food>) -> Vec<String> {
    foods.iter().map(|f| f.id().clone()).collect()
}

fn calories(food: &Food) -> Option<u64> {
    match food {
        Food::Basic(b) => Some(b.calories.thousandths / 1000),
        Food::Composite(_) => None,
    }
}

#[test]
fn new_store_is_empty() {
    let db = Database::new("food_db.json");
    assert!(db.is_empty());
    assert_eq!(db.len(), 0);
    assert_eq!(db.file_path(), "food_db.json");
    assert!(db.get_food("egg").is_none());
    assert!(db.foods().is_empty());
}

#[test]
fn add_food_stores_under_the_id() {
    let mut db = Database::new("f");
    assert!(db.add_food(plain("egg", vec!["egg"], 70)).is_none());
    assert!(db.add_food(plain("rice", vec!["rice"], 130)).is_none());
    assert_eq!(db.len(), 2);
    assert_eq!(calories(db.get_food("egg").unwrap()), Some(70));
    assert_eq!(calories(db.get_food("rice").unwrap()), Some(130));
    assert!(db.get_food("Egg").is_none());
    assert_eq!(db.position("egg"), Some(0));
    assert_eq!(db.position("rice"), Some(1));
    assert_eq!(db.position("bread"), None);
}

#[test]
fn add_food_replaces_and_hands_back_the_previous() {
    let mut db = Database::new("f");
    db.add_food(plain("egg", vec!["egg"], 70));
    db.add_food(plain("rice", vec!["rice"], 130));
    let previous = db.add_food(plain("egg", vec!["egg"], 75)).unwrap();
    assert_eq!(calories(&previous), Some(70));
    assert_eq!(db.len(), 2);
    assert_eq!(calories(db.get_food("egg").unwrap()), Some(75));
    assert_eq!(db.foods()[0].id(), "egg");
    assert_eq!(db.foods()[1].id(), "rice");
}

#[test]
fn remove_food_says_whether_there_was_one() {
    let mut db = Database::new("f");
    db.add_food(plain("egg", vec!["egg"], 70));
    db.add_food(plain("rice", vec!["rice"], 130));
    db.add_food(plain("bread", vec!["bread"], 80));
    assert!(db.remove_food("rice"));
    assert!(!db.remove_food("rice"));
    assert!(!db.remove_food("ghost"));
    assert_eq!(db.len(), 2);
    assert_eq!(db.foods()[0].id(), "egg");
    assert_eq!(db.foods()[1].id(), "bread");
    assert!(db.get_food("rice").is_none());
}

#[test]
fn search_matches_part_of_any_keyword() {
    let mut db = Database::new("f");
    db.add_food(plain("egg", vec!["egg", "protein"], 70));
    db.add_food(plain("rice", vec!["rice", "grain"], 130));
    db.add_food(mixed("omelet", vec!["breakfast", "egg dish"], vec![("egg", 2)]));
    assert_eq!(ids(&db.search_by_keyword("egg")), vec!["egg", "omelet"]);
    assert_eq!(ids(&db.search_by_keyword("rain")), vec!["rice"]);
    assert_eq!(ids(&db.search_by_keyword("g")), vec!["egg", "rice", "omelet"]);
    assert!(db.search_by_keyword("Egg").is_empty());
    assert!(db.search_by_keyword("eggs").is_empty());
    assert_eq!(db.search_by_keyword("").len(), 3);
}

#[test]
fn search_with_empty_keyword_skips_food_without_keywords() {
    let mut db = Database::new("f");
    db.add_food(plain("bare", vec![], 1));
    db.add_food(plain("egg", vec!["egg"], 70));
    assert_eq!(ids(&db.search_by_keyword("")), vec!["egg"]);
}

#[test]
fn keyword_test_looks_inside_keywords() {
    let food = plain("egg", vec!["boiled egg", "protein"], 70);
    assert!(food_has_keyword(&food, "led e"));
    assert!(food_has_keyword(&food, "protein"));
    assert!(!food_has_keyword(&food, "proteins"));
    assert!(!food_has_keyword(&food, "eggp"));
}

#[test]
fn search_by_keywords_ignores_case_of_the_food() {
    let mut db = Database::new("f");
    db.add_food(plain("egg", vec!["Egg", "PROTEIN"], 70));
    db.add_food(plain("tofu", vec!["Protein", "soy"], 90));
    db.add_food(plain("rice", vec!["grain"], 130));
    let both = vec!["protein".to_string(), "egg".to_string()];
    assert_eq!(ids(&db.search_by_keywords(&both, true)), vec!["egg"]);
    assert_eq!(ids(&db.search_by_keywords(&both, false)), vec!["egg", "tofu"]);
    let upper = vec!["PROTEIN".to_string()];
    assert!(db.search_by_keywords(&upper, false).is_empty());
    let part = vec!["prot".to_string()];
    assert!(db.search_by_keywords(&part, false).is_empty());
}

#[test]
fn search_by_no_keywords_keeps_all_or_none() {
    let mut db = Database::new("f");
    db.add_food(plain("egg", vec!["egg"], 70));
    assert_eq!(db.search_by_keywords(&vec![], true).len(), 1);
    assert_eq!(db.search_by_keywords(&vec![], false).len(), 0);
    assert!(food_names_keywords(&plain("x", vec![], 1), &vec![], true));
    assert!(!food_names_keywords(&plain("x", vec![], 1), &vec![], false));
}

#[test]
fn load_replaces_the_contents_and_later_food_wins() {
    let mut db = Database::new("f");
    db.add_food(plain("old", vec![], 1));
    db.load(vec![plain("egg", vec![], 70), plain("rice", vec![], 130), plain("egg", vec![], 75)]);
    assert_eq!(db.len(), 2);
    assert!(db.get_food("old").is_none());
    assert_eq!(calories(db.get_food("egg").unwrap()), Some(75));
    assert_eq!(db.foods()[0].id(), "egg");
    assert_eq!(db.file_path(), "f");
}

#[test]
fn save_hands_out_the_foods_in_order() {
    let mut db = Database::new("f");
    db.add_food(plain("egg", vec!["egg"], 70));
    db.add_food(mixed("omelet", vec!["omelet"], vec![("egg", 2)]));
    let saved = db.save();
    assert_eq!(saved.len(), 2);
    assert_eq!(saved[0].id(), "egg");
    match &saved[1] {
        Food::Composite(c) => {
            assert_eq!(c.id, "omelet");
            assert_eq!(c.keywords, vec!["omelet".to_string()]);
            assert_eq!(c.components, vec![("egg".to_string(), Amount::whole(2))]);
        }
        Food::Basic(_) => panic!("a composite was saved"),
    }
    let mut again = Database::new("g");
    again.load(saved);
    assert_eq!(again.len(), 2);
    assert_eq!(calories(again.get_food("egg").unwrap()), Some(70));
}

#[test]
fn pick_food_goes_by_number_from_one() {
    let mut db = Database::new("f");
    db.add_food(plain("egg", vec!["egg"], 70));
    db.add_food(plain("rice", vec!["rice"], 130));
    let listed = db.search_by_keyword("");
    assert_eq!(pick_food(&listed, 0), None);
    assert_eq!(pick_food(&listed, 1), Some("egg".to_string()));
    assert_eq!(pick_food(&listed, 2), Some("rice".to_string()));
    assert_eq!(pick_food(&listed, 3), None);
    assert_eq!(pick_food(&listed, usize::MAX), None);
}
