use void_a_nomicon::error::GameError;
use void_a_nomicon::item::content::parse_item;
use void_a_nomicon::item::tags::{Tag, TagError, TagNames, Tags};
use void_a_nomicon::item::{ItemData, ItemID, Items};
use void_a_nomicon::recipies::{
    combine, extract_word, load_recipies, load_recipies_from_file, Combination, Recipie,
    RecipieType, Recipies, TRASH_RANK,
};

#[test]
fn item_item_test() {
    let mut recipies = Recipies::default();
    let item1 = ItemID::from("F");
    let item2 = ItemID::from("FF");
    let item3 = ItemID::from("G");
    let item4 = ItemID::from("E");
    recipies.add(Recipie { priority: 0, item_1: item1, item_2: item1, result: item2 });
    recipies.add(Recipie { priority: 0, item_1: item1, item_2: item1, result: item3 });
    recipies.add(Recipie { priority: 0, item_1: item1, item_2: item2, result: item4 });
    recipies.add(Recipie { priority: 1, item_1: item1, item_2: item1, result: item4 });
    let res = recipies.combine(item1, item1);
    assert_eq!(res, Some(vec![item2, item3]));
    let res = recipies.combine(item2, item1);
    assert_eq!(res, Some(vec![item4]));
}

#[test]
fn item_from_str() {
    let mut recipies = Recipies::default();
    let item1 = ItemID::from("F");
    let item2 = ItemID::from("FF");
    let item3 = ItemID::from("G");
    let item4 = ItemID::from("E");
    recipies.add(Recipie::from_str("F + F = FF; 0"));
    recipies.add(Recipie::from_str("F + F = G; 0"));
    recipies.add(Recipie::from_str("F + F = E; 1"));
    recipies.add(Recipie::from_str("F + FF = E; 0"));
    let res = recipies.combine(item1, item1);
    assert_eq!(res, Some(vec![item2, item3]));
    let res = recipies.combine(item2, item1);
    assert_eq!(res, Some(vec![item4]));
}

#[test]
fn load_from_file() {
    let mut recipies = Recipies::default();
    let item1 = ItemID::from("Bevy");
    let item2 = ItemID::from("App");
    let item3 = ItemID::from("DefaultPlugins");
    let item4 = ItemID::from("Totally a game");
    let file = "Bevy + Bevy = App; \nApp + Bevy = DefaultPlugins;\nBevy + App = App;\nApp + DefaultPlugins = Totally_a_game;\n";
    recipies.load(file);
    let res = recipies.combine(item1, item1);
    assert_eq!(res, Some(vec![item2]));
    let res = recipies.combine(item2, item1);
    assert_eq!(res, Some(vec![item3, item2]));
    let res = recipies.combine(item2, item3);
    assert_eq!(res, Some(vec![item4]));
}

#[test]
fn a_recipe_file_of_three_lines() {
    let mut recipies = Recipies::default();
    let bevy = ItemID::from("Bevy");
    let app = ItemID::from("App");
    let plugins = ItemID::from("DefaultPlugins");
    let game = ItemID::from("Totally a game");
    recipies.load("Bevy + Bevy = App; \nApp + Bevy = DefaultPlugins;\nApp + DefaultPlugins = Totally_a_game;");
    assert_eq!(recipies.combine(bevy, bevy), Some(vec![app]));
    assert_eq!(recipies.combine(app, bevy), Some(vec![plugins]));
    assert_eq!(recipies.combine(bevy, app), Some(vec![plugins]));
    assert_eq!(recipies.combine(app, plugins), Some(vec![game]));
    assert_eq!(recipies.combine(game, bevy), None);
}

#[test]
fn blank_lines_add_no_recipe() {
    let mut recipies = Recipies::default();
    recipies.load("\n  \r\nA + B = C\r\n\n");
    let empty = ItemID::from("");
    assert!(!recipies.check_combine(empty, empty));
    assert_eq!(recipies.combine(ItemID::from("A"), ItemID::from("B")), Some(vec![ItemID::from("C")]));
}

#[test]
fn lower_rank_wins_whichever_comes_first() {
    let a = ItemID::from("A");
    let b = ItemID::from("B");
    let r = ItemID::from("R");
    let r2 = ItemID::from("R2");
    let mut recipies = Recipies::default();
    recipies.insert(a, b, r, 0);
    recipies.insert(a, b, r2, 1);
    assert_eq!(recipies.combine(a, b), Some(vec![r]));
    let mut recipies = Recipies::default();
    recipies.insert(a, b, r2, 1);
    recipies.insert(b, a, r, 0);
    assert_eq!(recipies.combine(a, b), Some(vec![r]));
    recipies.insert(a, b, r2, 7);
    assert_eq!(recipies.combine(b, a), Some(vec![r]));
}

#[test]
fn equal_ranks_accumulate_in_order() {
    let a = ItemID::from("A");
    let b = ItemID::from("B");
    let r = ItemID::from("R");
    let r2 = ItemID::from("R2");
    let mut recipies = Recipies::default();
    recipies.insert(a, b, r, 0);
    recipies.insert(b, a, r2, 0);
    assert_eq!(recipies.combine(a, b), Some(vec![r, r2]));
    recipies.insert(a, b, r, 0);
    assert_eq!(recipies.combine(a, b), Some(vec![r, r2, r]));
}

#[test]
fn combining_marks_the_pair_in_either_order() {
    let a = ItemID::from("A");
    let b = ItemID::from("B");
    let mut recipies = Recipies::default();
    recipies.insert(a, a, b, 0);
    recipies.insert(a, b, a, 0);
    assert!(!recipies.has_made(a, a));
    assert_eq!(recipies.combine(a, a), Some(vec![b]));
    assert!(recipies.has_made(a, a));
    assert_eq!(recipies.combine(a, a), Some(vec![b]));
    assert!(recipies.has_made(a, a));
    assert!(!recipies.has_made(a, b));
    assert!(!recipies.has_made(b, a));
    assert_eq!(recipies.combine(b, a), Some(vec![a]));
    assert!(recipies.has_made(a, b));
    assert!(recipies.has_made(b, a));
    assert_eq!(recipies.combine(b, b), None);
    assert!(!recipies.has_made(b, b));
    assert_eq!(recipies.made_pairs().len(), 2);
}

#[test]
fn check_combine_does_not_mark() {
    let a = ItemID::from("A");
    let b = ItemID::from("B");
    let mut recipies = Recipies::default();
    assert!(!recipies.check_combine(a, b));
    recipies.insert(b, a, a, 3);
    assert!(recipies.check_combine(a, b));
    assert!(recipies.check_combine(b, a));
    assert!(!recipies.has_made(a, b));
}

#[test]
fn a_specific_recipe_beats_the_trash() {
    let trash = ItemID::from("Trash");
    let a = ItemID::from("A");
    let b = ItemID::from("B");
    let gold = ItemID::from("Gold");
    let mut recipies = Recipies::default();
    recipies.set_trash(vec![a, b, trash]);
    assert_eq!(recipies.combine(a, trash), Some(vec![trash]));
    assert_eq!(recipies.combine(trash, trash), Some(vec![trash]));
    recipies.insert(trash, a, gold, 5);
    assert_eq!(recipies.combine(a, trash), Some(vec![gold]));
    assert_eq!(recipies.combine(b, trash), Some(vec![trash]));
}

#[test]
fn the_trash_does_not_override_a_specific_recipe() {
    let trash = ItemID::from("Trash");
    let a = ItemID::from("A");
    let gold = ItemID::from("Gold");
    let mut recipies = Recipies::default();
    recipies.insert(a, trash, gold, 0);
    recipies.set_trash(vec![a]);
    assert_eq!(recipies.combine(trash, a), Some(vec![gold]));
    assert_eq!(TRASH_RANK, u16::MAX);
    let mut recipies = Recipies::default();
    recipies.insert(a, trash, gold, u16::MAX);
    recipies.set_trash(vec![a]);
    assert_eq!(recipies.combine(trash, a), Some(vec![gold, trash]));
}

#[test]
fn made_pairs_are_canonical_and_can_be_marked_again() {
    let a = ItemID::from("A");
    let b = ItemID::from("B");
    let (low, high) = a.first(b);
    let mut recipies = Recipies::default();
    recipies.mark_made(high, low);
    recipies.mark_made(low, high);
    assert_eq!(recipies.made_pairs(), vec![(low, high)]);
    let mut other = Recipies::default();
    for (x, y) in recipies.made_pairs() {
        other.mark_made(x, y);
    }
    assert!(other.has_made(a, b));
    assert!(!other.has_made(a, a));
}

#[test]
fn a_recipe_line_in_words() {
    let r = Recipie::from_str("  Totally_a_game+ Old  Bevy =New_ Item ;12");
    assert_eq!(r.item_1, ItemID::from("Totally a game"));
    assert_eq!(r.item_2, ItemID::from("OldBevy"));
    assert_eq!(r.result, ItemID::from("new item"));
    assert_eq!(r.priority, 12);
    assert_eq!(r.items(), r.item_1.first(r.item_2));
    assert_eq!(Recipie::from_str("A + B = C").priority, 0);
    assert_eq!(Recipie::from_str("A + B = C; x").priority, 0);
    assert_eq!(Recipie::from_str("A + B = C; 65535").priority, 65535);
    assert_eq!(Recipie::from_str("A + B = C; 65536").priority, 0);
    assert_eq!(Recipie::from_str("A + B = C; 6 5").priority, 65);
    let bare = Recipie::from_str("A");
    assert_eq!(bare.item_1, ItemID::from("A"));
    assert_eq!(bare.item_2, ItemID::from(""));
    assert_eq!(bare.result, ItemID::from(""));
}

#[test]
fn words_are_read_one_after_the_other() {
    let chars: Vec<char> = "a_b + c d=e".chars().collect();
    let (first, at) = extract_word(&chars, 0, '+');
    assert_eq!(first, "a b");
    assert_eq!(at, 5);
    let (second, at) = extract_word(&chars, at, '=');
    assert_eq!(second, "cd");
    assert_eq!(at, 10);
    let (third, at) = extract_word(&chars, at, ';');
    assert_eq!(third, "e");
    assert_eq!(at, 11);
    let (fourth, at) = extract_word(&chars, at, '\n');
    assert_eq!(fourth, "");
    assert_eq!(at, 11);
}

#[test]
fn written_recipes_of_each_kind() {
    let mut names = TagNames::new();
    let a = ItemID::from("A");
    let b = ItemID::from("B");
    let c = ItemID::from("C");
    let metal = Tag::new("Metal", &mut names).unwrap();
    assert_eq!(
        RecipieType::from_str("A + B = C", &mut names).unwrap(),
        RecipieType::AddRecipie { item1: a, item2: b, makes: c, rank: 0 }
    );
    assert_eq!(
        RecipieType::from_str("A + $Metal = C", &mut names).unwrap(),
        RecipieType::AddTagRecipie { item: a, has: metal, makes: c, rank: 1 }
    );
    assert_eq!(
        RecipieType::from_str("$Metal + B = C", &mut names).unwrap(),
        RecipieType::AddTagRecipie { item: b, has: metal, makes: c, rank: 1 }
    );
    assert_eq!(
        RecipieType::from_str("$Metal + $0x45 = C", &mut names).unwrap(),
        RecipieType::MakeTagRecipie { item1_has: metal, item2_has: Tag(69), makes: c, rank: 2 }
    );
    assert_eq!(
        RecipieType::from_str("$Metal + $69 = C; 9", &mut names).unwrap(),
        RecipieType::MakeTagRecipie { item1_has: metal, item2_has: Tag(69), makes: c, rank: 9 }
    );
    assert_eq!(
        RecipieType::from_str("A + B = C; 4", &mut names).unwrap(),
        RecipieType::AddRecipie { item1: a, item2: b, makes: c, rank: 4 }
    );
}

#[test]
fn a_written_recipe_lists_the_names_of_its_tags() {
    let mut names = TagNames::new();
    let r = RecipieType::from_str("$Fire_Thing + $Wet = Steam", &mut names).unwrap();
    match r {
        RecipieType::MakeTagRecipie { item1_has, item2_has, .. } => {
            assert_eq!(item1_has.name(&names), "Fire Thing");
            assert_eq!(item2_has.name(&names), "Wet");
        }
        _ => panic!("two tags expected"),
    }
}

#[test]
fn a_bad_tag_fails_its_line_only() {
    let mut names = TagNames::new();
    assert!(matches!(
        RecipieType::from_str("$0xZZ + B = C", &mut names),
        Err(GameError::TagErr(TagError::ParseError))
    ));
    assert!(matches!(
        RecipieType::from_str("$Good + $1x = C", &mut names),
        Err(GameError::TagErr(TagError::ParseError))
    ));
    assert_eq!(Tag::new("Good", &mut TagNames::new()).unwrap().get_name(&names), Ok("Good".to_string()));
    let found = load_recipies_from_file("A + B = C\n$0xZZ + B = C\n\nB + $2 = D\n", &mut names);
    assert_eq!(
        found,
        vec![
            RecipieType::AddRecipie {
                item1: ItemID::from("A"),
                item2: ItemID::from("B"),
                makes: ItemID::from("C"),
                rank: 0
            },
            RecipieType::AddTagRecipie {
                item: ItemID::from("B"),
                has: Tag(2),
                makes: ItemID::from("D"),
                rank: 1
            },
        ]
    );
    names.poison();
    assert!(matches!(
        RecipieType::from_str("$Good + B = C", &mut names),
        Err(GameError::TagErr(TagError::LockFailed))
    ));
    assert!(RecipieType::from_str("$7 + B = C", &mut names).is_ok());
}

fn fallback() -> ItemData {
    ItemData {
        name: "Debug Item".to_string(),
        description: "unknown".to_string(),
        icon: "ui/skull_01.png".to_string(),
        tags: Tags::default(),
        sound: "sounds/pop.wav".to_string(),
    }
}

fn tagged_items(names: &mut TagNames) -> Items {
    let mut items = Items::new(fallback(), Vec::new());
    let file = "name: \"Iron\"\ntags: [\"Metal\"]{next}name: \"Gold\"\ntags: [\"Metal\", \"Shiny\"]{next}name: \"Glass\"\ntags: [\"Shiny\"]{next}name: \"Mud\"";
    let loaded = items.load(file, "", names);
    assert_eq!(loaded.len(), 4);
    assert!(loaded.iter().all(|r| r.is_ok()));
    items
}

#[test]
fn tag_recipes_expand_over_the_items_of_the_tag() {
    let mut names = TagNames::new();
    let items = tagged_items(&mut names);
    let iron = ItemID::from("Iron");
    let gold = ItemID::from("Gold");
    let glass = ItemID::from("Glass");
    let mud = ItemID::from("Mud");
    let found = load_recipies_from_file(
        "Mud + $Metal = Ore\n$Metal + $Shiny = Jewel\nIron + Gold = Alloy\n$Nothing + Mud = Never\nMud + Iron = Rust; 5",
        &mut names,
    );
    assert_eq!(found.len(), 5);
    let mut recipies = Recipies::default();
    load_recipies(&mut recipies, &items, &found);
    assert_eq!(recipies.combine(mud, iron), Some(vec![ItemID::from("Ore")]));
    assert_eq!(recipies.combine(gold, mud), Some(vec![ItemID::from("Ore")]));
    assert_eq!(recipies.combine(mud, glass), None);
    assert_eq!(recipies.combine(iron, glass), Some(vec![ItemID::from("Jewel")]));
    assert_eq!(recipies.combine(iron, gold), Some(vec![ItemID::from("Alloy")]));
    assert_eq!(
        recipies.combine(gold, gold),
        Some(vec![ItemID::from("Jewel")])
    );
    assert_eq!(recipies.combine(gold, glass), Some(vec![ItemID::from("Jewel")]));
    assert_eq!(recipies.combine(mud, mud), None);
    assert!(!recipies.check_combine(glass, glass));
}

#[test]
fn a_repeat_changes_nothing_unless_the_trash_is_involved() {
    let trash = ItemID::from("Trash");
    let a = ItemID::from("A");
    let b = ItemID::from("B");
    let c = ItemID::from("C");
    let mut recipies = Recipies::default();
    recipies.insert(a, b, c, 0);
    recipies.set_trash(vec![a]);
    assert!(matches!(combine(&mut recipies, a, c), Combination::Nothing));
    match combine(&mut recipies, a, b) {
        Combination::Made(results) => assert_eq!(results, vec![c]),
        other => panic!("{:?}", other),
    }
    assert!(matches!(combine(&mut recipies, b, a), Combination::Repeat));
    assert!(matches!(combine(&mut recipies, a, b), Combination::Repeat));
    for _ in 0..3 {
        match combine(&mut recipies, trash, a) {
            Combination::Made(results) => assert_eq!(results, vec![trash]),
            other => panic!("{:?}", other),
        }
    }
    assert!(recipies.has_made(a, trash));
}

#[test]
fn parse_item_is_used_by_load() {
    let mut names = TagNames::new();
    let record: Vec<char> = "name: \"Iron\"".chars().collect();
    let (id, data) = parse_item(&record, "", &fallback(), &mut names).unwrap();
    assert_eq!(id, ItemID::from("Iron"));
    assert_eq!(data.name, "Iron");
}
