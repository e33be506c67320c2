use void_a_nomicon::error::GameError;
use void_a_nomicon::item::content::{asset_dir, file_kind, join, parse_fields, unwrap_or_404, unwrap_or_string, FileKind};
use void_a_nomicon::item::event::found_update;
use void_a_nomicon::item::items::load_found;
use void_a_nomicon::item::pickup::{set_selected, Seleced};
use void_a_nomicon::item::tags::{Tag, TagError, TagNames, Tags};
use void_a_nomicon::item::{hash_text, Item, ItemData, ItemEvent, ItemID, Items};

fn fallback() -> ItemData {
    ItemData {
        name: "Debug Item".to_string(),
        description: "This Item Is Spawned in place of an unknown item. maybe you removed a mod? or updated the game".to_string(),
        icon: "ui/skull_01.png".to_string(),
        tags: Tags::default(),
        sound: "sounds/pop.wav".to_string(),
    }
}

const FILE: &str = "name: \"Bevy\"\nicon: \"icons/bevy.png\"\ndescription: \"A bird\"\ntags: [\"Meta\",\"0x45\"]\n{next}\nname: \"App\"\n{next}\nicon: \"icons/none.png\"\n{next}\nname: \"bevy\"\ndescription: \"another\"\nsound: \"tweet.wav\"\ntags: [\"Late\"]";

fn loaded(names: &mut TagNames) -> Items {
    let mut items = Items::new(fallback(), Vec::new());
    let outcome = items.load(FILE, "items", names);
    assert_eq!(outcome.len(), 4);
    assert_eq!(outcome[0].as_ref().unwrap(), &ItemID::from("Bevy"));
    assert_eq!(outcome[1].as_ref().unwrap(), &ItemID::from("App"));
    assert!(matches!(&outcome[2], Err(GameError::FieldNotFound(f)) if f == "name"));
    assert_eq!(outcome[3].as_ref().unwrap(), &ItemID::from("Bevy"));
    items
}

#[test]
fn names_that_normalize_alike_are_one_item() {
    assert_eq!(ItemID::from("Totally A Game"), ItemID::from("totally_a_game"));
    assert_eq!(ItemID::from("Totally a game"), ItemID::new("TOTALLY_A GAME".to_string()));
    assert_ne!(ItemID::from("Totally a game"), ItemID::from("Totallyagame"));
    assert_ne!(ItemID::from(" Bevy"), ItemID::from("Bevy"));
    assert_eq!(ItemID::from("ÄB c"), ItemID::from("äb_c"));
}

#[test]
fn an_identifier_is_the_std_hash_of_the_normal_form() {
    use_std_hash("totally_a_game", ItemID::from("Totally A Game"));
    use_std_hash("", ItemID::from(""));
    use_std_hash("straße_ǆ", ItemID::from("Straße ǅ"));
}

fn use_std_hash(normal: &str, id: ItemID) {
    let mut hasher = std::collections::hash_map::DefaultHasher::default();
    std::hash::Hash::hash(normal, &mut hasher);
    assert_eq!(id.id(), std::hash::Hasher::finish(&hasher));
    assert_eq!(id.id(), hash_text(normal));
    assert_eq!(id, ItemID(id.id()));
}

#[test]
fn first_does_not_depend_on_the_order() {
    let a = ItemID(7);
    let b = ItemID(3);
    assert_eq!(a.first(b), (b, a));
    assert_eq!(b.first(a), (b, a));
    assert_eq!(a.first(a), (a, a));
    let x = ItemID::from("F");
    let y = ItemID::from("FF");
    assert_eq!(x.first(y), y.first(x));
    assert!(x.first(y).0.id() <= x.first(y).1.id());
}

#[test]
fn an_item_file_is_read_record_by_record() {
    let mut names = TagNames::new();
    let items = loaded(&mut names);
    let bevy = ItemID::from("Bevy");
    let app = ItemID::from("App");
    assert_eq!(items.all(), vec![bevy, app]);
    assert_eq!(items.len(), 2);
    let shown = items.get(&bevy);
    assert_eq!(shown.name(), "Bevy");
    assert_eq!(shown.icon(), "items/icons/bevy.png");
    assert_eq!(shown.description(), "A bird");
    assert_eq!(shown.sound(), "sounds/pop.wav");
    let shown = items.get(&app);
    assert_eq!(shown.name(), "App");
    assert_eq!(shown.icon(), "ui/skull_01.png");
    assert_eq!(shown.description(), "No description for this item;");
    assert_eq!(shown.sound(), "sounds/pop.wav");
}

#[test]
fn an_unknown_item_is_shown_as_the_fallback() {
    let mut names = TagNames::new();
    let items = loaded(&mut names);
    let shown = items.get(&ItemID::from("Removed"));
    assert_eq!(shown.name(), "Debug Item");
    assert_eq!(shown.icon(), "ui/skull_01.png");
    assert_eq!(shown.sound(), "sounds/pop.wav");
    assert!(shown.description().starts_with("This Item Is Spawned"));
    let data = fallback();
    let direct = Item::from(&data);
    assert_eq!(direct.name(), "Debug Item");
}

#[test]
fn the_first_record_wins_and_tags_accumulate() {
    let mut names = TagNames::new();
    let items = loaded(&mut names);
    let bevy = ItemID::from("Bevy");
    let meta = Tag::new("Meta", &mut names).unwrap();
    let late = Tag::new("Late", &mut names).unwrap();
    assert_eq!(items.with_tag(&meta), Some(vec![bevy]));
    assert_eq!(items.with_tag(&Tag(0x45)), Some(vec![bevy]));
    assert_eq!(items.with_tag(&late), Some(vec![bevy]));
    assert_eq!(items.with_tag(&Tag(1)), None);
    assert_eq!(late.name(&names), "Late");
}

#[test]
fn inserting_by_hand() {
    let mut items = Items::new(fallback(), Vec::new());
    let mut tags = Tags::default();
    tags.insert(Tag(1));
    tags.insert(Tag(2));
    items.insert(
        "Iron",
        ItemData {
            name: "Iron".to_string(),
            description: "hard".to_string(),
            icon: "iron.png".to_string(),
            tags,
            sound: "clang.wav".to_string(),
        },
    );
    let mut tags = Tags::default();
    tags.insert(Tag(2));
    tags.insert(Tag(3));
    items.insert(
        "iron".to_string(),
        ItemData {
            name: "Other".to_string(),
            description: "soft".to_string(),
            icon: "other.png".to_string(),
            tags,
            sound: "other.wav".to_string(),
        },
    );
    let mut tags = Tags::default();
    tags.insert(Tag(3));
    items.insert_id(
        ItemID::from("Gold"),
        ItemData {
            name: "Gold".to_string(),
            description: "shiny".to_string(),
            icon: "gold.png".to_string(),
            tags,
            sound: "gold.wav".to_string(),
        },
    );
    let iron = ItemID::from("Iron");
    let gold = ItemID::from("Gold");
    assert_eq!(items.all(), vec![iron, gold]);
    assert_eq!(items.get(&iron).name(), "Iron");
    assert_eq!(items.get(&iron).description(), "hard");
    assert_eq!(items.get(&iron).icon(), "iron.png");
    assert_eq!(items.get(&iron).sound(), "clang.wav");
    assert_eq!(items.with_tag(&Tag(1)), Some(vec![iron]));
    assert_eq!(items.with_tag(&Tag(2)), Some(vec![iron]));
    assert_eq!(items.with_tag(&Tag(3)), Some(vec![iron, gold]));
}

#[test]
fn optional_fields_fall_back_when_they_cannot_be_read() {
    let mut names = TagNames::new();
    let mut items = Items::new(fallback(), Vec::new());
    let file = "name: \"A\"\nicon: not a string\ntags: [\"0xZZ\"]\ndescription: 12{next}name: B{next}name: \"C\"\nname: \"D\"\nicon : \"a:b.png\" \nno colon here\ntags: [\"One\"]";
    let outcome = items.load(file, "", &mut names);
    assert_eq!(outcome.len(), 3);
    assert!(outcome[0].is_ok());
    assert!(matches!(&outcome[1], Err(GameError::RonSpannedError(_))));
    assert_eq!(outcome[2].as_ref().unwrap(), &ItemID::from("D"));
    let a = items.get(&ItemID::from("A"));
    assert_eq!(a.icon(), "ui/skull_01.png");
    assert_eq!(a.description(), "No description for this item;");
    let d = items.get(&ItemID::from("D"));
    assert_eq!(d.name(), "D");
    assert_eq!(d.icon(), "a:b.png");
    assert_eq!(items.all(), vec![ItemID::from("A"), ItemID::from("D")]);
    assert_eq!(items.with_tag(&Tag(hash_text("One"))), Some(vec![ItemID::from("D")]));
}

#[test]
fn a_poisoned_table_leaves_named_tags_out() {
    let mut names = TagNames::new();
    names.poison();
    let mut items = Items::new(fallback(), Vec::new());
    let outcome = items.load("name: \"A\"\ntags: [\"1\",\"Named\"]{next}name: \"B\"\ntags: [\"1\"]", "", &mut names);
    assert!(outcome.iter().all(|r| r.is_ok()));
    assert_eq!(items.with_tag(&Tag(1)), Some(vec![ItemID::from("B")]));
    assert_eq!(Tag(hash_text("Named")).get_name(&names), Err(TagError::LockFailed));
}

#[test]
fn a_patch_adds_tags_to_known_items_only() {
    let mut names = TagNames::new();
    let mut items = loaded(&mut names);
    let bevy = ItemID::from("Bevy");
    let app = ItemID::from("App");
    items.path(
        "Bevy:[\"Patched\"]{next}\n Nobody :[\"X\",\"Patched\"]{next}App:nonsense{next}no separator{next}app:[\"Patched\",\"7\"]",
        &mut names,
    );
    assert_eq!(items.all(), vec![bevy, app]);
    assert_eq!(items.len(), 2);
    let patched = Tag::new("Patched", &mut names).unwrap();
    assert_eq!(items.with_tag(&patched), Some(vec![bevy, app]));
    assert_eq!(items.with_tag(&Tag(7)), Some(vec![app]));
    assert_eq!(items.with_tag(&Tag(hash_text("X"))), None);
    assert_eq!(Tag(hash_text("X")).name(&names), "X");
    assert_eq!(items.get(&ItemID::from("Nobody")).name(), "Debug Item");
    assert_eq!(items.get(&bevy).description(), "A bird");
}

#[test]
fn a_patch_for_an_unknown_item_is_a_no_op() {
    let mut names = TagNames::new();
    let mut items = loaded(&mut names);
    let before = items.all();
    items.path("Ghost:[\"Spooky\"]", &mut names);
    assert_eq!(items.all(), before);
    assert_eq!(items.len(), 2);
    assert_eq!(items.with_tag(&Tag(hash_text("Spooky"))), None);
    let mut tags = Tags::default();
    tags.insert(Tag(5));
    items.add_tags(&ItemID::from("Ghost"), &tags);
    assert_eq!(items.len(), 2);
    assert_eq!(items.with_tag(&Tag(5)), None);
    items.add_tags(&ItemID::from("App"), &tags);
    assert_eq!(items.with_tag(&Tag(5)), Some(vec![ItemID::from("App")]));
}

#[test]
fn discovery_is_idempotent() {
    let mut names = TagNames::new();
    let mut items = loaded(&mut names);
    let bevy = ItemID::from("Bevy");
    let ghost = ItemID::from("Ghost");
    assert!(!items.is_found(bevy));
    assert!(items.discover(bevy));
    assert!(!items.discover(bevy));
    assert!(items.discover(ghost));
    assert!(items.is_found(bevy));
    assert_eq!(items.found(), vec![bevy, ghost]);
    assert_eq!(items.save_found(), "[\nBevy\nDebug_Item\n]");
}

#[test]
fn the_found_file_is_read_back() {
    let bevy = ItemID::from("Bevy");
    let game = ItemID::from("Totally a game");
    assert_eq!(load_found("[\nBevy\nTotally_a_game\n]"), vec![bevy, game]);
    assert_eq!(load_found("[Bevy]"), vec![bevy]);
    assert_eq!(load_found("  [ Bevy \r\n\r\n  Totally_a_game ]  \n"), vec![bevy, game]);
    assert_eq!(load_found(""), Vec::<ItemID>::new());
    assert_eq!(load_found("[\n]"), Vec::<ItemID>::new());
    assert_eq!(load_found("[\nDebug_Item\n]"), vec![ItemID::from("Debug Item")]);
    let items = Items::new(fallback(), load_found("[\nBevy\nbevy\nApp\nBevy\n]"));
    assert_eq!(items.found(), vec![bevy, ItemID::from("App")]);
    assert_eq!(items.save_found(), "[\nDebug_Item\nDebug_Item\n]");
    assert_eq!(Items::new(fallback(), Vec::new()).save_found(), "[\n]");
}

#[test]
fn spawning_discovers_and_announces_once() {
    let mut names = TagNames::new();
    let mut items = loaded(&mut names);
    let bevy = ItemID::from("Bevy");
    let app = ItemID::from("App");
    let events: Vec<ItemEvent<u32, (i32, i32)>> = vec![
        ItemEvent::Spawn(bevy),
        ItemEvent::ToolTip(app),
        ItemEvent::SpawnAt(bevy, (1, 2)),
        ItemEvent::Found(app),
        ItemEvent::Drop,
        ItemEvent::SpawnAt(app, (0, 0)),
        ItemEvent::Spawned(4),
    ];
    assert_eq!(found_update(&mut items, &events), vec![bevy, app]);
    assert_eq!(found_update(&mut items, &events), Vec::<ItemID>::new());
    assert_eq!(items.found(), vec![bevy, app]);
    assert_eq!(events[0].spawned_item(), Some(bevy));
    assert_eq!(events[1].spawned_item(), None);
}

#[test]
fn picking_up_and_dropping() {
    let pickup: Vec<ItemEvent<u32, ()>> = vec![ItemEvent::Pickup(3), ItemEvent::Pickup(4)];
    let (held, dropped) = set_selected(&Seleced(None), &pickup);
    assert_eq!(held.0, Some(4));
    assert_eq!(dropped, None);
    let drop: Vec<ItemEvent<u32, ()>> = vec![ItemEvent::Drop];
    let (held, dropped) = set_selected(&Seleced(Some(4)), &drop);
    assert_eq!(held.0, None);
    assert_eq!(dropped, Some(4));
    let (held, dropped) = set_selected(&Seleced(None), &drop);
    assert_eq!(held.0, None);
    assert_eq!(dropped, None);
    let both: Vec<ItemEvent<u32, ()>> =
        vec![ItemEvent::Drop, ItemEvent::Pickup(9), ItemEvent::CheckCombine(1, 2)];
    let (held, dropped) = set_selected(&Seleced(Some(4)), &both);
    assert_eq!(held.0, Some(9));
    assert_eq!(dropped, Some(4));
    let both: Vec<ItemEvent<u32, ()>> = vec![ItemEvent::Pickup(9), ItemEvent::Drop];
    let (held, dropped) = set_selected(&Seleced(Some(4)), &both);
    assert_eq!(held.0, None);
    assert_eq!(dropped, Some(4));
    let (held, dropped) = set_selected(&Seleced(None), &both);
    assert_eq!(held.0, Some(9));
    assert_eq!(dropped, None);
    let none: Vec<ItemEvent<u32, ()>> = Vec::new();
    let (held, dropped) = set_selected(&Seleced(Some(1)), &none);
    assert_eq!(held.0, Some(1));
    assert_eq!(dropped, None);
}

#[test]
fn files_are_told_apart_by_extension() {
    assert_eq!(file_kind("./assets/items/base.vi").unwrap(), FileKind::Items);
    assert_eq!(file_kind("patch.vp").unwrap(), FileKind::Patch);
    assert_eq!(file_kind("./assets/recipies/meta.vr").unwrap(), FileKind::Recipies);
    assert!(matches!(file_kind("./assets/icon.png"), Err(GameError::WrongExtenshion(e)) if e == "png"));
    assert!(matches!(file_kind("./assets.vi/readme"), Err(GameError::WrongExtenshion(e)) if e.is_empty()));
    assert!(matches!(file_kind("a.vi.bak"), Err(GameError::WrongExtenshion(e)) if e == "bak"));
    assert!(matches!(file_kind("a.VI"), Err(GameError::WrongExtenshion(e)) if e == "VI"));
    assert!(matches!(file_kind(""), Err(GameError::WrongExtenshion(e)) if e.is_empty()));
}

#[test]
fn asset_directories_are_seen_from_the_asset_root() {
    assert_eq!(asset_dir("./assets/items/base.vi"), "items");
    assert_eq!(asset_dir("./assets/base.vi"), "");
    assert_eq!(asset_dir("./assets/a/b/base.vi"), "a/b");
    assert_eq!(asset_dir("./assetsmore/base.vi"), "./assetsmore");
    assert_eq!(asset_dir("mods/base.vi"), "mods");
    assert_eq!(asset_dir("base.vi"), "");
    let dir: Vec<char> = "items".chars().collect();
    let rel: Vec<char> = "icons/a.png".chars().collect();
    assert_eq!(join(&dir, &rel).iter().collect::<String>(), "items/icons/a.png");
    assert_eq!(join(&Vec::new(), &rel).iter().collect::<String>(), "icons/a.png");
}

#[test]
fn fields_are_split_on_the_first_colon_and_the_last_one_wins() {
    let record: Vec<char> = " key : a:b \nother\n key: second\nempty:\n:value".chars().collect();
    let fields = parse_fields(&record);
    let seen: Vec<(String, String)> =
        fields.iter().map(|(k, v)| (k.iter().collect(), v.iter().collect())).collect();
    assert_eq!(
        seen,
        vec![
            ("key".to_string(), "a:b".to_string()),
            ("key".to_string(), "second".to_string()),
            ("empty".to_string(), "".to_string()),
            ("".to_string(), "value".to_string()),
        ]
    );
    assert_eq!(unwrap_or_404(&fields, "key").unwrap(), "second");
    assert_eq!(unwrap_or_404(&fields, "").unwrap(), "value");
    assert!(matches!(unwrap_or_404(&fields, "other"), Err(GameError::FieldNotFound(f)) if f == "other"));
    assert!(matches!(unwrap_or_string(&fields, "key"), Err(GameError::RonSpannedError(_))));
    assert!(matches!(unwrap_or_string(&fields, "none"), Err(GameError::FieldNotFound(f)) if f == "none"));
    let record: Vec<char> = "text: \"a \\\"quoted\\\" \\u{e9}\"".chars().collect();
    assert_eq!(unwrap_or_string(&parse_fields(&record), "text").unwrap(), "a \"quoted\" é");
}
