use void_a_nomicon::error::GameError;
use void_a_nomicon::item::tags::Tags;
use void_a_nomicon::item::{ItemData, ItemEvent, ItemID, Items};
use void_a_nomicon::number::{digit_of, parse_u16, parse_u64, push_hex};
use void_a_nomicon::serde::{
    extract_item, first_step, is_too_short, load_path, next_step, save_name, SaveStep,
};
use void_a_nomicon::story::{
    count_bevys, load_story, spawn_time, spawn_void, update_flags, BevyCount, StoryEvent,
    StoryFlags,
};
use void_a_nomicon::text::{
    chars_of, find_char, find_text, is_space, matches_at, replace, slice_of, split, split_text,
    string_of, trim,
};
use void_a_nomicon::ui::{ToolTipText, UiIcons};

fn chars(s: &str) -> Vec<char> {
    s.chars().collect()
}

fn text(v: &Vec<char>) -> String {
    v.iter().collect()
}

#[test]
fn whitespace_is_what_std_says() {
    let mut c = 0u32;
    while c <= 0x10FFFF {
        if let Some(ch) = char::from_u32(c) {
            assert_eq!(is_space(ch), ch.is_whitespace(), "U+{:04X}", c);
        }
        c += 1;
    }
}

#[test]
fn trimming() {
    assert_eq!(text(&trim(&chars("  a b \t\r\n"))), "a b");
    assert_eq!(text(&trim(&chars("\u{3000}x\u{a0}"))), "x");
    assert_eq!(text(&trim(&chars("   "))), "");
    assert_eq!(text(&trim(&chars(""))), "");
    assert_eq!(text(&trim(&chars("x"))), "x");
    for s in ["", " ", " a", "a ", "  a  b  ", "\n\n", "é \u{2003}"] {
        assert_eq!(text(&trim(&chars(s))), s.trim());
    }
}

#[test]
fn splitting_on_a_character() {
    let parts = |s: &str| split(&chars(s), '\n').iter().map(text).collect::<Vec<_>>();
    assert_eq!(parts("a\nb\n\nc"), vec!["a", "b", "", "c"]);
    assert_eq!(parts(""), vec![""]);
    assert_eq!(parts("\n"), vec!["", ""]);
    assert_eq!(parts("abc"), vec!["abc"]);
    for s in ["", "\n", "a\n", "\na", "a\nb\nc\n\n", "no breaks"] {
        assert_eq!(parts(s), s.split('\n').collect::<Vec<_>>());
    }
}

#[test]
fn splitting_on_a_text() {
    let next = chars("{next}");
    let parts = |s: &str| split_text(&chars(s), &next).iter().map(text).collect::<Vec<_>>();
    assert_eq!(parts("a{next}b"), vec!["a", "b"]);
    assert_eq!(parts("{next}"), vec!["", ""]);
    assert_eq!(parts("{next}{next}x{nex}{next"), vec!["", "", "x{nex}{next"]);
    assert_eq!(parts(""), vec![""]);
    for s in ["", "a", "{next}a{next}", "{{next}}", "{next{next}", "{n{next}ext}"] {
        assert_eq!(parts(s), s.split("{next}").collect::<Vec<_>>());
    }
    let aa = chars("aa");
    let parts = split_text(&chars("aaaXaa"), &aa).iter().map(text).collect::<Vec<_>>();
    assert_eq!(parts, "aaaXaa".split("aa").collect::<Vec<_>>());
}

#[test]
fn finding_and_slicing() {
    let v = chars("hello world");
    assert_eq!(find_char(&v, 0, 'o'), 4);
    assert_eq!(find_char(&v, 5, 'o'), 7);
    assert_eq!(find_char(&v, 8, 'o'), 11);
    assert_eq!(find_text(&v, 0, &chars("lo")), 3);
    assert_eq!(find_text(&v, 4, &chars("lo")), 11);
    assert_eq!(find_text(&v, 0, &chars("world")), 6);
    assert!(matches_at(&v, 6, &chars("world")));
    assert!(!matches_at(&v, 7, &chars("world")));
    assert!(matches_at(&v, 11, &chars("")));
    assert_eq!(text(&slice_of(&v, 6, 11)), "world");
    assert_eq!(text(&replace(&v, 'o', '0')), "hell0 w0rld");
    assert_eq!(chars_of("héllo"), chars("héllo"));
    assert_eq!(string_of(&chars("héllo")), "héllo");
}

#[test]
fn reading_numbers() {
    assert_eq!(parse_u64(&chars("0"), 10), Some(0));
    assert_eq!(parse_u64(&chars("+42"), 10), Some(42));
    assert_eq!(parse_u64(&chars("18446744073709551615"), 10), Some(u64::MAX));
    assert_eq!(parse_u64(&chars("18446744073709551616"), 10), None);
    assert_eq!(parse_u64(&chars("99999999999999999999"), 10), None);
    assert_eq!(parse_u64(&chars(""), 10), None);
    assert_eq!(parse_u64(&chars("+"), 10), None);
    assert_eq!(parse_u64(&chars("-1"), 10), None);
    assert_eq!(parse_u64(&chars("++1"), 10), None);
    assert_eq!(parse_u64(&chars("1a"), 10), None);
    assert_eq!(parse_u64(&chars("1a"), 16), Some(26));
    assert_eq!(parse_u64(&chars("fF"), 16), Some(255));
    assert_eq!(parse_u64(&chars("g"), 16), None);
    assert_eq!(parse_u64(&chars("١"), 10), None);
    assert_eq!(parse_u16(&chars("65535")), Some(65535));
    assert_eq!(parse_u16(&chars("65536")), None);
    assert_eq!(parse_u16(&chars("007")), Some(7));
    assert_eq!(digit_of('7', 10), Some(7));
    assert_eq!(digit_of('a', 10), None);
    assert_eq!(digit_of('a', 16), Some(10));
    assert_eq!(digit_of('F', 16), Some(15));
    for s in ["", "+", "0", "+0", "12", "4294967296", "18446744073709551615", "18446744073709551616", "1_0", " 1", "0x1"] {
        assert_eq!(parse_u64(&chars(s), 10), s.parse::<u64>().ok(), "{:?}", s);
        assert_eq!(parse_u64(&chars(s), 16), u64::from_str_radix(s, 16).ok(), "{:?}", s);
        assert_eq!(parse_u16(&chars(s)), s.parse::<u16>().ok(), "{:?}", s);
    }
}

#[test]
fn writing_hexadecimal() {
    let mut out = chars("0x");
    push_hex(&mut out, 0x1A2B);
    assert_eq!(text(&out), "0x1A2B");
    let mut out = Vec::new();
    push_hex(&mut out, 0);
    assert_eq!(text(&out), "0");
    for v in [1u64, 15, 16, 255, 256, 0xDEADBEEF, u64::MAX] {
        let mut out = Vec::new();
        push_hex(&mut out, v);
        assert_eq!(text(&out), format!("{:X}", v));
        assert_eq!(parse_u64(&out, 16), Some(v));
    }
}

#[test]
fn a_line_of_the_board_file() {
    let (id, x, y) = extract_item("Totally_a_game:[12.5, -3]").unwrap();
    assert_eq!(id, ItemID::from("Totally a game"));
    assert_eq!(x, "12.5");
    assert_eq!(y, "-3");
    assert_eq!(x.parse::<f32>().unwrap(), 12.5);
    assert_eq!(y.parse::<f32>().unwrap(), -3.0);
    let (id, x, y) = extract_item(" Be vy : [ 1 , 2 , 3 ] trailing").unwrap();
    assert_eq!(id, ItemID::from("Bevy"));
    assert_eq!(x, "1");
    assert_eq!(y, "2,3".replace(',', ""));
    let (id, x, y) = extract_item("NoCoordinates").unwrap();
    assert_eq!(id, ItemID::from("NoCoordinates"));
    assert_eq!((x.as_str(), y.as_str()), ("", ""));
    let (_, x, y) = extract_item("A:[1").unwrap();
    assert_eq!((x.as_str(), y.as_str()), ("1", ""));
    let (_, x, y) = extract_item("A: ]").unwrap();
    assert_eq!((x.as_str(), y.as_str()), ("", ""));
    assert!(matches!(extract_item("Bevy:1,2]"), Err(GameError::WrongChar('1', '['))));
    assert!(matches!(extract_item("Bevy: x[1,2]"), Err(GameError::WrongChar('x', '['))));
    assert!(matches!(extract_item("Bevy:,"), Err(GameError::WrongChar(',', '['))));
}

#[test]
fn the_lines_of_the_board_file() {
    let said = load_path("Bevy:[1, 2]\n\nA:[]\nApp:[3.5,4]\nGame:x[1,2]\nééé\n");
    assert_eq!(said.len(), 4);
    assert_eq!(said[0].as_ref().unwrap(), &(ItemID::from("Bevy"), "1".to_string(), "2".to_string()));
    assert_eq!(said[1].as_ref().unwrap(), &(ItemID::from("App"), "3.5".to_string(), "4".to_string()));
    assert!(matches!(said[2], Err(GameError::WrongChar('x', '['))));
    assert_eq!(said[3].as_ref().unwrap(), &(ItemID::from("ééé"), String::new(), String::new()));
    assert!(is_too_short(&chars("A:[1]")));
    assert!(!is_too_short(&chars("A:[12]")));
    assert!(is_too_short(&chars("éé")));
    assert!(!is_too_short(&chars("ééé")));
    assert!(!is_too_short(&chars("€€")));
    assert!(is_too_short(&chars("😀")));
    assert!(!is_too_short(&chars("😀ab")));
    for s in ["", "a", "ab:[]", "abc:[]", "éa:[", "😀😀", "€€a"] {
        assert_eq!(is_too_short(&chars(s)), s.len() < 6, "{:?}", s);
    }
}

fn fallback() -> ItemData {
    ItemData {
        name: "Debug Item".to_string(),
        description: String::new(),
        icon: "ui/skull_01.png".to_string(),
        tags: Tags::default(),
        sound: "sounds/pop.wav".to_string(),
    }
}

#[test]
fn some_items_are_not_saved() {
    let mut items = Items::new(fallback(), Vec::new());
    let mut names = void_a_nomicon::item::tags::TagNames::new();
    items.load("name: \"Old Bevy\"{next}name: \"Trash\"", "", &mut names);
    assert_eq!(save_name(&items, &ItemID::from("old bevy")), Some("Old_Bevy".to_string()));
    assert_eq!(save_name(&items, &ItemID::from("Trash")), None);
    assert_eq!(save_name(&items, &ItemID::from("Totally a game")), None);
    assert_eq!(save_name(&items, &ItemID::from("Debug Item")), None);
    assert_eq!(save_name(&items, &ItemID::from("Unknown")), Some("Debug_Item".to_string()));
}

#[test]
fn the_steps_of_saving() {
    assert_eq!(first_step(), SaveStep::CheckLive);
    let run = |outcomes: &[bool]| {
        let mut step = first_step();
        let mut steps = vec![step];
        for &o in outcomes {
            step = next_step(step, o);
            steps.push(step);
        }
        steps
    };
    assert_eq!(
        run(&[true, true, true]),
        vec![SaveStep::CheckLive, SaveStep::MoveAside, SaveStep::Write, SaveStep::Done(true)]
    );
    assert_eq!(run(&[false, true]), vec![SaveStep::CheckLive, SaveStep::Write, SaveStep::Done(true)]);
    assert_eq!(
        run(&[true, true, false, true, true]),
        vec![
            SaveStep::CheckLive,
            SaveStep::MoveAside,
            SaveStep::Write,
            SaveStep::CheckOld,
            SaveStep::Restore,
            SaveStep::Done(false)
        ]
    );
    assert_eq!(
        run(&[false, false, false]),
        vec![SaveStep::CheckLive, SaveStep::Write, SaveStep::CheckOld, SaveStep::Done(false)]
    );
    assert_eq!(run(&[true, false]), vec![SaveStep::CheckLive, SaveStep::MoveAside, SaveStep::Done(false)]);
    assert_eq!(next_step(SaveStep::Done(true), false), SaveStep::Done(true));
    assert_eq!(next_step(SaveStep::Restore, false), SaveStep::Done(false));
}

#[test]
fn the_story_follows_what_is_spawned() {
    let mut flags = StoryFlags::default();
    assert_eq!(flags, StoryFlags { unlocked_app: false, has_trash: false, has_items_space: false });
    assert_eq!(load_story(&flags), Vec::<StoryEvent>::new());
    let quiet: Vec<ItemEvent<u32, ()>> =
        vec![ItemEvent::Spawn(ItemID::from("Bevy")), ItemEvent::ToolTip(ItemID::from("Trash")), ItemEvent::Drop];
    assert_eq!(update_flags(&mut flags, &quiet), (false, false));
    assert_eq!(flags, StoryFlags::default());
    let events: Vec<ItemEvent<u32, ()>> = vec![
        ItemEvent::Spawn(ItemID::from("trash")),
        ItemEvent::SpawnAt(ItemID::from("Item_Space"), ()),
        ItemEvent::SpawnAt(ItemID::from("Item Space"), ()),
    ];
    assert_eq!(update_flags(&mut flags, &events), (true, true));
    assert_eq!(flags, StoryFlags { unlocked_app: false, has_trash: true, has_items_space: true });
    assert_eq!(update_flags(&mut flags, &events), (false, false));
    let game: Vec<ItemEvent<u32, ()>> = vec![ItemEvent::Spawn(ItemID::from("Totally a game"))];
    assert_eq!(update_flags(&mut flags, &game), (true, false));
    assert_eq!(flags, StoryFlags { unlocked_app: true, has_trash: true, has_items_space: true });
    assert_eq!(
        load_story(&flags),
        vec![StoryEvent::SpawnTrash, StoryEvent::SpawnApp, StoryEvent::SpawnItemSpace]
    );
    assert_eq!(
        load_story(&StoryFlags { unlocked_app: true, has_trash: false, has_items_space: false }),
        vec![StoryEvent::SpawnApp]
    );
}

#[test]
fn bevys_and_voids_are_counted() {
    let bevy = ItemID::from("Bevy");
    let void = ItemID::from("Void");
    let mut count = BevyCount(2);
    let events: Vec<ItemEvent<u32, ()>> = vec![
        ItemEvent::Spawn(bevy),
        ItemEvent::Found(bevy),
        ItemEvent::SpawnAt(bevy, ()),
        ItemEvent::Spawn(void),
    ];
    count_bevys(&mut count, &events);
    assert_eq!(count.0, 4);
    assert_eq!(spawn_void(&vec![]), Some(void));
    assert_eq!(spawn_void(&vec![void, bevy, void, void, void]), Some(void));
    assert_eq!(spawn_void(&vec![void, void, void, void, void]), None);
    assert_eq!(spawn_void(&vec![void, void, void, bevy, void, void, void]), None);
    assert_eq!(spawn_time(), ItemID::from("Time"));
}

#[test]
fn icons_by_name() {
    let mut icons = UiIcons::new("missing.png".to_string());
    assert_eq!(icons.get("item_frame"), "missing.png");
    icons.load("item_frame", "ui/frame.png");
    icons.load("other", "ui/other.png");
    assert_eq!(icons.get("item_frame"), "ui/frame.png");
    icons.load("item_frame", "ui/frame2.png");
    assert_eq!(icons.get("item_frame"), "ui/frame2.png");
    assert_eq!(icons.get("other"), "ui/other.png");
    assert_eq!(icons.get("Item_Frame"), "missing.png");
}

#[test]
fn the_texts_of_a_tooltip() {
    let items = Items::new(
        ItemData {
            name: "Debug Item".to_string(),
            description: "what it is".to_string(),
            icon: String::new(),
            tags: Tags::default(),
            sound: String::new(),
        },
        Vec::new(),
    );
    let shown = items.get(&ItemID::from("anything"));
    assert_eq!(ToolTipText::Name.text_of(&shown), "Debug Item");
    assert_eq!(ToolTipText::Description.text_of(&shown), "what it is");
    assert_eq!(ToolTipText::Name.section(), 1);
    assert_eq!(ToolTipText::Description.section(), 0);
}
