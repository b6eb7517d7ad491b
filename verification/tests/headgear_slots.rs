use idavoll_grf_extractor::archive::{find_entry_path, ACCNAME_LUB_PATH};
use idavoll_grf_extractor::headgear_slots::{
    build_headgear_slots, parse_accname_lub, parse_headgear_items, HeadSlot,
};
use std::collections::HashMap;

#[test]
fn accnames_are_read_in_order_lowercased_and_deduplicated() {
    let mut data: Vec<u8> = Vec::new();
    data.extend_from_slice(b"\x1bLua\x01_RIBBON\0junk\0_GOGGLE_2\0_RIBBON\0_A\0_aB\0_X9\0");
    data.extend_from_slice(b"\x01_SKIP\x02_HAT\0_TAIL");
    let names = parse_accname_lub(&data);
    assert_eq!(names, vec!["ribbon", "goggle_2", "x9", "hat"]);
}

#[test]
fn accnames_need_printable_ascii_runs() {
    let data = b"_SA\xff_KURA\0_BAND\0";
    assert_eq!(parse_accname_lub(data), vec!["kura", "band"]);
    assert!(parse_accname_lub(b"").is_empty());
}

#[test]
fn merge_keeps_agreement_else_mixed() {
    assert_eq!(HeadSlot::Top.merge(HeadSlot::Top), HeadSlot::Top);
    assert_eq!(HeadSlot::Mid.merge(HeadSlot::Low), HeadSlot::Mixed);
    assert_eq!(HeadSlot::Mixed.as_str(), "Head_Top");
    assert_eq!(HeadSlot::Mid.as_str(), "Head_Mid");
    assert_eq!(HeadSlot::Low.as_str(), "Head_Low");
}

const EQUIP_DB: &str = "\
Header:
  Type: ITEM_DB
Body:
  - Id: 2201   # Sunglasses
    AegisName: Sunglasses
    Type: Armor
    Locations:
      Head_Mid: true
    View: 12
  - Id: 2202
    Locations:
      Head_Top: true
      # a comment inside the block
      Head_Mid: true
    Refineable: true
    View: 12 # shared view
  - Id: 2203
    Locations:
      Head_Low: true
    View: 0
  - Id: 2204
    Locations:
      Armor: true
    View: 5
  - Id: +2205\r
    Locations:
      Head_Top: true\r
    View: 3\r
  - Id: 2206
    View: 3
    Locations:
      Head_Top: true
  - Id: bad
    Locations:
      Head_Top: true
    View: 4
";

#[test]
fn headgear_items_are_grouped_by_view() {
    let map = parse_headgear_items(EQUIP_DB);
    let mut keys: Vec<u32> = map.keys().copied().collect();
    keys.sort();
    assert_eq!(keys, vec![3, 12]);
    assert_eq!(map[&12], vec![(2201, HeadSlot::Mid), (2202, HeadSlot::Mixed)]);
    assert_eq!(map[&3], vec![(2205, HeadSlot::Top), (2206, HeadSlot::Top)]);
}

#[test]
fn empty_db_gives_empty_map() {
    assert!(parse_headgear_items("").is_empty());
    assert!(parse_headgear_items("  - Id: 1\n").is_empty());
}

#[test]
fn slots_join_accnames_with_items() {
    let accnames: Vec<String> = vec!["ribbon".into(), "goggle".into(), "hat".into(), "band".into()];
    let mut map: HashMap<u32, Vec<(u32, HeadSlot)>> = HashMap::new();
    map.insert(4, vec![(30, HeadSlot::Low), (10, HeadSlot::Low), (20, HeadSlot::Low)]);
    map.insert(2, vec![(7, HeadSlot::Top), (5, HeadSlot::Mid)]);
    map.insert(9, vec![(1, HeadSlot::Top)]);
    let entries = build_headgear_slots(&accnames, &map);
    assert_eq!(entries.len(), 2);
    assert_eq!(entries[0].view, 2);
    assert_eq!(entries[0].slot, "Head_Top");
    assert_eq!(entries[0].accname, "goggle");
    assert_eq!(entries[0].items, vec![5, 7]);
    assert_eq!(entries[1].view, 4);
    assert_eq!(entries[1].slot, "Head_Low");
    assert_eq!(entries[1].accname, "band");
    assert_eq!(entries[1].items, vec![10, 20, 30]);
}

#[test]
fn slot_of_a_view_without_items_is_top() {
    let accnames: Vec<String> = vec!["cap".into()];
    let mut map: HashMap<u32, Vec<(u32, HeadSlot)>> = HashMap::new();
    map.insert(1, vec![]);
    let entries = build_headgear_slots(&accnames, &map);
    assert_eq!(entries.len(), 1);
    assert_eq!(entries[0].slot, "Head_Top");
    assert!(entries[0].items.is_empty());
}

#[test]
fn entries_are_found_ignoring_ascii_case() {
    let paths = vec![
        "data\\other.txt".to_string(),
        "DATA\\LuaFiles514\\Lua Files\\DataInfo\\AccName_Eng.lub".to_string(),
        "data\\luafiles514\\lua files\\datainfo\\accname_eng.lub".to_string(),
    ];
    assert_eq!(find_entry_path(&paths, ACCNAME_LUB_PATH), Some(1));
    assert_eq!(find_entry_path(&paths[..1], ACCNAME_LUB_PATH), None);
}

#[test]
fn merge_is_commutative_and_mixed_absorbs() {
    let all = [HeadSlot::Top, HeadSlot::Mid, HeadSlot::Low, HeadSlot::Mixed];
    for a in all {
        assert_eq!(a.merge(a), a);
        assert_eq!(a.merge(HeadSlot::Mixed), HeadSlot::Mixed);
        for b in all {
            assert_eq!(a.merge(b), b.merge(a));
        }
    }
}

#[test]
fn number_fields_follow_u32_parsing() {
    let db = "\
- Id: 4294967295
  Locations:
    Head_Low: true
  View:0012
- Id: 4294967296
  Locations:
    Head_Low: true
  View: 7
- Id: -5
  Locations:
    Head_Low: true
  View: 8
- Id: +
  Locations:
    Head_Low: true
  View: 9
- Id: 00042 #x
  Locations:
    Head_Mid: yes
  View: 65536#comment
";
    let map = parse_headgear_items(db);
    let mut keys: Vec<u32> = map.keys().copied().collect();
    keys.sort();
    assert_eq!(keys, vec![12, 65536]);
    assert_eq!(map[&12], vec![(4294967295, HeadSlot::Low)]);
    assert_eq!(map[&65536], vec![(42, HeadSlot::Mid)]);
}

#[test]
fn location_block_ends_at_other_keys() {
    let db = "- Id: 1\n  Locations:\n    Armor: true\n    Head_Top: true\n  View: 2\n";
    assert!(parse_headgear_items(db).is_empty());
    let db2 = "- Id: 1\n  Locations:\n\n    # note\n    Head_Top: true\n  View: 2\n";
    assert_eq!(parse_headgear_items(db2)[&2], vec![(1, HeadSlot::Top)]);
}
