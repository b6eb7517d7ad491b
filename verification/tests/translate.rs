use idavoll_grf_extractor::translate::{dictionary, format_miss_log, split_ext, toml_key, Translator};

fn dict(pairs: &[(&str, &str)]) -> Translator {
    Translator::new(
        dictionary(&pairs.iter().map(|(k, v)| (k.to_string(), v.to_string())).collect()),
        dictionary(&Vec::new()),
    )
}

fn dicts(known: &[(&str, &str)], rathena: &[(&str, &str)]) -> Translator {
    Translator::new(
        dictionary(&known.iter().map(|(k, v)| (k.to_string(), v.to_string())).collect()),
        dictionary(&rathena.iter().map(|(k, v)| (k.to_string(), v.to_string())).collect()),
    )
}

fn chars(s: &str) -> Vec<char> {
    s.chars().collect()
}

#[test]
fn readme_path_is_translated_segment_by_segment() {
    let mut t = dict(&[("인간족", "human"), ("몸통", "body"), ("남", "male")]);
    let out = t.translate_path("data\\sprite\\인간족\\몸통\\남\\novice_남.spr");
    assert_eq!(out, "data/sprite/human/body/male/novice_male.spr");
    assert!(t.misses().is_empty());
}

#[test]
fn ascii_path_only_changes_separators() {
    let mut t = dict(&[]);
    assert_eq!(t.translate_path("data\\texture\\effect\\ring.bmp"), "data/texture/effect/ring.bmp");
    assert_eq!(t.translate_path("plain.txt"), "plain.txt");
    assert_eq!(t.translate_path(""), "");
    assert_eq!(t.translate_path("a\\\\b\\"), "a//b/");
    assert!(t.misses().is_empty());
}

#[test]
fn known_dictionary_wins_over_rathena() {
    let mut t = dicts(&[("검", "sword")], &[("검", "blade"), ("방패", "shield")]);
    assert_eq!(t.translate_path("검\\방패"), "sword/shield");
}

#[test]
fn base_without_extension_is_looked_up() {
    let mut t = dicts(&[], &[("요정의날개", "fairy_wing")]);
    assert_eq!(t.translate_path("robe\\요정의날개.act"), "robe/fairy_wing.act");
    assert!(t.misses().is_empty());
}

#[test]
fn whole_segment_with_extension_is_looked_up_first() {
    let mut t = dict(&[("지도.gat", "map_file"), ("지도", "map")]);
    assert_eq!(t.translate_path("지도.gat"), "map_file");
}

#[test]
fn untranslated_tokens_are_kept_and_logged_once_in_order() {
    let mut t = dict(&[("남", "male")]);
    let out = t.translate_path("sprite\\요정의파란날개_남.spr");
    assert_eq!(out, "sprite/요정의파란날개_male.spr");
    let out2 = t.translate_path("검의날개\\요정의파란날개_여_x.act");
    assert_eq!(out2, "검의날개/요정의파란날개_여_x.act");
    assert_eq!(t.misses(), vec!["검의날개".to_string(), "여".to_string(), "요정의파란날개".to_string()]);
}

#[test]
fn dotted_names_split_at_the_last_dot() {
    let (b, e) = split_ext(&chars("a.b.spr"));
    assert_eq!(b, chars("a.b"));
    assert_eq!(e, chars(".spr"));
    let (b, e) = split_ext(&chars("noext"));
    assert_eq!(b, chars("noext"));
    assert!(e.is_empty());
    let (b, e) = split_ext(&chars(".hidden"));
    assert!(b.is_empty());
    assert_eq!(e, chars(".hidden"));
}

#[test]
fn a_dot_only_extension_keeps_tokens() {
    let mut t = dict(&[("남", "male")]);
    assert_eq!(t.translate_path("남_남."), "male_male.");
}

#[test]
fn miss_log_is_empty_without_misses() {
    assert_eq!(format_miss_log(&[]), "");
}

#[test]
fn miss_log_readme_example() {
    let misses = vec!["요정의파란날개".to_string(), "검의날개".to_string()];
    let log = format_miss_log(&misses);
    assert_eq!(
        log,
        "# Translation misses — fill in the English values and move entries to translations.toml\n\
         [known]\n\
         \"검의날개\" = \"\"\n\
         \"요정의파란날개\" = \"\"\n"
    );
}

#[test]
fn miss_log_sorts_deduplicates_and_escapes() {
    let misses = vec!["b".to_string(), "a\"q".to_string(), "b".to_string(), "c\\d".to_string()];
    let log = format_miss_log(&misses);
    let expected = String::from(
        "# Translation misses — fill in the English values and move entries to translations.toml\n[known]\n",
    ) + "\"a\\\"q\" = \"\"\n\"b\" = \"\"\n\"c\\\\d\" = \"\"\n";
    assert_eq!(log, expected);
}

#[test]
fn miss_log_of_translator_misses() {
    let mut t = dict(&[]);
    t.translate_path("나\\가");
    let log = format_miss_log(&t.misses());
    assert!(log.ends_with("[known]\n\"가\" = \"\"\n\"나\" = \"\"\n"));
}

#[test]
fn later_dictionary_pairs_replace_earlier_ones() {
    let mut t = dict(&[("남", "man"), ("남", "male")]);
    assert_eq!(t.translate_path("남"), "male");
}

#[test]
fn tokens_with_ascii_parts_keep_them() {
    let mut t = dict(&[("여", "female")]);
    assert_eq!(t.translate_path("a_여__b.spr"), "a_female__b.spr");
    assert!(t.misses().is_empty());
}

#[test]
fn toml_key_quotes_and_escapes() {
    assert_eq!(toml_key("남"), "\"남\"");
    assert_eq!(toml_key("a\"b\\c"), "\"a\\\"b\\\\c\"");
    assert_eq!(toml_key(""), "\"\"");
}

#[test]
fn miss_log_reads_back_as_toml_keys_with_empty_values() {
    let misses = vec![
        "검의날개".to_string(),
        "따옴\"표".to_string(),
        "역\\슬래시".to_string(),
        "검의날개".to_string(),
    ];
    let log = format_miss_log(&misses);
    let table: toml::Table = toml::from_str(&log).unwrap();
    let known = table["known"].as_table().unwrap();
    let mut keys: Vec<&String> = known.keys().collect();
    keys.sort();
    assert_eq!(keys, vec!["검의날개", "따옴\"표", "역\\슬래시"]);
    for v in known.values() {
        assert_eq!(v.as_str(), Some(""));
    }
}

#[test]
fn misses_over_a_sequence_of_paths_are_their_union() {
    let mut t = dict(&[("남", "male")]);
    t.translate_path("가\\남_나.spr");
    let first = t.misses();
    assert_eq!(first, vec!["가".to_string(), "나".to_string()]);
    t.translate_path("data\\ascii_only");
    assert_eq!(t.misses(), first);
    t.translate_path("다_가\\라.act");
    let all = t.misses();
    assert_eq!(all, vec!["가".to_string(), "나".to_string(), "다".to_string(), "라".to_string()]);
    for m in &all {
        assert!(!m.is_ascii() && !m.contains('_') && !m.contains('\\'));
    }
}
