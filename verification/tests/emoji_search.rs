use emojoy::emoji::{score_entry, EmojiDatabase, EmojiEntry, LoadError, SearchResult};
use emojoy::ranking::sort_by_score;
use emojoy::str_map::StrMap;
use emojoy::usage::UsageStats;

fn test_db() -> EmojiDatabase {
    EmojiDatabase::from_entries(vec![
        EmojiEntry {
            emoji: "😀".to_string(),
            name: "grinning face".to_string(),
            tags: vec![
                "grinning_face".to_string(),
                "face".to_string(),
                "smile".to_string(),
                "happy".to_string(),
            ],
        },
        EmojiEntry {
            emoji: "😂".to_string(),
            name: "face with tears of joy".to_string(),
            tags: vec![
                "face_with_tears_of_joy".to_string(),
                "face".to_string(),
                "laugh".to_string(),
                "lol".to_string(),
                "haha".to_string(),
            ],
        },
        EmojiEntry {
            emoji: "🔥".to_string(),
            name: "fire".to_string(),
            tags: vec![
                "fire".to_string(),
                "hot".to_string(),
                "flame".to_string(),
                "lit".to_string(),
            ],
        },
        EmojiEntry {
            emoji: "❤️".to_string(),
            name: "red heart".to_string(),
            tags: vec![
                "red_heart".to_string(),
                "love".to_string(),
                "heart".to_string(),
            ],
        },
    ])
}

fn emojis(results: &[SearchResult]) -> Vec<&str> {
    results.iter().map(|r| r.emoji.as_str()).collect()
}

fn scores(results: &[SearchResult]) -> Vec<u32> {
    results.iter().map(|r| r.score).collect()
}

#[test]
fn test_exact_tag_match() {
    let db = test_db();
    let results = db.search("fire", 10, None);
    assert_eq!(results[0].emoji, "🔥");
}

#[test]
fn test_prefix_match() {
    let db = test_db();
    let results = db.search("hap", 10, None);
    assert_eq!(results[0].emoji, "😀");
}

#[test]
fn test_substring_match() {
    let db = test_db();
    let results = db.search("eart", 10, None);
    assert!(!results.is_empty());
    assert_eq!(results[0].emoji, "❤️");
}

#[test]
fn test_no_match() {
    let db = test_db();
    let results = db.search("zzzzz", 10, None);
    assert!(results.is_empty());
}

#[test]
fn test_empty_query_returns_results() {
    let db = test_db();
    let results = db.search("", 10, None);
    assert_eq!(results.len(), 4);
}

#[test]
fn test_multi_term_search() {
    let db = test_db();
    let results = db.search("face smile", 10, None);
    assert_eq!(results[0].emoji, "😀");
}

#[test]
fn test_merge_aliases() {
    let mut db = test_db();
    let mut aliases = StrMap::new();
    aliases.insert("🔥".to_string(), vec!["awesome".to_string()]);
    db.merge_aliases(&aliases);

    let results = db.search("awesome", 10, None);
    assert_eq!(results[0].emoji, "🔥");
}

#[test]
fn test_max_results_limit() {
    let db = test_db();
    let results = db.search("face", 2, None);
    assert_eq!(results.len(), 2);
}

#[test]
fn test_usage_boost_reranks_results() {
    let db = test_db();
    // Without usage, 😀 and 😂 both have "face" at tag index 1 and tie
    let results = db.search("face", 10, None);
    assert_eq!(emojis(&results)[..2], ["😀", "😂"]);
    // Now boost 😂 heavily
    let mut usage = UsageStats::default();
    for _ in 0..30 {
        usage.record("😂");
    }
    let results_with_usage = db.search("face", 10, Some(&usage));
    assert_eq!(results_with_usage[0].emoji, "😂");
}

#[test]
fn test_empty_query_sorted_by_usage() {
    let db = test_db();
    let mut usage = UsageStats::default();
    for _ in 0..20 {
        usage.record("🔥");
    }
    let results = db.search("", 10, Some(&usage));
    assert_eq!(results[0].emoji, "🔥");
}

#[test]
fn exact_prefix_and_inner_matches_score_by_tag_position() {
    let db = test_db();
    assert_eq!(scores(&db.search("fire", 10, None)), vec![0]);
    assert_eq!(scores(&db.search("hot", 10, None)), vec![1]);
    assert_eq!(scores(&db.search("fla", 10, None)), vec![52]);
    assert_eq!(scores(&db.search("ame", 10, None)), vec![102]);
    // "eart" is inside "red heart" (position 0) and "heart" (position 2): the best counts
    assert_eq!(scores(&db.search("eart", 10, None)), vec![100]);
}

#[test]
fn term_scores_add_up() {
    let db = test_db();
    let results = db.search("face smile", 10, None);
    assert_eq!(emojis(&results), vec!["😀"]);
    assert_eq!(scores(&results), vec![3]);
}

#[test]
fn query_is_lowercased_before_matching() {
    let db = test_db();
    let results = db.search("FIRE", 10, None);
    assert_eq!(emojis(&results), vec!["🔥"]);
    assert_eq!(scores(&results), vec![0]);
}

#[test]
fn tags_are_lowercased_before_matching() {
    let db = EmojiDatabase::from_entries(vec![EmojiEntry {
        emoji: "🚀".to_string(),
        name: "rocket".to_string(),
        tags: vec!["Rocket".to_string()],
    }]);
    let results = db.search("rocket", 10, None);
    assert_eq!(scores(&results), vec![0]);
}

#[test]
fn underscores_in_tags_read_as_spaces() {
    let db = test_db();
    // "grinning_face" reads as "grinning face": the term "grinning" is a prefix of it
    let results = db.search("grinning", 10, None);
    assert_eq!(emojis(&results), vec!["😀"]);
    assert_eq!(scores(&results), vec![50]);
    // "red_heart" reads as "red heart", so "d h" would be inside it, but a query is split
    // at whitespace first; "red" alone is a prefix of it
    assert_eq!(scores(&db.search("red", 10, None)), vec![50]);
}

#[test]
fn any_unicode_whitespace_separates_terms() {
    let db = test_db();
    let results = db.search("fire\u{3000}hot", 10, None);
    assert_eq!(scores(&results), vec![1]);
    let results = db.search("  fire\t\nhot  ", 10, None);
    assert_eq!(scores(&results), vec![1]);
}

#[test]
fn every_term_must_match() {
    let db = test_db();
    assert!(db.search("fire love", 10, None).is_empty());
}

#[test]
fn blank_query_matches_everything_at_zero() {
    let db = test_db();
    let results = db.search("   ", 10, None);
    assert_eq!(emojis(&results), vec!["😀", "😂", "🔥", "❤️"]);
    assert_eq!(scores(&results), vec![0, 0, 0, 0]);
}

#[test]
fn browsing_lists_entries_in_order_at_base_score() {
    let db = test_db();
    let results = db.search("", 10, None);
    assert_eq!(emojis(&results), vec!["😀", "😂", "🔥", "❤️"]);
    assert_eq!(scores(&results), vec![100, 100, 100, 100]);
    assert_eq!(results[2].name, "fire");
}

#[test]
fn boost_is_taken_off_the_score() {
    let db = test_db();
    let mut usage = UsageStats::default();
    for _ in 0..3 {
        usage.record("🔥");
    }
    let results = db.search("", 10, Some(&usage));
    assert_eq!(emojis(&results), vec!["🔥", "😀", "😂", "❤️"]);
    assert_eq!(scores(&results), vec![97, 100, 100, 100]);
    // a score never goes below zero
    let results = db.search("fire", 10, Some(&usage));
    assert_eq!(scores(&results), vec![0]);
}

#[test]
fn zero_max_results_gives_nothing() {
    let db = test_db();
    assert!(db.search("", 0, None).is_empty());
}

#[test]
fn results_are_ordered_by_score() {
    let db = test_db();
    let results = db.search("a", 10, None);
    let s = scores(&results);
    let mut sorted = s.clone();
    sorted.sort();
    assert_eq!(s, sorted);
    assert_eq!(results.len(), 4);
}

#[test]
fn merging_twice_adds_nothing_more() {
    let mut db = test_db();
    let mut aliases = StrMap::new();
    aliases.insert("🔥".to_string(), vec!["awesome".to_string(), "hot".to_string(), "awesome".to_string()]);
    db.merge_aliases(&aliases);
    db.merge_aliases(&aliases);
    // "hot" was already a tag, "awesome" comes once, after the old tags (position 4)
    assert_eq!(scores(&db.search("awesome", 10, None)), vec![4]);
    assert_eq!(scores(&db.search("hot", 10, None)), vec![1]);
}

#[test]
fn aliases_of_unknown_emojis_are_ignored() {
    let mut db = test_db();
    let mut aliases = StrMap::new();
    aliases.insert("🐱".to_string(), vec!["cat".to_string()]);
    db.merge_aliases(&aliases);
    assert!(db.search("cat", 10, None).is_empty());
}

#[test]
fn sort_keeps_equal_scores_in_order() {
    let make = |e: &str, s: u32| SearchResult { emoji: e.to_string(), name: String::new(), score: s };
    let sorted = sort_by_score(vec![make("a", 3), make("b", 1), make("c", 3), make("d", 0), make("e", 1)]);
    assert_eq!(emojis(&sorted), vec!["d", "b", "e", "a", "c"]);
}

#[test]
fn json_list_builds_entries_with_names() {
    let db = EmojiDatabase::from_json(r#"{"🔥": ["fire", "hot"], "😀": ["grinning_face", "smile"]}"#).unwrap();
    let results = db.search("", 10, None);
    let mut names: Vec<(String, String)> = results.iter().map(|r| (r.emoji.clone(), r.name.clone())).collect();
    names.sort();
    assert_eq!(
        names,
        vec![("🔥".to_string(), "fire".to_string()), ("😀".to_string(), "grinning face".to_string())]
    );
    assert_eq!(scores(&db.search("smile", 10, None)), vec![1]);
}

#[test]
fn json_entry_without_tags_has_empty_name() {
    let db = EmojiDatabase::from_json(r#"{"🔥": []}"#).unwrap();
    let results = db.search("", 10, None);
    assert_eq!(results.len(), 1);
    assert_eq!(results[0].name, "");
}

#[test]
fn malformed_json_is_refused() {
    assert!(matches!(EmojiDatabase::from_json("{not json"), Err(LoadError::InvalidJson(_))));
    assert!(matches!(EmojiDatabase::from_json(r#"{"🔥": "fire"}"#), Err(LoadError::InvalidJson(_))));
}

#[test]
fn str_map_insert_replaces() {
    let mut m: StrMap<u32> = StrMap::new();
    m.insert("a".to_string(), 1);
    m.insert("b".to_string(), 2);
    m.insert("a".to_string(), 3);
    assert_eq!(m.get("a"), Some(&3));
    assert_eq!(m.get("b"), Some(&2));
    assert_eq!(m.get("c"), None);
    assert_eq!(m.pairs().len(), 2);
}

#[test]
fn largest_tag_count() {
    assert_eq!(test_db().max_tag_count(), 5);
    assert_eq!(EmojiDatabase::from_entries(vec![]).max_tag_count(), 0);
}

#[test]
fn search_with_prepared_terms() {
    let db = test_db();
    let terms = vec!["face".chars().collect::<Vec<char>>(), "lol".chars().collect()];
    let results = db.search_terms(false, &terms, 10, None);
    assert_eq!(emojis(&results), vec!["😂"]);
    assert_eq!(scores(&results), vec![1 + 3]);
    let browse = db.search_terms(true, &vec![], 1, None);
    assert_eq!(emojis(&browse), vec!["😀"]);
}

#[test]
fn score_of_single_entry() {
    let entry = EmojiEntry {
        emoji: "🔥".to_string(),
        name: "fire".to_string(),
        tags: vec!["Fire".to_string(), "hot_stuff".to_string()],
    };
    let terms = |ws: &[&str]| -> Vec<Vec<char>> { ws.iter().map(|w| w.chars().collect()).collect() };
    assert_eq!(score_entry(&entry, &terms(&["fire"])), 0);
    assert_eq!(score_entry(&entry, &terms(&["hot stuff"])), 1);
    assert_eq!(score_entry(&entry, &terms(&["stuff"])), 101);
    assert_eq!(score_entry(&entry, &terms(&["fire", "ho"])), 51);
    assert_eq!(score_entry(&entry, &terms(&["cold"])), u32::MAX);
    assert_eq!(score_entry(&entry, &terms(&[])), 0);
}

#[test]
fn term_order_does_not_change_scores() {
    let db = test_db();
    assert_eq!(scores(&db.search("face smile", 10, None)), scores(&db.search("smile face", 10, None)));
    assert_eq!(scores(&db.search("lol face laugh", 10, None)), scores(&db.search("laugh lol face", 10, None)));
}

#[test]
fn extra_terms_never_improve_scores() {
    let db = test_db();
    assert_eq!(scores(&db.search("face", 10, None)), vec![1, 1]);
    assert_eq!(scores(&db.search("face haha", 10, None)), vec![5]);
}

#[test]
fn added_aliases_never_worsen_scores() {
    let mut db = test_db();
    let before = scores(&db.search("la", 10, None));
    let mut aliases = StrMap::new();
    aliases.insert("😂".to_string(), vec!["lame".to_string()]);
    db.merge_aliases(&aliases);
    assert_eq!(scores(&db.search("la", 10, None)), before);
    assert_eq!(scores(&db.search("lame", 10, None)), vec![5, 102]);
}
