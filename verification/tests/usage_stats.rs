use emojoy::str_map::StrMap;
use emojoy::usage::UsageStats;

#[test]
fn test_record_and_boost() {
    let mut stats = UsageStats::default();
    assert_eq!(stats.boost("🔥"), 0);

    stats.record("🔥");
    stats.record("🔥");
    stats.record("🔥");
    assert_eq!(stats.boost("🔥"), 3);
}

#[test]
fn test_boost_caps_at_50() {
    let mut stats = UsageStats::default();
    for _ in 0..100 {
        stats.record("😂");
    }
    assert_eq!(stats.boost("😂"), 50);
}

#[test]
fn test_unknown_emoji_zero_boost() {
    let stats = UsageStats::default();
    assert_eq!(stats.boost("🤷"), 0);
}

#[test]
fn recording_one_emoji_leaves_others() {
    let mut stats = UsageStats::default();
    stats.record("🔥");
    stats.record("😂");
    stats.record("🔥");
    assert_eq!(stats.boost("🔥"), 2);
    assert_eq!(stats.boost("😂"), 1);
    assert_eq!(stats.counts().get("🔥"), Some(&2));
}

#[test]
fn boost_reaches_cap_exactly_at_fifty() {
    let mut stats = UsageStats::default();
    for _ in 0..49 {
        stats.record("🔥");
    }
    assert_eq!(stats.boost("🔥"), 49);
    stats.record("🔥");
    assert_eq!(stats.boost("🔥"), 50);
    stats.record("🔥");
    assert_eq!(stats.boost("🔥"), 50);
    assert_eq!(stats.counts().get("🔥"), Some(&51));
}

#[test]
fn stats_from_stored_counts() {
    let mut counts = StrMap::new();
    counts.insert("🔥".to_string(), 7);
    counts.insert("😂".to_string(), 80);
    let stats = UsageStats::from_counts(counts);
    assert_eq!(stats.boost("🔥"), 7);
    assert_eq!(stats.boost("😂"), 50);
}
