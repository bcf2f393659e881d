use stax::cache::{CacheFile, CachedBranch, StackCache, TrunkInfo, SCHEMA_VERSION};
use stax::collections::{StrMap, StrSet};
use stax::diamond::{
    check_join, dissolution, join_sources, record_diamond, record_dissolution, redundant_pair,
    DiamondError, Dissolution,
};
use stax::insert::{insert_below_parent, is_diamond_child, InsertError};
use stax::navigate::is_shadow_branch;

fn diamond_cache() -> StackCache {
    let mut branches = StrMap::new();
    branches.insert(
        "consumer".to_string(),
        CachedBranch {
            tip: "ccc".to_string(),
            parent: Some("stax/shadow/consumer".to_string()),
            merge_sources: vec!["feat-a".to_string(), "feat-b".to_string()],
        },
    );
    branches.insert(
        "feat-a".to_string(),
        CachedBranch { tip: "aaa".to_string(), parent: Some("main".to_string()), merge_sources: vec![] },
    );
    let data = CacheFile {
        schema_version: SCHEMA_VERSION,
        trunk: TrunkInfo { name: "main".to_string(), tip: "t".to_string(), merged: vec![] },
        branches,
        pull_requests: StrMap::new(),
        shadow_branches: StrMap::new(),
    };
    let mut cache = StackCache::new("/repo/.git");
    assert!(cache.accept(data));
    cache
}

fn parent_map() -> StrMap<Option<String>> {
    let mut pm = StrMap::new();
    pm.insert("main".to_string(), None);
    pm.insert("feat-a".to_string(), Some("main".to_string()));
    pm.insert("feat-b".to_string(), Some("feat-a".to_string()));
    pm.insert("consumer".to_string(), Some("stax/shadow/consumer".to_string()));
    pm.insert("on-shadow".to_string(), Some("stax/shadow/x".to_string()));
    pm.insert("orphan".to_string(), None);
    pm
}

#[test]
fn test_insert_below_shadow_parent_guard() {
    // The parent of a diamond consumer is a shadow branch
    assert!(is_shadow_branch("stax/shadow/consumer"));
    assert!(!is_shadow_branch("feat-a"));
}

#[test]
fn test_insert_below_takes_over_parent() {
    let cache = diamond_cache();
    assert_eq!(insert_below_parent("feat-b", &parent_map(), &cache), Ok("feat-a".to_string()));
    assert_eq!(insert_below_parent("feat-a", &parent_map(), &cache), Ok("main".to_string()));
}

#[test]
fn test_insert_below_refusals() {
    let cache = diamond_cache();
    let pm = parent_map();
    assert_eq!(insert_below_parent("main", &pm, &cache), Err(InsertError::BelowMainBranch));
    assert_eq!(insert_below_parent("develop", &pm, &cache), Err(InsertError::BelowMainBranch));
    assert_eq!(insert_below_parent("orphan", &pm, &cache), Err(InsertError::NoParent));
    assert_eq!(insert_below_parent("unknown", &pm, &cache), Err(InsertError::NoParent));
    assert_eq!(insert_below_parent("consumer", &pm, &cache), Err(InsertError::DiamondConsumer));
    assert_eq!(insert_below_parent("on-shadow", &pm, &cache), Err(InsertError::ShadowParent));
}

#[test]
fn test_insert_below_without_cache_checks_shadow_parent() {
    let cache = StackCache::new("/repo/.git");
    assert_eq!(insert_below_parent("consumer", &parent_map(), &cache), Err(InsertError::ShadowParent));
}

#[test]
fn test_is_diamond_child() {
    let cache = diamond_cache();
    assert!(is_diamond_child(&cache, "consumer", "feat-a"));
    assert!(is_diamond_child(&cache, "consumer", "feat-b"));
    assert!(!is_diamond_child(&cache, "consumer", "feat-c"));
    assert!(!is_diamond_child(&cache, "feat-a", "main"));
    assert!(!is_diamond_child(&StackCache::new("/g"), "consumer", "feat-a"));
}

#[test]
fn test_check_join_refusals_in_order() {
    let mut all = StrSet::new();
    for b in ["main", "feat-a", "feat-b", "consumer"] {
        all.insert(b.to_string());
    }
    assert_eq!(check_join("consumer", "consumer", &all), Err(DiamondError::IntoItself));
    assert_eq!(check_join("consumer", "nope", &all), Err(DiamondError::NoSuchBranch));
    assert_eq!(check_join("main", "feat-a", &all), Err(DiamondError::IntoMainBranch));
    assert_eq!(check_join("consumer", "main", &all), Err(DiamondError::MainBranchSource));
    assert_eq!(check_join("consumer", "feat-b", &all), Ok(()));
}

#[test]
fn test_join_sources() {
    let none: Vec<String> = Vec::new();
    assert_eq!(
        join_sources(Some("feat-a"), &none, "feat-b"),
        Ok(vec!["feat-a".to_string(), "feat-b".to_string()])
    );
    assert_eq!(join_sources(None, &none, "feat-b"), Err(DiamondError::NoParent));
    let existing = vec!["feat-a".to_string(), "feat-b".to_string()];
    assert_eq!(
        join_sources(Some("stax/shadow/c"), &existing, "feat-c"),
        Ok(vec!["feat-a".to_string(), "feat-b".to_string(), "feat-c".to_string()])
    );
    assert_eq!(
        join_sources(Some("stax/shadow/c"), &existing, "feat-b"),
        Err(DiamondError::AlreadyIncluded)
    );
    assert_eq!(join_sources(None, &existing, "feat-c"), Err(DiamondError::NoParent));
    assert_eq!(join_sources(None, &existing, "feat-b"), Err(DiamondError::NoParent));
}

#[test]
fn test_record_diamond() {
    let mut cache = diamond_cache();
    let data = cache.data_mut().unwrap();
    let sources = vec!["feat-a".to_string(), "feat-c".to_string()];
    record_diamond(data, "other", "stax/shadow/other", &sources, "o1", "s1");
    let consumer = data.branches.get("other").unwrap();
    assert_eq!(consumer.parent, Some("stax/shadow/other".to_string()));
    assert_eq!(consumer.merge_sources, sources);
    let shadow_branch = data.branches.get("stax/shadow/other").unwrap();
    assert_eq!(shadow_branch.parent, Some("feat-a".to_string()));
    assert_eq!(shadow_branch.tip, "s1");
    let shadow = data.shadow_branches.get("stax/shadow/other").unwrap();
    assert_eq!(shadow.consumer, "other");
    assert_eq!(shadow.sources, sources);
}

#[test]
fn test_dissolution_follows_merged_sources() {
    let sources = vec!["feat-a".to_string(), "feat-b".to_string(), "feat-c".to_string()];
    let mut merged = StrSet::new();
    merged.insert("feat-b".to_string());
    assert_eq!(
        dissolution(&sources, &merged),
        Dissolution::Rebuild(vec!["feat-a".to_string(), "feat-c".to_string()])
    );
    merged.insert("feat-c".to_string());
    assert_eq!(dissolution(&sources, &merged), Dissolution::OntoSource("feat-a".to_string()));
    merged.insert("feat-a".to_string());
    assert_eq!(dissolution(&sources, &merged), Dissolution::OntoTrunk);
}

#[test]
fn test_record_dissolution_reparents_consumer() {
    let mut cache = diamond_cache();
    let data = cache.data_mut().unwrap();
    let sources = vec!["feat-a".to_string(), "feat-b".to_string()];
    record_diamond(data, "consumer", "stax/shadow/consumer", &sources, "c1", "s1");
    record_dissolution(data, "consumer", "stax/shadow/consumer", "main", "c2");
    assert!(data.shadow_branches.get("stax/shadow/consumer").is_none());
    assert!(data.branches.get("stax/shadow/consumer").is_none());
    let consumer = data.branches.get("consumer").unwrap();
    assert_eq!(consumer.parent, Some("main".to_string()));
    assert_eq!(consumer.tip, "c2");
    assert!(consumer.merge_sources.is_empty());
    assert_eq!(data.branches.get("feat-a").unwrap().tip, "aaa");
}

#[test]
fn test_redundant_pair_detects_contained_source() {
    assert_eq!(
        redundant_pair("main", "feat-b", Some("m1"), "m1", "b1"),
        Some(("main".to_string(), "feat-b".to_string()))
    );
    assert_eq!(
        redundant_pair("feat-a", "feat-b", Some("b1"), "a1", "b1"),
        Some(("feat-b".to_string(), "feat-a".to_string()))
    );
    assert_eq!(redundant_pair("feat-a", "feat-b", Some("m1"), "a1", "b1"), None);
    assert_eq!(redundant_pair("feat-a", "feat-b", None, "a1", "b1"), None);
}
