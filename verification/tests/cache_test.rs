use stax::cache::{
    CacheFile, CachedBranch, CachedPullRequest, ShadowBranch, StackCache, TrunkInfo,
    SCHEMA_VERSION,
};
use stax::collections::{StrMap, StrSet};
use stax::insert::{replace_diamond_source, submit_hint, update_cached_pr_base};

fn sample_cache_data() -> CacheFile {
    let mut branches = StrMap::new();
    branches.insert(
        "feature-a".to_string(),
        CachedBranch {
            tip: "aaa111".to_string(),
            parent: Some("main".to_string()),
            merge_sources: Vec::new(),
        },
    );
    branches.insert(
        "feature-b".to_string(),
        CachedBranch {
            tip: "bbb222".to_string(),
            parent: Some("feature-a".to_string()),
            merge_sources: Vec::new(),
        },
    );

    CacheFile {
        schema_version: SCHEMA_VERSION,
        trunk: TrunkInfo {
            name: "main".to_string(),
            tip: "trunk000".to_string(),
            merged: vec!["old-branch".to_string()],
        },
        branches,
        pull_requests: StrMap::new(),
        shadow_branches: StrMap::new(),
    }
}

fn live_tips_matching(data: &CacheFile) -> StrMap<String> {
    let mut tips = StrMap::new();
    tips.insert(data.trunk.name.clone(), data.trunk.tip.clone());
    for i in 0..data.branches.len() {
        tips.insert(
            data.branches.key_at(i).clone(),
            data.branches.value_at(i).tip.clone(),
        );
    }
    tips
}

fn loaded_cache(data: CacheFile) -> StackCache {
    let mut cache = StackCache::new("/repo/.git");
    assert!(cache.accept(data));
    cache
}

fn cached_pr(number: u64, head: &str, base: &str) -> CachedPullRequest {
    CachedPullRequest {
        number,
        state: "open".to_string(),
        head_ref: head.to_string(),
        base_ref: base.to_string(),
        html_url: format!("https://github.com/o/r/pull/{number}"),
        draft: false,
    }
}

#[test]
fn test_to_parent_map() {
    let data = sample_cache_data();
    let map = StackCache::to_parent_map(&data);

    assert_eq!(map.get("main"), Some(&None));
    assert_eq!(map.get("feature-a"), Some(&Some("main".to_string())));
    assert_eq!(map.get("feature-b"), Some(&Some("feature-a".to_string())));
}

#[test]
fn test_to_merged_set() {
    let data = sample_cache_data();
    let merged = StackCache::to_merged_set(&data);
    assert!(merged.contains("old-branch"));
    assert_eq!(merged.len(), 1);
}

#[test]
fn test_cache_path_under_git_dir() {
    let cache = StackCache::new("/repo/.git");
    assert_eq!(cache.cache_path(), "/repo/.git/stax/cache.json");
    let cache = StackCache::new("/repo/.git/");
    assert_eq!(cache.cache_path(), "/repo/.git/stax/cache.json");
    assert!(cache.data_ref().is_none());
}

#[test]
fn test_load_wrong_schema_version() {
    let mut data = sample_cache_data();
    data.schema_version = 999;
    let mut cache = StackCache::new("/repo/.git");
    assert!(!cache.accept(data));
    assert!(cache.data_ref().is_none());
}

#[test]
fn test_validate_all_valid() {
    let data = sample_cache_data();
    let tips = live_tips_matching(&data);
    let cache = loaded_cache(data);

    let result = cache.validate(&tips, "main").expect("should validate");
    assert_eq!(result.valid.len(), 2);
    assert!(result.stale.is_empty());
    assert!(result.new_branches.is_empty());
    assert!(result.deleted.is_empty());
    assert!(!result.trunk_changed);
    assert!(result.cached_merged.contains("old-branch"));
}

#[test]
fn test_validate_stale_branch() {
    let data = sample_cache_data();
    let mut tips = live_tips_matching(&data);
    tips.insert("feature-a".to_string(), "changed-tip".to_string());
    let cache = loaded_cache(data);

    let result = cache.validate(&tips, "main").expect("should validate");
    assert_eq!(result.valid.len(), 1);
    assert!(result.stale.contains("feature-a"));
    assert!(result.new_branches.is_empty());
    assert!(result.deleted.is_empty());
}

#[test]
fn test_validate_new_branch() {
    let data = sample_cache_data();
    let mut tips = live_tips_matching(&data);
    tips.insert("feature-c".to_string(), "ccc333".to_string());
    let cache = loaded_cache(data);

    let result = cache.validate(&tips, "main").expect("should validate");
    assert_eq!(result.valid.len(), 2);
    assert!(result.new_branches.contains("feature-c"));
    assert!(result.deleted.is_empty());
}

#[test]
fn test_validate_deleted_branch() {
    let data = sample_cache_data();
    let mut tips = live_tips_matching(&data);
    tips.remove("feature-b");
    let cache = loaded_cache(data);

    let result = cache.validate(&tips, "main").expect("should validate");
    assert_eq!(result.valid.len(), 1);
    assert!(result.deleted.contains("feature-b"));
}

#[test]
fn test_validate_trunk_changed() {
    let data = sample_cache_data();
    let mut tips = live_tips_matching(&data);
    tips.insert("main".to_string(), "new-trunk-tip".to_string());
    let cache = loaded_cache(data);

    let result = cache.validate(&tips, "main").expect("should validate");
    assert!(result.trunk_changed);
    assert!(result.cached_merged.is_empty());
}

#[test]
fn test_validate_trunk_name_changed() {
    let data = sample_cache_data();
    let mut tips = live_tips_matching(&data);
    tips.insert("master".to_string(), "trunk000".to_string());
    let cache = loaded_cache(data);

    let result = cache.validate(&tips, "master").expect("should validate");
    assert!(result.trunk_changed);
}

#[test]
fn test_validate_no_data_returns_none() {
    let cache = StackCache::new("/repo/.git");
    let tips = StrMap::new();
    assert!(cache.validate(&tips, "main").is_none());
}

#[test]
fn test_rebuilt_cache_validates_against_same_tips() {
    let cache = loaded_cache(sample_cache_data());
    let mut parents = StrMap::new();
    parents.insert("main".to_string(), None);
    parents.insert("x".to_string(), Some("main".to_string()));
    let mut commits = StrMap::new();
    commits.insert("main".to_string(), "t1".to_string());
    commits.insert("x".to_string(), "x1".to_string());
    let merged = StrSet::new();
    let rebuilt = cache.build_cache_data("main", "t1", &parents, &commits, &merged);
    assert_eq!(rebuilt.trunk.tip, "t1");
    let fresh = loaded_cache(rebuilt);
    let result = fresh.validate(&commits, "main").expect("loaded");
    assert!(result.stale.is_empty());
    assert!(result.deleted.is_empty());
    assert!(!result.trunk_changed);
    assert_eq!(
        result.valid.get("x").map(|b| b.parent.clone()),
        Some(Some("main".to_string()))
    );
}

#[test]
fn test_upsert_branch_then_parent_map() {
    let mut cache = loaded_cache(sample_cache_data());
    cache.upsert_branch("feature-b", "new-tip", Some("main"));
    let map = StackCache::to_parent_map(cache.data_ref().unwrap());
    assert_eq!(map.get("feature-b"), Some(&Some("main".to_string())));
    assert_eq!(map.get("feature-a"), Some(&Some("main".to_string())));
}

#[test]
fn test_shadow_upsert_lookup_remove() {
    let mut cache = loaded_cache(sample_cache_data());
    let name = StackCache::shadow_name_for("consumer");
    assert_eq!(name, "stax/shadow/consumer");
    cache.upsert_shadow(
        &name,
        ShadowBranch {
            consumer: "consumer".to_string(),
            sources: vec!["feature-a".to_string(), "feature-b".to_string()],
            tip: "s1".to_string(),
        },
    );
    let (found, shadow) = cache.get_shadow_for_consumer("consumer").expect("present");
    assert_eq!(found, "stax/shadow/consumer");
    assert_eq!(shadow.sources.len(), 2);
    assert!(cache.get_shadow_for_consumer("other").is_none());
    assert!(cache.remove_shadow(&name));
    assert!(!cache.remove_shadow(&name));
    assert!(cache.get_shadow_for_consumer("consumer").is_none());
}

#[test]
fn test_save_pull_requests() {
    let mut cache = loaded_cache(sample_cache_data());
    let mut prs = StrMap::new();
    prs.insert("feature-a".to_string(), cached_pr(10, "feature-a", "main"));
    // This PR's head branch has no record, so it is dropped.
    prs.insert("nonexistent".to_string(), cached_pr(99, "nonexistent", "main"));
    cache.save_pull_requests(&prs);
    let loaded = cache.data_ref().expect("should load");
    assert_eq!(loaded.pull_requests.len(), 1);
    assert_eq!(loaded.pull_requests.get("feature-a").unwrap().number, 10);
}

#[test]
fn test_load_missing_file() {
    let cache = StackCache::new("/repo/.git");
    assert!(cache.data_ref().is_none());
}

#[test]
fn test_roundtrip() {
    let cache = loaded_cache(sample_cache_data());
    let loaded = cache.data_ref().expect("should load");
    assert_eq!(loaded.schema_version, SCHEMA_VERSION);
    assert_eq!(loaded.trunk.name, "main");
    assert_eq!(loaded.trunk.tip, "trunk000");
    assert_eq!(loaded.trunk.merged, vec!["old-branch"]);
    assert_eq!(loaded.branches.len(), 2);
    assert_eq!(loaded.branches.get("feature-a").unwrap().tip, "aaa111");
    assert_eq!(
        loaded.branches.get("feature-a").unwrap().parent,
        Some("main".to_string())
    );
    assert_eq!(loaded.branches.get("feature-b").unwrap().tip, "bbb222");
    assert_eq!(
        loaded.branches.get("feature-b").unwrap().parent,
        Some("feature-a".to_string())
    );
}

#[test]
fn test_save_overwrites() {
    let mut cache = loaded_cache(sample_cache_data());
    let mut data2 = sample_cache_data();
    data2.trunk.tip = "changed-tip".to_string();
    assert!(cache.accept(data2));
    let loaded = cache.data_ref().expect("should load");
    assert_eq!(loaded.trunk.tip, "changed-tip");
}

#[test]
fn test_build_cache_data() {
    let cache = StackCache::new("/repo/.git");

    let mut parent_map = StrMap::new();
    parent_map.insert("main".to_string(), None);
    parent_map.insert("feat".to_string(), Some("main".to_string()));

    let mut commits = StrMap::new();
    commits.insert("main".to_string(), "trunk-tip".to_string());
    commits.insert("feat".to_string(), "feat-tip".to_string());

    let mut merged = StrSet::new();
    merged.insert("old".to_string());

    let data = cache.build_cache_data("main", "trunk-tip", &parent_map, &commits, &merged);

    assert_eq!(data.schema_version, SCHEMA_VERSION);
    assert_eq!(data.trunk.name, "main");
    assert_eq!(data.trunk.tip, "trunk-tip");
    assert!(data.trunk.merged.contains(&"old".to_string()));
    assert_eq!(data.branches.get("feat").unwrap().tip, "feat-tip");
    assert_eq!(data.branches.get("feat").unwrap().parent, Some("main".to_string()));
    assert!(data.pull_requests.is_empty());
}

#[test]
fn test_build_cache_data_preserves_prs() {
    let mut initial = sample_cache_data();
    initial.pull_requests.insert(
        "feature-a".to_string(),
        CachedPullRequest {
            number: 42,
            state: "open".to_string(),
            head_ref: "feature-a".to_string(),
            base_ref: "main".to_string(),
            html_url: "https://github.com/o/r/pull/42".to_string(),
            draft: false,
        },
    );
    let cache = loaded_cache(initial);

    let mut parent_map = StrMap::new();
    parent_map.insert("feature-a".to_string(), Some("main".to_string()));
    let mut commits = StrMap::new();
    commits.insert("feature-a".to_string(), "aaa111".to_string());
    let merged = StrSet::new();

    let data = cache.build_cache_data("main", "trunk000", &parent_map, &commits, &merged);
    assert_eq!(data.pull_requests.len(), 1);
    assert_eq!(data.pull_requests.get("feature-a").unwrap().number, 42);
}

#[test]
fn test_upsert_branch_existing_cache() {
    let mut cache = loaded_cache(sample_cache_data());
    cache.upsert_branch("feature-c", "ccc333", Some("feature-a"));
    let loaded = cache.data_ref().expect("should load");
    assert_eq!(loaded.branches.len(), 3);
    assert_eq!(loaded.branches.get("feature-c").unwrap().tip, "ccc333");
    assert_eq!(
        loaded.branches.get("feature-c").unwrap().parent,
        Some("feature-a".to_string())
    );
    assert_eq!(loaded.branches.get("feature-a").unwrap().tip, "aaa111");
}

#[test]
fn test_upsert_branch_updates_existing() {
    let mut cache = loaded_cache(sample_cache_data());
    cache.upsert_branch("feature-b", "bbb222", Some("main"));
    let loaded = cache.data_ref().expect("should load");
    assert_eq!(loaded.branches.len(), 2);
    assert_eq!(
        loaded.branches.get("feature-b").unwrap().parent,
        Some("main".to_string())
    );
}

#[test]
fn test_upsert_branch_no_cache_is_noop() {
    let mut cache = StackCache::new("/repo/.git");
    assert_eq!(cache.cache_path(), "/repo/.git/stax/cache.json");
    cache.upsert_branch("feature-x", "xxx999", Some("main"));
    assert!(cache.data_ref().is_none());
}

#[test]
fn test_restack_state_path_beside_cache() {
    let cache = StackCache::new("/repo/.git");
    assert_eq!(cache.restack_state_path(), "/repo/.git/stax/restack-state.json");
}

#[test]
fn test_update_cached_pr_base() {
    let mut data = sample_cache_data();
    data.pull_requests
        .insert("feature-b".to_string(), cached_pr(7, "feature-b", "feature-a"));
    assert!(update_cached_pr_base(Some(&mut data), "feature-b", "main"));
    assert_eq!(data.pull_requests.get("feature-b").unwrap().base_ref, "main");
    assert!(!update_cached_pr_base(Some(&mut data), "feature-a", "main"));
    assert!(!update_cached_pr_base(None, "feature-b", "x"));
}

#[test]
fn test_replace_diamond_source() {
    let mut data = sample_cache_data();
    data.branches.insert(
        "consumer".to_string(),
        CachedBranch {
            tip: "c1".to_string(),
            parent: Some("stax/shadow/consumer".to_string()),
            merge_sources: vec!["feature-a".to_string(), "feature-b".to_string()],
        },
    );
    data.branches.insert(
        "stax/shadow/consumer".to_string(),
        CachedBranch {
            tip: "s1".to_string(),
            parent: Some("feature-a".to_string()),
            merge_sources: Vec::new(),
        },
    );
    data.shadow_branches.insert(
        "stax/shadow/consumer".to_string(),
        ShadowBranch {
            consumer: "consumer".to_string(),
            sources: vec!["feature-a".to_string(), "feature-b".to_string()],
            tip: "s1".to_string(),
        },
    );
    let sources = replace_diamond_source(&mut data, "consumer", "feature-a", "feature-new");
    assert_eq!(sources, vec!["feature-new".to_string(), "feature-b".to_string()]);
    assert_eq!(
        data.branches.get("consumer").unwrap().merge_sources,
        vec!["feature-new".to_string(), "feature-b".to_string()]
    );
    assert_eq!(
        data.branches.get("stax/shadow/consumer").unwrap().parent,
        Some("feature-new".to_string())
    );
}

#[test]
fn test_submit_hint() {
    assert_eq!(submit_hint(&vec![]), None);
    assert_eq!(
        submit_hint(&vec!["a".to_string(), "b".to_string()]),
        Some("Run 'stax submit' to update PR base branches on GitHub for: a, b".to_string())
    );
}

#[test]
fn test_cache_shadow_roundtrip() {
    let mut branches = StrMap::new();
    branches.insert(
        "feat-a".to_string(),
        CachedBranch {
            tip: "aaa".to_string(),
            parent: Some("main".to_string()),
            merge_sources: Vec::new(),
        },
    );
    let data = CacheFile {
        schema_version: 2,
        trunk: TrunkInfo {
            name: "main".to_string(),
            tip: "trunk000".to_string(),
            merged: Vec::new(),
        },
        branches,
        pull_requests: StrMap::new(),
        shadow_branches: StrMap::new(),
    };
    let mut cache = loaded_cache(data);

    cache.upsert_shadow(
        "stax/shadow/consumer",
        ShadowBranch {
            consumer: "consumer".to_string(),
            sources: vec!["feat-a".to_string(), "feat-b".to_string()],
            tip: "shadow-tip".to_string(),
        },
    );

    let loaded = cache.data_ref().unwrap();
    assert_eq!(loaded.shadow_branches.len(), 1);
    let shadow = loaded.shadow_branches.get("stax/shadow/consumer").unwrap();
    assert_eq!(shadow.consumer, "consumer");
    assert_eq!(shadow.sources, vec!["feat-a", "feat-b"]);

    cache.remove_shadow("stax/shadow/consumer");
    let loaded2 = cache.data_ref().unwrap();
    assert!(loaded2.shadow_branches.is_empty());
}

#[test]
fn test_shadow_name_is_shadow() {
    for consumer in ["consumer", "feature/x", ""] {
        let name = StackCache::shadow_name_for(consumer);
        assert!(stax::navigate::is_shadow_branch(&name));
    }
    assert!(!stax::navigate::is_shadow_branch("consumer"));
}
