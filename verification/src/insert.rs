//! Bookkeeping when a branch is inserted into a stack.
use vstd::prelude::*;
use crate::cache::{CacheFile, CachedBranchView, CachedPullRequest, CachedPullRequestView, ShadowBranchView, StackCache};
use crate::collections::{Dup, StrMap};
use crate::navigate::{shadow_prefix, spec_is_main, spec_is_shadow, ParentModel};
use crate::text::{join_strings, join_with, str_eq, views};

verus! {

/// `pr` with its base branch replaced.
pub open spec fn with_base(pr: CachedPullRequestView, base: Seq<char>) -> CachedPullRequestView {
    CachedPullRequestView { base_ref: base, ..pr }
}

/// Point the cached pull request of `branch`, if there is one, at
/// `new_base`.  Returns whether one was changed; nothing else changes.
pub fn update_cached_pr_base(data: Option<&mut CacheFile>, branch: &str, new_base: &str) -> (r: bool)
    requires
        data is Some ==> (*data->0).wf(),
    ensures
        data is None ==> !r,
        data is Some ==> {
            let before = *data->0;
            let after = *final(data->0);
            &&& after.wf()
            &&& r == before.pull_requests@.contains_key(branch@)
            &&& after.pull_requests@ == if r {
                before.pull_requests@.insert(
                    branch@,
                    with_base(before.pull_requests@[branch@], new_base@),
                )
            } else {
                before.pull_requests@
            }
            &&& after.schema_version == before.schema_version
            &&& after.trunk == before.trunk
            &&& after.branches == before.branches
            &&& after.shadow_branches == before.shadow_branches
        },
{
    match data {
        Some(d) => {
            match d.pull_requests.get(branch) {
                Some(pr) => {
                    let mut updated = pr.dup();
                    updated.base_ref = new_base.to_owned();
                    d.pull_requests.insert(branch.to_owned(), updated);
                    true
                },
                None => false,
            }
        },
        None => false,
    }
}

/// `names` with every occurrence of `old` replaced by `new`.
pub open spec fn replace_name(names: Seq<Seq<char>>, old: Seq<char>, new: Seq<char>) -> Seq<Seq<char>> {
    names.map_values(|x: Seq<char>| if x == old { new } else { x })
}

/// Replace every occurrence of `old` in `names` by `new`.
fn replace_all(names: &mut Vec<String>, from: &str, to: &str)
    ensures
        views(final(names)@) == replace_name(views(old(names)@), from@, to@),
{
    let ghost orig = views(names@);
    let mut i: usize = 0;
    while i < names.len()
        invariant
            names@.len() == orig.len(),
            i <= names@.len(),
            forall|j: int| 0 <= j < i ==> #[trigger] views(names@)[j] == replace_name(orig, from@, to@)[j],
            forall|j: int| i <= j < names@.len() ==> #[trigger] views(names@)[j] == orig[j],
        decreases names@.len() - i,
    {
        let ghost before = views(names@);
        assert(before[i as int] == names@[i as int]@);
        assert(before[i as int] == orig[i as int]);
        if str_eq(names[i].as_str(), from) {
            names.set(i, to.to_owned());
            assert(views(names@) =~= before.update(i as int, to@));
        }
        assert(views(names@)[i as int] == replace_name(orig, from@, to@)[i as int]);
        assert forall|j: int| 0 <= j < names@.len() && j != i implies #[trigger] views(names@)[j] == before[j] by {}
        i = i + 1;
    }
    assert(views(names@) =~= replace_name(orig, from@, to@));
}

/// The cache after the diamond consumer `child` takes `new_source` in place
/// of `old_source`: in its merge sources, in the sources of its shadow
/// branch, and as the parent of the shadow branch's record.
pub open spec fn diamond_source_replaced(
    before: CacheFile,
    after: CacheFile,
    child: Seq<char>,
    old_source: Seq<char>,
    new_source: Seq<char>,
) -> bool {
    let shadow = shadow_prefix() + child;
    let b1 = if before.branches@.contains_key(child) {
        before.branches@.insert(
            child,
            CachedBranchView {
                merge_sources: replace_name(before.branches@[child].merge_sources, old_source, new_source),
                ..before.branches@[child]
            },
        )
    } else {
        before.branches@
    };
    let b2 = if b1.contains_key(shadow) && b1[shadow].parent == Some(old_source) {
        b1.insert(shadow, CachedBranchView { parent: Some(new_source), ..b1[shadow] })
    } else {
        b1
    };
    &&& after.wf()
    &&& after.branches@ == b2
    &&& after.shadow_branches@ == if before.shadow_branches@.contains_key(shadow) {
        before.shadow_branches@.insert(
            shadow,
            ShadowBranchView {
                sources: replace_name(before.shadow_branches@[shadow].sources, old_source, new_source),
                ..before.shadow_branches@[shadow]
            },
        )
    } else {
        before.shadow_branches@
    }
    &&& after.schema_version == before.schema_version
    &&& after.trunk == before.trunk
    &&& after.pull_requests == before.pull_requests
}

/// Let the diamond consumer `child` take `new_source` in place of
/// `old_source`, and give the sources its shadow branch now merges (none
/// when it has no shadow branch).
pub fn replace_diamond_source(data: &mut CacheFile, child: &str, old_source: &str, new_source: &str) -> (new_sources: Vec<String>)
    requires
        old(data).wf(),
    ensures
        diamond_source_replaced(*old(data), *final(data), child@, old_source@, new_source@),
        views(new_sources@) == if final(data).shadow_branches@.contains_key(shadow_prefix() + child@) {
            final(data).shadow_branches@[shadow_prefix() + child@].sources
        } else {
            Seq::empty()
        },
{
    let shadow_name = StackCache::shadow_name_for(child);
    match data.branches.get(child) {
        Some(entry) => {
            let mut updated = entry.dup();
            replace_all(&mut updated.merge_sources, old_source, new_source);
            data.branches.insert(child.to_owned(), updated);
        },
        None => {},
    }
    let mut new_sources: Vec<String> = Vec::new();
    match data.shadow_branches.get(shadow_name.as_str()) {
        Some(shadow) => {
            let mut updated = shadow.dup();
            replace_all(&mut updated.sources, old_source, new_source);
            new_sources = crate::collections::dup_strings(&updated.sources);
            data.shadow_branches.insert(shadow_name.clone(), updated);
        },
        None => {
            assert(views(new_sources@) =~= Seq::<Seq<char>>::empty());
        },
    }
    match data.branches.get(shadow_name.as_str()) {
        Some(entry) => {
            let points_at_old = match &entry.parent {
                Some(p) => str_eq(p.as_str(), old_source),
                None => false,
            };
            if points_at_old {
                let mut updated = entry.dup();
                updated.parent = Some(new_source.to_owned());
                data.branches.insert(shadow_name, updated);
            }
        },
        None => {},
    }
    new_sources
}

/// The hint shown after pull-request bases changed locally, naming the
/// branches whose pull requests need their base updated; none when no
/// pull request changed.
pub fn submit_hint(prs_updated: &Vec<String>) -> (r: Option<String>)
    ensures
        prs_updated@.len() == 0 <==> r is None,
        r is Some ==> r->0@ == "Run 'stax submit' to update PR base branches on GitHub for: "@
            + join_with(views(prs_updated@), ", "@),
{
    if prs_updated.len() == 0 {
        return None;
    }
    Some("Run 'stax submit' to update PR base branches on GitHub for: ".to_owned().concat(
        join_strings(prs_updated, ", ").as_str(),
    ))
}

/// Why a branch cannot be inserted where asked.
#[derive(Debug, PartialEq, Eq)]
pub enum InsertError {
    /// Nothing goes below a main branch.
    BelowMainBranch,
    /// The current branch has no known parent.
    NoParent,
    /// The current branch is the consumer of a diamond.
    DiamondConsumer,
    /// The current branch sits on a shadow branch.
    ShadowParent,
}

/// The branch has merge sources recorded in the loaded cache.
pub open spec fn has_merge_sources(loaded: Option<CacheFile>, branch: Seq<char>) -> bool {
    match loaded {
        Some(d) => d.branches@.contains_key(branch) && d.branches@[branch].merge_sources.len() > 0,
        None => false,
    }
}

/// The parent a new branch inserted below `current` takes over, or why no
/// branch can go there.
pub open spec fn below_parent_of(current: Seq<char>, pm: ParentModel, loaded: Option<CacheFile>) -> Result<
    Seq<char>,
    InsertError,
> {
    if spec_is_main(current) {
        Err(InsertError::BelowMainBranch)
    } else if !(pm.contains_key(current) && pm[current] is Some) {
        Err(InsertError::NoParent)
    } else if has_merge_sources(loaded, current) {
        Err(InsertError::DiamondConsumer)
    } else if spec_is_shadow(pm[current].unwrap()@) {
        Err(InsertError::ShadowParent)
    } else {
        Ok(pm[current].unwrap()@)
    }
}

/// The parent a new branch inserted below `current` takes over.
pub fn insert_below_parent(current: &str, parent_map: &StrMap<Option<String>>, cache: &StackCache) -> (r:
    Result<String, InsertError>)
    requires
        parent_map.wf(),
        cache.wf(),
    ensures
        match r {
            Ok(p) => below_parent_of(current@, parent_map@, cache.loaded()) == Ok::<Seq<char>, InsertError>(p@),
            Err(e) => below_parent_of(current@, parent_map@, cache.loaded()) == Err::<Seq<char>, InsertError>(e),
        },
{
    if crate::navigate::is_main_branch(current) {
        return Err(InsertError::BelowMainBranch);
    }
    let parent = match parent_map.get(current) {
        Some(Some(p)) => p.clone(),
        _ => {
            return Err(InsertError::NoParent);
        },
    };
    let has_sources = match cache.data_ref() {
        Some(d) => match d.branches.get(current) {
            Some(b) => b.merge_sources.len() > 0,
            None => false,
        },
        None => false,
    };
    if has_sources {
        return Err(InsertError::DiamondConsumer);
    }
    if crate::navigate::is_shadow_branch(parent.as_str()) {
        return Err(InsertError::ShadowParent);
    }
    Ok(parent)
}

/// Whether `child` is a diamond consumer merging `old_parent`: its cached
/// merge sources name it.
pub fn is_diamond_child(cache: &StackCache, child: &str, old_parent: &str) -> (r: bool)
    requires
        cache.wf(),
    ensures
        r == match cache.loaded() {
            Some(d) => d.branches@.contains_key(child@) && d.branches@[child@].merge_sources.contains(old_parent@),
            None => false,
        },
{
    match cache.data_ref() {
        Some(d) => match d.branches.get(child) {
            Some(b) => {
                let mut i: usize = 0;
                while i < b.merge_sources.len()
                    invariant
                        cache.loaded() == Some(*d),
                        d.branches@.contains_key(child@),
                        b@ == d.branches@[child@],
                        i <= b.merge_sources@.len(),
                        forall|j: int| 0 <= j < i ==> views(b.merge_sources@)[j] != old_parent@,
                    decreases b.merge_sources@.len() - i,
                {
                    if str_eq(b.merge_sources[i].as_str(), old_parent) {
                        assert(views(b.merge_sources@)[i as int] == old_parent@);
                        assert(b@.merge_sources == views(b.merge_sources@));
                        assert(b@.merge_sources.contains(old_parent@));
                        return true;
                    }
                    i = i + 1;
                }
                assert(b@.merge_sources == views(b.merge_sources@));
                false
            },
            None => false,
        },
        None => false,
    }
}

} // verus!
