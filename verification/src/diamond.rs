//! Diamonds: a consumer branch that merges several source branches through
//! a shadow branch.
use vstd::prelude::*;
use crate::cache::{CacheFile, CachedBranchView, ShadowBranch, ShadowBranchView};
use crate::collections::{dup_strings, StrSet};
use crate::navigate::spec_is_main;
use crate::text::{str_eq, views};

verus! {

/// Why a branch cannot join the current one's diamond.
#[derive(Debug, PartialEq, Eq)]
pub enum DiamondError {
    /// The branch is the current branch.
    IntoItself,
    /// No branch of that name exists.
    NoSuchBranch,
    /// The current branch is a main branch.
    IntoMainBranch,
    /// The branch to add is a main branch.
    MainBranchSource,
    /// The current branch has no known parent.
    NoParent,
    /// The branch is already one of the current branch's sources.
    AlreadyIncluded,
}

/// Why `branch` cannot join the diamond of `consumer`, checked in order, if
/// anything stops it before the sources are worked out.
pub open spec fn join_refusal(consumer: Seq<char>, branch: Seq<char>, all: Set<Seq<char>>) -> Option<
    DiamondError,
> {
    if consumer == branch {
        Some(DiamondError::IntoItself)
    } else if !all.contains(branch) {
        Some(DiamondError::NoSuchBranch)
    } else if spec_is_main(consumer) {
        Some(DiamondError::IntoMainBranch)
    } else if spec_is_main(branch) {
        Some(DiamondError::MainBranchSource)
    } else {
        None
    }
}

/// Check that `branch` may join the diamond of `consumer`.
pub fn check_join(consumer: &str, branch: &str, all_branches: &StrSet) -> (r: Result<(), DiamondError>)
    ensures
        match join_refusal(consumer@, branch@, all_branches@) {
            Some(e) => r == Err::<(), DiamondError>(e),
            None => r is Ok,
        },
{
    if str_eq(consumer, branch) {
        return Err(DiamondError::IntoItself);
    }
    if !all_branches.contains(branch) {
        return Err(DiamondError::NoSuchBranch);
    }
    if crate::navigate::is_main_branch(consumer) {
        return Err(DiamondError::IntoMainBranch);
    }
    if crate::navigate::is_main_branch(branch) {
        return Err(DiamondError::MainBranchSource);
    }
    Ok(())
}

/// The sources of the diamond after `branch` joins: none without a known
/// parent of the consumer; the consumer's current parent and `branch` for a
/// new diamond; otherwise the existing sources followed by `branch`.
pub open spec fn sources_after_join(
    current_parent: Option<Seq<char>>,
    existing: Seq<Seq<char>>,
    branch: Seq<char>,
) -> Result<Seq<Seq<char>>, DiamondError> {
    if current_parent is None {
        Err(DiamondError::NoParent)
    } else if existing.len() == 0 {
        Ok(seq![current_parent.unwrap(), branch])
    } else if existing.contains(branch) {
        Err(DiamondError::AlreadyIncluded)
    } else {
        Ok(existing.push(branch))
    }
}

/// The sources of the diamond after `branch` joins.  The consumer needs a
/// known parent, which becomes the first source of a new diamond.
pub fn join_sources(current_parent: Option<&str>, existing: &Vec<String>, branch: &str) -> (r: Result<
    Vec<String>,
    DiamondError,
>)
    ensures
        match r {
            Ok(v) => sources_after_join(
                crate::cache::opt_str_view(current_parent),
                views(existing@),
                branch@,
            ) == Ok::<Seq<Seq<char>>, DiamondError>(views(v@)),
            Err(e) => sources_after_join(
                crate::cache::opt_str_view(current_parent),
                views(existing@),
                branch@,
            ) == Err::<Seq<Seq<char>>, DiamondError>(e),
        },
{
    if current_parent.is_none() {
        return Err(DiamondError::NoParent);
    }
    if existing.len() == 0 {
        match current_parent {
            Some(p) => {
                let mut v: Vec<String> = Vec::new();
                v.push(p.to_owned());
                v.push(branch.to_owned());
                proof {
                    assert(views(v@) =~= seq![p@, branch@]);
                }
                Ok(v)
            },
            None => Err(DiamondError::NoParent),
        }
    } else {
        let mut i: usize = 0;
        while i < existing.len()
            invariant
                i <= existing@.len(),
                current_parent is Some,
                forall|j: int| 0 <= j < i ==> views(existing@)[j] != branch@,
            decreases existing@.len() - i,
        {
            if str_eq(existing[i].as_str(), branch) {
                proof {
                    assert(views(existing@)[i as int] == branch@);
                }
                return Err(DiamondError::AlreadyIncluded);
            }
            i = i + 1;
        }
        let mut v = dup_strings(existing);
        v.push(branch.to_owned());
        proof {
            assert(views(v@) =~= views(existing@).push(branch@));
        }
        Ok(v)
    }
}

/// The cache after a diamond is built: the shadow branch recorded with its
/// consumer, sources and tip; the consumer recorded on top of the shadow
/// branch with those sources; the shadow branch on top of the first source.
pub open spec fn diamond_recorded(
    before: CacheFile,
    after: CacheFile,
    consumer: Seq<char>,
    shadow_name: Seq<char>,
    sources: Seq<Seq<char>>,
    consumer_tip: Seq<char>,
    shadow_tip: Seq<char>,
) -> bool {
    &&& after.wf()
    &&& after.schema_version == before.schema_version
    &&& after.trunk == before.trunk
    &&& after.pull_requests == before.pull_requests
    &&& after.shadow_branches@ == before.shadow_branches@.insert(
        shadow_name,
        ShadowBranchView { consumer, sources, tip: shadow_tip },
    )
    &&& after.branches@ == before.branches@.insert(
        consumer,
        CachedBranchView { tip: consumer_tip, parent: Some(shadow_name), merge_sources: sources },
    ).insert(
        shadow_name,
        CachedBranchView { tip: shadow_tip, parent: Some(sources[0]), merge_sources: Seq::empty() },
    )
}

/// Record a built diamond in the cache.
pub fn record_diamond(
    data: &mut CacheFile,
    consumer: &str,
    shadow_name: &str,
    sources: &Vec<String>,
    consumer_tip: &str,
    shadow_tip: &str,
)
    requires
        old(data).wf(),
        sources@.len() > 0,
    ensures
        diamond_recorded(
            *old(data),
            *final(data),
            consumer@,
            shadow_name@,
            views(sources@),
            consumer_tip@,
            shadow_tip@,
        ),
{
    data.shadow_branches.insert(
        shadow_name.to_owned(),
        ShadowBranch {
            consumer: consumer.to_owned(),
            sources: dup_strings(sources),
            tip: shadow_tip.to_owned(),
        },
    );
    data.branches.insert(
        consumer.to_owned(),
        crate::cache::CachedBranch {
            tip: consumer_tip.to_owned(),
            parent: Some(shadow_name.to_owned()),
            merge_sources: dup_strings(sources),
        },
    );
    let no_sources: Vec<String> = Vec::new();
    proof {
        assert(views(no_sources@) =~= Seq::<Seq<char>>::empty());
    }
    data.branches.insert(
        shadow_name.to_owned(),
        crate::cache::CachedBranch {
            tip: shadow_tip.to_owned(),
            parent: Some(sources[0].clone()),
            merge_sources: no_sources,
        },
    );
}

/// What becomes of a diamond once some of its sources are merged.
#[derive(Debug, PartialEq, Eq)]
pub enum Dissolution {
    /// Every source is merged: the shadow goes and the consumer moves onto
    /// the trunk.
    OntoTrunk,
    /// One source is left: the shadow goes and the consumer becomes a
    /// plain branch on that source.
    OntoSource(String),
    /// Several sources are left: the shadow is rebuilt from them alone.
    Rebuild(Vec<String>),
}

/// The sources of a diamond that are not merged, in order.
pub open spec fn remaining_sources(sources: Seq<Seq<char>>, merged: Set<Seq<char>>) -> Seq<Seq<char>> {
    sources.filter(|s: Seq<char>| !merged.contains(s))
}

/// What becomes of a diamond with `sources` once the branches in `merged`
/// are merged.
pub fn dissolution(sources: &Vec<String>, merged: &StrSet) -> (r: Dissolution)
    requires
        merged.wf(),
    ensures
        ({
            let rem = remaining_sources(views(sources@), merged@);
            &&& rem.len() == 0 ==> r is OntoTrunk
            &&& rem.len() == 1 ==> (r matches Dissolution::OntoSource(s) && s@ == rem[0])
            &&& rem.len() > 1 ==> (r matches Dissolution::Rebuild(v) && views(v@) == rem)
        }),
{
    let ghost sv = views(sources@);
    let ghost keep = |s: Seq<char>| !merged@.contains(s);
    let mut rem: Vec<String> = Vec::new();
    let mut i: usize = 0;
    proof {
        assert(sv.take(0).filter(keep) =~= Seq::<Seq<char>>::empty());
    }
    while i < sources.len()
        invariant
            merged.wf(),
            sv == views(sources@),
            keep == (|s: Seq<char>| !merged@.contains(s)),
            i <= sv.len(),
            views(rem@) == sv.take(i as int).filter(keep),
        decreases sv.len() - i,
    {
        proof {
            assert(sv.take(i + 1) =~= sv.take(i as int).push(sv[i as int]));
            sv.take(i as int).lemma_filter_push(sv[i as int], keep);
            assert(sv[i as int] == sources@[i as int]@);
        }
        if !merged.contains(sources[i].as_str()) {
            let ghost before = views(rem@);
            rem.push(sources[i].clone());
            proof {
                assert(views(rem@) =~= before.push(sv[i as int]));
            }
        }
        i = i + 1;
    }
    proof {
        assert(sv.take(i as int) =~= sv);
    }
    if rem.len() == 0 {
        Dissolution::OntoTrunk
    } else if rem.len() == 1 {
        let s = rem[0].clone();
        proof {
            assert(views(rem@)[0] == rem@[0]@);
        }
        Dissolution::OntoSource(s)
    } else {
        Dissolution::Rebuild(rem)
    }
}

/// The cache after a diamond is dissolved: the shadow's records go, and
/// the consumer becomes a plain branch on `new_parent` at `consumer_tip`.
pub open spec fn dissolution_recorded(
    before: CacheFile,
    after: CacheFile,
    consumer: Seq<char>,
    shadow_name: Seq<char>,
    new_parent: Seq<char>,
    consumer_tip: Seq<char>,
) -> bool {
    &&& after.wf()
    &&& after.schema_version == before.schema_version
    &&& after.trunk == before.trunk
    &&& after.pull_requests == before.pull_requests
    &&& after.shadow_branches@ == before.shadow_branches@.remove(shadow_name)
    &&& after.branches@ == before.branches@.remove(shadow_name).insert(
        consumer,
        CachedBranchView { tip: consumer_tip, parent: Some(new_parent), merge_sources: Seq::empty() },
    )
}

/// Record in the cache that the diamond of `consumer` is dissolved and the
/// consumer now sits on `new_parent`.
pub fn record_dissolution(
    data: &mut CacheFile,
    consumer: &str,
    shadow_name: &str,
    new_parent: &str,
    consumer_tip: &str,
)
    requires
        old(data).wf(),
    ensures
        dissolution_recorded(*old(data), *final(data), consumer@, shadow_name@, new_parent@, consumer_tip@),
{
    data.shadow_branches.remove(shadow_name);
    data.branches.remove(shadow_name);
    let no_sources: Vec<String> = Vec::new();
    proof {
        assert(views(no_sources@) =~= Seq::<Seq<char>>::empty());
    }
    data.branches.insert(
        consumer.to_owned(),
        crate::cache::CachedBranch {
            tip: consumer_tip.to_owned(),
            parent: Some(new_parent.to_owned()),
            merge_sources: no_sources,
        },
    );
}

/// With two sources, the one the other already holds, and the other, as
/// (ancestor, descendant): the first source when the merge base of the two
/// is its tip, else the second when the merge base is its tip.  A diamond
/// over such a pair merges nothing new.
pub fn redundant_pair(a: &str, b: &str, merge_base: Option<&str>, tip_a: &str, tip_b: &str) -> (r: Option<
    (String, String),
>)
    ensures
        match merge_base {
            None => r is None,
            Some(mb) => if mb@ == tip_a@ {
                r matches Some(p) && p.0@ == a@ && p.1@ == b@
            } else if mb@ == tip_b@ {
                r matches Some(p) && p.0@ == b@ && p.1@ == a@
            } else {
                r is None
            },
        },
{
    match merge_base {
        None => None,
        Some(mb) => {
            if str_eq(mb, tip_a) {
                Some((a.to_owned(), b.to_owned()))
            } else if str_eq(mb, tip_b) {
                Some((b.to_owned(), a.to_owned()))
            } else {
                None
            }
        },
    }
}

} // verus!
