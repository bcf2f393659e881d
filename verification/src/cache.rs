//! The branch-relationship cache kept under `.git/stax/`.
//!
//! The cache records, for the trunk and for each branch, the tip commit it
//! had when its parent was last worked out; a branch whose tip has not moved
//! keeps its parent.  Reading and writing the file happen outside this
//! module: here are the records and what is computed from them.
use vstd::prelude::*;
use crate::collections::{Dup, StrMap, StrSet, dup_strings, set_from_vec, lemma_take_contains, lemma_take_all};
use crate::text::{views, str_eq};
use crate::navigate::spec_is_shadow;

verus! {

/// The cache layout this version reads and writes.
pub const SCHEMA_VERSION: u32 = 2;

/// The characters of an optional string.
pub open spec fn opt_view(o: Option<String>) -> Option<Seq<char>> {
    match o {
        Some(s) => Some(s@),
        None => None,
    }
}

fn dup_opt(o: &Option<String>) -> (r: Option<String>)
    ensures
        r == *o,
{
    match o {
        Some(s) => Some(s.clone()),
        None => None,
    }
}

pub struct TrunkInfo {
    pub name: String,
    pub tip: String,
    pub merged: Vec<String>,
}

pub struct CachedBranch {
    pub tip: String,
    pub parent: Option<String>,
    pub merge_sources: Vec<String>,
}

pub struct CachedBranchView {
    pub tip: Seq<char>,
    pub parent: Option<Seq<char>>,
    pub merge_sources: Seq<Seq<char>>,
}

impl View for CachedBranch {
    type V = CachedBranchView;

    open spec fn view(&self) -> CachedBranchView {
        CachedBranchView {
            tip: self.tip@,
            parent: opt_view(self.parent),
            merge_sources: views(self.merge_sources@),
        }
    }
}

impl Dup for CachedBranch {
    fn dup(&self) -> (r: Self) {
        CachedBranch {
            tip: self.tip.clone(),
            parent: dup_opt(&self.parent),
            merge_sources: dup_strings(&self.merge_sources),
        }
    }
}

pub struct ShadowBranch {
    pub consumer: String,
    pub sources: Vec<String>,
    pub tip: String,
}

pub struct ShadowBranchView {
    pub consumer: Seq<char>,
    pub sources: Seq<Seq<char>>,
    pub tip: Seq<char>,
}

impl View for ShadowBranch {
    type V = ShadowBranchView;

    open spec fn view(&self) -> ShadowBranchView {
        ShadowBranchView {
            consumer: self.consumer@,
            sources: views(self.sources@),
            tip: self.tip@,
        }
    }
}

impl Dup for ShadowBranch {
    fn dup(&self) -> (r: Self) {
        ShadowBranch {
            consumer: self.consumer.clone(),
            sources: dup_strings(&self.sources),
            tip: self.tip.clone(),
        }
    }
}

pub struct CachedPullRequest {
    pub number: u64,
    pub state: String,
    pub head_ref: String,
    pub base_ref: String,
    pub html_url: String,
    pub draft: bool,
}

pub struct CachedPullRequestView {
    pub number: u64,
    pub state: Seq<char>,
    pub head_ref: Seq<char>,
    pub base_ref: Seq<char>,
    pub html_url: Seq<char>,
    pub draft: bool,
}

impl View for CachedPullRequest {
    type V = CachedPullRequestView;

    open spec fn view(&self) -> CachedPullRequestView {
        CachedPullRequestView {
            number: self.number,
            state: self.state@,
            head_ref: self.head_ref@,
            base_ref: self.base_ref@,
            html_url: self.html_url@,
            draft: self.draft,
        }
    }
}

impl Dup for CachedPullRequest {
    fn dup(&self) -> (r: Self) {
        CachedPullRequest {
            number: self.number,
            state: self.state.clone(),
            head_ref: self.head_ref.clone(),
            base_ref: self.base_ref.clone(),
            html_url: self.html_url.clone(),
            draft: self.draft,
        }
    }
}

/// The whole cache file.
pub struct CacheFile {
    pub schema_version: u32,
    pub trunk: TrunkInfo,
    pub branches: StrMap<CachedBranch>,
    pub pull_requests: StrMap<CachedPullRequest>,
    pub shadow_branches: StrMap<ShadowBranch>,
}

impl CacheFile {
    /// Every table holds each key once.
    pub open spec fn wf(&self) -> bool {
        self.branches.wf() && self.pull_requests.wf() && self.shadow_branches.wf()
    }
}

/// State of a restack that may be resumed with `--continue`.
pub struct RestackState {
    /// Branch tips taken before any rebase of this restack started.
    pub old_tips: StrMap<String>,
    /// The branch that was checked out when the restack started.
    pub original_branch: String,
}

/// Result of comparing the cache against the live branch tips.
pub struct ValidationResult {
    /// Branches whose cached tip still matches: their parent can be trusted.
    pub valid: StrMap<CachedBranch>,
    /// Branches whose tip moved: their parent must be worked out again.
    pub stale: StrSet,
    /// Branches in git but not in the cache.
    pub new_branches: StrSet,
    /// Branches in the cache but no longer in git.
    pub deleted: StrSet,
    /// The trunk's name or tip differs from the cached one.
    pub trunk_changed: bool,
    /// The cached merged set; empty when the trunk changed.
    pub cached_merged: StrSet,
}

/// Handle on the cache of one repository.
pub struct StackCache {
    stax_dir: String,
    cache_path: String,
    data: Option<CacheFile>,
}

/// `base` joined with the relative path `rel`, as `Path::join` does.
pub open spec fn joined(base: Seq<char>, rel: Seq<char>) -> Seq<char> {
    if base.len() == 0 {
        rel
    } else if base.last() == '/' {
        base + rel
    } else {
        base + seq!['/'] + rel
    }
}

/// The branches a validation finds unchanged.
pub open spec fn spec_valid(
    live: Map<Seq<char>, Seq<char>>,
    cached: Map<Seq<char>, CachedBranchView>,
    trunk: Seq<char>,
) -> Map<Seq<char>, CachedBranchView> {
    Map::new(
        |n: Seq<char>|
            live.contains_key(n) && n != trunk && cached.contains_key(n) && cached[n].tip
                == live[n],
        |n: Seq<char>| cached[n],
    )
}

/// The branches whose tip moved.
pub open spec fn spec_stale(
    live: Map<Seq<char>, Seq<char>>,
    cached: Map<Seq<char>, CachedBranchView>,
    trunk: Seq<char>,
) -> Set<Seq<char>> {
    Set::new(
        |n: Seq<char>|
            live.contains_key(n) && n != trunk && cached.contains_key(n) && cached[n].tip
                != live[n],
    )
}

/// The branches the cache does not know.
pub open spec fn spec_new(
    live: Map<Seq<char>, Seq<char>>,
    cached: Map<Seq<char>, CachedBranchView>,
    trunk: Seq<char>,
) -> Set<Seq<char>> {
    Set::new(|n: Seq<char>| live.contains_key(n) && n != trunk && !cached.contains_key(n))
}

/// The cached branches that are gone.
pub open spec fn spec_deleted(
    live: Map<Seq<char>, Seq<char>>,
    cached: Map<Seq<char>, CachedBranchView>,
) -> Set<Seq<char>> {
    Set::new(|n: Seq<char>| cached.contains_key(n) && !live.contains_key(n))
}

/// Whether the trunk differs from the cached trunk.
pub open spec fn spec_trunk_changed(
    live: Map<Seq<char>, Seq<char>>,
    trunk_info: TrunkInfo,
    trunk: Seq<char>,
) -> bool {
    trunk_info.name@ != trunk || !(live.contains_key(trunk) && live[trunk] == trunk_info.tip@)
}

/// The parent map held by a cache: the trunk has no parent, every cached
/// branch has its cached parent.
pub open spec fn spec_parent_map(data: CacheFile) -> Map<Seq<char>, Option<Seq<char>>> {
    Map::new(
        |n: Seq<char>| n == data.trunk.name@ || data.branches@.contains_key(n),
        |n: Seq<char>|
            if data.branches@.contains_key(n) {
                data.branches@[n].parent
            } else {
                None
            },
    )
}

/// The branch records a rebuilt cache holds: every branch with a known
/// parent entry and a known tip, keeping its cached merge sources.
pub open spec fn spec_rebuilt_branches(
    old: Option<CacheFile>,
    parent_map: Map<Seq<char>, Option<String>>,
    commits: Map<Seq<char>, Seq<char>>,
) -> Map<Seq<char>, CachedBranchView> {
    Map::new(
        |n: Seq<char>| parent_map.contains_key(n) && commits.contains_key(n),
        |n: Seq<char>|
            CachedBranchView {
                tip: commits[n],
                parent: opt_view(parent_map[n]),
                merge_sources: match old {
                    Some(d) => if d.branches@.contains_key(n) {
                        d.branches@[n].merge_sources
                    } else {
                        Seq::empty()
                    },
                    None => Seq::empty(),
                },
            },
    )
}

/// The pull requests of `prs` whose head branch has a record in `branches`.
pub fn prs_for_branches(prs: &StrMap<CachedPullRequest>, branches: &StrMap<CachedBranch>) -> (r:
    StrMap<CachedPullRequest>)
    requires
        prs.wf(),
        branches.wf(),
    ensures
        r.wf(),
        r@ == prs@.restrict(branches@.dom()),
{
    proof {
        prs.lemma_wf();
    }
    let ghost pk = prs.keys();
    let mut r: StrMap<CachedPullRequest> = StrMap::new();
    let n = prs.len();
    let mut i: usize = 0;
    while i < n
        invariant
            n == pk.len(),
            n == prs.vals().len(),
            pk == prs.keys(),
            prs.wf(),
            branches.wf(),
            r.wf(),
            i <= n,
            forall|k: Seq<char>| #[trigger]
                r@.contains_key(k) == (pk.take(i as int).contains(k) && branches@.contains_key(k)),
            forall|k: Seq<char>| #[trigger] r@.contains_key(k) ==> r@[k] == prs@[k],
        decreases n - i,
    {
        proof {
            prs.lemma_wf();
            lemma_take_contains(pk, i as int);
            assert(prs@.contains_key(pk[i as int]));
        }
        let name = prs.key_at(i);
        if branches.contains_key(name.as_str()) {
            let pr = prs.value_at(i).dup();
            r.insert(name.clone(), pr);
        }
        i = i + 1;
    }
    proof {
        lemma_take_all(pk);
        assert(r@ =~= prs@.restrict(branches@.dom()));
    }
    r
}

/// `base` joined with the relative path `rel`.
fn join_path(base: &str, rel: &str) -> (r: String)
    ensures
        r@ == joined(base@, rel@),
{
    let n = base.unicode_len();
    if n == 0 {
        return rel.to_owned();
    }
    let last = base.get_char(n - 1);
    let b = base.to_owned();
    if last == '/' {
        b.concat(rel)
    } else {
        proof {
            reveal_strlit("/");
        }
        b.concat("/").concat(rel)
    }
}

/// The characters of an optional borrowed string.
pub open spec fn opt_str_view(o: Option<&str>) -> Option<Seq<char>> {
    match o {
        Some(s) => Some(s@),
        None => None,
    }
}

impl StackCache {
    /// Where the cache file lives.
    pub closed spec fn path(&self) -> Seq<char> {
        self.cache_path@
    }

    /// The directory holding the cache file.
    pub closed spec fn dir(&self) -> Seq<char> {
        self.stax_dir@
    }

    /// The loaded cache contents, if any.
    pub closed spec fn loaded(&self) -> Option<CacheFile> {
        self.data
    }

    pub open spec fn wf(&self) -> bool {
        match self.loaded() {
            Some(d) => d.wf(),
            None => true,
        }
    }

    /// A handle for the repository whose `.git` directory is `git_dir`;
    /// nothing is loaded yet.
    pub fn new(git_dir: &str) -> (r: Self)
        ensures
            r.dir() == joined(git_dir@, "stax"@),
            r.path() == joined(r.dir(), "cache.json"@),
            r.loaded() is None,
            r.wf(),
    {
        let dir = join_path(git_dir, "stax");
        let path = join_path(dir.as_str(), "cache.json");
        StackCache { stax_dir: dir, cache_path: path, data: None }
    }

    /// The path of the file that keeps a restack's state between runs,
    /// beside the cache file.
    pub fn restack_state_path(&self) -> (r: String)
        ensures
            r@ == joined(self.dir(), "restack-state.json"@),
    {
        join_path(self.stax_dir.as_str(), "restack-state.json")
    }

    /// The path of the cache file.
    pub fn cache_path(&self) -> (r: &String)
        ensures
            r@ == self.path(),
    {
        &self.cache_path
    }

    /// Borrow the loaded cache contents, if any.
    pub fn data_ref(&self) -> (r: Option<&CacheFile>)
        ensures
            match r {
                Some(d) => self.loaded() == Some(*d),
                None => self.loaded() is None,
            },
    {
        self.data.as_ref()
    }

    /// Mutably borrow the loaded cache contents, if any.
    pub fn data_mut(&mut self) -> (r: Option<&mut CacheFile>)
        ensures
            final(self).path() == old(self).path(),
            final(self).dir() == old(self).dir(),
            match old(self).loaded() {
                None => r is None && final(self).loaded() is None,
                Some(d) => r is Some && *r->0 == d && final(self).loaded() == Some(
                    *final(r->0),
                ),
            },
    {
        self.data.as_mut()
    }

    /// Install contents read from the cache file.  Contents of another
    /// schema version are refused, and whatever was loaded before stays.
    pub fn accept(&mut self, data: CacheFile) -> (accepted: bool)
        ensures
            accepted == (data.schema_version == SCHEMA_VERSION),
            final(self).path() == old(self).path(),
            final(self).dir() == old(self).dir(),
            accepted ==> final(self).loaded() == Some(data),
            !accepted ==> final(self).loaded() == old(self).loaded(),
    {
        if data.schema_version != SCHEMA_VERSION {
            return false;
        }
        self.data = Some(data);
        true
    }

    /// The name of the shadow branch for a consumer branch.
    pub fn shadow_name_for(consumer: &str) -> (r: String)
        ensures
            r@ == crate::navigate::shadow_prefix() + consumer@,
    {
        let s = String::from_str("stax/shadow/");
        proof {
            reveal_strlit("stax/shadow/");
        }
        s.concat(consumer)
    }

    /// Insert or update one branch record.  The branch keeps the merge
    /// sources it had.  Nothing happens when no cache is loaded.
    pub fn upsert_branch(&mut self, branch: &str, tip: &str, parent: Option<&str>)
        requires
            old(self).wf(),
        ensures
            final(self).wf(),
            final(self).path() == old(self).path(),
            final(self).dir() == old(self).dir(),
            match old(self).loaded() {
                None => final(self).loaded() is None,
                Some(d) => final(self).loaded() is Some && ({
                    let n = final(self).loaded()->0;
                    &&& n.schema_version == d.schema_version
                    &&& n.trunk == d.trunk
                    &&& n.pull_requests == d.pull_requests
                    &&& n.shadow_branches == d.shadow_branches
                    &&& n.branches@ == d.branches@.insert(
                        branch@,
                        CachedBranchView {
                            tip: tip@,
                            parent: opt_str_view(parent),
                            merge_sources: if d.branches@.contains_key(branch@) {
                                d.branches@[branch@].merge_sources
                            } else {
                                Seq::empty()
                            },
                        },
                    )
                }),
            },
    {
        if self.data.is_none() {
            return;
        }
        let mut data = self.data.take().unwrap();
        let merge_sources = match data.branches.get(branch) {
            Some(b) => dup_strings(&b.merge_sources),
            None => {
                let v: Vec<String> = Vec::new();
                assert(views(v@) =~= Seq::<Seq<char>>::empty());
                v
            },
        };
        let parent_owned = match parent {
            Some(p) => Some(p.to_owned()),
            None => None,
        };
        let entry = CachedBranch { tip: tip.to_owned(), parent: parent_owned, merge_sources };
        data.branches.insert(branch.to_owned(), entry);
        self.data = Some(data);
    }

    /// Insert or update a shadow branch record.  Nothing happens when no
    /// cache is loaded.
    pub fn upsert_shadow(&mut self, shadow_name: &str, shadow: ShadowBranch)
        requires
            old(self).wf(),
        ensures
            final(self).wf(),
            final(self).path() == old(self).path(),
            final(self).dir() == old(self).dir(),
            match old(self).loaded() {
                None => final(self).loaded() is None,
                Some(d) => final(self).loaded() is Some && ({
                    let n = final(self).loaded()->0;
                    &&& n.schema_version == d.schema_version
                    &&& n.trunk == d.trunk
                    &&& n.branches == d.branches
                    &&& n.pull_requests == d.pull_requests
                    &&& n.shadow_branches@ == d.shadow_branches@.insert(shadow_name@, shadow@)
                }),
            },
    {
        if self.data.is_none() {
            return;
        }
        let mut data = self.data.take().unwrap();
        data.shadow_branches.insert(shadow_name.to_owned(), shadow);
        self.data = Some(data);
    }

    /// Remove a shadow branch record.  Returns whether one was removed (the
    /// cache then needs saving).
    pub fn remove_shadow(&mut self, shadow_name: &str) -> (removed: bool)
        requires
            old(self).wf(),
        ensures
            final(self).wf(),
            final(self).path() == old(self).path(),
            final(self).dir() == old(self).dir(),
            match old(self).loaded() {
                None => final(self).loaded() is None && !removed,
                Some(d) => final(self).loaded() is Some && removed
                    == d.shadow_branches@.contains_key(shadow_name@) && ({
                    let n = final(self).loaded()->0;
                    &&& n.schema_version == d.schema_version
                    &&& n.trunk == d.trunk
                    &&& n.branches == d.branches
                    &&& n.pull_requests == d.pull_requests
                    &&& n.shadow_branches@ == d.shadow_branches@.remove(shadow_name@)
                }),
            },
    {
        if self.data.is_none() {
            return false;
        }
        let mut data = self.data.take().unwrap();
        let present = data.shadow_branches.contains_key(shadow_name);
        if present {
            data.shadow_branches.remove(shadow_name);
        } else {
            assert(data.shadow_branches@.remove(shadow_name@) =~= data.shadow_branches@);
        }
        self.data = Some(data);
        present
    }

    /// A shadow branch whose consumer is `consumer`, with its name.
    pub fn get_shadow_for_consumer(&self, consumer: &str) -> (r: Option<(&String, &ShadowBranch)>)
        requires
            self.wf(),
        ensures
            match r {
                Some((name, sb)) => self.loaded() is Some
                    && self.loaded()->0.shadow_branches@.contains_key(name@)
                    && self.loaded()->0.shadow_branches@[name@] == sb@ && sb.consumer@ == consumer@,
                None => match self.loaded() {
                    None => true,
                    Some(d) => forall|k: Seq<char>| #[trigger]
                        d.shadow_branches@.contains_key(k) ==> d.shadow_branches@[k].consumer
                            != consumer@,
                },
            },
    {
        let data = match &self.data {
            Some(d) => d,
            None => return None,
        };
        proof {
            data.shadow_branches.lemma_wf();
        }
        let n = data.shadow_branches.len();
        let mut i: usize = 0;
        while i < n
            invariant
                n == data.shadow_branches.keys().len(),
                n == data.shadow_branches.vals().len(),
                self.loaded() == Some(*data),
                data.shadow_branches.wf(),
                i <= n,
                forall|j: int|
                    0 <= j < i ==> (#[trigger] data.shadow_branches.vals()[j]).consumer != consumer@,
            decreases n - i,
        {
            let sb = data.shadow_branches.value_at(i);
            if str_eq(sb.consumer.as_str(), consumer) {
                proof {
                    data.shadow_branches.lemma_wf();
                    assert(data.shadow_branches@.contains_key(data.shadow_branches.keys()[i as int]));
                }
                return Some((data.shadow_branches.key_at(i), sb));
            }
            i = i + 1;
        }
        proof {
            assert forall|k: Seq<char>| #[trigger]
                data.shadow_branches@.contains_key(k) implies data.shadow_branches@[k].consumer
                != consumer@ by {
                let j = choose|j: int|
                    0 <= j < data.shadow_branches.keys().len() && #[trigger] data.shadow_branches.keys()[j]
                        == k;
                assert(data.shadow_branches@[data.shadow_branches.keys()[j]]
                    == data.shadow_branches.vals()[j]);
            }
        }
        None
    }

    /// The parent map held by the cache: the trunk maps to no parent, each
    /// cached branch to its cached parent.
    pub fn to_parent_map(data: &CacheFile) -> (r: StrMap<Option<String>>)
        requires
            data.wf(),
        ensures
            r.wf(),
            forall|n: Seq<char>| #[trigger]
                r@.contains_key(n) == spec_parent_map(*data).contains_key(n),
            forall|n: Seq<char>| #[trigger]
                r@.contains_key(n) ==> opt_view(r@[n]) == spec_parent_map(*data)[n],
    {
        let mut map: StrMap<Option<String>> = StrMap::new();
        map.insert(data.trunk.name.clone(), None);
        proof {
            data.branches.lemma_wf();
        }
        let n = data.branches.len();
        let mut i: usize = 0;
        while i < n
            invariant
                n == data.branches.keys().len(),
                data.branches.wf(),
                i <= n,
                map.wf(),
                forall|k: Seq<char>| #[trigger]
                    map@.contains_key(k) == (k == data.trunk.name@ || data.branches.keys().take(
                        i as int,
                    ).contains(k)),
                forall|k: Seq<char>| #[trigger]
                    map@.contains_key(k) ==> opt_view(map@[k]) == (if data.branches.keys().take(
                        i as int,
                    ).contains(k) {
                        data.branches@[k].parent
                    } else {
                        None
                    }),
            decreases n - i,
        {
            proof {
                data.branches.lemma_wf();
            }
            let ghost kk = data.branches.keys()[i as int];
            let name = data.branches.key_at(i).clone();
            let parent = dup_opt(&data.branches.value_at(i).parent);
            map.insert(name, parent);
            proof {
                assert(data.branches@.contains_key(kk));
                assert(data.branches@[kk] == data.branches.vals()[i as int]);
                assert forall|k: Seq<char>|
                    data.branches.keys().take(i + 1).contains(k) == (data.branches.keys().take(
                        i as int,
                    ).contains(k) || k == kk) by {
                    if data.branches.keys().take(i + 1).contains(k) {
                        let j = choose|j: int|
                            0 <= j < i + 1 && #[trigger] data.branches.keys().take(i + 1)[j] == k;
                        if j < i {
                            assert(data.branches.keys().take(i as int)[j] == k);
                        }
                    }
                    if data.branches.keys().take(i as int).contains(k) {
                        let j = choose|j: int|
                            0 <= j < i && #[trigger] data.branches.keys().take(i as int)[j] == k;
                        assert(data.branches.keys().take(i + 1)[j] == k);
                    }
                    if k == kk {
                        assert(data.branches.keys().take(i + 1)[i as int] == k);
                    }
                }
            }
            i = i + 1;
        }
        proof {
            assert(data.branches.keys().take(n as int) =~= data.branches.keys());
            assert forall|k: Seq<char>|
                data.branches.keys().contains(k) == data.branches@.contains_key(k) by {
                if data.branches@.contains_key(k) {
                    let j = choose|j: int|
                        0 <= j < data.branches.keys().len() && #[trigger] data.branches.keys()[j] == k;
                }
            }
        }
        map
    }

    /// Compare the loaded cache with the live branch tips (`live_tips` maps
    /// each branch to its commit).  `None` when no cache is loaded.
    pub fn validate(&self, live_tips: &StrMap<String>, trunk_name: &str) -> (r: Option<
        ValidationResult,
    >)
        requires
            self.wf(),
            live_tips.wf(),
        ensures
            match self.loaded() {
                None => r is None,
                Some(d) => r is Some && ({
                    let v = r->0;
                    &&& v.valid.wf()
                    &&& v.stale.wf()
                    &&& v.new_branches.wf()
                    &&& v.deleted.wf()
                    &&& v.cached_merged.wf()
                    &&& v.trunk_changed == spec_trunk_changed(live_tips@, d.trunk, trunk_name@)
                    &&& v.valid@ == spec_valid(live_tips@, d.branches@, trunk_name@)
                    &&& v.stale@ == spec_stale(live_tips@, d.branches@, trunk_name@)
                    &&& v.new_branches@ == spec_new(live_tips@, d.branches@, trunk_name@)
                    &&& v.deleted@ == spec_deleted(live_tips@, d.branches@)
                    &&& v.cached_merged@ == (if v.trunk_changed {
                        Set::<Seq<char>>::empty()
                    } else {
                        views(d.trunk.merged@).to_set()
                    })
                }),
            },
    {
        let data = match &self.data {
            Some(d) => d,
            None => return None,
        };
        let ghost lm = live_tips@;
        let ghost bm = data.branches@;
        let ghost t = trunk_name@;
        let tip_matches = match live_tips.get(trunk_name) {
            Some(tip) => str_eq(tip.as_str(), data.trunk.tip.as_str()),
            None => false,
        };
        let trunk_changed = !str_eq(data.trunk.name.as_str(), trunk_name) || !tip_matches;

        let mut valid: StrMap<CachedBranch> = StrMap::new();
        let mut stale = StrSet::new();
        let mut new_branches = StrSet::new();
        let mut deleted = StrSet::new();

        proof {
            live_tips.lemma_wf();
            data.branches.lemma_wf();
        }
        let ghost lk = live_tips.keys();
        let n = live_tips.len();
        let mut i: usize = 0;
        while i < n
            invariant
                n == lk.len(),
                n == live_tips.vals().len(),
                lk == live_tips.keys(),
                lm == live_tips@,
                bm == data.branches@,
                t == trunk_name@,
                live_tips.wf(),
                data.branches.wf(),
                valid.wf(),
                stale.wf(),
                new_branches.wf(),
                i <= n,
                forall|k: Seq<char>| #[trigger]
                    valid@.contains_key(k) == (lk.take(i as int).contains(k) && spec_valid(
                        lm,
                        bm,
                        t,
                    ).contains_key(k)),
                forall|k: Seq<char>| #[trigger] valid@.contains_key(k) ==> valid@[k] == bm[k],
                forall|k: Seq<char>| #[trigger]
                    stale@.contains(k) == (lk.take(i as int).contains(k) && spec_stale(
                        lm,
                        bm,
                        t,
                    ).contains(k)),
                forall|k: Seq<char>| #[trigger]
                    new_branches@.contains(k) == (lk.take(i as int).contains(k) && spec_new(
                        lm,
                        bm,
                        t,
                    ).contains(k)),
            decreases n - i,
        {
            proof {
                live_tips.lemma_wf();
                lemma_take_contains(lk, i as int);
                assert(lm.contains_key(lk[i as int]));
            }
            let name = live_tips.key_at(i);
            let tip = live_tips.value_at(i);
            if !str_eq(name.as_str(), trunk_name) {
                match data.branches.get(name.as_str()) {
                    Some(cached) => {
                        if str_eq(cached.tip.as_str(), tip.as_str()) {
                            valid.insert(name.clone(), cached.dup());
                        } else {
                            stale.insert(name.clone());
                        }
                    },
                    None => {
                        new_branches.insert(name.clone());
                    },
                }
            }
            i = i + 1;
        }
        proof {
            lemma_take_all(lk);
        }

        let ghost bk = data.branches.keys();
        let nb = data.branches.len();
        let mut j: usize = 0;
        while j < nb
            invariant
                nb == bk.len(),
                bk == data.branches.keys(),
                lm == live_tips@,
                bm == data.branches@,
                live_tips.wf(),
                data.branches.wf(),
                deleted.wf(),
                j <= nb,
                forall|k: Seq<char>| #[trigger]
                    deleted@.contains(k) == (bk.take(j as int).contains(k) && !lm.contains_key(k)),
            decreases nb - j,
        {
            proof {
                lemma_take_contains(bk, j as int);
            }
            let name = data.branches.key_at(j);
            if !live_tips.contains_key(name.as_str()) {
                deleted.insert(name.clone());
            }
            j = j + 1;
        }
        proof {
            lemma_take_all(bk);
            data.branches.lemma_wf();
            live_tips.lemma_wf();
            assert(valid@ =~= spec_valid(lm, bm, t));
            assert(stale@ =~= spec_stale(lm, bm, t));
            assert(new_branches@ =~= spec_new(lm, bm, t));
            assert(deleted@ =~= spec_deleted(lm, bm));
        }

        let cached_merged = if trunk_changed {
            StrSet::new()
        } else {
            set_from_vec(&data.trunk.merged)
        };
        Some(
            ValidationResult {
                valid,
                stale,
                new_branches,
                deleted,
                trunk_changed,
                cached_merged,
            },
        )
    }

    /// A fresh cache from newly worked-out parents (`parent_map`), tips
    /// (`commits`) and merged set.  Branch records keep their cached merge
    /// sources; cached pull requests are kept for branches that remain;
    /// shadow records are kept as they are.
    pub fn build_cache_data(
        &self,
        trunk_name: &str,
        trunk_tip: &str,
        parent_map: &StrMap<Option<String>>,
        commits: &StrMap<String>,
        merged: &StrSet,
    ) -> (r: CacheFile)
        requires
            self.wf(),
            parent_map.wf(),
            commits.wf(),
            merged.wf(),
        ensures
            r.wf(),
            r.schema_version == SCHEMA_VERSION,
            r.trunk.name@ == trunk_name@,
            r.trunk.tip@ == trunk_tip@,
            views(r.trunk.merged@).to_set() == merged@,
            views(r.trunk.merged@).no_duplicates(),
            r.branches@ == spec_rebuilt_branches(self.loaded(), parent_map@, commits@),
            r.pull_requests@ == match self.loaded() {
                Some(d) => d.pull_requests@.restrict(r.branches@.dom()),
                None => Map::empty(),
            },
            r.shadow_branches@ == match self.loaded() {
                Some(d) => d.shadow_branches@,
                None => Map::empty(),
            },
    {
        let ghost target = spec_rebuilt_branches(self.loaded(), parent_map@, commits@);
        let mut branches: StrMap<CachedBranch> = StrMap::new();
        proof {
            parent_map.lemma_wf();
        }
        let ghost pk = parent_map.keys();
        let n = parent_map.len();
        let mut i: usize = 0;
        while i < n
            invariant
                n == pk.len(),
                n == parent_map.vals().len(),
                pk == parent_map.keys(),
                parent_map.wf(),
                commits.wf(),
                self.wf(),
                branches.wf(),
                target == spec_rebuilt_branches(self.loaded(), parent_map@, commits@),
                i <= n,
                forall|k: Seq<char>| #[trigger]
                    branches@.contains_key(k) == (pk.take(i as int).contains(k)
                        && commits@.contains_key(k)),
                forall|k: Seq<char>| #[trigger]
                    branches@.contains_key(k) ==> branches@[k] == target[k],
            decreases n - i,
        {
            proof {
                parent_map.lemma_wf();
                lemma_take_contains(pk, i as int);
                assert(parent_map@.contains_key(pk[i as int]));
            }
            let name = parent_map.key_at(i);
            match commits.get(name.as_str()) {
                Some(tip) => {
                    let merge_sources = match &self.data {
                        Some(d) => match d.branches.get(name.as_str()) {
                            Some(b) => dup_strings(&b.merge_sources),
                            None => {
                                let v: Vec<String> = Vec::new();
                                assert(views(v@) =~= Seq::<Seq<char>>::empty());
                                v
                            },
                        },
                        None => {
                            let v: Vec<String> = Vec::new();
                            assert(views(v@) =~= Seq::<Seq<char>>::empty());
                            v
                        },
                    };
                    let entry = CachedBranch {
                        tip: tip.clone(),
                        parent: dup_opt(parent_map.value_at(i)),
                        merge_sources,
                    };
                    branches.insert(name.clone(), entry);
                },
                None => {},
            }
            i = i + 1;
        }
        proof {
            lemma_take_all(pk);
            assert(branches@ =~= target);
        }
        let pull_requests = match &self.data {
            Some(d) => prs_for_branches(&d.pull_requests, &branches),
            None => StrMap::new(),
        };
        let shadow_branches = match &self.data {
            Some(d) => d.shadow_branches.dup(),
            None => StrMap::new(),
        };
        proof {
            merged.lemma_wf();
        }
        let merged_list = merged.to_vec();
        CacheFile {
            schema_version: SCHEMA_VERSION,
            trunk: TrunkInfo {
                name: trunk_name.to_owned(),
                tip: trunk_tip.to_owned(),
                merged: merged_list,
            },
            branches,
            pull_requests,
            shadow_branches,
        }
    }

    /// Replace the cached pull requests with `prs`, keeping only those whose
    /// head branch has a record.  Nothing happens when no cache is loaded.
    pub fn save_pull_requests(&mut self, prs: &StrMap<CachedPullRequest>)
        requires
            old(self).wf(),
            prs.wf(),
        ensures
            final(self).wf(),
            final(self).path() == old(self).path(),
            final(self).dir() == old(self).dir(),
            match old(self).loaded() {
                None => final(self).loaded() is None,
                Some(d) => final(self).loaded() is Some && ({
                    let n = final(self).loaded()->0;
                    &&& n.schema_version == d.schema_version
                    &&& n.trunk == d.trunk
                    &&& n.branches == d.branches
                    &&& n.shadow_branches == d.shadow_branches
                    &&& n.pull_requests@ == prs@.restrict(d.branches@.dom())
                }),
            },
    {
        if self.data.is_none() {
            return;
        }
        let mut data = self.data.take().unwrap();
        data.pull_requests = prs_for_branches(prs, &data.branches);
        self.data = Some(data);
    }

    /// The merged branches recorded with the trunk.
    pub fn to_merged_set(data: &CacheFile) -> (r: StrSet)
        ensures
            r.wf(),
            r@ == views(data.trunk.merged@).to_set(),
    {
        set_from_vec(&data.trunk.merged)
    }
}


/// Validation sorts every live branch other than the trunk into exactly one
/// of unchanged, moved and unknown; a deleted branch is never live.
pub proof fn law_validate_partitions(
    live: Map<Seq<char>, Seq<char>>,
    cached: Map<Seq<char>, CachedBranchView>,
    trunk: Seq<char>,
    n: Seq<char>,
)
    requires
        live.contains_key(n),
        n != trunk,
    ensures
        spec_valid(live, cached, trunk).contains_key(n) || spec_stale(live, cached, trunk).contains(n)
            || spec_new(live, cached, trunk).contains(n),
        !(spec_valid(live, cached, trunk).contains_key(n) && spec_stale(live, cached, trunk).contains(n)),
        !(spec_valid(live, cached, trunk).contains_key(n) && spec_new(live, cached, trunk).contains(n)),
        !(spec_stale(live, cached, trunk).contains(n) && spec_new(live, cached, trunk).contains(n)),
        !spec_deleted(live, cached).contains(n),
{
}

/// A cache rebuilt from a set of tips, checked against those same tips,
/// finds no branch moved and none deleted, and every recorded branch other
/// than the trunk unchanged with the parent it was built with.
pub proof fn law_rebuilt_cache_is_valid(
    old: Option<CacheFile>,
    parent_map: Map<Seq<char>, Option<String>>,
    commits: Map<Seq<char>, Seq<char>>,
    trunk: Seq<char>,
)
    ensures
        spec_stale(commits, spec_rebuilt_branches(old, parent_map, commits), trunk) == Set::<
            Seq<char>,
        >::empty(),
        spec_deleted(commits, spec_rebuilt_branches(old, parent_map, commits)) == Set::<
            Seq<char>,
        >::empty(),
        forall|n: Seq<char>|
            #![trigger spec_valid(commits, spec_rebuilt_branches(old, parent_map, commits), trunk)[n]]
            parent_map.contains_key(n) && commits.contains_key(n) && n != trunk ==> spec_valid(
                commits,
                spec_rebuilt_branches(old, parent_map, commits),
                trunk,
            ).contains_key(n) && spec_valid(
                commits,
                spec_rebuilt_branches(old, parent_map, commits),
                trunk,
            )[n].parent == opt_view(parent_map[n]),
{
    let b = spec_rebuilt_branches(old, parent_map, commits);
    assert(spec_stale(commits, b, trunk) =~= Set::<Seq<char>>::empty());
    assert(spec_deleted(commits, b) =~= Set::<Seq<char>>::empty());
}

/// A trunk recorded with the live tip of the trunk is not reported changed.
pub proof fn law_recorded_trunk_unchanged(
    live: Map<Seq<char>, Seq<char>>,
    trunk_info: TrunkInfo,
)
    requires
        live.contains_key(trunk_info.name@),
        live[trunk_info.name@] == trunk_info.tip@,
    ensures
        !spec_trunk_changed(live, trunk_info, trunk_info.name@),
{
}

/// After a branch record is written, the cache's parent map gives that
/// branch the written parent, and every other branch keeps its own.
pub proof fn law_upsert_then_parent(
    d: CacheFile,
    updated: CacheFile,
    branch: Seq<char>,
    entry: CachedBranchView,
    other: Seq<char>,
)
    requires
        updated.trunk == d.trunk,
        updated.branches@ == d.branches@.insert(branch, entry),
        other != branch,
    ensures
        spec_parent_map(updated).contains_key(branch),
        spec_parent_map(updated)[branch] == entry.parent,
        spec_parent_map(updated).contains_key(other) == spec_parent_map(d).contains_key(other),
        spec_parent_map(updated).contains_key(other) ==> spec_parent_map(updated)[other]
            == spec_parent_map(d)[other],
{
}

/// Every shadow branch name is recognised as a shadow branch.
pub proof fn law_shadow_name_is_shadow(consumer: Seq<char>)
    ensures
        spec_is_shadow(crate::navigate::shadow_prefix() + consumer),
{
    let s = crate::navigate::shadow_prefix() + consumer;
    assert(s.subrange(0, crate::navigate::shadow_prefix().len() as int) =~= crate::navigate::shadow_prefix());
}

} // verus!
