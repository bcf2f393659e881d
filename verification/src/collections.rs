//! String-keyed maps and string sets.
//!
//! Branch names key every table the tool keeps.  The tables are stored as
//! vectors whose keys never repeat; their meaning is a mathematical map (or
//! set) over the characters of the names.
use vstd::prelude::*;
use crate::text::{views, seq_lt, strictly_sorted, sort_strings, str_eq};

verus! {

/// Values that can be duplicated without changing what they mean.
pub trait Dup: View + Sized {
    fn dup(&self) -> (r: Self)
        ensures
            r@ == self@,
    ;
}

impl Dup for String {
    fn dup(&self) -> (r: Self) {
        self.clone()
    }
}

impl Dup for bool {
    fn dup(&self) -> (r: Self) {
        *self
    }
}

impl Dup for u64 {
    fn dup(&self) -> (r: Self) {
        *self
    }
}

impl Dup for Option<String> {
    fn dup(&self) -> (r: Self) {
        match self {
            Some(s) => Some(s.clone()),
            None => None,
        }
    }
}

/// A copy of a list of strings.
pub fn dup_strings(v: &Vec<String>) -> (r: Vec<String>)
    ensures
        r@ == v@,
        views(r@) == views(v@),
{
    let r = v.clone();
    assert(r@ =~= v@) by {
        assert forall|i: int| 0 <= i < v@.len() implies r@[i] == v@[i] by {
            assert(vstd::pervasive::cloned::<String>(v@[i], r@[i]));
        }
    }
    r
}

/// A map from strings to values, with no key stored twice.
pub struct StrMap<V> {
    entries: Vec<(String, V)>,
}

impl<V: View> View for StrMap<V> {
    type V = Map<Seq<char>, V::V>;

    open spec fn view(&self) -> Map<Seq<char>, V::V> {
        Map::new(
            |k: Seq<char>| self.keys().contains(k),
            |k: Seq<char>| self.vals()[self.keys().index_of(k)],
        )
    }
}

impl<V: View> StrMap<V> {
    /// The keys, in storage order.
    pub closed spec fn keys(&self) -> Seq<Seq<char>> {
        self.entries@.map_values(|e: (String, V)| e.0@)
    }

    /// The values, in storage order.
    pub closed spec fn vals(&self) -> Seq<V::V> {
        self.entries@.map_values(|e: (String, V)| e.1@)
    }

    /// No key is stored twice.
    pub closed spec fn wf(&self) -> bool {
        self.keys().no_duplicates()
    }

    pub proof fn lemma_wf(&self)
        requires
            self.wf(),
        ensures
            self.keys().len() == self.vals().len(),
            self.keys().no_duplicates(),
            forall|i: int|
                0 <= i < self.keys().len() ==> #[trigger] self@.contains_key(self.keys()[i])
                    && self@[self.keys()[i]] == self.vals()[i],
            forall|k: Seq<char>| #[trigger]
                self@.contains_key(k) ==> exists|i: int|
                    0 <= i < self.keys().len() && self.keys()[i] == k,
            self@.dom() == self.keys().to_set(),
            self@.dom().finite(),
            self@.len() == self.keys().len(),
            forall|k: Seq<char>| #[trigger] self.keys().contains(k) == self@.contains_key(k),
    {
        let ks = self.keys();
        assert forall|i: int| 0 <= i < ks.len() implies #[trigger] self@.contains_key(ks[i])
            && self@[ks[i]] == self.vals()[i] by {
            assert(ks.contains(ks[i]));
            let j = ks.index_of(ks[i]);
            assert(0 <= j < ks.len() && ks[j] == ks[i]);
        }
        assert(self@.dom() =~= ks.to_set());
        ks.unique_seq_to_set();
    }

    pub fn new() -> (r: Self)
        ensures
            r.wf(),
            r@ == Map::<Seq<char>, V::V>::empty(),
            r.keys().len() == 0,
    {
        let r = StrMap { entries: Vec::new() };
        assert(r@ =~= Map::<Seq<char>, V::V>::empty());
        r
    }

    /// Number of entries.
    pub fn len(&self) -> (n: usize)
        ensures
            n == self.keys().len(),
            n == self.vals().len(),
    {
        self.entries.len()
    }

    pub fn is_empty(&self) -> (b: bool)
        requires
            self.wf(),
        ensures
            b == (self@.len() == 0),
            b == (self.keys().len() == 0),
    {
        proof {
            self.lemma_wf();
        }
        self.entries.len() == 0
    }

    /// The key stored at position `i`.
    pub fn key_at(&self, i: usize) -> (k: &String)
        requires
            i < self.keys().len(),
        ensures
            k@ == self.keys()[i as int],
    {
        &self.entries[i].0
    }

    /// The value stored at position `i`.
    pub fn value_at(&self, i: usize) -> (v: &V)
        requires
            i < self.keys().len(),
        ensures
            v@ == self.vals()[i as int],
    {
        &self.entries[i].1
    }

    /// The position of key `k`, if stored.
    pub fn find(&self, k: &str) -> (r: Option<usize>)
        requires
            self.wf(),
        ensures
            match r {
                Some(i) => i < self.keys().len() && self.keys()[i as int] == k@
                    && self@.contains_key(k@),
                None => !self@.contains_key(k@),
            },
    {
        proof {
            self.lemma_wf();
        }
        let n = self.entries.len();
        let mut i: usize = 0;
        while i < n
            invariant
                n == self.keys().len(),
                i <= n,
                forall|j: int| 0 <= j < i ==> self.keys()[j] != k@,
            decreases n - i,
        {
            if str_eq(self.entries[i].0.as_str(), k) {
                assert(self.keys()[i as int] == self.entries@[i as int].0@);
                assert(self.keys().contains(k@));
                return Some(i);
            }
            i = i + 1;
        }
        None
    }

    pub fn contains_key(&self, k: &str) -> (b: bool)
        requires
            self.wf(),
        ensures
            b == self@.contains_key(k@),
    {
        self.find(k).is_some()
    }

    pub fn get(&self, k: &str) -> (r: Option<&V>)
        requires
            self.wf(),
        ensures
            match r {
                Some(v) => self@.contains_key(k@) && v@ == self@[k@],
                None => !self@.contains_key(k@),
            },
    {
        proof {
            self.lemma_wf();
        }
        match self.find(k) {
            Some(i) => Some(&self.entries[i].1),
            None => None,
        }
    }

    /// Insert `v` under `k`, replacing any value stored there.  A new key goes
    /// at the end.
    pub fn insert(&mut self, k: String, v: V)
        requires
            old(self).wf(),
        ensures
            final(self).wf(),
            final(self)@ == old(self)@.insert(k@, v@),
            old(self)@.contains_key(k@) ==> final(self).keys() == old(self).keys(),
            !old(self)@.contains_key(k@) ==> final(self).keys() == old(self).keys().push(k@),
    {
        proof {
            self.lemma_wf();
        }
        let ghost ok = self.keys();
        let ghost ov = self.vals();
        let ghost om = self@;
        let ghost vv = v@;
        match self.find(k.as_str()) {
            Some(i) => {
                self.entries.set(i, (k, v));
                proof {
                    assert(self.keys() =~= ok);
                    assert(self.vals() =~= ov.update(i as int, vv));
                    assert forall|kk: Seq<char>| #[trigger] self@.contains_key(kk) implies self@[kk]
                        == om.insert(ok[i as int], vv)[kk] by {
                        let j = self.keys().index_of(kk);
                        assert(0 <= j < ok.len() && ok[j] == kk);
                        if kk != ok[i as int] {
                            assert(j != i);
                            assert(om[kk] == ov[j]);
                        } else {
                            assert(j == i);
                        }
                    }
                    assert(self@ =~= om.insert(ok[i as int], vv));
                }
            },
            None => {
                let ghost kv = k@;
                self.entries.push((k, v));
                proof {
                    assert(self.keys() =~= ok.push(kv));
                    assert(self.vals() =~= ov.push(vv));
                    assert(self.keys().no_duplicates()) by {
                        assert forall|a: int, b: int|
                            0 <= a < self.keys().len() && 0 <= b < self.keys().len() && a != b
                                implies self.keys()[a] != self.keys()[b] by {
                            if a < ok.len() && b < ok.len() {
                            } else if a == ok.len() {
                                assert(ok.contains(ok[b]));
                            } else {
                                assert(ok.contains(ok[a]));
                            }
                        }
                    }
                    assert forall|kk: Seq<char>| #[trigger] self@.contains_key(kk) implies self@[kk]
                        == om.insert(kv, vv)[kk] by {
                        let j = self.keys().index_of(kk);
                        assert(0 <= j < self.keys().len() && self.keys()[j] == kk);
                        if kk != kv {
                            assert(j < ok.len());
                            assert(ok.contains(kk));
                            let j2 = ok.index_of(kk);
                            assert(0 <= j2 < ok.len() && ok[j2] == kk);
                            assert(j2 == j);
                        } else {
                            assert(j == ok.len()) by {
                                if j < ok.len() {
                                    assert(ok.contains(kv));
                                }
                            }
                        }
                    }
                    assert forall|kk: Seq<char>| om.insert(kv, vv).contains_key(kk) implies #[trigger] self@.contains_key(kk) by {
                        if kk == kv {
                            assert(self.keys()[ok.len() as int] == kv);
                        } else {
                            let j = ok.index_of(kk);
                            assert(self.keys()[j] == kk);
                        }
                    }
                    assert(self@ =~= om.insert(kv, vv));
                }
            },
        }
    }

    /// Remove the entry for `k`, if any.
    pub fn remove(&mut self, k: &str)
        requires
            old(self).wf(),
        ensures
            final(self).wf(),
            final(self)@ == old(self)@.remove(k@),
    {
        proof {
            self.lemma_wf();
        }
        let ghost ok = self.keys();
        let ghost ov = self.vals();
        let ghost om = self@;
        match self.find(k) {
            Some(i) => {
                let _ = self.entries.remove(i);
                proof {
                    let nk = self.keys();
                    assert(nk =~= ok.remove(i as int));
                    assert(self.vals() =~= ov.remove(i as int));
                    assert(nk.no_duplicates()) by {
                        assert forall|a: int, b: int|
                            0 <= a < nk.len() && 0 <= b < nk.len() && a != b implies nk[a]
                                != nk[b] by {
                            let a2 = if a < i { a } else { a + 1 };
                            let b2 = if b < i { b } else { b + 1 };
                            assert(nk[a] == ok[a2]);
                            assert(nk[b] == ok[b2]);
                        }
                    }
                    assert forall|kk: Seq<char>| #[trigger] self@.contains_key(kk) implies om.remove(k@).contains_key(kk)
                        && self@[kk] == om.remove(k@)[kk] by {
                        let j = nk.index_of(kk);
                        assert(0 <= j < nk.len() && nk[j] == kk);
                        let j2 = if j < i { j } else { j + 1 };
                        assert(ok[j2] == kk);
                        assert(ok.contains(kk));
                        assert(kk != k@);
                        let j3 = ok.index_of(kk);
                        assert(0 <= j3 < ok.len() && ok[j3] == kk);
                        assert(j3 == j2);
                    }
                    assert forall|kk: Seq<char>| om.remove(k@).contains_key(kk) implies #[trigger] self@.contains_key(kk) by {
                        let j = ok.index_of(kk);
                        assert(0 <= j < ok.len() && ok[j] == kk);
                        assert(j != i);
                        let j2 = if j < i { j } else { j - 1 };
                        assert(nk[j2] == kk);
                    }
                    assert(self@ =~= om.remove(k@));
                }
            },
            None => {
                assert(om.remove(k@) =~= om);
            },
        }
    }

    /// The keys, as owned strings, in storage order.
    pub fn key_list(&self) -> (r: Vec<String>)
        requires
            self.wf(),
        ensures
            views(r@) == self.keys(),
            views(r@).to_set() == self@.dom(),
            views(r@).no_duplicates(),
    {
        proof {
            self.lemma_wf();
        }
        let mut r: Vec<String> = Vec::new();
        let n = self.entries.len();
        let mut i: usize = 0;
        while i < n
            invariant
                n == self.keys().len(),
                i <= n,
                views(r@) == self.keys().take(i as int),
            decreases n - i,
        {
            let ghost before = views(r@);
            r.push(self.entries[i].0.clone());
            assert(self.keys()[i as int] == self.entries@[i as int].0@);
            assert(views(r@) =~= before.push(self.keys()[i as int]));
            assert(self.keys().take(i + 1) =~= self.keys().take(i as int).push(self.keys()[i as int]));
            i = i + 1;
        }
        assert(self.keys().take(n as int) =~= self.keys());
        r
    }
}

impl<V: Dup> StrMap<V> {
    /// An exact copy.
    pub fn dup(&self) -> (r: Self)
        requires
            self.wf(),
        ensures
            r.wf(),
            r@ == self@,
            r.keys() == self.keys(),
            r.vals() == self.vals(),
    {
        let mut e: Vec<(String, V)> = Vec::new();
        let n = self.entries.len();
        let mut i: usize = 0;
        while i < n
            invariant
                n == self.entries.len(),
                i <= n,
                e@.len() == i,
                forall|j: int| 0 <= j < i ==> (#[trigger] e@[j]).0@ == self.entries@[j].0@,
                forall|j: int| 0 <= j < i ==> (#[trigger] e@[j]).1@ == self.entries@[j].1@,
            decreases n - i,
        {
            let k = self.entries[i].0.clone();
            let v = self.entries[i].1.dup();
            e.push((k, v));
            i = i + 1;
        }
        let r = StrMap { entries: e };
        assert(r.keys() =~= self.keys()) by {
            assert forall|j: int| 0 <= j < n implies r.keys()[j] == self.keys()[j] by {
                assert(e@[j].0@ == self.entries@[j].0@);
            }
        }
        assert(r.vals() =~= self.vals()) by {
            assert forall|j: int| 0 <= j < n implies r.vals()[j] == self.vals()[j] by {
                assert(e@[j].1@ == self.entries@[j].1@);
            }
        }
        r
    }
}

/// The first `i + 1` elements hold what the first `i` hold, and `s[i]`.
pub proof fn lemma_take_contains<T>(s: Seq<T>, i: int)
    requires
        0 <= i < s.len(),
    ensures
        forall|k: T| #[trigger] s.take(i + 1).contains(k) == (s.take(i).contains(k) || k == s[i]),
{
    assert forall|k: T| #[trigger] s.take(i + 1).contains(k) == (s.take(i).contains(k) || k == s[i]) by {
        if s.take(i + 1).contains(k) {
            let j = choose|j: int| 0 <= j < i + 1 && #[trigger] s.take(i + 1)[j] == k;
            if j < i {
                assert(s.take(i)[j] == k);
            }
        }
        if s.take(i).contains(k) {
            let j = choose|j: int| 0 <= j < i && #[trigger] s.take(i)[j] == k;
            assert(s.take(i + 1)[j] == k);
        }
        if k == s[i] {
            assert(s.take(i + 1)[i] == k);
        }
    }
}

/// Taking the whole sequence changes nothing.
pub proof fn lemma_take_all<T>(s: Seq<T>)
    ensures
        s.take(s.len() as int) == s,
{
    assert(s.take(s.len() as int) =~= s);
}

/// A set of strings, with no element stored twice.
pub struct StrSet {
    items: Vec<String>,
}

impl View for StrSet {
    type V = Set<Seq<char>>;

    open spec fn view(&self) -> Set<Seq<char>> {
        self.elems().to_set()
    }
}

impl StrSet {
    /// The elements, in storage order.
    pub closed spec fn elems(&self) -> Seq<Seq<char>> {
        views(self.items@)
    }

    pub closed spec fn wf(&self) -> bool {
        self.elems().no_duplicates()
    }

    pub proof fn lemma_wf(&self)
        requires
            self.wf(),
        ensures
            self.elems().no_duplicates(),
            self@.finite(),
            self@.len() == self.elems().len(),
            forall|i: int| 0 <= i < self.elems().len() ==> #[trigger] self@.contains(self.elems()[i]),
    {
        self.elems().unique_seq_to_set();
        assert forall|i: int| 0 <= i < self.elems().len() implies #[trigger] self@.contains(
            self.elems()[i],
        ) by {
            assert(self.elems().contains(self.elems()[i]));
        }
    }

    pub fn new() -> (r: Self)
        ensures
            r.wf(),
            r@ == Set::<Seq<char>>::empty(),
            r.elems().len() == 0,
    {
        let r = StrSet { items: Vec::new() };
        assert(r@ =~= Set::<Seq<char>>::empty());
        r
    }

    pub fn len(&self) -> (n: usize)
        ensures
            n == self.elems().len(),
    {
        self.items.len()
    }

    pub fn is_empty(&self) -> (b: bool)
        requires
            self.wf(),
        ensures
            b == (self@.len() == 0),
    {
        proof {
            self.lemma_wf();
        }
        self.items.len() == 0
    }

    pub fn item_at(&self, i: usize) -> (s: &String)
        requires
            i < self.elems().len(),
        ensures
            s@ == self.elems()[i as int],
    {
        &self.items[i]
    }

    pub fn contains(&self, s: &str) -> (b: bool)
        ensures
            b == self@.contains(s@),
    {
        let n = self.items.len();
        let mut i: usize = 0;
        while i < n
            invariant
                n == self.elems().len(),
                i <= n,
                forall|j: int| 0 <= j < i ==> self.elems()[j] != s@,
            decreases n - i,
        {
            if str_eq(self.items[i].as_str(), s) {
                assert(self.elems()[i as int] == s@);
                return true;
            }
            i = i + 1;
        }
        false
    }

    /// Add `s`; returns whether it was new.
    pub fn insert(&mut self, s: String) -> (added: bool)
        requires
            old(self).wf(),
        ensures
            final(self).wf(),
            final(self)@ == old(self)@.insert(s@),
            added == !old(self)@.contains(s@),
            added ==> final(self).elems() == old(self).elems().push(s@),
            !added ==> final(self).elems() == old(self).elems(),
    {
        if self.contains(s.as_str()) {
            assert(self@.insert(s@) =~= self@);
            false
        } else {
            let ghost old_e = self.elems();
            let ghost sv = s@;
            self.items.push(s);
            proof {
                assert(self.elems() =~= old_e.push(sv));
                assert(self.elems().no_duplicates()) by {
                    assert forall|a: int, b: int|
                        0 <= a < self.elems().len() && 0 <= b < self.elems().len() && a != b
                            implies self.elems()[a] != self.elems()[b] by {
                        if a == old_e.len() {
                            assert(old_e.contains(old_e[b]));
                        } else if b == old_e.len() {
                            assert(old_e.contains(old_e[a]));
                        }
                    }
                }
                assert(old_e + seq![sv] =~= old_e.push(sv));
                Seq::lemma_to_set_insert_commutes(old_e, sv);
            }
            true
        }
    }

    /// The elements, sorted in increasing order.
    pub fn sorted(&self) -> (r: Vec<String>)
        requires
            self.wf(),
        ensures
            strictly_sorted(views(r@)),
            views(r@).to_set() == self@,
            views(r@).no_duplicates(),
            r.len() == self@.len(),
    {
        proof {
            self.lemma_wf();
        }
        let v = self.items.clone();
        assert(views(v@) =~= self.elems()) by {
            assert forall|i: int| 0 <= i < v@.len() implies v@[i]@ == self.items@[i]@ by {
                assert(vstd::pervasive::cloned::<String>(self.items@[i], v@[i]));
            }
        }
        sort_strings(v)
    }

    /// The elements, as owned strings, in storage order.
    pub fn to_vec(&self) -> (r: Vec<String>)
        ensures
            views(r@) == self.elems(),
    {
        let v = self.items.clone();
        assert(views(v@) =~= self.elems()) by {
            assert forall|i: int| 0 <= i < v@.len() implies v@[i]@ == self.items@[i]@ by {
                assert(vstd::pervasive::cloned::<String>(self.items@[i], v@[i]));
            }
        }
        v
    }
}

/// A set holding each distinct string of `v`.
pub fn set_from_vec(v: &Vec<String>) -> (r: StrSet)
    ensures
        r.wf(),
        r@ == views(v@).to_set(),
{
    let mut r = StrSet::new();
    let n = v.len();
    let mut i: usize = 0;
    while i < n
        invariant
            n == v.len(),
            i <= n,
            r.wf(),
            r@ == views(v@.take(i as int)).to_set(),
        decreases n - i,
    {
        r.insert(v[i].clone());
        proof {
            assert(views(v@.take(i + 1)) =~= views(v@.take(i as int)) + seq![v@[i as int]@]);
            Seq::lemma_to_set_insert_commutes(views(v@.take(i as int)), v@[i as int]@);
        }
        i = i + 1;
    }
    assert(v@.take(n as int) =~= v@);
    r
}

} // verus!
