//! Character-sequence helpers: the order in which branch names are listed,
//! prefix tests, and a few string builders.
use vstd::prelude::*;

verus! {

/// Lexicographic order on character sequences, by code point.  This is the
/// order `Ord for String` gives (UTF-8 preserves code-point order).
pub open spec fn seq_lt(a: Seq<char>, b: Seq<char>) -> bool
    decreases a.len(),
{
    if a.len() == 0 {
        b.len() > 0
    } else if b.len() == 0 {
        false
    } else if (a[0] as int) < (b[0] as int) {
        true
    } else if a[0] == b[0] {
        seq_lt(a.drop_first(), b.drop_first())
    } else {
        false
    }
}

/// The views of a sequence of strings.
pub open spec fn views(s: Seq<String>) -> Seq<Seq<char>> {
    s.map_values(|x: String| x@)
}

/// `s` is strictly increasing in `seq_lt` order.
pub open spec fn strictly_sorted(s: Seq<Seq<char>>) -> bool {
    forall|i: int, j: int| 0 <= i < j < s.len() ==> seq_lt(#[trigger] s[i], #[trigger] s[j])
}

pub proof fn lemma_lt_irreflexive(a: Seq<char>)
    ensures
        !seq_lt(a, a),
    decreases a.len(),
{
    if a.len() > 0 {
        lemma_lt_irreflexive(a.drop_first());
    }
}

pub proof fn lemma_lt_transitive(a: Seq<char>, b: Seq<char>, c: Seq<char>)
    requires
        seq_lt(a, b),
        seq_lt(b, c),
    ensures
        seq_lt(a, c),
    decreases a.len(),
{
    if a.len() > 0 && b.len() > 0 && c.len() > 0 {
        if a[0] == b[0] && b[0] == c[0] {
            lemma_lt_transitive(a.drop_first(), b.drop_first(), c.drop_first());
        }
    }
}

pub proof fn lemma_lt_total(a: Seq<char>, b: Seq<char>)
    requires
        a != b,
    ensures
        seq_lt(a, b) || seq_lt(b, a),
    decreases a.len(),
{
    if a.len() == 0 && b.len() == 0 {
        assert(a =~= b);
    } else if a.len() > 0 && b.len() > 0 && a[0] == b[0] {
        let a1 = a.drop_first();
        let b1 = b.drop_first();
        if a1 == b1 {
            assert(a1.len() == b1.len());
            assert(a.len() == b.len());
            assert(a =~= b) by {
                assert forall|i: int| 0 <= i < a.len() implies a[i] == b[i] by {
                    if i > 0 {
                        assert(a[i] == a1[i - 1]);
                        assert(b[i] == b1[i - 1]);
                    }
                }
            }
        }
        lemma_lt_total(a1, b1);
    } else if a.len() > 0 && b.len() > 0 {
        assert((a[0] as int) != (b[0] as int));
    }
}

/// Is `a` ordered strictly before `b`?
pub fn str_less(a: &str, b: &str) -> (r: bool)
    ensures
        r == seq_lt(a@, b@),
{
    let la = a.unicode_len();
    let lb = b.unicode_len();
    let mut i: usize = 0;
    assert(a@.skip(0) =~= a@);
    assert(b@.skip(0) =~= b@);
    while i < la && i < lb
        invariant
            la == a@.len(),
            lb == b@.len(),
            i <= la,
            i <= lb,
            seq_lt(a@, b@) == seq_lt(a@.skip(i as int), b@.skip(i as int)),
        decreases la - i,
    {
        let ca = a.get_char(i);
        let cb = b.get_char(i);
        let ghost sa = a@.skip(i as int);
        let ghost sb = b@.skip(i as int);
        assert(sa[0] == ca && sb[0] == cb);
        if (ca as u32) < (cb as u32) {
            return true;
        }
        if ca != cb {
            return false;
        }
        assert(sa.drop_first() =~= a@.skip(i + 1));
        assert(sb.drop_first() =~= b@.skip(i + 1));
        i = i + 1;
    }
    i == la && i < lb
}

/// Do `a` and `b` hold the same characters?
pub fn str_eq(a: &str, b: &str) -> (r: bool)
    ensures
        r == (a@ == b@),
{
    let la = a.unicode_len();
    let lb = b.unicode_len();
    if la != lb {
        return false;
    }
    let mut i: usize = 0;
    while i < la
        invariant
            la == a@.len(),
            lb == b@.len(),
            la == lb,
            i <= la,
            forall|j: int| 0 <= j < i ==> a@[j] == b@[j],
        decreases la - i,
    {
        if a.get_char(i) != b.get_char(i) {
            return false;
        }
        i = i + 1;
    }
    assert(a@ =~= b@);
    true
}

/// Does `s` start with `prefix`?
pub open spec fn seq_starts_with(s: Seq<char>, prefix: Seq<char>) -> bool {
    prefix.len() <= s.len() && s.subrange(0, prefix.len() as int) == prefix
}

/// Does `s` start with `prefix`?
pub fn str_starts_with(s: &str, prefix: &str) -> (r: bool)
    ensures
        r == seq_starts_with(s@, prefix@),
{
    let ls = s.unicode_len();
    let lp = prefix.unicode_len();
    if lp > ls {
        return false;
    }
    let mut i: usize = 0;
    while i < lp
        invariant
            ls == s@.len(),
            lp == prefix@.len(),
            lp <= ls,
            i <= lp,
            forall|j: int| 0 <= j < i ==> s@[j] == prefix@[j],
        decreases lp - i,
    {
        if s.get_char(i) != prefix.get_char(i) {
            assert(s@.subrange(0, lp as int)[i as int] != prefix@[i as int]);
            return false;
        }
        i = i + 1;
    }
    assert(s@.subrange(0, lp as int) =~= prefix@);
    true
}

/// `needle` occurs in `s` at position `i`.
pub open spec fn occurs_at(s: Seq<char>, needle: Seq<char>, i: int) -> bool {
    0 <= i && i + needle.len() <= s.len() && s.subrange(i, i + needle.len()) == needle
}

/// `needle` occurs somewhere in `s`.
pub open spec fn seq_contains_seq(s: Seq<char>, needle: Seq<char>) -> bool {
    exists|i: int| #[trigger] occurs_at(s, needle, i)
}

/// Does `needle` occur in `s`?
pub fn str_contains(s: &str, needle: &str) -> (r: bool)
    ensures
        r == seq_contains_seq(s@, needle@),
{
    let ls = s.unicode_len();
    let ln = needle.unicode_len();
    if ln > ls {
        proof {
            assert forall|i: int| !#[trigger] occurs_at(s@, needle@, i) by {}
        }
        return false;
    }
    let mut i: usize = 0;
    while i <= ls - ln
        invariant
            ls == s@.len(),
            ln == needle@.len(),
            ln <= ls,
            i <= ls - ln + 1,
            forall|k: int| 0 <= k < i ==> !#[trigger] occurs_at(s@, needle@, k),
        decreases ls - ln + 1 - i,
    {
        let mut j: usize = 0;
        let mut same = true;
        while j < ln
            invariant
                ls == s@.len(),
                ln == needle@.len(),
                i + ln <= ls,
                j <= ln,
                same ==> forall|t: int| 0 <= t < j ==> s@[i + t] == needle@[t],
                !same ==> exists|t: int| 0 <= t < ln && s@[i + t] != needle@[t],
            decreases ln - j,
        {
            if s.get_char(i + j) != needle.get_char(j) {
                same = false;
            }
            j = j + 1;
        }
        if same {
            proof {
                assert(s@.subrange(i as int, i + ln) =~= needle@);
                assert(occurs_at(s@, needle@, i as int));
            }
            return true;
        }
        proof {
            let t = choose|t: int| 0 <= t < ln && s@[i + t] != needle@[t];
            assert(s@.subrange(i as int, i + ln)[t] != needle@[t]);
            assert(!occurs_at(s@, needle@, i as int));
        }
        i = i + 1;
    }
    proof {
        assert forall|k: int| !#[trigger] occurs_at(s@, needle@, k) by {
            if 0 <= k && k + ln <= ls {
                assert(k < i);
            }
        }
    }
    false
}

/// Sort distinct strings into strictly increasing order.
pub fn sort_strings(v: Vec<String>) -> (r: Vec<String>)
    requires
        views(v@).no_duplicates(),
    ensures
        r.len() == v.len(),
        strictly_sorted(views(r@)),
        views(r@).to_set() == views(v@).to_set(),
        views(r@).no_duplicates(),
{
    let mut r: Vec<String> = Vec::new();
    let n = v.len();
    let mut i: usize = 0;
    while i < n
        invariant
            n == v.len(),
            i <= n,
            r.len() == i,
            views(v@).no_duplicates(),
            strictly_sorted(views(r@)),
            views(r@).to_set() == views(v@.take(i as int)).to_set(),
        decreases n - i,
    {
        let x = v[i].clone();
        let ghost rv = views(r@);
        // x is not yet present in r
        assert(!rv.contains(x@)) by {
            if rv.contains(x@) {
                assert(rv.to_set().contains(x@));
                assert(views(v@.take(i as int)).to_set().contains(x@));
                let j = choose|j: int| 0 <= j < i && views(v@.take(i as int))[j] == x@;
                assert(views(v@)[j] == views(v@)[i as int]);
            }
        }
        let mut p: usize = 0;
        while p < r.len() && str_less(r[p].as_str(), x.as_str())
            invariant
                p <= r.len(),
                rv == views(r@),
                forall|j: int| 0 <= j < p ==> seq_lt(#[trigger] rv[j], x@),
            decreases r.len() - p,
        {
            p = p + 1;
        }
        proof {
            if p < r.len() {
                assert(!seq_lt(rv[p as int], x@));
                assert(rv[p as int] != x@);
                lemma_lt_total(rv[p as int], x@);
            }
        }
        r.insert(p, x);
        proof {
            let nv = views(r@);
            assert(nv =~= rv.insert(p as int, x@));
            assert forall|a: int, b: int| 0 <= a < b < nv.len() implies seq_lt(
                #[trigger] nv[a],
                #[trigger] nv[b],
            ) by {
                if a < p && b < p {
                } else if a < p && b == p {
                } else if a < p && b > p {
                    assert(nv[b] == rv[b - 1]);
                    assert(seq_lt(rv[a], rv[b - 1]));
                } else if a == p {
                    assert(nv[b] == rv[b - 1]);
                    if b - 1 > p {
                        lemma_lt_transitive(x@, rv[p as int], rv[b - 1]);
                    }
                } else {
                    assert(nv[a] == rv[a - 1]);
                    assert(nv[b] == rv[b - 1]);
                }
            }
            assert(v@.take(i + 1) =~= v@.take(i as int).push(v@[i as int]));
            assert(views(v@.take(i + 1)) =~= views(v@.take(i as int)).push(x@));
            assert(nv.to_set() =~= rv.to_set().insert(x@)) by {
                assert forall|y: Seq<char>| nv.to_set().contains(y) implies rv.to_set().insert(
                    x@,
                ).contains(y) by {
                    let k = choose|k: int| 0 <= k < nv.len() && nv[k] == y;
                    if k < p {
                        assert(rv[k] == y);
                    } else if k > p {
                        assert(rv[k - 1] == y);
                    }
                }
                assert forall|y: Seq<char>| rv.to_set().insert(x@).contains(y) implies nv.to_set().contains(
                    y,
                ) by {
                    if y == x@ {
                        assert(nv[p as int] == y);
                    } else {
                        let k = choose|k: int| 0 <= k < rv.len() && rv[k] == y;
                        if k < p {
                            assert(nv[k] == y);
                        } else {
                            assert(nv[k + 1] == y);
                        }
                    }
                }
            }
            assert(views(v@.take(i as int)).push(x@) =~= views(v@.take(i as int)) + seq![x@]);
            Seq::lemma_to_set_insert_commutes(views(v@.take(i as int)), x@);
        }
        i = i + 1;
    }
    proof {
        assert(v@.take(n as int) =~= v@);
        let rv = views(r@);
        assert forall|a: int, b: int| 0 <= a < rv.len() && 0 <= b < rv.len() && a != b implies rv[a]
            != rv[b] by {
            if a < b {
                lemma_lt_irreflexive(rv[a]);
            } else {
                lemma_lt_irreflexive(rv[b]);
            }
        }
    }
    r
}

/// `parts` with `sep` between each two of them.
pub open spec fn join_with(parts: Seq<Seq<char>>, sep: Seq<char>) -> Seq<char>
    decreases parts.len(),
{
    if parts.len() == 0 {
        Seq::empty()
    } else if parts.len() == 1 {
        parts[0]
    } else {
        join_with(parts.drop_last(), sep) + sep + parts.last()
    }
}

/// `parts` with `sep` between each two of them.
pub fn join_strings(parts: &Vec<String>, sep: &str) -> (r: String)
    ensures
        r@ == join_with(views(parts@), sep@),
{
    if parts.len() == 0 {
        return String::new();
    }
    let ghost v = views(parts@);
    let mut r = parts[0].clone();
    let mut i: usize = 1;
    proof {
        assert(v.take(1).len() == 1);
        assert(v.take(1)[0] == v[0]);
    }
    while i < parts.len()
        invariant
            v == views(parts@),
            1 <= i <= parts@.len(),
            r@ == join_with(v.take(i as int), sep@),
        decreases parts@.len() - i,
    {
        proof {
            assert(v.take(i + 1).drop_last() =~= v.take(i as int));
            assert(v.take(i + 1).last() == parts@[i as int]@);
        }
        r = r.concat(sep).concat(parts[i].as_str());
        i = i + 1;
    }
    proof {
        assert(v.take(i as int) =~= v);
    }
    r
}

/// What `str::to_lowercase` gives for `s`.
pub uninterp spec fn lowercase_of(s: Seq<char>) -> Seq<char>;

/// `str::to_lowercase` from std: the lowercase form of every character,
/// by the Unicode `Lowercase` property.  Only that the result is a function
/// of the text is claimed.
#[verifier::external_body]
pub(crate) fn to_lowercase(s: &str) -> (r: String)
    ensures
        r@ == lowercase_of(s@),
{
    s.to_lowercase()
}

/// `s` without its leading whitespace.
pub open spec fn trim_start_of(s: Seq<char>) -> Seq<char>
    decreases s.len(),
{
    if s.len() > 0 && whitespace(s[0]) {
        trim_start_of(s.drop_first())
    } else {
        s
    }
}

/// `s` without its trailing whitespace.
pub open spec fn trim_end_of(s: Seq<char>) -> Seq<char>
    decreases s.len(),
{
    if s.len() > 0 && whitespace(s.last()) {
        trim_end_of(s.drop_last())
    } else {
        s
    }
}

/// `s` without leading and trailing whitespace.
pub open spec fn trimmed_of(s: Seq<char>) -> Seq<char> {
    trim_end_of(trim_start_of(s))
}

/// `s` without leading and trailing whitespace, as `str::trim` from std
/// gives it.
pub fn trim(s: &str) -> (r: String)
    ensures
        r@ == trimmed_of(s@),
{
    let n = s.unicode_len();
    let mut start: usize = 0;
    assert(s@.subrange(0, n as int) =~= s@);
    while start < n && is_whitespace(s.get_char(start))
        invariant
            n == s@.len(),
            start <= n,
            trim_start_of(s@) == trim_start_of(s@.subrange(start as int, n as int)),
        decreases n - start,
    {
        proof {
            let sub = s@.subrange(start as int, n as int);
            assert(sub[0] == s@[start as int]);
            assert(sub.drop_first() =~= s@.subrange(start + 1, n as int));
        }
        start = start + 1;
    }
    proof {
        let sub = s@.subrange(start as int, n as int);
        if sub.len() > 0 {
            assert(sub[0] == s@[start as int]);
        }
        assert(trim_start_of(sub) == sub);
    }
    let mut end: usize = n;
    while end > start && is_whitespace(s.get_char(end - 1))
        invariant
            n == s@.len(),
            start <= end <= n,
            trimmed_of(s@) == trim_end_of(s@.subrange(start as int, end as int)),
        decreases end - start,
    {
        proof {
            let t = s@.subrange(start as int, end as int);
            assert(t.last() == s@[end - 1]);
            assert(t.drop_last() =~= s@.subrange(start as int, end - 1));
        }
        end = end - 1;
    }
    proof {
        let t = s@.subrange(start as int, end as int);
        if t.len() > 0 {
            assert(t.last() == s@[end - 1]);
        }
        assert(trim_end_of(t) == t);
    }
    s.substring_char(start, end).to_owned()
}

/// What `char::to_uppercase` gives for `c`, collected into a string.
pub uninterp spec fn uppercase_of(c: char) -> Seq<char>;

/// `char::to_uppercase` from std, collected into a string: the uppercase
/// mapping of `c` by Unicode, which may be several characters.  Only that
/// the result is a function of `c` is claimed.
#[verifier::external_body]
pub(crate) fn to_uppercase(c: char) -> (r: String)
    ensures
        r@ == uppercase_of(c),
{
    c.to_uppercase().collect::<String>()
}

/// Whether `c` has the Unicode `White_Space` property, which is what
/// `char::is_whitespace` from std decides.
pub open spec fn whitespace(c: char) -> bool {
    ||| '\u{9}' <= c <= '\u{d}'
    ||| c == ' '
    ||| c == '\u{85}'
    ||| c == '\u{a0}'
    ||| c == '\u{1680}'
    ||| '\u{2000}' <= c <= '\u{200a}'
    ||| c == '\u{2028}'
    ||| c == '\u{2029}'
    ||| c == '\u{202f}'
    ||| c == '\u{205f}'
    ||| c == '\u{3000}'
}

/// Whether `c` is whitespace.
pub fn is_whitespace(c: char) -> (r: bool)
    ensures
        r == whitespace(c),
{
    ('\u{9}' <= c && c <= '\u{d}') || c == ' ' || c == '\u{85}' || c == '\u{a0}' || c == '\u{1680}'
        || ('\u{2000}' <= c && c <= '\u{200a}') || c == '\u{2028}' || c == '\u{2029}' || c == '\u{202f}'
        || c == '\u{205f}' || c == '\u{3000}'
}

} // verus!
