//! A small theory of descending insertion sort, parameterized by a strict
//! "less than" relation. The feed and chapter queries sort with it and state
//! their results as `sort_desc` of the rows they select.
use vstd::prelude::*;

verus! {

/// Inserts `x` into `s`, in front of the first element that orders strictly
/// below it, so that a sequence sorted descending stays sorted.
pub open spec fn insert_desc<A>(s: Seq<A>, x: A, lt: spec_fn(A, A) -> bool) -> Seq<A>
    decreases s.len(),
{
    if s.len() == 0 {
        seq![x]
    } else if lt(s[0], x) {
        seq![x] + s
    } else {
        seq![s[0]] + insert_desc(s.drop_first(), x, lt)
    }
}

/// Sorts `s` descending under `lt`, inserting its elements left to right.
pub open spec fn sort_desc<A>(s: Seq<A>, lt: spec_fn(A, A) -> bool) -> Seq<A>
    decreases s.len(),
{
    if s.len() == 0 {
        Seq::empty()
    } else {
        insert_desc(sort_desc(s.drop_last(), lt), s.last(), lt)
    }
}

/// Strictly descending: every later element orders strictly below every
/// earlier one.
pub open spec fn sorted_desc<A>(s: Seq<A>, lt: spec_fn(A, A) -> bool) -> bool {
    forall|i: int, j: int| 0 <= i < j < s.len() ==> lt(#[trigger] s[j], #[trigger] s[i])
}

/// `lt` is transitive everywhere.
pub open spec fn lt_transitive<A>(lt: spec_fn(A, A) -> bool) -> bool {
    forall|a: A, b: A, c: A| #[trigger] lt(a, b) && #[trigger] lt(b, c) ==> lt(a, c)
}

/// `lt` never holds in both directions.
pub open spec fn lt_asymmetric<A>(lt: spec_fn(A, A) -> bool) -> bool {
    forall|a: A, b: A| #[trigger] lt(a, b) ==> !lt(b, a)
}

/// Every two elements of `s` at distinct positions order one way or the
/// other; in particular no element repeats.
pub open spec fn pairwise_comparable<A>(s: Seq<A>, lt: spec_fn(A, A) -> bool) -> bool {
    forall|i: int, j: int|
        0 <= i < s.len() && 0 <= j < s.len() && i != j ==> lt(#[trigger] s[i], #[trigger] s[j])
            || lt(s[j], s[i])
}

pub proof fn lemma_insert_desc_len<A>(s: Seq<A>, x: A, lt: spec_fn(A, A) -> bool)
    ensures
        insert_desc(s, x, lt).len() == s.len() + 1,
    decreases s.len(),
{
    if s.len() != 0 && !lt(s[0], x) {
        lemma_insert_desc_len(s.drop_first(), x, lt);
    }
}

pub proof fn lemma_insert_desc_contains<A>(s: Seq<A>, x: A, lt: spec_fn(A, A) -> bool, y: A)
    ensures
        insert_desc(s, x, lt).contains(y) <==> (y == x || s.contains(y)),
    decreases s.len(),
{
    if s.len() == 0 {
        assert(insert_desc(s, x, lt) =~= seq![x]);
        assert(seq![x].contains(y) <==> y == x) by {
            if y == x {
                assert(seq![x][0] == y);
            }
        }
    } else if lt(s[0], x) {
        let r = seq![x] + s;
        if y == x {
            assert(r[0] == y);
        }
        if s.contains(y) {
            let i = choose|i: int| 0 <= i < s.len() && s[i] == y;
            assert(r[i + 1] == y);
        }
        if r.contains(y) {
            let i = choose|i: int| 0 <= i < r.len() && r[i] == y;
            if i > 0 {
                assert(s[i - 1] == y);
            }
        }
    } else {
        lemma_insert_desc_contains(s.drop_first(), x, lt, y);
        let t = insert_desc(s.drop_first(), x, lt);
        let r = seq![s[0]] + t;
        if y == s[0] {
            assert(s.contains(y)) by {
                assert(s[0] == y);
            }
            assert(r[0] == y);
        }
        if t.contains(y) {
            let i = choose|i: int| 0 <= i < t.len() && t[i] == y;
            assert(r[i + 1] == y);
        }
        if r.contains(y) {
            let i = choose|i: int| 0 <= i < r.len() && r[i] == y;
            if i > 0 {
                assert(t[i - 1] == y);
            }
        }
        if s.contains(y) {
            let i = choose|i: int| 0 <= i < s.len() && s[i] == y;
            if i > 0 {
                assert(s.drop_first()[i - 1] == y);
            }
        }
        if s.drop_first().contains(y) {
            let i = choose|i: int| 0 <= i < s.drop_first().len() && s.drop_first()[i] == y;
            assert(s[i + 1] == y);
        }
    }
}

pub proof fn lemma_insert_desc_sorted<A>(s: Seq<A>, x: A, lt: spec_fn(A, A) -> bool)
    requires
        sorted_desc(s, lt),
        lt_transitive(lt),
        forall|i: int| 0 <= i < s.len() ==> lt(#[trigger] s[i], x) || lt(x, s[i]),
    ensures
        sorted_desc(insert_desc(s, x, lt), lt),
    decreases s.len(),
{
    if s.len() == 0 {
    } else if lt(s[0], x) {
        let r = seq![x] + s;
        assert forall|i: int, j: int| 0 <= i < j < r.len() implies lt(r[j], r[i]) by {
            if i == 0 {
                assert(r[j] == s[j - 1]);
                if j > 1 {
                    assert(lt(s[j - 1], s[0]));
                }
            } else {
                assert(lt(s[j - 1], s[i - 1]));
            }
        }
    } else {
        let d = s.drop_first();
        assert(forall|i: int| 0 <= i < d.len() ==> #[trigger] lt(d[i], s[0])) by {
            assert(forall|i: int| 0 <= i < d.len() ==> d[i] == s[i + 1]);
        }
        lemma_insert_desc_sorted(d, x, lt);
        lemma_insert_desc_len(d, x, lt);
        let t = insert_desc(d, x, lt);
        // every element of `t` orders strictly below `s[0]`
        assert forall|i: int| 0 <= i < t.len() implies lt(#[trigger] t[i], s[0]) by {
            lemma_insert_desc_contains(d, x, lt, t[i]);
            if t[i] == x {
                assert(lt(x, s[0]));
            } else {
                let k = choose|k: int| 0 <= k < d.len() && d[k] == t[i];
                assert(lt(d[k], s[0]));
            }
        }
        let r = seq![s[0]] + t;
        assert forall|i: int, j: int| 0 <= i < j < r.len() implies lt(r[j], r[i]) by {
            if i == 0 {
                assert(r[j] == t[j - 1]);
            } else {
                assert(r[i] == t[i - 1] && r[j] == t[j - 1]);
            }
        }
    }
}

pub proof fn lemma_sort_desc_properties<A>(s: Seq<A>, lt: spec_fn(A, A) -> bool)
    requires
        lt_transitive(lt),
        pairwise_comparable(s, lt),
    ensures
        sort_desc(s, lt).len() == s.len(),
        sorted_desc(sort_desc(s, lt), lt),
        forall|y: A| #[trigger] sort_desc(s, lt).contains(y) <==> s.contains(y),
    decreases s.len(),
{
    if s.len() != 0 {
        let d = s.drop_last();
        let x = s.last();
        assert(pairwise_comparable(d, lt)) by {
            assert(forall|i: int| 0 <= i < d.len() ==> d[i] == s[i]);
        }
        lemma_sort_desc_properties(d, lt);
        let t = sort_desc(d, lt);
        lemma_insert_desc_len(t, x, lt);
        assert(forall|i: int| 0 <= i < t.len() ==> lt(#[trigger] t[i], x) || lt(x, t[i])) by {
            assert forall|i: int| 0 <= i < t.len() implies lt(#[trigger] t[i], x) || lt(
                x,
                t[i],
            ) by {
                assert(t.contains(t[i]));
                assert(d.contains(t[i]));
                let k = choose|k: int| 0 <= k < d.len() && d[k] == t[i];
                assert(d[k] == s[k] && x == s[s.len() - 1] && k < s.len() - 1);
            }
        }
        lemma_insert_desc_sorted(t, x, lt);
        assert forall|y: A| #[trigger] sort_desc(s, lt).contains(y) <==> s.contains(y) by {
            lemma_insert_desc_contains(t, x, lt, y);
            if y == x {
                assert(s[s.len() - 1] == y);
                assert(s.contains(y));
            }
            if d.contains(y) {
                let i = choose|i: int| 0 <= i < d.len() && d[i] == y;
                assert(s[i] == y);
            }
            if s.contains(y) && y != x {
                let i = choose|i: int| 0 <= i < s.len() && s[i] == y;
                if i < s.len() - 1 {
                    assert(d[i] == y);
                } else {
                    assert(s[i] == x);
                }
            }
        }
    }
}

/// The recursive insertion position is the first index whose element orders
/// strictly below `x`; inserting there is `Seq::insert` at that index.
pub proof fn lemma_insert_desc_at<A>(s: Seq<A>, x: A, lt: spec_fn(A, A) -> bool, p: int)
    requires
        0 <= p <= s.len(),
        forall|j: int| 0 <= j < p ==> !lt(#[trigger] s[j], x),
        p < s.len() ==> lt(s[p], x),
    ensures
        insert_desc(s, x, lt) == s.insert(p, x),
    decreases s.len(),
{
    if s.len() == 0 {
        assert(insert_desc(s, x, lt) =~= s.insert(0, x));
    } else if lt(s[0], x) {
        assert(p == 0);
        assert(seq![x] + s =~= s.insert(0, x));
    } else {
        assert(p >= 1);
        let d = s.drop_first();
        assert(forall|j: int| 0 <= j < p - 1 ==> !lt(#[trigger] d[j], x)) by {
            assert(forall|j: int| 0 <= j < d.len() ==> d[j] == s[j + 1]);
        }
        lemma_insert_desc_at(d, x, lt, p - 1);
        assert(seq![s[0]] + d.insert(p - 1, x) =~= s.insert(p, x));
    }
}

/// Two strictly descending sequences with the same membership are equal.
pub proof fn lemma_sorted_desc_unique<A>(s1: Seq<A>, s2: Seq<A>, lt: spec_fn(A, A) -> bool)
    requires
        lt_transitive(lt),
        lt_asymmetric(lt),
        sorted_desc(s1, lt),
        sorted_desc(s2, lt),
        forall|y: A| s1.contains(y) <==> s2.contains(y),
    ensures
        s1 == s2,
    decreases s1.len(),
{
    if s1.len() == 0 {
        if s2.len() != 0 {
            assert(s2.contains(s2[0]));
            assert(false);
        }
        assert(s1 =~= s2);
    } else {
        assert(s1.contains(s1[0]));
        assert(s2.contains(s1[0]));
        if s2.len() == 0 {
            assert(false);
        }
        // the heads are both the unique maximum, so they agree
        let i = choose|i: int| 0 <= i < s2.len() && s2[i] == s1[0];
        let j = choose|j: int| 0 <= j < s1.len() && s1[j] == s2[0];
        assert(s2.contains(s2[0]));
        assert(s1.contains(s2[0]));
        if i > 0 {
            assert(lt(s2[i], s2[0]));
            if j > 0 {
                assert(lt(s1[j], s1[0]));
                assert(lt(s1[0], s1[0]));
                assert(false);
            }
            assert(lt(s1[0], s1[0]));
            assert(false);
        }
        assert(s1[0] == s2[0]);
        let d1 = s1.drop_first();
        let d2 = s2.drop_first();
        assert(forall|k: int| 0 <= k < d1.len() ==> d1[k] == s1[k + 1]);
        assert(forall|k: int| 0 <= k < d2.len() ==> d2[k] == s2[k + 1]);
        assert forall|y: A| d1.contains(y) <==> d2.contains(y) by {
            if d1.contains(y) {
                let k = choose|k: int| 0 <= k < d1.len() && d1[k] == y;
                assert(lt(y, s1[0]));
                assert(s1[k + 1] == y);
                assert(s1.contains(y));
                assert(s2.contains(y));
                let m = choose|m: int| 0 <= m < s2.len() && s2[m] == y;
                if m == 0 {
                    assert(lt(y, y));
                    assert(false);
                }
                assert(d2[m - 1] == y);
            }
            if d2.contains(y) {
                let k = choose|k: int| 0 <= k < d2.len() && d2[k] == y;
                assert(lt(y, s2[0]));
                assert(s2[k + 1] == y);
                assert(s2.contains(y));
                assert(s1.contains(y));
                let m = choose|m: int| 0 <= m < s1.len() && s1[m] == y;
                if m == 0 {
                    assert(lt(y, y));
                    assert(false);
                }
                assert(d1[m - 1] == y);
            }
        }
        lemma_sorted_desc_unique(d1, d2, lt);
        assert(s1.len() == s2.len());
        assert forall|k: int| 0 <= k < s1.len() implies s1[k] == s2[k] by {
            if k > 0 {
                assert(s1[k] == d1[k - 1]);
                assert(s2[k] == d2[k - 1]);
            }
        }
        assert(s1 =~= s2);
    }
}

} // verus!
