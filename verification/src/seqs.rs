//! Generic facts about searching sequences.

use vstd::prelude::*;

verus! {

/// Index of the first element at or after `k` satisfying `p`.
pub open spec fn first_match_from<A>(s: Seq<A>, p: spec_fn(A) -> bool, k: int) -> Option<int>
    decreases s.len() - k,
{
    if k < 0 || k >= s.len() {
        None
    } else if p(s[k]) {
        Some(k)
    } else {
        first_match_from(s, p, k + 1)
    }
}

/// Index of the first element satisfying `p`.
pub open spec fn first_match<A>(s: Seq<A>, p: spec_fn(A) -> bool) -> Option<int> {
    first_match_from(s, p, 0)
}

/// What [`first_match_from`] means.
pub proof fn lemma_first_match_from<A>(s: Seq<A>, p: spec_fn(A) -> bool, k: int)
    requires
        0 <= k,
    ensures
        match first_match_from(s, p, k) {
            Some(i) => k <= i < s.len() && p(s[i]) && forall|j: int| k <= j < i ==> !p(#[trigger] s[j]),
            None => forall|j: int| k <= j < s.len() ==> !p(#[trigger] s[j]),
        },
    decreases s.len() - k,
{
    if k < s.len() && !p(s[k]) {
        lemma_first_match_from(s, p, k + 1);
    }
}

/// What [`first_match`] means.
pub proof fn lemma_first_match<A>(s: Seq<A>, p: spec_fn(A) -> bool)
    ensures
        match first_match(s, p) {
            Some(i) => 0 <= i < s.len() && p(s[i]) && forall|j: int| 0 <= j < i ==> !p(#[trigger] s[j]),
            None => forall|j: int| 0 <= j < s.len() ==> !p(#[trigger] s[j]),
        },
{
    lemma_first_match_from(s, p, 0);
}

/// A first match is pinned down by its defining property.
pub proof fn lemma_first_match_unique<A>(s: Seq<A>, p: spec_fn(A) -> bool, i: int)
    requires
        0 <= i < s.len(),
        p(s[i]),
        forall|j: int| 0 <= j < i ==> !p(#[trigger] s[j]),
    ensures
        first_match(s, p) == Some(i),
{
    lemma_first_match(s, p);
    match first_match(s, p) {
        Some(k) => {
            if k < i {
                assert(!p(s[k]));
            } else if k > i {
                assert(!p(s[i]));
            }
        },
        None => {
            assert(!p(s[i]));
        },
    }
}

/// Appending elements does not move an existing first match.
pub proof fn lemma_first_match_push<A>(s: Seq<A>, p: spec_fn(A) -> bool, x: A)
    ensures
        first_match(s, p) is Some ==> first_match(s.push(x), p) == first_match(s, p),
        first_match(s, p) is None ==> first_match(s.push(x), p) == (if p(x) {
            Some(s.len() as int)
        } else {
            None::<int>
        }),
{
    lemma_first_match(s, p);
    lemma_first_match(s.push(x), p);
    let t = s.push(x);
    assert forall|j: int| 0 <= j < s.len() implies t[j] == s[j] by {}
    match first_match(s, p) {
        Some(i) => {
            lemma_first_match_unique(t, p, i);
        },
        None => {
            if p(x) {
                lemma_first_match_unique(t, p, s.len() as int);
            } else {
                match first_match(t, p) {
                    Some(k) => {
                        if k < s.len() {
                            assert(!p(s[k]));
                        }
                    },
                    None => {},
                }
            }
        },
    }
}

} // verus!

verus! {

/// One more element of `s` seen by a filter.
pub proof fn lemma_filter_take_step<A>(s: Seq<A>, p: spec_fn(A) -> bool, i: int)
    requires
        0 <= i < s.len(),
    ensures
        s.take(i + 1).filter(p) == (if p(s[i]) {
            s.take(i).filter(p).push(s[i])
        } else {
            s.take(i).filter(p)
        }),
{
    reveal(Seq::filter);
    assert(s.take(i + 1).drop_last() =~= s.take(i));
    assert(s.take(i + 1).last() == s[i]);
}

/// Filtering with a predicate every element satisfies changes nothing.
pub proof fn lemma_filter_all_kept<A>(s: Seq<A>, p: spec_fn(A) -> bool)
    requires
        forall|k: int| 0 <= k < s.len() ==> p(#[trigger] s[k]),
    ensures
        s.filter(p) == s,
    decreases s.len(),
{
    reveal(Seq::filter);
    if s.len() > 0 {
        let t = s.drop_last();
        assert forall|k: int| 0 <= k < t.len() implies p(#[trigger] t[k]) by {
            assert(t[k] == s[k]);
        }
        lemma_filter_all_kept(t, p);
        assert(p(s.last()));
        assert(t.push(s.last()) =~= s);
    }
}

/// Every element kept by a filter satisfies the predicate, and every
/// element of the source that satisfies it is kept.
pub proof fn lemma_filter_members<A>(s: Seq<A>, p: spec_fn(A) -> bool)
    ensures
        forall|k: int| 0 <= k < s.filter(p).len() ==> p(#[trigger] s.filter(p)[k]),
        forall|k: int| 0 <= k < s.len() && p(#[trigger] s[k]) ==> s.filter(p).contains(s[k]),
        forall|k: int| 0 <= k < s.filter(p).len() ==> s.contains(#[trigger] s.filter(p)[k]),
{
    broadcast use vstd::seq_lib::group_filter_ensures;
    lemma_filter_in_source(s, p);
}

proof fn lemma_filter_in_source<A>(s: Seq<A>, p: spec_fn(A) -> bool)
    ensures
        forall|k: int| 0 <= k < s.filter(p).len() ==> s.contains(#[trigger] s.filter(p)[k]),
    decreases s.len(),
{
    reveal(Seq::filter);
    if s.len() > 0 {
        let t = s.drop_last();
        lemma_filter_in_source(t, p);
        assert forall|k: int| 0 <= k < s.filter(p).len() implies s.contains(#[trigger] s.filter(p)[k]) by {
            if k < t.filter(p).len() {
                assert(t.contains(t.filter(p)[k]));
                let w = choose|w: int| 0 <= w < t.len() && t[w] == t.filter(p)[k];
                assert(s[w] == t[w]);
            } else {
                assert(s[s.len() - 1] == s.filter(p)[k]);
            }
        }
    }
}

/// Filtering twice with the same predicate is filtering once.
pub proof fn lemma_filter_idempotent<A>(s: Seq<A>, p: spec_fn(A) -> bool)
    ensures
        s.filter(p).filter(p) == s.filter(p),
{
    lemma_filter_members(s, p);
    lemma_filter_all_kept(s.filter(p), p);
}

} // verus!

verus! {

/// Keeps the elements whose flag is set (`keep[i]` decides `v[i]`), in
/// order; the flags are the predicate `p` evaluated on each element.
pub fn retain_flags<T>(v: &mut Vec<T>, keep: &Vec<bool>, Ghost(p): Ghost<spec_fn(T) -> bool>)
    requires
        keep@.len() == old(v)@.len(),
        forall|i: int| 0 <= i < keep@.len() ==> keep@[i] == p(#[trigger] old(v)@[i]),
    ensures
        final(v)@ == old(v)@.filter(p),
{
    let ghost orig = v@;
    let mut k: usize = 0;
    let mut i: usize = 0;
    proof {
        assert(v@.take(0) =~= orig.take(0).filter(p)) by {
            reveal(Seq::filter);
        }
        assert(v@.skip(0) =~= orig.skip(0));
    }
    while k < keep.len()
        invariant
            keep@.len() == orig.len(),
            forall|t: int| 0 <= t < keep@.len() ==> keep@[t] == p(#[trigger] orig[t]),
            k <= orig.len(),
            i <= v@.len(),
            v@.take(i as int) == orig.take(k as int).filter(p),
            v@.skip(i as int) == orig.skip(k as int),
        decreases keep@.len() - k,
    {
        let ghost cur = v@;
        assert(cur.skip(i as int).len() == cur.len() - i);
        assert(orig.skip(k as int).len() == orig.len() - k);
        assert(cur[i as int] == cur.skip(i as int)[0]);
        assert(orig[k as int] == orig.skip(k as int)[0]);
        proof {
            lemma_filter_take_step(orig, p, k as int);
        }
        if keep[k] {
            proof {
                assert(v@.take(i + 1) =~= cur.take(i as int).push(cur[i as int]));
                assert forall|t: int| 0 <= t < orig.skip(k + 1).len() implies #[trigger] v@.skip(i + 1)[t] == orig.skip(k + 1)[t] by {
                    assert(cur.skip(i as int)[t + 1] == orig.skip(k as int)[t + 1]);
                }
                assert(v@.skip(i + 1) =~= orig.skip(k + 1));
            }
            i += 1;
        } else {
            v.remove(i);
            proof {
                assert(v@.take(i as int) =~= cur.take(i as int));
                assert forall|t: int| 0 <= t < orig.skip(k + 1).len() implies #[trigger] v@.skip(i as int)[t] == orig.skip(k + 1)[t] by {
                    assert(cur.skip(i as int)[t + 1] == orig.skip(k as int)[t + 1]);
                }
                assert(v@.skip(i as int) =~= orig.skip(k + 1));
            }
        }
        k += 1;
    }
    proof {
        assert(orig.take(k as int) =~= orig);
        assert(v@.skip(i as int).len() == 0);
        assert(v@.take(i as int) =~= v@);
    }
}

} // verus!

verus! {

/// The elements of `s` whose flag in `keep` is set, in order.
pub open spec fn select<T>(s: Seq<T>, keep: Seq<bool>) -> Seq<T>
    decreases s.len(),
{
    if s.len() == 0 {
        Seq::empty()
    } else {
        let prev = select(s.drop_last(), keep);
        if keep[s.len() - 1] {
            prev.push(s.last())
        } else {
            prev
        }
    }
}

/// Keeping every element selects the whole sequence.
pub proof fn lemma_select_all_kept<T>(s: Seq<T>, keep: Seq<bool>)
    requires
        forall|k: int| 0 <= k < s.len() ==> #[trigger] keep[k],
    ensures
        select(s, keep) == s,
    decreases s.len(),
{
    if s.len() > 0 {
        lemma_select_all_kept(s.drop_last(), keep);
        assert(s.drop_last().push(s.last()) =~= s);
    }
}

/// One more element of `s` seen by [`select`].
pub proof fn lemma_select_take_step<T>(s: Seq<T>, keep: Seq<bool>, i: int)
    requires
        0 <= i < s.len(),
    ensures
        select(s.take(i + 1), keep) == (if keep[i] {
            select(s.take(i), keep).push(s[i])
        } else {
            select(s.take(i), keep)
        }),
{
    assert(s.take(i + 1).drop_last() =~= s.take(i));
    assert(s.take(i + 1).last() == s[i]);
}

/// `f` maps each selected element to its (strictly increasing) source
/// position, and covers every kept position.
pub open spec fn select_map<T>(s: Seq<T>, keep: Seq<bool>, f: Seq<int>) -> bool {
    &&& f.len() == select(s, keep).len()
    &&& forall|m: int| 0 <= m < f.len() ==> 0 <= #[trigger] f[m] < s.len() && keep[f[m]] && select(s, keep)[m] == s[f[m]]
    &&& forall|m1: int, m2: int| 0 <= m1 < m2 < f.len() ==> #[trigger] f[m1] < #[trigger] f[m2]
    &&& forall|k: int| 0 <= k < s.len() && #[trigger] keep[k] ==> exists|m: int| 0 <= m < f.len() && f[m] == k
}

/// Every selection has a source map.
pub proof fn lemma_select_map<T>(s: Seq<T>, keep: Seq<bool>) -> (f: Seq<int>)
    ensures
        select_map(s, keep, f),
    decreases s.len(),
{
    if s.len() == 0 {
        Seq::empty()
    } else {
        let t = s.drop_last();
        let g = lemma_select_map(t, keep);
        let n = s.len() - 1;
        if keep[n] {
            let f = g.push(n);
            assert forall|k: int| 0 <= k < s.len() && #[trigger] keep[k] implies exists|m: int| 0 <= m < f.len() && f[m] == k by {
                if k < n {
                    let m = choose|m: int| 0 <= m < g.len() && g[m] == k;
                    assert(f[m] == k);
                } else {
                    assert(f[f.len() - 1] == k);
                }
            }
            assert forall|m: int| 0 <= m < f.len() implies 0 <= #[trigger] f[m] < s.len() && keep[f[m]] && select(s, keep)[m] == s[f[m]] by {
                if m < g.len() {
                    assert(t[g[m]] == s[g[m]]);
                }
            }
            f
        } else {
            assert forall|k: int| 0 <= k < s.len() && #[trigger] keep[k] implies exists|m: int| 0 <= m < g.len() && g[m] == k by {
                assert(k < n);
            }
            assert forall|m: int| 0 <= m < g.len() implies 0 <= #[trigger] g[m] < s.len() && keep[g[m]] && select(s, keep)[m] == s[g[m]] by {
                assert(t[g[m]] == s[g[m]]);
            }
            g
        }
    }
}

/// Keeps the elements whose position is flagged in `keep`.
pub fn retain_selected<T>(v: &mut Vec<T>, keep: &Vec<bool>)
    requires
        keep@.len() == old(v)@.len(),
    ensures
        final(v)@ == select(old(v)@, keep@),
{
    let ghost orig = v@;
    let mut k: usize = 0;
    let mut i: usize = 0;
    proof {
        assert(v@.take(0) =~= select(orig.take(0), keep@));
        assert(v@.skip(0) =~= orig.skip(0));
    }
    while k < keep.len()
        invariant
            keep@.len() == orig.len(),
            k <= orig.len(),
            i <= k,
            i <= v@.len(),
            v@.take(i as int) == select(orig.take(k as int), keep@),
            v@.skip(i as int) == orig.skip(k as int),
        decreases keep@.len() - k,
    {
        let ghost cur = v@;
        assert(cur.skip(i as int).len() == cur.len() - i);
        assert(orig.skip(k as int).len() == orig.len() - k);
        assert(i < cur.len());
        assert(cur[i as int] == cur.skip(i as int)[0]);
        assert(orig[k as int] == orig.skip(k as int)[0]);
        proof {
            lemma_select_take_step(orig, keep@, k as int);
        }
        if keep[k] {
            proof {
                assert(v@.take(i + 1) =~= cur.take(i as int).push(cur[i as int]));
                assert forall|t: int| 0 <= t < orig.skip(k + 1).len() implies #[trigger] v@.skip(i + 1)[t] == orig.skip(k + 1)[t] by {
                    assert(cur.skip(i as int)[t + 1] == orig.skip(k as int)[t + 1]);
                }
                assert(v@.skip(i + 1) =~= orig.skip(k + 1));
            }
            i += 1;
        } else {
            v.remove(i);
            proof {
                assert(v@.take(i as int) =~= cur.take(i as int));
                assert forall|t: int| 0 <= t < orig.skip(k + 1).len() implies #[trigger] v@.skip(i as int)[t] == orig.skip(k + 1)[t] by {
                    assert(cur.skip(i as int)[t + 1] == orig.skip(k as int)[t + 1]);
                }
                assert(v@.skip(i as int) =~= orig.skip(k + 1));
            }
        }
        k += 1;
    }
    proof {
        assert(orig.take(k as int) =~= orig);
        assert(v@.skip(i as int).len() == 0);
        assert(v@.take(i as int) =~= v@);
    }
}

} // verus!

verus! {

/// `s` is ordered by `le`.
pub open spec fn sorted_by<T>(s: Seq<T>, le: spec_fn(T, T) -> bool) -> bool {
    forall|i: int, j: int| 0 <= i < j < s.len() ==> le(#[trigger] s[i], #[trigger] s[j])
}

/// `le` is a total preorder.
pub open spec fn total_preorder<T>(le: spec_fn(T, T) -> bool) -> bool {
    &&& forall|a: T, b: T| #[trigger] le(a, b) || le(b, a)
    &&& forall|a: T, b: T, c: T| #[trigger] le(a, b) && #[trigger] le(b, c) ==> le(a, c)
}

/// `x` inserted after every element of `s` it does not precede strictly.
pub open spec fn insert_sorted<T>(s: Seq<T>, x: T, le: spec_fn(T, T) -> bool) -> Seq<T> {
    match first_match(s, |y: T| !le(y, x)) {
        Some(i) => s.insert(i, x),
        None => s.push(x),
    }
}

/// The stable sort of `s` by `le`: equal elements keep their order.
pub open spec fn stable_sort<T>(s: Seq<T>, le: spec_fn(T, T) -> bool) -> Seq<T>
    decreases s.len(),
{
    if s.len() == 0 {
        s
    } else {
        insert_sorted(stable_sort(s.drop_last(), le), s.last(), le)
    }
}

/// Inserting into an ordered sequence keeps it ordered and adds one
/// element.
pub proof fn lemma_insert_sorted<T>(s: Seq<T>, x: T, le: spec_fn(T, T) -> bool)
    requires
        total_preorder(le),
        sorted_by(s, le),
    ensures
        sorted_by(insert_sorted(s, x, le), le),
        insert_sorted(s, x, le).to_multiset() == s.to_multiset().insert(x),
        insert_sorted(s, x, le).len() == s.len() + 1,
{
    broadcast use vstd::seq_lib::group_to_multiset_ensures;

    let p = |y: T| !le(y, x);
    lemma_first_match(s, p);
    let r = insert_sorted(s, x, le);
    let i = match first_match(s, p) {
        Some(i) => i,
        None => s.len() as int,
    };
    assert(r =~= s.insert(i, x));
    assert forall|k: int| 0 <= k < i implies le(#[trigger] s[k], x) by {
        assert(!p(s[k]));
    }
    assert forall|k: int| i <= k < s.len() implies le(x, #[trigger] s[k]) by {
        assert(p(s[i]));
        assert(le(s[i], x) || le(x, s[i]));
        if k > i {
            assert(le(s[i], s[k]));
        }
    }
    assert forall|a: int, b: int| 0 <= a < b < r.len() implies le(#[trigger] r[a], #[trigger] r[b]) by {
        if a < i && b == i {
        } else if a == i {
            assert(r[b] == s[b - 1]);
        } else if a < i && b > i {
            assert(r[a] == s[a]);
            assert(r[b] == s[b - 1]);
            assert(le(s[a], x));
            assert(le(x, s[b - 1]));
        } else if b < i {
            assert(r[a] == s[a]);
            assert(r[b] == s[b]);
        } else {
            assert(r[a] == s[a - 1]);
            assert(r[b] == s[b - 1]);
        }
    }
}

/// A stable sort orders its input and only reorders it.
pub proof fn lemma_stable_sort<T>(s: Seq<T>, le: spec_fn(T, T) -> bool)
    requires
        total_preorder(le),
    ensures
        sorted_by(stable_sort(s, le), le),
        stable_sort(s, le).to_multiset() == s.to_multiset(),
        stable_sort(s, le).len() == s.len(),
    decreases s.len(),
{
    broadcast use vstd::seq_lib::group_to_multiset_ensures;

    if s.len() > 0 {
        lemma_stable_sort(s.drop_last(), le);
        lemma_insert_sorted(stable_sort(s.drop_last(), le), s.last(), le);
        assert(s =~= s.drop_last().push(s.last()));
        assert(s.to_multiset() == s.drop_last().to_multiset().insert(s.last()));
    }
}

/// One more element of a stable sort, as the exec loops build it.
pub proof fn lemma_stable_sort_take<T>(s: Seq<T>, le: spec_fn(T, T) -> bool, i: int)
    requires
        0 <= i < s.len(),
    ensures
        stable_sort(s.take(i + 1), le) == insert_sorted(stable_sort(s.take(i), le), s[i], le),
{
    assert(s.take(i + 1).drop_last() =~= s.take(i));
}

/// The insertion point found by a scan: every element before `p`
/// precedes `x`, the one at `p` (if any) does not.
pub proof fn lemma_insert_point<T>(s: Seq<T>, x: T, le: spec_fn(T, T) -> bool, p: int)
    requires
        0 <= p <= s.len(),
        forall|k: int| 0 <= k < p ==> le(#[trigger] s[k], x),
        p < s.len() ==> !le(s[p], x),
    ensures
        insert_sorted(s, x, le) == s.insert(p, x),
{
    let q = |y: T| !le(y, x);
    lemma_first_match(s, q);
    if p < s.len() {
        crate::seqs::lemma_first_match_unique(s, q, p);
    } else {
        match first_match(s, q) {
            Some(k) => {
                assert(le(s[k], x));
            },
            None => {},
        }
        assert(s.push(x) =~= s.insert(p, x));
    }
}

} // verus!

verus! {

/// Filtering with a predicate no element satisfies leaves nothing.
pub proof fn lemma_filter_none<A>(s: Seq<A>, p: spec_fn(A) -> bool)
    requires
        forall|k: int| 0 <= k < s.len() ==> !p(#[trigger] s[k]),
    ensures
        s.filter(p) == Seq::<A>::empty(),
    decreases s.len(),
{
    reveal(Seq::filter);
    if s.len() > 0 {
        let t = s.drop_last();
        assert forall|k: int| 0 <= k < t.len() implies !p(#[trigger] t[k]) by {
            assert(t[k] == s[k]);
        }
        lemma_filter_none(t, p);
        assert(!p(s.last()));
    }
}

} // verus!
