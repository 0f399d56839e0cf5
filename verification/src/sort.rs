//! Stable sorting by a caller-supplied order, with its result stated as the
//! sequence obtained by inserting each element, in input order, after every
//! element it does not precede.
use vstd::prelude::*;

verus! {

/// `s` with `x` inserted just after the last element that is `le` it:
/// behind every element it does not precede.
pub open spec fn insert_sorted<T>(s: Seq<T>, x: T, le: spec_fn(T, T) -> bool) -> Seq<T>
    decreases s.len(),
{
    if s.len() == 0 {
        seq![x]
    } else if le(s.last(), x) {
        s.push(x)
    } else {
        insert_sorted(s.drop_last(), x, le).push(s.last())
    }
}

/// The stable sort of `s` by `le`.
pub open spec fn sorted_by<T>(s: Seq<T>, le: spec_fn(T, T) -> bool) -> Seq<T>
    decreases s.len(),
{
    if s.len() == 0 {
        s
    } else {
        insert_sorted(sorted_by(s.drop_last(), le), s.last(), le)
    }
}

/// Whether `s` is ordered by `le`.
pub open spec fn is_sorted<T>(s: Seq<T>, le: spec_fn(T, T) -> bool) -> bool {
    forall|i: int, j: int| 0 <= i < j < s.len() ==> #[trigger] le(s[i], s[j])
}

/// Whether `le` is a total preorder.
pub open spec fn total_preorder<T>(le: spec_fn(T, T) -> bool) -> bool {
    &&& forall|a: T, b: T| #[trigger] le(a, b) || le(b, a)
    &&& forall|a: T, b: T, c: T| #[trigger] le(a, b) && #[trigger] le(b, c) ==> le(a, c)
}

proof fn lemma_insert_at<T>(s: Seq<T>, x: T, le: spec_fn(T, T) -> bool, j: int)
    requires
        0 <= j <= s.len(),
        forall|k: int| j <= k < s.len() ==> !le(#[trigger] s[k], x),
        j > 0 ==> le(s[j - 1], x),
    ensures
        insert_sorted(s, x, le) == s.take(j).push(x) + s.skip(j),
    decreases s.len(),
{
    if s.len() == 0 {
        assert(s.take(j).push(x) + s.skip(j) =~= seq![x]);
    } else if j == s.len() {
        assert(s.take(j).push(x) + s.skip(j) =~= s.push(x));
    } else {
        assert(!le(s[s.len() - 1], x));
        let d = s.drop_last();
        assert forall|k: int| j <= k < d.len() implies !le(#[trigger] d[k], x) by {
            assert(d[k] == s[k]);
        }
        if j > 0 {
            assert(d[j - 1] == s[j - 1]);
        }
        lemma_insert_at(d, x, le, j);
        assert(d.take(j).push(x) + d.skip(j) + seq![s.last()] =~= s.take(j).push(x) + s.skip(j));
    }
}

/// Insertion of `x` keeps an ordered sequence ordered and adds exactly `x`.
pub proof fn lemma_insert_sorted<T>(s: Seq<T>, x: T, le: spec_fn(T, T) -> bool)
    requires
        total_preorder(le),
        is_sorted(s, le),
    ensures
        is_sorted(insert_sorted(s, x, le), le),
        insert_sorted(s, x, le).to_multiset() == s.to_multiset().insert(x),
    decreases s.len(),
{
    broadcast use vstd::seq_lib::group_to_multiset_ensures;

    if s.len() == 0 {
        assert(seq![x] =~= Seq::<T>::empty().push(x));
    } else if le(s.last(), x) {
        let r = s.push(x);
        assert forall|i: int, j: int| 0 <= i < j < r.len() implies #[trigger] le(r[i], r[j]) by {
            if j == s.len() {
                if i < s.len() - 1 {
                    assert(le(s[i], s[s.len() - 1]));
                }
            }
        }
    } else {
        let d = s.drop_last();
        assert forall|i: int, j: int| 0 <= i < j < d.len() implies #[trigger] le(d[i], d[j]) by {
            assert(le(s[i], s[j]));
        }
        lemma_insert_sorted(d, x, le);
        let inner = insert_sorted(d, x, le);
        let r = inner.push(s.last());
        assert(le(x, s.last()));
        assert(inner.to_multiset() == d.to_multiset().insert(x));
        assert forall|k: int| 0 <= k < inner.len() implies #[trigger] le(inner[k], s.last()) by {
            assert(inner.to_multiset().count(inner[k]) > 0);
            assert(d.to_multiset().insert(x).count(inner[k]) > 0);
            if inner[k] != x {
                assert(d.to_multiset().count(inner[k]) > 0);
                assert(d.contains(inner[k]));
                let m = choose|m: int| 0 <= m < d.len() && d[m] == inner[k];
                assert(le(s[m], s[s.len() - 1]));
            }
        }
        assert forall|i: int, j: int| 0 <= i < j < r.len() implies #[trigger] le(r[i], r[j]) by {
            if j == inner.len() {
                assert(le(inner[i], s.last()));
            } else {
                assert(le(inner[i], inner[j]));
            }
        }
        assert(s =~= d.push(s.last()));
    }
}

proof fn lemma_insert_sorted_permutes<T>(s: Seq<T>, x: T, le: spec_fn(T, T) -> bool)
    ensures
        insert_sorted(s, x, le).to_multiset() == s.to_multiset().insert(x),
    decreases s.len(),
{
    broadcast use vstd::seq_lib::group_to_multiset_ensures;

    if s.len() == 0 {
        assert(seq![x] =~= Seq::<T>::empty().push(x));
    } else if !le(s.last(), x) {
        lemma_insert_sorted_permutes(s.drop_last(), x, le);
        assert(s =~= s.drop_last().push(s.last()));
    }
}

/// The stable sort holds exactly the input's elements, whatever the order.
pub proof fn lemma_sorted_by_permutes<T>(s: Seq<T>, le: spec_fn(T, T) -> bool)
    ensures
        sorted_by(s, le).to_multiset() == s.to_multiset(),
    decreases s.len(),
{
    broadcast use vstd::seq_lib::group_to_multiset_ensures;

    if s.len() > 0 {
        lemma_sorted_by_permutes(s.drop_last(), le);
        lemma_insert_sorted_permutes(sorted_by(s.drop_last(), le), s.last(), le);
        assert(s =~= s.drop_last().push(s.last()));
    }
}

/// The stable sort is ordered and holds exactly the input's elements.
pub proof fn lemma_sorted_by<T>(s: Seq<T>, le: spec_fn(T, T) -> bool)
    requires
        total_preorder(le),
    ensures
        is_sorted(sorted_by(s, le), le),
        sorted_by(s, le).to_multiset() == s.to_multiset(),
    decreases s.len(),
{
    broadcast use vstd::seq_lib::group_to_multiset_ensures;

    if s.len() > 0 {
        lemma_sorted_by(s.drop_last(), le);
        lemma_insert_sorted(sorted_by(s.drop_last(), le), s.last(), le);
        assert(s =~= s.drop_last().push(s.last()));
    }
}

/// Sorts `v` stably by the order `le` decides, which `spec_le` states.
pub fn sort_by<T, F: Fn(&T, &T) -> bool>(v: Vec<T>, le: F, Ghost(spec_le): Ghost<
    spec_fn(T, T) -> bool,
>) -> (r: Vec<T>)
    requires
        forall|a: &T, b: &T| #[trigger] le.requires((a, b)),
        forall|a: &T, b: &T, res: bool| le.ensures((a, b), res) ==> res == spec_le(*a, *b),
    ensures
        r@ == sorted_by(v@, spec_le),
{
    let ghost orig = v@;
    let mut rest = v;
    let mut out: Vec<T> = Vec::new();
    let n = rest.len();
    let mut i: usize = 0;
    assert(orig.take(0) =~= Seq::<T>::empty());
    assert(orig.skip(0) =~= orig);
    while i < n
        invariant
            n == orig.len(),
            i <= n,
            rest@ == orig.skip(i as int),
            out@ == sorted_by(orig.take(i as int), spec_le),
            forall|a: &T, b: &T| #[trigger] le.requires((a, b)),
            forall|a: &T, b: &T, res: bool| le.ensures((a, b), res) ==> res == spec_le(*a, *b),
        decreases n - i,
    {
        let x = rest.remove(0);
        assert(orig.skip(i + 1) =~= orig.skip(i as int).drop_first());
        let mut j = out.len();
        while j > 0 && !le(&out[j - 1], &x)
            invariant
                j <= out@.len(),
                forall|k: int| j <= k < out@.len() ==> !spec_le(#[trigger] out@[k], x),
                forall|a: &T, b: &T| #[trigger] le.requires((a, b)),
                forall|a: &T, b: &T, res: bool| le.ensures((a, b), res) ==> res == spec_le(
                    *a,
                    *b,
                ),
            decreases j,
        {
            j = j - 1;
        }
        proof {
            lemma_insert_at(out@, x, spec_le, j as int);
            assert(orig.take(i + 1).drop_last() =~= orig.take(i as int));
            assert(orig.take(i + 1).last() == x);
        }
        let ghost before = out@;
        out.insert(j, x);
        assert(out@ =~= before.take(j as int).push(x) + before.skip(j as int));
        i = i + 1;
    }
    assert(orig.take(n as int) =~= orig);
    out
}

/// Sorting commutes with a map that the order only looks through.
pub proof fn lemma_sorted_by_map<T, U>(
    s: Seq<T>,
    f: spec_fn(T) -> U,
    le: spec_fn(T, T) -> bool,
    le_u: spec_fn(U, U) -> bool,
)
    requires
        forall|a: T, b: T| #[trigger] le(a, b) == le_u(f(a), f(b)),
    ensures
        sorted_by(s, le).map_values(f) == sorted_by(s.map_values(f), le_u),
    decreases s.len(),
{
    if s.len() > 0 {
        lemma_sorted_by_map(s.drop_last(), f, le, le_u);
        assert(s.map_values(f).drop_last() =~= s.drop_last().map_values(f));
        lemma_insert_map(sorted_by(s.drop_last(), le), s.last(), f, le, le_u);
    } else {
        assert(s.map_values(f) =~= Seq::<U>::empty());
    }
}

proof fn lemma_insert_map<T, U>(
    s: Seq<T>,
    x: T,
    f: spec_fn(T) -> U,
    le: spec_fn(T, T) -> bool,
    le_u: spec_fn(U, U) -> bool,
)
    requires
        forall|a: T, b: T| #[trigger] le(a, b) == le_u(f(a), f(b)),
    ensures
        insert_sorted(s, x, le).map_values(f) == insert_sorted(s.map_values(f), f(x), le_u),
    decreases s.len(),
{
    if s.len() == 0 {
        assert(seq![x].map_values(f) =~= seq![f(x)]);
    } else {
        assert(s.map_values(f).last() == f(s.last()));
        assert(s.map_values(f).drop_last() =~= s.drop_last().map_values(f));
        if le(s.last(), x) {
            assert(s.push(x).map_values(f) =~= s.map_values(f).push(f(x)));
        } else {
            lemma_insert_map(s.drop_last(), x, f, le, le_u);
            assert(insert_sorted(s.drop_last(), x, le).push(s.last()).map_values(f)
                =~= insert_sorted(s.drop_last(), x, le).map_values(f).push(f(s.last())));
        }
    }
}

} // verus!
