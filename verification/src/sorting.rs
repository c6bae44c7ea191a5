//! Stable sorting.

use vstd::prelude::*;

verus! {

/// A sequence with one more element, placed after everything it does not come
/// before, searching from the end.
pub open spec fn placed<T>(s: Seq<T>, x: T, less: spec_fn(T, T) -> bool) -> Seq<T>
    decreases s.len(),
{
    if s.len() == 0 || !less(x, s.last()) {
        s.push(x)
    } else {
        placed(s.drop_last(), x, less).push(s.last())
    }
}

/// A sequence sorted stably.
pub open spec fn sorted_by<T>(s: Seq<T>, less: spec_fn(T, T) -> bool) -> Seq<T>
    decreases s.len(),
{
    if s.len() == 0 {
        Seq::empty()
    } else {
        placed(sorted_by(s.drop_last(), less), s.last(), less)
    }
}

/// Whether a relation orders like a strict comparison of keys: what comes
/// before what is transitive, and so is coming neither before nor after.
pub open spec fn strict_weak_order<T>(less: spec_fn(T, T) -> bool) -> bool {
    &&& forall|a: T| !#[trigger] less(a, a)
    &&& forall|a: T, b: T, c: T| #[trigger] less(a, b) && #[trigger] less(b, c) ==> less(a, c)
    &&& forall|a: T, b: T, c: T| !#[trigger] less(a, b) && !#[trigger] less(b, c) ==> !less(a, c)
}

/// Whether no element comes before an earlier one.
pub open spec fn in_order<T>(s: Seq<T>, less: spec_fn(T, T) -> bool) -> bool {
    forall|i: int, j: int| 0 <= i < j < s.len() ==> !less(#[trigger] s[j], #[trigger] s[i])
}

proof fn lemma_placed_position<T>(s: Seq<T>, x: T, less: spec_fn(T, T) -> bool, p: int)
    requires
        0 <= p <= s.len(),
        forall|i: int| p <= i < s.len() ==> less(x, #[trigger] s[i]),
        p > 0 ==> !less(x, s[p - 1]),
    ensures
        placed(s, x, less) == s.insert(p, x),
    decreases s.len(),
{
    if p == s.len() {
        assert(s.insert(p, x) =~= s.push(x));
    } else {
        let front = s.drop_last();
        assert forall|i: int| p <= i < front.len() implies less(x, #[trigger] front[i]) by {
            assert(front[i] == s[i]);
        }
        lemma_placed_position(front, x, less, p);
        assert(s.insert(p, x) =~= front.insert(p, x).push(s.last()));
    }
}

/// Sort stably by a strict comparison.
pub fn stable_sort<T, F: Fn(&T, &T) -> bool>(
    items: Vec<T>,
    before: F,
    Ghost(less): Ghost<spec_fn(T, T) -> bool>,
) -> (r: Vec<T>)
    requires
        forall|a: T, b: T| call_requires(before, (&a, &b)),
        forall|a: T, b: T, r: bool| #[trigger] call_ensures(before, (&a, &b), r) ==> r == less(a, b),
    ensures
        r@ == sorted_by(items@, less),
{
    let ghost all = items@;
    let mut out: Vec<T> = Vec::new();
    for x in it: items
        invariant
            it.seq() == all,
            out@ == sorted_by(all.take(it.index() as int), less),
            forall|a: T, b: T| call_requires(before, (&a, &b)),
            forall|a: T, b: T, r: bool| #[trigger]
                call_ensures(before, (&a, &b), r) ==> r == less(a, b),
    {
        let mut p: usize = out.len();
        while p > 0 && before(&x, &out[p - 1])
            invariant
                p <= out@.len(),
                forall|i: int| p <= i < out@.len() ==> less(x, #[trigger] out@[i]),
                forall|a: T, b: T| call_requires(before, (&a, &b)),
                forall|a: T, b: T, r: bool| #[trigger]
                    call_ensures(before, (&a, &b), r) ==> r == less(a, b),
            ensures
                p <= out@.len(),
                forall|i: int| p <= i < out@.len() ==> less(x, #[trigger] out@[i]),
                p > 0 ==> !less(x, out@[p - 1]),
            decreases p,
        {
            p -= 1;
        }
        proof {
            lemma_placed_position(out@, x, less, p as int);
            assert(all.take(it.index() + 1).drop_last() =~= all.take(it.index() as int));
            assert(all.take(it.index() + 1).last() == x);
        }
        out.insert(p, x);
    }
    assert(all.take(all.len() as int) =~= all);
    out
}

/// Sorting keeps every element, as often as it occurs.
pub proof fn lemma_sorted_keeps_elements<T>(s: Seq<T>, less: spec_fn(T, T) -> bool)
    ensures
        sorted_by(s, less).to_multiset() == s.to_multiset(),
        sorted_by(s, less).len() == s.len(),
    decreases s.len(),
{
    broadcast use vstd::seq_lib::group_to_multiset_ensures;

    if s.len() > 0 {
        let front = sorted_by(s.drop_last(), less);
        lemma_sorted_keeps_elements(s.drop_last(), less);
        lemma_placed_keeps_elements(front, s.last(), less);
        assert(s.drop_last().push(s.last()) =~= s);
    }
}

proof fn lemma_placed_keeps_elements<T>(s: Seq<T>, x: T, less: spec_fn(T, T) -> bool)
    ensures
        placed(s, x, less).to_multiset() == s.to_multiset().insert(x),
        placed(s, x, less).len() == s.len() + 1,
    decreases s.len(),
{
    broadcast use vstd::seq_lib::group_to_multiset_ensures;

    if s.len() > 0 && less(x, s.last()) {
        lemma_placed_keeps_elements(s.drop_last(), x, less);
        assert(s.drop_last().push(s.last()) =~= s);
        assert(s.to_multiset().insert(x) =~= s.drop_last().to_multiset().insert(x).insert(
            s.last(),
        ));
    }
}

/// Sorting by a strict comparison of keys leaves no element before an earlier
/// one.
pub proof fn lemma_sorted_is_in_order<T>(s: Seq<T>, less: spec_fn(T, T) -> bool)
    requires
        strict_weak_order(less),
    ensures
        in_order(sorted_by(s, less), less),
    decreases s.len(),
{
    if s.len() > 0 {
        lemma_sorted_is_in_order(s.drop_last(), less);
        lemma_placed_in_order(sorted_by(s.drop_last(), less), s.last(), less);
    }
}

proof fn lemma_placed_in_order<T>(s: Seq<T>, x: T, less: spec_fn(T, T) -> bool)
    requires
        strict_weak_order(less),
        in_order(s, less),
    ensures
        in_order(placed(s, x, less), less),
        forall|e: T|
            #![trigger placed(s, x, less).contains(e)]
            placed(s, x, less).contains(e) <==> s.contains(e) || e == x,
    decreases s.len(),
{
    let r = placed(s, x, less);
    if s.len() == 0 || !less(x, s.last()) {
        assert forall|i: int, j: int| 0 <= i < j < r.len() implies !less(
            #[trigger] r[j],
            #[trigger] r[i],
        ) by {
            if j == s.len() {
                if i < s.len() - 1 {
                    assert(!less(s[s.len() - 1], s[i]));
                }
            }
        }
        assert forall|e: T| #![trigger r.contains(e)] r.contains(e) <==> s.contains(e) || e == x by {
            if s.contains(e) {
                let k = choose|k: int| 0 <= k < s.len() && s[k] == e;
                assert(r[k] == e);
            }
            if e == x {
                assert(r[s.len() as int] == e);
            }
        }
    } else {
        let front = s.drop_last();
        let p = placed(front, x, less);
        assert(in_order(front, less)) by {
            assert forall|i: int, j: int| 0 <= i < j < front.len() implies !less(
                #[trigger] front[j],
                #[trigger] front[i],
            ) by {
                assert(front[j] == s[j] && front[i] == s[i]);
            }
        }
        lemma_placed_in_order(front, x, less);
        assert forall|i: int, j: int| 0 <= i < j < r.len() implies !less(
            #[trigger] r[j],
            #[trigger] r[i],
        ) by {
            if j < p.len() {
                assert(r[j] == p[j] && r[i] == p[i]);
            } else {
                assert(r[j] == s.last());
                assert(p.contains(p[i]));
                if p[i] != x {
                    let k = choose|k: int| 0 <= k < front.len() && front[k] == p[i];
                    assert(s[k] == p[i]);
                    assert(!less(s[s.len() - 1], s[k]));
                } else if less(s.last(), x) {
                    assert(less(x, x));
                }
            }
        }
        assert forall|e: T| #![trigger r.contains(e)] r.contains(e) <==> s.contains(e) || e == x by {
            if r.contains(e) {
                let k = choose|k: int| 0 <= k < r.len() && r[k] == e;
                if k < p.len() {
                    assert(p.contains(e)) by {
                        assert(p[k] == e);
                    }
                    if front.contains(e) {
                        let m = choose|m: int| 0 <= m < front.len() && front[m] == e;
                        assert(s[m] == e);
                    }
                } else {
                    assert(s[s.len() - 1] == e);
                }
            }
            if s.contains(e) || e == x {
                if e == x {
                    assert(p.contains(x));
                    let m = choose|m: int| 0 <= m < p.len() && p[m] == e;
                    assert(r[m] == e);
                } else {
                    let k = choose|k: int| 0 <= k < s.len() && s[k] == e;
                    if k < front.len() {
                        assert(front[k] == e);
                        assert(p.contains(e));
                        let m = choose|m: int| 0 <= m < p.len() && p[m] == e;
                        assert(r[m] == e);
                    } else {
                        assert(r[p.len() as int] == e);
                    }
                }
            }
        }
    }
}

/// Sorting keyed elements and dropping the keys is sorting by the keys.
pub proof fn lemma_sorted_by_mapped<T, U>(
    s: Seq<T>,
    less: spec_fn(T, T) -> bool,
    mapped_less: spec_fn(U, U) -> bool,
    f: spec_fn(T) -> U,
)
    requires
        forall|a: T, b: T|
            s.contains(a) && s.contains(b) ==> #[trigger] less(a, b) == mapped_less(f(a), f(b)),
    ensures
        sorted_by(s, less).map_values(f) == sorted_by(s.map_values(f), mapped_less),
    decreases s.len(),
{
    if s.len() == 0 {
        assert(sorted_by(s, less).map_values(f) =~= sorted_by(s.map_values(f), mapped_less));
    } else {
        let front = s.drop_last();
        let x = s.last();
        assert forall|a: T, b: T| front.contains(a) && front.contains(b) implies #[trigger] less(
            a,
            b,
        ) == mapped_less(f(a), f(b)) by {
            lemma_front_contained(s, a);
            lemma_front_contained(s, b);
        }
        lemma_sorted_by_mapped(front, less, mapped_less, f);
        let sorted = sorted_by(front, less);
        assert forall|a: T| #[trigger] sorted.contains(a) implies less(x, a) == mapped_less(
            f(x),
            f(a),
        ) by {
            lemma_sorted_contains(front, less, a);
            lemma_front_contained(s, a);
            assert(s[s.len() - 1] == x);
            assert(s.contains(x));
        }
        lemma_placed_mapped(sorted, x, less, mapped_less, f);
        assert(s.map_values(f).drop_last() =~= front.map_values(f));
        assert(s.map_values(f).last() == f(x));
    }
}

proof fn lemma_front_contained<T>(s: Seq<T>, a: T)
    requires
        s.len() > 0,
        s.drop_last().contains(a),
    ensures
        s.contains(a),
{
    let i = choose|i: int| 0 <= i < s.drop_last().len() && s.drop_last()[i] == a;
    assert(s[i] == a);
}

proof fn lemma_sorted_contains<T>(s: Seq<T>, less: spec_fn(T, T) -> bool, a: T)
    requires
        sorted_by(s, less).contains(a),
    ensures
        s.contains(a),
{
    broadcast use vstd::seq_lib::group_to_multiset_ensures;

    lemma_sorted_keeps_elements(s, less);
    assert(sorted_by(s, less).to_multiset().count(a) > 0);
    assert(s.to_multiset().count(a) > 0);
}

proof fn lemma_placed_mapped<T, U>(
    s: Seq<T>,
    x: T,
    less: spec_fn(T, T) -> bool,
    mapped_less: spec_fn(U, U) -> bool,
    f: spec_fn(T) -> U,
)
    requires
        forall|a: T| #[trigger] s.contains(a) ==> less(x, a) == mapped_less(f(x), f(a)),
    ensures
        placed(s, x, less).map_values(f) == placed(s.map_values(f), f(x), mapped_less),
    decreases s.len(),
{
    if s.len() == 0 {
        assert(placed(s, x, less).map_values(f) =~= placed(s.map_values(f), f(x), mapped_less));
    } else {
        assert(s.contains(s.last())) by {
            assert(s[s.len() - 1] == s.last());
        }
        if less(x, s.last()) {
            let front = s.drop_last();
            assert forall|a: T| #[trigger] front.contains(a) implies less(x, a) == mapped_less(
                f(x),
                f(a),
            ) by {
                lemma_front_contained(s, a);
            }
            lemma_placed_mapped(front, x, less, mapped_less, f);
            assert(s.map_values(f).drop_last() =~= front.map_values(f));
            assert(placed(s, x, less).map_values(f) =~= placed(
                front.map_values(f),
                f(x),
                mapped_less,
            ).push(f(s.last())));
        } else {
            assert(placed(s, x, less).map_values(f) =~= s.map_values(f).push(f(x)));
        }
    }
}

/// Sorting moves the elements into order and keeps those that come neither
/// before nor after one another as they stood.
pub proof fn law_sorting_is_stable<T>(s: Seq<T>, less: spec_fn(T, T) -> bool)
    requires
        strict_weak_order(less),
    ensures
        exists|places: Seq<int>|
            {
                &&& places.len() == s.len()
                &&& #[trigger] places.no_duplicates()
                &&& sorted_by(s, less).len() == s.len()
                &&& forall|i: int|
                    0 <= i < s.len() ==> 0 <= #[trigger] places[i] < s.len() && sorted_by(
                        s,
                        less,
                    )[i] == s[places[i]]
                &&& forall|i: int, j: int|
                    0 <= i < j < s.len() ==> less(
                        s[#[trigger] places[i]],
                        s[#[trigger] places[j]],
                    ) || places[i] < places[j] && !less(s[places[j]], s[places[i]])
            },
{
    let range = Seq::new(s.len(), |i: int| i);
    let mapped = |a: int, b: int| less(s[a], s[b]);
    let f = |i: int| s[i];
    let places = sorted_by(range, mapped);
    assert(range.map_values(f) =~= s);
    lemma_sorted_by_mapped(range, mapped, less, f);
    lemma_sorted_keeps_elements(range, mapped);
    assert(range.take(s.len() as int) =~= range);
    lemma_places(s, less, s.len() as int);
    assert forall|i: int| 0 <= i < s.len() implies 0 <= #[trigger] places[i] < s.len()
        && sorted_by(s, less)[i] == s[places[i]] by {
        assert(places.map_values(f)[i] == f(places[i]));
    }
}

proof fn lemma_places<T>(s: Seq<T>, less: spec_fn(T, T) -> bool, n: int)
    requires
        strict_weak_order(less),
        0 <= n <= s.len(),
    ensures
        ({
            let places = sorted_by(
                Seq::new(s.len(), |i: int| i).take(n),
                |a: int, b: int| less(s[a], s[b]),
            );
            &&& places.len() == n
            &&& places.no_duplicates()
            &&& forall|i: int| 0 <= i < n ==> 0 <= #[trigger] places[i] < n
            &&& forall|i: int, j: int|
                0 <= i < j < n ==> less(s[#[trigger] places[i]], s[#[trigger] places[j]])
                    || places[i] < places[j] && !less(s[places[j]], s[places[i]])
        }),
    decreases n,
{
    let range = Seq::new(s.len(), |i: int| i).take(n);
    let mapped = |a: int, b: int| less(s[a], s[b]);
    if n > 0 {
        lemma_places(s, less, n - 1);
        let before = sorted_by(Seq::new(s.len(), |i: int| i).take(n - 1), mapped);
        assert(range.drop_last() =~= Seq::new(s.len(), |i: int| i).take(n - 1));
        assert(range.last() == n - 1);
        lemma_place_last(s, less, before, n - 1);
    }
}

proof fn lemma_place_last<T>(s: Seq<T>, less: spec_fn(T, T) -> bool, p: Seq<int>, x: int)
    requires
        strict_weak_order(less),
        p.no_duplicates(),
        forall|i: int| 0 <= i < p.len() ==> 0 <= #[trigger] p[i] < x,
        forall|i: int, j: int|
            0 <= i < j < p.len() ==> less(s[#[trigger] p[i]], s[#[trigger] p[j]]) || p[i] < p[j]
                && !less(s[p[j]], s[p[i]]),
    ensures
        ({
            let r = placed(p, x, |a: int, b: int| less(s[a], s[b]));
            &&& r.len() == p.len() + 1
            &&& r.no_duplicates()
            &&& forall|i: int| 0 <= i < r.len() ==> 0 <= #[trigger] r[i] <= x || r[i] == x
            &&& forall|i: int|
                0 <= i < r.len() ==> #[trigger] r[i] == x || p.contains(r[i])
            &&& forall|i: int, j: int|
                0 <= i < j < r.len() ==> less(s[#[trigger] r[i]], s[#[trigger] r[j]]) || r[i]
                    < r[j] && !less(s[r[j]], s[r[i]])
        }),
    decreases p.len(),
{
    let mapped = |a: int, b: int| less(s[a], s[b]);
    let r = placed(p, x, mapped);
    if p.len() == 0 || !mapped(x, p.last()) {
        assert forall|i: int| 0 <= i < r.len() implies #[trigger] r[i] == x || p.contains(
            r[i],
        ) by {
            if i < p.len() {
                assert(p[i] == r[i]);
            }
        }
        assert forall|i: int, j: int| 0 <= i < j < r.len() implies less(
            s[#[trigger] r[i]],
            s[#[trigger] r[j]],
        ) || r[i] < r[j] && !less(s[r[j]], s[r[i]]) by {
            assert(r[i] == p[i]);
            if j < p.len() {
                assert(r[j] == p[j]);
            } else {
                let last = p.len() - 1;
                if i < last {
                    assert(less(s[p[i]], s[p[last]]) || !less(s[p[last]], s[p[i]]));
                    if less(s[x], s[p[i]]) && less(s[p[i]], s[p[last]]) {
                        assert(less(s[x], s[p[last]]));
                    }
                    if less(s[x], s[p[i]]) && !less(s[p[last]], s[p[i]]) {
                        assert(!less(s[x], s[p[last]]));
                    }
                }
            }
        }
    } else {
        let front = p.drop_last();
        assert forall|i: int, j: int| 0 <= i < j < front.len() implies less(
            s[#[trigger] front[i]],
            s[#[trigger] front[j]],
        ) || front[i] < front[j] && !less(s[front[j]], s[front[i]]) by {
            assert(front[i] == p[i] && front[j] == p[j]);
        }
        lemma_place_last(s, less, front, x);
        let q = placed(front, x, mapped);
        let e = p.last();
        assert(r == q.push(e));
        assert forall|i: int| 0 <= i < r.len() implies #[trigger] r[i] == x || p.contains(
            r[i],
        ) by {
            if i < q.len() {
                assert(r[i] == q[i]);
                if q[i] != x {
                    let k = choose|k: int| 0 <= k < front.len() && front[k] == q[i];
                    assert(p[k] == r[i]);
                }
            } else {
                assert(p[p.len() - 1] == r[i]);
            }
        }
        assert forall|i: int, j: int| 0 <= i < j < r.len() implies less(
            s[#[trigger] r[i]],
            s[#[trigger] r[j]],
        ) || r[i] < r[j] && !less(s[r[j]], s[r[i]]) by {
            assert(r[i] == q[i]);
            if j < q.len() {
                assert(r[j] == q[j]);
            } else if q[i] != x {
                let k = choose|k: int| 0 <= k < front.len() && front[k] == q[i];
                assert(p[k] == q[i] && p[p.len() - 1] == e);
            }
        }
        assert forall|i: int, j: int| 0 <= i < r.len() && 0 <= j < r.len() && i != j implies r[i]
            != r[j] by {
            if i < q.len() && j == q.len() {
                if q[i] != x {
                    let k = choose|k: int| 0 <= k < front.len() && front[k] == q[i];
                    assert(p[k] == q[i] && p[p.len() - 1] == e);
                }
            }
            if j < q.len() && i == q.len() {
                if q[j] != x {
                    let k = choose|k: int| 0 <= k < front.len() && front[k] == q[j];
                    assert(p[k] == q[j] && p[p.len() - 1] == e);
                }
            }
            if i < q.len() && j < q.len() {
                assert(q[i] != q[j]);
            }
        }
    }
}

} // verus!
