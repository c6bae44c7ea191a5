//! Order statistics of lists of numbers.

use vstd::prelude::*;

use crate::rules;
use crate::scalar;
use crate::scalar::Scalar;
use crate::sorting;

verus! {

/// Numbers in ascending order.
pub open spec fn ordered<S: Scalar>(v: Seq<S>) -> Seq<S> {
    sorting::sorted_by(v, rules::ascending())
}

/// The end of the run of numbers that starts at `i`: those within a tolerance
/// of its first, from `j` on.
pub open spec fn run_end<S: Scalar>(s: Seq<S>, tolerance: S, i: int, j: int) -> int
    decreases s.len() - j,
{
    if 0 <= j < s.len() && s[j].spec_minus(s[i]).spec_magnitude().spec_lt(tolerance) {
        run_end(s, tolerance, i, j + 1)
    } else {
        j
    }
}

/// The longest run of sorted numbers from `i` on, as its first number and its
/// length, when nothing longer has been met than `best`.
pub open spec fn longest_run<S: Scalar>(s: Seq<S>, tolerance: S, i: int, best: (S, int)) -> (S, int)
    decreases s.len() - i,
{
    if i < 0 || i >= s.len() {
        best
    } else {
        let j = run_end(s, tolerance, i, i + 1);
        let next = if j - i > best.1 {
            (s[i], j - i)
        } else {
            best
        };
        if j <= i || j > s.len() {
            next
        } else {
            longest_run(s, tolerance, j, next)
        }
    }
}

/// The longest run of a list of numbers, to within a tolerance, as its first
/// number and its length.
pub open spec fn common_run<S: Scalar>(v: Seq<S>, tolerance: S) -> (S, int) {
    let s = ordered(v);
    longest_run(s, tolerance, 0, (s[0], 0))
}

/// The most common of a list of numbers, to within a tolerance: the first of
/// the longest run. Zero for no numbers.
pub open spec fn commonest_of<S: Scalar>(v: Seq<S>, tolerance: S) -> S {
    if v.len() == 0 {
        scalar::zero::<S>()
    } else {
        common_run(v, tolerance).0
    }
}

/// The most common of a list of numbers, to within a tolerance. Where no number
/// has company, the median; zero for no numbers.
pub open spec fn mode_of<S: Scalar>(v: Seq<S>, tolerance: S) -> S {
    if v.len() == 0 {
        scalar::zero::<S>()
    } else {
        let (best, n) = common_run(v, tolerance);
        if n <= 1 {
            ordered(v)[v.len() as int / 2]
        } else {
            best
        }
    }
}

fn find_run<S: Scalar>(s: &Vec<S>, tolerance: S) -> (r: (S, usize))
    requires
        s@.len() > 0,
    ensures
        (r.0, r.1 as int) == longest_run(s@, tolerance, 0, (s@[0], 0)),
{
    let mut best: S = s[0];
    let mut best_count: usize = 0;
    let mut i: usize = 0;
    while i < s.len()
        invariant
            i <= s@.len(),
            s@.len() > 0,
            longest_run(s@, tolerance, 0, (s@[0], 0)) == longest_run(
                s@,
                tolerance,
                i as int,
                (best, best_count as int),
            ),
        decreases s@.len() - i,
    {
        let mut j: usize = i + 1;
        while j < s.len() && s[j].minus(s[i]).magnitude().lt(tolerance)
            invariant
                i < s@.len(),
                i < j <= s@.len(),
                run_end(s@, tolerance, i as int, i + 1) == run_end(
                    s@,
                    tolerance,
                    i as int,
                    j as int,
                ),
            decreases s@.len() - j,
        {
            j += 1;
        }
        if j - i > best_count {
            best_count = j - i;
            best = s[i];
        }
        i = j;
    }
    (best, best_count)
}

/// The most common value, to within a tolerance.
pub fn commonest<S: Scalar>(values: Vec<S>, tolerance: S) -> (r: S)
    ensures
        r == commonest_of(values@, tolerance),
{
    if values.len() == 0 {
        return scalar::zero_of::<S>();
    }
    let ghost given = values@;
    let s = rules::sort_numbers(values);
    proof {
        sorting::lemma_sorted_keeps_elements(given, rules::ascending::<S>());
    }
    find_run(&s, tolerance).0
}

/// The most common value, to within a tolerance, falling back to the median.
///
/// Modal rather than mean because one large value should not redefine what is
/// ordinary.
pub fn modal<S: Scalar>(values: Vec<S>, tolerance: S) -> (r: S)
    ensures
        r == mode_of(values@, tolerance),
{
    if values.len() == 0 {
        return scalar::zero_of::<S>();
    }
    let ghost given = values@;
    let s = rules::sort_numbers(values);
    proof {
        sorting::lemma_sorted_keeps_elements(given, rules::ascending::<S>());
    }
    let (best, n): (S, usize) = find_run(&s, tolerance);
    if n <= 1 {
        s[s.len() / 2]
    } else {
        best
    }
}

/// The middle one of a list of numbers; zero for no numbers.
pub open spec fn median_of<S: Scalar>(v: Seq<S>) -> S {
    if v.len() == 0 {
        scalar::zero::<S>()
    } else {
        ordered(v)[v.len() as int / 2]
    }
}

/// The middle one of a list of numbers; zero for no numbers.
pub fn median<S: Scalar>(values: Vec<S>) -> (r: S)
    ensures
        r == median_of(values@),
{
    if values.len() == 0 {
        return scalar::zero_of::<S>();
    }
    let ghost given = values@;
    let n: usize = values.len();
    let s = rules::sort_numbers(values);
    proof {
        sorting::lemma_sorted_keeps_elements(given, rules::ascending::<S>());
    }
    s[n / 2]
}

/// The largest of the first `n` numbers, and of a start.
pub open spec fn greatest_of<S: Scalar>(v: Seq<S>, start: S, n: int) -> S
    decreases n,
{
    if n <= 0 {
        start
    } else {
        greatest_of(v, start, n - 1).spec_greatest(v[n - 1])
    }
}

/// The smallest of the first `n` numbers, and of a start.
pub open spec fn least_of<S: Scalar>(v: Seq<S>, start: S, n: int) -> S
    decreases n,
{
    if n <= 0 {
        start
    } else {
        least_of(v, start, n - 1).spec_least(v[n - 1])
    }
}

/// The largest of a list of numbers, and of a start.
pub fn greatest<S: Scalar>(v: &Vec<S>, start: S) -> (r: S)
    ensures
        r == greatest_of(v@, start, v@.len() as int),
{
    let mut r = start;
    let mut i: usize = 0;
    while i < v.len()
        invariant
            i <= v@.len(),
            r == greatest_of(v@, start, i as int),
        decreases v@.len() - i,
    {
        r = r.greatest(v[i]);
        i += 1;
    }
    r
}

/// The smallest of a list of numbers, and of a start.
pub fn least<S: Scalar>(v: &Vec<S>, start: S) -> (r: S)
    ensures
        r == least_of(v@, start, v@.len() as int),
{
    let mut r = start;
    let mut i: usize = 0;
    while i < v.len()
        invariant
            i <= v@.len(),
            r == least_of(v@, start, i as int),
        decreases v@.len() - i,
    {
        r = r.least(v[i]);
        i += 1;
    }
    r
}

/// The distance between the largest and the smallest of a list of numbers;
/// zero for no numbers.
pub open spec fn spread_of<S: Scalar>(v: Seq<S>) -> S {
    if v.len() == 0 {
        scalar::zero::<S>()
    } else {
        greatest_of(v, S::spec_lowest(), v.len() as int).spec_minus(
            least_of(v, S::spec_highest(), v.len() as int),
        )
    }
}

/// The distance between the largest and the smallest of a list of numbers.
pub fn spread<S: Scalar>(v: &Vec<S>) -> (r: S)
    ensures
        r == spread_of(v@),
{
    if v.len() == 0 {
        scalar::zero_of::<S>()
    } else {
        greatest(v, S::lowest()).minus(least(v, S::highest()))
    }
}

/// The largest of some numbers is one of them, and no number is larger.
pub proof fn law_the_greatest_is_an_upper_bound<S: Scalar>(v: Seq<S>)
    requires
        scalar::orderly::<S>(),
        v.len() > 0,
    ensures
        v.contains(greatest_of(v, S::spec_lowest(), v.len() as int)),
        forall|i: int|
            0 <= i < v.len() ==> (#[trigger] v[i]).spec_le(
                greatest_of(v, S::spec_lowest(), v.len() as int),
            ),
{
    lemma_greatest(v, S::spec_lowest(), v.len() as int);
    let g = greatest_of(v, S::spec_lowest(), v.len() as int);
    if !v.contains(g) {
        assert(v[0].spec_le(g));
        assert(S::spec_lowest().spec_le(v[0]));
        assert(v.contains(v[0]));
    }
}

/// The smallest of some numbers is one of them, and no number is smaller.
pub proof fn law_the_least_is_a_lower_bound<S: Scalar>(v: Seq<S>)
    requires
        scalar::orderly::<S>(),
        v.len() > 0,
    ensures
        v.contains(least_of(v, S::spec_highest(), v.len() as int)),
        forall|i: int|
            0 <= i < v.len() ==> least_of(v, S::spec_highest(), v.len() as int).spec_le(
                #[trigger] v[i],
            ),
{
    lemma_least(v, S::spec_highest(), v.len() as int);
    let g = least_of(v, S::spec_highest(), v.len() as int);
    if !v.contains(g) {
        assert(g.spec_le(v[0]));
        assert(v[0].spec_le(S::spec_highest()));
        assert(v.contains(v[0]));
    }
}

proof fn lemma_greatest<S: Scalar>(v: Seq<S>, start: S, n: int)
    requires
        scalar::orderly::<S>(),
        0 <= n <= v.len(),
    ensures
        start.spec_le(greatest_of(v, start, n)),
        forall|i: int| 0 <= i < n ==> (#[trigger] v[i]).spec_le(greatest_of(v, start, n)),
        greatest_of(v, start, n) == start || v.contains(greatest_of(v, start, n)),
    decreases n,
{
    assert(start.spec_le(start));
    if n > 0 {
        lemma_greatest(v, start, n - 1);
        let before = greatest_of(v, start, n - 1);
        let now = greatest_of(v, start, n);
        assert(v.contains(v[n - 1]));
        assert(before.spec_le(now) && v[n - 1].spec_le(now)) by {
            assert(before.spec_le(v[n - 1]) || v[n - 1].spec_le(before));
            assert(before.spec_le(before));
            assert(v[n - 1].spec_le(v[n - 1]));
        }
        assert forall|i: int| 0 <= i < n implies (#[trigger] v[i]).spec_le(now) by {
            if i < n - 1 {
                assert(v[i].spec_le(before));
            }
        }
    }
}

proof fn lemma_least<S: Scalar>(v: Seq<S>, start: S, n: int)
    requires
        scalar::orderly::<S>(),
        0 <= n <= v.len(),
    ensures
        least_of(v, start, n).spec_le(start),
        forall|i: int| 0 <= i < n ==> least_of(v, start, n).spec_le(#[trigger] v[i]),
        least_of(v, start, n) == start || v.contains(least_of(v, start, n)),
    decreases n,
{
    assert(start.spec_le(start));
    if n > 0 {
        lemma_least(v, start, n - 1);
        let before = least_of(v, start, n - 1);
        let now = least_of(v, start, n);
        assert(v.contains(v[n - 1]));
        assert(now.spec_le(before) && now.spec_le(v[n - 1])) by {
            assert(before.spec_le(v[n - 1]) || v[n - 1].spec_le(before));
            assert(before.spec_le(before));
            assert(v[n - 1].spec_le(v[n - 1]));
        }
        assert forall|i: int| 0 <= i < n implies now.spec_le(#[trigger] v[i]) by {
            if i < n - 1 {
                assert(before.spec_le(v[i]));
            }
        }
    }
}

/// Sorting numbers puts them in ascending order, and keeps each as often as it
/// occurs.
pub proof fn law_ordered_numbers_ascend<S: Scalar>(v: Seq<S>)
    requires
        scalar::orderly::<S>(),
    ensures
        ordered(v).to_multiset() == v.to_multiset(),
        ordered(v).len() == v.len(),
        forall|i: int, j: int|
            0 <= i < j < ordered(v).len() ==> (#[trigger] ordered(v)[i]).spec_le(
                #[trigger] ordered(v)[j],
            ),
{
    let less = rules::ascending::<S>();
    assert forall|a: S| !#[trigger] less(a, a) by {
        assert(a.spec_le(a));
    }
    assert forall|a: S, b: S, c: S| #[trigger] less(a, b) && #[trigger] less(b, c) implies less(
        a,
        c,
    ) by {
        assert(a.spec_le(b) && b.spec_le(c));
        if c.spec_le(a) {
            assert(b.spec_le(a));
        }
    }
    assert forall|a: S, b: S, c: S| !#[trigger] less(a, b) && !#[trigger] less(
        b,
        c,
    ) implies !less(a, c) by {
        assert(b.spec_le(a) && c.spec_le(b));
        assert(c.spec_le(a));
    }
    sorting::lemma_sorted_is_in_order(v, less);
    sorting::lemma_sorted_keeps_elements(v, less);
    let s = ordered(v);
    assert forall|i: int, j: int| 0 <= i < j < s.len() implies (#[trigger] s[i]).spec_le(
        #[trigger] s[j],
    ) by {
        assert(!less(s[j], s[i]));
    }
}

/// The median of some numbers is one of them: as many positions of the sorted
/// numbers lie before it as after it, or one more.
pub proof fn law_the_median_is_in_the_middle<S: Scalar>(v: Seq<S>)
    requires
        scalar::orderly::<S>(),
        v.len() > 0,
    ensures
        exists|s: Seq<S>, k: int|
            {
                &&& #[trigger] s.to_multiset() == v.to_multiset()
                &&& s.len() == v.len()
                &&& 0 <= k < s.len()
                &&& #[trigger] s[k] == median_of(v)
                &&& s.len() - 1 - k <= k <= s.len() - k
                &&& forall|i: int| 0 <= i < k ==> (#[trigger] s[i]).spec_le(median_of(v))
                &&& forall|i: int| k < i < s.len() ==> median_of(v).spec_le(#[trigger] s[i])
            },
{
    law_ordered_numbers_ascend(v);
    let s = ordered(v);
    let k = v.len() as int / 2;
    assert(s[k] == median_of(v));
}

proof fn lemma_run_end<S: Scalar>(s: Seq<S>, tolerance: S, i: int, j: int)
    requires
        0 <= i < j <= s.len(),
    ensures
        j <= run_end(s, tolerance, i, j) <= s.len(),
        forall|k: int|
            j <= k < run_end(s, tolerance, i, j) ==> (#[trigger] s[k]).spec_minus(
                s[i],
            ).spec_magnitude().spec_lt(tolerance),
    decreases s.len() - j,
{
    if j < s.len() && s[j].spec_minus(s[i]).spec_magnitude().spec_lt(tolerance) {
        lemma_run_end(s, tolerance, i, j + 1);
    }
}

/// Whether `n` numbers of a list, from one on, are within a tolerance of it.
spec fn company<S: Scalar>(s: Seq<S>, tolerance: S, i: int, n: int) -> bool {
    &&& 0 <= i
    &&& i + n <= s.len()
    &&& forall|k: int|
        i < k < i + n ==> (#[trigger] s[k]).spec_minus(s[i]).spec_magnitude().spec_lt(tolerance)
}

proof fn lemma_longest_run<S: Scalar>(s: Seq<S>, tolerance: S, i: int, best: (S, int), at: int)
    requires
        0 <= i <= s.len(),
        best.1 > 0 ==> 0 <= at < s.len() && best.0 == s[at] && company(s, tolerance, at, best.1),
    ensures
        longest_run(s, tolerance, i, best).1 >= best.1,
        longest_run(s, tolerance, i, best).1 > 0 ==> exists|k: int|
            0 <= k < s.len() && longest_run(s, tolerance, i, best).0 == s[k] && #[trigger] company(
                s,
                tolerance,
                k,
                longest_run(s, tolerance, i, best).1,
            ),
        i < s.len() ==> longest_run(s, tolerance, i, best).1 > 0,
    decreases s.len() - i,
{
    if i < s.len() {
        let j = run_end(s, tolerance, i, i + 1);
        lemma_run_end(s, tolerance, i, i + 1);
        if j - i > best.1 {
            assert(company(s, tolerance, i, j - i));
            lemma_longest_run(s, tolerance, j, (s[i], j - i), i);
        } else {
            lemma_longest_run(s, tolerance, j, best, at);
        }
    } else if best.1 > 0 {
        assert(company(s, tolerance, at, best.1));
    }
}

/// The most common of some numbers is one of them.
pub proof fn law_the_mode_is_one_of_them<S: Scalar>(v: Seq<S>, tolerance: S)
    requires
        v.len() > 0,
    ensures
        v.contains(mode_of(v, tolerance)),
        v.contains(commonest_of(v, tolerance)),
{
    broadcast use vstd::seq_lib::group_to_multiset_ensures;

    let s = ordered(v);
    sorting::lemma_sorted_keeps_elements(v, rules::ascending::<S>());
    lemma_longest_run(s, tolerance, 0, (s[0], 0), 0);
    let (best, n) = common_run(v, tolerance);
    let k = choose|k: int|
        0 <= k < s.len() && best == s[k] && #[trigger] company(s, tolerance, k, n);
    assert forall|x: S| s.contains(x) implies #[trigger] v.contains(x) by {
        assert(s.to_multiset().count(x) > 0);
        assert(v.to_multiset().count(x) > 0);
    }
    assert(s.contains(s[k]));
    assert(s.contains(s[v.len() as int / 2]));
}

/// Numbers that are all the same have that number as their mode, median, largest
/// and smallest, whatever the tolerance.
pub proof fn law_equal_numbers_have_one_measure<S: Scalar>(v: Seq<S>, x: S, tolerance: S)
    requires
        scalar::orderly::<S>(),
        v.len() > 0,
        forall|i: int| 0 <= i < v.len() ==> #[trigger] v[i] == x,
    ensures
        mode_of(v, tolerance) == x,
        commonest_of(v, tolerance) == x,
        median_of(v) == x,
        greatest_of(v, S::spec_lowest(), v.len() as int) == x,
        least_of(v, S::spec_highest(), v.len() as int) == x,
{
    broadcast use vstd::seq_lib::group_to_multiset_ensures;

    law_the_mode_is_one_of_them(v, tolerance);
    law_the_greatest_is_an_upper_bound(v);
    law_the_least_is_a_lower_bound(v);
    sorting::lemma_sorted_keeps_elements(v, rules::ascending::<S>());
    let m = ordered(v)[v.len() as int / 2];
    assert(ordered(v).contains(m));
    assert(ordered(v).to_multiset().count(m) > 0);
    assert(v.contains(m));
}

/// Whether the numbers from one up to another are all the same.
pub open spec fn level<S>(s: Seq<S>, from: int, to: int) -> bool {
    0 <= from < to <= s.len() && forall|k: int| from <= k < to ==> #[trigger] s[k] == s[from]
}

/// Whether the numbers from one up to another are within a tolerance of the
/// first.
pub open spec fn gathered<S: Scalar>(s: Seq<S>, tolerance: S, from: int, to: int) -> bool {
    &&& 0 <= from < to <= s.len()
    &&& forall|k: int|
        from < k < to ==> (#[trigger] s[k]).spec_minus(s[from]).spec_magnitude().spec_lt(tolerance)
}

/// The commonest number has at least as many numbers within the tolerance of it
/// as any number occurs times, and of numbers that occur as often it is the
/// least.
pub proof fn law_the_commonest_number_occurs_most<S: Scalar>(v: Seq<S>, tolerance: S)
    requires
        scalar::orderly::<S>(),
        v.len() > 0,
        forall|x: S| (#[trigger] x.spec_minus(x)).spec_magnitude().spec_lt(tolerance),
    ensures
        exists|s: Seq<S>, m: int, n: int|
            {
                &&& #[trigger] s.to_multiset() == v.to_multiset()
                &&& forall|i: int, j: int|
                    0 <= i < j < s.len() ==> (#[trigger] s[i]).spec_le(#[trigger] s[j])
                &&& #[trigger] gathered(s, tolerance, m, m + n)
                &&& commonest_of(v, tolerance) == s[m]
                &&& n > 1 ==> mode_of(v, tolerance) == s[m]
                &&& forall|k: int, l: int| #[trigger]
                    level(s, k, l) ==> l - k <= n && (l - k == n ==> m <= k)
            },
{
    law_ordered_numbers_ascend(v);
    let s = ordered(v);
    let m = lemma_longest_level(s, tolerance, 0, (s[0], 0), -1);
    let n = common_run(v, tolerance).1;
    assert(gathered(s, tolerance, m, m + n));
}

proof fn lemma_run_ends<S: Scalar>(s: Seq<S>, tolerance: S, i: int, j: int)
    requires
        0 <= i < j <= s.len(),
    ensures
        ({
            let e = run_end(s, tolerance, i, j);
            e < s.len() ==> !s[e].spec_minus(s[i]).spec_magnitude().spec_lt(tolerance)
        }),
    decreases s.len() - j,
{
    if j < s.len() && s[j].spec_minus(s[i]).spec_magnitude().spec_lt(tolerance) {
        lemma_run_ends(s, tolerance, i, j + 1);
    }
}

proof fn lemma_longest_level<S: Scalar>(
    s: Seq<S>,
    tolerance: S,
    i: int,
    best: (S, int),
    b: int,
) -> (m: int)
    requires
        forall|x: S| (#[trigger] x.spec_minus(x)).spec_magnitude().spec_lt(tolerance),
        0 <= i <= s.len(),
        s.len() > 0,
        best.1 >= 0,
        i == 0 ==> best.1 == 0,
        i > 0 ==> best.1 > 0 && b < i && best.0 == s[b] && gathered(s, tolerance, b, b + best.1),
    ensures
        ({
            let r = longest_run(s, tolerance, i, best);
            &&& r.1 >= best.1 && r.1 > 0
            &&& r.1 == best.1 ==> m == b
            &&& r.1 > best.1 ==> m >= i
            &&& gathered(s, tolerance, m, m + r.1) && r.0 == s[m]
            &&& forall|k: int, l: int| #[trigger]
                level(s, k, l) && k >= i ==> l - k <= r.1 && (l - k == r.1 ==> m <= k)
        }),
    decreases s.len() - i,
{
    let r = longest_run(s, tolerance, i, best);
    if i < s.len() {
        let j = run_end(s, tolerance, i, i + 1);
        lemma_run_end(s, tolerance, i, i + 1);
        lemma_run_ends(s, tolerance, i, i + 1);
        let next = if j - i > best.1 {
            (s[i], j - i)
        } else {
            best
        };
        let at = if j - i > best.1 {
            i
        } else {
            b
        };
        let m = lemma_longest_level(s, tolerance, j, next, at);
        assert forall|k: int, l: int| #[trigger] level(s, k, l) && k >= i implies l - k <= r.1 && (l
            - k == r.1 ==> m <= k) by {
            if k < j {
                if l > j {
                    assert(s[j] == s[k]);
                    assert(s[i].spec_minus(s[i]).spec_magnitude().spec_lt(tolerance));
                }
            }
        }
        m
    } else {
        b
    }
}

} // verus!
