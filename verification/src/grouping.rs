//! Grouping by pairwise closeness.
//!
//! Every item starts with a label of its own. Each close pair, in turn, gives
//! all items of the first one's label the label of the second.

use vstd::prelude::*;

verus! {

/// Every item under its own label.
pub open spec fn apart(n: nat) -> Seq<usize> {
    Seq::new(n, |i: int| i as usize)
}

/// The labels after joining the groups of two items.
pub open spec fn joined(labels: Seq<usize>, a: int, b: int) -> Seq<usize> {
    Seq::new(
        labels.len(),
        |k: int|
            if labels[k] == labels[a] {
                labels[b]
            } else {
                labels[k]
            },
    )
}

/// The labels after joining an item with each close one between it and `upto`.
pub open spec fn joined_row(
    labels: Seq<usize>,
    close: spec_fn(int, int) -> bool,
    i: int,
    upto: int,
) -> Seq<usize>
    decreases upto - i,
{
    if upto <= i + 1 {
        labels
    } else {
        let l = joined_row(labels, close, i, upto - 1);
        if close(i, upto - 1) {
            joined(l, i, upto - 1)
        } else {
            l
        }
    }
}

/// The labels after joining every close pair whose first item is below `upto`.
pub open spec fn joined_rows(n: nat, close: spec_fn(int, int) -> bool, upto: int) -> Seq<usize>
    decreases upto,
{
    if upto <= 0 {
        apart(n)
    } else {
        joined_row(joined_rows(n, close, upto - 1), close, upto - 1, n as int)
    }
}

/// The labels of `n` items after joining every close pair.
pub open spec fn grouped(n: nat, close: spec_fn(int, int) -> bool) -> Seq<usize> {
    joined_rows(n, close, n as int)
}

/// Whether the labels are labels of items.
pub open spec fn labelled(labels: Seq<usize>, n: nat) -> bool {
    labels.len() == n && forall|k: int| 0 <= k < n ==> #[trigger] labels[k] < n
}

/// Join the groups of two items.
pub fn join(labels: &mut Vec<usize>, a: usize, b: usize)
    requires
        a < old(labels)@.len(),
        b < old(labels)@.len(),
    ensures
        final(labels)@ == joined(old(labels)@, a as int, b as int),
{
    let from: usize = labels[a];
    let to: usize = labels[b];
    let mut k: usize = 0;
    while k < labels.len()
        invariant
            k <= labels@.len(),
            labels@.len() == old(labels)@.len(),
            from == old(labels)@[a as int],
            to == old(labels)@[b as int],
            forall|j: int|
                0 <= j < labels@.len() ==> #[trigger] labels@[j] == if j < k && old(labels)@[j]
                    == from {
                    to
                } else {
                    old(labels)@[j]
                },
        decreases labels@.len() - k,
    {
        if labels[k] == from {
            labels.set(k, to);
        }
        k += 1;
    }
    assert(labels@ =~= joined(old(labels)@, a as int, b as int));
}

/// Label `n` items by joining every close pair.
pub fn group<F: Fn(usize, usize) -> bool>(
    n: usize,
    is_close: F,
    Ghost(close): Ghost<spec_fn(int, int) -> bool>,
) -> (labels: Vec<usize>)
    requires
        forall|a: usize, b: usize| a < n && b < n ==> call_requires(is_close, (a, b)),
        forall|a: usize, b: usize, r: bool| #[trigger]
            call_ensures(is_close, (a, b), r) && a < n && b < n ==> r == close(a as int, b as int),
    ensures
        labels@ == grouped(n as nat, close),
        labelled(labels@, n as nat),
{
    let mut labels: Vec<usize> = Vec::new();
    let mut i: usize = 0;
    while i < n
        invariant
            i <= n,
            labels@ == apart(i as nat),
        decreases n - i,
    {
        labels.push(i);
        i += 1;
        assert(labels@ =~= apart(i as nat));
    }
    i = 0;
    while i < n
        invariant
            i <= n,
            labels@.len() == n,
            labels@ == joined_rows(n as nat, close, i as int),
            labelled(labels@, n as nat),
            forall|a: usize, b: usize| a < n && b < n ==> call_requires(is_close, (a, b)),
            forall|a: usize, b: usize, r: bool| #[trigger]
                call_ensures(is_close, (a, b), r) && a < n && b < n ==> r == close(a as int, b as int),
        decreases n - i,
    {
        let ghost start = labels@;
        let mut j: usize = i + 1;
        while j < n
            invariant
                i < n,
                i < j <= n,
                labels@.len() == n,
                labels@ == joined_row(start, close, i as int, j as int),
                labelled(labels@, n as nat),
                forall|a: usize, b: usize| a < n && b < n ==> call_requires(is_close, (a, b)),
                forall|a: usize, b: usize, r: bool| #[trigger]
                    call_ensures(is_close, (a, b), r) && a < n && b < n ==> r == close(a as int, b as int),
            decreases n - j,
        {
            if is_close(i, j) {
                join(&mut labels, i, j);
            }
            j += 1;
        }
        i += 1;
    }
    labels
}

/// Two labels that are equal stay equal.
proof fn lemma_rows_keep(
    labels: Seq<usize>,
    close: spec_fn(int, int) -> bool,
    i: int,
    upto: int,
    a: int,
    b: int,
)
    requires
        0 <= a < labels.len(),
        0 <= b < labels.len(),
        labels[a] == labels[b],
    ensures
        joined_row(labels, close, i, upto).len() == labels.len(),
        joined_row(labels, close, i, upto)[a] == joined_row(labels, close, i, upto)[b],
    decreases upto - i,
{
    if upto > i + 1 {
        lemma_rows_keep(labels, close, i, upto - 1, a, b);
    }
}

proof fn lemma_row_joins(
    labels: Seq<usize>,
    close: spec_fn(int, int) -> bool,
    i: int,
    upto: int,
    j: int,
)
    requires
        0 <= i < j < upto <= labels.len(),
        close(i, j),
    ensures
        joined_row(labels, close, i, upto).len() == labels.len(),
        joined_row(labels, close, i, upto)[i] == joined_row(labels, close, i, upto)[j],
    decreases upto - i,
{
    lemma_row_length(labels, close, i, upto - 1);
    if j < upto - 1 {
        lemma_row_joins(labels, close, i, upto - 1, j);
    }
}

proof fn lemma_row_length(
    labels: Seq<usize>,
    close: spec_fn(int, int) -> bool,
    i: int,
    upto: int,
)
    ensures
        joined_row(labels, close, i, upto).len() == labels.len(),
    decreases upto - i,
{
    if upto > i + 1 {
        lemma_row_length(labels, close, i, upto - 1);
    }
}

proof fn lemma_rows_join(n: nat, close: spec_fn(int, int) -> bool, upto: int, i: int, j: int)
    requires
        0 <= i < j < n,
        i < upto,
        close(i, j),
    ensures
        joined_rows(n, close, upto).len() == n,
        joined_rows(n, close, upto)[i] == joined_rows(n, close, upto)[j],
    decreases upto,
{
    let before = joined_rows(n, close, upto - 1);
    lemma_rows_length(n, close, upto - 1);
    if i == upto - 1 {
        lemma_row_joins(before, close, i, n as int, j);
    } else {
        lemma_rows_join(n, close, upto - 1, i, j);
        lemma_rows_keep(before, close, upto - 1, n as int, i, j);
    }
}

proof fn lemma_rows_length(n: nat, close: spec_fn(int, int) -> bool, upto: int)
    ensures
        joined_rows(n, close, upto).len() == n,
    decreases upto,
{
    if upto > 0 {
        lemma_rows_length(n, close, upto - 1);
        lemma_row_length(joined_rows(n, close, upto - 1), close, upto - 1, n as int);
    }
}

/// Close items share a group.
pub proof fn lemma_close_items_share_a_group(
    n: nat,
    close: spec_fn(int, int) -> bool,
    i: int,
    j: int,
)
    requires
        0 <= i < j < n,
        close(i, j),
    ensures
        grouped(n, close).len() == n,
        grouped(n, close)[i] == grouped(n, close)[j],
{
    lemma_rows_join(n, close, n as int, i, j);
}

/// Whether two items are joined by a chain of close pairs.
pub open spec fn chained(close: spec_fn(int, int) -> bool, chain: Seq<int>, a: int, b: int) -> bool {
    &&& chain.len() > 0
    &&& chain[0] == a
    &&& chain.last() == b
    &&& forall|k: int|
        0 <= k < chain.len() - 1 ==> close(#[trigger] chain[k], chain[k + 1]) || close(
            chain[k + 1],
            chain[k],
        )
}

/// Whether there is a chain between every two items with one label.
pub open spec fn linked(close: spec_fn(int, int) -> bool, labels: Seq<usize>) -> bool {
    forall|a: int, b: int|
        0 <= a < labels.len() && 0 <= b < labels.len() && #[trigger] labels[a]
            == #[trigger] labels[b] ==> exists|chain: Seq<int>| #[trigger]
            chained(close, chain, a, b)
}

proof fn lemma_chains_join(
    close: spec_fn(int, int) -> bool,
    p: Seq<int>,
    q: Seq<int>,
    a: int,
    b: int,
    c: int,
    d: int,
)
    requires
        chained(close, p, a, b),
        chained(close, q, c, d),
        close(b, c) || close(c, b),
    ensures
        chained(close, p + q, a, d),
{
    let r = p + q;
    assert(r.last() == d);
    assert forall|k: int| 0 <= k < r.len() - 1 implies close(#[trigger] r[k], r[k + 1]) || close(
        r[k + 1],
        r[k],
    ) by {
        if k < p.len() - 1 {
            assert(close(p[k], p[k + 1]) || close(p[k + 1], p[k]));
        } else if k >= p.len() {
            assert(close(q[k - p.len()], q[k - p.len() + 1]) || close(
                q[k - p.len() + 1],
                q[k - p.len()],
            ));
        }
    }
}

proof fn lemma_joined_linked(
    close: spec_fn(int, int) -> bool,
    labels: Seq<usize>,
    i: int,
    j: int,
)
    requires
        linked(close, labels),
        0 <= i < labels.len(),
        0 <= j < labels.len(),
        close(i, j),
    ensures
        linked(close, joined(labels, i, j)),
{
    let l = joined(labels, i, j);
    assert forall|a: int, b: int|
        0 <= a < l.len() && 0 <= b < l.len() && #[trigger] l[a] == #[trigger] l[b] implies exists|
        chain: Seq<int>,
    | #[trigger] chained(close, chain, a, b) by {
        if labels[a] != labels[b] {
            // One of the two came from the group of `i`, the other from that of `j`.
            if labels[a] == labels[i] {
                let p = choose|chain: Seq<int>| #[trigger] chained(close, chain, a, i);
                let q = choose|chain: Seq<int>| #[trigger] chained(close, chain, j, b);
                lemma_chains_join(close, p, q, a, i, j, b);
            } else {
                let p = choose|chain: Seq<int>| #[trigger] chained(close, chain, a, j);
                let q = choose|chain: Seq<int>| #[trigger] chained(close, chain, i, b);
                lemma_chains_join(close, p, q, a, j, i, b);
            }
        }
    }
}

proof fn lemma_row_linked(
    close: spec_fn(int, int) -> bool,
    labels: Seq<usize>,
    i: int,
    upto: int,
)
    requires
        linked(close, labels),
        0 <= i < labels.len(),
        upto <= labels.len(),
    ensures
        linked(close, joined_row(labels, close, i, upto)),
    decreases upto - i,
{
    if upto > i + 1 {
        lemma_row_linked(close, labels, i, upto - 1);
        lemma_row_length(labels, close, i, upto - 1);
        if close(i, upto - 1) {
            lemma_joined_linked(close, joined_row(labels, close, i, upto - 1), i, upto - 1);
        }
    }
}

proof fn lemma_rows_linked(n: nat, close: spec_fn(int, int) -> bool, upto: int)
    requires
        upto <= n <= usize::MAX,
    ensures
        linked(close, joined_rows(n, close, upto)),
    decreases upto,
{
    if upto <= 0 {
        let l = apart(n);
        assert forall|a: int, b: int|
            0 <= a < l.len() && 0 <= b < l.len() && #[trigger] l[a] == #[trigger] l[b] implies exists|
            chain: Seq<int>,
        | #[trigger] chained(close, chain, a, b) by {
            assert(chained(close, seq![a], a, b));
        }
    } else {
        lemma_rows_linked(n, close, upto - 1);
        lemma_rows_length(n, close, upto - 1);
        lemma_row_linked(close, joined_rows(n, close, upto - 1), upto - 1, n as int);
    }
}

/// Items share a group only where a chain of close pairs joins them.
pub proof fn lemma_a_group_is_linked(
    n: nat,
    close: spec_fn(int, int) -> bool,
    a: int,
    b: int,
)
    requires
        0 <= a < n <= usize::MAX,
        0 <= b < n,
        grouped(n, close)[a] == grouped(n, close)[b],
    ensures
        exists|chain: Seq<int>| #[trigger] chained(close, chain, a, b),
{
    lemma_rows_linked(n, close, n as int);
    lemma_rows_length(n, close, n as int);
}

} // verus!
