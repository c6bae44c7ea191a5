//! Pooling the contents of many parts, to say that nothing is lost or repeated
//! when things are divided, moved between parts, or sorted.

use vstd::multiset::Multiset;
use vstd::prelude::*;

use crate::sorting;

verus! {

/// Everything that the parts of a list hold, as many times as it occurs.
pub open spec fn pooled<T, G>(parts: Seq<T>, contents: spec_fn(T) -> Seq<G>) -> Multiset<G>
    decreases parts.len(),
{
    if parts.len() == 0 {
        Multiset::empty()
    } else {
        pooled(parts.drop_last(), contents).add(contents(parts.last()).to_multiset())
    }
}

/// One more part adds its contents.
pub proof fn lemma_pooled_push<T, G>(parts: Seq<T>, x: T, contents: spec_fn(T) -> Seq<G>)
    ensures
        pooled(parts.push(x), contents) == pooled(parts, contents).add(
            contents(x).to_multiset(),
        ),
{
    assert(parts.push(x).drop_last() =~= parts);
}

/// Joining two lists of parts adds their contents.
pub proof fn lemma_pooled_join<T, G>(a: Seq<T>, b: Seq<T>, contents: spec_fn(T) -> Seq<G>)
    ensures
        pooled(a + b, contents) == pooled(a, contents).add(pooled(b, contents)),
    decreases b.len(),
{
    if b.len() == 0 {
        assert(a + b =~= a);
        assert(pooled(a, contents).add(pooled(b, contents)) =~= pooled(a, contents));
    } else {
        lemma_pooled_join(a, b.drop_last(), contents);
        assert((a + b).drop_last() =~= a + b.drop_last());
        assert(pooled(a + b, contents) =~= pooled(a, contents).add(pooled(b, contents)));
    }
}

/// Replacing a part exchanges its contents.
pub proof fn lemma_pooled_update<T, G>(
    parts: Seq<T>,
    i: int,
    x: T,
    contents: spec_fn(T) -> Seq<G>,
)
    requires
        0 <= i < parts.len(),
    ensures
        pooled(parts.update(i, x), contents).add(contents(parts[i]).to_multiset()) == pooled(
            parts,
            contents,
        ).add(contents(x).to_multiset()),
    decreases parts.len(),
{
    let new = parts.update(i, x);
    if i == parts.len() - 1 {
        assert(new.drop_last() =~= parts.drop_last());
        assert(pooled(new, contents).add(contents(parts[i]).to_multiset()) =~= pooled(
            parts,
            contents,
        ).add(contents(x).to_multiset()));
    } else {
        lemma_pooled_update(parts.drop_last(), i, x, contents);
        assert(new.drop_last() =~= parts.drop_last().update(i, x));
        let front = pooled(parts.drop_last(), contents);
        let front_new = pooled(parts.drop_last().update(i, x), contents);
        let last = contents(parts.last()).to_multiset();
        assert(front_new.add(contents(parts[i]).to_multiset()) == front.add(
            contents(x).to_multiset(),
        ));
        assert(front_new.add(last).add(contents(parts[i]).to_multiset()) =~= front_new.add(
            contents(parts[i]).to_multiset(),
        ).add(last));
        assert(front.add(last).add(contents(x).to_multiset()) =~= front.add(
            contents(x).to_multiset(),
        ).add(last));
    }
}

/// Sorting parts keeps what they hold.
pub proof fn lemma_pooled_sorted<T, G>(
    parts: Seq<T>,
    less: spec_fn(T, T) -> bool,
    contents: spec_fn(T) -> Seq<G>,
)
    ensures
        pooled(sorting::sorted_by(parts, less), contents) == pooled(parts, contents),
    decreases parts.len(),
{
    if parts.len() > 0 {
        lemma_pooled_sorted(parts.drop_last(), less, contents);
        lemma_pooled_placed(
            sorting::sorted_by(parts.drop_last(), less),
            parts.last(),
            less,
            contents,
        );
    }
}

proof fn lemma_pooled_placed<T, G>(
    parts: Seq<T>,
    x: T,
    less: spec_fn(T, T) -> bool,
    contents: spec_fn(T) -> Seq<G>,
)
    ensures
        pooled(sorting::placed(parts, x, less), contents) == pooled(parts, contents).add(
            contents(x).to_multiset(),
        ),
    decreases parts.len(),
{
    if parts.len() == 0 || !less(x, parts.last()) {
        lemma_pooled_push(parts, x, contents);
    } else {
        lemma_pooled_placed(parts.drop_last(), x, less, contents);
        let front = sorting::placed(parts.drop_last(), x, less);
        lemma_pooled_push(front, parts.last(), contents);
        assert(pooled(parts.drop_last(), contents).add(contents(x).to_multiset()).add(
            contents(parts.last()).to_multiset(),
        ) =~= pooled(parts, contents).add(contents(x).to_multiset()));
    }
}

/// Parts whose contents are the same things, part by part, hold the same.
pub proof fn lemma_pooled_same<T, U, G>(
    a: Seq<T>,
    f: spec_fn(T) -> Seq<G>,
    b: Seq<U>,
    g: spec_fn(U) -> Seq<G>,
)
    requires
        a.len() == b.len(),
        forall|i: int|
            0 <= i < a.len() ==> f(#[trigger] a[i]).to_multiset() == g(b[i]).to_multiset(),
    ensures
        pooled(a, f) == pooled(b, g),
    decreases a.len(),
{
    if a.len() > 0 {
        let n = a.len() - 1;
        assert(f(a[n]).to_multiset() == g(b[n]).to_multiset());
        assert forall|i: int| 0 <= i < a.drop_last().len() implies f(
            #[trigger] a.drop_last()[i],
        ).to_multiset() == g(b.drop_last()[i]).to_multiset() by {
            assert(a.drop_last()[i] == a[i]);
        }
        lemma_pooled_same(a.drop_last(), f, b.drop_last(), g);
    }
}

/// The multiset of two joined sequences.
pub proof fn lemma_joined_multiset<G>(a: Seq<G>, b: Seq<G>)
    ensures
        (a + b).to_multiset() == a.to_multiset().add(b.to_multiset()),
    decreases b.len(),
{
    broadcast use vstd::seq_lib::group_to_multiset_ensures;

    if b.len() == 0 {
        assert(a + b =~= a);
        assert(b =~= Seq::empty());
        assert(a.to_multiset().add(b.to_multiset()) =~= a.to_multiset());
    } else {
        lemma_joined_multiset(a, b.drop_last());
        assert(a + b =~= (a + b.drop_last()).push(b.last()));
        assert(b =~= b.drop_last().push(b.last()));
        assert((a + b).to_multiset() =~= a.to_multiset().add(b.to_multiset()));
    }
}

/// The multiset of an empty sequence.
pub proof fn lemma_empty_multiset<G>()
    ensures
        Seq::<G>::empty().to_multiset() == Multiset::<G>::empty(),
{
    broadcast use vstd::seq_lib::group_to_multiset_ensures;

    assert(Seq::<G>::empty().to_multiset() =~= Multiset::<G>::empty());
}

/// What a part holds is among what all parts hold.
pub proof fn lemma_pooled_member<T, G>(parts: Seq<T>, contents: spec_fn(T) -> Seq<G>, i: int, x: G)
    requires
        0 <= i < parts.len(),
        contents(parts[i]).contains(x),
    ensures
        pooled(parts, contents).count(x) > 0,
    decreases parts.len(),
{
    broadcast use vstd::seq_lib::group_to_multiset_ensures;

    if i < parts.len() - 1 {
        assert(parts.drop_last()[i] == parts[i]);
        lemma_pooled_member(parts.drop_last(), contents, i, x);
    } else {
        assert(contents(parts.last()).to_multiset().count(x) > 0);
    }
}

} // verus!
