//! Gathering what the elements of a sequence contribute into one multiset,
//! and that the order of the sequence does not matter for it.

use vstd::multiset::Multiset;
use vstd::prelude::*;

verus! {

/// The contributions of all elements of `s` together.
pub open spec fn gather<A, B>(s: Seq<A>, each: spec_fn(A) -> Multiset<B>) -> Multiset<B>
    decreases s.len(),
{
    if s.len() == 0 {
        Multiset::empty()
    } else {
        gather(s.drop_last(), each).add(each(s.last()))
    }
}

/// Gathering over a concatenation is gathering over both parts.
pub proof fn lemma_gather_add<A, B>(a: Seq<A>, b: Seq<A>, each: spec_fn(A) -> Multiset<B>)
    ensures
        gather(a + b, each) == gather(a, each).add(gather(b, each)),
    decreases b.len(),
{
    if b.len() == 0 {
        assert(a + b =~= a);
        assert(gather(a, each).add(gather(b, each)) =~= gather(a, each));
    } else {
        lemma_gather_add(a, b.drop_last(), each);
        assert((a + b).drop_last() =~= a + b.drop_last());
        assert((a + b).last() == b.last());
        assert(gather(a, each).add(gather(b.drop_last(), each)).add(each(b.last()))
            =~= gather(a, each).add(gather(b.drop_last(), each).add(each(b.last()))));
    }
}

/// What one element contributes can be taken out and added again.
pub proof fn lemma_gather_remove<A, B>(s: Seq<A>, each: spec_fn(A) -> Multiset<B>, k: int)
    requires
        0 <= k < s.len(),
    ensures
        gather(s, each) == gather(s.remove(k), each).add(each(s[k])),
{
    let head = s.take(k);
    let one = seq![s[k]];
    let tail = s.skip(k + 1);
    assert(s =~= head + one + tail);
    assert(s.remove(k) =~= head + tail);
    lemma_gather_add(head + one, tail, each);
    lemma_gather_add(head, one, each);
    lemma_gather_add(head, tail, each);
    assert(one.drop_last() =~= Seq::<A>::empty());
    assert(gather(one, each) =~= each(s[k])) by {
        reveal_with_fuel(gather, 2);
    }
    assert(gather(head, each).add(each(s[k])).add(gather(tail, each)) =~= gather(head, each).add(
        gather(tail, each),
    ).add(each(s[k])));
}

/// The order of the sequence does not matter: two sequences with the same
/// elements, each as often, gather the same.
pub proof fn lemma_gather_rearranged<A, B>(
    first: Seq<A>,
    second: Seq<A>,
    each: spec_fn(A) -> Multiset<B>,
)
    requires
        first.to_multiset() == second.to_multiset(),
    ensures
        gather(first, each) == gather(second, each),
    decreases first.len(),
{
    broadcast use vstd::seq_lib::group_to_multiset_ensures;

    assert(first.len() == second.len()) by {
        first.to_multiset_ensures();
        second.to_multiset_ensures();
    }
    if first.len() > 0 {
        let last = first.last();
        assert(first.contains(last));
        assert(first.to_multiset().count(last) > 0);
        assert(second.contains(last));
        let k = choose|k: int| 0 <= k < second.len() && second[k] == last;
        let rest = second.remove(k);
        assert(first.drop_last().to_multiset() =~= rest.to_multiset()) by {
            assert(first.remove(first.len() - 1) =~= first.drop_last());
        }
        lemma_gather_rearranged(first.drop_last(), rest, each);
        lemma_gather_remove(second, each, k);
    }
}

/// Elements that contribute the same, place by place, gather the same.
pub proof fn lemma_gather_alike<A, B>(
    first: Seq<A>,
    second: Seq<A>,
    each: spec_fn(A) -> Multiset<B>,
)
    requires
        first.len() == second.len(),
        forall|i: int| 0 <= i < first.len() ==> each(#[trigger] first[i]) == each(second[i]),
    ensures
        gather(first, each) == gather(second, each),
    decreases first.len(),
{
    if first.len() > 0 {
        let a = first.drop_last();
        let b = second.drop_last();
        assert forall|i: int| 0 <= i < a.len() implies each(#[trigger] a[i]) == each(b[i]) by {
            assert(a[i] == first[i] && b[i] == second[i]);
            assert(each(first[i]) == each(second[i]));
        }
        lemma_gather_alike(a, b, each);
        assert(each(first[first.len() - 1]) == each(second[first.len() - 1]));
    }
}

/// What the elements that a mapping keeps contribute: each its image.
pub open spec fn kept<A, B>(f: spec_fn(A) -> Option<B>) -> spec_fn(A) -> Multiset<B> {
    |a: A|
        match f(a) {
            Some(b) => Multiset::singleton(b),
            None => Multiset::empty(),
        }
}

/// The images that a mapping keeps, counted, are gathered from the
/// elements.
pub proof fn lemma_filter_map_gathers<A, B>(s: Seq<A>, f: spec_fn(A) -> Option<B>)
    ensures
        s.filter_map(f).to_multiset() == gather(s, kept(f)),
    decreases s.len(),
{
    broadcast use vstd::seq_lib::group_to_multiset_ensures;

    if s.len() == 0 {
        assert(s.filter_map(f).to_multiset() =~= Multiset::<B>::empty());
    } else {
        lemma_filter_map_gathers(s.drop_last(), f);
        match f(s.last()) {
            Some(b) => {
                let rest = s.drop_last().filter_map(f);
                assert(rest + seq![b] =~= rest.push(b));
                assert(rest.push(b).to_multiset() =~= rest.to_multiset().insert(b));
                assert(rest.to_multiset().insert(b) =~= rest.to_multiset().add(
                    Multiset::singleton(b),
                ));
            },
            None => {
                assert(gather(s.drop_last(), kept(f)).add(Multiset::empty()) =~= gather(
                    s.drop_last(),
                    kept(f),
                ));
            },
        }
    }
}

/// The order of the sequence does not matter for what a mapping keeps of
/// it, but for the order.
pub proof fn lemma_filter_map_rearranged<A, B>(
    first: Seq<A>,
    second: Seq<A>,
    f: spec_fn(A) -> Option<B>,
)
    requires
        first.to_multiset() == second.to_multiset(),
    ensures
        first.filter_map(f).to_multiset() == second.filter_map(f).to_multiset(),
{
    lemma_filter_map_gathers(first, f);
    lemma_filter_map_gathers(second, f);
    lemma_gather_rearranged(first, second, kept(f));
}

/// What the images under a mapping contribute: each element its image.
pub open spec fn image<A, B>(f: spec_fn(A) -> B) -> spec_fn(A) -> Multiset<B> {
    |a: A| Multiset::singleton(f(a))
}

/// The images under a mapping, counted, are gathered from the elements.
pub proof fn lemma_map_gathers<A, B>(s: Seq<A>, f: spec_fn(A) -> B)
    ensures
        s.map_values(f).to_multiset() == gather(s, image(f)),
    decreases s.len(),
{
    broadcast use vstd::seq_lib::group_to_multiset_ensures;

    if s.len() == 0 {
        assert(s.map_values(f).to_multiset() =~= Multiset::<B>::empty());
    } else {
        lemma_map_gathers(s.drop_last(), f);
        let rest = s.drop_last().map_values(f);
        assert(s.map_values(f) =~= rest.push(f(s.last())));
        assert(rest.push(f(s.last())).to_multiset() =~= rest.to_multiset().insert(f(s.last())));
        assert(rest.to_multiset().insert(f(s.last())) =~= rest.to_multiset().add(
            Multiset::singleton(f(s.last())),
        ));
    }
}

/// The order of the sequence does not matter for its images under a
/// mapping, but for the order.
pub proof fn lemma_map_rearranged<A, B>(first: Seq<A>, second: Seq<A>, f: spec_fn(A) -> B)
    requires
        first.to_multiset() == second.to_multiset(),
    ensures
        first.map_values(f).to_multiset() == second.map_values(f).to_multiset(),
{
    lemma_map_gathers(first, f);
    lemma_map_gathers(second, f);
    lemma_gather_rearranged(first, second, image(f));
}

} // verus!
