//! Which places of a list are chosen, and what stands at them.
use vstd::prelude::*;

verus! {

/// The places are those that are wanted, all of them, in their order.
pub open spec fn picks(places: Seq<int>, wanted: Seq<bool>) -> bool {
    &&& forall|k: int|
        0 <= k < places.len() ==> 0 <= #[trigger] places[k] < wanted.len() && wanted[places[k]]
    &&& forall|k: int, l: int|
        0 <= k < l < places.len() ==> #[trigger] places[k] < #[trigger] places[l]
    &&& forall|i: int| 0 <= i < wanted.len() && #[trigger] wanted[i] ==> places.contains(i)
}

/// What stands at the places.
pub open spec fn picked<A>(list: Seq<A>, places: Seq<int>) -> Seq<A> {
    Seq::new(places.len(), |k: int| list[places[k]])
}

/// One more place is taken in just when it is wanted.
pub(crate) proof fn lemma_one_more(places: Seq<int>, wanted: Seq<bool>)
    requires
        wanted.len() > 0,
        picks(places, wanted.drop_last()),
    ensures
        wanted.last() ==> picks(places.push(wanted.len() - 1), wanted),
        !wanted.last() ==> picks(places, wanted),
{
    let front = wanted.drop_last();
    let longer = places.push(wanted.len() - 1);
    assert forall|k: int| 0 <= k < places.len() implies 0 <= #[trigger] places[k]
        < wanted.len() - 1 && wanted[places[k]] by {
        assert(front[places[k]] == wanted[places[k]]);
    }
    assert forall|i: int| 0 <= i < wanted.len() && #[trigger] wanted[i] implies (if wanted.last() {
        longer.contains(i)
    } else {
        places.contains(i)
    }) by {
        if i < front.len() {
            assert(front[i]);
            let k = choose|k: int| 0 <= k < places.len() && places[k] == i;
            assert(longer[k] == i);
        } else {
            assert(longer[places.len() as int] == i);
        }
    }
}

/// No more places can be chosen than are wanted.
pub(crate) proof fn lemma_most_places(places: Seq<int>, wanted: Seq<bool>, chosen: Seq<int>)
    requires
        picks(places, wanted),
        chosen.no_duplicates(),
        forall|k: int|
            0 <= k < chosen.len() ==> 0 <= #[trigger] chosen[k] < wanted.len() && wanted[chosen[k]],
    ensures
        chosen.len() <= places.len(),
{
    assert(places.no_duplicates());
    places.unique_seq_to_set();
    chosen.unique_seq_to_set();
    assert forall|i: int| chosen.to_set().contains(i) implies places.to_set().contains(i) by {
        let k = choose|k: int| 0 <= k < chosen.len() && chosen[k] == i;
        assert(wanted[chosen[k]]);
    }
    vstd::set_lib::lemma_len_subset(chosen.to_set(), places.to_set());
}

} // verus!
