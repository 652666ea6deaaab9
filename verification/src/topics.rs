//! Sets of topics: what one client has subscribed to, what one peer wants
//! forwarded. Topics are compared character by character.

use vstd::prelude::*;

verus! {

/// Tells whether two topics are the same text.
pub fn same_topic(a: &String, b: &String) -> (r: bool)
    ensures
        r == (a@ == b@),
{
    *a == *b
}

/// The test that every topic but `topic` passes.
pub open spec fn other_than(topic: Seq<char>) -> spec_fn(Seq<char>) -> bool {
    |t: Seq<char>| t != topic
}

/// A finite set of topics.
pub struct TopicSet {
    items: Vec<String>,
}

impl View for TopicSet {
    type V = Set<Seq<char>>;

    closed spec fn view(&self) -> Set<Seq<char>> {
        self.listing().to_set()
    }
}

impl TopicSet {
    /// The topics in the order in which they became members, which is the
    /// order in which `get` hands them out.
    pub closed spec fn listing(&self) -> Seq<Seq<char>> {
        self.items@.map_values(|s: String| s@)
    }

    /// The listing holds the members of the set and nothing else.
    pub proof fn listing_covers_view(&self)
        ensures
            forall|t: Seq<char>| self@.contains(t) <==> self.listing().contains(t),
    {
    }

    /// The empty set.
    pub fn new() -> (s: TopicSet)
        ensures
            s@ == Set::<Seq<char>>::empty(),
            s.listing() == Seq::<Seq<char>>::empty(),
    {
        let s = TopicSet { items: Vec::new() };
        assert(s.listing() =~= Seq::<Seq<char>>::empty());
        assert(s@ =~= Set::<Seq<char>>::empty());
        s
    }

    /// The number of topics that `get` hands out.
    pub fn len(&self) -> (n: usize)
        ensures
            n == self.listing().len(),
    {
        self.items.len()
    }

    /// The topic at place `i` of the listing.
    pub fn get(&self, i: usize) -> (t: &String)
        requires
            i < self.listing().len(),
        ensures
            t@ == self.listing()[i as int],
    {
        &self.items[i]
    }

    /// Tells whether `topic` is a member.
    pub fn contains(&self, topic: &String) -> (r: bool)
        ensures
            r == self@.contains(topic@),
    {
        let mut i: usize = 0;
        while i < self.items.len()
            invariant
                i <= self.items@.len(),
                forall|j: int| 0 <= j < i ==> self.listing()[j] != topic@,
            decreases self.items@.len() - i,
        {
            if same_topic(&self.items[i], topic) {
                assert(self.listing()[i as int] == topic@);
                return true;
            }
            i += 1;
        }
        false
    }

    /// Adds `topic` at the end of the listing; a member stays where it is.
    pub fn insert(&mut self, topic: String)
        ensures
            final(self)@ == old(self)@.insert(topic@),
            final(self).listing() == if old(self).listing().contains(topic@) {
                old(self).listing()
            } else {
                old(self).listing().push(topic@)
            },
    {
        if !self.contains(&topic) {
            self.items.push(topic);
            assert(self.listing() =~= old(self).listing().push(topic@));
            assert forall|t: Seq<char>| self@.contains(t) == old(self)@.insert(topic@).contains(
                t,
            ) by {
                if old(self).listing().contains(t) {
                    let j = choose|j: int|
                        0 <= j < old(self).listing().len() && old(self).listing()[j] == t;
                    assert(self.listing()[j] == t);
                }
                if t == topic@ {
                    assert(self.listing()[self.listing().len() - 1] == t);
                }
            }
        }
        assert(self@ =~= old(self)@.insert(topic@));
    }

    /// Takes `topic` out; the other members stay, in their order.
    pub fn remove(&mut self, topic: &String)
        ensures
            final(self)@ == old(self)@.remove(topic@),
            final(self).listing() == old(self).listing().filter(other_than(topic@)),
    {
        let ghost all = self.listing();
        let mut kept: Vec<String> = Vec::new();
        let mut i: usize = 0;
        proof {
            reveal(Seq::filter);
            assert(all.take(0) == Seq::<Seq<char>>::empty());
            assert(kept@.map_values(|s: String| s@) =~= all.take(0).filter(other_than(topic@)));
        }
        while i < self.items.len()
            invariant
                i <= self.items@.len(),
                all == self.listing(),
                kept@.map_values(|s: String| s@) == all.take(i as int).filter(other_than(topic@)),
            decreases self.items@.len() - i,
        {
            let ghost before = kept@.map_values(|s: String| s@);
            proof {
                assert(all.take(i + 1) == all.take(i as int).push(all[i as int]));
                all.take(i as int).lemma_filter_push(all[i as int], other_than(topic@));
            }
            if !same_topic(&self.items[i], topic) {
                kept.push(self.items[i].clone());
                assert(kept@.map_values(|s: String| s@) =~= before.push(all[i as int]));
            }
            i += 1;
        }
        self.items = kept;
        proof {
            assert(all.take(all.len() as int) == all);
            let rest = all.filter(other_than(topic@));
            assert(self.listing() == rest);
            assert forall|t: Seq<char>| rest.contains(t) == (all.contains(t) && t != topic@) by {
                if rest.contains(t) {
                    let k = choose|k: int| 0 <= k < rest.len() && rest[k] == t;
                    all.lemma_filter_pred(other_than(topic@), k);
                    all.lemma_filter_contains_rev(other_than(topic@), t);
                }
                if all.contains(t) && t != topic@ {
                    let j = choose|j: int| 0 <= j < all.len() && all[j] == t;
                    all.lemma_filter_contains(other_than(topic@), j);
                }
            }
            assert(self@ =~= old(self)@.remove(topic@));
        }
    }
}

} // verus!
