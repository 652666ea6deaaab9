//! The subscription registry: for each topic, the local connections that
//! subscribed to it, in the order in which they did.

use crate::topics::{same_topic, TopicSet};
use vstd::prelude::*;

verus! {

/// The registry as a mathematical object: each topic with the identifiers
/// subscribed to it, oldest subscription first. A topic that nobody
/// subscribed to has the empty sequence.
pub type RegistryView = Map<Seq<char>, Seq<u32>>;

/// The test that every identifier but `id` passes.
pub open spec fn other_than(id: u32) -> spec_fn(u32) -> bool {
    |x: u32| x != id
}

/// `ids` with every occurrence of `id` taken out.
pub open spec fn without(ids: Seq<u32>, id: u32) -> Seq<u32> {
    ids.filter(other_than(id))
}

/// `ids` with `id` as a member: added at the end unless it is there already.
pub open spec fn with_subscriber(ids: Seq<u32>, id: u32) -> Seq<u32> {
    if ids.contains(id) {
        ids
    } else {
        ids.push(id)
    }
}

/// The registry in which nobody is subscribed to anything.
pub open spec fn empty_registry() -> RegistryView {
    Map::total(|t: Seq<char>| Seq::<u32>::empty())
}

/// The registry after `id` subscribed to `topic`.
pub open spec fn subscribed(m: RegistryView, topic: Seq<char>, id: u32) -> RegistryView {
    m.insert(topic, with_subscriber(m[topic], id))
}

/// The registry after `id` unsubscribed from `topic`.
pub open spec fn unsubscribed(m: RegistryView, topic: Seq<char>, id: u32) -> RegistryView {
    m.insert(topic, without(m[topic], id))
}

/// The registry after `id` was taken out of each topic in `topics`.
pub open spec fn disconnected(m: RegistryView, topics: Set<Seq<char>>, id: u32) -> RegistryView {
    Map::total(
        |t: Seq<char>|
            if topics.contains(t) {
                without(m[t], id)
            } else {
                m[t]
            },
    )
}

/// Whether every topic is known and nobody is subscribed to one topic twice.
pub open spec fn well_formed(m: RegistryView) -> bool {
    forall|t: Seq<char>| #[trigger] m.dom().contains(t) && m[t].no_duplicates()
}

/// The subscribers of one topic as the registry holds them.
pub struct TopicEntry {
    topic: String,
    subscribers: Vec<u32>,
}

/// Topic to subscribers.
pub struct Registry {
    entries: Vec<TopicEntry>,
}

/// The subscribers that the last entry for `t` lists; none without an entry.
spec fn lookup(es: Seq<(Seq<char>, Seq<u32>)>, t: Seq<char>) -> Seq<u32>
    decreases es.len(),
{
    if es.len() == 0 {
        Seq::empty()
    } else if es.last().0 == t {
        es.last().1
    } else {
        lookup(es.drop_last(), t)
    }
}

proof fn lookup_absent(es: Seq<(Seq<char>, Seq<u32>)>, t: Seq<char>)
    requires
        forall|j: int| 0 <= j < es.len() ==> es[j].0 != t,
    ensures
        lookup(es, t) == Seq::<u32>::empty(),
    decreases es.len(),
{
    if es.len() > 0 {
        lookup_absent(es.drop_last(), t);
    }
}

proof fn lookup_found(es: Seq<(Seq<char>, Seq<u32>)>, k: int)
    requires
        0 <= k < es.len(),
        forall|j: int| k < j < es.len() ==> es[j].0 != es[k].0,
    ensures
        lookup(es, es[k].0) == es[k].1,
    decreases es.len(),
{
    if k < es.len() - 1 {
        lookup_found(es.drop_last(), k);
    }
}

proof fn lookup_update(es: Seq<(Seq<char>, Seq<u32>)>, k: int, ids: Seq<u32>, t: Seq<char>)
    requires
        0 <= k < es.len(),
        forall|j: int| k < j < es.len() ==> es[j].0 != es[k].0,
    ensures
        lookup(es.update(k, (es[k].0, ids)), t) == if t == es[k].0 {
            ids
        } else {
            lookup(es, t)
        },
    decreases es.len(),
{
    let after = es.update(k, (es[k].0, ids));
    if k < es.len() - 1 {
        assert(after.drop_last() == es.drop_last().update(k, (es[k].0, ids)));
        lookup_update(es.drop_last(), k, ids, t);
    } else {
        assert(after.drop_last() == es.drop_last());
    }
}

proof fn lookup_push(es: Seq<(Seq<char>, Seq<u32>)>, e: (Seq<char>, Seq<u32>), t: Seq<char>)
    ensures
        lookup(es.push(e), t) == if t == e.0 {
            e.1
        } else {
            lookup(es, t)
        },
{
    assert(es.push(e).drop_last() == es);
}

/// Tells whether `id` is among `ids`.
fn holds_id(ids: &Vec<u32>, id: u32) -> (r: bool)
    ensures
        r == ids@.contains(id),
{
    let mut i: usize = 0;
    while i < ids.len()
        invariant
            i <= ids@.len(),
            forall|j: int| 0 <= j < i ==> ids@[j] != id,
        decreases ids@.len() - i,
    {
        if ids[i] == id {
            return true;
        }
        i += 1;
    }
    false
}

/// Copies `ids` without the occurrences of `id`.
fn drop_id(ids: &Vec<u32>, id: u32) -> (r: Vec<u32>)
    ensures
        r@ == without(ids@, id),
{
    let mut kept: Vec<u32> = Vec::new();
    let mut i: usize = 0;
    assert(ids@.take(0) == Seq::<u32>::empty());
    proof {
        reveal(Seq::filter);
    }
    while i < ids.len()
        invariant
            i <= ids@.len(),
            kept@ == without(ids@.take(i as int), id),
        decreases ids@.len() - i,
    {
        proof {
            ids@.take(i as int).lemma_filter_push(ids@[i as int], other_than(id));
            assert(ids@.take(i + 1) == ids@.take(i as int).push(ids@[i as int]));
        }
        if ids[i] != id {
            kept.push(ids[i]);
        }
        i += 1;
    }
    assert(ids@.take(ids@.len() as int) == ids@);
    kept
}

impl View for Registry {
    type V = RegistryView;

    closed spec fn view(&self) -> RegistryView {
        Map::total(|t: Seq<char>| lookup(self.entry_views(), t))
    }
}

impl Registry {
    spec fn entry_views(&self) -> Seq<(Seq<char>, Seq<u32>)> {
        self.entries@.map_values(|e: TopicEntry| (e.topic@, e.subscribers@))
    }

    /// A registry without subscriptions.
    pub fn new() -> (r: Registry)
        ensures
            r@ == empty_registry(),
    {
        let r = Registry { entries: Vec::new() };
        assert(r@ =~= empty_registry());
        r
    }

    /// The place of the last entry for `topic`.
    fn find(&self, topic: &String) -> (r: Option<usize>)
        ensures
            match r {
                Some(k) => {
                    &&& k < self.entries@.len()
                    &&& self.entry_views()[k as int].0 == topic@
                    &&& forall|j: int|
                        k < j < self.entries@.len() ==> self.entry_views()[j].0 != topic@
                },
                None => forall|j: int|
                    0 <= j < self.entries@.len() ==> self.entry_views()[j].0 != topic@,
            },
    {
        let mut i: usize = self.entries.len();
        while i > 0
            invariant
                i <= self.entries@.len(),
                forall|j: int| i <= j < self.entries@.len() ==> self.entry_views()[j].0 != topic@,
            decreases i,
        {
            i -= 1;
            if same_topic(&self.entries[i].topic, topic) {
                return Some(i);
            }
        }
        None
    }

    /// Puts `ids` in place of the subscribers that entry `k` lists.
    fn replace(&mut self, k: usize, ids: Vec<u32>)
        requires
            k < old(self).entries@.len(),
        ensures
            final(self).entry_views() == old(self).entry_views().update(
                k as int,
                (old(self).entry_views()[k as int].0, ids@),
            ),
    {
        let topic = self.entries[k].topic.clone();
        self.entries.set(k, TopicEntry { topic, subscribers: ids });
        assert(self.entry_views() =~= old(self).entry_views().update(
            k as int,
            (old(self).entry_views()[k as int].0, ids@),
        ));
    }

    /// Subscribes `id` to `topic`. A second subscription of the same
    /// identifier to the same topic changes nothing.
    pub fn add_subscriber(&mut self, topic: String, id: u32)
        ensures
            final(self)@ == subscribed(old(self)@, topic@, id),
    {
        let ghost es = self.entry_views();
        match self.find(&topic) {
            Some(k) => {
                proof {
                    lookup_found(es, k as int);
                }
                if !holds_id(&self.entries[k].subscribers, id) {
                    let mut ids = self.entries[k].subscribers.clone();
                    ids.push(id);
                    self.replace(k, ids);
                    assert forall|t: Seq<char>| #[trigger]
                        self@[t] == subscribed(old(self)@, topic@, id)[t] by {
                        lookup_update(es, k as int, ids@, t);
                    }
                }
            },
            None => {
                proof {
                    lookup_absent(es, topic@);
                }
                let mut ids: Vec<u32> = Vec::new();
                ids.push(id);
                self.entries.push(TopicEntry { topic, subscribers: ids });
                assert(self.entry_views() =~= es.push((topic@, ids@)));
                assert(ids@ =~= Seq::<u32>::empty().push(id));
                assert forall|t: Seq<char>| #[trigger]
                    self@[t] == subscribed(old(self)@, topic@, id)[t] by {
                    lookup_push(es, (topic@, ids@), t);
                }
            },
        }
        assert(self@ =~= subscribed(old(self)@, topic@, id));
    }

    /// Takes every subscription of `id` to `topic` out.
    pub fn remove_subscriber(&mut self, topic: &String, id: u32)
        ensures
            final(self)@ == unsubscribed(old(self)@, topic@, id),
    {
        let ghost es = self.entry_views();
        match self.find(topic) {
            Some(k) => {
                proof {
                    lookup_found(es, k as int);
                }
                let ids = drop_id(&self.entries[k].subscribers, id);
                self.replace(k, ids);
                assert forall|t: Seq<char>| #[trigger]
                    self@[t] == unsubscribed(old(self)@, topic@, id)[t] by {
                    lookup_update(es, k as int, ids@, t);
                }
            },
            None => {
                proof {
                    lookup_absent(es, topic@);
                    reveal(Seq::filter);
                }
                assert(without(Seq::<u32>::empty(), id) == Seq::<u32>::empty());
            },
        }
        assert(self@ =~= unsubscribed(old(self)@, topic@, id));
    }

    /// The identifiers to which a message on `topic` goes, each subscriber
    /// in the order of subscription. The list is a snapshot: sending to
    /// them needs no further access to the registry.
    pub fn fan_out(&self, topic: &String) -> (ids: Vec<u32>)
        ensures
            ids@ == self@[topic@],
    {
        match self.find(topic) {
            Some(k) => {
                proof {
                    lookup_found(self.entry_views(), k as int);
                }
                self.entries[k].subscribers.clone()
            },
            None => {
                proof {
                    lookup_absent(self.entry_views(), topic@);
                }
                Vec::new()
            },
        }
    }
}

/// Takes the connection `client_id` out of every topic in `client_topics`:
/// what the broker does when that connection ends.
pub fn cleanup_subscriptions(subscribers: &mut Registry, client_topics: &TopicSet, client_id: u32)
    ensures
        final(subscribers)@ == disconnected(old(subscribers)@, client_topics@, client_id),
{
    let mut i: usize = 0;
    let ghost listing = client_topics.listing();
    assert(subscribers@ =~= disconnected(old(subscribers)@, listing.take(0).to_set(), client_id));
    while i < client_topics.len()
        invariant
            listing == client_topics.listing(),
            i <= listing.len(),
            subscribers@ == disconnected(
                old(subscribers)@,
                listing.take(i as int).to_set(),
                client_id,
            ),
        decreases listing.len() - i,
    {
        let ghost before = subscribers@;
        let topic = client_topics.get(i);
        subscribers.remove_subscriber(topic, client_id);
        proof {
            let done = listing.take(i as int).to_set();
            let next = listing.take(i + 1).to_set();
            assert(listing.take(i + 1) == listing.take(i as int).push(topic@));
            assert forall|t: Seq<char>| next.contains(t) == (done.contains(t) || t == topic@) by {
                if listing.take(i as int).contains(t) {
                    let j = choose|j: int|
                        0 <= j < listing.take(i as int).len() && listing.take(i as int)[j] == t;
                    assert(listing.take(i + 1)[j] == t);
                }
                assert(listing.take(i + 1)[i as int] == topic@);
            }
            without_twice(old(subscribers)@[topic@], client_id);
            assert(subscribers@ =~= disconnected(old(subscribers)@, next, client_id));
        }
        i += 1;
    }
    proof {
        assert(listing.take(listing.len() as int) == listing);
        client_topics.listing_covers_view();
        assert(listing.to_set() =~= client_topics@);
    }
}

/// Taking an identifier out twice is taking it out once.
pub proof fn without_twice(ids: Seq<u32>, id: u32)
    ensures
        without(without(ids, id), id) == without(ids, id),
    decreases ids.len(),
{
    reveal(Seq::filter);
    if ids.len() > 0 {
        without_twice(ids.drop_last(), id);
        ids.drop_last().lemma_filter_push(ids.last(), other_than(id));
        assert(ids.drop_last().push(ids.last()) == ids);
        if ids.last() != id {
            without(ids.drop_last(), id).lemma_filter_push(ids.last(), other_than(id));
        }
    }
}

/// What is left after taking `id` out: the other members, `id` not among
/// them, and no member twice if none was before.
pub proof fn without_keeps_others(ids: Seq<u32>, id: u32)
    ensures
        forall|x: u32|
            #![trigger without(ids, id).contains(x)]
            #![trigger ids.contains(x)]
            without(ids, id).contains(x) <==> ids.contains(x) && x != id,
        ids.no_duplicates() ==> without(ids, id).no_duplicates(),
    decreases ids.len(),
{
    reveal(Seq::filter);
    if ids.len() > 0 {
        let front = ids.drop_last();
        let last = ids.last();
        without_keeps_others(front, id);
        front.lemma_filter_push(last, other_than(id));
        assert(front.push(last) == ids);
        let kept = without(front, id);
        assert forall|x: u32| without(ids, id).contains(x) <==> ids.contains(x) && x != id by {
            if ids.contains(x) && x != id {
                let j = choose|j: int| 0 <= j < ids.len() && ids[j] == x;
                if j < front.len() {
                    assert(front[j] == x);
                    assert(front.contains(x));
                    let k = choose|k: int| 0 <= k < kept.len() && kept[k] == x;
                    assert(without(ids, id)[k] == x);
                } else {
                    assert(without(ids, id).last() == x);
                }
            }
            if without(ids, id).contains(x) {
                let k = choose|k: int| 0 <= k < without(ids, id).len() && without(ids, id)[k] == x;
                if k < kept.len() {
                    assert(kept[k] == x);
                    assert(kept.contains(x));
                    let j = choose|j: int| 0 <= j < front.len() && front[j] == x;
                    assert(ids[j] == x);
                } else {
                    assert(ids[ids.len() - 1] == x);
                }
            }
        }
        if ids.no_duplicates() {
            assert(front.no_duplicates());
            if last != id {
                assert(!front.contains(last)) by {
                    if front.contains(last) {
                        let j = choose|j: int| 0 <= j < front.len() && front[j] == last;
                        assert(ids[j] == ids[ids.len() - 1]);
                    }
                }
                assert(!kept.contains(last));
            }
        }
    }
}

/// The number of copies of a message on `topic` that go to `id`.
pub open spec fn deliveries_to(m: RegistryView, topic: Seq<char>, id: u32) -> nat {
    m[topic].to_multiset().count(id)
}

/// A subscriber that is listed, and listed once, gets one copy; one that is
/// not listed gets none.
pub proof fn deliveries_count(m: RegistryView, topic: Seq<char>, id: u32)
    ensures
        !m[topic].contains(id) ==> deliveries_to(m, topic, id) == 0,
        m[topic].contains(id) && m[topic].no_duplicates() ==> deliveries_to(m, topic, id) == 1,
{
    m[topic].to_multiset_ensures();
    if m[topic].no_duplicates() {
        m[topic].lemma_multiset_has_no_duplicates();
    }
}

/// One request that reaches the registry.
pub enum RegistryOp {
    Subscribe { topic: Seq<char>, id: u32 },
    Unsubscribe { topic: Seq<char>, id: u32 },
    Publish { topic: Seq<char> },
}

/// The registry after one request. A publish reads the registry and leaves
/// it as it is.
pub open spec fn step(m: RegistryView, op: RegistryOp) -> RegistryView {
    match op {
        RegistryOp::Subscribe { topic, id } => subscribed(m, topic, id),
        RegistryOp::Unsubscribe { topic, id } => unsubscribed(m, topic, id),
        RegistryOp::Publish { topic } => m,
    }
}

/// The registry after the requests `ops`, first to last.
pub open spec fn run(m: RegistryView, ops: Seq<RegistryOp>) -> RegistryView
    decreases ops.len(),
{
    if ops.len() == 0 {
        m
    } else {
        step(run(m, ops.drop_last()), ops.last())
    }
}

/// No request makes a well-formed registry ill-formed, and the registry
/// without subscriptions is well-formed.
pub proof fn well_formed_is_kept(m: RegistryView, op: RegistryOp)
    requires
        well_formed(m),
    ensures
        well_formed(step(m, op)),
        well_formed(empty_registry()),
{
    match op {
        RegistryOp::Subscribe { topic, id } => {
            assert(m.dom().contains(topic));
        },
        RegistryOp::Unsubscribe { topic, id } => {
            assert(m.dom().contains(topic));
            without_keeps_others(m[topic], id);
        },
        RegistryOp::Publish { topic } => {},
    }
    let after = step(m, op);
    assert forall|t: Seq<char>| #[trigger] after.dom().contains(t) && after[t].no_duplicates() by {
        assert(m.dom().contains(t));
    }
}

/// Taking a connection out of its topics keeps the registry well-formed.
pub proof fn well_formed_after_disconnect(m: RegistryView, topics: Set<Seq<char>>, id: u32)
    requires
        well_formed(m),
    ensures
        well_formed(disconnected(m, topics, id)),
{
    let after = disconnected(m, topics, id);
    assert forall|t: Seq<char>| #[trigger] after.dom().contains(t) && after[t].no_duplicates() by {
        assert(m.dom().contains(t));
        without_keeps_others(m[t], id);
    }
}

/// Who is subscribed after one request: whoever just subscribed, and
/// whoever was subscribed and did not just unsubscribe.
pub proof fn membership_after_step(m: RegistryView, op: RegistryOp, topic: Seq<char>, id: u32)
    requires
        well_formed(m),
    ensures
        step(m, op)[topic].contains(id) <==> op == (RegistryOp::Subscribe { topic, id }) || (
        m[topic].contains(id) && op != (RegistryOp::Unsubscribe { topic, id })),
{
    assert(m.dom().contains(topic));
    match op {
        RegistryOp::Subscribe { topic: t, id: other } => {
            assert(m.dom().contains(t));
            let after = m[t].push(other);
            if t == topic && !m[t].contains(other) {
                assert(after.last() == other);
                if m[t].contains(id) {
                    let j = choose|j: int| 0 <= j < m[t].len() && m[t][j] == id;
                    assert(after[j] == id);
                }
                if after.contains(id) && other != id {
                    let j = choose|j: int| 0 <= j < after.len() && after[j] == id;
                    assert(m[t][j] == id);
                }
            }
        },
        RegistryOp::Unsubscribe { topic: t, id: other } => {
            assert(m.dom().contains(t));
            without_keeps_others(m[t], other);
        },
        RegistryOp::Publish { topic: t } => {},
    }
}

/// Once `id` has subscribed to `topic`, and whatever requests follow, as
/// long as none of them is `id` unsubscribing from `topic`: a message
/// published on `topic` goes to `id` exactly once.
pub proof fn delivered_once_after_subscribe(
    m: RegistryView,
    topic: Seq<char>,
    id: u32,
    later: Seq<RegistryOp>,
)
    requires
        well_formed(m),
        forall|i: int|
            0 <= i < later.len() ==> later[i] != (RegistryOp::Unsubscribe { topic, id }),
    ensures
        deliveries_to(run(subscribed(m, topic, id), later), topic, id) == 1,
        well_formed(run(subscribed(m, topic, id), later)),
    decreases later.len(),
{
    let first = RegistryOp::Subscribe { topic, id };
    let start = subscribed(m, topic, id);
    if later.len() == 0 {
        well_formed_is_kept(m, first);
        membership_after_step(m, first, topic, id);
    } else {
        let before = run(start, later.drop_last());
        delivered_once_after_subscribe(m, topic, id, later.drop_last());
        well_formed_is_kept(before, later.last());
        before[topic].to_multiset_ensures();
        membership_after_step(before, later.last(), topic, id);
    }
    let end = run(start, later);
    assert(end.dom().contains(topic));
    deliveries_count(end, topic, id);
}

/// Once `id` has unsubscribed from `topic`, and whatever requests follow,
/// as long as none of them is `id` subscribing to `topic` again: no message
/// published on `topic` goes to `id`.
pub proof fn not_delivered_after_unsubscribe(
    m: RegistryView,
    topic: Seq<char>,
    id: u32,
    later: Seq<RegistryOp>,
)
    requires
        well_formed(m),
        forall|i: int| 0 <= i < later.len() ==> later[i] != (RegistryOp::Subscribe { topic, id }),
    ensures
        deliveries_to(run(unsubscribed(m, topic, id), later), topic, id) == 0,
        well_formed(run(unsubscribed(m, topic, id), later)),
    decreases later.len(),
{
    let first = RegistryOp::Unsubscribe { topic, id };
    let start = unsubscribed(m, topic, id);
    if later.len() == 0 {
        well_formed_is_kept(m, first);
        membership_after_step(m, first, topic, id);
    } else {
        let before = run(start, later.drop_last());
        not_delivered_after_unsubscribe(m, topic, id, later.drop_last());
        well_formed_is_kept(before, later.last());
        before[topic].to_multiset_ensures();
        membership_after_step(before, later.last(), topic, id);
    }
    let end = run(start, later);
    deliveries_count(end, topic, id);
}

/// After a connection was taken out of the topics it had subscribed to,
/// a message on any of those topics no longer goes to it. Where those
/// topics are all the topics that list it, the registry no longer holds it.
pub proof fn disconnect_ends_delivery(m: RegistryView, topics: Set<Seq<char>>, id: u32)
    requires
        well_formed(m),
    ensures
        forall|t: Seq<char>|
            topics.contains(t) ==> #[trigger] deliveries_to(disconnected(m, topics, id), t, id)
                == 0,
        (forall|t: Seq<char>| #[trigger] m[t].contains(id) ==> topics.contains(t)) ==> forall|
            t: Seq<char>,
        |
            !(#[trigger] disconnected(m, topics, id)[t]).contains(id),
{
    let after = disconnected(m, topics, id);
    assert forall|t: Seq<char>| topics.contains(t) implies #[trigger] deliveries_to(after, t, id)
        == 0 by {
        without_keeps_others(m[t], id);
        deliveries_count(after, t, id);
    }
    if forall|t: Seq<char>| #[trigger] m[t].contains(id) ==> topics.contains(t) {
        assert forall|t: Seq<char>| !(#[trigger] after[t]).contains(id) by {
            without_keeps_others(m[t], id);
        }
    }
}

} // verus!
