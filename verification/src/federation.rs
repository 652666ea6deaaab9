//! Links to peer brokers: which peers are connected, which topics each of
//! them wants forwarded, and when a lost link is dialled again.

use crate::topics::{same_topic, TopicSet};
use vstd::prelude::*;

verus! {

/// Seconds between the loss of a link and the next dial, unless configured.
pub const DEFAULT_BACKOFF_SECS: u64 = 5;

/// A connected peer as a mathematical object.
pub struct PeerView {
    pub address: Seq<char>,
    pub interested: Set<Seq<char>>,
}

/// The connected peers, in the order in which their links came up.
pub type FederationView = Seq<PeerView>;

/// The test that every peer but the one at `address` passes.
pub open spec fn not_at(address: Seq<char>) -> spec_fn(PeerView) -> bool {
    |p: PeerView| p.address != address
}

/// The test that the peers that want `topic` forwarded pass.
pub open spec fn wants(topic: Seq<char>) -> spec_fn(PeerView) -> bool {
    |p: PeerView| p.interested.contains(topic)
}

/// The function that gives a peer's address.
pub open spec fn address_of() -> spec_fn(PeerView) -> Seq<char> {
    |p: PeerView| p.address
}

/// Whether a link to `address` is up.
pub open spec fn connected(v: FederationView, address: Seq<char>) -> bool {
    exists|i: int| 0 <= i < v.len() && (#[trigger] v[i]).address == address
}

/// The peers without the one at `address`.
pub open spec fn without_peer(v: FederationView, address: Seq<char>) -> FederationView {
    v.filter(not_at(address))
}

/// The peers after a link to `address` came up: that peer is the newest,
/// and nothing is known yet of what it wants.
pub open spec fn with_peer(v: FederationView, address: Seq<char>) -> FederationView {
    without_peer(v, address).push(PeerView { address, interested: Set::empty() })
}

/// The peers after the one at `address` asked for `topic`.
pub open spec fn with_interest(
    v: FederationView,
    address: Seq<char>,
    topic: Seq<char>,
) -> FederationView {
    Seq::new(
        v.len(),
        |i: int|
            if v[i].address == address {
                PeerView { address: v[i].address, interested: v[i].interested.insert(topic) }
            } else {
                v[i]
            },
    )
}

/// The peers after the one at `address` asked for `topic` no longer.
pub open spec fn without_interest(
    v: FederationView,
    address: Seq<char>,
    topic: Seq<char>,
) -> FederationView {
    Seq::new(
        v.len(),
        |i: int|
            if v[i].address == address {
                PeerView { address: v[i].address, interested: v[i].interested.remove(topic) }
            } else {
                v[i]
            },
    )
}

/// The addresses of all connected peers.
pub open spec fn addresses(v: FederationView) -> Seq<Seq<char>> {
    v.map_values(address_of())
}

/// The addresses of the peers that want `topic` forwarded.
pub open spec fn interested_in(v: FederationView, topic: Seq<char>) -> Seq<Seq<char>> {
    v.filter(wants(topic)).map_values(address_of())
}

/// What each string of a list spells.
pub open spec fn texts(v: Seq<String>) -> Seq<Seq<char>> {
    v.map_values(|s: String| s@)
}

/// What the broker remembers of one connected peer.
pub struct PeerLinkState {
    address: String,
    interested_topics: TopicSet,
}

impl View for PeerLinkState {
    type V = PeerView;

    closed spec fn view(&self) -> PeerView {
        PeerView { address: self.address@, interested: self.interested_topics@ }
    }
}

impl PeerLinkState {
    /// The peer's network address.
    pub fn address(&self) -> (a: &String)
        ensures
            a@ == self@.address,
    {
        &self.address
    }

    /// The topics that the peer wants forwarded.
    pub fn interested_topics(&self) -> (t: &TopicSet)
        ensures
            t@ == self@.interested,
    {
        &self.interested_topics
    }
}

/// The connected peers.
pub struct Federation {
    links: Vec<PeerLinkState>,
}

impl View for Federation {
    type V = FederationView;

    closed spec fn view(&self) -> FederationView {
        self.links@.map_values(|l: PeerLinkState| l@)
    }
}

impl Federation {
    /// No peer connected.
    pub fn new() -> (f: Federation)
        ensures
            f@ == Seq::<PeerView>::empty(),
    {
        let f = Federation { links: Vec::new() };
        assert(f@ =~= Seq::<PeerView>::empty());
        f
    }

    /// The number of connected peers.
    pub fn len(&self) -> (n: usize)
        ensures
            n == self@.len(),
    {
        self.links.len()
    }

    /// The peer at place `i`.
    pub fn get(&self, i: usize) -> (p: &PeerLinkState)
        requires
            i < self@.len(),
        ensures
            p@ == self@[i as int],
    {
        &self.links[i]
    }

    /// Tells whether a link to `address` is up.
    pub fn is_peer(&self, address: &String) -> (r: bool)
        ensures
            r == connected(self@, address@),
    {
        let mut i: usize = 0;
        while i < self.links.len()
            invariant
                i <= self.links@.len(),
                forall|j: int| 0 <= j < i ==> (#[trigger] self@[j]).address != address@,
            decreases self.links@.len() - i,
        {
            if same_topic(&self.links[i].address, address) {
                assert(self@[i as int].address == address@);
                return true;
            }
            i += 1;
        }
        false
    }

    /// Forgets the peer at `address`, interest set included.
    pub fn remove(&mut self, address: &String)
        ensures
            final(self)@ == without_peer(old(self)@, address@),
    {
        let mut i: usize = 0;
        let ghost mut done: Seq<PeerView> = Seq::empty();
        proof {
            reveal(Seq::filter);
            assert(old(self)@.take(0) == Seq::<PeerView>::empty());
        }
        while i < self.links.len()
            invariant
                i <= self.links@.len(),
                done.len() >= i,
                done.len() - i + self.links@.len() == old(self)@.len(),
                self@.take(i as int) == without_peer(old(self)@.take(done.len() as int), address@),
                self@.skip(i as int) == old(self)@.skip(done.len() as int),
            decreases self.links@.len() - i,
        {
            let ghost n = done.len() as int;
            proof {
                assert(self@[i as int] == self@.skip(i as int)[0]);
                assert(old(self)@.take(n + 1) == old(self)@.take(n).push(old(self)@[n]));
                old(self)@.take(n).lemma_filter_push(old(self)@[n], not_at(address@));
            }
            if same_topic(&self.links[i].address, address) {
                let ghost before = self@;
                self.links.remove(i);
                assert(self@ =~= before.remove(i as int));
                assert(self@.take(i as int) == before.take(i as int));
                assert(self@.skip(i as int) == before.skip(i as int).skip(1));
                assert(old(self)@.skip(n).skip(1) == old(self)@.skip(n + 1));
            } else {
                assert(self@.take(i + 1) == self@.take(i as int).push(self@[i as int]));
                assert(self@.skip(i + 1) == self@.skip(i as int).skip(1));
                assert(old(self)@.skip(n).skip(1) == old(self)@.skip(n + 1));
                i += 1;
            }
            proof {
                done = done.push(old(self)@[n]);
            }
        }
        assert(self@.take(self@.len() as int) == self@);
        assert(old(self)@.take(old(self)@.len() as int) == old(self)@);
    }

    /// Records that the link to `address` came up. What an earlier link to
    /// the same address had asked for is forgotten.
    pub fn insert(&mut self, address: String)
        ensures
            final(self)@ == with_peer(old(self)@, address@),
    {
        self.remove(&address);
        let ghost before = self@;
        self.links.push(PeerLinkState { address, interested_topics: TopicSet::new() });
        assert(self@ =~= before.push(PeerView { address: address@, interested: Set::empty() }));
    }

    /// Records that the peer at `address` wants `topic` forwarded.
    pub fn add_interest(&mut self, address: &String, topic: &String)
        ensures
            final(self)@ == with_interest(old(self)@, address@, topic@),
    {
        let mut i: usize = 0;
        while i < self.links.len()
            invariant
                i <= self.links@.len(),
                self@.len() == old(self)@.len(),
                self@.take(i as int) == with_interest(old(self)@, address@, topic@).take(i as int),
                self@.skip(i as int) == old(self)@.skip(i as int),
            decreases self.links@.len() - i,
        {
            let ghost before = self@;
            assert(before[i as int] == before.skip(i as int)[0]);
            if same_topic(&self.links[i].address, address) {
                let mut link = self.links.remove(i);
                link.interested_topics.insert(topic.clone());
                self.links.insert(i, link);
                assert(self@ =~= before.update(
                    i as int,
                    PeerView {
                        address: before[i as int].address,
                        interested: before[i as int].interested.insert(topic@),
                    },
                ));
            }
            proof {
                let goal = with_interest(old(self)@, address@, topic@);
                assert(self@.take(i + 1) =~= self@.take(i as int).push(self@[i as int]));
                assert(before.take(i as int) =~= self@.take(i as int));
                assert(goal.take(i + 1) =~= goal.take(i as int).push(goal[i as int]));
                assert(self@.skip(i + 1) =~= before.skip(i as int).skip(1));
                assert(old(self)@.skip(i as int).skip(1) =~= old(self)@.skip(i + 1));
            }
            i += 1;
        }
        assert(self@.take(self@.len() as int) == self@);
        assert(with_interest(old(self)@, address@, topic@).take(self@.len() as int)
            == with_interest(old(self)@, address@, topic@));
    }

    /// Records that the peer at `address` no longer wants `topic` forwarded.
    pub fn remove_interest(&mut self, address: &String, topic: &String)
        ensures
            final(self)@ == without_interest(old(self)@, address@, topic@),
    {
        let mut i: usize = 0;
        while i < self.links.len()
            invariant
                i <= self.links@.len(),
                self@.len() == old(self)@.len(),
                self@.take(i as int) == without_interest(old(self)@, address@, topic@).take(
                    i as int,
                ),
                self@.skip(i as int) == old(self)@.skip(i as int),
            decreases self.links@.len() - i,
        {
            let ghost before = self@;
            assert(before[i as int] == before.skip(i as int)[0]);
            if same_topic(&self.links[i].address, address) {
                let mut link = self.links.remove(i);
                link.interested_topics.remove(topic);
                self.links.insert(i, link);
                assert(self@ =~= before.update(
                    i as int,
                    PeerView {
                        address: before[i as int].address,
                        interested: before[i as int].interested.remove(topic@),
                    },
                ));
            }
            proof {
                let goal = without_interest(old(self)@, address@, topic@);
                assert(self@.take(i + 1) =~= self@.take(i as int).push(self@[i as int]));
                assert(before.take(i as int) =~= self@.take(i as int));
                assert(goal.take(i + 1) =~= goal.take(i as int).push(goal[i as int]));
                assert(self@.skip(i + 1) =~= before.skip(i as int).skip(1));
                assert(old(self)@.skip(i as int).skip(1) =~= old(self)@.skip(i + 1));
            }
            i += 1;
        }
        assert(self@.take(self@.len() as int) == self@);
        assert(without_interest(old(self)@, address@, topic@).take(self@.len() as int)
            == without_interest(old(self)@, address@, topic@));
    }

    /// The addresses of all connected peers, oldest link first.
    pub fn peers(&self) -> (r: Vec<String>)
        ensures
            texts(r@) == addresses(self@),
    {
        let mut out: Vec<String> = Vec::new();
        let mut i: usize = 0;
        assert(texts(out@) =~= addresses(self@.take(0)));
        while i < self.links.len()
            invariant
                i <= self.links@.len(),
                texts(out@) == addresses(self@.take(i as int)),
            decreases self.links@.len() - i,
        {
            let ghost before = out@;
            out.push(self.links[i].address.clone());
            assert(self@.take(i + 1) == self@.take(i as int).push(self@[i as int]));
            assert(texts(out@) =~= texts(before).push(self@[i as int].address));
            assert(addresses(self@.take(i + 1)) =~= addresses(self@.take(i as int)).push(
                self@[i as int].address,
            ));
            i += 1;
        }
        assert(self@.take(self@.len() as int) == self@);
        out
    }

    /// The addresses of the peers that want `topic` forwarded, oldest link
    /// first: a snapshot, so that sending needs no further access.
    pub fn interested_peers(&self, topic: &String) -> (r: Vec<String>)
        ensures
            texts(r@) == interested_in(self@, topic@),
    {
        let mut out: Vec<String> = Vec::new();
        let mut i: usize = 0;
        proof {
            reveal(Seq::filter);
            assert(self@.take(0) == Seq::<PeerView>::empty());
            assert(texts(out@) =~= interested_in(self@.take(0), topic@));
        }
        while i < self.links.len()
            invariant
                i <= self.links@.len(),
                texts(out@) == interested_in(self@.take(i as int), topic@),
            decreases self.links@.len() - i,
        {
            let ghost before = out@;
            let ghost seen = self@.take(i as int);
            let ghost peer = self@[i as int];
            proof {
                assert(self@.take(i + 1) == seen.push(peer));
                seen.lemma_filter_push(peer, wants(topic@));
            }
            if self.links[i].interested_topics.contains(topic) {
                out.push(self.links[i].address.clone());
                assert(texts(out@) =~= texts(before).push(peer.address));
                assert(seen.filter(wants(topic@)).push(peer).map_values(address_of())
                    =~= seen.filter(wants(topic@)).map_values(address_of()).push(peer.address));
            }
            i += 1;
        }
        assert(self@.take(self@.len() as int) == self@);
        out
    }
}

/// Where the link to one peer stands.
#[derive(Clone, Copy, Debug, PartialEq, Eq, Structural)]
pub enum LinkPhase {
    /// A dial is under way.
    Connecting,
    /// The link is up and is being read.
    Connected,
    /// The link is down and the backoff runs.
    Disconnected,
}

/// What the transport reports of the link to one peer.
#[derive(Clone, Copy, Debug, PartialEq, Eq, Structural)]
pub enum LinkEvent {
    /// The dial succeeded.
    Established,
    /// The dial failed.
    Refused,
    /// Reading the link failed, or the link ended.
    Lost,
    /// The backoff interval has passed.
    BackoffElapsed,
}

/// What is to be done next for the link to one peer.
#[derive(Clone, Copy, Debug, PartialEq, Eq, Structural)]
pub enum LinkAction {
    /// Dial the peer.
    Dial,
    /// Read frames from the link.
    Read,
    /// Wait this many seconds, then report `BackoffElapsed`.
    Wait(u64),
    /// Nothing: the event does not belong to the phase.
    Ignore,
}

/// The phase that follows `phase` on `event`.
pub open spec fn next_phase(phase: LinkPhase, event: LinkEvent) -> LinkPhase {
    match (phase, event) {
        (LinkPhase::Connecting, LinkEvent::Established) => LinkPhase::Connected,
        (LinkPhase::Connecting, LinkEvent::Refused) => LinkPhase::Disconnected,
        (LinkPhase::Connected, LinkEvent::Lost) => LinkPhase::Disconnected,
        (LinkPhase::Disconnected, LinkEvent::BackoffElapsed) => LinkPhase::Connecting,
        _ => phase,
    }
}

/// What is to be done when `event` arrives in `phase`.
pub open spec fn next_action(phase: LinkPhase, event: LinkEvent, backoff_secs: u64) -> LinkAction {
    match (phase, event) {
        (LinkPhase::Connecting, LinkEvent::Established) => LinkAction::Read,
        (LinkPhase::Connecting, LinkEvent::Refused) => LinkAction::Wait(backoff_secs),
        (LinkPhase::Connected, LinkEvent::Lost) => LinkAction::Wait(backoff_secs),
        (LinkPhase::Disconnected, LinkEvent::BackoffElapsed) => LinkAction::Dial,
        _ => LinkAction::Ignore,
    }
}

/// The connected peers after `event` arrived in `phase` on the link to
/// `address`.
pub open spec fn peers_after(
    v: FederationView,
    address: Seq<char>,
    phase: LinkPhase,
    event: LinkEvent,
) -> FederationView {
    match (phase, event) {
        (LinkPhase::Connecting, LinkEvent::Established) => with_peer(v, address),
        (LinkPhase::Connecting, LinkEvent::Refused) => without_peer(v, address),
        (LinkPhase::Connected, LinkEvent::Lost) => without_peer(v, address),
        _ => v,
    }
}

/// The link to one configured peer.
pub struct PeerLink {
    address: String,
    backoff_secs: u64,
    phase: LinkPhase,
}

/// The link to one configured peer as a mathematical object.
pub struct PeerLinkView {
    pub address: Seq<char>,
    pub backoff_secs: u64,
    pub phase: LinkPhase,
}

impl View for PeerLink {
    type V = PeerLinkView;

    closed spec fn view(&self) -> PeerLinkView {
        PeerLinkView {
            address: self.address@,
            backoff_secs: self.backoff_secs,
            phase: self.phase,
        }
    }
}

impl PeerLink {
    /// The link to the peer at `address`, about to be dialled for the first
    /// time.
    pub fn new(address: String, backoff_secs: u64) -> (link: PeerLink)
        ensures
            link@ == (PeerLinkView {
                address: address@,
                backoff_secs,
                phase: LinkPhase::Connecting,
            }),
    {
        PeerLink { address, backoff_secs, phase: LinkPhase::Connecting }
    }

    /// The peer's network address.
    pub fn address(&self) -> (a: &String)
        ensures
            a@ == self@.address,
    {
        &self.address
    }

    /// Seconds between the loss of the link and the next dial.
    pub fn backoff_secs(&self) -> (b: u64)
        ensures
            b == self@.backoff_secs,
    {
        self.backoff_secs
    }

    /// Where the link stands.
    pub fn phase(&self) -> (p: LinkPhase)
        ensures
            p == self@.phase,
    {
        self.phase
    }
}

impl Federation {
    /// Takes note of what the transport reports of `link`, and says what is
    /// to be done next. A link that came up is entered among the connected
    /// peers; one that failed, at the dial or later, is taken out of them
    /// and is dialled again after the backoff.
    pub fn on_link_event(&mut self, link: &mut PeerLink, event: LinkEvent) -> (action: LinkAction)
        ensures
            action == next_action(old(link)@.phase, event, old(link)@.backoff_secs),
            final(link)@ == (PeerLinkView {
                phase: next_phase(old(link)@.phase, event),
                ..old(link)@
            }),
            final(self)@ == peers_after(old(self)@, old(link)@.address, old(link)@.phase, event),
    {
        match (link.phase, event) {
            (LinkPhase::Connecting, LinkEvent::Established) => {
                self.insert(link.address.clone());
                link.phase = LinkPhase::Connected;
                LinkAction::Read
            },
            (LinkPhase::Connecting, LinkEvent::Refused) => {
                self.remove(&link.address);
                link.phase = LinkPhase::Disconnected;
                LinkAction::Wait(link.backoff_secs)
            },
            (LinkPhase::Connected, LinkEvent::Lost) => {
                self.remove(&link.address);
                link.phase = LinkPhase::Disconnected;
                LinkAction::Wait(link.backoff_secs)
            },
            (LinkPhase::Disconnected, LinkEvent::BackoffElapsed) => {
                link.phase = LinkPhase::Connecting;
                LinkAction::Dial
            },
            _ => LinkAction::Ignore,
        }
    }
}

/// A lost link comes back without anything else being restarted: losing
/// it starts the backoff, the end of the backoff starts a dial, and a dial
/// that succeeds makes the peer a connected peer again. The same holds
/// after a dial that failed.
pub proof fn lost_link_is_dialled_again(v: FederationView, address: Seq<char>, backoff_secs: u64)
    ensures
        next_action(LinkPhase::Connected, LinkEvent::Lost, backoff_secs) == LinkAction::Wait(
            backoff_secs,
        ),
        next_action(LinkPhase::Connecting, LinkEvent::Refused, backoff_secs) == LinkAction::Wait(
            backoff_secs,
        ),
        !connected(peers_after(v, address, LinkPhase::Connected, LinkEvent::Lost), address),
        next_phase(LinkPhase::Connected, LinkEvent::Lost) == LinkPhase::Disconnected,
        next_phase(LinkPhase::Connecting, LinkEvent::Refused) == LinkPhase::Disconnected,
        next_action(LinkPhase::Disconnected, LinkEvent::BackoffElapsed, backoff_secs)
            == LinkAction::Dial,
        next_phase(LinkPhase::Disconnected, LinkEvent::BackoffElapsed) == LinkPhase::Connecting,
        next_phase(LinkPhase::Connecting, LinkEvent::Established) == LinkPhase::Connected,
        connected(peers_after(v, address, LinkPhase::Connecting, LinkEvent::Established), address),
{
    let gone = without_peer(v, address);
    assert(!connected(gone, address)) by {
        if connected(gone, address) {
            let i = choose|i: int| 0 <= i < gone.len() && (#[trigger] gone[i]).address == address;
            v.lemma_filter_pred(not_at(address), i);
        }
    }
    let back = with_peer(v, address);
    assert(back[back.len() - 1].address == address);
}

/// No phase is final: in each, some event moves the link on.
pub proof fn link_is_never_stuck(phase: LinkPhase)
    ensures
        exists|event: LinkEvent| next_phase(phase, event) != phase,
{
    match phase {
        LinkPhase::Connecting => {
            assert(next_phase(phase, LinkEvent::Established) != phase);
        },
        LinkPhase::Connected => {
            assert(next_phase(phase, LinkEvent::Lost) != phase);
        },
        LinkPhase::Disconnected => {
            assert(next_phase(phase, LinkEvent::BackoffElapsed) != phase);
        },
    }
}

/// Whether no two connected peers share an address.
pub open spec fn distinct_peers(v: FederationView) -> bool {
    forall|i: int, j: int|
        0 <= i < j < v.len() ==> (#[trigger] v[i]).address != (#[trigger] v[j]).address
}

/// Whether the peer at `address` is connected and wants `topic` forwarded.
pub open spec fn peer_wants(v: FederationView, address: Seq<char>, topic: Seq<char>) -> bool {
    exists|i: int|
        0 <= i < v.len() && (#[trigger] v[i]).address == address && v[i].interested.contains(topic)
}

/// Taking peers out keeps the others in their order: every peer that is
/// left was there before, at a place that respects the order.
proof fn filter_keeps_distinct(v: FederationView, test: spec_fn(PeerView) -> bool)
    requires
        distinct_peers(v),
    ensures
        distinct_peers(v.filter(test)),
        forall|k: int|
            0 <= k < v.filter(test).len() ==> v.contains(#[trigger] v.filter(test)[k]) && test(
                v.filter(test)[k],
            ),
        forall|i: int| 0 <= i < v.len() && test(v[i]) ==> v.filter(test).contains(#[trigger] v[i]),
    decreases v.len(),
{
    reveal(Seq::filter);
    if v.len() > 0 {
        let front = v.drop_last();
        let last = v.last();
        let kept = front.filter(test);
        assert(distinct_peers(front)) by {
            assert forall|i: int, j: int| 0 <= i < j < front.len() implies (#[trigger] front[i]).address
                != (#[trigger] front[j]).address by {
                assert(front[i] == v[i] && front[j] == v[j]);
            }
        }
        filter_keeps_distinct(front, test);
        front.lemma_filter_push(last, test);
        assert(front.push(last) == v);
        let out = v.filter(test);
        assert forall|k: int| 0 <= k < out.len() implies v.contains(#[trigger] out[k]) && test(
            out[k],
        ) by {
            if k < kept.len() {
                assert(out[k] == kept[k]);
                assert(front.contains(kept[k]));
                let i = choose|i: int| 0 <= i < front.len() && front[i] == kept[k];
                assert(v[i] == out[k]);
            } else {
                assert(v[v.len() - 1] == out[k]);
            }
        }
        assert forall|i: int| 0 <= i < v.len() && test(v[i]) implies out.contains(
            #[trigger] v[i],
        ) by {
            if i < front.len() {
                assert(front[i] == v[i]);
                assert(kept.contains(front[i]));
                let k = choose|k: int| 0 <= k < kept.len() && kept[k] == front[i];
                assert(out[k] == v[i]);
            } else {
                assert(out[out.len() - 1] == v[i]);
            }
        }
        assert forall|i: int, j: int| 0 <= i < j < out.len() implies (#[trigger] out[i]).address
            != (#[trigger] out[j]).address by {
            if j < kept.len() {
                assert(out[i] == kept[i] && out[j] == kept[j]);
            } else {
                assert(out[i] == kept[i]);
                assert(front.contains(kept[i]));
                let a = choose|a: int| 0 <= a < front.len() && front[a] == kept[i];
                assert(v[a] == out[i] && v[v.len() - 1] == out[j]);
            }
        }
    }
}

/// Peers keep distinct addresses through every change that the broker
/// makes to them, and there are none to begin with.
pub proof fn distinct_peers_are_kept(v: FederationView, address: Seq<char>, topic: Seq<char>)
    requires
        distinct_peers(v),
    ensures
        distinct_peers(Seq::<PeerView>::empty()),
        distinct_peers(without_peer(v, address)),
        distinct_peers(with_peer(v, address)),
        distinct_peers(with_interest(v, address, topic)),
        distinct_peers(without_interest(v, address, topic)),
{
    filter_keeps_distinct(v, not_at(address));
    let rest = without_peer(v, address);
    let back = with_peer(v, address);
    assert forall|i: int, j: int| 0 <= i < j < back.len() implies (#[trigger] back[i]).address != (
    #[trigger] back[j]).address by {
        assert(back[i] == rest[i]);
        if j < rest.len() {
            assert(back[j] == rest[j]);
        } else {
            assert(not_at(address)(rest[i]));
        }
    }
    let more = with_interest(v, address, topic);
    assert forall|i: int, j: int| 0 <= i < j < more.len() implies (#[trigger] more[i]).address != (
    #[trigger] more[j]).address by {
        assert(more[i].address == v[i].address && more[j].address == v[j].address);
    }
    let less = without_interest(v, address, topic);
    assert forall|i: int, j: int| 0 <= i < j < less.len() implies (#[trigger] less[i]).address != (
    #[trigger] less[j]).address by {
        assert(less[i].address == v[i].address && less[j].address == v[j].address);
    }
}

/// Among peers with distinct addresses, the list of those that want a
/// topic names each such peer once and names no other address.
pub proof fn interested_in_lists_each_once(v: FederationView, topic: Seq<char>)
    requires
        distinct_peers(v),
    ensures
        interested_in(v, topic).no_duplicates(),
        forall|a: Seq<char>| #[trigger]
            interested_in(v, topic).contains(a) <==> peer_wants(v, a, topic),
{
    filter_keeps_distinct(v, wants(topic));
    let kept = v.filter(wants(topic));
    let names = interested_in(v, topic);
    assert forall|i: int, j: int| 0 <= i < names.len() && 0 <= j < names.len() && i != j implies names[i]
        != names[j] by {
        if i < j {
            assert(kept[i].address != kept[j].address);
        } else {
            assert(kept[j].address != kept[i].address);
        }
    }
    assert forall|a: Seq<char>| #[trigger] names.contains(a) <==> peer_wants(v, a, topic) by {
        if names.contains(a) {
            let k = choose|k: int| 0 <= k < names.len() && names[k] == a;
            assert(v.contains(kept[k]) && wants(topic)(kept[k]));
            let i = choose|i: int| 0 <= i < v.len() && v[i] == kept[k];
            assert(v[i].address == a && v[i].interested.contains(topic));
        }
        if peer_wants(v, a, topic) {
            let i = choose|i: int|
                0 <= i < v.len() && (#[trigger] v[i]).address == a && v[i].interested.contains(
                    topic,
                );
            assert(wants(topic)(v[i]));
            assert(kept.contains(v[i]));
            let k = choose|k: int| 0 <= k < kept.len() && kept[k] == v[i];
            assert(names[k] == a);
        }
    }
}

} // verus!
