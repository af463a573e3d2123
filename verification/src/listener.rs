use crate::proto::stomp::{Frame, STOMPFrame};
use vstd::prelude::*;

verus! {

/// The socket address of a peer, as plain values: the IP address (an IPv4
/// address in the low 32 bits), the port, whether the address is IPv6, and
/// the IPv6 flow information and scope id (0 for IPv4). Two addresses are the
/// same peer exactly when all these agree.
#[derive(Debug, Clone, Copy, PartialEq, Eq, Structural)]
pub struct PeerAddr {
    pub ip: u128,
    pub port: u16,
    pub is_v6: bool,
    pub flowinfo: u32,
    pub scope_id: u32,
}

/// What a socket reader reports to the registrar.
#[derive(Debug)]
pub enum PeerEvent {
    /// A peer subscribed with `frame`.
    NewPeer { addr: PeerAddr, frame: STOMPFrame },
    /// A peer sent any other `frame`.
    Message { from: PeerAddr, frame: STOMPFrame },
}

/// The event that a frame read from the peer at `addr` makes: a `SUBSCRIBE`
/// announces a new peer, any other frame is a message from it.
pub fn peer_event(addr: PeerAddr, frame: STOMPFrame) -> (e: PeerEvent)
    ensures
        frame.kind == Frame::Subscribe ==> e == (PeerEvent::NewPeer { addr, frame }),
        frame.kind != Frame::Subscribe ==> e == (PeerEvent::Message { from: addr, frame }),
{
    match frame.kind {
        Frame::Subscribe => PeerEvent::NewPeer { addr: addr, frame: frame },
        _ => PeerEvent::Message { from: addr, frame: frame },
    }
}

/// What the registrar does for an event.
#[derive(Debug)]
pub enum RegistrarAction {
    /// Nothing.
    Nothing,
    /// Start a dispatcher that writes to the peer at `addr`.
    StartDispatcher { addr: PeerAddr },
    /// Send `frame` to each of `recipients`.
    Forward { recipients: Vec<PeerAddr>, frame: STOMPFrame },
}

/// The registered peers after an event: a new peer joins them, a message
/// leaves them as they were.
pub open spec fn peers_after(peers: Set<PeerAddr>, event: PeerEvent) -> Set<PeerAddr> {
    match event {
        PeerEvent::NewPeer { addr, .. } => peers.insert(addr),
        PeerEvent::Message { .. } => peers,
    }
}

/// The peers that a message from `from` reaches: every registered peer but
/// the sender.
pub open spec fn recipients_of(peers: Set<PeerAddr>, from: PeerAddr) -> Set<PeerAddr> {
    peers.remove(from)
}

/// What the registrar answers to an event, given the registered peers: a
/// dispatcher for a peer that was not registered yet, nothing for one that
/// was, and each message forwarded, once each, to every other registered peer.
pub open spec fn answers(peers: Set<PeerAddr>, event: PeerEvent, action: RegistrarAction) -> bool {
    match event {
        PeerEvent::NewPeer { addr, .. } => if peers.contains(addr) {
            action is Nothing
        } else {
            action == (RegistrarAction::StartDispatcher { addr })
        },
        PeerEvent::Message { from, frame } => match action {
            RegistrarAction::Forward { recipients, frame: sent } => {
                &&& sent == frame
                &&& recipients@.no_duplicates()
                &&& recipients@.to_set() == recipients_of(peers, from)
            },
            _ => false,
        },
    }
}

/// The peers that the registrar knows, each once.
pub struct PeerRegistry {
    peers: Vec<PeerAddr>,
}

impl View for PeerRegistry {
    type V = Set<PeerAddr>;

    closed spec fn view(&self) -> Set<PeerAddr> {
        self.peers@.to_set()
    }
}

impl PeerRegistry {
    /// Each peer is held once.
    pub closed spec fn wf(&self) -> bool {
        self.peers@.no_duplicates()
    }

    /// A registry without peers.
    pub fn new() -> (r: PeerRegistry)
        ensures
            r.wf(),
            r@ == Set::<PeerAddr>::empty(),
    {
        let r = PeerRegistry { peers: Vec::new() };
        assert(r@ =~= Set::<PeerAddr>::empty());
        r
    }

    /// Whether the peer at `addr` is registered.
    pub fn contains(&self, addr: PeerAddr) -> (r: bool)
        ensures
            r == self@.contains(addr),
    {
        let n = self.peers.len();
        let mut i: usize = 0;
        while i < n
            invariant
                n == self.peers@.len(),
                i <= n,
                forall|j: int| 0 <= j < i ==> self.peers@[j] != addr,
            decreases n - i,
        {
            if self.peers[i] == addr {
                assert(self.peers@.contains(addr));
                return true;
            }
            i = i + 1;
        }
        false
    }

    /// Handles one event: registers a new peer and asks for its dispatcher, or
    /// forwards a message to every other registered peer.
    pub fn handle(&mut self, event: PeerEvent) -> (action: RegistrarAction)
        requires
            old(self).wf(),
        ensures
            final(self).wf(),
            final(self)@ == peers_after(old(self)@, event),
            answers(old(self)@, event, action),
    {
        match event {
            PeerEvent::NewPeer { addr, frame: _ } => {
                if self.contains(addr) {
                    assert(self@.insert(addr) =~= self@);
                    RegistrarAction::Nothing
                } else {
                    let ghost before = self.peers@;
                    self.peers.push(addr);
                    proof {
                        assert forall|a: int, b: int|
                            0 <= a < self.peers@.len() && 0 <= b < self.peers@.len() && a != b implies self.peers@[a]
                            != self.peers@[b] by {
                            if a == before.len() as int {
                                assert(before.contains(self.peers@[b]));
                            } else if b == before.len() as int {
                                assert(before.contains(self.peers@[a]));
                            }
                        }
                        assert forall|x: PeerAddr| self.peers@.contains(x) <==> before.contains(x) || x == addr by {
                            if self.peers@.contains(x) && x != addr {
                                let j = choose|j: int| 0 <= j < self.peers@.len() && self.peers@[j] == x;
                                assert(before[j] == x);
                            }
                            if before.contains(x) {
                                let j = choose|j: int| 0 <= j < before.len() && before[j] == x;
                                assert(self.peers@[j] == x);
                            }
                            if x == addr {
                                assert(self.peers@[before.len() as int] == addr);
                            }
                        }
                        assert(self@ =~= before.to_set().insert(addr));
                    }
                    RegistrarAction::StartDispatcher { addr: addr }
                }
            },
            PeerEvent::Message { from, frame } => {
                let recipients = self.others(from);
                RegistrarAction::Forward { recipients: recipients, frame: frame }
            },
        }
    }

    /// Every registered peer but `from`, each once, in the order in which
    /// they registered.
    fn others(&self, from: PeerAddr) -> (r: Vec<PeerAddr>)
        requires
            self.wf(),
        ensures
            r@.no_duplicates(),
            r@.to_set() == recipients_of(self@, from),
    {
        let n = self.peers.len();
        let mut r: Vec<PeerAddr> = Vec::new();
        let mut i: usize = 0;
        while i < n
            invariant
                n == self.peers@.len(),
                i <= n,
                self.wf(),
                r@.no_duplicates(),
                forall|x: PeerAddr|
                    r@.contains(x) <==> (x != from && exists|j: int| 0 <= j < i && self.peers@[j] == x),
            decreases n - i,
        {
            let p = self.peers[i];
            if p != from {
                let ghost before = r@;
                assert(forall|x: PeerAddr|
                    before.contains(x) <==> (x != from && exists|j: int| 0 <= j < i && self.peers@[j] == x));
                proof {
                    if before.contains(p) {
                        let j = choose|j: int| 0 <= j < i && self.peers@[j] == p;
                        assert(self.peers@[j] == self.peers@[i as int]);
                    }
                }
                r.push(p);
                proof {
                    assert forall|a: int, b: int|
                        0 <= a < r@.len() && 0 <= b < r@.len() && a != b implies r@[a] != r@[b] by {
                        if a == before.len() as int {
                            assert(before.contains(r@[b]));
                        } else if b == before.len() as int {
                            assert(before.contains(r@[a]));
                        }
                    }
                    assert forall|x: PeerAddr|
                        r@.contains(x) <==> (x != from && exists|j: int| 0 <= j < i + 1 && self.peers@[j] == x) by {
                        if r@.contains(x) {
                            if x == p {
                                assert(self.peers@[i as int] == x);
                            } else {
                                let k = choose|k: int| 0 <= k < r@.len() && r@[k] == x;
                                assert(k < before.len());
                                assert(before[k] == x);
                                assert(before.contains(x));
                                let j = choose|j: int| 0 <= j < i && self.peers@[j] == x;
                                assert(0 <= j < i + 1 && self.peers@[j] == x);
                            }
                        }
                        if x != from && (exists|j: int| 0 <= j < i + 1 && self.peers@[j] == x) {
                            let j = choose|j: int| 0 <= j < i + 1 && self.peers@[j] == x;
                            if j < i {
                                assert(self.peers@[j] == x);
                                assert(before.contains(x));
                                let k = choose|k: int| 0 <= k < before.len() && before[k] == x;
                                assert(r@[k] == x);
                            } else {
                                assert(r@[before.len() as int] == x);
                            }
                        }
                    }
                }
            } else {
                proof {
                    assert forall|x: PeerAddr|
                        r@.contains(x) <==> (x != from && exists|j: int| 0 <= j < i + 1 && self.peers@[j] == x) by {
                        if x != from && (exists|j: int| 0 <= j < i + 1 && self.peers@[j] == x) {
                            let j = choose|j: int| 0 <= j < i + 1 && self.peers@[j] == x;
                            assert(j < i);
                        }
                    }
                }
            }
            i = i + 1;
        }
        proof {
            assert forall|x: PeerAddr| r@.to_set().contains(x) <==> recipients_of(self@, from).contains(x) by {
                if self.peers@.contains(x) {
                    let j = choose|j: int| 0 <= j < self.peers@.len() && self.peers@[j] == x;
                }
            }
            assert(r@.to_set() =~= recipients_of(self@, from));
        }
        r
    }
}

/// A peer that subscribes again is not registered twice: the second
/// subscription leaves the registered peers as the first left them and is
/// answered with nothing.
pub proof fn lemma_join_idempotent(
    peers: Set<PeerAddr>,
    addr: PeerAddr,
    first: STOMPFrame,
    again: STOMPFrame,
)
    ensures
        peers_after(
            peers_after(peers, PeerEvent::NewPeer { addr, frame: first }),
            PeerEvent::NewPeer { addr, frame: again },
        ) == peers_after(peers, PeerEvent::NewPeer { addr, frame: first }),
        answers(
            peers_after(peers, PeerEvent::NewPeer { addr, frame: first }),
            PeerEvent::NewPeer { addr, frame: again },
            RegistrarAction::Nothing,
        ),
{
    assert(peers.insert(addr).insert(addr) =~= peers.insert(addr));
}

/// Once a peer has subscribed, every message from another peer reaches it.
pub proof fn lemma_joined_peer_receives(
    peers: Set<PeerAddr>,
    addr: PeerAddr,
    frame: STOMPFrame,
    from: PeerAddr,
)
    requires
        addr != from,
    ensures
        recipients_of(peers_after(peers, PeerEvent::NewPeer { addr, frame }), from).contains(addr),
{
}

/// A message never goes back to its sender.
pub proof fn lemma_sender_excluded(peers: Set<PeerAddr>, from: PeerAddr)
    ensures
        !recipients_of(peers, from).contains(from),
{
}

/// No event unregisters a peer.
pub proof fn lemma_peers_only_grow(peers: Set<PeerAddr>, event: PeerEvent)
    ensures
        peers.subset_of(peers_after(peers, event)),
{
}

/// Whether an event is the subscription of the peer at `addr`.
pub open spec fn is_join_of(event: PeerEvent, addr: PeerAddr) -> bool {
    event matches PeerEvent::NewPeer { addr: a, .. } && a == addr
}

/// Whether the registrar starts a dispatcher for an event: exactly for the
/// subscription of a peer not registered yet.
pub open spec fn starts_dispatcher(peers: Set<PeerAddr>, event: PeerEvent) -> bool {
    match event {
        PeerEvent::NewPeer { addr, .. } => !peers.contains(addr),
        PeerEvent::Message { .. } => false,
    }
}

/// The registered peers after a run of events, one after another.
pub open spec fn peers_after_all(peers: Set<PeerAddr>, events: Seq<PeerEvent>) -> Set<PeerAddr>
    decreases events.len(),
{
    if events.len() == 0 {
        peers
    } else {
        peers_after(peers_after_all(peers, events.drop_last()), events.last())
    }
}

/// The number of dispatchers that a run of events starts.
pub open spec fn dispatchers_started(peers: Set<PeerAddr>, events: Seq<PeerEvent>) -> nat
    decreases events.len(),
{
    if events.len() == 0 {
        0
    } else {
        dispatchers_started(peers, events.drop_last()) + if starts_dispatcher(
            peers_after_all(peers, events.drop_last()),
            events.last(),
        ) {
            1nat
        } else {
            0nat
        }
    }
}

/// The addresses of the peers that subscribe in a run of events.
pub open spec fn joined(events: Seq<PeerEvent>) -> Set<PeerAddr> {
    Set::new(|a: PeerAddr| exists|i: int| 0 <= i < events.len() && #[trigger] is_join_of(events[i], a))
}

/// An answer starts a dispatcher exactly when `starts_dispatcher` says so.
pub proof fn lemma_answer_starts_dispatcher(
    peers: Set<PeerAddr>,
    event: PeerEvent,
    action: RegistrarAction,
)
    requires
        answers(peers, event, action),
    ensures
        action is StartDispatcher <==> starts_dispatcher(peers, event),
{
}

/// After any run of events, the registered peers are those registered before
/// together with every peer that subscribed in the run; with finitely many
/// registered before, one dispatcher has been started for each peer added.
pub proof fn lemma_peers_after_run(peers: Set<PeerAddr>, events: Seq<PeerEvent>)
    ensures
        peers_after_all(peers, events) == peers.union(joined(events)),
        joined(events).finite(),
        peers.finite() ==> peers_after_all(peers, events).len() == peers.len() + dispatchers_started(
            peers,
            events,
        ),
    decreases events.len(),
{
    if events.len() == 0 {
        assert(joined(events) =~= Set::<PeerAddr>::empty());
        assert(peers.union(joined(events)) =~= peers);
    } else {
        let d = events.drop_last();
        let e = events.last();
        lemma_peers_after_run(peers, d);
        let before = peers_after_all(peers, d);
        match e {
            PeerEvent::NewPeer { addr, .. } => {
                assert forall|a: PeerAddr| #[trigger] joined(events).contains(a) <==> joined(d).contains(a)
                    || a == addr by {
                    if joined(events).contains(a) {
                        let i = choose|i: int| 0 <= i < events.len() && #[trigger] is_join_of(events[i], a);
                        if i < d.len() {
                            assert(is_join_of(d[i], a));
                        }
                    }
                    if joined(d).contains(a) {
                        let i = choose|i: int| 0 <= i < d.len() && #[trigger] is_join_of(d[i], a);
                        assert(is_join_of(events[i], a));
                    }
                    if a == addr {
                        assert(is_join_of(events[events.len() - 1], a));
                    }
                }
                assert(joined(events) =~= joined(d).insert(addr));
                assert(before.insert(addr) =~= peers.union(joined(events)));
            },
            PeerEvent::Message { .. } => {
                assert forall|a: PeerAddr| #[trigger] joined(events).contains(a) <==> joined(d).contains(a) by {
                    if joined(events).contains(a) {
                        let i = choose|i: int| 0 <= i < events.len() && #[trigger] is_join_of(events[i], a);
                        if i < d.len() {
                            assert(is_join_of(d[i], a));
                        }
                    }
                    if joined(d).contains(a) {
                        let i = choose|i: int| 0 <= i < d.len() && #[trigger] is_join_of(d[i], a);
                        assert(is_join_of(events[i], a));
                    }
                }
                assert(joined(events) =~= joined(d));
            },
        }
    }
}

/// Starting from no peers, the registered peers after a run of events are
/// exactly the peers that subscribed in it, and one dispatcher has been started
/// for each of them.
pub proof fn lemma_registered_are_joined(events: Seq<PeerEvent>)
    ensures
        peers_after_all(Set::<PeerAddr>::empty(), events) == joined(events),
        dispatchers_started(Set::<PeerAddr>::empty(), events) == joined(events).len(),
{
    lemma_peers_after_run(Set::<PeerAddr>::empty(), events);
    assert(Set::<PeerAddr>::empty().union(joined(events)) =~= joined(events));
}

/// Registered peers stay registered: the peers after the first `i` events
/// of a run are among those after any longer prefix of it.
pub proof fn lemma_registered_stay(peers: Set<PeerAddr>, events: Seq<PeerEvent>, i: int, j: int)
    requires
        0 <= i <= j <= events.len(),
    ensures
        peers_after_all(peers, events.take(i)).subset_of(peers_after_all(peers, events.take(j))),
{
    lemma_peers_after_run(peers, events.take(i));
    lemma_peers_after_run(peers, events.take(j));
    assert forall|a: PeerAddr| #[trigger] joined(events.take(i)).contains(a) implies joined(events.take(j)).contains(a) by {
        let k = choose|k: int| 0 <= k < events.take(i).len() && #[trigger] is_join_of(events.take(i)[k], a);
        assert(is_join_of(events.take(j)[k], a));
    }
}

/// Once a peer is registered, every later message of the run from another
/// peer is forwarded to it: two such messages, taken in the order in which
/// they come, both reach it, the earlier answered first.
pub proof fn lemma_registered_peer_gets_later_messages(
    peers: Set<PeerAddr>,
    events: Seq<PeerEvent>,
    k: PeerAddr,
    i: int,
    j: int,
)
    requires
        0 <= i <= j < events.len(),
        peers_after_all(peers, events.take(i)).contains(k),
        events[j] matches PeerEvent::Message { from, .. } && from != k,
    ensures
        events[j] matches PeerEvent::Message { from, .. } && recipients_of(
            peers_after_all(peers, events.take(j)),
            from,
        ).contains(k),
{
    lemma_registered_stay(peers, events, i, j);
}

/// The dispatcher started for a subscription is that of the subscribing peer:
/// when its address is not registered yet, the only answer is a dispatcher
/// for that very address.
pub proof fn lemma_new_peer_gets_own_dispatcher(
    peers: Set<PeerAddr>,
    addr: PeerAddr,
    frame: STOMPFrame,
    action: RegistrarAction,
)
    requires
        !peers.contains(addr),
        answers(peers, PeerEvent::NewPeer { addr, frame }, action),
    ensures
        action == (RegistrarAction::StartDispatcher { addr }),
{
}

/// A message is forwarded unchanged: the frame handed to the recipients is
/// the frame received, the same command and the same header list.
pub proof fn lemma_message_forwarded_unchanged(
    peers: Set<PeerAddr>,
    from: PeerAddr,
    frame: STOMPFrame,
    action: RegistrarAction,
)
    requires
        answers(peers, PeerEvent::Message { from, frame }, action),
    ensures
        action matches RegistrarAction::Forward { frame: sent, .. } && sent.kind == frame.kind
            && sent.headers@ == frame.headers@,
{
}

} // verus!
