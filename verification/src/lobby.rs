use vstd::prelude::*;

verus! {

/// `s` with every occurrence of `id` taken out, the others in their order.
pub open spec fn without(s: Seq<u64>, id: u64) -> Seq<u64>
    decreases s.len(),
{
    if s.len() == 0 {
        Seq::empty()
    } else {
        let rest = without(s.drop_last(), id);
        if s.last() == id {
            rest
        } else {
            rest.push(s.last())
        }
    }
}

/// What a lobby is: the id that the next client will get, the connected
/// clients in the order in which they connected, and the client that
/// steers the carrier.
pub struct LobbyView {
    pub next_id: u64,
    pub clients: Seq<u64>,
    pub active: u64,
}

impl LobbyView {
    /// No client is listed twice, clients are listed in the order they joined
    /// (which is the order of their ids), every listed id was handed out
    /// already, and while anyone is connected the active player is one of them.
    pub open spec fn wf(self) -> bool {
        &&& self.clients.no_duplicates()
        &&& increasing(self.clients)
        &&& forall|i: int| 0 <= i < self.clients.len() ==> #[trigger] self.clients[i] < self.next_id
        &&& self.clients.len() > 0 ==> self.clients.contains(self.active)
    }

    /// The lobby after a new client connects: it gets the next id, joins the
    /// end of the list, and becomes the active player if it is alone.
    pub open spec fn after_connect(self) -> LobbyView {
        LobbyView {
            next_id: (self.next_id + 1) as u64,
            clients: self.clients.push(self.next_id),
            active: if self.clients.len() == 0 {
                self.next_id
            } else {
                self.active
            },
        }
    }

    /// The lobby after client `id` leaves: it is taken off the list and, if it
    /// was the active player, the longest-connected remaining client takes
    /// over. With nobody left the old id stays recorded.
    pub open spec fn after_disconnect(self, id: u64) -> LobbyView {
        let rest = without(self.clients, id);
        LobbyView {
            next_id: self.next_id,
            clients: rest,
            active: if self.active == id && rest.len() > 0 {
                rest[0]
            } else {
                self.active
            },
        }
    }

    /// Whether input arriving on the connection of client `sender` steers the
    /// carrier: only the active player's does; spectators have a read-only view.
    pub open spec fn accepts_input(self, sender: u64) -> bool {
        self.clients.contains(sender) && sender == self.active
    }
}

/// Every element is smaller than every later one.
pub open spec fn increasing(s: Seq<u64>) -> bool {
    forall|i: int, j: int| 0 <= i < j < s.len() ==> #[trigger] s[i] < #[trigger] s[j]
}

/// Taking an id out of an increasing list leaves an increasing list.
pub proof fn lemma_without_increasing(s: Seq<u64>, id: u64)
    requires
        increasing(s),
    ensures
        increasing(without(s, id)),
    decreases s.len(),
{
    if s.len() > 0 {
        let d = s.drop_last();
        assert(increasing(d)) by {
            assert forall|i: int, j: int| 0 <= i < j < d.len() implies #[trigger] d[i] < #[trigger] d[j] by {
                assert(d[i] == s[i] && d[j] == s[j]);
            }
        }
        lemma_without_increasing(d, id);
        let r = without(d, id);
        if s.last() != id {
            assert forall|i: int, j: int| 0 <= i < j < r.push(s.last()).len() implies #[trigger] r.push(
                s.last(),
            )[i] < #[trigger] r.push(s.last())[j] by {
                if j == r.len() {
                    let x = r[i];
                    assert(r.contains(x));
                    lemma_without_contains(d, id, x);
                    let k = choose|k: int| 0 <= k < d.len() && d[k] == x;
                    assert(s[k] == x);
                } else {
                    assert(r.push(s.last())[i] == r[i] && r.push(s.last())[j] == r[j]);
                }
            }
        }
    }
}

/// Taking an id out keeps exactly the other elements.
pub proof fn lemma_without_contains(s: Seq<u64>, id: u64, x: u64)
    ensures
        without(s, id).contains(x) <==> (s.contains(x) && x != id),
    decreases s.len(),
{
    if s.len() > 0 {
        lemma_without_contains(s.drop_last(), id, x);
        let rest = without(s.drop_last(), id);
        if s.contains(x) && x != id && !s.drop_last().contains(x) {
            let k = choose|k: int| 0 <= k < s.len() && s[k] == x;
            if k < s.len() - 1 {
                assert(s.drop_last()[k] == x);
            }
            assert(s.last() == x);
            assert(rest.push(x)[rest.len() as int] == x);
        }
        if rest.contains(x) {
            let k = choose|k: int| 0 <= k < rest.len() && rest[k] == x;
            assert(rest.push(s.last())[k] == x);
        }
        if without(s, id).contains(x) && !rest.contains(x) {
            let k = choose|k: int| 0 <= k < without(s, id).len() && without(s, id)[k] == x;
            assert(s[s.len() - 1] == x);
        }
        if s.drop_last().contains(x) {
            let k = choose|k: int| 0 <= k < s.drop_last().len() && s.drop_last()[k] == x;
            assert(s[k] == x);
        }
    }
}

/// Taking an id out of a list without repetitions leaves one without repetitions.
pub proof fn lemma_without_no_duplicates(s: Seq<u64>, id: u64)
    requires
        s.no_duplicates(),
    ensures
        without(s, id).no_duplicates(),
    decreases s.len(),
{
    if s.len() > 0 {
        let d = s.drop_last();
        assert(d.no_duplicates()) by {
            assert forall|i: int, j: int| 0 <= i < d.len() && 0 <= j < d.len() && i != j implies d[i]
                != d[j] by {
                assert(d[i] == s[i] && d[j] == s[j]);
            }
        }
        lemma_without_no_duplicates(d, id);
        lemma_without_contains(d, id, s.last());
        if d.contains(s.last()) {
            let k = choose|k: int| 0 <= k < d.len() && d[k] == s.last();
            assert(s[k] == s[s.len() - 1]);
        }
    }
}

/// Taking out an id that is not there changes nothing.
pub proof fn lemma_without_absent(s: Seq<u64>, id: u64)
    requires
        !s.contains(id),
    ensures
        without(s, id) == s,
    decreases s.len(),
{
    if s.len() > 0 {
        let d = s.drop_last();
        if d.contains(id) {
            let k = choose|k: int| 0 <= k < d.len() && d[k] == id;
            assert(s[k] == id);
        }
        lemma_without_absent(d, id);
        assert(s.last() != id);
        assert(d.push(s.last()) =~= s);
    }
}

/// A bound on every id carries over to the list with an id taken out.
proof fn lemma_without_bounded(s: Seq<u64>, id: u64, bound: u64)
    requires
        forall|i: int| 0 <= i < s.len() ==> #[trigger] s[i] < bound,
    ensures
        forall|i: int| 0 <= i < without(s, id).len() ==> #[trigger] without(s, id)[i] < bound,
{
    assert forall|i: int| 0 <= i < without(s, id).len() implies #[trigger] without(s, id)[i] < bound by {
        let x = without(s, id)[i];
        assert(without(s, id).contains(x));
        lemma_without_contains(s, id, x);
        let k = choose|k: int| 0 <= k < s.len() && s[k] == x;
    }
}

/// Connecting a client keeps the lobby well formed.
pub proof fn lemma_connect_keeps_wf(v: LobbyView)
    requires
        v.wf(),
        v.next_id < u64::MAX,
    ensures
        v.after_connect().wf(),
{
    let w = v.after_connect();
    assert forall|i: int, j: int|
        0 <= i < w.clients.len() && 0 <= j < w.clients.len() && i != j implies w.clients[i]
        != w.clients[j] by {
        if i < v.clients.len() && j < v.clients.len() {
            assert(w.clients[i] == v.clients[i] && w.clients[j] == v.clients[j]);
        } else if i < v.clients.len() {
            assert(v.clients[i] < v.next_id);
        } else {
            assert(v.clients[j] < v.next_id);
        }
    }
    assert(w.clients[v.clients.len() as int] == v.next_id);
    assert forall|i: int, j: int| 0 <= i < j < w.clients.len() implies #[trigger] w.clients[i]
        < #[trigger] w.clients[j] by {
        assert(w.clients[i] == v.clients[i]);
        if j < v.clients.len() {
            assert(w.clients[j] == v.clients[j]);
        }
    }
    if v.clients.len() > 0 {
        let k = choose|k: int| 0 <= k < v.clients.len() && v.clients[k] == v.active;
        assert(w.clients[k] == v.active);
    }
}

/// A client leaving keeps the lobby well formed.
pub proof fn lemma_disconnect_keeps_wf(v: LobbyView, id: u64)
    requires
        v.wf(),
    ensures
        v.after_disconnect(id).wf(),
{
    let w = v.after_disconnect(id);
    lemma_without_no_duplicates(v.clients, id);
    lemma_without_increasing(v.clients, id);
    lemma_without_bounded(v.clients, id, v.next_id);
    if w.clients.len() > 0 {
        if v.active == id {
            assert(w.clients.contains(w.clients[0]));
        } else {
            lemma_without_contains(v.clients, id, v.active);
        }
    }
}

/// A client that connects and leaves again, before anyone else comes or
/// goes, leaves the list of clients as it was; if someone else was connected,
/// the active player is unchanged too.
pub proof fn lemma_connect_then_disconnect(v: LobbyView)
    requires
        v.wf(),
        v.next_id < u64::MAX,
    ensures
        v.after_connect().after_disconnect(v.next_id).clients == v.clients,
        v.clients.len() > 0 ==> v.after_connect().after_disconnect(v.next_id).active == v.active,
        v.after_connect().after_disconnect(v.next_id).next_id == v.next_id + 1,
{
    if v.clients.contains(v.next_id) {
        let k = choose|k: int| 0 <= k < v.clients.len() && v.clients[k] == v.next_id;
        assert(v.clients[k] < v.next_id);
    }
    lemma_without_absent(v.clients, v.next_id);
    let c = v.clients.push(v.next_id);
    assert(c.drop_last() =~= v.clients);
    if v.clients.len() > 0 {
        if v.active == v.next_id {
            let k = choose|k: int| 0 <= k < v.clients.len() && v.clients[k] == v.active;
            assert(v.clients[k] < v.next_id);
        }
    }
}

/// A client connecting to a lobby where someone is already connected never
/// takes over: the active player stays who it was. A client connecting to an
/// empty lobby steers.
pub proof fn lemma_connect_keeps_active_when_occupied(v: LobbyView)
    ensures
        v.clients.len() > 0 ==> v.after_connect().active == v.active,
        v.clients.len() == 0 ==> v.after_connect().active == v.next_id,
        v.after_connect().clients.len() == v.clients.len() + 1,
        v.after_connect().clients.last() == v.next_id,
        forall|i: int| 0 <= i < v.clients.len() ==> #[trigger] v.after_connect().clients[i] == v.clients[i],
{
}

/// When a client leaves, exactly it is taken off the list. When the active
/// player leaves and someone remains, the new active player is a remaining
/// client that joined before every other remaining client: the one with the
/// smallest id.
pub proof fn lemma_disconnect_hands_over_to_longest_connected(v: LobbyView, id: u64)
    requires
        v.wf(),
    ensures
        forall|x: u64| #[trigger] v.after_disconnect(id).clients.contains(x) <==> (v.clients.contains(x)
            && x != id),
        v.active != id ==> v.after_disconnect(id).active == v.active,
        v.active == id && (exists|i: int| 0 <= i < v.clients.len() && #[trigger] v.clients[i] != id) ==> {
            let a = v.after_disconnect(id).active;
            &&& v.clients.contains(a)
            &&& a != id
            &&& forall|i: int| 0 <= i < v.clients.len() && #[trigger] v.clients[i] != id ==> a <= v.clients[i]
        },
{
    let rest = without(v.clients, id);
    assert forall|x: u64| #[trigger] v.after_disconnect(id).clients.contains(x) <==> (v.clients.contains(x)
        && x != id) by {
        lemma_without_contains(v.clients, id, x);
    }
    lemma_without_increasing(v.clients, id);
    if v.active == id && (exists|i: int| 0 <= i < v.clients.len() && #[trigger] v.clients[i] != id) {
        let i0 = choose|i: int| 0 <= i < v.clients.len() && #[trigger] v.clients[i] != id;
        lemma_without_contains(v.clients, id, v.clients[i0]);
        assert(rest.len() > 0);
        let a = rest[0];
        assert(rest.contains(a));
        lemma_without_contains(v.clients, id, a);
        assert forall|i: int| 0 <= i < v.clients.len() && #[trigger] v.clients[i] != id implies a
            <= v.clients[i] by {
            let x = v.clients[i];
            lemma_without_contains(v.clients, id, x);
            let k = choose|k: int| 0 <= k < rest.len() && rest[k] == x;
            if k > 0 {
                assert(rest[0] < rest[k]);
            }
        }
    }
}

/// While anyone is connected exactly one client steers: the active player's
/// input is accepted, and no other client's is.
pub proof fn lemma_one_player_steers(v: LobbyView, a: u64, b: u64)
    requires
        v.wf(),
        v.clients.len() > 0,
    ensures
        v.accepts_input(v.active),
        v.accepts_input(a) && v.accepts_input(b) ==> a == b,
{
}

/// Something that happens to a lobby: a client connects, or client `id` leaves.
pub enum LobbyEvent {
    Connect,
    Disconnect(u64),
}

/// How many clients connect during `events`.
pub open spec fn connects(events: Seq<LobbyEvent>) -> nat
    decreases events.len(),
{
    if events.len() == 0 {
        0
    } else {
        connects(events.drop_last()) + if events.last() is Connect {
            1nat
        } else {
            0nat
        }
    }
}

/// The lobby after `events`, one after the other, starting from `v`.
pub open spec fn run(v: LobbyView, events: Seq<LobbyEvent>) -> LobbyView
    decreases events.len(),
{
    if events.len() == 0 {
        v
    } else {
        let w = run(v, events.drop_last());
        match events.last() {
            LobbyEvent::Connect => w.after_connect(),
            LobbyEvent::Disconnect(id) => w.after_disconnect(id),
        }
    }
}

/// The id that the client connecting at step `k` of `events` gets.
pub open spec fn id_issued_at(v: LobbyView, events: Seq<LobbyEvent>, k: int) -> int {
    v.next_id + connects(events.take(k))
}

/// A client connecting at step `k` of `events` gets id `x`.
pub open spec fn joins(v: LobbyView, events: Seq<LobbyEvent>, k: int, x: u64) -> bool {
    &&& 0 <= k < events.len()
    &&& events[k] is Connect
    &&& id_issued_at(v, events, k) == x
}

/// Client `x` leaves at step `k` of `events` or later.
pub open spec fn removed_from(events: Seq<LobbyEvent>, k: int, x: u64) -> bool {
    exists|j: int| k <= j < events.len() && #[trigger] events[j] == LobbyEvent::Disconnect(x)
}

/// Client `x` is registered and not removed after `events`: it was listed
/// before and never left, or it connected during `events` and has not left
/// since.
pub open spec fn registered(v: LobbyView, events: Seq<LobbyEvent>, x: u64) -> bool {
    ||| v.clients.contains(x) && !removed_from(events, 0, x)
    ||| exists|k: int| #[trigger] joins(v, events, k, x) && !removed_from(events, k + 1, x)
}

/// Connections counted over a prefix never exceed those over a longer prefix.
pub proof fn lemma_connects_prefix(events: Seq<LobbyEvent>, a: int, b: int)
    requires
        0 <= a <= b <= events.len(),
    ensures
        connects(events.take(a)) <= connects(events.take(b)),
        a < b && events[a] is Connect ==> connects(events.take(a)) < connects(events.take(b)),
        connects(events.take(b)) <= connects(events),
    decreases b - a,
{
    lemma_connects_take(events, b);
    if a < b {
        lemma_connects_prefix(events, a, b - 1);
        assert(events.take(b).drop_last() =~= events.take(b - 1));
        assert(events.take(b).last() == events[b - 1]);
    }
}

proof fn lemma_connects_take(events: Seq<LobbyEvent>, b: int)
    requires
        0 <= b <= events.len(),
    ensures
        connects(events.take(b)) <= connects(events),
    decreases events.len() - b,
{
    if b < events.len() {
        lemma_connects_take(events, b + 1);
        assert(events.take(b + 1).drop_last() =~= events.take(b));
    } else {
        assert(events.take(b) =~= events);
    }
}

/// The id counter after `events` has grown by exactly the number of clients
/// that connected; it never wraps below the limit.
pub proof fn lemma_run_next_id(v: LobbyView, events: Seq<LobbyEvent>)
    requires
        v.next_id + connects(events) <= u64::MAX,
    ensures
        run(v, events).next_id == v.next_id + connects(events),
    decreases events.len(),
{
    if events.len() > 0 {
        lemma_run_next_id(v, events.drop_last());
    }
}

/// Over any run of connections and disconnections, each connecting client
/// gets the counter's value at that moment; these ids strictly increase in
/// the order the clients connect, so no two clients ever share an id; and the
/// counter never goes down.
pub proof fn lemma_run_issues_increasing_ids(v: LobbyView, events: Seq<LobbyEvent>, i: int, j: int)
    requires
        v.next_id + connects(events) <= u64::MAX,
        0 <= i < j < events.len(),
    ensures
        events[i] is Connect ==> run(v, events.take(i)).next_id == id_issued_at(v, events, i),
        events[i] is Connect && events[j] is Connect ==> id_issued_at(v, events, i) < id_issued_at(
            v,
            events,
            j,
        ),
        run(v, events.take(i)).next_id <= run(v, events.take(j)).next_id,
        run(v, events.take(j)).next_id <= run(v, events).next_id,
{
    lemma_connects_prefix(events, i, j);
    lemma_connects_prefix(events, j, events.len() as int);
    lemma_run_next_id(v, events.take(i));
    lemma_run_next_id(v, events.take(j));
    lemma_run_next_id(v, events);
}

/// Every event keeps the lobby well formed: clients listed once each, in
/// the order they joined, and, while anyone is connected, the active player
/// among them.
pub proof fn lemma_run_keeps_wf(v: LobbyView, events: Seq<LobbyEvent>)
    requires
        v.wf(),
        v.next_id + connects(events) <= u64::MAX,
    ensures
        run(v, events).wf(),
    decreases events.len(),
{
    if events.len() > 0 {
        let p = events.drop_last();
        lemma_run_keeps_wf(v, p);
        lemma_run_next_id(v, p);
        match events.last() {
            LobbyEvent::Connect => lemma_connect_keeps_wf(run(v, p)),
            LobbyEvent::Disconnect(id) => lemma_disconnect_keeps_wf(run(v, p), id),
        }
    }
}

/// After any run of connections and disconnections, the lobby lists exactly
/// the clients that are registered and not removed.
pub proof fn lemma_run_lists_registered(v: LobbyView, events: Seq<LobbyEvent>, x: u64)
    requires
        v.next_id + connects(events) <= u64::MAX,
    ensures
        run(v, events).clients.contains(x) <==> registered(v, events, x),
    decreases events.len(),
{
    if events.len() > 0 {
        let p = events.drop_last();
        let n = p.len() as int;
        lemma_run_lists_registered(v, p, x);
        lemma_run_next_id(v, p);
        let w = run(v, p);
        assert(events.take(n) =~= p);
        // Steps before the last one look the same in `p` and in `events`.
        assert forall|k: int| 0 <= k < n implies #[trigger] joins(v, events, k, x) == joins(
            v,
            p,
            k,
            x,
        ) by {
            assert(events.take(k) =~= p.take(k));
        }
        match events.last() {
            LobbyEvent::Connect => {
                assert forall|k: int| 0 <= k <= n implies #[trigger] removed_from(events, k, x)
                    == removed_from(p, k, x) by {
                    if removed_from(events, k, x) {
                        let j = choose|j: int| k <= j < events.len() && #[trigger] events[j]
                            == LobbyEvent::Disconnect(x);
                        assert(p[j] == events[j]);
                    }
                    if removed_from(p, k, x) {
                        let j = choose|j: int| k <= j < p.len() && #[trigger] p[j]
                            == LobbyEvent::Disconnect(x);
                        assert(events[j] == p[j]);
                    }
                }
                assert(!removed_from(events, n + 1, x));
                lemma_without_contains(w.clients, x, x);
                if w.clients.push(w.next_id).contains(x) {
                    if x == w.next_id {
                        assert(joins(v, events, n, x));
                    } else {
                        let i = choose|i: int| 0 <= i < w.clients.len() + 1 && w.clients.push(w.next_id)[i] == x;
                        assert(w.clients[i] == x);
                        if !(v.clients.contains(x) && !removed_from(p, 0, x)) {
                            let k = choose|k: int| #[trigger] joins(v, p, k, x) && !removed_from(p, k + 1, x);
                            assert(joins(v, events, k, x));
                        }
                    }
                }
                if registered(v, events, x) {
                    if !(v.clients.contains(x) && !removed_from(events, 0, x)) {
                        let k = choose|k: int| #[trigger] joins(v, events, k, x) && !removed_from(events, k + 1, x);
                        if k == n {
                            assert(w.clients.push(w.next_id)[w.clients.len() as int] == x);
                        } else {
                            assert(joins(v, p, k, x));
                            assert(w.clients.contains(x));
                            let i = choose|i: int| 0 <= i < w.clients.len() && w.clients[i] == x;
                            assert(w.clients.push(w.next_id)[i] == x);
                        }
                    } else {
                        let i = choose|i: int| 0 <= i < w.clients.len() && w.clients[i] == x;
                        assert(w.clients.push(w.next_id)[i] == x);
                    }
                }
            },
            LobbyEvent::Disconnect(y) => {
                assert forall|k: int| 0 <= k <= n implies #[trigger] removed_from(events, k, x)
                    == (removed_from(p, k, x) || x == y) by {
                    if removed_from(events, k, x) {
                        let j = choose|j: int| k <= j < events.len() && #[trigger] events[j]
                            == LobbyEvent::Disconnect(x);
                        if j < n {
                            assert(p[j] == events[j]);
                        }
                    }
                    if removed_from(p, k, x) {
                        let j = choose|j: int| k <= j < p.len() && #[trigger] p[j]
                            == LobbyEvent::Disconnect(x);
                        assert(events[j] == p[j]);
                    }
                    if x == y {
                        assert(events[n] == LobbyEvent::Disconnect(x));
                    }
                }
                lemma_without_contains(w.clients, y, x);
                if registered(v, events, x) {
                    if !(v.clients.contains(x) && !removed_from(events, 0, x)) {
                        let k = choose|k: int| #[trigger] joins(v, events, k, x) && !removed_from(events, k + 1, x);
                        assert(k < n);
                        assert(joins(v, p, k, x));
                    }
                }
                if registered(v, p, x) && x != y {
                    if !(v.clients.contains(x) && !removed_from(p, 0, x)) {
                        let k = choose|k: int| #[trigger] joins(v, p, k, x) && !removed_from(p, k + 1, x);
                        assert(joins(v, events, k, x));
                    }
                }
            },
        }
    }
}

/// The connected clients of the game server and which of them steers the
/// carrier; the others spectate.
pub struct Lobby {
    next_id: u64,
    clients: Vec<u64>,
    active: u64,
}

impl View for Lobby {
    type V = LobbyView;

    closed spec fn view(&self) -> LobbyView {
        LobbyView { next_id: self.next_id, clients: self.clients@, active: self.active }
    }
}

impl Lobby {
    #[verifier::type_invariant]
    spec fn inv(self) -> bool {
        self@.wf()
    }

    /// An empty lobby; the first client to connect gets id 0.
    pub fn new() -> (lobby: Lobby)
        ensures
            lobby@.next_id == 0,
            lobby@.clients == Seq::<u64>::empty(),
            lobby@.active == 0,
            lobby@.wf(),
    {
        Lobby { next_id: 0, clients: Vec::new(), active: 0 }
    }

    /// Registers a new client and returns its id: the next unused one. The
    /// client becomes the active player if nobody else is connected.
    pub fn connect(&mut self) -> (id: u64)
        requires
            old(self)@.next_id < u64::MAX,
        ensures
            final(self)@ == old(self)@.after_connect(),
            id == old(self)@.next_id,
            !old(self)@.clients.contains(id),
            old(self)@.clients.len() == 0 ==> final(self)@.active == id,
            old(self)@.clients.len() > 0 ==> final(self)@.active == old(self)@.active,
            final(self)@.clients == old(self)@.clients.push(id),
            final(self)@.next_id == id + 1,
            final(self)@.wf(),
    {
        proof {
            use_type_invariant(&*self);
            lemma_connect_keeps_wf(self@);
            if self@.clients.contains(self.next_id) {
                let k = choose|k: int| 0 <= k < self@.clients.len() && self@.clients[k] == self.next_id;
                assert(self@.clients[k] < self.next_id);
            }
        }
        let id = self.next_id;
        let first = self.clients.len() == 0;
        let mut clients = self.clients.clone();
        clients.push(id);
        let active = if first { id } else { self.active };
        *self = Lobby { next_id: id + 1, clients, active };
        id
    }

    /// Removes client `id`; if it was the active player, the client that has
    /// been connected longest takes over.
    pub fn disconnect(&mut self, id: u64)
        ensures
            final(self)@ == old(self)@.after_disconnect(id),
            !final(self)@.clients.contains(id),
            old(self)@.active != id ==> final(self)@.active == old(self)@.active,
            forall|x: u64| #[trigger] final(self)@.clients.contains(x) <==> (old(self)@.clients.contains(x)
                && x != id),
            old(self)@.active == id && final(self)@.clients.len() > 0 ==> {
                &&& final(self)@.clients.contains(final(self)@.active)
                &&& forall|i: int| 0 <= i < final(self)@.clients.len() ==> final(self)@.active
                    <= #[trigger] final(self)@.clients[i]
            },
            final(self)@.next_id == old(self)@.next_id,
            final(self)@.wf(),
    {
        proof {
            use_type_invariant(&*self);
            lemma_disconnect_keeps_wf(self@, id);
            lemma_disconnect_hands_over_to_longest_connected(self@, id);
            lemma_without_contains(self@.clients, id, id);
        }
        let mut rest: Vec<u64> = Vec::new();
        let n = self.clients.len();
        let mut i: usize = 0;
        while i < n
            invariant
                n == self.clients@.len(),
                i <= n,
                rest@ == without(self.clients@.take(i as int), id),
            decreases n - i,
        {
            assert(self.clients@.take(i as int + 1).drop_last() =~= self.clients@.take(i as int));
            let c = self.clients[i];
            if c != id {
                rest.push(c);
            }
            i = i + 1;
        }
        assert(self.clients@.take(n as int) =~= self.clients@);
        let active = if self.active == id && rest.len() > 0 {
            rest[0]
        } else {
            self.active
        };
        *self = Lobby { next_id: self.next_id, clients: rest, active };
    }

    /// Whether input arriving on the connection of client `sender` may steer
    /// the carrier: the active player's may; a spectator's, or input from a
    /// client no longer connected, may not.
    pub fn accepts_input(&self, sender: u64) -> (ok: bool)
        ensures
            ok == self@.accepts_input(sender),
            ok <==> (self@.clients.contains(sender) && sender == self@.active),
            self@.clients.contains(sender) && sender != self@.active ==> !ok,
    {
        proof {
            use_type_invariant(self);
        }
        self.clients.len() > 0 && sender == self.active
    }

    /// The id of the client that steers the carrier.
    pub fn active_player_id(&self) -> (id: u64)
        ensures
            id == self@.active,
    {
        self.active
    }

    /// The ids of the connected clients, longest connected first.
    pub fn client_ids(&self) -> (ids: Vec<u64>)
        ensures
            ids@ == self@.clients,
    {
        self.clients.clone()
    }

    /// The id that the next client to connect will get.
    pub fn next_player_id(&self) -> (id: u64)
        ensures
            id == self@.next_id,
    {
        self.next_id
    }
}

} // verus!
