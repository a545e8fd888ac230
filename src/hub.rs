//! The lobby: players waiting for a match and the members of live sessions.
//!
//! A player is held at most once: either as a waiting entry (matched, but not
//! yet connected) or as a member of one live session. A session is live while
//! it has at least one member; it has no record of its own, so an empty live
//! session cannot exist.
use vstd::prelude::*;

verus! {

/// The view of a waiting entry: player, session, expiry instant.
pub type WaitingView = (Seq<char>, u128, u64);

/// The view of a member: player, session.
pub type MemberView = (Seq<char>, u128);

#[derive(Debug, Clone, Copy, PartialEq, Eq, Structural)]
pub enum MatchError {
    DuplicatePlayer,
    SessionNotFound,
    SessionFull,
    /// The freshly minted session identifier is already in use.
    SessionIdTaken,
}

#[derive(Debug, Clone, Copy, PartialEq, Eq, Structural)]
pub enum AttachError {
    SessionNotFound,
    AlreadyAttached,
}

/// The outbound channel of one connected player.
#[verifier::external_type_specification]
#[verifier::external_body]
#[verifier::reject_recursive_types(T)]
pub struct ExUnboundedSender<T>(tokio::sync::mpsc::UnboundedSender<T>);

pub struct WaitingEntry {
    pub player_id: String,
    pub session_id: u128,
    pub expires_at: u64,
}

pub struct Member {
    pub player_id: String,
    pub session_id: u128,
    /// The asset (monster) the player brings into the match.
    pub asset_id: String,
    pub outbound: tokio::sync::mpsc::UnboundedSender<String>,
}

/// An outbound channel that a broadcast goes to, with the player it
/// belongs to.
pub struct Delivery {
    pub player_id: String,
    pub outbound: tokio::sync::mpsc::UnboundedSender<String>,
}

pub struct Hub {
    waiting: Vec<WaitingEntry>,
    members: Vec<Member>,
    capacity: usize,
    timeout: u64,
}

pub open spec fn players_of_waiting(w: Seq<WaitingView>) -> Seq<Seq<char>> {
    w.map_values(|e: WaitingView| e.0)
}

pub open spec fn players_of_members(m: Seq<MemberView>) -> Seq<Seq<char>> {
    m.map_values(|e: MemberView| e.0)
}

/// The waiting entries bound to session `s`, in order.
pub open spec fn waiting_for(w: Seq<WaitingView>, s: u128) -> Seq<WaitingView> {
    w.filter(waits_for(s))
}

pub open spec fn waits_for(s: u128) -> spec_fn(WaitingView) -> bool {
    |e: WaitingView| e.1 == s
}

pub open spec fn belongs_to(s: u128) -> spec_fn(MemberView) -> bool {
    |e: MemberView| e.1 == s
}

/// The members of session `s`, in order of attachment.
pub open spec fn members_of(m: Seq<MemberView>, s: u128) -> Seq<MemberView> {
    m.filter(belongs_to(s))
}

/// The expiry instant of an entry created at `now`.
pub open spec fn expiry(now: u64, timeout: u64) -> u64 {
    if now as int + timeout as int > u64::MAX as int {
        u64::MAX
    } else {
        (now + timeout) as u64
    }
}

/// No player is held twice: not twice waiting, not twice a member, and never
/// both waiting and a member.
pub open spec fn players_distinct(w: Seq<WaitingView>, m: Seq<MemberView>) -> bool {
    &&& players_of_waiting(w).no_duplicates()
    &&& players_of_members(m).no_duplicates()
    &&& forall|p: Seq<char>|
        !(#[trigger] players_of_waiting(w).contains(p) && players_of_members(m).contains(p))
}


/// The players of the members of session `s`, in order of attachment.
pub open spec fn peers_of(m: Seq<MemberView>, s: u128) -> Seq<Seq<char>> {
    players_of_members(members_of(m, s))
}

/// Removing one element keeps a sequence free of duplicates and adds nothing.
proof fn lemma_remove_distinct(q: Seq<Seq<char>>, i: int)
    requires
        q.no_duplicates(),
        0 <= i < q.len(),
    ensures
        q.remove(i).no_duplicates(),
        forall|x: Seq<char>| #[trigger] q.remove(i).contains(x) ==> q.contains(x) && x != q[i],
{
    let r = q.remove(i);
    assert forall|x: Seq<char>| #[trigger] r.contains(x) implies q.contains(x) && x != q[i] by {
        let k = choose|k: int| 0 <= k < r.len() && r[k] == x;
        if k < i {
            assert(q[k] == x);
        } else {
            assert(q[k + 1] == x);
        }
    }
}


/// The members of session `s` other than `sender`.
pub open spec fn receives(s: u128, sender: Seq<char>, echo: bool) -> spec_fn(MemberView) -> bool {
    |e: MemberView| e.1 == s && (echo || e.0 != sender)
}

/// The players that a broadcast of `sender` in session `s` reaches, in order.
pub open spec fn recipients(m: Seq<MemberView>, s: u128, sender: Seq<char>, echo: bool) -> Seq<
    Seq<char>,
> {
    players_of_members(m.filter(receives(s, sender, echo)))
}

/// Entries still waiting at instant `now`.
pub open spec fn alive_at(now: u64) -> spec_fn(WaitingView) -> bool {
    |e: WaitingView| e.2 > now
}

/// Entries whose time is up at instant `now`.
pub open spec fn expired_at(now: u64) -> spec_fn(WaitingView) -> bool {
    |e: WaitingView| e.2 <= now
}

proof fn lemma_prefix_distinct(q: Seq<Seq<char>>)
    requires
        q.no_duplicates(),
        q.len() > 0,
    ensures
        q.drop_last().no_duplicates(),
        !q.drop_last().contains(q.last()),
{
    if q.drop_last().contains(q.last()) {
        let k = choose|k: int| 0 <= k < q.drop_last().len() && q.drop_last()[k] == q.last();
        assert(q[k] == q[q.len() - 1]);
    }
}

/// Filtering waiting entries keeps their players distinct and adds none.
proof fn lemma_filter_waiting_distinct(w: Seq<WaitingView>, f: spec_fn(WaitingView) -> bool)
    requires
        players_of_waiting(w).no_duplicates(),
    ensures
        players_of_waiting(w.filter(f)).no_duplicates(),
        forall|p: Seq<char>| #[trigger]
            players_of_waiting(w.filter(f)).contains(p) ==> players_of_waiting(w).contains(p),
    decreases w.len(),
{
    if w.len() > 0 {
        let q = w.drop_last();
        let x = w.last();
        assert(w =~= q.push(x));
        assert(players_of_waiting(w) =~= players_of_waiting(q).push(x.0));
        assert(players_of_waiting(q) =~= players_of_waiting(w).drop_last());
        lemma_prefix_distinct(players_of_waiting(w));
        lemma_filter_waiting_distinct(q, f);
        q.lemma_filter_push(x, f);
        assert forall|p: Seq<char>| #[trigger]
            players_of_waiting(q.filter(f)).contains(p) implies players_of_waiting(w).contains(p) by {
            let k = choose|k: int| 0 <= k < players_of_waiting(q).len() && players_of_waiting(q)[k] == p;
            assert(players_of_waiting(w)[k] == p);
        }
        if f(x) {
            assert(players_of_waiting(w.filter(f)) =~= players_of_waiting(q.filter(f)).push(x.0));
            assert forall|p: Seq<char>| #[trigger]
                players_of_waiting(w.filter(f)).contains(p) implies players_of_waiting(w).contains(p) by {
                let k = choose|k: int|
                    0 <= k < players_of_waiting(w.filter(f)).len() && players_of_waiting(w.filter(f))[k] == p;
                if k < players_of_waiting(q.filter(f)).len() {
                    assert(players_of_waiting(q.filter(f)).contains(p));
                } else {
                    assert(players_of_waiting(w)[w.len() - 1] == p);
                }
            }
            assert(!players_of_waiting(q.filter(f)).contains(x.0));
        } else {
            assert(w.filter(f) =~= q.filter(f));
        }
    } else {
        assert(w.filter(f) =~= Seq::<WaitingView>::empty());
        assert(players_of_waiting(w.filter(f)) =~= Seq::<Seq<char>>::empty());
    }
}

/// With distinct players, a broadcast that does not echo reaches every member of the session but
/// the sender.
proof fn lemma_recipients_count(m: Seq<MemberView>, s: u128, sender: Seq<char>)
    requires
        players_of_members(m).no_duplicates(),
    ensures
        m.filter(receives(s, sender, false)).len() + (if m.contains((sender, s)) {
            1int
        } else {
            0int
        }) == m.filter(belongs_to(s)).len(),
    decreases m.len(),
{
    if m.len() > 0 {
        let q = m.drop_last();
        let x = m.last();
        assert(m =~= q.push(x));
        assert(players_of_members(q) =~= players_of_members(m).drop_last());
        assert(players_of_members(m).last() == x.0);
        lemma_prefix_distinct(players_of_members(m));
        lemma_recipients_count(q, s, sender);
        q.lemma_filter_push(x, receives(s, sender, false));
        q.lemma_filter_push(x, belongs_to(s));
        if x == (sender, s) {
            if q.contains((sender, s)) {
                let k = choose|k: int| 0 <= k < q.len() && q[k] == (sender, s);
                assert(players_of_members(q)[k] == sender);
            }
        }
        assert(m.contains((sender, s)) == (q.contains((sender, s)) || x == (sender, s))) by {
            if m.contains((sender, s)) && x != (sender, s) {
                let k = choose|k: int| 0 <= k < m.len() && m[k] == (sender, s);
                assert(q[k] == (sender, s));
            }
            if q.contains((sender, s)) {
                let k = choose|k: int| 0 <= k < q.len() && q[k] == (sender, s);
                assert(m[k] == (sender, s));
            }
        }
    } else {
        assert(m.filter(receives(s, sender, false)) =~= Seq::<MemberView>::empty());
        assert(m.filter(belongs_to(s)) =~= Seq::<MemberView>::empty());
    }
}

/// Relies on uuid's `Uuid::new_v4`: a random identifier, of which nothing is
/// promised.
#[verifier::external_body]
fn mint_session_id() -> (r: u128) {
    uuid::Uuid::new_v4().as_u128()
}

/// Relies on tokio's `Clone` for `UnboundedSender`: another handle to the same
/// channel.
pub assume_specification<T>[ <tokio::sync::mpsc::UnboundedSender<T> as Clone>::clone ](
    s: &tokio::sync::mpsc::UnboundedSender<T>,
) -> tokio::sync::mpsc::UnboundedSender<T>;

/// Hands a copy of `message` to each of `targets`, in order; says for each
/// whether its channel was still open. Needs no lock on the lobby.
pub fn deliver(targets: &Vec<Delivery>, message: &String) -> (r: Vec<bool>)
    ensures
        r@.len() == targets@.len(),
{
    let mut out: Vec<bool> = Vec::new();
    let mut i: usize = 0;
    while i < targets.len()
        invariant
            i <= targets@.len(),
            out@.len() == i,
        decreases targets@.len() - i,
    {
        out.push(send_envelope(&targets[i].outbound, message.clone()));
        i = i + 1;
    }
    out
}

/// Relies on tokio's `UnboundedSender::send`: it hands `message` to the
/// channel's receiver, or drops it when the receiver has gone away.
#[verifier::external_body]
fn send_envelope(outbound: &tokio::sync::mpsc::UnboundedSender<String>, message: String) -> (r: bool) {
    outbound.send(message).is_ok()
}


/// A live session never has an empty membership, and a session whose last
/// member detached is no longer live.
pub proof fn lemma_no_empty_session(h: &Hub, s: u128)
    ensures
        h.is_live(s) <==> members_of(h.members_view(), s).len() > 0,
{
    let m = h.members_view();
    if h.is_live(s) {
        let i = choose|i: int| 0 <= i < m.len() && #[trigger] m[i].1 == s;
        m.lemma_filter_contains(belongs_to(s), i);
    }
    if members_of(m, s).len() > 0 {
        let x = members_of(m, s)[0];
        assert(members_of(m, s).contains(x));
        m.lemma_filter_contains_rev(belongs_to(s), x);
        let i = choose|i: int| 0 <= i < m.len() && m[i] == x;
        assert(m[i].1 == s);
    }
}

/// A player is held at most once: by one waiting entry, or by one membership
/// in one session, never both.
pub proof fn lemma_player_held_once(h: &Hub, p: Seq<char>)
    requires
        h.wf(),
    ensures
        !(h.is_waiting(p) && h.is_member(p)),
        forall|i: int, j: int|
            0 <= i < h.waiting_view().len() && 0 <= j < h.waiting_view().len()
                && #[trigger] h.waiting_view()[i].0 == p && #[trigger] h.waiting_view()[j].0 == p
                ==> i == j,
        forall|i: int, j: int|
            0 <= i < h.members_view().len() && 0 <= j < h.members_view().len()
                && #[trigger] h.members_view()[i].0 == p && #[trigger] h.members_view()[j].0 == p
                ==> i == j,
{
    let pw = players_of_waiting(h.waiting_view());
    let pm = players_of_members(h.members_view());
    assert forall|i: int, j: int|
        0 <= i < h.waiting_view().len() && 0 <= j < h.waiting_view().len()
            && #[trigger] h.waiting_view()[i].0 == p && #[trigger] h.waiting_view()[j].0 == p
            implies i == j by {
        assert(pw[i] == pw[j]);
    }
    assert forall|i: int, j: int|
        0 <= i < h.members_view().len() && 0 <= j < h.members_view().len()
            && #[trigger] h.members_view()[i].0 == p && #[trigger] h.members_view()[j].0 == p
            implies i == j by {
        assert(pm[i] == pm[j]);
    }
}

/// No session ever holds more players, waiting or attached, than a session
/// holds: a joiner beyond that is refused, whatever the order of arrival.
pub proof fn lemma_session_within_capacity(h: &Hub, s: u128)
    requires
        h.wf(),
    ensures
        h.occupancy(s) <= h.capacity(),
        members_of(h.members_view(), s).len() <= h.capacity(),
        waiting_for(h.waiting_view(), s).len() <= h.capacity(),
{
    assert(h.occupancy(s) <= h.capacity());
}

/// A broadcast by a member of a session with `n` members, without echo,
/// reaches exactly the `n - 1` others, never the sender.
pub proof fn lemma_broadcast_skips_only_sender(h: &Hub, s: u128, sender: Seq<char>)
    requires
        h.wf(),
        h.members_view().contains((sender, s)),
    ensures
        recipients(h.members_view(), s, sender, false).len() == peers_of(h.members_view(), s).len() - 1,
        !recipients(h.members_view(), s, sender, false).contains(sender),
{
    let m = h.members_view();
    lemma_recipients_count(m, s, sender);
    let f = receives(s, sender, false);
    if recipients(m, s, sender, false).contains(sender) {
        let k = choose|k: int|
            0 <= k < recipients(m, s, sender, false).len() && recipients(m, s, sender, false)[k] == sender;
        m.lemma_filter_pred(f, k);
    }
}

/// A waiting entry made at `created` that nobody claims is gone once the
/// entries are evicted at any instant `timeout` or more later.
pub proof fn lemma_abandoned_entry_evicted(
    w: Seq<WaitingView>,
    p: Seq<char>,
    s: u128,
    created: u64,
    timeout: u64,
    later: u64,
)
    requires
        players_of_waiting(w).no_duplicates(),
        w.contains((p, s, expiry(created, timeout))),
        later as int >= created as int + timeout as int,
    ensures
        !players_of_waiting(w.filter(alive_at(later))).contains(p),
{
    let f = alive_at(later);
    let i = choose|i: int| 0 <= i < w.len() && w[i] == (p, s, expiry(created, timeout));
    if players_of_waiting(w.filter(f)).contains(p) {
        let k = choose|k: int|
            0 <= k < players_of_waiting(w.filter(f)).len() && players_of_waiting(w.filter(f))[k] == p;
        let e = w.filter(f)[k];
        assert(w.filter(f).contains(e));
        w.lemma_filter_contains_rev(f, e);
        w.lemma_filter_pred(f, k);
        let j = choose|j: int| 0 <= j < w.len() && w[j] == e;
        assert(players_of_waiting(w)[j] == players_of_waiting(w)[i]);
        assert(f(e));
    }
}


proof fn lemma_filter_remove_len<A>(q: Seq<A>, i: int, f: spec_fn(A) -> bool)
    requires
        0 <= i < q.len(),
    ensures
        q.remove(i).filter(f).len() + (if f(q[i]) {
            1int
        } else {
            0int
        }) == q.filter(f).len(),
{
    let a = q.take(i);
    let b = q.skip(i + 1);
    assert(q.remove(i) =~= a + b);
    assert(q =~= a.push(q[i]) + b);
    Seq::filter_distributes_over_add(a, b, f);
    Seq::filter_distributes_over_add(a.push(q[i]), b, f);
    a.lemma_filter_push(q[i], f);
}

proof fn lemma_filter_filter_len<A>(q: Seq<A>, f: spec_fn(A) -> bool, g: spec_fn(A) -> bool)
    ensures
        q.filter(f).filter(g).len() <= q.filter(g).len(),
    decreases q.len(),
{
    if q.len() > 0 {
        let p = q.drop_last();
        let x = q.last();
        assert(q =~= p.push(x));
        lemma_filter_filter_len(p, f, g);
        p.lemma_filter_push(x, f);
        p.lemma_filter_push(x, g);
        p.filter(f).lemma_filter_push(x, g);
    } else {
        q.lemma_filter_len(f);
        q.filter(f).lemma_filter_len(g);
    }
}

impl Hub {
    pub closed spec fn waiting_view(&self) -> Seq<WaitingView> {
        self.waiting@.map_values(|e: WaitingEntry| (e.player_id@, e.session_id, e.expires_at))
    }

    pub closed spec fn members_view(&self) -> Seq<MemberView> {
        self.members@.map_values(|e: Member| (e.player_id@, e.session_id))
    }

    /// The asset each member brought, with the member's session, in the
    /// order of `members_view`.
    pub closed spec fn assets_view(&self) -> Seq<(Seq<char>, u128)> {
        self.members@.map_values(|e: Member| (e.asset_id@, e.session_id))
    }

    pub closed spec fn capacity(&self) -> nat {
        self.capacity as nat
    }

    pub closed spec fn timeout(&self) -> u64 {
        self.timeout
    }

    pub open spec fn wf(&self) -> bool {
        &&& self.capacity() > 0
        &&& players_distinct(self.waiting_view(), self.members_view())
        &&& forall|s: u128| #[trigger] self.occupancy(s) <= self.capacity()
    }

    pub open spec fn is_waiting(&self, p: Seq<char>) -> bool {
        players_of_waiting(self.waiting_view()).contains(p)
    }

    /// The expiry instant of the waiting entry of `p`.
    pub open spec fn expires_of(&self, p: Seq<char>) -> u64 {
        self.waiting_view()[players_of_waiting(self.waiting_view()).index_of(p)].2
    }

    /// A session is live while it has a member.
    pub open spec fn is_live(&self, s: u128) -> bool {
        exists|i: int| 0 <= i < self.members_view().len() && #[trigger] self.members_view()[i].1 == s
    }

    pub open spec fn is_member(&self, p: Seq<char>) -> bool {
        players_of_members(self.members_view()).contains(p)
    }

    /// How many players a session holds: those waiting for it and its members.
    pub open spec fn occupancy(&self, s: u128) -> nat {
        waiting_for(self.waiting_view(), s).len() + members_of(self.members_view(), s).len()
    }

    /// A session is known while some player waits for it or is its member.
    pub open spec fn is_known(&self, s: u128) -> bool {
        self.occupancy(s) > 0
    }

    /// An empty lobby whose sessions hold `capacity` players and whose waiting
    /// entries expire `timeout` time units after they are made.
    pub fn new(capacity: usize, timeout: u64) -> (r: Hub)
        requires
            capacity > 0,
        ensures
            r.wf(),
            r.waiting_view() == Seq::<WaitingView>::empty(),
            r.members_view() == Seq::<MemberView>::empty(),
            r.capacity() == capacity,
            r.timeout() == timeout,
    {
        let r = Hub { waiting: Vec::new(), members: Vec::new(), capacity, timeout };
        assert(players_of_waiting(r.waiting_view()) =~= Seq::empty());
        assert(players_of_members(r.members_view()) =~= Seq::empty());
        assert forall|s: u128| #[trigger] r.occupancy(s) <= r.capacity() by {
            r.waiting_view().lemma_filter_len(waits_for(s));
            r.members_view().lemma_filter_len(belongs_to(s));
        }
        r
    }

    pub fn capacity_value(&self) -> (r: usize)
        ensures
            r == self.capacity(),
    {
        self.capacity
    }

    pub fn timeout_value(&self) -> (r: u64)
        ensures
            r == self.timeout(),
    {
        self.timeout
    }

    /// The occupancy of session `s`.
    pub fn occupancy_of(&self, s: u128) -> (r: u128)
        ensures
            r == self.occupancy(s),
    {
        let ghost w = self.waiting_view();
        let ghost m = self.members_view();
        let mut n: u128 = 0;
        let mut i: usize = 0;
        while i < self.waiting.len()
            invariant
                i <= self.waiting@.len(),
                w == self.waiting_view(),
                n == waiting_for(w.take(i as int), s).len(),
                n <= i,
            decreases self.waiting@.len() - i,
        {
            proof {
                assert(w.take(i + 1) =~= w.take(i as int).push(w[i as int]));
                w.take(i as int).lemma_filter_push(w[i as int], waits_for(s));
            }
            if self.waiting[i].session_id == s {
                n = n + 1;
            }
            i = i + 1;
        }
        assert(w.take(i as int) =~= w);
        let ghost nw = n;
        let mut j: usize = 0;
        while j < self.members.len()
            invariant
                j <= self.members@.len(),
                m == self.members_view(),
                nw == waiting_for(w, s).len(),
                nw <= usize::MAX,
                n == nw + members_of(m.take(j as int), s).len(),
                n <= nw + j,
            decreases self.members@.len() - j,
        {
            proof {
                assert(m.take(j + 1) =~= m.take(j as int).push(m[j as int]));
                m.take(j as int).lemma_filter_push(m[j as int], belongs_to(s));
            }
            if self.members[j].session_id == s {
                n = n + 1;
            }
            j = j + 1;
        }
        assert(m.take(j as int) =~= m);
        n
    }

    /// Opens a session under a freshly minted identifier, with `player_id` as
    /// its first waiting player; returns the identifier.
    pub fn create_matching(&mut self, player_id: String, now: u64) -> (r: Result<u128, MatchError>)
        requires
            old(self).wf(),
        ensures
            final(self).wf(),
            final(self).capacity() == old(self).capacity(),
            final(self).timeout() == old(self).timeout(),
            final(self).members_view() == old(self).members_view(),
            final(self).assets_view() == old(self).assets_view(),
            old(self).is_waiting(player_id@) || old(self).is_member(player_id@) ==> r == Err::<
                u128,
                MatchError,
            >(MatchError::DuplicatePlayer),
            r.is_err() ==> final(self).waiting_view() == old(self).waiting_view(),
            r matches Ok(s) ==> !old(self).is_known(s) && final(self).waiting_view() == old(
                self,
            ).waiting_view().push((player_id@, s, expiry(now, old(self).timeout()))),
            r matches Err(e) ==> e == MatchError::DuplicatePlayer || e == MatchError::SessionIdTaken,
            r == Err::<u128, MatchError>(MatchError::DuplicatePlayer) ==> old(self).is_waiting(
                player_id@,
            ) || old(self).is_member(player_id@),
            !(old(self).is_waiting(player_id@) || old(self).is_member(player_id@)) && (forall|t: u128|
                !#[trigger] old(self).is_known(t)) ==> r is Ok,
    {
        let session_id = mint_session_id();
        self.create_matching_with_id(player_id, session_id, now)
    }

    /// Opens a new session `session_id` with `player_id` as its first waiting
    /// player, whose entry expires `timeout` after `now`.
    pub fn create_matching_with_id(&mut self, player_id: String, session_id: u128, now: u64) -> (r: Result<
        u128,
        MatchError,
    >)
        requires
            old(self).wf(),
        ensures
            final(self).wf(),
            final(self).capacity() == old(self).capacity(),
            final(self).timeout() == old(self).timeout(),
            final(self).members_view() == old(self).members_view(),
            final(self).assets_view() == old(self).assets_view(),
            old(self).is_waiting(player_id@) || old(self).is_member(player_id@) ==> r == Err::<
                u128,
                MatchError,
            >(MatchError::DuplicatePlayer),
            !(old(self).is_waiting(player_id@) || old(self).is_member(player_id@)) && old(
                self,
            ).is_known(session_id) ==> r == Err::<u128, MatchError>(MatchError::SessionIdTaken),
            r.is_err() ==> final(self).waiting_view() == old(self).waiting_view(),
            !(old(self).is_waiting(player_id@) || old(self).is_member(player_id@)) && !old(
                self,
            ).is_known(session_id) ==> r == Ok::<u128, MatchError>(session_id)
                && final(self).waiting_view() == old(self).waiting_view().push(
                (player_id@, session_id, expiry(now, old(self).timeout())),
            ),
    {
        if self.waiting_index(&player_id).is_some() || self.member_index(&player_id).is_some() {
            return Err(MatchError::DuplicatePlayer);
        }
        if self.occupancy_of(session_id) > 0 {
            return Err(MatchError::SessionIdTaken);
        }
        let expires_at = now.saturating_add(self.timeout);
        self.push_waiting(WaitingEntry { player_id, session_id, expires_at });
        Ok(session_id)
    }

    fn push_waiting(&mut self, e: WaitingEntry)
        requires
            old(self).wf(),
            !old(self).is_waiting(e.player_id@),
            !old(self).is_member(e.player_id@),
            old(self).occupancy(e.session_id) < old(self).capacity(),
        ensures
            final(self).wf(),
            final(self).capacity() == old(self).capacity(),
            final(self).timeout() == old(self).timeout(),
            final(self).members_view() == old(self).members_view(),
            final(self).assets_view() == old(self).assets_view(),
            final(self).waiting_view() == old(self).waiting_view().push(
                (e.player_id@, e.session_id, e.expires_at),
            ),
    {
        let ghost v = (e.player_id@, e.session_id, e.expires_at);
        let ghost pw = players_of_waiting(self.waiting_view());
        self.waiting.push(e);
        assert(self.waiting_view() =~= old(self).waiting_view().push(v));
        assert(players_of_waiting(self.waiting_view()) =~= pw.push(v.0));
        assert(self.members_view() =~= old(self).members_view());
        assert forall|p: Seq<char>|
            !(#[trigger] players_of_waiting(self.waiting_view()).contains(p)
                && players_of_members(self.members_view()).contains(p)) by {
            if players_of_waiting(self.waiting_view()).contains(p) && p != v.0 {
                let k = choose|k: int| 0 <= k < pw.push(v.0).len() && pw.push(v.0)[k] == p;
                assert(pw[k] == p);
                assert(pw.contains(p));
            }
        }
        assert forall|t: u128| #[trigger] self.occupancy(t) <= self.capacity() by {
            old(self).waiting_view().lemma_filter_push(v, waits_for(t));
            assert(old(self).occupancy(t) <= old(self).capacity());
        }
    }

    /// The position of `p` among the waiting entries, if it waits.
    fn waiting_index(&self, p: &String) -> (r: Option<usize>)
        ensures
            r.is_none() == !self.is_waiting(p@),
            r matches Some(i) ==> i < self.waiting@.len() && self.waiting_view()[i as int].0 == p@,
    {
        let mut i: usize = 0;
        while i < self.waiting.len()
            invariant
                i <= self.waiting@.len(),
                forall|j: int| 0 <= j < i ==> self.waiting_view()[j].0 != p@,
            decreases self.waiting@.len() - i,
        {
            if self.waiting[i].player_id == *p {
                assert(players_of_waiting(self.waiting_view())[i as int] == p@);
                return Some(i);
            }
            i = i + 1;
        }
        proof {
            if players_of_waiting(self.waiting_view()).contains(p@) {
                let k = choose|k: int|
                    0 <= k < players_of_waiting(self.waiting_view()).len()
                        && players_of_waiting(self.waiting_view())[k] == p@;
                assert(self.waiting_view()[k].0 == p@);
            }
        }
        None
    }

    /// Admits `player_id` as a further waiting player of session `session_id`.
    pub fn join_matching(&mut self, player_id: String, session_id: u128, now: u64) -> (r: Result<
        (),
        MatchError,
    >)
        requires
            old(self).wf(),
        ensures
            final(self).wf(),
            final(self).capacity() == old(self).capacity(),
            final(self).timeout() == old(self).timeout(),
            final(self).members_view() == old(self).members_view(),
            final(self).assets_view() == old(self).assets_view(),
            !old(self).is_known(session_id) ==> r == Err::<(), MatchError>(
                MatchError::SessionNotFound,
            ),
            old(self).is_known(session_id) && old(self).occupancy(session_id) >= old(self).capacity()
                ==> r == Err::<(), MatchError>(MatchError::SessionFull),
            old(self).is_known(session_id) && old(self).occupancy(session_id) < old(self).capacity()
                && (old(self).is_waiting(player_id@) || old(self).is_member(player_id@)) ==> r
                == Err::<(), MatchError>(MatchError::DuplicatePlayer),
            r.is_err() ==> final(self).waiting_view() == old(self).waiting_view(),
            old(self).is_known(session_id) && old(self).occupancy(session_id) < old(self).capacity()
                && !(old(self).is_waiting(player_id@) || old(self).is_member(player_id@)) ==> r
                == Ok::<(), MatchError>(()) && final(self).waiting_view() == old(
                self,
            ).waiting_view().push((player_id@, session_id, expiry(now, old(self).timeout()))),
            r is Ok ==> final(self).occupancy(session_id) == old(self).occupancy(session_id) + 1,
    {
        let occupied = self.occupancy_of(session_id);
        if occupied == 0 {
            return Err(MatchError::SessionNotFound);
        }
        if occupied >= self.capacity as u128 {
            return Err(MatchError::SessionFull);
        }
        if self.waiting_index(&player_id).is_some() || self.member_index(&player_id).is_some() {
            return Err(MatchError::DuplicatePlayer);
        }
        let expires_at = now.saturating_add(self.timeout);
        let ghost e = (player_id@, session_id, expires_at);
        self.push_waiting(WaitingEntry { player_id, session_id, expires_at });
        proof {
            old(self).waiting_view().lemma_filter_push(e, waits_for(session_id));
        }
        Ok(())
    }

    /// The players of the members of session `s`.
    pub fn peers(&self, s: u128) -> (r: Vec<String>)
        ensures
            r@.map_values(|x: String| x@) == peers_of(self.members_view(), s),
    {
        let ghost m = self.members_view();
        let mut out: Vec<String> = Vec::new();
        let mut i: usize = 0;
        while i < self.members.len()
            invariant
                i <= self.members@.len(),
                m == self.members_view(),
                out@.map_values(|x: String| x@) == peers_of(m.take(i as int), s),
            decreases self.members@.len() - i,
        {
            proof {
                assert(m.take(i + 1) =~= m.take(i as int).push(m[i as int]));
                m.take(i as int).lemma_filter_push(m[i as int], belongs_to(s));
            }
            if self.members[i].session_id == s {
                let ghost before = out@;
                out.push(self.members[i].player_id.clone());
                proof {
                    assert(out@.map_values(|x: String| x@) =~= before.map_values(|x: String| x@).push(
                        m[i as int].0,
                    ));
                    assert(peers_of(m.take(i + 1), s) =~= peers_of(m.take(i as int), s).push(
                        m[i as int].0,
                    ));
                }
            } else {
                assert(peers_of(m.take(i + 1), s) =~= peers_of(m.take(i as int), s));
            }
            i = i + 1;
        }
        assert(m.take(i as int) =~= m);
        out
    }

    /// Turns the waiting entry of `player_id` for `session_id` into a
    /// membership with outbound channel `outbound`, bringing the asset
    /// `asset_id`; returns the players who were members of the session before.
    pub fn attach(
        &mut self,
        session_id: u128,
        player_id: String,
        asset_id: String,
        outbound: tokio::sync::mpsc::UnboundedSender<String>,
    ) -> (r: Result<Vec<String>, AttachError>)
        requires
            old(self).wf(),
        ensures
            final(self).wf(),
            final(self).capacity() == old(self).capacity(),
            final(self).timeout() == old(self).timeout(),
            old(self).is_member(player_id@) ==> r == Err::<Vec<String>, AttachError>(
                AttachError::AlreadyAttached,
            ),
            !old(self).is_member(player_id@) && !old(self).waiting_view().contains(
                (player_id@, session_id, old(self).expires_of(player_id@)),
            ) ==> r == Err::<Vec<String>, AttachError>(AttachError::SessionNotFound),
            r.is_err() ==> final(self).waiting_view() == old(self).waiting_view()
                && final(self).members_view() == old(self).members_view()
                && final(self).assets_view() == old(self).assets_view(),
            r is Ok <== !old(self).is_member(player_id@) && old(self).waiting_view().contains(
                (player_id@, session_id, old(self).expires_of(player_id@)),
            ),
            r is Ok ==> !old(self).is_member(player_id@) && old(self).waiting_view().contains(
                (player_id@, session_id, old(self).expires_of(player_id@)),
            ),
            r matches Ok(v) ==> v@.map_values(|x: String| x@) == peers_of(
                old(self).members_view(),
                session_id,
            ) && final(self).waiting_view() == old(self).waiting_view().remove(
                players_of_waiting(old(self).waiting_view()).index_of(player_id@),
            ) && final(self).members_view() == old(self).members_view().push(
                (player_id@, session_id),
            ) && final(self).assets_view() == old(self).assets_view().push((asset_id@, session_id)),
    {
        if self.member_index(&player_id).is_some() {
            return Err(AttachError::AlreadyAttached);
        }
        let found = self.waiting_index(&player_id);
        let i = match found {
            Some(i) => i,
            None => {
                proof {
                    if self.waiting_view().contains(
                        (player_id@, session_id, self.expires_of(player_id@)),
                    ) {
                        let k = choose|k: int|
                            0 <= k < self.waiting_view().len() && self.waiting_view()[k] == (
                                player_id@,
                                session_id,
                                self.expires_of(player_id@),
                            );
                        assert(players_of_waiting(self.waiting_view())[k] == player_id@);
                    }
                }
                return Err(AttachError::SessionNotFound);
            },
        };
        let ghost w = self.waiting_view();
        let ghost pw = players_of_waiting(w);
        proof {
            let j = pw.index_of(player_id@);
            assert(pw[i as int] == player_id@);
            assert(j == i);
        }
        if self.waiting[i].session_id != session_id {
            proof {
                if w.contains((player_id@, session_id, self.expires_of(player_id@))) {
                    let k = choose|k: int|
                        0 <= k < w.len() && w[k] == (
                            player_id@,
                            session_id,
                            self.expires_of(player_id@),
                        );
                    assert(pw[k] == player_id@);
                    assert(pw[i as int] == player_id@);
                }
            }
            return Err(AttachError::SessionNotFound);
        }
        let peers = self.peers(session_id);
        let ghost m = self.members_view();
        let ghost pm = players_of_members(m);
        let ghost av = self.assets_view();
        assert(w[i as int] == (player_id@, session_id, self.expires_of(player_id@)));
        let entry = self.waiting.remove(i);
        proof {
            assert(self.waiting_view() =~= w.remove(i as int));
            assert(players_of_waiting(self.waiting_view()) =~= pw.remove(i as int));
            lemma_remove_distinct(pw, i as int);
        }
        let ghost w1 = self.waiting_view();
        self.members.push(Member { player_id: entry.player_id, session_id, asset_id, outbound });
        proof {
            assert(self.assets_view() =~= av.push((asset_id@, session_id)));
            assert(self.members_view() =~= m.push((player_id@, session_id)));
            assert(players_of_members(self.members_view()) =~= pm.push(player_id@));
            assert forall|p: Seq<char>|
                !(#[trigger] players_of_waiting(self.waiting_view()).contains(p)
                    && players_of_members(self.members_view()).contains(p)) by {
                if players_of_waiting(self.waiting_view()).contains(p) && players_of_members(
                    self.members_view(),
                ).contains(p) {
                    assert(pw.contains(p));
                    assert(p != player_id@);
                    let k = choose|k: int| 0 <= k < pm.push(player_id@).len() && pm.push(player_id@)[k] == p;
                    assert(pm[k] == p);
                    assert(pm.contains(p));
                }
            }
            assert forall|t: u128| #[trigger] self.occupancy(t) <= self.capacity() by {
                lemma_filter_remove_len(w, i as int, waits_for(t));
                m.lemma_filter_push((player_id@, session_id), belongs_to(t));
                assert(old(self).occupancy(t) <= old(self).capacity());
            }
        }
        Ok(peers)
    }

    /// Ends the membership of `player_id` in session `session_id`, if it has
    /// one; returns whether it had.
    pub fn detach(&mut self, session_id: u128, player_id: &String) -> (r: bool)
        requires
            old(self).wf(),
        ensures
            final(self).wf(),
            final(self).capacity() == old(self).capacity(),
            final(self).timeout() == old(self).timeout(),
            final(self).waiting_view() == old(self).waiting_view(),
            r == old(self).members_view().contains((player_id@, session_id)),
            r ==> final(self).members_view() == old(self).members_view().remove(
                old(self).members_view().index_of((player_id@, session_id)),
            ),
            !r ==> final(self).members_view() == old(self).members_view(),
            !r ==> final(self).assets_view() == old(self).assets_view(),
            r ==> final(self).assets_view() == old(self).assets_view().remove(
                old(self).members_view().index_of((player_id@, session_id)),
            ),
            r ==> members_of(final(self).members_view(), session_id).len() + 1 == members_of(
                old(self).members_view(),
                session_id,
            ).len(),
    {
        let ghost m = self.members_view();
        let ghost pm = players_of_members(m);
        let found = self.member_index(player_id);
        let i = match found {
            Some(i) => i,
            None => {
                proof {
                    if m.contains((player_id@, session_id)) {
                        let k = choose|k: int| 0 <= k < m.len() && m[k] == (player_id@, session_id);
                        assert(pm[k] == player_id@);
                    }
                }
                return false;
            },
        };
        if self.members[i].session_id != session_id {
            proof {
                if m.contains((player_id@, session_id)) {
                    let k = choose|k: int| 0 <= k < m.len() && m[k] == (player_id@, session_id);
                    assert(pm[k] == player_id@);
                    assert(pm[i as int] == player_id@);
                }
            }
            return false;
        }
        proof {
            assert(m[i as int] == (player_id@, session_id));
            let j = m.index_of((player_id@, session_id));
            assert(pm[j] == player_id@);
            assert(pm[i as int] == player_id@);
            assert(j == i);
        }
        let ghost av = self.assets_view();
        self.members.remove(i);
        proof {
            assert(self.assets_view() =~= av.remove(i as int));
            assert(self.members_view() =~= m.remove(i as int));
            assert(players_of_members(self.members_view()) =~= pm.remove(i as int));
            lemma_remove_distinct(pm, i as int);
            assert forall|p: Seq<char>|
                !(#[trigger] players_of_waiting(self.waiting_view()).contains(p)
                    && players_of_members(self.members_view()).contains(p)) by {
                if players_of_members(self.members_view()).contains(p) {
                    assert(pm.contains(p));
                }
            }
            assert forall|t: u128| #[trigger] self.occupancy(t) <= self.capacity() by {
                lemma_filter_remove_len(m, i as int, belongs_to(t));
                assert(old(self).occupancy(t) <= old(self).capacity());
            }
            lemma_filter_remove_len(m, i as int, belongs_to(session_id));
        }
        true
    }

    /// The outbound channels that a broadcast of `sender` in session
    /// `session_id` goes to: every member's, the sender's only when `echo`.
    /// Taking them is all a broadcast does under the lobby's lock.
    pub fn outbound_targets(&self, session_id: u128, sender: &String, echo: bool) -> (r: Vec<
        Delivery,
    >)
        ensures
            r@.map_values(|d: Delivery| d.player_id@) == recipients(
                self.members_view(),
                session_id,
                sender@,
                echo,
            ),
    {
        let ghost m = self.members_view();
        let ghost f = receives(session_id, sender@, echo);
        let mut out: Vec<Delivery> = Vec::new();
        let mut i: usize = 0;
        while i < self.members.len()
            invariant
                i <= self.members@.len(),
                m == self.members_view(),
                f == receives(session_id, sender@, echo),
                out@.map_values(|d: Delivery| d.player_id@) == players_of_members(
                    m.take(i as int).filter(f),
                ),
            decreases self.members@.len() - i,
        {
            proof {
                assert(m.take(i + 1) =~= m.take(i as int).push(m[i as int]));
                m.take(i as int).lemma_filter_push(m[i as int], f);
            }
            let member = &self.members[i];
            if member.session_id == session_id && (echo || member.player_id != *sender) {
                let ghost before = out@;
                out.push(
                    Delivery { player_id: member.player_id.clone(), outbound: member.outbound.clone() },
                );
                proof {
                    assert(out@.map_values(|d: Delivery| d.player_id@) =~= before.map_values(
                        |d: Delivery| d.player_id@,
                    ).push(m[i as int].0));
                    assert(players_of_members(m.take(i + 1).filter(f)) =~= players_of_members(
                        m.take(i as int).filter(f),
                    ).push(m[i as int].0));
                }
            }
            i = i + 1;
        }
        assert(m.take(i as int) =~= m);
        out
    }

    /// Hands `message` to the outbound channel of every member of session
    /// `session_id` but `sender` (and to the sender's too when `echo`);
    /// returns those members. A member whose channel is closed is skipped
    /// silently.
    pub fn broadcast(&self, session_id: u128, sender: &String, message: &String, echo: bool) -> (r:
        Vec<String>)
        ensures
            r@.map_values(|x: String| x@) == recipients(self.members_view(), session_id, sender@, echo),
    {
        let targets = self.outbound_targets(session_id, sender, echo);
        let _outcomes = deliver(&targets, message);
        let mut out: Vec<String> = Vec::new();
        let mut i: usize = 0;
        while i < targets.len()
            invariant
                i <= targets@.len(),
                out@.map_values(|x: String| x@) == targets@.take(i as int).map_values(
                    |d: Delivery| d.player_id@,
                ),
            decreases targets@.len() - i,
        {
            let ghost before = out@;
            out.push(targets[i].player_id.clone());
            assert(out@.map_values(|x: String| x@) =~= before.map_values(|x: String| x@).push(
                targets@[i as int].player_id@,
            ));
            assert(targets@.take(i + 1).map_values(|d: Delivery| d.player_id@) =~= targets@.take(
                i as int,
            ).map_values(|d: Delivery| d.player_id@).push(targets@[i as int].player_id@));
            i = i + 1;
        }
        assert(targets@.take(i as int) =~= targets@);
        out
    }

    /// Removes every waiting entry whose time is up at `now`; returns their
    /// players, in order.
    pub fn evict_expired(&mut self, now: u64) -> (r: Vec<String>)
        requires
            old(self).wf(),
        ensures
            final(self).wf(),
            final(self).capacity() == old(self).capacity(),
            final(self).timeout() == old(self).timeout(),
            final(self).members_view() == old(self).members_view(),
            final(self).assets_view() == old(self).assets_view(),
            final(self).waiting_view() == old(self).waiting_view().filter(alive_at(now)),
            r@.map_values(|x: String| x@) == players_of_waiting(
                old(self).waiting_view().filter(expired_at(now)),
            ),
    {
        let ghost w = self.waiting_view();
        let mut kept: Vec<WaitingEntry> = Vec::new();
        let mut gone: Vec<String> = Vec::new();
        let mut i: usize = 0;
        while i < self.waiting.len()
            invariant
                i <= self.waiting@.len(),
                w == self.waiting_view(),
                kept@.map_values(|e: WaitingEntry| (e.player_id@, e.session_id, e.expires_at))
                    == w.take(i as int).filter(alive_at(now)),
                gone@.map_values(|x: String| x@) == players_of_waiting(
                    w.take(i as int).filter(expired_at(now)),
                ),
            decreases self.waiting@.len() - i,
        {
            proof {
                assert(w.take(i + 1) =~= w.take(i as int).push(w[i as int]));
                w.take(i as int).lemma_filter_push(w[i as int], alive_at(now));
                w.take(i as int).lemma_filter_push(w[i as int], expired_at(now));
            }
            let e = &self.waiting[i];
            if e.expires_at > now {
                let ghost before = kept@;
                kept.push(
                    WaitingEntry {
                        player_id: e.player_id.clone(),
                        session_id: e.session_id,
                        expires_at: e.expires_at,
                    },
                );
                assert(kept@.map_values(|e: WaitingEntry| (e.player_id@, e.session_id, e.expires_at))
                    =~= before.map_values(
                    |e: WaitingEntry| (e.player_id@, e.session_id, e.expires_at),
                ).push(w[i as int]));
            } else {
                let ghost before = gone@;
                gone.push(e.player_id.clone());
                assert(gone@.map_values(|x: String| x@) =~= before.map_values(|x: String| x@).push(
                    w[i as int].0,
                ));
                assert(players_of_waiting(w.take(i + 1).filter(expired_at(now))) =~= players_of_waiting(
                    w.take(i as int).filter(expired_at(now)),
                ).push(w[i as int].0));
            }
            i = i + 1;
        }
        assert(w.take(i as int) =~= w);
        self.waiting = kept;
        proof {
            lemma_filter_waiting_distinct(w, alive_at(now));
            assert forall|p: Seq<char>|
                !(#[trigger] players_of_waiting(self.waiting_view()).contains(p)
                    && players_of_members(self.members_view()).contains(p)) by {
                if players_of_waiting(self.waiting_view()).contains(p) {
                    assert(players_of_waiting(w).contains(p));
                }
            }
            assert forall|t: u128| #[trigger] self.occupancy(t) <= self.capacity() by {
                lemma_filter_filter_len(w, alive_at(now), waits_for(t));
                assert(old(self).occupancy(t) <= old(self).capacity());
            }
        }
        gone
    }

    /// The position of `p` among the members, if it is one.
    fn member_index(&self, p: &String) -> (r: Option<usize>)
        ensures
            r.is_none() == !self.is_member(p@),
            r matches Some(i) ==> i < self.members@.len() && self.members_view()[i as int].0 == p@,
    {
        let mut i: usize = 0;
        while i < self.members.len()
            invariant
                i <= self.members@.len(),
                forall|j: int| 0 <= j < i ==> self.members_view()[j].0 != p@,
            decreases self.members@.len() - i,
        {
            if self.members[i].player_id == *p {
                assert(players_of_members(self.members_view())[i as int] == p@);
                return Some(i);
            }
            i = i + 1;
        }
        proof {
            if players_of_members(self.members_view()).contains(p@) {
                let k = choose|k: int|
                    0 <= k < players_of_members(self.members_view()).len()
                        && players_of_members(self.members_view())[k] == p@;
                assert(self.members_view()[k].0 == p@);
            }
        }
        None
    }

    /// How many members session `s` has.
    pub fn member_count(&self, s: u128) -> (r: usize)
        ensures
            r == members_of(self.members_view(), s).len(),
    {
        let v = self.peers(s);
        assert(v@.map_values(|x: String| x@).len() == v@.len());
        v.len()
    }

    /// Whether session `s` has as many members as a session holds: the point
    /// at which the assets of the match are taken into use.
    pub fn is_full(&self, s: u128) -> (r: bool)
        ensures
            r == (members_of(self.members_view(), s).len() >= self.capacity()),
    {
        self.member_count(s) >= self.capacity
    }

    /// The assets brought into session `s`, in order of attachment: what is
    /// marked in use once the session is full.
    pub fn session_assets(&self, s: u128) -> (r: Vec<String>)
        ensures
            r@.map_values(|x: String| x@) == self.assets_view().filter(
                |e: (Seq<char>, u128)| e.1 == s,
            ).map_values(|e: (Seq<char>, u128)| e.0),
    {
        let ghost a = self.assets_view();
        let ghost f = |e: (Seq<char>, u128)| e.1 == s;
        let mut out: Vec<String> = Vec::new();
        let mut i: usize = 0;
        while i < self.members.len()
            invariant
                i <= self.members@.len(),
                a == self.assets_view(),
                f == (|e: (Seq<char>, u128)| e.1 == s),
                out@.map_values(|x: String| x@) == a.take(i as int).filter(f).map_values(
                    |e: (Seq<char>, u128)| e.0,
                ),
            decreases self.members@.len() - i,
        {
            proof {
                assert(a.take(i + 1) =~= a.take(i as int).push(a[i as int]));
                a.take(i as int).lemma_filter_push(a[i as int], f);
            }
            if self.members[i].session_id == s {
                let ghost before = out@;
                out.push(self.members[i].asset_id.clone());
                proof {
                    assert(out@.map_values(|x: String| x@) =~= before.map_values(|x: String| x@).push(
                        a[i as int].0,
                    ));
                    assert(a.take(i + 1).filter(f).map_values(|e: (Seq<char>, u128)| e.0) =~= a.take(
                        i as int,
                    ).filter(f).map_values(|e: (Seq<char>, u128)| e.0).push(a[i as int].0));
                }
            } else {
                assert(a.take(i + 1).filter(f) =~= a.take(i as int).filter(f));
            }
            i = i + 1;
        }
        assert(a.take(i as int) =~= a);
        out
    }
}

} // verus!
