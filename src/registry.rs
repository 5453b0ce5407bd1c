//! The shared player registry: identities, bounded snapshot histories,
//! per-viewer filtered delivery and join/leave notification queues.
use crate::message::{ConnectionUpdate, PlayerInfo};
use crate::snapshot::{PlayerState, STATE_LEN};
use rand::rngs::SmallRng;
use rand::{Rng, SeedableRng};
use vstd::prelude::*;
use vstd::set_lib::{lemma_int_range, lemma_len_subset, set_int_range};

verus! {

/// Most players connected at once; a full broadcast of every player's
/// current state then fits into a single packet.
pub const MAX_PLAYERS: usize = 22;

/// Most snapshots kept for each player.
pub const MAX_UPDATES: usize = 20;

/// One retained snapshot: its timestamp, record bytes and delivered-to set.
pub struct SnapshotModel {
    pub millis: u32,
    pub bytes: [u8; STATE_LEN],
    pub sent_to: Set<u8>,
}

/// One connected player: identity, color, snapshot history (ascending by
/// timestamp) and the notifications waiting to be handed to its session.
pub struct PlayerModel {
    pub id: u8,
    pub color: [u8; 3],
    pub history: Seq<SnapshotModel>,
    pub pending: Seq<ConnectionUpdate>,
}

/// Random identities drawn in `connect` before falling back to the smallest
/// free one.
pub const ID_DRAWS: usize = 32;

#[verifier::external_type_specification]
#[verifier::external_body]
pub struct ExSmallRng(SmallRng);

/// Seed of the identity generator when the operating system has no entropy
/// to offer; identities stay unique whatever the generator yields.
pub const FALLBACK_SEED: u64 = 0x5eed;

/// Relies on rand_core's `SeedableRng::try_from_os_rng`: a generator seeded
/// from the operating system, or `None` when it cannot supply entropy. Nothing
/// is promised of the seed.
#[verifier::external_body]
fn os_seeded_rng() -> (r: Option<SmallRng>) {
    SmallRng::try_from_os_rng().ok()
}

/// Relies on rand's `SmallRng::seed_from_u64`, which only does wrapping
/// arithmetic: a generator for a fixed seed.
#[verifier::external_body]
fn fixed_seed_rng(seed: u64) -> (r: SmallRng) {
    SmallRng::seed_from_u64(seed)
}

/// Relies on rand's `Rng::random::<u8>`: any byte may come back.
#[verifier::external_body]
fn random_id(rng: &mut SmallRng) -> (r: u8) {
    rng.random::<u8>()
}

/// Timestamps strictly increase along the history.
pub open spec fn history_sorted(h: Seq<SnapshotModel>) -> bool {
    forall|i: int, j: int| 0 <= i < j < h.len() ==> h[i].millis < h[j].millis
}

pub open spec fn has_millis(h: Seq<SnapshotModel>, m: u32) -> bool {
    exists|i: int| 0 <= i < h.len() && h[i].millis == m
}

/// The timestamps of a history, in order.
pub open spec fn millis_of(h: Seq<SnapshotModel>) -> Seq<u32> {
    h.map_values(|s: SnapshotModel| s.millis)
}

/// Where a snapshot with timestamp `m` goes in a sorted history: after every
/// entry with a smaller timestamp.
pub open spec fn insert_pos(h: Seq<SnapshotModel>, m: u32) -> int
    decreases h.len(),
{
    if h.len() == 0 {
        0
    } else if h.last().millis < m {
        h.len() as int
    } else {
        insert_pos(h.drop_last(), m)
    }
}

/// The history after offering it snapshot `s`: a duplicate timestamp is
/// ignored; below capacity `s` is inserted in order; at capacity `s` is
/// inserted only if it is newer than the oldest entry, which is then evicted.
pub open spec fn add_snapshot(h: Seq<SnapshotModel>, s: SnapshotModel) -> Seq<SnapshotModel> {
    if has_millis(h, s.millis) {
        h
    } else if h.len() < MAX_UPDATES {
        h.insert(insert_pos(h, s.millis), s)
    } else if h[0].millis < s.millis {
        h.insert(insert_pos(h, s.millis), s).drop_first()
    } else {
        h
    }
}

/// Index of the newest snapshot not yet delivered to `viewer`, if any.
pub open spec fn newest_undelivered(h: Seq<SnapshotModel>, viewer: u8) -> Option<int>
    decreases h.len(),
{
    if h.len() == 0 {
        None
    } else if !h.last().sent_to.contains(viewer) {
        Some(h.len() - 1)
    } else {
        newest_undelivered(h.drop_last(), viewer)
    }
}

/// What a filtered query by `viewer` emits for player `p`: the newest snapshot
/// not yet delivered to the viewer, or nothing.
pub open spec fn picked(p: PlayerModel, viewer: u8) -> Seq<[u8; STATE_LEN]> {
    if p.id == viewer {
        Seq::empty()
    } else {
        match newest_undelivered(p.history, viewer) {
            Some(j) => seq![p.history[j].bytes],
            None => Seq::empty(),
        }
    }
}

/// Player `p` after a filtered query by `viewer`: the picked snapshot is
/// marked delivered to the viewer.
pub open spec fn delivered(p: PlayerModel, viewer: u8) -> PlayerModel {
    if p.id == viewer {
        p
    } else {
        match newest_undelivered(p.history, viewer) {
            Some(j) => PlayerModel {
                history: p.history.update(
                    j,
                    SnapshotModel { sent_to: p.history[j].sent_to.insert(viewer), ..p.history[j] },
                ),
                ..p
            },
            None => p,
        }
    }
}


/// In a sorted history, `insert_pos` splits the entries older than `m` from
/// the rest.
pub proof fn lemma_insert_pos(h: Seq<SnapshotModel>, m: u32)
    requires
        history_sorted(h),
    ensures
        0 <= insert_pos(h, m) <= h.len(),
        forall|i: int| 0 <= i < insert_pos(h, m) ==> h[i].millis < m,
        forall|i: int| insert_pos(h, m) <= i < h.len() ==> h[i].millis >= m,
    decreases h.len(),
{
    if h.len() > 0 && h.last().millis >= m {
        let t = h.drop_last();
        assert(history_sorted(t));
        lemma_insert_pos(t, m);
        assert forall|i: int| insert_pos(h, m) <= i < h.len() implies h[i].millis >= m by {
            if i < t.len() {
                assert(h[i] == t[i]);
            }
        }
        assert forall|i: int| 0 <= i < insert_pos(h, m) implies h[i].millis < m by {
            assert(h[i] == t[i]);
        }
    } else if h.len() > 0 {
        assert forall|i: int| 0 <= i < insert_pos(h, m) implies h[i].millis < m by {
            if i < h.len() - 1 {
                assert(h[i].millis < h[h.len() - 1].millis);
            }
        }
    }
}

/// Inserting at `insert_pos` keeps a history sorted when `m` is new to it.
proof fn lemma_insert_sorted(h: Seq<SnapshotModel>, s: SnapshotModel)
    requires
        history_sorted(h),
        !has_millis(h, s.millis),
    ensures
        history_sorted(h.insert(insert_pos(h, s.millis), s)),
        h.insert(insert_pos(h, s.millis), s).len() == h.len() + 1,
{
    lemma_insert_pos(h, s.millis);
    let p = insert_pos(h, s.millis);
    let g = h.insert(p, s);
    assert forall|i: int| p < i < g.len() implies g[i].millis > s.millis by {
        assert(g[i] == h[i - 1]);
        if h[i - 1].millis == s.millis {
            assert(has_millis(h, s.millis));
        }
    }
}

/// One retained snapshot of a player's history.
struct Snapshot {
    millis: u32,
    state: PlayerState,
}

impl Snapshot {
    closed spec fn model(&self) -> SnapshotModel {
        SnapshotModel {
            millis: self.millis,
            bytes: self.state.bytes_view(),
            sent_to: self.state.sent_to_view(),
        }
    }
}

/// The model of a fresh snapshot built from `state` at timestamp `millis`.
pub open spec fn snapshot_of(millis: u32, state: PlayerState) -> SnapshotModel {
    SnapshotModel { millis, bytes: state.bytes_view(), sent_to: state.sent_to_view() }
}

struct Player {
    id: u8,
    color: [u8; 3],
    states: Vec<Snapshot>,
    pending: Vec<ConnectionUpdate>,
}

impl View for Player {
    type V = PlayerModel;

    closed spec fn view(&self) -> PlayerModel {
        PlayerModel {
            id: self.id,
            color: self.color,
            history: self.states@.map_values(|s: Snapshot| s.model()),
            pending: self.pending@,
        }
    }
}

impl Player {
    fn new(id: u8, color: [u8; 3]) -> (r: Self)
        ensures
            r@ == (PlayerModel { id, color, history: Seq::empty(), pending: Seq::empty() }),
    {
        let r = Player { id, color, states: Vec::new(), pending: Vec::new() };
        assert(r@.history =~= Seq::empty());
        r
    }

    /// Appends `u` to this player's notification queue.
    fn notify(&mut self, u: ConnectionUpdate)
        ensures
            final(self)@ == notified(old(self)@, u),
    {
        self.pending.push(u);
    }

    /// Takes every pending notification, leaving the queue empty.
    fn take_pending(&mut self) -> (r: Vec<ConnectionUpdate>)
        ensures
            r@ == old(self)@.pending,
            final(self)@ == (PlayerModel { pending: Seq::empty(), ..old(self)@ }),
    {
        let mut r: Vec<ConnectionUpdate> = Vec::new();
        std::mem::swap(&mut r, &mut self.pending);
        r
    }

    /// Offers a snapshot to this player's bounded history.
    fn update(&mut self, millis: u32, player_state: PlayerState)
        requires
            history_sorted(old(self)@.history),
            old(self)@.history.len() <= MAX_UPDATES,
        ensures
            final(self)@ == (PlayerModel {
                history: add_snapshot(old(self)@.history, snapshot_of(millis, player_state)),
                ..old(self)@
            }),
            history_sorted(final(self)@.history),
            final(self)@.history.len() <= MAX_UPDATES,
            has_millis(old(self)@.history, millis) ==> *final(self) == *old(self),
    {
        let ghost h = self@.history;
        let ghost s = snapshot_of(millis, player_state);
        let n = self.states.len();
        // Scan from the newest entry for the first one not newer than `millis`.
        let mut p: usize = n;
        while p > 0
            invariant
                p <= n == self.states.len(),
                h == self@.history,
                forall|j: int| p <= j < n ==> h[j].millis > millis,
            ensures
                p <= n,
                forall|j: int| p <= j < n ==> h[j].millis > millis,
                p == 0 || h[p - 1].millis <= millis,
            decreases p,
        {
            if self.states[p - 1].millis <= millis {
                break;
            }
            p = p - 1;
        }
        proof {
            lemma_insert_pos(h, millis);
        }
        if p > 0 && self.states[p - 1].millis == millis {
            assert(h[p - 1].millis == millis);
            return;
        }
        assert(!has_millis(h, millis)) by {
            assert forall|i: int| 0 <= i < h.len() implies h[i].millis != millis by {
                if i < p - 1 {
                    assert(h[i].millis < h[p - 1].millis);
                }
            }
        }
        assert(insert_pos(h, millis) == p) by {
            let q = insert_pos(h, millis);
            if q < p {
                assert(h[p - 1].millis >= millis);
            } else if q > p {
                assert(h[p as int].millis < millis);
            }
        }
        proof {
            lemma_insert_sorted(h, s);
        }
        let ghost g = h.insert(p as int, s);
        if n < MAX_UPDATES {
            self.states.insert(p, Snapshot { millis, state: player_state });
            assert(self@.history =~= g);
            return;
        }
        if self.states[0].millis < millis {
            self.states.insert(p, Snapshot { millis, state: player_state });
            self.states.remove(0);
            assert(self@.history =~= g.drop_first());
        }
    }

    /// Hands `viewer` the newest snapshot of this player that it has not yet
    /// received, marking it delivered.
    fn deliver_to(&mut self, viewer: u8) -> (r: Option<[u8; STATE_LEN]>)
        ensures
            final(self)@ == delivered(old(self)@, viewer),
            picked(old(self)@, viewer) == match r {
                Some(b) => seq![b],
                None => Seq::<[u8; STATE_LEN]>::empty(),
            },
    {
        if self.id == viewer {
            return None;
        }
        let ghost h = self@.history;
        assert(old(self)@.id != viewer);
        let mut j: usize = self.states.len();
        assert(h.take(j as int) =~= h);
        while j > 0
            invariant
                j <= self.states.len(),
                h == self@.history,
                *self == *old(self),
                old(self)@.id != viewer,
                newest_undelivered(h, viewer) == newest_undelivered(h.take(j as int), viewer),
            decreases j,
        {
            assert(h.take(j as int).drop_last() =~= h.take(j - 1));
            if !self.states[j - 1].state.was_sent_to(viewer) {
                assert(h.take(j as int).last() == h[j - 1]);
                assert(newest_undelivered(h, viewer) == Some(j - 1));
                let snapshot = &mut self.states[j - 1];
                snapshot.state.mark_sent_to(viewer);
                let bytes = snapshot.state.bytes();
                assert(self.states@[j - 1].model() == (SnapshotModel {
                    sent_to: h[j - 1].sent_to.insert(viewer),
                    ..h[j - 1]
                }));
                assert(self.states@ =~= old(self).states@.update(j - 1, self.states@[j - 1]));
                assert forall|k: int| 0 <= k < h.len() && k != j - 1 implies self@.history[k] == h[k] by {
                    assert(self.states@[k] == old(self).states@[k]);
                }
                assert(delivered(old(self)@, viewer).history == h.update(
                    j - 1,
                    SnapshotModel { sent_to: h[j - 1].sent_to.insert(viewer), ..h[j - 1] },
                ));
                assert(self@.history.len() == h.len());
                assert(self@.history =~= delivered(old(self)@, viewer).history);
                return Some(bytes);
            }
            j = j - 1;
        }
        assert(h.take(0) =~= Seq::<SnapshotModel>::empty());
        None
    }
}


/// The identities of the connected players, in registry order.
pub open spec fn ids(s: Seq<PlayerModel>) -> Seq<u8> {
    s.map_values(|p: PlayerModel| p.id)
}

/// The registry's invariant: at most `MAX_PLAYERS` players with distinct
/// identities, each with a sorted history of at most `MAX_UPDATES` entries.
pub open spec fn state_wf(s: Seq<PlayerModel>) -> bool {
    &&& s.len() <= MAX_PLAYERS
    &&& forall|i: int, j: int| 0 <= i < j < s.len() ==> s[i].id != s[j].id
    &&& forall|k: int|
        0 <= k < s.len() ==> history_sorted(#[trigger] s[k].history) && s[k].history.len()
            <= MAX_UPDATES
}

pub open spec fn peer_info(p: PlayerModel) -> PlayerInfo {
    PlayerInfo { id: p.id, color: p.color }
}

/// `{id, color}` of every player, in registry order.
pub open spec fn peers_of(s: Seq<PlayerModel>) -> Seq<PlayerInfo> {
    s.map_values(|p: PlayerModel| peer_info(p))
}

pub open spec fn notified(p: PlayerModel, u: ConnectionUpdate) -> PlayerModel {
    PlayerModel { pending: p.pending.push(u), ..p }
}

/// Every player with `u` appended to its notification queue.
pub open spec fn notify_all(s: Seq<PlayerModel>, u: ConnectionUpdate) -> Seq<PlayerModel> {
    s.map_values(|p: PlayerModel| notified(p, u))
}

/// The player newly registered under `id` with `color`.
pub open spec fn fresh_player(id: u8, color: [u8; 3]) -> PlayerModel {
    PlayerModel { id, color, history: Seq::empty(), pending: Seq::empty() }
}

/// The registry with snapshot `snap` offered to the history of player `k`.
pub open spec fn with_snapshot(s: Seq<PlayerModel>, k: int, snap: SnapshotModel) -> Seq<PlayerModel> {
    s.update(k, PlayerModel { history: add_snapshot(s[k].history, snap), ..s[k] })
}

/// The registry with the notification queue of player `k` emptied.
pub open spec fn drained(s: Seq<PlayerModel>, k: int) -> Seq<PlayerModel> {
    s.update(k, PlayerModel { pending: Seq::empty(), ..s[k] })
}

/// What a filtered query by `viewer` emits: for each other player in
/// registry order, its newest snapshot not yet delivered to the viewer.
pub open spec fn filtered_out(s: Seq<PlayerModel>, viewer: u8) -> Seq<[u8; STATE_LEN]>
    decreases s.len(),
{
    if s.len() == 0 {
        Seq::empty()
    } else {
        filtered_out(s.drop_last(), viewer) + picked(s.last(), viewer)
    }
}

/// The registry after a filtered query by `viewer`.
pub open spec fn delivered_all(s: Seq<PlayerModel>, viewer: u8) -> Seq<PlayerModel> {
    s.map_values(|p: PlayerModel| delivered(p, viewer))
}

/// A filtered query changes only delivered-to sets.
pub proof fn lemma_delivered_keeps(p: PlayerModel, viewer: u8)
    ensures
        delivered(p, viewer).id == p.id,
        delivered(p, viewer).color == p.color,
        delivered(p, viewer).pending == p.pending,
        delivered(p, viewer).history.len() == p.history.len(),
        forall|i: int|
            0 <= i < p.history.len() ==> (#[trigger] delivered(p, viewer).history[i]).millis
                == p.history[i].millis && delivered(p, viewer).history[i].bytes
                == p.history[i].bytes,
{
    lemma_newest_undelivered(p.history, viewer);
}

/// `newest_undelivered` names the last entry not delivered to the viewer.
pub proof fn lemma_newest_undelivered(h: Seq<SnapshotModel>, viewer: u8)
    ensures
        match newest_undelivered(h, viewer) {
            Some(j) => 0 <= j < h.len() && !h[j].sent_to.contains(viewer) && forall|i: int|
                j < i < h.len() ==> h[i].sent_to.contains(viewer),
            None => forall|i: int| 0 <= i < h.len() ==> h[i].sent_to.contains(viewer),
        },
    decreases h.len(),
{
    if h.len() > 0 && h.last().sent_to.contains(viewer) {
        let t = h.drop_last();
        lemma_newest_undelivered(t, viewer);
        assert forall|i: int| 0 <= i < t.len() implies h[i] == t[i] by {}
    }
}

/// Every byte value is free in a sequence of fewer than 256 identities.
proof fn lemma_free_id_exists(s: Seq<u8>)
    requires
        s.len() < 256,
    ensures
        exists|c: u8| !s.contains(c),
{
    if forall|c: u8| s.contains(c) {
        let w = s.map_values(|x: u8| x as int);
        w.lemma_cardinality_of_set();
        lemma_int_range(0, 256);
        assert forall|x: int| set_int_range(0, 256).contains(x) implies w.to_set().contains(x) by {
            let c = x as u8;
            assert(s.contains(c));
            let k = choose|k: int| 0 <= k < s.len() && s[k] == c;
            assert(w[k] == x);
        }
        lemma_len_subset(set_int_range(0, 256), w.to_set());
    }
}

/// Registering a new identity absent from a well-formed registry with room
/// keeps it well formed: in particular all identities stay distinct.
pub proof fn lemma_connect_wf(s: Seq<PlayerModel>, id: u8, color: [u8; 3])
    requires
        state_wf(s),
        s.len() < MAX_PLAYERS,
        !ids(s).contains(id),
    ensures
        state_wf(notify_all(s, ConnectionUpdate::Connected { id, color }).push(fresh_player(id, color))),
{
    let t = notify_all(s, ConnectionUpdate::Connected { id, color }).push(fresh_player(id, color));
    assert forall|i: int, j: int| 0 <= i < j < t.len() implies t[i].id != t[j].id by {
        if j == s.len() {
            assert(ids(s)[i] == s[i].id);
        }
    }
    assert forall|k: int| 0 <= k < t.len() implies history_sorted(#[trigger] t[k].history)
        && t[k].history.len() <= MAX_UPDATES by {
        if k < s.len() {
            assert(t[k].history == s[k].history);
        }
    }
}

/// An identity occurs at most once in a well-formed registry.
proof fn lemma_only_index(s: Seq<PlayerModel>, k: int)
    requires
        state_wf(s),
        0 <= k < s.len(),
    ensures
        ids(s).contains(s[k].id),
        forall|j: int| 0 <= j < s.len() && s[j].id == s[k].id ==> j == k,
{
    assert(ids(s)[k] == s[k].id);
    assert forall|j: int| 0 <= j < s.len() && s[j].id == s[k].id implies j == k by {
        if j != k {
            assert(s[j].id != s[k].id);
        }
    }
}

/// Changing one player, keeping identities and the shape of its history,
/// keeps a registry well formed.
proof fn lemma_wf_one_changed(s: Seq<PlayerModel>, t: Seq<PlayerModel>, k: int)
    requires
        state_wf(s),
        0 <= k < s.len() == t.len(),
        forall|j: int| 0 <= j < s.len() ==> (#[trigger] t[j]).id == s[j].id,
        forall|j: int| 0 <= j < s.len() && j != k ==> (#[trigger] t[j]).history == s[j].history,
        history_sorted(t[k].history),
        t[k].history.len() <= MAX_UPDATES,
    ensures
        state_wf(t),
{
    assert forall|a: int, b: int| 0 <= a < b < t.len() implies t[a].id != t[b].id by {
        assert(t[a].id == s[a].id);
        assert(t[b].id == s[b].id);
    }
    assert forall|m: int| 0 <= m < t.len() implies history_sorted(#[trigger] t[m].history)
        && t[m].history.len() <= MAX_UPDATES by {
        if m != k {
            assert(t[m].history == s[m].history);
        }
    }
}

/// Shared registry of connected players: identities, snapshot histories and
/// notification queues.
pub struct State {
    players: Vec<Player>,
    rng: SmallRng,
}

impl View for State {
    type V = Seq<PlayerModel>;

    closed spec fn view(&self) -> Seq<PlayerModel> {
        self.players@.map_values(|p: Player| p@)
    }
}

impl State {
    pub open spec fn wf(&self) -> bool {
        state_wf(self@)
    }

    /// An empty registry. Its identity generator is seeded by the operating
    /// system, or by `FALLBACK_SEED` when that has no entropy to offer.
    pub fn new() -> (r: Self)
        ensures
            r@ == Seq::<PlayerModel>::empty(),
            r.wf(),
    {
        let rng = match os_seeded_rng() {
            Some(rng) => rng,
            None => fixed_seed_rng(FALLBACK_SEED),
        };
        let r = State { players: Vec::new(), rng };
        assert(r@ =~= Seq::<PlayerModel>::empty());
        r
    }

    /// Number of connected players.
    pub fn len(&self) -> (r: usize)
        ensures
            r == self@.len(),
    {
        self.players.len()
    }

    /// Position of player `id` in the registry, if connected.
    fn index_of(&self, id: u8) -> (r: Option<usize>)
        requires
            self.wf(),
        ensures
            match r {
                Some(k) => {
                    &&& k < self@.len() && self@[k as int].id == id
                    &&& ids(self@).contains(id)
                    &&& forall|j: int| 0 <= j < self@.len() && self@[j].id == id ==> j == k
                },
                None => {
                    &&& !ids(self@).contains(id)
                    &&& forall|j: int| 0 <= j < self@.len() ==> self@[j].id != id
                },
            },
    {
        let mut k: usize = 0;
        while k < self.players.len()
            invariant
                self.wf(),
                k <= self.players.len(),
                forall|i: int| 0 <= i < k ==> self@[i].id != id,
            decreases self.players.len() - k,
        {
            if self.players[k].id == id {
                proof {
                    lemma_only_index(self@, k as int);
                }
                return Some(k);
            }
            k = k + 1;
        }
        assert(!ids(self@).contains(id)) by {
            if ids(self@).contains(id) {
                let i = choose|i: int| 0 <= i < ids(self@).len() && ids(self@)[i] == id;
                assert(self@[i].id == id);
            }
        }
        None
    }

    /// Whether `id` is a connected player.
    pub fn contains(&self, id: u8) -> (r: bool)
        requires
            self.wf(),
        ensures
            r == ids(self@).contains(id),
    {
        match self.index_of(id) {
            Some(k) => {
                assert(ids(self@)[k as int] == id);
                true
            },
            None => false,
        }
    }

    /// An identity no connected player holds: a few random draws, then the
    /// smallest free byte.
    fn fresh_id(&mut self) -> (r: u8)
        requires
            old(self).wf(),
            old(self)@.len() < MAX_PLAYERS,
        ensures
            final(self)@ == old(self)@,
            !ids(old(self)@).contains(r),
    {
        let mut attempt: usize = 0;
        while attempt < ID_DRAWS
            invariant
                self@ == old(self)@,
                self.wf(),
            decreases ID_DRAWS - attempt,
        {
            let id = random_id(&mut self.rng);
            if !self.contains(id) {
                return id;
            }
            attempt = attempt + 1;
        }
        let mut c: u16 = 0;
        while c < 256
            invariant
                c <= 256,
                self@ == old(self)@,
                self.wf(),
                forall|d: u8| d < c ==> ids(self@).contains(d),
            decreases 256 - c,
        {
            if !self.contains(c as u8) {
                return c as u8;
            }
            c = c + 1;
        }
        proof {
            lemma_free_id_exists(ids(self@));
        }
        0
    }

    /// Registers a new player with `color`. Fails with `None` when the registry
    /// is full. Otherwise returns the new identity, distinct from every
    /// connected one, and `{id, color}` of every player connected before;
    /// each of those is sent a "joined" notification for the newcomer.
    pub fn connect(&mut self, color: [u8; 3]) -> (r: Option<(u8, Vec<PlayerInfo>)>)
        requires
            old(self).wf(),
        ensures
            final(self).wf(),
            r is None <==> old(self)@.len() == MAX_PLAYERS,
            r is None ==> final(self)@ == old(self)@,
            match r {
                Some((id, peers)) => {
                    &&& !ids(old(self)@).contains(id)
                    &&& ids(final(self)@) == ids(old(self)@).push(id)
                    &&& peers@ == peers_of(old(self)@)
                    &&& final(self)@ == notify_all(
                        old(self)@,
                        ConnectionUpdate::Connected { id, color },
                    ).push(fresh_player(id, color))
                },
                None => true,
            },
    {
        if self.players.len() == MAX_PLAYERS {
            return None;
        }
        let id = self.fresh_id();
        let u = ConnectionUpdate::Connected { id, color };
        let n = self.players.len();
        let mut peers: Vec<PlayerInfo> = Vec::new();
        let mut i: usize = 0;
        while i < n
            invariant
                i <= n == self.players.len() == old(self)@.len(),
                self@ == old(self)@,
                peers@ == peers_of(old(self)@.take(i as int)),
            decreases n - i,
        {
            assert(old(self)@.take(i + 1).drop_last() =~= old(self)@.take(i as int));
            peers.push(PlayerInfo { id: self.players[i].id, color: self.players[i].color });
            assert(peers_of(old(self)@.take(i + 1)) =~= peers_of(old(self)@.take(i as int)).push(
                peer_info(old(self)@[i as int]),
            ));
            i = i + 1;
        }
        assert(old(self)@.take(n as int) =~= old(self)@);
        self.notify_each(u);
        let ghost mid = self.players@;
        self.players.push(Player::new(id, color));
        assert(self.players@ =~= mid.push(self.players@.last()));
        assert(self@ =~= notify_all(old(self)@, u).push(fresh_player(id, color)));
        proof {
            lemma_connect_wf(old(self)@, id, color);
            assert(ids(self@) =~= ids(old(self)@).push(id));
        }
        Some((id, peers))
    }

    /// Appends `u` to every player's notification queue.
    fn notify_each(&mut self, u: ConnectionUpdate)
        ensures
            final(self)@ == notify_all(old(self)@, u),
    {
        let n = self.players.len();
        let mut i: usize = 0;
        while i < n
            invariant
                i <= n == self.players.len() == old(self)@.len(),
                forall|k: int| 0 <= k < i ==> self@[k] == notified(old(self)@[k], u),
                forall|k: int| i <= k < n ==> self@[k] == old(self)@[k],
            decreases n - i,
        {
            let ghost before = self.players@;
            let ghost before_view = self@;
            assert(before[i as int]@ == old(self)@[i as int]);
            self.players[i].notify(u);
            assert(self.players@ =~= before.update(i as int, self.players@[i as int]));
            assert forall|k: int| 0 <= k < n && k != i implies self@[k] == before_view[k] by {
                assert(self.players@[k] == before[k]);
            }
            assert forall|k: int| 0 <= k <= i implies self@[k] == notified(old(self)@[k], u) by {
                if k < i {
                    assert(before_view[k] == notified(old(self)@[k], u));
                }
            }
            i = i + 1;
        }
        assert forall|k: int| 0 <= k < n implies self@[k] == notify_all(old(self)@, u)[k] by {
            assert(self@[k] == notified(old(self)@[k], u));
        }
        assert(self@ =~= notify_all(old(self)@, u));
    }

    /// Removes player `id` and sends every remaining player one "left"
    /// notification for it. Nothing happens when `id` is not connected.
    pub fn disconnect(&mut self, id: u8)
        requires
            old(self).wf(),
        ensures
            final(self).wf(),
            !ids(old(self)@).contains(id) ==> final(self)@ == old(self)@,
            forall|k: int|
                0 <= k < old(self)@.len() && old(self)@[k].id == id ==> final(self)@ == notify_all(
                    #[trigger] old(self)@.remove(k),
                    ConnectionUpdate::Disconnected { id },
                ),
    {
        let k = match self.index_of(id) {
            Some(k) => k,
            None => {
                return;
            },
        };
        self.players.remove(k);
        assert(self@ =~= old(self)@.remove(k as int));
        self.notify_each(ConnectionUpdate::Disconnected { id });
        proof {
            let s = old(self)@;
            assert(self@ == notify_all(s.remove(k as int), ConnectionUpdate::Disconnected { id }));
            let t = self@;
            assert forall|i: int, j: int| 0 <= i < j < t.len() implies t[i].id != t[j].id by {
                let i0 = if i < k { i } else { i + 1 };
                let j0 = if j < k { j } else { j + 1 };
                assert(t[i].id == s[i0].id);
                assert(t[j].id == s[j0].id);
            }
            assert forall|m: int| 0 <= m < t.len() implies history_sorted(#[trigger] t[m].history)
                && t[m].history.len() <= MAX_UPDATES by {
                let m0 = if m < k { m } else { m + 1 };
                assert(t[m].history == s[m0].history);
            }
        }
    }

    /// The filtered query of `viewer`: for every other player, in registry
    /// order, the newest snapshot not yet delivered to the viewer, which is
    /// then marked delivered to it. Players with nothing new emit nothing.
    pub fn filtered_state(&mut self, viewer: u8) -> (r: Vec<[u8; STATE_LEN]>)
        requires
            old(self).wf(),
        ensures
            final(self).wf(),
            r@ == filtered_out(old(self)@, viewer),
            final(self)@ == delivered_all(old(self)@, viewer),
    {
        let n = self.players.len();
        let mut out: Vec<[u8; STATE_LEN]> = Vec::new();
        let mut i: usize = 0;
        while i < n
            invariant
                i <= n == self.players.len() == old(self)@.len(),
                out@ == filtered_out(old(self)@.take(i as int), viewer),
                forall|k: int| 0 <= k < i ==> self@[k] == delivered(old(self)@[k], viewer),
                forall|k: int| i <= k < n ==> self@[k] == old(self)@[k],
            decreases n - i,
        {
            assert(old(self)@.take(i + 1).drop_last() =~= old(self)@.take(i as int));
            let ghost before = self.players@;
            let ghost before_view = self@;
            assert(before[i as int]@ == old(self)@[i as int]);
            let picked_bytes = self.players[i].deliver_to(viewer);
            match picked_bytes {
                Some(b) => out.push(b),
                None => {},
            }
            assert(out@ =~= filtered_out(old(self)@.take(i + 1), viewer));
            assert(self.players@ =~= before.update(i as int, self.players@[i as int]));
            assert forall|k: int| 0 <= k < n && k != i implies self@[k] == before_view[k] by {
                assert(self.players@[k] == before[k]);
            }
            assert forall|k: int| 0 <= k <= i implies self@[k] == delivered(old(self)@[k], viewer) by {
                if k < i {
                    assert(before_view[k] == delivered(old(self)@[k], viewer));
                }
            }
            i = i + 1;
        }
        assert(old(self)@.take(n as int) =~= old(self)@);
        assert forall|k: int| 0 <= k < n implies self@[k] == delivered_all(old(self)@, viewer)[k] by {
            assert(self@[k] == delivered(old(self)@[k], viewer));
        }
        assert(self@ =~= delivered_all(old(self)@, viewer));
        proof {
            let s = old(self)@;
            let t = self@;
            assert forall|m: int| 0 <= m < t.len() implies history_sorted(#[trigger] t[m].history)
                && t[m].history.len() <= MAX_UPDATES by {
                lemma_delivered_keeps(s[m], viewer);
                assert(history_sorted(s[m].history));
                assert forall|a: int, b: int| 0 <= a < b < t[m].history.len() implies t[m].history[a].millis
                    < t[m].history[b].millis by {
                    assert(t[m].history[a].millis == s[m].history[a].millis);
                    assert(t[m].history[b].millis == s[m].history[b].millis);
                }
            }
            assert forall|a: int, b: int| 0 <= a < b < t.len() implies t[a].id != t[b].id by {
                lemma_delivered_keeps(s[a], viewer);
                lemma_delivered_keeps(s[b], viewer);
            }
        }
        out
    }

    /// Offers snapshot `player_state`, stamped `millis`, to the history of
    /// player `id` (see `add_snapshot`), then runs the filtered query of `id`
    /// and returns what it emits. `None` when `id` is not connected, and then
    /// nothing changes.
    pub fn update(&mut self, id: u8, millis: u32, player_state: PlayerState) -> (r: Option<
        Vec<[u8; STATE_LEN]>,
    >)
        requires
            old(self).wf(),
        ensures
            final(self).wf(),
            r is None <==> !ids(old(self)@).contains(id),
            r is None ==> final(self)@ == old(self)@,
            ids(final(self)@) == ids(old(self)@),
            forall|k: int|
                0 <= k < old(self)@.len() && old(self)@[k].id == id ==> {
                    let s = #[trigger] with_snapshot(old(self)@, k, snapshot_of(millis, player_state));
                    &&& final(self)@ == delivered_all(s, id)
                    &&& (r matches Some(v) && v@ == filtered_out(s, id))
                    &&& final(self)@[k].history == add_snapshot(
                        old(self)@[k].history,
                        snapshot_of(millis, player_state),
                    )
                },
    {
        let k = match self.index_of(id) {
            Some(k) => k,
            None => {
                return None;
            },
        };
        let ghost s0 = self@;
        let ghost before = self.players@;
        assert(history_sorted(s0[k as int].history));
        self.players[k].update(millis, player_state);
        assert(self.players@ =~= before.update(k as int, self.players@[k as int]));
        assert forall|j: int| 0 <= j < s0.len() && j != k implies self@[j] == s0[j] by {
            assert(self.players@[j] == before[j]);
        }
        assert(self@ =~= with_snapshot(s0, k as int, snapshot_of(millis, player_state)));
        proof {
            lemma_wf_one_changed(s0, self@, k as int);
        }
        let ghost mid = self@;
        let v = self.filtered_state(id);
        proof {
            assert forall|j: int| 0 <= j < mid.len() implies ids(self@)[j] == ids(s0)[j] by {
                lemma_delivered_keeps(mid[j], id);
                if j != k {
                    assert(mid[j] == s0[j]);
                }
            }
            assert(ids(self@) =~= ids(s0));
            assert(self@[k as int] == delivered(mid[k as int], id));
        }
        Some(v)
    }

    /// Takes every notification waiting for player `id`, oldest first, leaving
    /// its queue empty. Empty, with nothing changed, when `id` is not connected.
    pub fn take_notifications(&mut self, id: u8) -> (r: Vec<ConnectionUpdate>)
        requires
            old(self).wf(),
        ensures
            final(self).wf(),
            !ids(old(self)@).contains(id) ==> r@ == Seq::<ConnectionUpdate>::empty() && final(self)@
                == old(self)@,
            forall|k: int|
                0 <= k < old(self)@.len() && old(self)@[k].id == id ==> {
                    &&& r@ == old(self)@[k].pending
                    &&& final(self)@ == #[trigger] drained(old(self)@, k)
                },
    {
        let k = match self.index_of(id) {
            Some(k) => k,
            None => {
                return Vec::new();
            },
        };
        let ghost s0 = self@;
        let ghost before = self.players@;
        let r = self.players[k].take_pending();
        assert(self.players@ =~= before.update(k as int, self.players@[k as int]));
        assert forall|j: int| 0 <= j < s0.len() && j != k implies self@[j] == s0[j] by {
            assert(self.players@[j] == before[j]);
        }
        let ghost t = drained(s0, k as int);
        assert(self@ =~= t);
        proof {
            lemma_wf_one_changed(s0, t, k as int);
        }
        r
    }

    /// The identities of the connected players, in registry order.
    pub fn player_ids(&self) -> (r: Vec<u8>)
        ensures
            r@ == ids(self@),
    {
        let mut r: Vec<u8> = Vec::new();
        let mut i: usize = 0;
        while i < self.players.len()
            invariant
                i <= self.players.len(),
                r@ == ids(self@).take(i as int),
            decreases self.players.len() - i,
        {
            r.push(self.players[i].id);
            assert(r@ =~= ids(self@).take(i + 1));
            i = i + 1;
        }
        assert(ids(self@).take(i as int) =~= ids(self@));
        r
    }

    /// The timestamps held in the history of player `id`, oldest first, or
    /// `None` when `id` is not connected.
    pub fn timestamps(&self, id: u8) -> (r: Option<Vec<u32>>)
        requires
            self.wf(),
        ensures
            r is None <==> !ids(self@).contains(id),
            forall|k: int|
                0 <= k < self@.len() && self@[k].id == id ==> (r matches Some(v) && v@
                    == millis_of(#[trigger] self@[k].history)),
    {
        let k = match self.index_of(id) {
            Some(k) => k,
            None => {
                return None;
            },
        };
        let ghost h = self@[k as int].history;
        let states = &self.players[k].states;
        let mut r: Vec<u32> = Vec::new();
        let mut i: usize = 0;
        while i < states.len()
            invariant
                i <= states.len(),
                h == states@.map_values(|s: Snapshot| s.model()),
                r@ == millis_of(h).take(i as int),
            decreases states.len() - i,
        {
            r.push(states[i].millis);
            assert(r@ =~= millis_of(h).take(i + 1));
            i = i + 1;
        }
        assert(millis_of(h).take(i as int) =~= millis_of(h));
        Some(r)
    }
}

} // verus!
