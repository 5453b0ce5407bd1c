//! Properties of the registry that relate several operations.
use crate::message::ConnectionUpdate;
use crate::registry::{
    add_snapshot, delivered, delivered_all, filtered_out, has_millis, ids, insert_pos,
    lemma_newest_undelivered, notify_all, picked, state_wf, PlayerModel, SnapshotModel, MAX_UPDATES,
};
use vstd::prelude::*;

verus! {

/// The history that results from offering `snaps` in order to `h`.
pub open spec fn offer_all(h: Seq<SnapshotModel>, snaps: Seq<SnapshotModel>) -> Seq<SnapshotModel>
    decreases snaps.len(),
{
    if snaps.len() == 0 {
        h
    } else {
        add_snapshot(offer_all(h, snaps.drop_last()), snaps.last())
    }
}

/// Timestamps strictly increase along `snaps`.
pub open spec fn strictly_increasing(snaps: Seq<SnapshotModel>) -> bool {
    forall|i: int, j: int| 0 <= i < j < snaps.len() ==> snaps[i].millis < snaps[j].millis
}

/// The newest `MAX_UPDATES` entries of `snaps`.
pub open spec fn newest_window(snaps: Seq<SnapshotModel>) -> Seq<SnapshotModel> {
    if snaps.len() <= MAX_UPDATES {
        snaps
    } else {
        snaps.skip(snaps.len() - MAX_UPDATES)
    }
}

/// Snapshots offered to a fresh history with strictly increasing timestamps
/// leave exactly the `MAX_UPDATES` most recent of them, in order.
pub proof fn lemma_sliding_window(snaps: Seq<SnapshotModel>)
    requires
        strictly_increasing(snaps),
    ensures
        offer_all(Seq::empty(), snaps) == newest_window(snaps),
    decreases snaps.len(),
{
    if snaps.len() > 0 {
        let init = snaps.drop_last();
        let s = snaps.last();
        assert(strictly_increasing(init));
        lemma_sliding_window(init);
        let w = newest_window(init);
        assert forall|i: int| 0 <= i < w.len() implies w[i].millis < s.millis by {
            if init.len() <= MAX_UPDATES {
                assert(w[i] == snaps[i]);
            } else {
                assert(w[i] == snaps[i + init.len() - MAX_UPDATES]);
            }
        }
        assert(!has_millis(w, s.millis));
        assert(insert_pos(w, s.millis) == w.len());
        assert(w.insert(w.len() as int, s) =~= w.push(s));
        if init.len() < MAX_UPDATES {
            assert(w.push(s) =~= snaps);
        } else {
            assert(w.len() == MAX_UPDATES);
            assert(w.push(s).drop_first() =~= newest_window(snaps));
        }
    }
}

/// The histories of one player across successive `State::update` calls,
/// each of which turns the history into `add_snapshot(previous, snapshot)`:
/// starting empty, with strictly increasing timestamps, the last history
/// holds exactly the `MAX_UPDATES` most recent snapshots, in order.
pub proof fn lemma_updates_keep_window(hs: Seq<Seq<SnapshotModel>>, snaps: Seq<SnapshotModel>)
    requires
        hs.len() == snaps.len() + 1,
        hs[0] == Seq::<SnapshotModel>::empty(),
        forall|i: int| 0 <= i < snaps.len() ==> hs[i + 1] == add_snapshot(#[trigger] hs[i], snaps[i]),
        strictly_increasing(snaps),
    ensures
        hs.last() == newest_window(snaps),
{
    assert forall|i: int| 0 <= i <= snaps.len() implies #[trigger] hs[i] == offer_all(
        Seq::empty(),
        snaps.take(i),
    ) by {
        lemma_history_is_offer_all(hs, snaps, i);
    }
    assert(snaps.take(snaps.len() as int) =~= snaps);
    lemma_sliding_window(snaps);
}

proof fn lemma_history_is_offer_all(hs: Seq<Seq<SnapshotModel>>, snaps: Seq<SnapshotModel>, i: int)
    requires
        hs.len() == snaps.len() + 1,
        hs[0] == Seq::<SnapshotModel>::empty(),
        forall|i: int| 0 <= i < snaps.len() ==> hs[i + 1] == add_snapshot(#[trigger] hs[i], snaps[i]),
        0 <= i <= snaps.len(),
    ensures
        hs[i] == offer_all(Seq::empty(), snaps.take(i)),
    decreases i,
{
    if i > 0 {
        lemma_history_is_offer_all(hs, snaps, i - 1);
        assert(snaps.take(i).drop_last() =~= snaps.take(i - 1));
        assert(snaps.take(i).last() == snaps[i - 1]);
    } else {
        assert(snaps.take(0) =~= Seq::<SnapshotModel>::empty());
    }
}

/// A snapshot whose timestamp is already in the history leaves it unchanged.
pub proof fn lemma_duplicate_ignored(h: Seq<SnapshotModel>, s: SnapshotModel)
    requires
        has_millis(h, s.millis),
    ensures
        add_snapshot(h, s) == h,
{
}

/// A full history ignores a snapshot that is not newer than its oldest entry.
pub proof fn lemma_stale_ignored(h: Seq<SnapshotModel>, s: SnapshotModel)
    requires
        h.len() == MAX_UPDATES,
        s.millis <= h[0].millis,
    ensures
        add_snapshot(h, s) == h,
{
}

/// Once every snapshot of `p` has been delivered to `viewer`, a filtered query
/// emits nothing for `p` and changes nothing in it.
pub proof fn lemma_nothing_new_for_peer(p: PlayerModel, viewer: u8)
    requires
        forall|i: int| 0 <= i < p.history.len() ==> p.history[i].sent_to.contains(viewer),
    ensures
        picked(p, viewer) == Seq::<[u8; 24]>::empty(),
        delivered(p, viewer) == p,
{
    lemma_newest_undelivered(p.history, viewer);
}

/// A filtered query repeated right after another emits nothing, and changes
/// nothing, for every player whose snapshots all reached the viewer.
pub proof fn lemma_repeat_query_empty(s: Seq<PlayerModel>, viewer: u8)
    requires
        forall|k: int, i: int|
            0 <= k < s.len() && 0 <= i < s[k].history.len() ==> s[k].history[i].sent_to.contains(
                viewer,
            ),
    ensures
        filtered_out(s, viewer) == Seq::<[u8; 24]>::empty(),
        delivered_all(s, viewer) == s,
    decreases s.len(),
{
    if s.len() > 0 {
        let t = s.drop_last();
        assert forall|k: int, i: int|
            0 <= k < t.len() && 0 <= i < t[k].history.len() implies t[k].history[i].sent_to.contains(
            viewer,
        ) by {
            assert(t[k] == s[k]);
        }
        lemma_repeat_query_empty(t, viewer);
        assert forall|i: int| 0 <= i < s.last().history.len() implies s.last().history[i].sent_to.contains(
            viewer,
        ) by {
            assert(s.last() == s[s.len() - 1]);
        }
        lemma_nothing_new_for_peer(s.last(), viewer);
        assert(filtered_out(s, viewer) =~= Seq::<[u8; 24]>::empty());
        assert forall|k: int| 0 <= k < s.len() implies delivered_all(s, viewer)[k] == s[k] by {
            assert forall|i: int| 0 <= i < s[k].history.len() implies s[k].history[i].sent_to.contains(
                viewer,
            ) by {}
            lemma_nothing_new_for_peer(s[k], viewer);
        }
        assert(delivered_all(s, viewer) =~= s);
    }
}

/// After player `s[k]` disconnects, its identity is gone (so updates for it
/// fail), every other player stays in order with exactly one "left"
/// notification appended to its queue.
pub proof fn lemma_disconnect_notifies_once(s: Seq<PlayerModel>, k: int)
    requires
        state_wf(s),
        0 <= k < s.len(),
    ensures
        ({
            let t = notify_all(s.remove(k), ConnectionUpdate::Disconnected { id: s[k].id });
            &&& !ids(t).contains(s[k].id)
            &&& t.len() == s.len() - 1
            &&& forall|j: int|
                0 <= j < t.len() ==> (#[trigger] t[j]).id == s.remove(k)[j].id && t[j].pending
                    == s.remove(k)[j].pending.push(ConnectionUpdate::Disconnected { id: s[k].id })
        }),
{
    let t = notify_all(s.remove(k), ConnectionUpdate::Disconnected { id: s[k].id });
    if ids(t).contains(s[k].id) {
        let j = choose|j: int| 0 <= j < ids(t).len() && ids(t)[j] == s[k].id;
        let j0 = if j < k { j } else { j + 1 };
        assert(t[j].id == s[j0].id);
    }
}

} // verus!
