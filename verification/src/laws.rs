//! The system-wide laws, stated and proved once over the model: the log
//! round trip and the two cascade-delete guarantees. (Replay tolerance is
//! proved beside the codec: [`crate::codec::lemma_replay_tolerance`].)

use vstd::prelude::*;
use crate::codec::{events_of_log, lemma_append_log, render_pending};
use crate::events::EventV;
use crate::model::{
    delete_group_t, delete_user_t, empty_data, group_index, has_group, has_score, has_scorable,
    has_user, lemma_filter_elem, lemma_replay_append, replay, scorable_not_in, scorable_of,
    score_not_by, score_not_under, user_index, wf, StoreData,
};

verus! {

/// Round trip: append the rendered pending events to any log text, replay the
/// whole text from scratch, and the result is the old text's replay with the
/// pending events applied on top. Together with the persisted store's
/// invariant (live data == flushed baseline + pending), flushing and
/// replaying from scratch rebuilds exactly the live data; `last_changed` is
/// no part of the replayed data.
pub proof fn lemma_flush_round_trip(log: Seq<char>, pending: Seq<EventV>)
    ensures
        replay(empty_data(), events_of_log(log + render_pending(pending))) == replay(
            replay(empty_data(), events_of_log(log)),
            pending,
        ),
{
    lemma_append_log(log, pending);
    lemma_replay_append(empty_data(), events_of_log(log), pending);
}

/// Cascade on group delete: the group is gone, every scorable of the group is
/// gone, and every score that sat under any scorable of the group is gone —
/// none is retrievable by its old id.
pub proof fn lemma_group_cascade(d: StoreData, g: u128)
    requires
        wf(d),
        has_group(d, g),
    ensures
        !has_group(delete_group_t(d, g), g),
        forall|i: int|
            0 <= i < d.scorables.len() && (#[trigger] d.scorables[i]).group_id == g
                ==> !has_scorable(delete_group_t(d, g), d.scorables[i].id),
        forall|i: int|
            0 <= i < d.scores.len() && scorable_of(d, (#[trigger] d.scores[i]).scorable_id).group_id
                == g ==> !has_score(delete_group_t(d, g), d.scores[i].id),
{
    let d2 = delete_group_t(d, g);
    let gidx = group_index(d, g);
    d.groups.remove_ensures(gidx);
    assert forall|m: int| 0 <= m < d2.groups.len() implies (#[trigger] d2.groups[m]).id != g by {
        let m0: int = if m < gidx { m } else { m + 1 };
        assert(d2.groups[m] == d.groups[m0]);
        if d.groups[m0].id == g {
            if m0 < gidx {
                assert(d.groups[m0].id != d.groups[gidx].id);
            } else {
                assert(d.groups[gidx].id != d.groups[m0].id);
            }
        }
    };
    let psc = scorable_not_in(g);
    assert forall|i: int|
        0 <= i < d.scorables.len() && (#[trigger] d.scorables[i]).group_id == g
            implies !has_scorable(d2, d.scorables[i].id) by {
        assert forall|k: int| 0 <= k < d2.scorables.len() implies (#[trigger] d2.scorables[k]).id
            != d.scorables[i].id by {
            lemma_filter_elem(d.scorables, psc, k);
            let w = choose|w: int| 0 <= w < d.scorables.len() && d.scorables[w] == d2.scorables[k];
            if d.scorables[w].id == d.scorables[i].id {
                if w < i {
                    assert(d.scorables[w].id != d.scorables[i].id);
                } else if i < w {
                    assert(d.scorables[i].id != d.scorables[w].id);
                } else {
                    assert(d.scorables[w].group_id == g);
                }
            }
        };
    };
    let ps = score_not_under(d, g);
    assert forall|i: int|
        0 <= i < d.scores.len() && scorable_of(d, (#[trigger] d.scores[i]).scorable_id).group_id
            == g implies !has_score(d2, d.scores[i].id) by {
        assert forall|k: int| 0 <= k < d2.scores.len() implies (#[trigger] d2.scores[k]).id
            != d.scores[i].id by {
            lemma_filter_elem(d.scores, ps, k);
            let w = choose|w: int| 0 <= w < d.scores.len() && d.scores[w] == d2.scores[k];
            if d.scores[w].id == d.scores[i].id {
                if w < i {
                    assert(d.scores[w].id != d.scores[i].id);
                } else if i < w {
                    assert(d.scores[i].id != d.scores[w].id);
                } else {
                    assert(has_scorable(d, d.scores[i].scorable_id));
                    assert(!ps(d.scores[w]));
                }
            }
        };
    };
}

/// Cascade on user delete: the user is gone and every score that user
/// recorded is gone, while the group and scorable tables do not change at
/// all — they remain queryable exactly as before.
pub proof fn lemma_user_cascade(d: StoreData, u: Seq<char>)
    requires
        wf(d),
        has_user(d, u),
    ensures
        !has_user(delete_user_t(d, u), u),
        forall|i: int|
            0 <= i < delete_user_t(d, u).scores.len() ==> (#[trigger] delete_user_t(
                d,
                u,
            ).scores[i]).username != u,
        forall|i: int|
            0 <= i < d.scores.len() && (#[trigger] d.scores[i]).username == u ==> !has_score(
                delete_user_t(d, u),
                d.scores[i].id,
            ),
        delete_user_t(d, u).groups == d.groups,
        delete_user_t(d, u).scorables == d.scorables,
{
    let d2 = delete_user_t(d, u);
    let uidx = user_index(d, u);
    d.users.remove_ensures(uidx);
    assert forall|m: int| 0 <= m < d2.users.len() implies (#[trigger] d2.users[m]).username
        != u by {
        let m0: int = if m < uidx { m } else { m + 1 };
        assert(d2.users[m] == d.users[m0]);
        if d.users[m0].username == u {
            if m0 < uidx {
                assert(d.users[m0].username != d.users[uidx].username);
            } else {
                assert(d.users[uidx].username != d.users[m0].username);
            }
        }
    };
    let p = score_not_by(u);
    assert forall|i: int| 0 <= i < d2.scores.len() implies (#[trigger] d2.scores[i]).username
        != u by {
        lemma_filter_elem(d.scores, p, i);
    };
    assert forall|i: int|
        0 <= i < d.scores.len() && (#[trigger] d.scores[i]).username == u implies !has_score(
        d2,
        d.scores[i].id,
    ) by {
        assert forall|k: int| 0 <= k < d2.scores.len() implies (#[trigger] d2.scores[k]).id
            != d.scores[i].id by {
            lemma_filter_elem(d.scores, p, k);
            let w = choose|w: int| 0 <= w < d.scores.len() && d.scores[w] == d2.scores[k];
            if d.scores[w].id == d.scores[i].id {
                if w < i {
                    assert(d.scores[w].id != d.scores[i].id);
                } else if i < w {
                    assert(d.scores[i].id != d.scores[w].id);
                } else {
                    assert(!p(d.scores[w]));
                }
            }
        };
    };
}

} // verus!
