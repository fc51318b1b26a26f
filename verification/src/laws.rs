//! Properties of the state machine, stated over whole message sequences.
//!
//! `run` and `run_actions` fold `step` / `step_actions` over a sequence of
//! messages; the lemmas below are the guarantees the application relies on.

use vstd::prelude::*;

use crate::model::{
    remove_actions, set_actions, step, step_actions, step_ok, ActIdea, ModelIdea, MsgIdea, MAP_ZOOM,
};
use crate::position::PosIdea;

verus! {

/// The state after a whole sequence of messages.
pub open spec fn run(s: ModelIdea, msgs: Seq<MsgIdea>) -> ModelIdea
    decreases msgs.len(),
{
    if msgs.len() == 0 {
        s
    } else {
        run(step(s, msgs.first()), msgs.drop_first())
    }
}

/// All actions emitted over a whole sequence of messages, in order.
pub open spec fn run_actions(s: ModelIdea, msgs: Seq<MsgIdea>) -> Seq<ActIdea>
    decreases msgs.len(),
{
    if msgs.len() == 0 {
        Seq::empty()
    } else {
        step_actions(s, msgs.first()) + run_actions(step(s, msgs.first()), msgs.drop_first())
    }
}

/// Every message of the sequence is admissible in the state it meets.
pub open spec fn run_ok(s: ModelIdea, msgs: Seq<MsgIdea>) -> bool
    decreases msgs.len(),
{
    if msgs.len() == 0 {
        true
    } else {
        step_ok(s, msgs.first()) && run_ok(step(s, msgs.first()), msgs.drop_first())
    }
}

/// How often the actions remove the marker `h`.
pub open spec fn count_removes(acts: Seq<ActIdea>, h: u64) -> nat
    decreases acts.len(),
{
    if acts.len() == 0 {
        0
    } else {
        (if acts.first() == ActIdea::RemoveMarker(h) {
            1nat
        } else {
            0nat
        }) + count_removes(acts.drop_first(), h)
    }
}

/// How often `h` occurs among the marker ids.
pub open spec fn count_id(ids: Seq<u64>, h: u64) -> nat
    decreases ids.len(),
{
    if ids.len() == 0 {
        0
    } else {
        count_id(ids.drop_last(), h) + (if ids.last() == h {
            1nat
        } else {
            0nat
        })
    }
}

/// Well-formedness survives any admissible message sequence.
pub proof fn lemma_run_preserves_wf(s: ModelIdea, msgs: Seq<MsgIdea>)
    requires
        s.wf(),
        run_ok(s, msgs),
    ensures
        run(s, msgs).wf(),
    decreases msgs.len(),
{
    if msgs.len() > 0 {
        crate::model::lemma_step_preserves_wf(s, msgs.first());
        lemma_run_preserves_wf(step(s, msgs.first()), msgs.drop_first());
    }
}

/// However many position fixes arrive before a display name is set, no
/// current position is recorded (and no name appears by itself).
pub proof fn lemma_no_position_before_name(s: ModelIdea, msgs: Seq<MsgIdea>)
    requires
        s.name is None,
        s.curr_pos is None,
        forall|k: int| 0 <= k < msgs.len() ==> (#[trigger] msgs[k]) matches MsgIdea::NewPos(_),
    ensures
        run(s, msgs).curr_pos is None,
        run(s, msgs).name is None,
    decreases msgs.len(),
{
    if msgs.len() > 0 {
        assert(msgs[0] matches MsgIdea::NewPos(_));
        lemma_no_position_before_name(step(s, msgs.first()), msgs.drop_first());
    }
}

/// Once a display name is set, a position fix records a current position
/// carrying exactly that name and the fix's coordinate.
pub proof fn lemma_position_takes_display_name(s: ModelIdea, c: crate::position::CoordIdea)
    ensures
        s.name matches Some(n) ==> (step(s, MsgIdea::NewPos(c)).curr_pos matches Some(p)
            && p.name == n && p.lati == c.lati && p.longi == c.longi),
{
}

/// A name change after a current position exists renames that position in
/// place: the coordinate, the roster and the markers stay untouched, and no
/// action (in particular no sync) is emitted.
pub proof fn lemma_rename_keeps_coordinate(s: ModelIdea, n: Seq<char>)
    ensures
        s.curr_pos matches Some(p) ==> (step(s, MsgIdea::NewName(n)).curr_pos matches Some(q)
            && q.name == n && q.lati == p.lati && q.longi == p.longi),
        step(s, MsgIdea::NewName(n)).name == Some(n),
        step(s, MsgIdea::NewName(n)).other_pos == s.other_pos,
        step(s, MsgIdea::NewName(n)).markers == s.markers,
        step_actions(s, MsgIdea::NewName(n)) == Seq::<ActIdea>::empty(),
{
}

proof fn lemma_count_removes_add(a: Seq<ActIdea>, b: Seq<ActIdea>, h: u64)
    ensures
        count_removes(a + b, h) == count_removes(a, h) + count_removes(b, h),
    decreases a.len(),
{
    if a.len() == 0 {
        assert(a + b =~= b);
    } else {
        assert((a + b).drop_first() =~= a.drop_first() + b);
        lemma_count_removes_add(a.drop_first(), b, h);
    }
}

proof fn lemma_count_remove_actions(ids: Seq<u64>, h: u64)
    ensures
        count_removes(remove_actions(ids), h) == count_id(ids, h),
    decreases ids.len(),
{
    if ids.len() > 0 {
        let rest = remove_actions(ids.drop_last());
        assert(remove_actions(ids) == seq![ActIdea::RemoveMarker(ids.last())] + rest);
        assert((seq![ActIdea::RemoveMarker(ids.last())] + rest).drop_first() =~= rest);
        lemma_count_remove_actions(ids.drop_last(), h);
    }
}

proof fn lemma_count_set_actions(roster: Seq<PosIdea>, next: u64, h: u64)
    ensures
        count_removes(set_actions(roster, next), h) == 0,
    decreases roster.len(),
{
    if roster.len() > 0 {
        let head = seq![ActIdea::SetMarker { id: next, pos: roster.first() }];
        let rest = set_actions(roster.drop_first(), (next + 1) as u64);
        assert(set_actions(roster, next) == head + rest);
        assert((head + rest).drop_first() =~= rest);
        lemma_count_set_actions(roster.drop_first(), (next + 1) as u64, h);
    }
}

proof fn lemma_count_id_distinct(ids: Seq<u64>, h: u64)
    requires
        forall|j: int, k: int|
            #![trigger ids[j], ids[k]]
            0 <= j < k < ids.len() ==> ids[j] != ids[k],
    ensures
        ids.contains(h) ==> count_id(ids, h) == 1,
        !ids.contains(h) ==> count_id(ids, h) == 0,
    decreases ids.len(),
{
    if ids.len() > 0 {
        let front = ids.drop_last();
        assert(forall|j: int, k: int|
            #![trigger front[j], front[k]]
            0 <= j < k < front.len() ==> front[j] != front[k]);
        lemma_count_id_distinct(front, h);
        if ids.last() == h {
            assert(!front.contains(h)) by {
                if front.contains(h) {
                    let j = choose|j: int| 0 <= j < front.len() && front[j] == h;
                    assert(ids[j] == ids[ids.len() - 1]);
                }
            }
            assert(ids.contains(h)) by {
                assert(ids[ids.len() - 1] == h);
            }
        } else {
            if front.contains(h) {
                let j = choose|j: int| 0 <= j < front.len() && front[j] == h;
                assert(ids[j] == h);
            }
            if ids.contains(h) {
                let j = choose|j: int| 0 <= j < ids.len() && ids[j] == h;
                assert(front[j] == h);
            }
        }
    }
}

/// A successful sync leaves exactly one marker per roster entry, and every
/// marker placed before is removed exactly once (and nothing else is
/// removed).
pub proof fn lemma_sync_rebuilds_markers(s: ModelIdea, roster: Seq<PosIdea>)
    requires
        s.wf(),
        step_ok(s, MsgIdea::DataFetched(Ok(roster))),
    ensures
        step(s, MsgIdea::DataFetched(Ok(roster))).markers.len() == roster.len(),
        forall|h: u64|
            s.markers.contains(h) ==> #[trigger] count_removes(
                step_actions(s, MsgIdea::DataFetched(Ok(roster))),
                h,
            ) == 1,
        forall|h: u64|
            !s.markers.contains(h) ==> #[trigger] count_removes(
                step_actions(s, MsgIdea::DataFetched(Ok(roster))),
                h,
            ) == 0,
{
    let m = MsgIdea::DataFetched(Ok(roster));
    let my = s.curr_pos->Some_0;
    let head = seq![ActIdea::ScheduleSync { delay_ms: crate::model::SYNC_DELAY_MS, pos: my }];
    let removes = remove_actions(s.markers);
    let sets = set_actions(roster, s.next_marker);
    assert(step_actions(s, m) == head + removes + sets);
    assert forall|h: u64| true implies #[trigger] count_removes(step_actions(s, m), h)
        == count_id(s.markers, h) by {
        lemma_count_removes_add(head + removes, sets, h);
        lemma_count_removes_add(head, removes, h);
        assert(head.drop_first() =~= Seq::<ActIdea>::empty());
        assert(count_removes(Seq::<ActIdea>::empty(), h) == 0);
        assert(count_removes(head, h) == 0);
        lemma_count_remove_actions(s.markers, h);
        lemma_count_set_actions(roster, s.next_marker, h);
    }
    assert forall|h: u64| s.markers.contains(h) implies #[trigger] count_removes(
        step_actions(s, m),
        h,
    ) == 1 by {
        lemma_count_id_distinct(s.markers, h);
    }
    assert forall|h: u64| !s.markers.contains(h) implies #[trigger] count_removes(
        step_actions(s, m),
        h,
    ) == 0 by {
        lemma_count_id_distinct(s.markers, h);
    }
}

/// Before any position fix has been processed, no sync is ever scheduled:
/// from a state with no current position, a sequence without `NewPos`
/// messages emits no `ScheduleSync` action and records no position.
pub proof fn lemma_no_sync_before_first_fix(s: ModelIdea, msgs: Seq<MsgIdea>)
    requires
        s.curr_pos is None,
        forall|k: int| 0 <= k < msgs.len() ==> !((#[trigger] msgs[k]) matches MsgIdea::NewPos(_)),
    ensures
        run(s, msgs).curr_pos is None,
        forall|j: int|
            0 <= j < run_actions(s, msgs).len() ==> !((#[trigger] run_actions(s, msgs)[j])
                matches ActIdea::ScheduleSync { .. }),
    decreases msgs.len(),
{
    if msgs.len() > 0 {
        let first = msgs.first();
        let rest = msgs.drop_first();
        assert(msgs[0] == first);
        assert(step(s, first).curr_pos is None);
        assert(forall|j: int|
            0 <= j < step_actions(s, first).len() ==> !((#[trigger] step_actions(s, first)[j])
                matches ActIdea::ScheduleSync { .. }));
        lemma_no_sync_before_first_fix(step(s, first), rest);
        assert(forall|j: int|
            0 <= j < run_actions(s, msgs).len() ==> !((#[trigger] run_actions(s, msgs)[j])
                matches ActIdea::ScheduleSync { .. }));
    }
}

/// The first fix after a name is set centres the map, zooms, and schedules
/// the first sync at once (delay zero) with that name and coordinate.
pub proof fn lemma_first_fix_starts_polling(s: ModelIdea, c: crate::position::CoordIdea)
    requires
        s.curr_pos is None,
    ensures
        s.name matches Some(n) ==> step_actions(s, MsgIdea::NewPos(c)) == seq![
            ActIdea::SetMapCenter(c),
            ActIdea::SetMapZoom(MAP_ZOOM),
            ActIdea::ScheduleSync { delay_ms: 0, pos: PosIdea { lati: c.lati, longi: c.longi, name: n } },
        ],
{
}

/// A failed sync changes nothing and schedules nothing: the polling chain
/// halts until some other message starts it again.
pub proof fn lemma_failed_sync_schedules_nothing(s: ModelIdea, e: Seq<char>)
    ensures
        step(s, MsgIdea::DataFetched(Err(e))) == s,
        step_actions(s, MsgIdea::DataFetched(Err(e))) == Seq::<ActIdea>::empty(),
{
}

} // verus!
