//! The application state machine.
//!
//! `Model` owns the display name, the current position, the roster of other
//! users' positions, and the ids of the markers currently placed on the map.
//! `update` consumes one message and returns the list of `Action`s the host
//! event loop must perform: subscribe the geolocation watch, move the map,
//! place or remove markers, or schedule the next sync request.  The machine
//! itself performs no I/O.
//!
//! Sync protocol: the first position fix (after a display name exists)
//! schedules an immediate sync; every successful sync response replaces the
//! roster, rebuilds all markers, and schedules the next sync after
//! `SYNC_DELAY_MS`.  A failed sync schedules nothing, so the polling chain
//! halts on failure: a deliberate, documented liveness gap.  The map is
//! recentred and zoomed only on the first fix, never on later ones.

use vstd::prelude::*;

use crate::position::{Coord, CoordIdea, CurrentPos, PosIdea};

verus! {

/// Delay between a sync response and the next sync request.
pub const SYNC_DELAY_MS: u32 = 1000;

/// Zoom level applied when the map is first centred on the user.
pub const MAP_ZOOM: u32 = 18;

/// A message consumed by the state machine.
pub enum Msg {
    /// Ask for the geolocation watch to be started.
    StartGeoTracking,
    /// A geolocation fix arrived.
    NewPos(Coord),
    /// A sync round finished: the roster on success, an error text otherwise.
    DataFetched(Result<Vec<CurrentPos>, String>),
    /// The user typed a display name.
    NewName(String),
    /// The geolocation watch reported an error.
    PosErr(String),
}

/// Mathematical image of a `Msg`.
#[verifier::ext_equal]
pub ghost enum MsgIdea {
    StartGeoTracking,
    NewPos(CoordIdea),
    DataFetched(Result<Seq<PosIdea>, Seq<char>>),
    NewName(Seq<char>),
    PosErr(Seq<char>),
}

impl DeepView for Msg {
    type V = MsgIdea;

    open spec fn deep_view(&self) -> MsgIdea {
        match self {
            Msg::StartGeoTracking => MsgIdea::StartGeoTracking,
            Msg::NewPos(c) => MsgIdea::NewPos(c@),
            Msg::DataFetched(r) => MsgIdea::DataFetched(
                match r {
                    Ok(v) => Ok(v.deep_view()),
                    Err(e) => Err(e@),
                },
            ),
            Msg::NewName(n) => MsgIdea::NewName(n@),
            Msg::PosErr(e) => MsgIdea::PosErr(e@),
        }
    }
}

/// A side effect the host event loop must perform.
pub enum Action {
    /// Register the continuous geolocation watch.
    WatchPosition,
    /// Recenter the map widget on a coordinate.
    SetMapCenter(Coord),
    /// Set the map widget zoom level.
    SetMapZoom(u32),
    /// Remove the marker with this id from the map.
    RemoveMarker(u64),
    /// Place a marker with this id at `pos`, labelled with its name.
    SetMarker { id: u64, pos: CurrentPos },
    /// Send `pos` to the sync endpoint after `delay_ms` milliseconds and
    /// feed the outcome back as `Msg::DataFetched`.
    ScheduleSync { delay_ms: u32, pos: CurrentPos },
}

/// Mathematical image of an `Action`.
#[verifier::ext_equal]
pub ghost enum ActIdea {
    WatchPosition,
    SetMapCenter(CoordIdea),
    SetMapZoom(u32),
    RemoveMarker(u64),
    SetMarker { id: u64, pos: PosIdea },
    ScheduleSync { delay_ms: u32, pos: PosIdea },
}

impl DeepView for Action {
    type V = ActIdea;

    open spec fn deep_view(&self) -> ActIdea {
        match self {
            Action::WatchPosition => ActIdea::WatchPosition,
            Action::SetMapCenter(c) => ActIdea::SetMapCenter(c@),
            Action::SetMapZoom(z) => ActIdea::SetMapZoom(*z),
            Action::RemoveMarker(h) => ActIdea::RemoveMarker(*h),
            Action::SetMarker { id, pos } => ActIdea::SetMarker { id: *id, pos: pos@ },
            Action::ScheduleSync { delay_ms, pos } => ActIdea::ScheduleSync {
                delay_ms: *delay_ms,
                pos: pos@,
            },
        }
    }
}

/// The application state.
pub struct Model {
    /// Display name, once the user set one.
    pub name: Option<String>,
    /// Most recent own position; absent until a name exists and a fix arrived.
    pub curr_pos: Option<CurrentPos>,
    /// Roster: other users' positions from the last successful sync.
    pub other_pos: Vec<CurrentPos>,
    /// Ids of the markers currently placed, in placement order.
    pub markers: Vec<u64>,
    /// Last geolocation error, for display.
    pub err_msg: Option<String>,
    /// Next fresh marker id.
    pub next_marker: u64,
}

/// Mathematical image of a `Model`.
#[verifier::ext_equal]
pub ghost struct ModelIdea {
    pub name: Option<Seq<char>>,
    pub curr_pos: Option<PosIdea>,
    pub other_pos: Seq<PosIdea>,
    pub markers: Seq<u64>,
    pub err_msg: Option<Seq<char>>,
    pub next_marker: u64,
}

impl View for Model {
    type V = ModelIdea;

    open spec fn view(&self) -> ModelIdea {
        ModelIdea {
            name: self.name.deep_view(),
            curr_pos: self.curr_pos.deep_view(),
            other_pos: self.other_pos.deep_view(),
            markers: self.markers@,
            err_msg: self.err_msg.deep_view(),
            next_marker: self.next_marker,
        }
    }
}

/// The state the application starts in: everything empty.
pub open spec fn init_idea() -> ModelIdea {
    ModelIdea {
        name: None,
        curr_pos: None,
        other_pos: Seq::empty(),
        markers: Seq::empty(),
        err_msg: None,
        next_marker: 0,
    }
}

impl ModelIdea {
    /// Internal consistency: a current position exists only once a name is
    /// set and then carries that name; marker ids are distinct and below the
    /// next fresh id; all stored coordinates are in range.
    pub open spec fn wf(self) -> bool {
        &&& (self.curr_pos matches Some(p) ==> self.name matches Some(n) && p.name == n
            && p.wf())
        &&& (forall|j: int, k: int|
            #![trigger self.markers[j], self.markers[k]]
            0 <= j < k < self.markers.len() ==> self.markers[j] != self.markers[k])
        &&& (forall|j: int|
            0 <= j < self.markers.len() ==> #[trigger] self.markers[j] < self.next_marker)
        &&& (forall|k: int| 0 <= k < self.other_pos.len() ==> (#[trigger] self.other_pos[k]).wf())
    }
}

/// Marker ids `next`, `next + 1`, ... `next + n - 1`.
pub open spec fn new_ids(next: u64, n: nat) -> Seq<u64> {
    Seq::new(n, |k: int| (next + k) as u64)
}

/// Removal actions for the given markers, last placed first (the rebuild
/// pops the marker list).
pub open spec fn remove_actions(markers: Seq<u64>) -> Seq<ActIdea>
    decreases markers.len(),
{
    if markers.len() == 0 {
        Seq::empty()
    } else {
        seq![ActIdea::RemoveMarker(markers.last())] + remove_actions(markers.drop_last())
    }
}

/// Placement actions for the roster, ids counting up from `next`.
pub open spec fn set_actions(roster: Seq<PosIdea>, next: u64) -> Seq<ActIdea>
    decreases roster.len(),
{
    if roster.len() == 0 {
        Seq::empty()
    } else {
        seq![ActIdea::SetMarker { id: next, pos: roster.first() }] + set_actions(
            roster.drop_first(),
            (next + 1) as u64,
        )
    }
}

/// What `update` may be called with: a successful sync needs a current
/// position to exist (the machine only starts syncing after one) and enough
/// fresh marker ids; a fix and the roster entries must be in range.
pub open spec fn step_ok(s: ModelIdea, m: MsgIdea) -> bool {
    match m {
        MsgIdea::NewPos(c) => c.wf(),
        MsgIdea::DataFetched(res) => match res {
            Ok(roster) => {
                &&& s.curr_pos is Some
                &&& s.next_marker + roster.len() <= u64::MAX
                &&& forall|k: int| 0 <= k < roster.len() ==> (#[trigger] roster[k]).wf()
            },
            Err(_) => true,
        },
        _ => true,
    }
}

/// The state after one message.  On messages `step_ok` rules out (a
/// successful sync with no current position) the state is left unchanged.
pub open spec fn step(s: ModelIdea, m: MsgIdea) -> ModelIdea {
    match m {
        MsgIdea::StartGeoTracking => s,
        MsgIdea::NewPos(c) => match s.name {
            Some(n) => ModelIdea {
                curr_pos: Some(PosIdea { lati: c.lati, longi: c.longi, name: n }),
                ..s
            },
            None => s,
        },
        MsgIdea::DataFetched(res) => match res {
            Ok(roster) => if s.curr_pos is Some {
                ModelIdea {
                    other_pos: roster,
                    markers: new_ids(s.next_marker, roster.len()),
                    next_marker: (s.next_marker + roster.len()) as u64,
                    ..s
                }
            } else {
                s
            },
            Err(_) => s,
        },
        MsgIdea::NewName(n) => ModelIdea {
            name: Some(n),
            curr_pos: match s.curr_pos {
                Some(p) => Some(PosIdea { name: n, ..p }),
                None => None,
            },
            ..s
        },
        MsgIdea::PosErr(e) => ModelIdea { err_msg: Some(e), ..s },
    }
}

/// The actions emitted for one message.
pub open spec fn step_actions(s: ModelIdea, m: MsgIdea) -> Seq<ActIdea> {
    match m {
        MsgIdea::StartGeoTracking => seq![ActIdea::WatchPosition],
        MsgIdea::NewPos(c) => match s.name {
            Some(n) => if s.curr_pos is None {
                seq![
                    ActIdea::SetMapCenter(c),
                    ActIdea::SetMapZoom(MAP_ZOOM),
                    ActIdea::ScheduleSync {
                        delay_ms: 0,
                        pos: PosIdea { lati: c.lati, longi: c.longi, name: n },
                    },
                ]
            } else {
                Seq::empty()
            },
            None => Seq::empty(),
        },
        MsgIdea::DataFetched(res) => match res {
            Ok(roster) => match s.curr_pos {
                Some(my) => seq![ActIdea::ScheduleSync { delay_ms: SYNC_DELAY_MS, pos: my }]
                    + remove_actions(s.markers) + set_actions(roster, s.next_marker),
                None => Seq::empty(),
            },
            Err(_) => Seq::empty(),
        },
        MsgIdea::NewName(_) => Seq::empty(),
        MsgIdea::PosErr(_) => Seq::empty(),
    }
}

/// A step from a well-formed state on an admissible message stays well
/// formed.
pub proof fn lemma_step_preserves_wf(s: ModelIdea, m: MsgIdea)
    requires
        s.wf(),
        step_ok(s, m),
    ensures
        step(s, m).wf(),
{
    match m {
        MsgIdea::DataFetched(res) => match res {
            Ok(roster) => {
                let t = step(s, m);
                assert(forall|j: int|
                    0 <= j < t.markers.len() ==> #[trigger] t.markers[j] == s.next_marker + j);
            },
            Err(_) => {},
        },
        _ => {},
    }
}

impl Model {
    /// The state the application starts in.
    pub fn init() -> (m: Model)
        ensures
            m@ == init_idea(),
            m@.wf(),
    {
        let m = Model {
            name: None,
            curr_pos: None,
            other_pos: Vec::new(),
            markers: Vec::new(),
            err_msg: None,
            next_marker: 0,
        };
        proof {
            assert(m@ =~= init_idea());
        }
        m
    }

    /// Rebuild the map markers for the current roster: remove every placed
    /// marker (last placed first), then place one fresh marker per roster
    /// entry.
    pub fn update_map(&mut self) -> (acts: Vec<Action>)
        requires
            old(self)@.next_marker + old(self)@.other_pos.len() <= u64::MAX,
        ensures
            final(self)@ == (ModelIdea {
                markers: new_ids(old(self)@.next_marker, old(self)@.other_pos.len()),
                next_marker: (old(self)@.next_marker + old(self)@.other_pos.len()) as u64,
                ..old(self)@
            }),
            acts.deep_view() == remove_actions(old(self)@.markers) + set_actions(
                old(self)@.other_pos,
                old(self)@.next_marker,
            ),
    {
        let ghost orig = self@;
        let mut acts: Vec<Action> = Vec::new();
        while self.markers.len() > 0
            invariant
                acts.deep_view() + remove_actions(self.markers@) == remove_actions(orig.markers),
                self.name == old(self).name,
                self.curr_pos == old(self).curr_pos,
                self.other_pos == old(self).other_pos,
                self.err_msg == old(self).err_msg,
                self.next_marker == old(self).next_marker,
            decreases self.markers@.len(),
        {
            let ghost before = self.markers@;
            let h = self.markers.pop().unwrap();
            acts.push(Action::RemoveMarker(h));
            proof {
                assert(remove_actions(before) == seq![ActIdea::RemoveMarker(h)] + remove_actions(
                    self.markers@,
                ));
                assert(acts.deep_view() + remove_actions(self.markers@) =~= remove_actions(
                    orig.markers,
                ));
            }
        }
        let ghost base = self.next_marker;
        let ghost removes = remove_actions(orig.markers);
        proof {
            assert(remove_actions(self.markers@) =~= Seq::<ActIdea>::empty());
            assert(acts.deep_view() =~= removes);
            assert(self.other_pos.deep_view().skip(0) =~= self.other_pos.deep_view());
            assert(self.markers@ =~= new_ids(base, 0));
        }
        let n = self.other_pos.len();
        let mut k: usize = 0;
        while k < n
            invariant
                k <= n,
                n == self.other_pos.len(),
                base + n <= u64::MAX,
                self.next_marker == base + k,
                self.markers@ =~= new_ids(base, k as nat),
                acts.deep_view() + set_actions(self.other_pos.deep_view().skip(k as int),
                    self.next_marker) == removes + set_actions(self.other_pos.deep_view(), base),
                self.name == old(self).name,
                self.curr_pos == old(self).curr_pos,
                self.other_pos == old(self).other_pos,
                self.err_msg == old(self).err_msg,
            decreases n - k,
        {
            let ghost ros = self.other_pos.deep_view();
            let id = self.next_marker;
            let pos = self.other_pos[k].clone();
            self.next_marker = id + 1;
            self.markers.push(id);
            acts.push(Action::SetMarker { id, pos });
            k = k + 1;
            proof {
                assert(ros.skip(k - 1).first() == ros[k - 1]);
                assert(ros.skip(k - 1).drop_first() =~= ros.skip(k as int));
                assert(set_actions(ros.skip(k - 1), id) == seq![
                    ActIdea::SetMarker { id, pos: ros[k - 1] },
                ] + set_actions(ros.skip(k as int), (id + 1) as u64));
                assert(acts.deep_view() + set_actions(ros.skip(k as int), self.next_marker)
                    =~= removes + set_actions(ros, base));
                assert(self.markers@ =~= new_ids(base, k as nat));
            }
        }
        proof {
            assert(self.other_pos.deep_view().skip(n as int) =~= Seq::<PosIdea>::empty());
            assert(acts.deep_view() =~= removes + set_actions(self.other_pos.deep_view(), base));
            assert(self@ =~= (ModelIdea {
                markers: new_ids(orig.next_marker, orig.other_pos.len()),
                next_marker: (orig.next_marker + orig.other_pos.len()) as u64,
                ..orig
            }));
        }
        acts
    }
}

/// Consume one message: mutate the state as `step` says and return exactly
/// the actions `step_actions` says.
pub fn update(msg: Msg, model: &mut Model) -> (acts: Vec<Action>)
    requires
        old(model)@.wf(),
        step_ok(old(model)@, msg.deep_view()),
    ensures
        final(model)@ == step(old(model)@, msg.deep_view()),
        acts.deep_view() == step_actions(old(model)@, msg.deep_view()),
        final(model)@.wf(),
{
    proof {
        lemma_step_preserves_wf(old(model)@, msg.deep_view());
    }
    let ghost s = model@;
    let ghost mi = msg.deep_view();
    match msg {
        Msg::StartGeoTracking => {
            let mut acts: Vec<Action> = Vec::new();
            acts.push(Action::WatchPosition);
            proof {
                assert(acts.deep_view() =~= step_actions(s, mi));
                assert(model@ =~= step(s, mi));
            }
            acts
        },
        Msg::NewPos(c) => {
            let mut acts: Vec<Action> = Vec::new();
            if model.name.is_some() {
                let name = model.name.as_ref().unwrap().clone();
                let was_empty = model.curr_pos.is_none();
                let pos = CurrentPos::new(c, name);
                model.curr_pos = Some(pos.clone());
                if was_empty {
                    acts.push(Action::SetMapCenter(c));
                    acts.push(Action::SetMapZoom(MAP_ZOOM));
                    acts.push(Action::ScheduleSync { delay_ms: 0, pos });
                }
            }
            proof {
                assert(acts.deep_view() =~= step_actions(s, mi));
                assert(model@ =~= step(s, mi));
            }
            acts
        },
        Msg::DataFetched(res) => match res {
            Ok(roster) => {
                let ghost ros = roster.deep_view();
                let my = model.curr_pos.as_ref().unwrap().clone();
                let ghost sync_act = ActIdea::ScheduleSync { delay_ms: SYNC_DELAY_MS, pos: my@ };
                let mut acts: Vec<Action> = Vec::new();
                acts.push(Action::ScheduleSync { delay_ms: SYNC_DELAY_MS, pos: my });
                proof {
                    assert(acts.deep_view() =~= seq![sync_act]);
                }
                model.other_pos = roster;
                let ghost mid = model@;
                let mut more = model.update_map();
                let ghost more_deep = more.deep_view();
                acts.append(&mut more);
                proof {
                    assert(mid.markers == s.markers);
                    assert(mid.next_marker == s.next_marker);
                    assert(mid.other_pos == ros);
                    assert(more_deep == remove_actions(s.markers) + set_actions(
                        ros,
                        s.next_marker,
                    ));
                    assert(acts.deep_view() =~= seq![sync_act] + (remove_actions(s.markers)
                        + set_actions(ros, s.next_marker)));
                    assert(step_actions(s, mi) == seq![sync_act] + remove_actions(s.markers)
                        + set_actions(ros, s.next_marker));
                    assert(seq![sync_act] + (remove_actions(s.markers) + set_actions(
                        ros,
                        s.next_marker,
                    )) =~= seq![sync_act] + remove_actions(s.markers) + set_actions(
                        ros,
                        s.next_marker,
                    ));
                    assert(model@ =~= step(s, mi));
                }
                acts
            },
            Err(_e) => {
                let acts: Vec<Action> = Vec::new();
                proof {
                    assert(acts.deep_view() =~= step_actions(s, mi));
                    assert(model@ =~= step(s, mi));
                }
                acts
            },
        },
        Msg::NewName(name) => {
            model.name = Some(name.clone());
            match &mut model.curr_pos {
                Some(cur) => {
                    cur.name = name;
                },
                None => {},
            }
            let acts: Vec<Action> = Vec::new();
            proof {
                assert(acts.deep_view() =~= step_actions(s, mi));
                assert(model@ =~= step(s, mi));
            }
            acts
        },
        Msg::PosErr(e) => {
            model.err_msg = Some(e);
            let acts: Vec<Action> = Vec::new();
            proof {
                assert(acts.deep_view() =~= step_actions(s, mi));
                assert(model@ =~= step(s, mi));
            }
            acts
        },
    }
}

} // verus!
