use nearby::model::{update, Action, Model, Msg};
use nearby::position::{Coord, CurrentPos};

fn coord(lati: i64, longi: i64) -> Coord {
    Coord { lati, longi }
}

#[test]
fn start_tracking_emits_watch_only() {
    let mut m = Model::init();
    let acts = update(Msg::StartGeoTracking, &mut m);
    assert_eq!(acts.len(), 1);
    assert!(matches!(acts[0], Action::WatchPosition));
    assert!(m.name.is_none());
    assert!(m.curr_pos.is_none());
    assert!(m.other_pos.is_empty());
    assert!(m.markers.is_empty());
}

#[test]
fn position_before_name_is_ignored() {
    let mut m = Model::init();
    for k in 0..5i64 {
        let acts = update(Msg::NewPos(coord(1_000_000 * k, 2_000_000 * k)), &mut m);
        assert!(acts.is_empty());
        assert!(m.curr_pos.is_none());
    }
    assert!(m.name.is_none());
}

#[test]
fn first_fix_records_position_and_starts_polling() {
    let mut m = Model::init();
    let acts = update(Msg::NewName(String::from("Ana")), &mut m);
    assert!(acts.is_empty());
    let acts = update(Msg::NewPos(coord(10_000_000, 20_000_000)), &mut m);
    let cur = m.curr_pos.as_ref().expect("current position");
    assert_eq!(cur.lati, 10_000_000);
    assert_eq!(cur.longi, 20_000_000);
    assert_eq!(cur.name, "Ana");
    assert_eq!(acts.len(), 3);
    match &acts[0] {
        Action::SetMapCenter(c) => {
            assert_eq!(c.lati, 10_000_000);
            assert_eq!(c.longi, 20_000_000);
        }
        other => panic!("expected SetMapCenter, got {:?}", action_name(other)),
    }
    match &acts[1] {
        Action::SetMapZoom(z) => assert_eq!(*z, 18),
        other => panic!("expected SetMapZoom, got {:?}", action_name(other)),
    }
    match &acts[2] {
        Action::ScheduleSync { delay_ms, pos } => {
            assert_eq!(*delay_ms, 0);
            assert_eq!(pos.lati, 10_000_000);
            assert_eq!(pos.longi, 20_000_000);
            assert_eq!(pos.name, "Ana");
        }
        other => panic!("expected ScheduleSync, got {:?}", action_name(other)),
    }
}

#[test]
fn sync_request_body_for_ana() {
    let mut m = Model::init();
    update(Msg::NewName(String::from("Ana")), &mut m);
    let acts = update(Msg::NewPos(coord(10_000_000, 20_000_000)), &mut m);
    let pos = match &acts[2] {
        Action::ScheduleSync { pos, .. } => pos,
        other => panic!("expected ScheduleSync, got {:?}", action_name(other)),
    };
    let body = nearby::wire::encode_position(pos);
    assert_eq!(body, "{\"lati\":10.0,\"longi\":20.0,\"name\":\"Ana\"}");
}

#[test]
fn later_fixes_do_not_recenter() {
    let mut m = Model::init();
    update(Msg::NewName(String::from("Ana")), &mut m);
    update(Msg::NewPos(coord(1_000_000, 1_000_000)), &mut m);
    let acts = update(Msg::NewPos(coord(3_000_000, 4_000_000)), &mut m);
    assert!(acts.is_empty());
    let cur = m.curr_pos.as_ref().unwrap();
    assert_eq!(cur.lati, 3_000_000);
    assert_eq!(cur.longi, 4_000_000);
}

#[test]
fn rename_updates_position_in_place() {
    let mut m = Model::init();
    update(Msg::NewName(String::from("Ana")), &mut m);
    update(Msg::NewPos(coord(10_000_000, 20_000_000)), &mut m);
    let acts = update(Msg::NewName(String::from("Bo")), &mut m);
    assert!(acts.is_empty());
    let cur = m.curr_pos.as_ref().unwrap();
    assert_eq!(cur.lati, 10_000_000);
    assert_eq!(cur.longi, 20_000_000);
    assert_eq!(cur.name, "Bo");
    assert_eq!(m.name.as_deref(), Some("Bo"));
}

#[test]
fn no_sync_before_first_fix() {
    let mut m = Model::init();
    let mut all = Vec::new();
    all.extend(update(Msg::StartGeoTracking, &mut m));
    all.extend(update(Msg::NewName(String::from("Ana")), &mut m));
    all.extend(update(Msg::PosErr(String::from("denied")), &mut m));
    for a in &all {
        assert!(!matches!(a, Action::ScheduleSync { .. }));
    }
    assert!(m.curr_pos.is_none());
}

#[test]
fn failed_sync_schedules_no_follow_up() {
    let mut m = Model::init();
    update(Msg::NewName(String::from("Ana")), &mut m);
    update(Msg::NewPos(coord(10_000_000, 20_000_000)), &mut m);
    let acts = update(Msg::DataFetched(Err(String::from("http 500"))), &mut m);
    assert!(acts.is_empty());
    assert!(m.other_pos.is_empty());
    assert!(m.markers.is_empty());
}

#[test]
fn successful_sync_rebuilds_markers() {
    let mut m = Model::init();
    update(Msg::NewName(String::from("Ana")), &mut m);
    update(Msg::NewPos(coord(10_000_000, 20_000_000)), &mut m);

    let roster1 = vec![
        CurrentPos { lati: 1_000_000, longi: 2_000_000, name: String::from("Bob") },
        CurrentPos { lati: 3_000_000, longi: 4_000_000, name: String::from("Cid") },
    ];
    let acts = update(Msg::DataFetched(Ok(roster1)), &mut m);
    assert_eq!(m.markers.len(), 2);
    assert_eq!(m.other_pos.len(), 2);
    match &acts[0] {
        Action::ScheduleSync { delay_ms, pos } => {
            assert_eq!(*delay_ms, 1000);
            assert_eq!(pos.name, "Ana");
        }
        other => panic!("expected ScheduleSync, got {:?}", action_name(other)),
    }
    let placed: Vec<u64> = acts
        .iter()
        .filter_map(|a| match a {
            Action::SetMarker { id, .. } => Some(*id),
            _ => None,
        })
        .collect();
    assert_eq!(placed, m.markers);

    let old_markers = m.markers.clone();
    let roster2 = vec![CurrentPos { lati: 5_000_000, longi: 6_000_000, name: String::from("Di") }];
    let acts = update(Msg::DataFetched(Ok(roster2)), &mut m);
    assert_eq!(m.markers.len(), 1);
    for h in &old_markers {
        let removed = acts
            .iter()
            .filter(|a| matches!(a, Action::RemoveMarker(id) if id == h))
            .count();
        assert_eq!(removed, 1, "marker {} must be removed exactly once", h);
    }
    let placed: Vec<&CurrentPos> = acts
        .iter()
        .filter_map(|a| match a {
            Action::SetMarker { pos, .. } => Some(pos),
            _ => None,
        })
        .collect();
    assert_eq!(placed.len(), 1);
    assert_eq!(placed[0].name, "Di");
}

#[test]
fn sync_response_scenario_for_bob() {
    let mut m = Model::init();
    update(Msg::NewName(String::from("Ana")), &mut m);
    update(Msg::NewPos(coord(10_000_000, 20_000_000)), &mut m);
    let roster = nearby::wire::parse_roster("[{\"lati\":1,\"longi\":2,\"name\":\"Bob\"}]")
        .expect("valid response");
    let acts = update(Msg::DataFetched(Ok(roster)), &mut m);
    assert_eq!(m.other_pos.len(), 1);
    assert_eq!(m.other_pos[0].name, "Bob");
    assert_eq!(m.markers.len(), 1);
    let placed: Vec<&CurrentPos> = acts
        .iter()
        .filter_map(|a| match a {
            Action::SetMarker { pos, .. } => Some(pos),
            _ => None,
        })
        .collect();
    assert_eq!(placed.len(), 1);
    assert_eq!(placed[0].lati, 1_000_000);
    assert_eq!(placed[0].longi, 2_000_000);
    assert_eq!(placed[0].name, "Bob");
}

#[test]
fn geolocation_error_is_stored() {
    let mut m = Model::init();
    let acts = update(Msg::PosErr(String::from("permission denied")), &mut m);
    assert!(acts.is_empty());
    assert_eq!(m.err_msg.as_deref(), Some("permission denied"));
}

fn action_name(a: &Action) -> &'static str {
    match a {
        Action::WatchPosition => "WatchPosition",
        Action::SetMapCenter(_) => "SetMapCenter",
        Action::SetMapZoom(_) => "SetMapZoom",
        Action::RemoveMarker(_) => "RemoveMarker",
        Action::SetMarker { .. } => "SetMarker",
        Action::ScheduleSync { .. } => "ScheduleSync",
    }
}
