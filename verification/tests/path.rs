use connect_pairs::blocking::{Blocking, ConnectionData};
use connect_pairs::engine::{ConnectOutcome, ConnectionEngine, InvalidConnectionAttempt};
use connect_pairs::geometry::{HitTime, Segment, Vector};
use connect_pairs::level::{GridPos, LevelData, PointId};
use connect_pairs::loader::parse_level;
use connect_pairs::pointer::{is_touching, touched_point};
use connect_pairs::win::{evaluate, WinStatus};

fn engine(win_count: usize, layouts: &[&str]) -> ConnectionEngine {
    let data = LevelData {
        name: String::from("test"),
        win_count,
        layouts: layouts.iter().map(|text| String::from(*text)).collect(),
    };
    ConnectionEngine::new(parse_level(&data).unwrap())
}

fn id(layout_index: usize, point_index: usize) -> PointId {
    PointId { layout_index, point_index }
}

fn v(x: i64, y: i64) -> Vector {
    Vector { x, y }
}

const CONNECTED: Result<ConnectOutcome, InvalidConnectionAttempt> =
    Ok(ConnectOutcome::Connected { switch_to: None });

#[test]
fn start_to_finish_directly_wins() {
    let mut e = engine(0, &["s1\n1f"]);
    assert_eq!(e.anchor(), id(0, 2));
    assert!(!e.is_won());
    assert_eq!(e.attempt_connect(Some(3)), CONNECTED);
    assert!(e.is_won());
    assert_eq!(evaluate(&e), WinStatus { won: true, connected_count: 1, win_threshold: 0 });
    assert_eq!(
        e.connections(),
        &vec![ConnectionData {
            layout_index: 0,
            from_point_index: 2,
            to_point_index: 3,
            segment: Segment { a: v(0, 0), b: v(256, 256) },
        }]
    );
}

#[test]
fn finish_is_refused_until_enough_connections_are_made() {
    let mut e = engine(1, &["s1\n1f"]);
    assert_eq!(
        e.attempt_connect(Some(3)),
        Err(InvalidConnectionAttempt::InsufficientConnections)
    );
    assert_eq!(e.connections().len(), 0);
    assert!(!e.is_won());
    assert_eq!(evaluate(&e), WinStatus { won: false, connected_count: 0, win_threshold: 1 });
    assert_eq!(e.attempt_connect(Some(0)), CONNECTED);
    assert_eq!(e.anchor(), id(0, 1));
    assert!(!e.is_won());
    assert_eq!(evaluate(&e), WinStatus { won: false, connected_count: 1, win_threshold: 1 });
    assert_eq!(e.attempt_connect(Some(3)), CONNECTED);
    assert_eq!(e.connections().len(), 2);
    assert!(e.is_won());
    assert_eq!(evaluate(&e), WinStatus { won: true, connected_count: 2, win_threshold: 1 });
}

#[test]
fn obstacle_between_start_and_finish_blocks() {
    let mut e = engine(0, &["s.1\n.z.\n1.f"]);
    let finish = e.level_data().layouts_data()[0].finish_point_index.unwrap();
    assert_eq!(
        e.attempt_connect(Some(finish)),
        Err(InvalidConnectionAttempt::PathBlocked(Blocking {
            time: HitTime { ticks: 21182 },
            point: v(165, 165),
        }))
    );
    assert_eq!(e.connections().len(), 0);
    assert!(!e.is_won());
}

#[test]
fn obstacle_in_the_third_row_blocks_the_way_down() {
    let mut e = engine(0, &["s\nz\nf"]);
    assert_eq!(
        e.attempt_connect(Some(1)),
        Err(InvalidConnectionAttempt::PathBlocked(Blocking {
            time: HitTime { ticks: 16384 },
            point: v(0, 128),
        }))
    );
    assert_eq!(e.connections().len(), 0);
}

#[test]
fn no_target_does_nothing() {
    let mut e = engine(0, &["s1\n1f"]);
    assert_eq!(e.attempt_connect(None), Ok(ConnectOutcome::NoTarget));
    assert_eq!(e.connections().len(), 0);
    assert_eq!(e.anchor(), id(0, 2));
}

#[test]
fn the_anchor_and_used_points_are_occupied() {
    let mut e = engine(0, &[".2.\ns.1\n.12"]);
    assert_eq!(e.anchor(), id(0, 4));
    assert!(e.uses(id(0, 4)));
    assert!(!e.uses(id(0, 1)));
    assert_eq!(e.attempt_connect(Some(4)), Err(InvalidConnectionAttempt::TargetOccupied));
    assert_eq!(e.attempt_connect(Some(1)), CONNECTED);
    assert_eq!(e.anchor(), id(0, 2));
    assert!(e.uses(id(0, 4)));
    assert!(e.uses(id(0, 1)));
    assert!(e.uses(id(0, 2)));
    assert!(!e.uses(id(0, 0)));
    assert!(!e.uses(id(1, 1)));
    for used in [4, 1, 2] {
        assert_eq!(e.attempt_connect(Some(used)), Err(InvalidConnectionAttempt::TargetOccupied));
    }
    assert_eq!(e.connections().len(), 1);
}

#[test]
fn an_earlier_connection_blocks() {
    let mut e = engine(0, &[".2.\ns.1\n.12"]);
    assert_eq!(e.attempt_connect(Some(1)), CONNECTED);
    assert_eq!(
        e.attempt_connect(Some(0)),
        Err(InvalidConnectionAttempt::PathBlocked(Blocking {
            time: HitTime { ticks: 32768 },
            point: v(256, 256),
        }))
    );
    assert_eq!(e.connections().len(), 1);
    assert_eq!(e.attempt_connect(Some(3)), CONNECTED);
    assert_eq!(e.anchor(), id(0, 0));
    assert_eq!(e.connections().len(), 2);
    assert_eq!(e.connections()[1].segment, Segment { a: v(256, 512), b: v(512, 512) });
}

#[test]
fn a_point_without_partner_leaves_the_anchor_on_itself() {
    let mut e = engine(0, &["sf"]);
    assert_eq!(e.attempt_connect(Some(1)), CONNECTED);
    assert_eq!(e.anchor(), id(0, 1));
    assert!(e.is_won());
    assert_eq!(e.attempt_connect(Some(0)), Err(InvalidConnectionAttempt::TargetOccupied));
}

#[test]
fn reaching_a_partner_in_another_layout_switches() {
    let mut e = engine(1, &["s1", "1f"]);
    assert_eq!(e.active_layout(), 0);
    assert_eq!(
        e.attempt_connect(Some(0)),
        Ok(ConnectOutcome::Connected { switch_to: Some(1) })
    );
    assert_eq!(e.active_layout(), 1);
    assert_eq!(e.anchor(), id(1, 0));
    assert_eq!(e.attempt_connect(Some(1)), CONNECTED);
    assert!(evaluate(&e).won);
    assert_eq!(e.connections()[1].layout_index, 1);
}

#[test]
fn connections_of_another_layout_do_not_block() {
    // the connection of layout 0 runs along the top row, from the first
    // column; the next one, in layout 1, begins at the same place
    let mut e = engine(0, &["s1\n..", "12\n2f"]);
    assert_eq!(
        e.attempt_connect(Some(0)),
        Ok(ConnectOutcome::Connected { switch_to: Some(1) })
    );
    assert_eq!(e.anchor(), id(1, 0));
    assert_eq!(e.preview(v(0, 256)), None);
    assert_eq!(e.attempt_connect(Some(2)), CONNECTED);
    assert_eq!(e.anchor(), id(1, 1));
    // the connection of layout 1 runs down the first column and blocks the
    // way from the second column to the left
    assert_eq!(
        e.preview(v(-256, 256)),
        Some(Blocking { time: HitTime { ticks: 32768 }, point: v(0, 128) })
    );
    assert_eq!(e.attempt_connect(Some(3)), CONNECTED);
    assert!(e.is_won());
}

#[test]
fn undo_cuts_the_path_and_moves_the_anchor() {
    let mut e = engine(0, &[".2.\ns.1\n.12"]);
    assert_eq!(e.attempt_connect(Some(1)), CONNECTED);
    assert_eq!(e.attempt_connect(Some(3)), CONNECTED);
    assert_eq!(e.connections().len(), 2);
    assert_eq!(e.undo_to(5), None);
    assert_eq!(e.connections().len(), 2);
    assert_eq!(e.undo_to(2), None);
    assert_eq!(e.connections().len(), 2);
    assert_eq!(e.undo_to(1), None);
    assert_eq!(e.connections().len(), 1);
    assert_eq!(e.anchor(), e.level_data().exit(id(0, 1)));
    assert_eq!(e.anchor(), id(0, 2));
    assert_eq!(e.undo_to(0), None);
    assert_eq!(e.connections().len(), 0);
    assert_eq!(e.anchor(), e.level_data().start());
    assert_eq!(e.attempt_connect(Some(1)), CONNECTED);
}

#[test]
fn undo_names_the_layout_it_returns_to() {
    let mut e = engine(1, &["s1", "1f"]);
    assert_eq!(
        e.attempt_connect(Some(0)),
        Ok(ConnectOutcome::Connected { switch_to: Some(1) })
    );
    assert_eq!(e.attempt_connect(Some(1)), CONNECTED);
    assert_eq!(e.undo_to(1), None);
    assert_eq!(e.active_layout(), 1);
    assert!(!e.is_won());
    assert_eq!(e.undo_to(0), Some(0));
    assert_eq!(e.active_layout(), 0);
    assert_eq!(e.anchor(), id(0, 1));
}

#[test]
fn a_point_is_touched_within_a_quarter_of_a_cell() {
    let cell = GridPos { x: 2, y: 1 };
    assert!(is_touching(v(512, 256), cell));
    assert!(is_touching(v(512 + 63, 256), cell));
    assert!(!is_touching(v(512 + 64, 256), cell));
    assert!(is_touching(v(512 - 45, 256 + 45), cell));
    assert!(!is_touching(v(512 - 46, 256 + 45), cell));
    assert!(!is_touching(v(i64::MAX, i64::MIN), cell));
    assert!(!is_touching(v(i64::MIN, 256), cell));
}

#[test]
fn the_pointer_finds_the_point_under_it() {
    let e = engine(0, &["s1\n1f"]);
    assert_eq!(e.point_at(v(0, 0)), Some(2));
    assert_eq!(e.point_at(v(250, 10)), Some(0));
    assert_eq!(e.point_at(v(10, 250)), Some(1));
    assert_eq!(e.point_at(v(256, 256)), Some(3));
    assert_eq!(e.point_at(v(128, 128)), None);
    let points = &e.level_data().layouts_data()[0].points_data;
    assert_eq!(touched_point(points, v(256, 200)), Some(3));
    assert_eq!(touched_point(points, v(256, 192)), None);
}

#[test]
fn a_press_picks_the_connection_to_take_back() {
    let mut e = engine(0, &[".2.\ns.1\n.12"]);
    assert_eq!(e.connection_at(v(0, 256)), None);
    assert_eq!(e.attempt_connect(Some(1)), CONNECTED);
    assert_eq!(e.attempt_connect(Some(3)), CONNECTED);
    // the start, where the first connection begins
    assert_eq!(e.connection_at(v(0, 256)), Some(0));
    // the partner of the first connection's end, where the second begins
    assert_eq!(e.connection_at(v(256, 512)), Some(0));
    // the partner of the second connection's end: the anchor
    assert_eq!(e.connection_at(v(256, 0)), Some(1));
    // the ends themselves are not picked
    assert_eq!(e.connection_at(v(512, 256)), None);
    assert_eq!(e.connection_at(v(512, 512)), None);
}

#[test]
fn a_press_picks_only_in_the_layout_shown() {
    let mut e = engine(0, &["s1", "1f"]);
    assert_eq!(
        e.attempt_connect(Some(0)),
        Ok(ConnectOutcome::Connected { switch_to: Some(1) })
    );
    // the start of layout 0 is at the same place as the anchor of layout 1
    assert_eq!(e.connection_at(v(0, 0)), Some(0));
    assert_eq!(e.attempt_connect(Some(1)), CONNECTED);
    assert_eq!(e.connection_at(v(256, 0)), None);
    assert_eq!(e.connection_at(v(0, 0)), Some(0));
}

#[test]
fn the_preview_stops_at_the_nearest_obstacle() {
    let e = engine(0, &["s.z.z\n1...1"]);
    assert_eq!(
        e.preview(v(1280, 0)),
        Some(Blocking { time: HitTime { ticks: 19660 }, point: v(383, 0) })
    );
    assert_eq!(e.preview(v(300, 0)), None);
    assert_eq!(e.preview(v(1280, 1024)), None);
    assert_eq!(e.preview(v(-1280, 0)), None);
    assert_eq!(e.preview(v(0, 0)), None);
}

#[test]
fn the_preview_stops_at_an_earlier_connection() {
    let mut e = engine(0, &[".2.\ns.1\n.12"]);
    assert_eq!(e.attempt_connect(Some(1)), CONNECTED);
    assert_eq!(
        e.preview(v(256, -512)),
        Some(Blocking { time: HitTime { ticks: 16384 }, point: v(256, 256) })
    );
    assert_eq!(e.preview(v(700, 300)), None);
}

#[test]
fn reaching_the_finish_with_too_few_connections_is_impossible_so_winning_needs_the_count() {
    let mut e = engine(3, &["s1\n1f"]);
    assert_eq!(e.attempt_connect(Some(0)), CONNECTED);
    assert_eq!(
        e.attempt_connect(Some(3)),
        Err(InvalidConnectionAttempt::InsufficientConnections)
    );
    assert_eq!(evaluate(&e), WinStatus { won: false, connected_count: 1, win_threshold: 3 });
}

#[test]
fn the_segments_shown_are_those_of_the_layout_played() {
    let mut e = engine(0, &["s1\n..", "12\n2f"]);
    assert_eq!(e.shown_segments(), Vec::<Segment>::new());
    assert_eq!(
        e.attempt_connect(Some(0)),
        Ok(ConnectOutcome::Connected { switch_to: Some(1) })
    );
    assert_eq!(e.shown_segments(), Vec::<Segment>::new());
    assert_eq!(e.attempt_connect(Some(2)), CONNECTED);
    assert_eq!(e.attempt_connect(Some(3)), CONNECTED);
    assert_eq!(
        e.shown_segments(),
        vec![
            Segment { a: v(0, 0), b: v(0, 256) },
            Segment { a: v(256, 0), b: v(256, 256) },
        ]
    );
    assert_eq!(e.undo_to(0), Some(0));
    assert_eq!(e.shown_segments(), Vec::<Segment>::new());
    assert_eq!(e.attempt_connect(Some(0)), Ok(ConnectOutcome::Connected { switch_to: Some(1) }));
    assert_eq!(e.undo_to(1), None);
    assert_eq!(e.active_layout(), 1);
}
