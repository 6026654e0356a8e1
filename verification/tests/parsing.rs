use connect_pairs::level::{
    CellKind, GridPos, LevelAdditionalData, LevelData, PointId, PointType, OBSTACLE_RADIUS,
};
use connect_pairs::loader::parse_level;
use connect_pairs::pairing::{find_partner, resolve_pairs, Partner};
use connect_pairs::parser::{classify, parse_layout, ParseError, RawLayout};
use connect_pairs::text::chars_of;

fn level(win_count: usize, layouts: &[&str]) -> LevelData {
    LevelData {
        name: String::from("test"),
        win_count,
        layouts: layouts.iter().map(|text| String::from(*text)).collect(),
    }
}

fn read(win_count: usize, layouts: &[&str]) -> LevelAdditionalData {
    match parse_level(&level(win_count, layouts)) {
        Ok(level) => level,
        Err(e) => panic!("level not read: {:?}", e),
    }
}

fn raw(text: &str) -> RawLayout {
    match parse_layout(text) {
        Ok(raw) => raw,
        Err(e) => panic!("layout not read: {:?}", e),
    }
}

#[test]
fn chars_of_keeps_every_character_in_order() {
    assert_eq!(chars_of("s1\n2f"), vec!['s', '1', '\n', '2', 'f']);
    assert_eq!(chars_of(""), Vec::<char>::new());
    assert_eq!(chars_of("é z"), vec!['é', ' ', 'z']);
}

#[test]
fn classify_knows_the_alphabet() {
    assert_eq!(classify('s'), CellKind::Start);
    assert_eq!(classify('f'), CellKind::Finish);
    assert_eq!(classify('0'), CellKind::Paired);
    assert_eq!(classify('5'), CellKind::Paired);
    assert_eq!(classify('9'), CellKind::Paired);
    assert_eq!(classify('z'), CellKind::Obstacle);
    assert_eq!(classify('.'), CellKind::Empty);
    assert_eq!(classify('S'), CellKind::Empty);
    assert_eq!(classify('/'), CellKind::Empty);
    assert_eq!(classify(':'), CellKind::Empty);
}

#[test]
fn layout_cells_are_column_and_row() {
    let raw = raw("s1\n2f");
    assert_eq!(raw.width, 2);
    assert_eq!(raw.height, 2);
    assert_eq!(raw.start, Some(GridPos { x: 0, y: 0 }));
    assert_eq!(raw.finish, Some(GridPos { x: 1, y: 1 }));
    assert_eq!(raw.commons.len(), 2);
    assert_eq!(raw.commons[0].position, GridPos { x: 1, y: 0 });
    assert_eq!(raw.commons[0].symbol, '1');
    assert_eq!(raw.commons[1].position, GridPos { x: 0, y: 1 });
    assert_eq!(raw.commons[1].symbol, '2');
    assert!(raw.obstacles.is_empty());
}

#[test]
fn rows_are_split_on_spaces_and_line_breaks_and_empty_rows_do_not_count() {
    let raw = raw("\n\n.z. ..1\n \ns");
    assert_eq!(raw.width, 3);
    assert_eq!(raw.height, 3);
    assert_eq!(raw.obstacles, vec![GridPos { x: 1, y: 0 }]);
    assert_eq!(raw.commons.len(), 1);
    assert_eq!(raw.commons[0].position, GridPos { x: 2, y: 1 });
    assert_eq!(raw.start, Some(GridPos { x: 0, y: 2 }));
    assert_eq!(raw.finish, None);
}

#[test]
fn width_is_the_longest_row() {
    let raw = raw("..\n.....\n.");
    assert_eq!(raw.width, 5);
    assert_eq!(raw.height, 3);
}

#[test]
fn empty_text_is_an_empty_layout() {
    let raw = raw("");
    assert_eq!(raw.width, 0);
    assert_eq!(raw.height, 0);
    assert!(raw.commons.is_empty());
    assert!(raw.obstacles.is_empty());
    assert_eq!(raw.start, None);
    assert_eq!(raw.finish, None);
}

#[test]
fn second_start_is_a_fault() {
    assert_eq!(parse_layout("s.\n.s").err(), Some(ParseError::DuplicateStart));
}

#[test]
fn second_finish_is_a_fault() {
    assert_eq!(parse_layout("ff").err(), Some(ParseError::DuplicateFinish));
}

#[test]
fn second_start_is_reported_before_second_finish() {
    assert_eq!(parse_layout("ffss").err(), Some(ParseError::DuplicateStart));
}

#[test]
fn too_many_columns_is_a_fault() {
    let fits = ".".repeat(2048);
    assert_eq!(raw(&fits).width, 2048);
    let wide = ".".repeat(2049);
    assert_eq!(parse_layout(&wide).err(), Some(ParseError::LayoutTooLarge));
}

#[test]
fn too_many_rows_is_a_fault() {
    let fits = ".\n".repeat(2048);
    assert_eq!(raw(&fits).height, 2048);
    let tall = ".\n".repeat(2049);
    assert_eq!(parse_layout(&tall).err(), Some(ParseError::LayoutTooLarge));
}

#[test]
fn too_large_is_reported_before_a_second_start() {
    let text = format!("ss{}", ".".repeat(2048));
    assert_eq!(parse_layout(&text).err(), Some(ParseError::LayoutTooLarge));
}

#[test]
fn partner_search_tells_none_one_and_several() {
    let raws = vec![raw("1 2 2"), raw("3 3 3 2")];
    let id = |layout_index, point_index| PointId { layout_index, point_index };
    assert_eq!(find_partner(&raws, id(0, 0)), Partner::Missing);
    assert_eq!(find_partner(&raws, id(0, 1)), Partner::Several);
    assert_eq!(find_partner(&raws, id(1, 0)), Partner::Several);
    let raws = vec![raw("1 2"), raw("2 1")];
    assert_eq!(find_partner(&raws, id(0, 0)), Partner::Unique(id(1, 1)));
    assert_eq!(find_partner(&raws, id(0, 1)), Partner::Unique(id(1, 0)));
    assert_eq!(find_partner(&raws, id(1, 0)), Partner::Unique(id(0, 1)));
}

#[test]
fn points_are_the_paired_ones_then_start_then_finish() {
    let layouts = resolve_pairs(&vec![raw("fs1\nz1")]).unwrap();
    assert_eq!(layouts.len(), 1);
    let layout = &layouts[0];
    assert_eq!(layout.width, 3);
    assert_eq!(layout.height, 2);
    assert_eq!(layout.points_data.len(), 4);
    assert_eq!(layout.points_data[0].position, GridPos { x: 2, y: 0 });
    assert_eq!(
        layout.points_data[0].point_type,
        PointType::Paired { layout_id: 0, pair_point_id: 1 }
    );
    assert_eq!(layout.points_data[1].position, GridPos { x: 1, y: 1 });
    assert_eq!(
        layout.points_data[1].point_type,
        PointType::Paired { layout_id: 0, pair_point_id: 0 }
    );
    assert_eq!(layout.start_point_index, Some(2));
    assert_eq!(layout.points_data[2].position, GridPos { x: 1, y: 0 });
    assert_eq!(layout.points_data[2].point_type, PointType::Start);
    assert_eq!(layout.finish_point_index, Some(3));
    assert_eq!(layout.points_data[3].position, GridPos { x: 0, y: 0 });
    assert_eq!(layout.points_data[3].point_type, PointType::Finish);
    assert_eq!(layout.obstacles_data.len(), 1);
    assert_eq!(layout.obstacles_data[0].position, GridPos { x: 0, y: 1 });
    assert_eq!(layout.obstacles_data[0].radius, OBSTACLE_RADIUS);
    assert_eq!(OBSTACLE_RADIUS, 128);
}

#[test]
fn pairs_link_points_across_layouts() {
    let level = read(2, &["s1", "1f"]);
    assert_eq!(level.win_count(), 2);
    assert_eq!(level.start(), PointId { layout_index: 0, point_index: 1 });
    let layouts = level.layouts_data();
    assert_eq!(
        layouts[0].points_data[0].point_type,
        PointType::Paired { layout_id: 1, pair_point_id: 0 }
    );
    assert_eq!(
        layouts[1].points_data[0].point_type,
        PointType::Paired { layout_id: 0, pair_point_id: 0 }
    );
    assert_eq!(layouts[1].start_point_index, None);
    assert_eq!(layouts[1].finish_point_index, Some(1));
}

#[test]
fn every_partner_names_its_point_back() {
    let level = read(0, &["s12\n3.1", "2f3\n44"]);
    let layouts = level.layouts_data();
    let mut paired = 0;
    for (layout_index, layout) in layouts.iter().enumerate() {
        for (point_index, point) in layout.points_data.iter().enumerate() {
            let id = PointId { layout_index, point_index };
            assert_eq!(level.point_data(id), *point);
            if let PointType::Paired { layout_id, pair_point_id } = point.point_type {
                paired += 1;
                let partner = level.exit(id);
                assert_eq!(partner, PointId { layout_index: layout_id, point_index: pair_point_id });
                assert_ne!(partner, id);
                assert_eq!(level.exit(partner), id);
            } else {
                assert_eq!(level.exit(id), id);
            }
        }
    }
    assert_eq!(paired, 8);
}

#[test]
fn symbol_used_once_is_unpaired() {
    assert_eq!(parse_level(&level(0, &["s1f"])).err(), Some(ParseError::UnpairedPoint));
}

#[test]
fn two_ones_and_one_two_fail() {
    assert_eq!(parse_level(&level(0, &["s11\n2f"])).err(), Some(ParseError::UnpairedPoint));
}

#[test]
fn symbol_used_three_times_is_ambiguous() {
    assert_eq!(parse_level(&level(0, &["s1", "1f", "1"])).err(), Some(ParseError::AmbiguousPairing));
}

#[test]
fn the_first_point_that_cannot_be_paired_decides_the_error() {
    assert_eq!(parse_level(&level(0, &["s2111"])).err(), Some(ParseError::UnpairedPoint));
    assert_eq!(parse_level(&level(0, &["s1112"])).err(), Some(ParseError::AmbiguousPairing));
    assert_eq!(parse_level(&level(0, &["s11", "1", "2"])).err(), Some(ParseError::AmbiguousPairing));
}

#[test]
fn a_faulty_layout_is_reported_before_a_bad_pairing() {
    assert_eq!(parse_level(&level(0, &["s1", "ff"])).err(), Some(ParseError::DuplicateFinish));
    assert_eq!(parse_level(&level(0, &["ss", "ff"])).err(), Some(ParseError::DuplicateStart));
}

#[test]
fn level_without_start_is_not_read() {
    assert_eq!(parse_level(&level(0, &["1f1"])).err(), Some(ParseError::MissingStart));
    assert_eq!(parse_level(&level(0, &[])).err(), Some(ParseError::MissingStart));
}

#[test]
fn a_bad_pairing_is_reported_before_a_missing_start() {
    assert_eq!(parse_level(&level(0, &["1f"])).err(), Some(ParseError::UnpairedPoint));
}

#[test]
fn the_path_begins_in_the_first_layout_with_a_start() {
    let level = read(0, &["1f", "1s", "s"]);
    assert_eq!(level.start(), PointId { layout_index: 1, point_index: 1 });
}

#[test]
fn the_two_by_two_grid_with_unpaired_symbols_is_not_read() {
    assert_eq!(parse_level(&level(1, &["s1\n2f"])).err(), Some(ParseError::UnpairedPoint));
}

fn shown(text: &str) -> Vec<Vec<CellKind>> {
    read(0, &[text]).layouts_data()[0].rows()
}

#[test]
fn a_layout_shows_what_its_text_has() {
    assert_eq!(
        shown("s1\n1f"),
        vec![
            vec![CellKind::Start, CellKind::Paired],
            vec![CellKind::Paired, CellKind::Finish],
        ]
    );
    assert_eq!(
        shown(".z7 \n\ns..x\n7f"),
        vec![
            vec![CellKind::Empty, CellKind::Obstacle, CellKind::Paired, CellKind::Empty],
            vec![CellKind::Start, CellKind::Empty, CellKind::Empty, CellKind::Empty],
            vec![CellKind::Paired, CellKind::Finish, CellKind::Empty, CellKind::Empty],
        ]
    );
    assert_eq!(shown("s"), vec![vec![CellKind::Start]]);
    let level = read(0, &["s", ""]);
    assert_eq!(level.layouts_data()[1].rows(), Vec::<Vec<CellKind>>::new());
}

#[test]
fn every_symbol_comes_back_in_its_place() {
    let text = "s.1z\n..z.\n2z.1 \n  z2.f\n....z";
    let grid = shown(text);
    let rows: Vec<&str> = text.split(|c| c == ' ' || c == '\n').filter(|row| !row.is_empty()).collect();
    assert_eq!(grid.len(), rows.len());
    for (y, row) in rows.iter().enumerate() {
        assert_eq!(grid[y].len(), 5);
        for x in 0..5 {
            let expected = match row.chars().nth(x) {
                Some(c) => classify(c),
                None => CellKind::Empty,
            };
            assert_eq!(grid[y][x], expected, "column {} of row {}", x, y);
        }
    }
}

#[test]
fn a_cell_is_looked_up_by_column_and_row() {
    let level = read(0, &["s.1\n.z1\n..f"]);
    let layout = &level.layouts_data()[0];
    assert_eq!(layout.cell_at(GridPos { x: 0, y: 0 }), CellKind::Start);
    assert_eq!(layout.cell_at(GridPos { x: 2, y: 0 }), CellKind::Paired);
    assert_eq!(layout.cell_at(GridPos { x: 1, y: 1 }), CellKind::Obstacle);
    assert_eq!(layout.cell_at(GridPos { x: 2, y: 1 }), CellKind::Paired);
    assert_eq!(layout.cell_at(GridPos { x: 2, y: 2 }), CellKind::Finish);
    assert_eq!(layout.cell_at(GridPos { x: 1, y: 0 }), CellKind::Empty);
    assert_eq!(layout.cell_at(GridPos { x: 0, y: 2 }), CellKind::Empty);
    assert_eq!(layout.cell_at(GridPos { x: 3, y: 0 }), CellKind::Empty);
    assert_eq!(layout.cell_at(GridPos { x: -1, y: 0 }), CellKind::Empty);
}

#[test]
fn cells_and_obstacles_in_lattice_units() {
    let level = read(0, &["s.1\n.z1\n..f"]);
    let layout = &level.layouts_data()[0];
    assert_eq!(GridPos { x: 3, y: 2 }.to_world().x, 768);
    assert_eq!(GridPos { x: 3, y: 2 }.to_world().y, 512);
    assert_eq!(GridPos { x: 2047, y: 0 }.to_world().x, 524032);
    let disc = layout.obstacles_data[0].to_circle();
    assert_eq!((disc.center.x, disc.center.y, disc.radius), (256, 256, 128));
}
