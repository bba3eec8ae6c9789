use sway_grid::screen_grid::{contains, needs_space_in_row, GridError, Screen, ScreenGrid};

fn screen(name: &str, x: i32, y: i32, width: i32, height: i32) -> Screen {
    Screen { x, y, width, height, name: name.to_string() }
}

fn cell_name(grid: &ScreenGrid, r: usize, c: usize) -> Option<String> {
    grid.cell(r, c).as_ref().map(|s| s.name.clone())
}

#[test]
fn works_with_one_screen() {
    let screens = vec![Screen {
        x: 0,
        y: 0,
        width: 1920,
        height: 1200,
        name: "eDP-1".to_owned(),
    }];

    let mut grid = ScreenGrid::from_screens(screens).unwrap();

    assert_eq!(1, grid.height());
    assert_eq!(1, grid.width());

    grid.grow_padding();

    assert_eq!(3, grid.height());
    assert_eq!(3, grid.width());
}

#[test]
fn works_with_two_screens() {
    let screens = vec![
        Screen {
            x: 1920,
            y: 0,
            width: 1920,
            height: 1200,
            name: "eDP-1".to_owned(),
        },
        Screen {
            x: 0,
            y: 0,
            width: 1920,
            height: 1080,
            name: "HDMI-A-1".to_owned(),
        },
    ];

    let mut grid = ScreenGrid::from_screens(screens).unwrap();
    assert_eq!(1, grid.height());
    assert_eq!(2, grid.width());

    grid.grow_padding();

    assert_eq!(3, grid.height());
    assert_eq!(4, grid.width());
}

#[test]
fn three_differently_sized_screens() {
    let screens = vec![
        Screen {
            x: 4480,
            y: 0,
            width: 2560,
            height: 1600,
            name: "eDP-1".to_string(),
        },
        Screen {
            x: 1920,
            y: 0,
            width: 2560,
            height: 1440,
            name: "DP-7".to_string(),
        },
        Screen {
            x: 0,
            y: 0,
            width: 1920,
            height: 1200,
            name: "DP-8".to_string(),
        },
    ];

    let mut grid = ScreenGrid::from_screens(screens).unwrap();

    assert_eq!(1, grid.height());
    assert_eq!(3, grid.width());

    grid.grow_padding();

    assert_eq!(3, grid.height());
    assert_eq!(5, grid.width());

    grid.move_screen(1, 3, 0, 2);

    grid.shrink_padding();
    grid.shrink_padding();

    grid.grow_padding();

    assert_eq!(4, grid.height());
    assert_eq!(4, grid.width());

    let layout = grid.create_layout_for_sway();

    let grid = ScreenGrid::from_screens(layout).unwrap();
    assert!(grid.height() >= 1);
}

#[test]
fn parse_three_screens() {
    // All three share x = 1920, so they form a single column; two share
    // y = 0 and one sits at y = 1600, so they form two rows.
    let screens = vec![
        Screen {
            x: 1920,
            y: 0,
            width: 2560,
            height: 1600,
            name: "eDP-1".to_string(),
        },
        Screen {
            x: 1920,
            y: 0,
            width: 2560,
            height: 1440,
            name: "DP-7".to_string(),
        },
        Screen {
            x: 1920,
            y: 1600,
            width: 1920,
            height: 1200,
            name: "DP-8".to_string(),
        },
    ];

    let grid = ScreenGrid::from_screens(screens).unwrap();

    assert_eq!(2, grid.height());
    assert_eq!(1, grid.width());
}

#[test]
fn empty_input_is_rejected() {
    let result = ScreenGrid::from_screens(vec![]);
    assert_eq!(result.unwrap_err(), GridError::InvalidInput);
}

#[test]
fn build_places_every_screen_once() {
    let screens = vec![
        screen("a", 0, 0, 100, 100),
        screen("b", 100, 0, 100, 100),
        screen("c", 0, 100, 100, 100),
    ];
    let grid = ScreenGrid::from_screens(screens).unwrap();
    assert_eq!(2, grid.height());
    assert_eq!(2, grid.width());
    let mut seen = vec![];
    for r in 0..grid.height() {
        for c in 0..grid.width() {
            if let Some(name) = cell_name(&grid, r, c) {
                assert!(!seen.contains(&name));
                seen.push(name);
            }
        }
    }
    assert_eq!(3, seen.len());
    assert_eq!(Some("a".to_string()), cell_name(&grid, 0, 0));
    assert_eq!(Some("b".to_string()), cell_name(&grid, 0, 1));
    assert_eq!(Some("c".to_string()), cell_name(&grid, 1, 0));
    assert_eq!(None, cell_name(&grid, 1, 1));
}

#[test]
fn rebuild_of_layout_keeps_grid_shape() {
    let screens = vec![
        screen("a", 0, 0, 1920, 1200),
        screen("b", 1920, 0, 2560, 1440),
        screen("c", 0, 1200, 1920, 1080),
    ];
    let first = ScreenGrid::from_screens(screens).unwrap();
    let layout = first.create_layout_for_sway();
    let second = ScreenGrid::from_screens(layout).unwrap();
    assert_eq!(first.height(), second.height());
    assert_eq!(first.width(), second.width());
    for r in 0..first.height() {
        for c in 0..first.width() {
            assert_eq!(cell_name(&first, r, c), cell_name(&second, r, c));
        }
    }
}

#[test]
fn move_into_empty_cell() {
    let screens = vec![screen("a", 0, 0, 100, 100), screen("b", 100, 0, 100, 100)];
    let mut grid = ScreenGrid::from_screens(screens).unwrap();
    grid.grow_padding();
    assert_eq!(3, grid.height());
    assert_eq!(4, grid.width());
    assert_eq!(Some("b".to_string()), cell_name(&grid, 1, 2));
    assert_eq!(None, cell_name(&grid, 0, 2));

    grid.move_screen(1, 2, 0, 2);

    assert_eq!(Some("b".to_string()), cell_name(&grid, 0, 2));
    assert_eq!(None, cell_name(&grid, 1, 2));
    assert_eq!(Some("a".to_string()), cell_name(&grid, 1, 1));
    for r in 0..grid.height() {
        for c in 0..grid.width() {
            if !(r == 0 && c == 2) && !(r == 1 && c == 1) {
                assert_eq!(None, cell_name(&grid, r, c));
            }
        }
    }
}

#[test]
fn move_onto_itself_changes_nothing() {
    let screens = vec![screen("a", 0, 0, 100, 100)];
    let mut grid = ScreenGrid::from_screens(screens).unwrap();
    grid.grow_padding();
    grid.move_screen(1, 1, 1, 1);
    assert_eq!(Some("a".to_string()), cell_name(&grid, 1, 1));
}

#[test]
fn shrink_without_border_is_a_no_op() {
    let screens = vec![screen("a", 0, 0, 100, 100), screen("b", 100, 50, 100, 100)];
    let mut grid = ScreenGrid::from_screens(screens).unwrap();
    let h = grid.height();
    let w = grid.width();
    let before: Vec<Option<String>> = (0..h)
        .flat_map(|r| (0..w).map(move |c| (r, c)))
        .map(|(r, c)| cell_name(&grid, r, c))
        .collect();
    grid.shrink_padding();
    assert_eq!(h, grid.height());
    assert_eq!(w, grid.width());
    let after: Vec<Option<String>> = (0..h)
        .flat_map(|r| (0..w).map(move |c| (r, c)))
        .map(|(r, c)| cell_name(&grid, r, c))
        .collect();
    assert_eq!(before, after);
}

#[test]
fn shrink_after_grow_equals_shrink_alone() {
    let screens = vec![
        screen("a", 0, 0, 100, 100),
        screen("b", 200, 0, 100, 100),
        screen("c", 0, 300, 100, 100),
    ];
    let mut grown = ScreenGrid::from_screens(vec![
        screen("a", 0, 0, 100, 100),
        screen("b", 200, 0, 100, 100),
        screen("c", 0, 300, 100, 100),
    ])
    .unwrap();
    let mut plain = ScreenGrid::from_screens(screens).unwrap();

    grown.grow_padding();
    grown.shrink_padding();
    plain.shrink_padding();

    assert_eq!(plain.height(), grown.height());
    assert_eq!(plain.width(), grown.width());
    for r in 0..plain.height() {
        for c in 0..plain.width() {
            assert_eq!(cell_name(&plain, r, c), cell_name(&grown, r, c));
        }
    }
}

#[test]
fn single_occupancy_after_many_operations() {
    let screens = vec![
        screen("a", 0, 0, 100, 100),
        screen("b", 100, 0, 100, 100),
        screen("c", 200, 0, 100, 100),
    ];
    let mut grid = ScreenGrid::from_screens(screens).unwrap();
    grid.grow_padding();
    grid.move_screen(1, 3, 0, 2);
    grid.shrink_padding();
    grid.grow_padding();
    grid.move_screen(1, 1, 2, 1);
    for name in ["a", "b", "c"] {
        let mut count = 0;
        for r in 0..grid.height() {
            for c in 0..grid.width() {
                if cell_name(&grid, r, c) == Some(name.to_string()) {
                    count += 1;
                }
            }
        }
        assert!(count <= 1);
    }
}

#[test]
fn coordinates_use_minimum_sizes() {
    // Two columns; the left column's smaller width decides the right
    // column's offset, and the top row's smaller height decides the bottom
    // row's offset.
    let screens = vec![
        screen("tl", 0, 0, 1920, 1080),
        screen("tr", 1920, 0, 2560, 1440),
        screen("bl", 0, 1080, 1280, 720),
    ];
    let grid = ScreenGrid::from_screens(screens).unwrap();
    assert_eq!(2, grid.height());
    assert_eq!(2, grid.width());
    // Column 0 holds widths 1920 and 1280: minimum 1280. Row 0 holds
    // heights 1080 and 1440: minimum 1080.
    assert_eq!((0, 0), grid.calculate_coordinates(0, 0));
    assert_eq!((1280, 0), grid.calculate_coordinates(0, 1));
    assert_eq!((0, 1080), grid.calculate_coordinates(1, 0));
}

#[test]
fn layout_positions_are_exact() {
    let screens = vec![
        screen("DP-8", 0, 0, 1920, 1200),
        screen("DP-7", 1920, 0, 2560, 1440),
        screen("eDP-1", 4480, 0, 2560, 1600),
    ];
    let grid = ScreenGrid::from_screens(screens).unwrap();
    let layout = grid.create_layout_for_sway();
    assert_eq!(3, layout.len());
    assert_eq!(("DP-8", 0, 0), (layout[0].name.as_str(), layout[0].x, layout[0].y));
    assert_eq!(("DP-7", 1920, 0), (layout[1].name.as_str(), layout[1].x, layout[1].y));
    assert_eq!(("eDP-1", 4480, 0), (layout[2].name.as_str(), layout[2].x, layout[2].y));
    assert_eq!(1920, layout[0].width);
    assert_eq!(1200, layout[0].height);
}

#[test]
fn layout_offsets_grow_with_columns() {
    let screens = vec![
        screen("a", 0, 0, 800, 600),
        screen("b", 800, 0, 1024, 768),
        screen("c", 1824, 0, 640, 480),
    ];
    let grid = ScreenGrid::from_screens(screens).unwrap();
    let layout = grid.create_layout_for_sway();
    assert_eq!(3, layout.len());
    assert!(layout[0].x <= layout[1].x);
    assert!(layout[1].x <= layout[2].x);
}

#[test]
fn empty_rows_and_columns_add_no_offset() {
    let screens = vec![screen("a", 0, 0, 100, 100), screen("b", 100, 100, 100, 100)];
    let mut grid = ScreenGrid::from_screens(screens).unwrap();
    grid.grow_padding();
    // After growing, the two screens sit at (1, 1) and (2, 2) in a 4x4
    // grid whose border rows and columns are empty and contribute nothing.
    assert_eq!(4, grid.height());
    assert_eq!(4, grid.width());
    assert_eq!((0, 0), grid.calculate_coordinates(1, 1));
    assert_eq!((100, 100), grid.calculate_coordinates(2, 2));
}

#[test]
fn split_by_groups_exact_keys() {
    let screens = vec![
        screen("a", 100, 5, 10, 10),
        screen("b", 0, 9, 10, 10),
        screen("c", 100, 2, 10, 10),
    ];
    let by_x = ScreenGrid::split_by(&screens, true);
    assert_eq!(2, by_x.len());
    assert_eq!(1, by_x[0].len());
    assert_eq!("b", by_x[0][0].name);
    assert_eq!(2, by_x[1].len());
    // Within the x = 100 group, screens are sorted by y.
    assert_eq!("c", by_x[1][0].name);
    assert_eq!("a", by_x[1][1].name);

    let by_y = ScreenGrid::split_by(&screens, false);
    assert_eq!(3, by_y.len());
    assert_eq!("c", by_y[0][0].name);
    assert_eq!("a", by_y[1][0].name);
    assert_eq!("b", by_y[2][0].name);
}

#[test]
fn contains_matches_by_name() {
    let group = vec![screen("a", 0, 0, 10, 10), screen("b", 5, 5, 10, 10)];
    let probe = screen("b", 99, 99, 1, 1);
    assert!(contains(&probe, &group));
    let absent = screen("z", 0, 0, 10, 10);
    assert!(!contains(&absent, &group));
}

#[test]
fn needs_space_reports_occupied_rows() {
    let empty: Vec<Option<Screen>> = vec![None, None];
    assert!(!needs_space_in_row(&empty));
    let occupied = vec![None, Some(screen("a", 0, 0, 10, 10))];
    assert!(needs_space_in_row(&occupied));
}
