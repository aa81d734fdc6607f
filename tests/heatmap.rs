use rust_wasm::{aggregate, calculate_heatmap, BoundingBox, Event, GridConfig, HeatmapError, HeatmapGrid};

fn bbox(min_x: i64, min_y: i64, max_x: i64, max_y: i64) -> BoundingBox {
    BoundingBox { min_x, min_y, max_x, max_y }
}

fn ev(x: i64, y: i64, weight: u32) -> Event {
    Event { x, y, weight }
}

fn intensities(g: &HeatmapGrid) -> Vec<f64> {
    g.values.iter().map(|v| *v as f64 / g.scale as f64).collect()
}

#[test]
fn single_event_bottom_right_hot() {
    let g = aggregate(&vec![ev(9, 9, 5)], &bbox(0, 0, 10, 10), &GridConfig { cols: 2, rows: 2 }).unwrap();
    assert_eq!(g.values, vec![0, 0, 0, 5]);
    assert_eq!(g.scale, 5);
    assert_eq!(intensities(&g), vec![0.0, 0.0, 0.0, 1.0]);
}

#[test]
fn empty_events_give_all_zero_grid() {
    let g = aggregate(&vec![], &bbox(0, 0, 10, 10), &GridConfig { cols: 3, rows: 2 }).unwrap();
    assert_eq!(g.values, vec![0; 6]);
    assert_eq!(g.scale, 1);
}

#[test]
fn zero_weights_stay_zero() {
    let g = aggregate(&vec![ev(1, 1, 0), ev(8, 2, 0)], &bbox(0, 0, 10, 10), &GridConfig { cols: 2, rows: 2 })
        .unwrap();
    assert_eq!(g.values, vec![0; 4]);
    assert_eq!(g.scale, 1);
}

#[test]
fn zero_columns_is_invalid_config() {
    let r = aggregate(&vec![ev(1, 1, 1)], &bbox(0, 0, 10, 10), &GridConfig { cols: 0, rows: 2 });
    assert_eq!(r.unwrap_err(), HeatmapError::InvalidConfig);
}

#[test]
fn zero_rows_is_invalid_config_even_with_bad_bounds() {
    let r = aggregate(&vec![], &bbox(5, 5, 5, 5), &GridConfig { cols: 2, rows: 0 });
    assert_eq!(r.unwrap_err(), HeatmapError::InvalidConfig);
}

#[test]
fn degenerate_box_is_invalid_bounds() {
    let r = aggregate(&vec![], &bbox(0, 3, 10, 3), &GridConfig { cols: 2, rows: 2 });
    assert_eq!(r.unwrap_err(), HeatmapError::InvalidBounds);
    let r = aggregate(&vec![], &bbox(4, 0, 2, 10), &GridConfig { cols: 2, rows: 2 });
    assert_eq!(r.unwrap_err(), HeatmapError::InvalidBounds);
}

#[test]
fn outside_events_clamp_to_edge_cells() {
    let g = aggregate(
        &vec![ev(-5, 20, 2), ev(10, 10, 3), ev(100, -100, 7)],
        &bbox(0, 0, 10, 10),
        &GridConfig { cols: 2, rows: 2 },
    )
    .unwrap();
    // (-5, 20) -> row 1, col 0; (10, 10) -> row 1, col 1; (100, -100) -> row 0, col 1.
    assert_eq!(g.values, vec![0, 7, 2, 3]);
    assert_eq!(g.scale, 7);
}

#[test]
fn weights_of_one_cell_accumulate() {
    let g = aggregate(
        &vec![ev(1, 1, 3), ev(2, 4, 4), ev(7, 7, 1)],
        &bbox(0, 0, 10, 10),
        &GridConfig { cols: 2, rows: 2 },
    )
    .unwrap();
    assert_eq!(g.values, vec![7, 0, 0, 1]);
    assert_eq!(g.scale, 7);
}

#[test]
fn peak_cell_has_intensity_one() {
    let g = aggregate(
        &vec![ev(0, 0, 2), ev(5, 0, 9), ev(9, 9, 4), ev(3, 6, 9), ev(3, 6, 1)],
        &bbox(0, 0, 10, 10),
        &GridConfig { cols: 3, rows: 3 },
    )
    .unwrap();
    let xs = intensities(&g);
    let top = xs.iter().cloned().fold(0.0f64, f64::max);
    assert_eq!(top, 1.0);
    assert!(xs.iter().all(|x| *x >= 0.0 && *x <= 1.0));
    assert_eq!(g.values.iter().max().copied(), Some(g.scale));
}

#[test]
fn mapping_uses_floor_of_fraction() {
    // 3 columns over [0, 9): x = 2 -> col 0, x = 3 -> col 1, x = 8 -> col 2.
    let g = aggregate(
        &vec![ev(2, 0, 1), ev(3, 0, 2), ev(8, 0, 4)],
        &bbox(0, 0, 9, 9),
        &GridConfig { cols: 3, rows: 1 },
    )
    .unwrap();
    assert_eq!(g.values, vec![1, 2, 4]);
}

#[test]
fn blur_once_differs_from_blur_twice() {
    let g = HeatmapGrid { cols: 4, rows: 1, values: vec![1, 0, 0, 0], scale: 1 };
    let once = g.blur();
    assert_eq!(once.values, vec![6, 3, 0, 0]);
    assert_eq!(once.scale, 9);
    let twice = once.blur();
    assert_eq!(twice.values, vec![45, 27, 9, 0]);
    assert_eq!(twice.scale, 81);
    assert_ne!(intensities(&once), intensities(&twice));
}

#[test]
fn blur_spreads_centre_over_clamped_neighbourhood() {
    let g = HeatmapGrid { cols: 3, rows: 3, values: vec![0, 0, 0, 0, 1, 0, 0, 0, 0], scale: 1 };
    let b = g.blur();
    assert_eq!(b.values, vec![1; 9]);
    assert_eq!(b.scale, 9);
}

#[test]
fn blur_clamps_corner_cells() {
    let g = HeatmapGrid { cols: 2, rows: 2, values: vec![1, 0, 0, 0], scale: 1 };
    let b = g.blur();
    // the corner sample is repeated four times in its own neighbourhood
    assert_eq!(b.values, vec![4, 2, 2, 1]);
}

#[test]
fn permille_rounds_down() {
    let g = HeatmapGrid { cols: 4, rows: 1, values: vec![6, 3, 0, 9], scale: 9 };
    assert_eq!(g.permille(), vec![666, 333, 0, 1000]);
}

#[test]
fn calculate_heatmap_with_and_without_smoothing() {
    let events = vec![ev(9, 9, 5)];
    let b = bbox(0, 0, 10, 10);
    let c = GridConfig { cols: 2, rows: 2 };
    let plain = calculate_heatmap(&events, &b, &c, false).unwrap();
    assert_eq!(plain.values, vec![0, 0, 0, 5]);
    assert_eq!(plain.scale, 5);
    let smooth = calculate_heatmap(&events, &b, &c, true).unwrap();
    assert_eq!(smooth.values, vec![5, 10, 10, 20]);
    assert_eq!(smooth.scale, 45);
    assert_eq!(
        calculate_heatmap(&events, &b, &GridConfig { cols: 0, rows: 1 }, true).unwrap_err(),
        HeatmapError::InvalidConfig
    );
}
