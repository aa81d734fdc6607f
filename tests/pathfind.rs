use rust_wasm::{find_path, Cell, PathError, PathGrid};

fn cell(row: u32, col: u32) -> Cell {
    Cell { row, col }
}

fn open_grid(rows: u32, cols: u32, diagonal: bool) -> PathGrid {
    PathGrid { rows, cols, walkable: vec![true; (rows * cols) as usize], overlay: None, diagonal }
}

fn step_cost(g: &PathGrid, a: Cell, b: Cell) -> u128 {
    let base: u128 = if a.row != b.row && a.col != b.col { 1414 } else { 1000 };
    let ov: u128 = match &g.overlay {
        Some(v) => v[(b.row * g.cols + b.col) as usize] as u128,
        None => 0,
    };
    base * (1000 + ov)
}

fn neighbours(g: &PathGrid, c: Cell) -> Vec<Cell> {
    let mut out = Vec::new();
    for dr in -1i64..=1 {
        for dc in -1i64..=1 {
            if (dr, dc) == (0, 0) || (!g.diagonal && dr != 0 && dc != 0) {
                continue;
            }
            let r = c.row as i64 + dr;
            let k = c.col as i64 + dc;
            if r >= 0 && k >= 0 && r < g.rows as i64 && k < g.cols as i64 {
                let n = cell(r as u32, k as u32);
                if g.walkable[(n.row * g.cols + n.col) as usize] {
                    out.push(n);
                }
            }
        }
    }
    out
}

fn brute_force(g: &PathGrid, cur: Cell, goal: Cell, seen: &mut Vec<Cell>, cost: u128, best: &mut Option<u128>) {
    if cur == goal {
        if best.map_or(true, |b| cost < b) {
            *best = Some(cost);
        }
        return;
    }
    for n in neighbours(g, cur) {
        if !seen.contains(&n) {
            seen.push(n);
            brute_force(g, n, goal, seen, cost + step_cost(g, cur, n), best);
            seen.pop();
        }
    }
}

fn route_cost(g: &PathGrid, cells: &[Cell]) -> u128 {
    cells.windows(2).map(|w| step_cost(g, w[0], w[1])).sum()
}

#[test]
fn diagonal_route_across_open_grid() {
    let g = open_grid(3, 3, true);
    let r = find_path(&g, cell(0, 0), cell(2, 2), None).unwrap();
    assert_eq!(r.cells, vec![cell(0, 0), cell(1, 1), cell(2, 2)]);
    assert_eq!(r.cost, Some(2_828_000));
    let real = r.cost.unwrap() as f64 / 1_000_000.0;
    assert!((real - 2.0 * 2f64.sqrt()).abs() < 1e-3);
}

#[test]
fn start_equal_to_goal_is_single_cell() {
    let g = open_grid(3, 3, true);
    let r = find_path(&g, cell(1, 2), cell(1, 2), None).unwrap();
    assert_eq!(r.cells, vec![cell(1, 2)]);
    assert_eq!(r.cost, Some(0));
    let r = find_path(&g, cell(0, 0), cell(0, 0), Some(0)).unwrap();
    assert_eq!(r.cells, vec![cell(0, 0)]);
}

#[test]
fn walled_off_goal_has_no_route() {
    let mut g = open_grid(3, 3, true);
    for row in 0..3u32 {
        g.walkable[(row * 3 + 1) as usize] = false;
    }
    let r = find_path(&g, cell(0, 0), cell(2, 2), None).unwrap();
    assert!(r.cells.is_empty());
    assert_eq!(r.cost, None);
}

#[test]
fn end_points_outside_grid_are_refused() {
    let g = open_grid(3, 3, true);
    assert_eq!(find_path(&g, cell(3, 0), cell(0, 0), None).unwrap_err(), PathError::OutOfBounds);
    assert_eq!(find_path(&g, cell(0, 0), cell(0, 7), None).unwrap_err(), PathError::OutOfBounds);
}

#[test]
fn blocked_end_points_are_refused() {
    let mut g = open_grid(3, 3, true);
    g.walkable[8] = false;
    assert_eq!(find_path(&g, cell(0, 0), cell(2, 2), None).unwrap_err(), PathError::Unwalkable);
    assert_eq!(find_path(&g, cell(2, 2), cell(0, 0), None).unwrap_err(), PathError::Unwalkable);
}

#[test]
fn exhausted_budget_aborts() {
    let g = open_grid(3, 3, true);
    assert_eq!(find_path(&g, cell(0, 0), cell(2, 2), Some(0)).unwrap_err(), PathError::SearchAborted);
    assert!(find_path(&g, cell(0, 0), cell(2, 2), Some(9)).is_ok());
}

#[test]
fn orthogonal_moves_only() {
    let g = open_grid(3, 3, false);
    let r = find_path(&g, cell(0, 0), cell(2, 2), None).unwrap();
    assert_eq!(r.cost, Some(4_000_000));
    assert_eq!(r.cells.len(), 5);
    assert_eq!(r.cells[0], cell(0, 0));
    assert_eq!(r.cells[4], cell(2, 2));
    for w in r.cells.windows(2) {
        let d = (w[0].row as i64 - w[1].row as i64).abs() + (w[0].col as i64 - w[1].col as i64).abs();
        assert_eq!(d, 1);
    }
}

#[test]
fn overlay_steers_route_around_danger() {
    let mut g = open_grid(3, 3, false);
    let mut ov = vec![0u32; 9];
    ov[1] = 5000;
    g.overlay = Some(ov);
    let r = find_path(&g, cell(0, 0), cell(0, 2), None).unwrap();
    assert_eq!(r.cells, vec![cell(0, 0), cell(1, 0), cell(1, 1), cell(1, 2), cell(0, 2)]);
    assert_eq!(r.cost, Some(4_000_000));
}

#[test]
fn route_cost_matches_brute_force_minimum() {
    let walls = [[false, false, false, true], [true, false, true, false], [false, false, false, false]];
    let overlay = vec![0, 300, 0, 0, 0, 2000, 0, 0, 100, 0, 700, 0];
    for diagonal in [false, true] {
        let mut g = open_grid(3, 4, diagonal);
        for r in 0..3 {
            for c in 0..4 {
                g.walkable[r * 4 + c] = !walls[r][c];
            }
        }
        g.overlay = Some(overlay.clone());
        for s in 0..12u32 {
            for t in 0..12u32 {
                let (a, b) = (cell(s / 4, s % 4), cell(t / 4, t % 4));
                if !g.walkable[s as usize] || !g.walkable[t as usize] {
                    continue;
                }
                let mut best = None;
                brute_force(&g, a, b, &mut vec![a], 0, &mut best);
                let r = find_path(&g, a, b, None).unwrap();
                assert_eq!(r.cost, best);
                if let Some(c) = r.cost {
                    assert_eq!(route_cost(&g, &r.cells), c);
                }
            }
        }
    }
}
