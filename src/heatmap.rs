use vstd::prelude::*;

verus! {

/// One recorded occurrence at a world position, with its intensity contribution.
#[derive(Clone, Copy, Debug, PartialEq, Eq, Structural)]
pub struct Event {
    pub x: i64,
    pub y: i64,
    pub weight: u32,
}

/// The world extent that a grid covers.
#[derive(Clone, Copy, Debug, PartialEq, Eq, Structural)]
pub struct BoundingBox {
    pub min_x: i64,
    pub min_y: i64,
    pub max_x: i64,
    pub max_y: i64,
}

/// Resolution of a grid.
#[derive(Clone, Copy, Debug, PartialEq, Eq, Structural)]
pub struct GridConfig {
    pub cols: u32,
    pub rows: u32,
}

/// Why a heatmap could not be built.
#[derive(Clone, Copy, Debug, PartialEq, Eq, Structural)]
pub enum HeatmapError {
    InvalidConfig,
    InvalidBounds,
}

/// A row-major grid of intensities: cell `i` has intensity `values[i] / scale`.
#[derive(Debug)]
pub struct HeatmapGrid {
    pub cols: u32,
    pub rows: u32,
    pub values: Vec<u128>,
    pub scale: u128,
}

impl HeatmapGrid {
    /// Every cell present, a positive denominator, and no intensity above one.
    pub open spec fn wf(&self) -> bool {
        &&& self.cols > 0
        &&& self.rows > 0
        &&& self.values@.len() == self.rows as int * self.cols as int
        &&& self.scale > 0
        &&& forall|i: int| 0 <= i < self.values@.len() ==> self.values@[i] <= self.scale
    }
}

pub open spec fn bounds_ok(b: BoundingBox) -> bool {
    b.min_x < b.max_x && b.min_y < b.max_y
}

/// The grid line that coordinate `v` falls on, for `n` lines spread over `[lo, hi)`,
/// clamped into `[0, n - 1]`.
pub open spec fn span_index(v: int, lo: int, hi: int, n: int) -> int {
    let raw = (v - lo) * n / (hi - lo);
    if raw < 0 {
        0
    } else if raw >= n {
        n - 1
    } else {
        raw
    }
}

pub open spec fn event_col(e: Event, b: BoundingBox, c: GridConfig) -> int {
    span_index(e.x as int, b.min_x as int, b.max_x as int, c.cols as int)
}

pub open spec fn event_row(e: Event, b: BoundingBox, c: GridConfig) -> int {
    span_index(e.y as int, b.min_y as int, b.max_y as int, c.rows as int)
}

/// Row-major index of the cell an event is counted in.
pub open spec fn event_cell(e: Event, b: BoundingBox, c: GridConfig) -> int {
    event_row(e, b, c) * c.cols as int + event_col(e, b, c)
}

/// Sum of the weights of the events that map to cell `i`.
pub open spec fn cell_weight(events: Seq<Event>, b: BoundingBox, c: GridConfig, i: int) -> int
    decreases events.len(),
{
    if events.len() == 0 {
        0
    } else {
        cell_weight(events.drop_last(), b, c, i) + if event_cell(events.last(), b, c) == i {
            events.last().weight as int
        } else {
            0
        }
    }
}

/// Largest element of a sequence, zero when it is empty or all below zero.
pub open spec fn peak(s: Seq<int>) -> int
    decreases s.len(),
{
    if s.len() == 0 {
        0
    } else {
        let m = peak(s.drop_last());
        if s.last() > m {
            s.last()
        } else {
            m
        }
    }
}

/// The accumulated (unnormalized) weight of every cell, in row-major order.
pub open spec fn accumulated(events: Seq<Event>, b: BoundingBox, c: GridConfig) -> Seq<int> {
    Seq::new((c.rows as int * c.cols as int) as nat, |i: int| cell_weight(events, b, c, i))
}

/// The denominator a normalized grid is divided by: its peak, or one when every cell is zero.
pub open spec fn normalizer(events: Seq<Event>, b: BoundingBox, c: GridConfig) -> int {
    let p = peak(accumulated(events, b, c));
    if p == 0 {
        1
    } else {
        p
    }
}

proof fn lemma_index_bound(r: int, c: int, rows: int, cols: int)
    requires
        0 <= r < rows,
        0 <= c < cols,
    ensures
        0 <= r * cols + c < rows * cols,
{
    assert(r * cols + c < rows * cols) by (nonlinear_arith)
        requires
            0 <= r < rows,
            0 <= c < cols,
    ;
    assert(0 <= r * cols) by (nonlinear_arith)
        requires
            0 <= r,
            0 <= c < cols,
    ;
}

proof fn lemma_cell_weight_bound(events: Seq<Event>, b: BoundingBox, c: GridConfig, i: int)
    ensures
        0 <= cell_weight(events, b, c, i) <= events.len() * 0xffff_ffff,
    decreases events.len(),
{
    if events.len() > 0 {
        lemma_cell_weight_bound(events.drop_last(), b, c, i);
    }
}

/// The peak bounds every element and, for a non-empty sequence, is one of them.
pub proof fn lemma_peak(s: Seq<int>)
    requires
        forall|i: int| 0 <= i < s.len() ==> s[i] >= 0,
    ensures
        forall|i: int| 0 <= i < s.len() ==> s[i] <= peak(s),
        s.len() > 0 ==> exists|i: int| 0 <= i < s.len() && s[i] == peak(s),
        peak(s) >= 0,
    decreases s.len(),
{
    if s.len() > 0 {
        let t = s.drop_last();
        assert forall|i: int| 0 <= i < t.len() implies t[i] >= 0 by {
            assert(t[i] == s[i]);
        }
        lemma_peak(t);
        assert forall|i: int| 0 <= i < s.len() implies s[i] <= peak(s) by {
            if i < t.len() {
                assert(s[i] == t[i]);
            }
        }
        if s.last() > peak(t) {
            assert(s[s.len() - 1] == peak(s));
        } else if t.len() == 0 {
            assert(s[0] == peak(s));
        } else {
            let j = choose|j: int| 0 <= j < t.len() && t[j] == peak(t);
            assert(s[j] == peak(s));
        }
    }
}

/// Normalizing by the peak leaves every cell at most one and, unless all cells are
/// zero, some cell exactly one.
pub proof fn lemma_normalized_peak(events: Seq<Event>, b: BoundingBox, c: GridConfig)
    ensures
        normalizer(events, b, c) > 0,
        forall|i: int|
            #![trigger accumulated(events, b, c)[i]]
            0 <= i < accumulated(events, b, c).len() ==> 0 <= accumulated(events, b, c)[i]
                <= normalizer(events, b, c),
        (forall|i: int|
            #![trigger accumulated(events, b, c)[i]]
            0 <= i < accumulated(events, b, c).len() ==> accumulated(events, b, c)[i] == 0) || (
        exists|i: int|
            #![trigger accumulated(events, b, c)[i]]
            0 <= i < accumulated(events, b, c).len() && accumulated(events, b, c)[i]
                == normalizer(events, b, c)),
{
    let w = accumulated(events, b, c);
    assert forall|i: int| 0 <= i < w.len() implies w[i] >= 0 by {
        lemma_cell_weight_bound(events, b, c, i);
    }
    lemma_peak(w);
}

/// `v` clamped into `[0, n - 1]`: edge cells stand in for the cells beyond the border.
pub open spec fn clamp_line(v: int, n: int) -> int {
    if v < 0 {
        0
    } else if v >= n {
        n - 1
    } else {
        v
    }
}

/// The value at `(r, c)`, with both coordinates clamped into the grid.
pub open spec fn sample(v: Seq<int>, rows: int, cols: int, r: int, c: int) -> int {
    v[clamp_line(r, rows) * cols + clamp_line(c, cols)]
}

/// The stored values as mathematical integers.
pub open spec fn ints(v: Seq<u128>) -> Seq<int> {
    v.map_values(|x: u128| x as int)
}

/// Sum of the 3x3 neighbourhood of `(r, c)`, edges clamped.
pub open spec fn box_sum(v: Seq<int>, rows: int, cols: int, r: int, c: int) -> int {
    sample(v, rows, cols, r - 1, c - 1) + sample(v, rows, cols, r - 1, c) + sample(
        v,
        rows,
        cols,
        r - 1,
        c + 1,
    ) + sample(v, rows, cols, r, c - 1) + sample(v, rows, cols, r, c) + sample(
        v,
        rows,
        cols,
        r,
        c + 1,
    ) + sample(v, rows, cols, r + 1, c - 1) + sample(v, rows, cols, r + 1, c) + sample(
        v,
        rows,
        cols,
        r + 1,
        c + 1,
    )
}

/// One pass of the 3x3 box blur over a row-major grid, as neighbourhood sums.
pub open spec fn box_blurred(v: Seq<int>, rows: int, cols: int) -> Seq<int> {
    Seq::new((rows * cols) as nat, |i: int| box_sum(v, rows, cols, i / cols, i % cols))
}

fn sample_exec(values: &Vec<u128>, rows: u32, cols: u32, r: u32, c: u32) -> (s: u128)
    requires
        r < rows,
        c < cols,
        values@.len() == rows as int * cols as int,
        rows as int * cols as int <= usize::MAX,
    ensures
        s == values@[r as int * cols as int + c as int],
        s as int == ints(values@)[r as int * cols as int + c as int],
{
    proof {
        lemma_index_bound(r as int, c as int, rows as int, cols as int);
    }
    values[r as usize * cols as usize + c as usize]
}

fn span_index_exec(v: i64, lo: i64, hi: i64, n: u32) -> (r: u32)
    requires
        lo < hi,
        n > 0,
    ensures
        r as int == span_index(v as int, lo as int, hi as int, n as int),
{
    let diff: i128 = v as i128 - lo as i128;
    let den: i128 = hi as i128 - lo as i128;
    if diff >= 0 {
        assert(0 <= diff * n <= diff * 0x1_0000_0000) by (nonlinear_arith)
            requires
                0 <= diff,
                0 < n <= 0x1_0000_0000,
        ;
    } else {
        assert(diff * 0x1_0000_0000 <= diff * n < 0) by (nonlinear_arith)
            requires
                diff < 0,
                0 < n <= 0x1_0000_0000,
        ;
    }
    let num: i128 = diff * (n as i128);
    if num < 0 {
        assert(num / den < 0) by (nonlinear_arith)
            requires
                num < 0,
                den > 0,
        ;
        0
    } else {
        let q: u128 = (num as u128) / (den as u128);
        if q >= n as u128 {
            n - 1
        } else {
            q as u32
        }
    }
}

/// Builds the normalized intensity grid of a sequence of events.
///
/// Each event is counted in the cell its position maps to, clamped into the grid;
/// the grid is then normalized by its peak cell.
pub fn aggregate(events: &Vec<Event>, bbox: &BoundingBox, config: &GridConfig) -> (r: Result<
    HeatmapGrid,
    HeatmapError,
>)
    requires
        config.rows as int * config.cols as int <= usize::MAX,
    ensures
        match r {
            Err(e) => if config.cols == 0 || config.rows == 0 {
                e == HeatmapError::InvalidConfig
            } else {
                !bounds_ok(*bbox) && e == HeatmapError::InvalidBounds
            },
            Ok(g) => {
                &&& config.cols > 0 && config.rows > 0 && bounds_ok(*bbox)
                &&& g.wf()
                &&& g.cols == config.cols && g.rows == config.rows
                &&& forall|i: int|
                    0 <= i < g.values@.len() ==> g.values@[i] as int == cell_weight(
                        events@,
                        *bbox,
                        *config,
                        i,
                    )
                &&& g.scale as int == normalizer(events@, *bbox, *config)
            },
        },
{
    if config.cols == 0 || config.rows == 0 {
        return Err(HeatmapError::InvalidConfig);
    }
    if !(bbox.min_x < bbox.max_x && bbox.min_y < bbox.max_y) {
        return Err(HeatmapError::InvalidBounds);
    }
    let cols = config.cols;
    let rows = config.rows;
    let n: usize = rows as usize * cols as usize;
    let mut values: Vec<u128> = Vec::new();
    let mut i: usize = 0;
    while i < n
        invariant
            i <= n,
            values@.len() == i,
            forall|j: int| 0 <= j < i ==> values@[j] == 0,
        decreases n - i,
    {
        values.push(0);
        i = i + 1;
    }
    let mut k: usize = 0;
    while k < events.len()
        invariant
            n == rows as int * cols as int,
            cols == config.cols,
            rows == config.rows,
            cols > 0,
            rows > 0,
            bounds_ok(*bbox),
            k <= events@.len(),
            values@.len() == n,
            forall|j: int|
                0 <= j < n ==> values@[j] as int == cell_weight(events@.take(k as int), *bbox, *config, j),
        decreases events@.len() - k,
    {
        let e = events[k];
        let col = span_index_exec(e.x, bbox.min_x, bbox.max_x, cols);
        let row = span_index_exec(e.y, bbox.min_y, bbox.max_y, rows);
        proof {
            lemma_index_bound(row as int, col as int, rows as int, cols as int);
        }
        let idx: usize = row as usize * cols as usize + col as usize;
        let ghost prev = events@.take(k as int);
        let ghost next = events@.take(k as int + 1);
        proof {
            assert(next.drop_last() =~= prev);
            assert(next.last() == e);
            lemma_cell_weight_bound(prev, *bbox, *config, idx as int);
            assert(prev.len() * 0xffff_ffff <= 0x1_0000_0000_0000_0000 * 0xffff_ffff) by (nonlinear_arith)
                requires
                    prev.len() <= 0x1_0000_0000_0000_0000,
            ;
        }
        let old_v = values[idx];
        values.set(idx, old_v + e.weight as u128);
        proof {
            assert forall|j: int| 0 <= j < n implies values@[j] as int == cell_weight(
                next,
                *bbox,
                *config,
                j,
            ) by {
                assert(event_cell(e, *bbox, *config) == idx as int);
            }
        }
        k = k + 1;
    }
    proof {
        assert(events@.take(events@.len() as int) =~= events@);
    }
    let ghost w = accumulated(events@, *bbox, *config);
    let mut m: u128 = 0;
    let mut j: usize = 0;
    while j < n
        invariant
            n == w.len(),
            j <= n,
            values@.len() == n,
            forall|t: int| 0 <= t < n ==> values@[t] as int == w[t],
            m as int == peak(w.take(j as int)),
        decreases n - j,
    {
        proof {
            assert(w.take(j as int + 1).drop_last() =~= w.take(j as int));
        }
        if values[j] > m {
            m = values[j];
        }
        j = j + 1;
    }
    proof {
        assert(w.take(n as int) =~= w);
        lemma_normalized_peak(events@, *bbox, *config);
        assert forall|t: int| 0 <= t < n implies values@[t] as int == cell_weight(
            events@,
            *bbox,
            *config,
            t,
        ) && values@[t] as int <= normalizer(events@, *bbox, *config) by {
            assert(w[t] == cell_weight(events@, *bbox, *config, t));
        }
    }
    let scale: u128 = if m == 0 {
        1
    } else {
        m
    };
    Ok(HeatmapGrid { cols, rows, values, scale })
}

impl HeatmapGrid {
    /// Applies the 3x3 box blur once: each cell becomes the mean of its clamped
    /// neighbourhood, so the sums are kept and the denominator grows ninefold.
    pub fn blur(&self) -> (r: HeatmapGrid)
        requires
            self.wf(),
            self.scale <= u128::MAX / 9,
        ensures
            r.wf(),
            r.rows == self.rows,
            r.cols == self.cols,
            r.scale == 9 * self.scale,
            forall|i: int|
                0 <= i < r.values@.len() ==> r.values@[i] as int == box_blurred(
                    ints(self.values@),
                    self.rows as int,
                    self.cols as int,
                )[i],
    {
        let rows = self.rows;
        let cols = self.cols;
        let n: usize = self.values.len();
        let ghost v = self.values@;
        let ghost want = box_blurred(ints(v), rows as int, cols as int);
        let mut out: Vec<u128> = Vec::new();
        let mut i: usize = 0;
        let mut r: u32 = 0;
        let mut c: u32 = 0;
        while i < n
            invariant
                self.wf(),
                self.scale <= u128::MAX / 9,
                rows == self.rows,
                cols == self.cols,
                v == self.values@,
                want == box_blurred(ints(v), rows as int, cols as int),
                n == rows as int * cols as int,
                n <= usize::MAX,
                i <= n,
                c < cols,
                i == r as int * cols as int + c as int,
                i < n ==> r < rows,
                out@.len() == i,
                forall|j: int| 0 <= j < i ==> out@[j] as int == want[j],
                forall|j: int| 0 <= j < i ==> out@[j] <= 9 * self.scale,
            decreases n - i,
        {
            let up: u32 = if r == 0 {
                0
            } else {
                r - 1
            };
            let down: u32 = if r + 1 >= rows {
                rows - 1
            } else {
                r + 1
            };
            let left: u32 = if c == 0 {
                0
            } else {
                c - 1
            };
            let right: u32 = if c + 1 >= cols {
                cols - 1
            } else {
                c + 1
            };
            let s00 = sample_exec(&self.values, rows, cols, up, left);
            let s01 = sample_exec(&self.values, rows, cols, up, c);
            let s02 = sample_exec(&self.values, rows, cols, up, right);
            let s10 = sample_exec(&self.values, rows, cols, r, left);
            let s11 = sample_exec(&self.values, rows, cols, r, c);
            let s12 = sample_exec(&self.values, rows, cols, r, right);
            let s20 = sample_exec(&self.values, rows, cols, down, left);
            let s21 = sample_exec(&self.values, rows, cols, down, c);
            let s22 = sample_exec(&self.values, rows, cols, down, right);
            proof {
                assert(clamp_line(r - 1, rows as int) == up);
                assert(clamp_line(r + 1, rows as int) == down);
                assert(clamp_line(c - 1, cols as int) == left);
                assert(clamp_line(c + 1, cols as int) == right);
                assert(clamp_line(r as int, rows as int) == r);
                assert(clamp_line(c as int, cols as int) == c);
                lemma_index_bound(up as int, left as int, rows as int, cols as int);
                lemma_index_bound(up as int, c as int, rows as int, cols as int);
                lemma_index_bound(up as int, right as int, rows as int, cols as int);
                lemma_index_bound(r as int, left as int, rows as int, cols as int);
                lemma_index_bound(r as int, c as int, rows as int, cols as int);
                lemma_index_bound(r as int, right as int, rows as int, cols as int);
                lemma_index_bound(down as int, left as int, rows as int, cols as int);
                lemma_index_bound(down as int, c as int, rows as int, cols as int);
                lemma_index_bound(down as int, right as int, rows as int, cols as int);
            }
            let sum: u128 = s00 + s01 + s02 + s10 + s11 + s12 + s20 + s21 + s22;
            proof {
                vstd::arithmetic::div_mod::lemma_fundamental_div_mod_converse(
                    i as int,
                    cols as int,
                    r as int,
                    c as int,
                );
                assert(want[i as int] == box_sum(ints(v), rows as int, cols as int, r as int, c as int));
            }
            out.push(sum);
            i = i + 1;
            if c + 1 == cols {
                proof {
                    assert(r as int * cols as int + cols as int == (r + 1) * cols as int)
                        by (nonlinear_arith);
                }
                c = 0;
                r = r + 1;
            } else {
                c = c + 1;
            }
            proof {
                if i < n {
                    if r >= rows {
                        assert(i as int >= rows as int * cols as int) by (nonlinear_arith)
                            requires
                                r >= rows,
                                i == r as int * cols as int + c as int,
                                c >= 0,
                                cols > 0,
                        ;
                    }
                }
            }
        }
        let res = HeatmapGrid { cols, rows, values: out, scale: 9 * self.scale };
        res
    }

    /// Intensity of every cell in thousandths, rounded down.
    pub fn permille(&self) -> (r: Vec<u32>)
        requires
            self.wf(),
            self.scale <= u128::MAX / 1000,
        ensures
            r@.len() == self.values@.len(),
            forall|i: int|
                0 <= i < r@.len() ==> r@[i] as int == self.values@[i] * 1000 / self.scale as int,
            forall|i: int| 0 <= i < r@.len() ==> r@[i] <= 1000,
    {
        let mut out: Vec<u32> = Vec::new();
        let mut i: usize = 0;
        while i < self.values.len()
            invariant
                self.wf(),
                self.scale <= u128::MAX / 1000,
                i <= self.values@.len(),
                out@.len() == i,
                forall|j: int|
                    0 <= j < i ==> out@[j] as int == self.values@[j] * 1000 / self.scale as int,
                forall|j: int| 0 <= j < i ==> out@[j] <= 1000,
            decreases self.values@.len() - i,
        {
            let v = self.values[i];
            assert(v * 1000 <= self.scale * 1000) by (nonlinear_arith)
                requires
                    v <= self.scale,
            ;
            let q: u128 = v * 1000 / self.scale;
            assert(q <= 1000) by (nonlinear_arith)
                requires
                    q as int == v as int * 1000 / self.scale as int,
                    v <= self.scale,
                    self.scale > 0,
            ;
            out.push(q as u32);
            i = i + 1;
        }
        out
    }
}

/// Aggregates events into a normalized grid and, when `smooth` is set, blurs it once.
pub fn calculate_heatmap(
    events: &Vec<Event>,
    bbox: &BoundingBox,
    config: &GridConfig,
    smooth: bool,
) -> (r: Result<HeatmapGrid, HeatmapError>)
    requires
        config.rows as int * config.cols as int <= usize::MAX,
    ensures
        match r {
            Err(e) => if config.cols == 0 || config.rows == 0 {
                e == HeatmapError::InvalidConfig
            } else {
                !bounds_ok(*bbox) && e == HeatmapError::InvalidBounds
            },
            Ok(g) => {
                &&& config.cols > 0 && config.rows > 0 && bounds_ok(*bbox)
                &&& g.wf()
                &&& g.cols == config.cols && g.rows == config.rows
                &&& !smooth ==> g.scale as int == normalizer(events@, *bbox, *config)
                &&& !smooth ==> ints(g.values@) == accumulated(events@, *bbox, *config)
                &&& smooth ==> g.scale as int == 9 * normalizer(events@, *bbox, *config)
                &&& smooth ==> ints(g.values@) == box_blurred(
                    accumulated(events@, *bbox, *config),
                    config.rows as int,
                    config.cols as int,
                )
            },
        },
{
    let g = match aggregate(events, bbox, config) {
        Ok(g) => g,
        Err(e) => {
            return Err(e);
        },
    };
    let count: usize = events.len();
    proof {
        let w = accumulated(events@, *bbox, *config);
        assert(ints(g.values@) =~= w);
        lemma_normalized_peak(events@, *bbox, *config);
        lemma_index_bound(0, 0, config.rows as int, config.cols as int);
        lemma_peak(w);
        if g.scale > 1 {
            let j = choose|j: int| 0 <= j < w.len() && w[j] == peak(w);
            lemma_cell_weight_bound(events@, *bbox, *config, j);
            assert(count * 0xffff_ffff <= 0x1_0000_0000_0000_0000 * 0xffff_ffff)
                by (nonlinear_arith)
                requires
                    count <= 0x1_0000_0000_0000_0000,
            ;
        }
    }
    if smooth {
        let b = g.blur();
        proof {
            assert(ints(b.values@) =~= box_blurred(ints(g.values@), g.rows as int, g.cols as int));
        }
        Ok(b)
    } else {
        Ok(g)
    }
}

} // verus!
