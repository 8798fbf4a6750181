use vstd::prelude::*;
use crate::cell::Cell;
use crate::grid::{Grid, grid_neighbors4};
use crate::grid_map::{GridMap, Size, grid_in_range, grid_index, grid_of_index, cells_without_value,
    lemma_grid_index_round_trip};
use crate::error::Error;

verus! {

/// Seed value of the obstacle inflation field: the cost carried by the first
/// ring of cells around an obstacle.
pub const OBSTACLE_SEED_VALUE: u8 = 50;

/// How much the obstacle inflation decays per ring.
pub const OBSTACLE_REDUCE: u8 = 10;

/// How one wave's cell value is derived from the previous wave's.
#[derive(Copy, Clone, Debug, PartialEq, Eq, Structural)]
pub enum StepRule {
    /// `v` becomes `min(v + amount, 255)`: a rising distance that saturates.
    SaturatingAdd(u8),
    /// `v` becomes `max(v - amount, 0)`: an inflation that decays to zero.
    SaturatingSub(u8),
}

impl StepRule {
    pub open spec fn apply_spec(self, v: u8) -> u8 {
        match self {
            StepRule::SaturatingAdd(a) => if v + a > 255 {
                255u8
            } else {
                (v + a) as u8
            },
            StepRule::SaturatingSub(a) => if v < a {
                0u8
            } else {
                (v - a) as u8
            },
        }
    }

    pub fn apply(self, v: u8) -> (r: u8)
        ensures
            r == self.apply_spec(v),
    {
        match self {
            StepRule::SaturatingAdd(a) => if v > 255 - a {
                255
            } else {
                v + a
            },
            StepRule::SaturatingSub(a) => if v < a {
                0
            } else {
                v - a
            },
        }
    }

    /// Whether the expansion is over once a wave has written `value`. A
    /// decaying field truncates at its horizon when the value parks at the
    /// step's fixed point; a rising field never stops on its value, so a
    /// saturated ceiling still floods every reachable cell.
    pub open spec fn stops_at_spec(self, value: u8) -> bool {
        match self {
            StepRule::SaturatingAdd(_) => false,
            StepRule::SaturatingSub(_) => self.apply_spec(value) == value,
        }
    }

    pub fn stops_at(self, value: u8) -> (r: bool)
        ensures
            r == self.stops_at_spec(value),
    {
        match self {
            StepRule::SaturatingAdd(_) => false,
            StepRule::SaturatingSub(_) => self.apply(value) == value,
        }
    }
}

/// The value written by wave `k`, counting the first ring as wave `0`.
pub open spec fn wave_value(first: u8, rule: StepRule, k: nat) -> u8
    decreases k,
{
    if k == 0 {
        first
    } else {
        rule.apply_spec(wave_value(first, rule, (k - 1) as nat))
    }
}

/// The obstacle decay reaches zero at wave five and stays there: ring `k`
/// carries `50 - 10 k` up to ring four, and every later ring would carry zero.
pub proof fn lemma_obstacle_decay_reaches_zero(k: nat)
    ensures
        k < 5 ==> wave_value(
            OBSTACLE_SEED_VALUE,
            StepRule::SaturatingSub(OBSTACLE_REDUCE),
            k,
        ) == OBSTACLE_SEED_VALUE - k * OBSTACLE_REDUCE,
        k >= 5 ==> wave_value(OBSTACLE_SEED_VALUE, StepRule::SaturatingSub(OBSTACLE_REDUCE), k)
            == 0,
    decreases k,
{
    if k > 0 {
        lemma_obstacle_decay_reaches_zero((k - 1) as nat);
    }
}

/// How many cells of `cells` are `Uninitialized`.
pub open spec fn count_uninitialized(cells: Seq<Cell<u8>>) -> nat
    decreases cells.len(),
{
    if cells.len() == 0 {
        0
    } else {
        count_uninitialized(cells.drop_last()) + if cells.last() is Uninitialized {
            1nat
        } else {
            0nat
        }
    }
}

proof fn lemma_count_uninit_update(s: Seq<Cell<u8>>, i: int, c: Cell<u8>)
    requires
        0 <= i < s.len(),
        s[i] is Uninitialized,
        !(c is Uninitialized),
    ensures
        count_uninitialized(s.update(i, c)) + 1 == count_uninitialized(s),
    decreases s.len(),
{
    let t = s.update(i, c);
    if i == s.len() - 1 {
        assert(t.drop_last() =~= s.drop_last());
    } else {
        assert(t.drop_last() =~= s.drop_last().update(i, c));
        lemma_count_uninit_update(s.drop_last(), i, c);
    }
}

proof fn lemma_count_uninit_zero(s: Seq<Cell<u8>>)
    ensures
        count_uninitialized(s) == 0 <==> forall|i: int|
            0 <= i < s.len() ==> !(s[i] is Uninitialized),
    decreases s.len(),
{
    if s.len() > 0 {
        let head = s.drop_last();
        lemma_count_uninit_zero(head);
        if count_uninitialized(s) == 0 {
            assert forall|i: int| 0 <= i < s.len() implies !(s[i] is Uninitialized) by {
                if i < s.len() - 1 {
                    assert(head[i] == s[i]);
                } else {
                    assert(s[i] == s.last());
                }
            }
        } else {
            if count_uninitialized(head) != 0 {
                let i = choose|i: int| 0 <= i < head.len() && head[i] is Uninitialized;
                assert(s[i] == head[i]);
            } else {
                assert(s.last() is Uninitialized);
            }
        }
    }
}

/// Whether the expansion may write into the cell at `g`: the coordinate is on
/// the map, its index is inside the cell vector, and nothing wrote there yet.
pub open spec fn expandable(cells: Seq<Cell<u8>>, size: Size, g: Grid) -> bool {
    &&& grid_in_range(g, size)
    &&& grid_index(g, size) < cells.len()
    &&& cells[grid_index(g, size)] is Uninitialized
}

/// Visit `neighbors` in order, writing `value` into each cell that is still
/// `Uninitialized`; yields the written cells and the coordinates written, in
/// visiting order.
pub open spec fn expand_from_grid(
    cells: Seq<Cell<u8>>,
    size: Size,
    neighbors: Seq<Grid>,
    value: u8,
) -> (Seq<Cell<u8>>, Seq<Grid>)
    decreases neighbors.len(),
{
    if neighbors.len() == 0 {
        (cells, Seq::<Grid>::empty())
    } else {
        let g = neighbors[0];
        let rest = neighbors.subrange(1, neighbors.len() as int);
        if expandable(cells, size, g) {
            let updated = cells.update(grid_index(g, size), Cell::Value(value));
            let tail = expand_from_grid(updated, size, rest, value);
            (tail.0, seq![g] + tail.1)
        } else {
            expand_from_grid(cells, size, rest, value)
        }
    }
}

/// One wave: every in-range frontier cell hands `value` to its uninitialized
/// 4-neighbours; off-map frontier entries are skipped. Yields the written
/// cells and the next frontier.
pub open spec fn expand_wave(
    cells: Seq<Cell<u8>>,
    size: Size,
    frontier: Seq<Grid>,
    value: u8,
) -> (Seq<Cell<u8>>, Seq<Grid>)
    decreases frontier.len(),
{
    if frontier.len() == 0 {
        (cells, Seq::<Grid>::empty())
    } else {
        let g = frontier[0];
        let rest = frontier.subrange(1, frontier.len() as int);
        if grid_in_range(g, size) {
            let stepped = expand_from_grid(cells, size, grid_neighbors4(g), value);
            let tail = expand_wave(stepped.0, size, rest, value);
            (tail.0, stepped.1 + tail.1)
        } else {
            expand_wave(cells, size, rest, value)
        }
    }
}

proof fn lemma_expand_from_grid_props(cells: Seq<Cell<u8>>, size: Size, neighbors: Seq<Grid>, value: u8)
    ensures
        expand_from_grid(cells, size, neighbors, value).0.len() == cells.len(),
        count_uninitialized(expand_from_grid(cells, size, neighbors, value).0) + expand_from_grid(
            cells,
            size,
            neighbors,
            value,
        ).1.len() == count_uninitialized(cells),
    decreases neighbors.len(),
{
    if neighbors.len() > 0 {
        let g = neighbors[0];
        let rest = neighbors.subrange(1, neighbors.len() as int);
        if expandable(cells, size, g) {
            let updated = cells.update(grid_index(g, size), Cell::Value(value));
            lemma_count_uninit_update(cells, grid_index(g, size), Cell::Value(value));
            lemma_expand_from_grid_props(updated, size, rest, value);
        } else {
            lemma_expand_from_grid_props(cells, size, rest, value);
        }
    }
}

proof fn lemma_expand_wave_props(cells: Seq<Cell<u8>>, size: Size, frontier: Seq<Grid>, value: u8)
    ensures
        expand_wave(cells, size, frontier, value).0.len() == cells.len(),
        count_uninitialized(expand_wave(cells, size, frontier, value).0) + expand_wave(
            cells,
            size,
            frontier,
            value,
        ).1.len() == count_uninitialized(cells),
    decreases frontier.len(),
{
    if frontier.len() > 0 {
        let g = frontier[0];
        let rest = frontier.subrange(1, frontier.len() as int);
        if grid_in_range(g, size) {
            let stepped = expand_from_grid(cells, size, grid_neighbors4(g), value);
            lemma_expand_from_grid_props(cells, size, grid_neighbors4(g), value);
            lemma_expand_wave_props(stepped.0, size, rest, value);
        } else {
            lemma_expand_wave_props(cells, size, rest, value);
        }
    }
}

/// The whole distance transform: waves carry `step(previous_value)`,
/// `step(step(previous_value))`, and so on. It stops when no `Uninitialized`
/// cell remains or when a wave reaches no new cell; a decaying rule also
/// stops once its wave value parks at the fixed point, so the inflation
/// truncates at its horizon, while a rising rule floods its saturated
/// ceiling to every reachable cell.
pub open spec fn expand_spec(
    cells: Seq<Cell<u8>>,
    size: Size,
    frontier: Seq<Grid>,
    previous_value: u8,
    rule: StepRule,
) -> Seq<Cell<u8>>
    decreases count_uninitialized(cells), frontier.len(),
    via expand_spec_decreases
{
    if count_uninitialized(cells) == 0 || frontier.len() == 0 {
        cells
    } else {
        let value = rule.apply_spec(previous_value);
        let stepped = expand_wave(cells, size, frontier, value);
        if rule.stops_at_spec(value) {
            stepped.0
        } else {
            expand_spec(stepped.0, size, stepped.1, value, rule)
        }
    }
}

#[via_fn]
proof fn expand_spec_decreases(
    cells: Seq<Cell<u8>>,
    size: Size,
    frontier: Seq<Grid>,
    previous_value: u8,
    rule: StepRule,
) {
    if !(count_uninitialized(cells) == 0 || frontier.len() == 0) {
        let value = rule.apply_spec(previous_value);
        lemma_expand_wave_props(cells, size, frontier, value);
    }
}

proof fn lemma_expand_from_grid_cells(
    cells: Seq<Cell<u8>>,
    size: Size,
    neighbors: Seq<Grid>,
    value: u8,
)
    ensures
        ({
            let out = expand_from_grid(cells, size, neighbors, value).0;
            forall|i: int|
                0 <= i < cells.len() ==> ((#[trigger] out[i]) == cells[i] || (
                cells[i] is Uninitialized && out[i] == Cell::Value(value)))
        }),
    decreases neighbors.len(),
{
    if neighbors.len() > 0 {
        let g = neighbors[0];
        let rest = neighbors.subrange(1, neighbors.len() as int);
        if expandable(cells, size, g) {
            let updated = cells.update(grid_index(g, size), Cell::Value(value));
            lemma_expand_from_grid_cells(updated, size, rest, value);
        } else {
            lemma_expand_from_grid_cells(cells, size, rest, value);
        }
    }
}

proof fn lemma_expand_wave_cells(cells: Seq<Cell<u8>>, size: Size, frontier: Seq<Grid>, value: u8)
    ensures
        ({
            let out = expand_wave(cells, size, frontier, value).0;
            forall|i: int|
                0 <= i < cells.len() ==> ((#[trigger] out[i]) == cells[i] || (
                cells[i] is Uninitialized && out[i] == Cell::Value(value)))
        }),
    decreases frontier.len(),
{
    if frontier.len() > 0 {
        let g = frontier[0];
        let rest = frontier.subrange(1, frontier.len() as int);
        if grid_in_range(g, size) {
            let stepped = expand_from_grid(cells, size, grid_neighbors4(g), value);
            lemma_expand_from_grid_cells(cells, size, grid_neighbors4(g), value);
            lemma_expand_from_grid_props(cells, size, grid_neighbors4(g), value);
            lemma_expand_wave_cells(stepped.0, size, rest, value);
        } else {
            lemma_expand_wave_cells(cells, size, rest, value);
        }
    }
}

/// The expansion writes only into `Uninitialized` cells: every `Obstacle`,
/// `Unknown`, and existing `Value` cell — the seeds among them — comes out of
/// the transform exactly as it went in, and whatever was written holds a
/// `Value`.
pub proof fn lemma_expand_never_overwrites(
    cells: Seq<Cell<u8>>,
    size: Size,
    frontier: Seq<Grid>,
    previous_value: u8,
    rule: StepRule,
)
    ensures
        ({
            let out = expand_spec(cells, size, frontier, previous_value, rule);
            forall|i: int|
                0 <= i < cells.len() ==> ((#[trigger] out[i]) == cells[i] || (
                cells[i] is Uninitialized && out[i] is Value))
        }),
    decreases count_uninitialized(cells), frontier.len(),
{
    if !(count_uninitialized(cells) == 0 || frontier.len() == 0) {
        let value = rule.apply_spec(previous_value);
        let stepped = expand_wave(cells, size, frontier, value);
        lemma_expand_wave_props(cells, size, frontier, value);
        lemma_expand_wave_cells(cells, size, frontier, value);
        if !rule.stops_at_spec(value) {
            lemma_expand_never_overwrites(stepped.0, size, stepped.1, value, rule);
        }
    }
}

/// How many waves the distance transform runs before it stops.
pub open spec fn expand_wave_count(
    cells: Seq<Cell<u8>>,
    size: Size,
    frontier: Seq<Grid>,
    previous_value: u8,
    rule: StepRule,
) -> nat
    decreases count_uninitialized(cells), frontier.len(),
    via expand_wave_count_decreases
{
    if count_uninitialized(cells) == 0 || frontier.len() == 0 {
        0
    } else {
        let value = rule.apply_spec(previous_value);
        let stepped = expand_wave(cells, size, frontier, value);
        if rule.stops_at_spec(value) {
            1
        } else {
            1 + expand_wave_count(stepped.0, size, stepped.1, value, rule)
        }
    }
}

#[via_fn]
proof fn expand_wave_count_decreases(
    cells: Seq<Cell<u8>>,
    size: Size,
    frontier: Seq<Grid>,
    previous_value: u8,
    rule: StepRule,
) {
    if !(count_uninitialized(cells) == 0 || frontier.len() == 0) {
        let value = rule.apply_spec(previous_value);
        lemma_expand_wave_props(cells, size, frontier, value);
    }
}

/// Stepping the start of a trajectory forward shifts its index by one.
proof fn lemma_wave_value_shift(first: u8, rule: StepRule, k: nat)
    ensures
        wave_value(rule.apply_spec(first), rule, k) == wave_value(first, rule, k + 1),
    decreases k,
{
    if k == 0 {
        assert(wave_value(rule.apply_spec(first), rule, 0nat) == rule.apply_spec(first));
        assert(wave_value(first, rule, 0nat) == first);
        assert(wave_value(first, rule, 1nat) == rule.apply_spec(wave_value(first, rule, 0nat)));
    } else {
        lemma_wave_value_shift(first, rule, (k - 1) as nat);
    }
}

/// Every cell the transform writes carries a value from the wave trajectory:
/// ring one holds `step(previous_value)`, ring two `step(step(...))`, and so
/// on. Untouched cells come out unchanged.
pub proof fn lemma_expand_values_follow_trajectory(
    cells: Seq<Cell<u8>>,
    size: Size,
    frontier: Seq<Grid>,
    previous_value: u8,
    rule: StepRule,
)
    ensures
        ({
            let out = expand_spec(cells, size, frontier, previous_value, rule);
            forall|i: int|
                0 <= i < cells.len() ==> ((#[trigger] out[i]) == cells[i] || exists|k: nat|
                    k >= 1 && out[i] == Cell::Value(wave_value(previous_value, rule, k)))
        }),
    decreases count_uninitialized(cells), frontier.len(),
{
    if !(count_uninitialized(cells) == 0 || frontier.len() == 0) {
        let value = rule.apply_spec(previous_value);
        let stepped = expand_wave(cells, size, frontier, value);
        let out = expand_spec(cells, size, frontier, previous_value, rule);
        lemma_expand_wave_props(cells, size, frontier, value);
        lemma_expand_wave_cells(cells, size, frontier, value);
        if rule.stops_at_spec(value) {
            assert forall|i: int|
                0 <= i < cells.len() implies ((#[trigger] out[i]) == cells[i] || exists|k: nat|
                    k >= 1 && out[i] == Cell::Value(wave_value(previous_value, rule, k))) by {
                if out[i] != cells[i] {
                    assert(out[i] == Cell::Value(value));
                    assert(wave_value(previous_value, rule, 0nat) == previous_value);
                    assert(wave_value(previous_value, rule, 1nat) == value);
                    assert(out[i] == Cell::Value(wave_value(previous_value, rule, 1nat)));
                }
            }
        } else {
            lemma_expand_values_follow_trajectory(stepped.0, size, stepped.1, value, rule);
            let tail = expand_spec(stepped.0, size, stepped.1, value, rule);
            assert(out == tail);
            assert forall|i: int|
                0 <= i < cells.len() implies ((#[trigger] out[i]) == cells[i] || exists|k: nat|
                    k >= 1 && out[i] == Cell::Value(wave_value(previous_value, rule, k))) by {
                if out[i] != cells[i] {
                    assert(tail[i] == out[i]);
                    if tail[i] == stepped.0[i] {
                        assert(stepped.0[i] == Cell::Value(value));
                        assert(wave_value(previous_value, rule, 0nat) == previous_value);
                        assert(wave_value(previous_value, rule, 1nat) == value);
                        assert(out[i] == Cell::Value(wave_value(previous_value, rule, 1nat)));
                    } else {
                        let k = choose|k: nat|
                            k >= 1 && tail[i] == Cell::Value(wave_value(value, rule, k));
                        lemma_wave_value_shift(previous_value, rule, k);
                        assert(out[i] == Cell::Value(wave_value(previous_value, rule, k + 1)));
                    }
                }
            }
        }
    }
}

/// The obstacle field's safety envelope: every value the decay writes is one
/// of 50, 40, 30, 20, 10, or 0 — a multiple of the decay step, never above
/// the seed.
pub proof fn lemma_obstacle_field_envelope(
    cells: Seq<Cell<u8>>,
    size: Size,
    frontier: Seq<Grid>,
)
    ensures
        ({
            let out = expand_spec(
                cells,
                size,
                frontier,
                (OBSTACLE_SEED_VALUE + OBSTACLE_REDUCE) as u8,
                StepRule::SaturatingSub(OBSTACLE_REDUCE),
            );
            forall|i: int|
                0 <= i < cells.len() ==> ((#[trigger] out[i]) == cells[i] || (out[i] matches
                    Cell::Value(v) && v <= OBSTACLE_SEED_VALUE && v % OBSTACLE_REDUCE == 0))
        }),
{
    let first = (OBSTACLE_SEED_VALUE + OBSTACLE_REDUCE) as u8;
    let rule = StepRule::SaturatingSub(OBSTACLE_REDUCE);
    lemma_expand_values_follow_trajectory(cells, size, frontier, first, rule);
    assert forall|k: nat|
        k >= 1 implies (wave_value(first, rule, k) <= OBSTACLE_SEED_VALUE && wave_value(
        first,
        rule,
        k,
    ) % OBSTACLE_REDUCE == 0) by {
        let j = (k - 1) as nat;
        assert(rule.apply_spec(first) == OBSTACLE_SEED_VALUE);
        assert(wave_value(first, rule, k) == wave_value(OBSTACLE_SEED_VALUE, rule, j)) by {
            lemma_wave_value_shift(first, rule, j);
        }
        lemma_obstacle_decay_reaches_zero(j);
        if j < 5 {
            if j == 0 {
                assert((50 - 0 * 10) % 10 == 0);
            } else if j == 1 {
                assert((50 - 1 * 10) % 10 == 0);
            } else if j == 2 {
                assert((50 - 2 * 10) % 10 == 0);
            } else if j == 3 {
                assert((50 - 3 * 10) % 10 == 0);
            } else {
                assert((50 - 4 * 10) % 10 == 0);
            }
        }
    }
}

/// A decaying expansion is bounded by its own value trajectory, whatever the
/// map: the wave value loses `amount` per wave and parks at zero, so at most
/// `previous_value / amount + 1` waves ever run.
pub proof fn lemma_decay_expansion_bounded(
    cells: Seq<Cell<u8>>,
    size: Size,
    frontier: Seq<Grid>,
    previous_value: u8,
    amount: u8,
)
    requires
        amount > 0,
    ensures
        expand_wave_count(cells, size, frontier, previous_value, StepRule::SaturatingSub(amount))
            <= previous_value as int / amount as int + 1,
    decreases previous_value,
{
    let rule = StepRule::SaturatingSub(amount);
    if !(count_uninitialized(cells) == 0 || frontier.len() == 0) {
        let value = rule.apply_spec(previous_value);
        let stepped = expand_wave(cells, size, frontier, value);
        lemma_expand_wave_props(cells, size, frontier, value);
        vstd::arithmetic::div_mod::lemma_div_pos_is_pos(previous_value as int, amount as int);
        if !rule.stops_at_spec(value) {
            assert(value == previous_value - amount);
            lemma_decay_expansion_bounded(stepped.0, size, stepped.1, value, amount);
            assert(value as int / amount as int + 1 == previous_value as int / amount as int) by {
                vstd::arithmetic::div_mod::lemma_div_plus_one(value as int, amount as int);
            }
        }
    }
}

/// The distance transform terminates: it runs at most one wave more than
/// there are uninitialized cells, because every wave that is not the last
/// writes at least one cell.
pub proof fn lemma_expand_terminates(
    cells: Seq<Cell<u8>>,
    size: Size,
    frontier: Seq<Grid>,
    previous_value: u8,
    rule: StepRule,
)
    ensures
        expand_wave_count(cells, size, frontier, previous_value, rule) <= count_uninitialized(
            cells,
        ) + 1,
    decreases count_uninitialized(cells), frontier.len(),
{
    if !(count_uninitialized(cells) == 0 || frontier.len() == 0) {
        let value = rule.apply_spec(previous_value);
        let stepped = expand_wave(cells, size, frontier, value);
        lemma_expand_wave_props(cells, size, frontier, value);
        if !rule.stops_at_spec(value) {
            lemma_expand_terminates(stepped.0, size, stepped.1, value, rule);
        }
    }
}

proof fn lemma_count_uninit_le_len(s: Seq<Cell<u8>>)
    ensures
        count_uninitialized(s) <= s.len(),
    decreases s.len(),
{
    if s.len() > 0 {
        lemma_count_uninit_le_len(s.drop_last());
    }
}

/// On a map whose cell vector matches its extent, the transform runs at most
/// one wave more than the map has cells.
pub proof fn lemma_expand_wave_count_bounded_by_area(
    cells: Seq<Cell<u8>>,
    size: Size,
    frontier: Seq<Grid>,
    previous_value: u8,
    rule: StepRule,
)
    requires
        cells.len() == size.width * size.height,
    ensures
        expand_wave_count(cells, size, frontier, previous_value, rule) <= size.width * size.height
            + 1,
{
    lemma_expand_terminates(cells, size, frontier, previous_value, rule);
    lemma_count_uninit_le_len(cells);
}

/// The number of 4-connected steps between two cells, ignoring obstacles.
pub open spec fn l1_distance(a: Grid, b: Grid) -> int {
    (if a.x >= b.x {
        a.x - b.x
    } else {
        b.x - a.x
    }) + (if a.y >= b.y {
        a.y - b.y
    } else {
        b.y - a.y
    })
}

/// A cell that is not the seed has an in-range neighbour one step closer to
/// the seed, whose neighbour list holds the cell.
proof fn lemma_step_toward_seed(c: Grid, seed: Grid, size: Size)
    requires
        grid_in_range(c, size),
        grid_in_range(seed, size),
        c != seed,
    ensures
        exists|b: Grid|
            #[trigger] grid_neighbors4(b).contains(c) && grid_in_range(b, size) && l1_distance(
                b,
                seed,
            ) == l1_distance(c, seed) - 1,
{
    if c.x > seed.x {
        let b = Grid { x: (c.x - 1) as usize, y: c.y };
        assert(grid_neighbors4(b)[1] == c);
        assert(grid_neighbors4(b).contains(c));
        assert(grid_in_range(b, size) && l1_distance(b, seed) == l1_distance(c, seed) - 1);
    } else if c.x < seed.x {
        let b = Grid { x: (c.x + 1) as usize, y: c.y };
        assert(grid_neighbors4(b)[2] == c);
        assert(grid_neighbors4(b).contains(c));
        assert(grid_in_range(b, size) && l1_distance(b, seed) == l1_distance(c, seed) - 1);
    } else if c.y > seed.y {
        let b = Grid { x: c.x, y: (c.y - 1) as usize };
        assert(grid_neighbors4(b)[0] == c);
        assert(grid_neighbors4(b).contains(c));
        assert(grid_in_range(b, size) && l1_distance(b, seed) == l1_distance(c, seed) - 1);
    } else {
        let b = Grid { x: c.x, y: (c.y + 1) as usize };
        if b.x != 0 {
            assert(grid_neighbors4(b)[3] == c);
        } else {
            assert(grid_neighbors4(b)[2] == c);
        }
        assert(grid_neighbors4(b).contains(c));
        assert(grid_in_range(b, size) && l1_distance(b, seed) == l1_distance(c, seed) - 1);
    }
}

/// Crossing to a 4-neighbour changes the distance to any cell by at most one.
proof fn lemma_neighbor_distance(f: Grid, c: Grid, seed: Grid)
    requires
        grid_neighbors4(f).contains(c),
        f.x + 1 <= usize::MAX,
        f.y + 1 <= usize::MAX,
    ensures
        l1_distance(f, seed) - 1 <= l1_distance(c, seed) <= l1_distance(f, seed) + 1,
{
    let n = grid_neighbors4(f);
    let up = Grid { x: f.x, y: (f.y + 1) as usize };
    let right = Grid { x: (f.x + 1) as usize, y: f.y };
    let i = choose|i: int| 0 <= i < n.len() && n[i] == c;
    assert(n[i] == c);
    if f.x != 0 && f.y != 0 {
        assert(n =~= seq![
            up,
            right,
            Grid { x: (f.x - 1) as usize, y: f.y },
            Grid { x: f.x, y: (f.y - 1) as usize },
        ]);
    } else if f.x != 0 {
        assert(n =~= seq![up, right, Grid { x: (f.x - 1) as usize, y: f.y }]);
    } else if f.y != 0 {
        assert(n =~= seq![up, right, Grid { x: f.x, y: (f.y - 1) as usize }]);
    } else {
        assert(n =~= seq![up, right]);
    }
}

/// What one frontier cell's visit writes, as sets: exactly the listed
/// neighbours that were still writable, each turned into a `Value` cell.
proof fn lemma_expand_from_grid_membership(
    cells: Seq<Cell<u8>>,
    size: Size,
    neighbors: Seq<Grid>,
    value: u8,
)
    requires
        cells.len() == size.width * size.height,
    ensures
        ({
            let out = expand_from_grid(cells, size, neighbors, value);
            &&& forall|c: Grid|
                #[trigger] out.1.contains(c) <==> (neighbors.contains(c) && expandable(
                    cells,
                    size,
                    c,
                ))
            &&& forall|c: Grid|
                grid_in_range(c, size) ==> ((#[trigger] out.0[grid_index(c, size)]
                    is Uninitialized) <==> (cells[grid_index(c, size)] is Uninitialized
                    && !out.1.contains(c)))
        }),
    decreases neighbors.len(),
{
    let out = expand_from_grid(cells, size, neighbors, value);
    if neighbors.len() == 0 {
        assert(forall|c: Grid| !out.1.contains(c));
        assert(forall|c: Grid| !neighbors.contains(c));
    } else {
        let g = neighbors[0];
        let rest = neighbors.subrange(1, neighbors.len() as int);
        assert(forall|c: Grid|
            #[trigger] neighbors.contains(c) <==> (c == g || rest.contains(c))) by {
            assert forall|c: Grid| #[trigger] neighbors.contains(c) implies (c == g
                || rest.contains(c)) by {
                let i = choose|i: int| 0 <= i < neighbors.len() && neighbors[i] == c;
                if i > 0 {
                    assert(rest[i - 1] == c);
                }
            }
            assert forall|c: Grid| c == g || rest.contains(c) implies #[trigger] neighbors.contains(
                c,
            ) by {
                if c != g {
                    let i = choose|i: int| 0 <= i < rest.len() && rest[i] == c;
                    assert(neighbors[i + 1] == c);
                }
            }
        }
        if expandable(cells, size, g) {
            let updated = cells.update(grid_index(g, size), Cell::Value(value));
            lemma_grid_index_round_trip(g, size);
            assert(forall|c: Grid|
                #[trigger] expandable(updated, size, c) <==> (expandable(cells, size, c) && c
                    != g)) by {
                assert forall|c: Grid| grid_in_range(c, size) && c != g implies grid_index(
                    c,
                    size,
                ) != grid_index(g, size) by {
                    lemma_grid_index_round_trip(c, size);
                }
            }
            lemma_expand_from_grid_membership(updated, size, rest, value);
            let tail = expand_from_grid(updated, size, rest, value);
            assert(out.1 == seq![g] + tail.1);
            assert(forall|c: Grid| #[trigger] out.1.contains(c) <==> (c == g || tail.1.contains(c)))
                by {
                assert forall|c: Grid| #[trigger] out.1.contains(c) implies (c == g
                    || tail.1.contains(c)) by {
                    let i = choose|i: int| 0 <= i < out.1.len() && out.1[i] == c;
                    if i > 0 {
                        assert(tail.1[i - 1] == c);
                    }
                }
                assert forall|c: Grid| c == g || tail.1.contains(c) implies #[trigger] out.1.contains(
                    c,
                ) by {
                    if c == g {
                        assert(out.1[0] == c);
                    } else {
                        let i = choose|i: int| 0 <= i < tail.1.len() && tail.1[i] == c;
                        assert(out.1[i + 1] == c);
                    }
                }
            }
            assert forall|c: Grid| grid_in_range(c, size) implies ((#[trigger] out.0[grid_index(
                c,
                size,
            )] is Uninitialized) <==> (cells[grid_index(c, size)] is Uninitialized
                && !out.1.contains(c))) by {
                lemma_grid_index_round_trip(c, size);
                if c == g {
                    assert(!(updated[grid_index(g, size)] is Uninitialized));
                } else {
                    assert(grid_index(c, size) != grid_index(g, size));
                    assert(updated[grid_index(c, size)] == cells[grid_index(c, size)]);
                }
            }
        } else {
            lemma_expand_from_grid_membership(cells, size, rest, value);
        }
    }
}

/// Whether some in-range cell of `frontier` lists `c` as a neighbour.
pub open spec fn frontier_reaches(frontier: Seq<Grid>, size: Size, c: Grid) -> bool {
    exists|f: Grid|
        #[trigger] grid_neighbors4(f).contains(c) && frontier.contains(f) && grid_in_range(f, size)
}

/// What one wave writes, as sets: exactly the writable cells some in-range
/// frontier cell reaches, and nothing else changes.
proof fn lemma_expand_wave_membership(
    cells: Seq<Cell<u8>>,
    size: Size,
    frontier: Seq<Grid>,
    value: u8,
)
    requires
        cells.len() == size.width * size.height,
    ensures
        ({
            let out = expand_wave(cells, size, frontier, value);
            &&& forall|c: Grid|
                #[trigger] out.1.contains(c) <==> (expandable(cells, size, c) && frontier_reaches(
                    frontier,
                    size,
                    c,
                ))
            &&& forall|c: Grid|
                grid_in_range(c, size) ==> ((#[trigger] out.0[grid_index(c, size)]
                    is Uninitialized) <==> (cells[grid_index(c, size)] is Uninitialized
                    && !out.1.contains(c)))
        }),
    decreases frontier.len(),
{
    let out = expand_wave(cells, size, frontier, value);
    if frontier.len() == 0 {
        assert(forall|c: Grid| !out.1.contains(c));
        assert(forall|c: Grid| !frontier.contains(c));
        assert(forall|c: Grid| !frontier_reaches(frontier, size, c));
    } else {
        let f0 = frontier[0];
        let rest = frontier.subrange(1, frontier.len() as int);
        assert(forall|f: Grid| #[trigger] frontier.contains(f) <==> (f == f0 || rest.contains(f)))
            by {
            assert forall|f: Grid| #[trigger] frontier.contains(f) implies (f == f0
                || rest.contains(f)) by {
                let i = choose|i: int| 0 <= i < frontier.len() && frontier[i] == f;
                if i > 0 {
                    assert(rest[i - 1] == f);
                }
            }
            assert forall|f: Grid| f == f0 || rest.contains(f) implies #[trigger] frontier.contains(
                f,
            ) by {
                if f != f0 {
                    let i = choose|i: int| 0 <= i < rest.len() && rest[i] == f;
                    assert(frontier[i + 1] == f);
                }
            }
        }
        if grid_in_range(f0, size) {
            let stepped = expand_from_grid(cells, size, grid_neighbors4(f0), value);
            let tail = expand_wave(stepped.0, size, rest, value);
            lemma_expand_from_grid_membership(cells, size, grid_neighbors4(f0), value);
            lemma_expand_from_grid_props(cells, size, grid_neighbors4(f0), value);
            assert(forall|c: Grid|
                #[trigger] expandable(stepped.0, size, c) <==> (expandable(cells, size, c)
                    && !stepped.1.contains(c)));
            lemma_expand_wave_membership(stepped.0, size, rest, value);
            assert(out.1 == stepped.1 + tail.1);
            assert(forall|c: Grid|
                #[trigger] out.1.contains(c) <==> (stepped.1.contains(c) || tail.1.contains(c)))
                by {
                assert forall|c: Grid| #[trigger] out.1.contains(c) implies (stepped.1.contains(c)
                    || tail.1.contains(c)) by {
                    let i = choose|i: int| 0 <= i < out.1.len() && out.1[i] == c;
                    if i < stepped.1.len() {
                        assert(stepped.1[i] == c);
                    } else {
                        assert(tail.1[i - stepped.1.len()] == c);
                    }
                }
                assert forall|c: Grid|
                    stepped.1.contains(c) || tail.1.contains(c) implies #[trigger] out.1.contains(
                    c,
                ) by {
                    if stepped.1.contains(c) {
                        let i = choose|i: int| 0 <= i < stepped.1.len() && stepped.1[i] == c;
                        assert(out.1[i] == c);
                    } else {
                        let i = choose|i: int| 0 <= i < tail.1.len() && tail.1[i] == c;
                        assert(out.1[i + stepped.1.len()] == c);
                    }
                }
            }
            assert forall|c: Grid| #[trigger] out.1.contains(c) implies (expandable(cells, size, c)
                && frontier_reaches(frontier, size, c)) by {
                if stepped.1.contains(c) {
                    assert(grid_neighbors4(f0).contains(c) && frontier.contains(f0)
                        && grid_in_range(f0, size));
                } else {
                    assert(tail.1.contains(c));
                    let f = choose|f: Grid|
                        #[trigger] grid_neighbors4(f).contains(c) && rest.contains(f)
                            && grid_in_range(f, size);
                    assert(frontier.contains(f));
                }
            }
            assert forall|c: Grid|
                expandable(cells, size, c) && frontier_reaches(
                    frontier,
                    size,
                    c,
                ) implies #[trigger] out.1.contains(c) by {
                if stepped.1.contains(c) {
                } else {
                    let f = choose|f: Grid|
                        #[trigger] grid_neighbors4(f).contains(c) && frontier.contains(f)
                            && grid_in_range(f, size);
                    if f == f0 {
                        assert(grid_neighbors4(f0).contains(c) && expandable(cells, size, c));
                        assert(stepped.1.contains(c));
                    } else {
                        assert(rest.contains(f));
                        assert(frontier_reaches(rest, size, c));
                        assert(expandable(stepped.0, size, c));
                        assert(tail.1.contains(c));
                    }
                }
            }
            assert forall|c: Grid| grid_in_range(c, size) implies ((#[trigger] out.0[grid_index(
                c,
                size,
            )] is Uninitialized) <==> (cells[grid_index(c, size)] is Uninitialized
                && !out.1.contains(c))) by {
                assert(out.0 == tail.0);
                assert((tail.0[grid_index(c, size)] is Uninitialized) <==> (stepped.0[grid_index(
                    c,
                    size,
                )] is Uninitialized && !tail.1.contains(c)));
            }
        } else {
            lemma_expand_wave_membership(cells, size, rest, value);
            assert(forall|c: Grid|
                #[trigger] frontier_reaches(frontier, size, c) <==> frontier_reaches(
                    rest,
                    size,
                    c,
                )) by {
                assert forall|c: Grid| #[trigger] frontier_reaches(
                    frontier,
                    size,
                    c,
                ) implies frontier_reaches(rest, size, c) by {
                    let f = choose|f: Grid|
                        #[trigger] grid_neighbors4(f).contains(c) && frontier.contains(f)
                            && grid_in_range(f, size);
                    assert(f != f0);
                    assert(rest.contains(f));
                }
                assert forall|c: Grid| frontier_reaches(
                    rest,
                    size,
                    c,
                ) implies #[trigger] frontier_reaches(frontier, size, c) by {
                    let f = choose|f: Grid|
                        #[trigger] grid_neighbors4(f).contains(c) && rest.contains(f)
                            && grid_in_range(f, size);
                    assert(frontier.contains(f));
                }
            }
        }
    }
}

/// The number of 4-connected steps from `c` to the nearest cell of `seeds`,
/// ignoring obstacles; meaningful when `seeds` is not empty.
pub open spec fn nearest_seed_distance(seeds: Seq<Grid>, c: Grid) -> int
    decreases seeds.len(),
{
    if seeds.len() <= 1 {
        l1_distance(c, seeds[0])
    } else {
        let rest_min = nearest_seed_distance(seeds.subrange(1, seeds.len() as int), c);
        if l1_distance(c, seeds[0]) <= rest_min {
            l1_distance(c, seeds[0])
        } else {
            rest_min
        }
    }
}

/// The nearest-seed distance is attained by some seed and is a lower bound
/// for the distance to every seed.
proof fn lemma_nearest_seed_distance_min(seeds: Seq<Grid>, c: Grid)
    requires
        seeds.len() > 0,
    ensures
        exists|s: Grid| #[trigger] seeds.contains(s) && l1_distance(c, s) == nearest_seed_distance(
            seeds,
            c,
        ),
        forall|s: Grid| #[trigger] seeds.contains(s) ==> nearest_seed_distance(seeds, c)
            <= l1_distance(c, s),
    decreases seeds.len(),
{
    assert(seeds[0] == seeds[0] && seeds.contains(seeds[0]));
    if seeds.len() > 1 {
        let rest = seeds.subrange(1, seeds.len() as int);
        lemma_nearest_seed_distance_min(rest, c);
        let s0 = choose|s: Grid|
            #[trigger] rest.contains(s) && l1_distance(c, s) == nearest_seed_distance(rest, c);
        assert forall|s: Grid| rest.contains(s) implies #[trigger] seeds.contains(s) by {
            let i = choose|i: int| 0 <= i < rest.len() && rest[i] == s;
            assert(seeds[i + 1] == s);
        }
        assert(seeds.contains(s0));
        assert forall|s: Grid| #[trigger] seeds.contains(s) implies nearest_seed_distance(seeds, c)
            <= l1_distance(c, s) by {
            let i = choose|i: int| 0 <= i < seeds.len() && seeds[i] == s;
            if i > 0 {
                assert(rest[i - 1] == s);
                assert(rest.contains(s));
            }
        }
    }
}

/// A cell at positive nearest-seed distance has an in-range neighbour exactly
/// one step closer to the seed set.
proof fn lemma_step_toward_seeds(seeds: Seq<Grid>, c: Grid, size: Size)
    requires
        seeds.len() > 0,
        forall|j: int| 0 <= j < seeds.len() ==> grid_in_range(#[trigger] seeds[j], size),
        grid_in_range(c, size),
        nearest_seed_distance(seeds, c) >= 1,
    ensures
        exists|b: Grid|
            #[trigger] grid_neighbors4(b).contains(c) && grid_in_range(b, size)
                && nearest_seed_distance(seeds, b) == nearest_seed_distance(seeds, c) - 1,
{
    lemma_nearest_seed_distance_min(seeds, c);
    let s = choose|s: Grid|
        #[trigger] seeds.contains(s) && l1_distance(c, s) == nearest_seed_distance(seeds, c);
    assert(grid_in_range(s, size)) by {
        let i = choose|i: int| 0 <= i < seeds.len() && seeds[i] == s;
        assert(seeds[i] == s);
    }
    assert(c != s);
    lemma_step_toward_seed(c, s, size);
    let b = choose|b: Grid|
        #[trigger] grid_neighbors4(b).contains(c) && grid_in_range(b, size) && l1_distance(b, s)
            == l1_distance(c, s) - 1;
    lemma_nearest_seed_distance_min(seeds, b);
    assert(nearest_seed_distance(seeds, b) <= nearest_seed_distance(seeds, c) - 1);
    let t = choose|t: Grid|
        #[trigger] seeds.contains(t) && l1_distance(b, t) == nearest_seed_distance(seeds, b);
    lemma_neighbor_distance(b, c, t);
    assert(l1_distance(c, t) <= l1_distance(b, t) + 1);
    assert(nearest_seed_distance(seeds, c) <= l1_distance(c, t));
}

/// Crossing to a 4-neighbour changes the nearest-seed distance by at most
/// one.
proof fn lemma_neighbor_seed_distance(seeds: Seq<Grid>, f: Grid, c: Grid)
    requires
        seeds.len() > 0,
        grid_neighbors4(f).contains(c),
        f.x + 1 <= usize::MAX,
        f.y + 1 <= usize::MAX,
    ensures
        nearest_seed_distance(seeds, c) <= nearest_seed_distance(seeds, f) + 1,
{
    lemma_nearest_seed_distance_min(seeds, f);
    let s = choose|s: Grid|
        #[trigger] seeds.contains(s) && l1_distance(f, s) == nearest_seed_distance(seeds, f);
    lemma_neighbor_distance(f, c, s);
    lemma_nearest_seed_distance_min(seeds, c);
    assert(nearest_seed_distance(seeds, c) <= l1_distance(c, s));
}

/// On an unobstructed field around a seed set, one wave advances the
/// frontier from the ring at nearest-seed distance `k` to the ring at
/// distance `k + 1`, and exactly the ball of radius `k + 1` is written
/// afterwards.
proof fn lemma_ring_expansion(
    cells: Seq<Cell<u8>>,
    size: Size,
    frontier: Seq<Grid>,
    value: u8,
    seeds: Seq<Grid>,
    k: int,
)
    requires
        cells.len() == size.width * size.height,
        seeds.len() > 0,
        forall|j: int| 0 <= j < seeds.len() ==> grid_in_range(#[trigger] seeds[j], size),
        k >= 0,
        forall|c: Grid|
            grid_in_range(c, size) ==> ((#[trigger] cells[grid_index(c, size)] is Uninitialized)
                <==> nearest_seed_distance(seeds, c) > k),
        forall|c: Grid|
            #[trigger] frontier.contains(c) <==> (grid_in_range(c, size) && nearest_seed_distance(
                seeds,
                c,
            ) == k),
    ensures
        ({
            let stepped = expand_wave(cells, size, frontier, value);
            &&& forall|c: Grid|
                #[trigger] stepped.1.contains(c) <==> (grid_in_range(c, size)
                    && nearest_seed_distance(seeds, c) == k + 1)
            &&& forall|c: Grid|
                grid_in_range(c, size) ==> ((#[trigger] stepped.0[grid_index(c, size)]
                    is Uninitialized) <==> nearest_seed_distance(seeds, c) > k + 1)
        }),
{
    let stepped = expand_wave(cells, size, frontier, value);
    lemma_expand_wave_membership(cells, size, frontier, value);
    assert forall|c: Grid| #[trigger] stepped.1.contains(c) implies (grid_in_range(c, size)
        && nearest_seed_distance(seeds, c) == k + 1) by {
        assert(expandable(cells, size, c) && frontier_reaches(frontier, size, c));
        let f = choose|f: Grid|
            #[trigger] grid_neighbors4(f).contains(c) && frontier.contains(f) && grid_in_range(
                f,
                size,
            );
        lemma_neighbor_seed_distance(seeds, f, c);
        assert(nearest_seed_distance(seeds, c) <= k + 1);
        assert(nearest_seed_distance(seeds, c) > k);
    }
    assert forall|c: Grid|
        grid_in_range(c, size) && nearest_seed_distance(seeds, c) == k
            + 1 implies #[trigger] stepped.1.contains(c) by {
        lemma_grid_index_round_trip(c, size);
        assert(expandable(cells, size, c));
        lemma_step_toward_seeds(seeds, c, size);
        let b = choose|b: Grid|
            #[trigger] grid_neighbors4(b).contains(c) && grid_in_range(b, size)
                && nearest_seed_distance(seeds, b) == nearest_seed_distance(seeds, c) - 1;
        assert(frontier.contains(b));
        assert(frontier_reaches(frontier, size, c));
    }
    assert forall|c: Grid| grid_in_range(c, size) implies ((#[trigger] stepped.0[grid_index(
        c,
        size,
    )] is Uninitialized) <==> nearest_seed_distance(seeds, c) > k + 1) by {
        assert((stepped.0[grid_index(c, size)] is Uninitialized) <==> (cells[grid_index(c, size)]
            is Uninitialized && !stepped.1.contains(c)));
    }
}

proof fn lemma_ring_wave_count(
    cells: Seq<Cell<u8>>,
    size: Size,
    frontier: Seq<Grid>,
    previous_value: u8,
    rule: StepRule,
    seeds: Seq<Grid>,
    k: int,
)
    requires
        cells.len() == size.width * size.height,
        seeds.len() > 0,
        forall|j: int| 0 <= j < seeds.len() ==> grid_in_range(#[trigger] seeds[j], size),
        0 <= k <= size.width + size.height - 1,
        forall|c: Grid|
            grid_in_range(c, size) ==> ((#[trigger] cells[grid_index(c, size)] is Uninitialized)
                <==> nearest_seed_distance(seeds, c) > k),
        forall|c: Grid|
            #[trigger] frontier.contains(c) <==> (grid_in_range(c, size) && nearest_seed_distance(
                seeds,
                c,
            ) == k),
    ensures
        expand_wave_count(cells, size, frontier, previous_value, rule) <= size.width + size.height
            - 1 - k,
    decreases size.width + size.height - 1 - k,
{
    if !(count_uninitialized(cells) == 0 || frontier.len() == 0) {
        let value = rule.apply_spec(previous_value);
        let stepped = expand_wave(cells, size, frontier, value);
        let front = frontier[0];
        assert(frontier.contains(front));
        assert(nearest_seed_distance(seeds, front) == k);
        assert(k <= size.width + size.height - 2) by {
            lemma_nearest_seed_distance_min(seeds, front);
            assert(nearest_seed_distance(seeds, front) <= l1_distance(front, seeds[0]));
        }
        if !rule.stops_at_spec(value) {
            lemma_expand_wave_props(cells, size, frontier, value);
            lemma_ring_expansion(cells, size, frontier, value, seeds, k);
            lemma_ring_wave_count(stepped.0, size, stepped.1, value, rule, seeds, k + 1);
        }
    }
}

/// On a field that is uninitialized everywhere but its in-range seed cells,
/// the transform run from those seeds takes at most `width + height` waves:
/// each wave advances the frontier one ring, and no cell lies farther from
/// the seed set than the grid diameter. (An obstructed map can stretch the
/// hop distance past the diameter, so the bound is stated for the
/// unobstructed field.)
pub proof fn lemma_seeded_wave_count_bounded_by_diameter(
    cells: Seq<Cell<u8>>,
    size: Size,
    seeds: Seq<Grid>,
    previous_value: u8,
    rule: StepRule,
)
    requires
        cells.len() == size.width * size.height,
        seeds.len() > 0,
        forall|j: int| 0 <= j < seeds.len() ==> grid_in_range(#[trigger] seeds[j], size),
        forall|c: Grid|
            grid_in_range(c, size) ==> ((#[trigger] cells[grid_index(c, size)] is Uninitialized)
                <==> !seeds.contains(c)),
    ensures
        expand_wave_count(cells, size, seeds, previous_value, rule) <= size.width + size.height,
{
    assert forall|c: Grid| grid_in_range(c, size) implies ((#[trigger] cells[grid_index(c, size)]
        is Uninitialized) <==> nearest_seed_distance(seeds, c) > 0) by {
        lemma_nearest_seed_distance_min(seeds, c);
        if seeds.contains(c) {
            assert(l1_distance(c, c) == 0);
            assert(nearest_seed_distance(seeds, c) <= 0);
            let s = choose|s: Grid|
                #[trigger] seeds.contains(s) && l1_distance(c, s) == nearest_seed_distance(
                    seeds,
                    c,
                );
            assert(nearest_seed_distance(seeds, c) >= 0);
        } else {
            let s = choose|s: Grid|
                #[trigger] seeds.contains(s) && l1_distance(c, s) == nearest_seed_distance(
                    seeds,
                    c,
                );
            assert(s != c);
            assert(l1_distance(c, s) > 0);
        }
    }
    assert forall|c: Grid| #[trigger] seeds.contains(c) <==> (grid_in_range(c, size)
        && nearest_seed_distance(seeds, c) == 0) by {
        lemma_nearest_seed_distance_min(seeds, c);
        if seeds.contains(c) {
            let i = choose|i: int| 0 <= i < seeds.len() && seeds[i] == c;
            assert(seeds[i] == c);
            assert(grid_in_range(c, size));
            assert(l1_distance(c, c) == 0);
            let s = choose|s: Grid|
                #[trigger] seeds.contains(s) && l1_distance(c, s) == nearest_seed_distance(
                    seeds,
                    c,
                );
            assert(nearest_seed_distance(seeds, c) == 0);
        } else {
            if grid_in_range(c, size) && nearest_seed_distance(seeds, c) == 0 {
                let s = choose|s: Grid|
                    #[trigger] seeds.contains(s) && l1_distance(c, s) == nearest_seed_distance(
                        seeds,
                        c,
                    );
                assert(s == c);
            }
        }
    }
    assert(grid_in_range(seeds[0], size));
    lemma_ring_wave_count(cells, size, seeds, previous_value, rule, seeds, 0);
}

/// Closed form of the rising trajectory: wave `j` of a unit saturating
/// increment started at one carries `min(j + 1, 255)`.
proof fn lemma_unit_rise_wave_value(j: nat)
    ensures
        wave_value(1u8, StepRule::SaturatingAdd(1), j) == if j + 1 >= 255 {
            255u8
        } else {
            (j + 1) as u8
        },
    decreases j,
{
    if j > 0 {
        lemma_unit_rise_wave_value((j - 1) as nat);
    }
}

/// Between a cell and the seed set every intermediate ring is inhabited: some
/// in-range cell sits at each smaller distance.
proof fn lemma_intermediate_ring(seeds: Seq<Grid>, c: Grid, size: Size, m: int)
    requires
        seeds.len() > 0,
        forall|j: int| 0 <= j < seeds.len() ==> grid_in_range(#[trigger] seeds[j], size),
        grid_in_range(c, size),
        0 <= m <= nearest_seed_distance(seeds, c),
    ensures
        exists|b: Grid| #[trigger] grid_in_range(b, size) && nearest_seed_distance(seeds, b) == m,
    decreases nearest_seed_distance(seeds, c) - m,
{
    if nearest_seed_distance(seeds, c) == m {
        assert(grid_in_range(c, size) && nearest_seed_distance(seeds, c) == m);
    } else {
        lemma_step_toward_seeds(seeds, c, size);
        let b = choose|b: Grid|
            #[trigger] grid_neighbors4(b).contains(c) && grid_in_range(b, size)
                && nearest_seed_distance(seeds, b) == nearest_seed_distance(seeds, c) - 1;
        lemma_intermediate_ring(seeds, b, size, m);
    }
}

/// The exact ring induction for a rising rule: once the balls and rings line
/// up at radius `k`, the finished expansion holds each farther cell's ring
/// value, and leaves every nearer cell as it stands.
proof fn lemma_ring_exact(
    cells: Seq<Cell<u8>>,
    size: Size,
    frontier: Seq<Grid>,
    previous_value: u8,
    rule: StepRule,
    seeds: Seq<Grid>,
    k: int,
    first: u8,
)
    requires
        rule is SaturatingAdd,
        cells.len() == size.width * size.height,
        seeds.len() > 0,
        forall|j: int| 0 <= j < seeds.len() ==> grid_in_range(#[trigger] seeds[j], size),
        0 <= k <= size.width + size.height - 1,
        rule.apply_spec(previous_value) == wave_value(first, rule, k as nat),
        forall|c: Grid|
            grid_in_range(c, size) ==> ((#[trigger] cells[grid_index(c, size)] is Uninitialized)
                <==> nearest_seed_distance(seeds, c) > k),
        forall|c: Grid|
            #[trigger] frontier.contains(c) <==> (grid_in_range(c, size) && nearest_seed_distance(
                seeds,
                c,
            ) == k),
    ensures
        ({
            let out = expand_spec(cells, size, frontier, previous_value, rule);
            forall|c: Grid|
                grid_in_range(c, size) ==> ((#[trigger] out[grid_index(c, size)])
                    == if nearest_seed_distance(seeds, c) <= k {
                    cells[grid_index(c, size)]
                } else {
                    Cell::Value(
                        wave_value(first, rule, (nearest_seed_distance(seeds, c) - 1) as nat),
                    )
                })
        }),
    decreases size.width + size.height - 1 - k,
{
    let out = expand_spec(cells, size, frontier, previous_value, rule);
    if count_uninitialized(cells) == 0 {
        lemma_count_uninit_zero(cells);
        assert(out == cells);
        assert forall|c: Grid| grid_in_range(c, size) implies nearest_seed_distance(seeds, c)
            <= k by {
            lemma_grid_index_round_trip(c, size);
            assert(!(cells[grid_index(c, size)] is Uninitialized));
        }
    } else if frontier.len() == 0 {
        assert(out == cells);
        assert forall|c: Grid| grid_in_range(c, size) implies nearest_seed_distance(seeds, c)
            <= k by {
            if nearest_seed_distance(seeds, c) > k {
                lemma_nearest_seed_distance_min(seeds, c);
                assert(nearest_seed_distance(seeds, c) >= 0);
                lemma_intermediate_ring(seeds, c, size, k);
                let b = choose|b: Grid|
                    #[trigger] grid_in_range(b, size) && nearest_seed_distance(seeds, b) == k;
                assert(frontier.contains(b));
            }
        }
    } else {
        let value = rule.apply_spec(previous_value);
        let stepped = expand_wave(cells, size, frontier, value);
        assert(!rule.stops_at_spec(value));
        assert(out == expand_spec(stepped.0, size, stepped.1, value, rule));
        let front = frontier[0];
        assert(frontier.contains(front));
        assert(k <= size.width + size.height - 2) by {
            lemma_nearest_seed_distance_min(seeds, front);
            assert(nearest_seed_distance(seeds, front) <= l1_distance(front, seeds[0]));
        }
        lemma_expand_wave_props(cells, size, frontier, value);
        lemma_expand_wave_cells(cells, size, frontier, value);
        lemma_ring_expansion(cells, size, frontier, value, seeds, k);
        assert(rule.apply_spec(value) == wave_value(first, rule, (k + 1) as nat));
        lemma_ring_exact(stepped.0, size, stepped.1, value, rule, seeds, k + 1, first);
        assert forall|c: Grid| grid_in_range(c, size) implies ((#[trigger] out[grid_index(c, size)])
            == if nearest_seed_distance(seeds, c) <= k {
            cells[grid_index(c, size)]
        } else {
            Cell::Value(wave_value(first, rule, (nearest_seed_distance(seeds, c) - 1) as nat))
        }) by {
            lemma_grid_index_round_trip(c, size);
            let i = grid_index(c, size);
            let d = nearest_seed_distance(seeds, c);
            if d <= k {
                assert(!(cells[i] is Uninitialized));
                assert(stepped.0[i] == cells[i]);
                assert(out[i] == stepped.0[i]);
            } else if d == k + 1 {
                assert(stepped.1.contains(c));
                assert(!(stepped.0[i] is Uninitialized));
                assert(cells[i] is Uninitialized);
                assert(stepped.0[i] == Cell::Value(value));
                assert(value == wave_value(first, rule, k as nat));
                assert(out[i] == stepped.0[i]);
            } else {
                assert(out[i] == Cell::Value(wave_value(first, rule, (d - 1) as nat)));
            }
        }
    }
}

/// On an unobstructed field the rising distance field is exact: every
/// non-seed cell ends up holding its 4-connected hop distance to the nearest
/// seed, saturated at 255, and the seed cells keep what they hold.
pub proof fn lemma_rising_field_exact(cells: Seq<Cell<u8>>, size: Size, seeds: Seq<Grid>)
    requires
        cells.len() == size.width * size.height,
        seeds.len() > 0,
        forall|j: int| 0 <= j < seeds.len() ==> grid_in_range(#[trigger] seeds[j], size),
        forall|c: Grid|
            grid_in_range(c, size) ==> ((#[trigger] cells[grid_index(c, size)] is Uninitialized)
                <==> !seeds.contains(c)),
    ensures
        ({
            let out = expand_spec(cells, size, seeds, 0, StepRule::SaturatingAdd(1));
            forall|c: Grid|
                grid_in_range(c, size) ==> ((#[trigger] out[grid_index(c, size)])
                    == if seeds.contains(c) {
                    cells[grid_index(c, size)]
                } else {
                    Cell::Value(
                        if nearest_seed_distance(seeds, c) >= 255 {
                            255u8
                        } else {
                            nearest_seed_distance(seeds, c) as u8
                        },
                    )
                })
        }),
{
    let rule = StepRule::SaturatingAdd(1);
    assert forall|c: Grid| grid_in_range(c, size) implies ((#[trigger] cells[grid_index(c, size)]
        is Uninitialized) <==> nearest_seed_distance(seeds, c) > 0) by {
        lemma_nearest_seed_distance_min(seeds, c);
        if seeds.contains(c) {
            assert(l1_distance(c, c) == 0);
            assert(nearest_seed_distance(seeds, c) <= 0);
            let s = choose|s: Grid|
                #[trigger] seeds.contains(s) && l1_distance(c, s) == nearest_seed_distance(
                    seeds,
                    c,
                );
        } else {
            let s = choose|s: Grid|
                #[trigger] seeds.contains(s) && l1_distance(c, s) == nearest_seed_distance(
                    seeds,
                    c,
                );
            assert(s != c);
            assert(l1_distance(c, s) > 0);
        }
    }
    assert forall|c: Grid| #[trigger] seeds.contains(c) <==> (grid_in_range(c, size)
        && nearest_seed_distance(seeds, c) == 0) by {
        lemma_nearest_seed_distance_min(seeds, c);
        if seeds.contains(c) {
            let i = choose|i: int| 0 <= i < seeds.len() && seeds[i] == c;
            assert(seeds[i] == c);
            assert(grid_in_range(c, size));
            assert(l1_distance(c, c) == 0);
            let s = choose|s: Grid|
                #[trigger] seeds.contains(s) && l1_distance(c, s) == nearest_seed_distance(
                    seeds,
                    c,
                );
        } else {
            if grid_in_range(c, size) && nearest_seed_distance(seeds, c) == 0 {
                let s = choose|s: Grid|
                    #[trigger] seeds.contains(s) && l1_distance(c, s) == nearest_seed_distance(
                        seeds,
                        c,
                    );
                assert(s == c);
            }
        }
    }
    assert(grid_in_range(seeds[0], size));
    assert(rule.apply_spec(0u8) == wave_value(1u8, rule, 0nat));
    lemma_ring_exact(cells, size, seeds, 0u8, rule, seeds, 0, 1u8);
    let out = expand_spec(cells, size, seeds, 0, rule);
    assert forall|c: Grid| grid_in_range(c, size) implies ((#[trigger] out[grid_index(c, size)])
        == if seeds.contains(c) {
        cells[grid_index(c, size)]
    } else {
        Cell::Value(
            if nearest_seed_distance(seeds, c) >= 255 {
                255u8
            } else {
                nearest_seed_distance(seeds, c) as u8
            },
        )
    }) by {
        let d = nearest_seed_distance(seeds, c);
        if !seeds.contains(c) {
            assert(d > 0);
            lemma_unit_rise_wave_value((d - 1) as nat);
        }
    }
}

/// Whether any cell of `map` is still `Uninitialized`.
fn map_has_uninitialized(map: &GridMap<u8>) -> (r: bool)
    ensures
        r <==> count_uninitialized(map@) != 0,
{
    let cells = map.cells();
    let n = cells.len();
    let mut k: usize = 0;
    while k < n
        invariant
            n == map@.len(),
            k <= n,
            cells@ == map@,
            forall|i: int| 0 <= i < k ==> !(map@[i] is Uninitialized),
        decreases n - k,
    {
        if cells[k].is_uninitialized() {
            proof {
                lemma_count_uninit_zero(map@);
            }
            return true;
        }
        k = k + 1;
    }
    proof {
        lemma_count_uninit_zero(map@);
    }
    false
}

/// Write `value` into every uninitialized 4-neighbour of `g`, pushing the
/// cells written onto `next`.
#[verifier::loop_isolation(false)]
fn expand_one_grid(map: &mut GridMap<u8>, g: Grid, value: u8, next: &mut Vec<Grid>)
    requires
        old(map).wf(),
        grid_in_range(g, old(map).spec_size()),
    ensures
        final(map).wf(),
        final(map).spec_size() == old(map).spec_size(),
        final(map)@ == expand_from_grid(
            old(map)@,
            old(map).spec_size(),
            grid_neighbors4(g),
            value,
        ).0,
        final(next)@ == old(next)@ + expand_from_grid(
            old(map)@,
            old(map).spec_size(),
            grid_neighbors4(g),
            value,
        ).1,
{
    let ghost size = old(map).spec_size();
    let ghost target = expand_from_grid(old(map)@, size, grid_neighbors4(g), value);
    let neighbors = g.neighbors4();
    let n = neighbors.len();
    proof {
        assert(neighbors@.subrange(0, n as int) =~= neighbors@);
    }
    let mut j: usize = 0;
    while j < n
        invariant
            map.wf(),
            map.spec_size() == size,
            j <= n,
            target.0 == expand_from_grid(
                map@,
                size,
                neighbors@.subrange(j as int, n as int),
                value,
            ).0,
            old(next)@ + target.1 == next@ + expand_from_grid(
                map@,
                size,
                neighbors@.subrange(j as int, n as int),
                value,
            ).1,
        decreases n - j,
    {
        let ghost before = map@;
        let ghost suffix = neighbors@.subrange(j as int, n as int);
        let nb = neighbors[j];
        let write = match map.cell(&nb) {
            Some(c) => c.is_uninitialized(),
            None => false,
        };
        proof {
            assert(suffix[0] == nb);
            assert(suffix.subrange(1, suffix.len() as int) =~= neighbors@.subrange(
                j + 1 as int,
                n as int,
            ));
            if grid_in_range(nb, size) {
                lemma_grid_index_round_trip(nb, size);
            }
        }
        if write {
            let _ = map.set_cell(&nb, Cell::Value(value));
            next.push(nb);
            proof {
                let rest = neighbors@.subrange(j + 1 as int, n as int);
                let tail = expand_from_grid(map@, size, rest, value);
                assert(expand_from_grid(before, size, suffix, value).0 == tail.0);
                assert(expand_from_grid(before, size, suffix, value).1 == seq![nb] + tail.1);
                assert(old(next)@ + target.1 == next@ + tail.1) by {
                    assert((next@.drop_last() + seq![nb]) + tail.1 =~= next@.drop_last() + (
                    seq![nb] + tail.1));
                    assert(next@.drop_last().push(nb) =~= next@.drop_last() + seq![nb]);
                }
            }
        } else {
            proof {
                assert(!expandable(before, size, nb));
                assert(expand_from_grid(before, size, suffix, value) == expand_from_grid(
                    before,
                    size,
                    neighbors@.subrange(j + 1 as int, n as int),
                    value,
                ));
            }
        }
        j = j + 1;
    }
    proof {
        assert(neighbors@.subrange(n as int, n as int) =~= Seq::<Grid>::empty());
        assert(next@ + Seq::<Grid>::empty() =~= next@);
        assert(old(next)@ + target.1 =~= next@);
    }
}

/// Run one wave of the expansion over `frontier`, returning the next
/// frontier: the cells written in this wave, in the order written.
#[verifier::loop_isolation(false)]
fn expand_one_wave(map: &mut GridMap<u8>, frontier: &Vec<Grid>, value: u8) -> (next: Vec<Grid>)
    requires
        old(map).wf(),
    ensures
        final(map).wf(),
        final(map).spec_size() == old(map).spec_size(),
        final(map)@ == expand_wave(old(map)@, old(map).spec_size(), frontier@, value).0,
        next@ == expand_wave(old(map)@, old(map).spec_size(), frontier@, value).1,
        count_uninitialized(final(map)@) + next@.len() == count_uninitialized(old(map)@),
{
    let ghost size = old(map).spec_size();
    let ghost target = expand_wave(old(map)@, size, frontier@, value);
    let mut next: Vec<Grid> = Vec::new();
    let n = frontier.len();
    proof {
        assert(frontier@.subrange(0, n as int) =~= frontier@);
        assert(Seq::<Grid>::empty() + target.1 =~= target.1);
    }
    let mut i: usize = 0;
    while i < n
        invariant
            map.wf(),
            map.spec_size() == size,
            i <= n,
            target.0 == expand_wave(map@, size, frontier@.subrange(i as int, n as int), value).0,
            target.1 == next@ + expand_wave(
                map@,
                size,
                frontier@.subrange(i as int, n as int),
                value,
            ).1,
        decreases n - i,
    {
        let ghost before = map@;
        let ghost suffix = frontier@.subrange(i as int, n as int);
        let g = frontier[i];
        proof {
            assert(suffix[0] == g);
            assert(suffix.subrange(1, suffix.len() as int) =~= frontier@.subrange(
                i + 1 as int,
                n as int,
            ));
        }
        let in_range = g.x < map.width() && g.y < map.height();
        if in_range {
            let ghost next_before = next@;
            expand_one_grid(map, g, value, &mut next);
            proof {
                let stepped = expand_from_grid(before, size, grid_neighbors4(g), value);
                let rest = frontier@.subrange(i + 1 as int, n as int);
                let tail = expand_wave(stepped.0, size, rest, value);
                assert(expand_wave(before, size, suffix, value).0 == tail.0);
                assert(expand_wave(before, size, suffix, value).1 == stepped.1 + tail.1);
                assert((next_before + stepped.1) + tail.1 =~= next_before + (stepped.1 + tail.1));
            }
        } else {
            proof {
                assert(expand_wave(before, size, suffix, value) == expand_wave(
                    before,
                    size,
                    frontier@.subrange(i + 1 as int, n as int),
                    value,
                ));
            }
        }
        i = i + 1;
    }
    proof {
        assert(frontier@.subrange(n as int, n as int) =~= Seq::<Grid>::empty());
        assert(next@ + Seq::<Grid>::empty() =~= next@);
        lemma_expand_wave_props(old(map)@, size, frontier@, value);
    }
    next
}

/// The distance-transform kernel: expand wave by wave from `previous_grids`,
/// writing `rule.apply(previous_value)` on the first wave and stepping the
/// value once per wave, using an explicit frontier queue.
#[verifier::loop_isolation(false)]
pub fn expand_distance_map_internal(
    map: &mut GridMap<u8>,
    previous_grids: &Vec<Grid>,
    previous_value: u8,
    rule: StepRule,
) -> (r: bool)
    requires
        old(map).wf(),
    ensures
        r,
        final(map).wf(),
        final(map).spec_size() == old(map).spec_size(),
        final(map)@ == expand_spec(
            old(map)@,
            old(map).spec_size(),
            previous_grids@,
            previous_value,
            rule,
        ),
{
    let ghost size = old(map).spec_size();
    let ghost target = expand_spec(old(map)@, size, previous_grids@, previous_value, rule);
    let mut frontier: Vec<Grid> = Vec::new();
    let m = previous_grids.len();
    let mut k: usize = 0;
    while k < m
        invariant
            k <= m,
            frontier@ =~= previous_grids@.subrange(0, k as int),
        decreases m - k,
    {
        frontier.push(previous_grids[k]);
        k = k + 1;
    }
    proof {
        assert(frontier@ =~= previous_grids@);
    }
    let mut value = previous_value;
    loop
        invariant
            map.wf(),
            map.spec_size() == size,
            expand_spec(map@, size, frontier@, value, rule) == target,
        decreases count_uninitialized(map@), frontier@.len(),
    {
        let any_uninitialized = map_has_uninitialized(map);
        if !any_uninitialized || frontier.len() == 0 {
            proof {
                assert(expand_spec(map@, size, frontier@, value, rule) == map@);
            }
            return true;
        }
        let ghost before = map@;
        let ghost frontier_before = frontier@;
        let value_next = rule.apply(value);
        let next = expand_one_wave(map, &frontier, value_next);
        proof {
            let stepped = expand_wave(before, size, frontier_before, value_next);
            assert(expand_spec(before, size, frontier_before, value, rule)
                == if rule.stops_at_spec(value_next) {
                stepped.0
            } else {
                expand_spec(stepped.0, size, stepped.1, value_next, rule)
            });
        }
        if rule.stops_at(value_next) {
            proof {
                assert(map@ == target);
            }
            return true;
        }
        frontier = next;
        value = value_next;
    }
}

/// Build the path distance field: every route cell becomes a zero-cost seed,
/// then costs rise by one per ring, saturating at 255. Fails with
/// `OutOfRangeGrid` on the first route cell that lies off the map.
#[verifier::loop_isolation(false)]
pub fn path_distance_map(map: &GridMap<u8>, path: &Vec<Grid>) -> (r: Result<GridMap<u8>, Error>)
    requires
        map.wf(),
    ensures
        match seed_cells(cells_without_value(map@), map.spec_size(), path@) {
            Ok(seeded) => r matches Ok(m) && m.wf() && m.spec_size() == map.spec_size() && m@
                == expand_spec(seeded, map.spec_size(), path@, 0, StepRule::SaturatingAdd(1)),
            Err(g) => r matches Err(e) && e == Error::OutOfRangeGrid(g),
        },
{
    let ghost size = map.spec_size();
    let ghost base = cells_without_value(map@);
    let mut path_distance_map = map.copy_without_value();
    let n = path.len();
    proof {
        assert(path@.subrange(0, n as int) =~= path@);
    }
    let mut i: usize = 0;
    while i < n
        invariant
            path_distance_map.wf(),
            path_distance_map.spec_size() == size,
            i <= n,
            seed_cells(path_distance_map@, size, path@.subrange(i as int, n as int)) == seed_cells(
                base,
                size,
                path@,
            ),
        decreases n - i,
    {
        let ghost suffix = path@.subrange(i as int, n as int);
        proof {
            assert(suffix[0] == path@[i as int]);
            assert(suffix.subrange(1, suffix.len() as int) =~= path@.subrange(
                i + 1 as int,
                n as int,
            ));
            if grid_in_range(path@[i as int], size) {
                lemma_grid_index_round_trip(path@[i as int], size);
            }
        }
        let g = path[i];
        match path_distance_map.set_value(&g, 0) {
            Some(_) => {},
            None => {
                return Err(Error::OutOfRangeGrid(g));
            },
        }
        i = i + 1;
    }
    proof {
        assert(path@.subrange(n as int, n as int) =~= Seq::<Grid>::empty());
    }
    expand_distance_map_internal(&mut path_distance_map, path, 0, StepRule::SaturatingAdd(1));
    Ok(path_distance_map)
}

/// Seed every coordinate of `seeds` with a zero-cost `Value` cell, failing on
/// the first coordinate off the map.
pub open spec fn seed_cells(cells: Seq<Cell<u8>>, size: Size, seeds: Seq<Grid>) -> Result<
    Seq<Cell<u8>>,
    Grid,
>
    decreases seeds.len(),
{
    if seeds.len() == 0 {
        Ok(cells)
    } else {
        let g = seeds[0];
        if grid_in_range(g, size) && grid_index(g, size) < cells.len() {
            seed_cells(
                cells.update(grid_index(g, size), Cell::Value(0u8)),
                size,
                seeds.subrange(1, seeds.len() as int),
            )
        } else {
            Err(g)
        }
    }
}

/// Build the goal distance field: a single zero-cost seed at `goal`, costs
/// rising by one per ring, saturating at 255.
pub fn goal_distance_map(map: &GridMap<u8>, goal: &Grid) -> (r: Result<GridMap<u8>, Error>)
    requires
        map.wf(),
    ensures
        grid_in_range(*goal, map.spec_size()) ==> (r matches Ok(m) && m.wf() && m.spec_size()
            == map.spec_size() && m@ == expand_spec(
            cells_without_value(map@).update(grid_index(*goal, map.spec_size()), Cell::Value(0u8)),
            map.spec_size(),
            seq![*goal],
            0,
            StepRule::SaturatingAdd(1),
        )),
        !grid_in_range(*goal, map.spec_size()) ==> (r matches Err(e) && e == Error::OutOfRangeGrid(
            *goal,
        )),
{
    let ghost size = map.spec_size();
    let mut goal_distance_map = map.copy_without_value();
    proof {
        if grid_in_range(*goal, size) {
            lemma_grid_index_round_trip(*goal, size);
        }
    }
    match goal_distance_map.set_value(goal, 0) {
        Some(_) => {},
        None => {
            return Err(Error::OutOfRangeGrid(*goal));
        },
    }
    let mut seeds: Vec<Grid> = Vec::new();
    seeds.push(*goal);
    proof {
        assert(seeds@ =~= seq![*goal]);
    }
    expand_distance_map_internal(&mut goal_distance_map, &seeds, 0, StepRule::SaturatingAdd(1));
    Ok(goal_distance_map)
}

/// The obstacle coordinates of `cells` from position `k` on, in row-major
/// order.
pub open spec fn obstacle_seeds(cells: Seq<Cell<u8>>, size: Size, k: int) -> Seq<Grid>
    decreases cells.len() - k,
{
    if k < 0 || k >= cells.len() {
        Seq::<Grid>::empty()
    } else {
        let rest = obstacle_seeds(cells, size, k + 1);
        if cells[k] is Obstacle {
            seq![grid_of_index(k, size)] + rest
        } else {
            rest
        }
    }
}

/// Build the obstacle inflation field: every `Obstacle` cell seeds a ring of
/// cost 50 that decays by 10 per ring and truncates once it reaches zero,
/// leaving the rest of the map untouched.
#[verifier::loop_isolation(false)]
pub fn obstacle_distance_map(map: &GridMap<u8>) -> (r: Result<GridMap<u8>, Error>)
    requires
        map.wf(),
    ensures
        r matches Ok(m) && m.wf() && m.spec_size() == map.spec_size() && m@ == expand_spec(
            cells_without_value(map@),
            map.spec_size(),
            obstacle_seeds(cells_without_value(map@), map.spec_size(), 0),
            (OBSTACLE_SEED_VALUE + OBSTACLE_REDUCE) as u8,
            StepRule::SaturatingSub(OBSTACLE_REDUCE),
        ),
{
    let ghost size = map.spec_size();
    let mut distance_map = map.copy_without_value();
    let ghost base = distance_map@;
    let ghost all_seeds = obstacle_seeds(base, size, 0);
    let mut obstacle_grid: Vec<Grid> = Vec::new();
    let height = distance_map.height();
    let width = distance_map.width();
    let mut y: usize = 0;
    while y < height
        invariant
            y <= height,
            obstacle_grid@ + obstacle_seeds(base, size, (y * width) as int) =~= all_seeds,
        decreases height - y,
    {
        let mut x: usize = 0;
        while x < width
            invariant
                x <= width,
                y < height,
                obstacle_grid@ + obstacle_seeds(base, size, (y * width + x) as int) =~= all_seeds,
            decreases width - x,
        {
            let grid = Grid { x, y };
            let ghost k = (y * width + x) as int;
            proof {
                lemma_grid_index_round_trip(grid, size);
                assert(grid_index(grid, size) == k) by (nonlinear_arith)
                    requires
                        k == y * width + x,
                        grid_index(grid, size) == size.width * grid.y + grid.x,
                        grid == (Grid { x, y }),
                        size.width == width,
                ;
                assert(grid_of_index(k, size) == grid);
                assert(k < base.len());
            }
            let is_obstacle = match distance_map.cell(&grid) {
                Some(c) => c.is_obstacle(),
                None => {
                    return Err(Error::OutOfRangeGrid(grid));
                },
            };
            if is_obstacle {
                obstacle_grid.push(grid);
                proof {
                    assert(obstacle_seeds(base, size, k) == seq![grid] + obstacle_seeds(
                        base,
                        size,
                        k + 1,
                    ));
                    assert((obstacle_grid@.drop_last() + seq![grid]) + obstacle_seeds(
                        base,
                        size,
                        k + 1,
                    ) =~= obstacle_grid@.drop_last() + (seq![grid] + obstacle_seeds(
                        base,
                        size,
                        k + 1,
                    )));
                    assert(obstacle_grid@.drop_last().push(grid) =~= obstacle_grid@.drop_last()
                        + seq![grid]);
                }
            }
            x = x + 1;
            proof {
                assert((y * width + x) as int == k + 1);
            }
        }
        y = y + 1;
        proof {
            assert(y * width == (y - 1) * width + width) by (nonlinear_arith);
        }
    }
    proof {
        assert((y * width) as int >= base.len()) by (nonlinear_arith)
            requires
                y == height,
                base.len() == size.width * size.height,
                width == size.width,
                height == size.height,
        ;
        assert(obstacle_seeds(base, size, (y * width) as int) =~= Seq::<Grid>::empty());
        assert(obstacle_grid@ + Seq::<Grid>::empty() =~= obstacle_grid@);
        assert(obstacle_grid@ =~= all_seeds);
    }
    expand_distance_map_internal(
        &mut distance_map,
        &obstacle_grid,
        OBSTACLE_SEED_VALUE + OBSTACLE_REDUCE,
        StepRule::SaturatingSub(OBSTACLE_REDUCE),
    );
    Ok(distance_map)
}

} // verus!
