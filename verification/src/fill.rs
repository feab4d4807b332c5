//! Flood fill.

use vstd::prelude::*;

use crate::grid::{cell_index, on_canvas, Grid, CELLS, COLS, ROWS};

verus! {

/// Whether two cells are neighbours: at a side, or with `diagonals` at a
/// corner too.
pub open spec fn adjacent(p: (usize, usize), q: (usize, usize), diagonals: bool) -> bool {
    &&& on_canvas(p.0 as int, p.1 as int)
    &&& on_canvas(q.0 as int, q.1 as int)
    &&& p != q
    &&& -1 <= q.0 - p.0 <= 1
    &&& -1 <= q.1 - p.1 <= 1
    &&& diagonals || p.0 == q.0 || p.1 == q.1
}

/// The position of the first cell from position `k` on that is a neighbour of
/// `cell`, or the length of the list if there is none.
pub open spec fn first_beside(
    cells: Seq<(usize, usize)>,
    cell: (usize, usize),
    diagonals: bool,
    k: int,
) -> int
    decreases cells.len() - k,
{
    if k >= cells.len() {
        cells.len() as int
    } else if adjacent(cells[k], cell, diagonals) {
        k
    } else {
        first_beside(cells, cell, diagonals, k + 1)
    }
}

/// Whether `p` comes before `q` row by row.
pub open spec fn reads_before(p: (usize, usize), q: (usize, usize)) -> bool {
    p.1 < q.1 || p.1 == q.1 && p.0 < q.0
}

/// Whether the cells of a list stand in the order in which they are found: each
/// but the first after the first of its neighbours, in the order of those
/// neighbours, and beside the same neighbour row by row.
pub open spec fn in_order_found(cells: Seq<(usize, usize)>, diagonals: bool) -> bool {
    &&& forall|i: int|
        0 < i < cells.len() ==> 0 <= first_beside(cells, #[trigger] cells[i], diagonals, 0) < i
    &&& forall|i: int, j: int|
        0 < i < j < cells.len() ==> {
            let f = first_beside(cells, #[trigger] cells[i], diagonals, 0);
            let g = first_beside(cells, #[trigger] cells[j], diagonals, 0);
            f < g || f == g && reads_before(cells[i], cells[j])
        }
}

/// What a fill spreads over: the characters of the canvas, the character that
/// it replaces, whether it passes corners, and the cell it starts from.
pub struct Region {
    pub committed: Seq<char>,
    pub target: char,
    pub diagonals: bool,
    pub start: (usize, usize),
}

impl Region {
    /// Whether `cell` is reached from the start within `k` steps, each to a
    /// neighbour that holds the target character.
    pub open spec fn within(self, cell: (usize, usize), k: nat) -> bool
        decreases k,
    {
        if k == 0 {
            cell == self.start
        } else {
            ||| self.within(cell, (k - 1) as nat)
            ||| on_canvas(cell.0 as int, cell.1 as int) && self.committed[cell_index(
                cell.0 as int,
                cell.1 as int,
            )] == self.target && exists|from: (usize, usize)|
                self.within(from, (k - 1) as nat) && #[trigger] adjacent(from, cell, self.diagonals)
        }
    }

    /// Whether `cell` belongs to the region.
    pub open spec fn holds(self, cell: (usize, usize)) -> bool {
        exists|k: nat| #[trigger] self.within(cell, k)
    }

    /// Whether `cell` may be entered from a neighbour.
    pub open spec fn open_cell(self, cell: (usize, usize)) -> bool {
        on_canvas(cell.0 as int, cell.1 as int) && self.committed[cell_index(
            cell.0 as int,
            cell.1 as int,
        )] == self.target
    }

    proof fn lemma_within_mono(self, cell: (usize, usize), k: nat, m: nat)
        requires
            k <= m,
            self.within(cell, k),
        ensures
            self.within(cell, m),
        decreases m - k,
    {
        if k < m {
            self.lemma_within_mono(cell, k, (m - 1) as nat);
        }
    }
}

/// A list of distinct canvas cells is no longer than the canvas.
proof fn lemma_distinct_cells(cells: Seq<(usize, usize)>)
    requires
        cells.no_duplicates(),
        forall|i: int|
            0 <= i < cells.len() ==> on_canvas((#[trigger] cells[i]).0 as int, cells[i].1 as int),
    ensures
        cells.len() <= CELLS,
{
    let ids = cells.map_values(|p: (usize, usize)| cell_index(p.0 as int, p.1 as int));
    assert(ids.no_duplicates()) by {
        assert forall|i: int, j: int| 0 <= i < ids.len() && 0 <= j < ids.len() && i != j implies ids[i]
            != ids[j] by {
            assert(cells[i] != cells[j]);
        }
    }
    ids.unique_seq_to_set();
    let range = vstd::set_lib::set_int_range(0, CELLS as int);
    vstd::set_lib::lemma_int_range(0, CELLS as int);
    assert(ids.to_set().subset_of(range)) by {
        assert forall|x: int| ids.to_set().contains(x) implies range.contains(x) by {
            let i = choose|i: int| 0 <= i < ids.len() && ids[i] == x;
            assert(on_canvas(cells[i].0 as int, cells[i].1 as int));
        }
    }
    vstd::set_lib::lemma_len_subset(ids.to_set(), range);
}

/// The progress of a fill: `queue` lists the cells found, `level` their
/// distances, and the first `head` of them have had their neighbours looked at.
spec fn filling(reg: Region, queue: Seq<(usize, usize)>, level: Seq<nat>, head: int) -> bool {
    &&& queue.len() == level.len()
    &&& 0 <= head <= queue.len()
    &&& queue.len() > 0
    &&& queue[0] == reg.start
    &&& level[0] == 0
    &&& queue.no_duplicates()
    &&& forall|i: int|
        0 <= i < queue.len() ==> on_canvas((#[trigger] queue[i]).0 as int, queue[i].1 as int)
    &&& forall|i: int| 0 <= i < queue.len() ==> reg.within(#[trigger] queue[i], level[i])
    &&& forall|i: int, k: nat|
        0 <= i < queue.len() && k < level[i] ==> !#[trigger] reg.within(queue[i], k)
    &&& forall|i: int, j: int| 0 <= i <= j < queue.len() ==> level[i] <= level[j]
    &&& forall|i: int|
        0 <= i < queue.len() && head < queue.len() ==> #[trigger] level[i] <= level[head] + 1
    &&& forall|i: int, cell: (usize, usize)|
        0 <= i < head && #[trigger] adjacent(queue[i], cell, reg.diagonals) && reg.open_cell(cell)
            ==> queue.contains(cell)
    &&& forall|cell: (usize, usize), k: nat|
        head < queue.len() && k <= level[head] && #[trigger] reg.within(cell, k) ==> queue.contains(cell)
}

/// The fill when it starts.
proof fn lemma_filling_start(reg: Region)
    requires
        on_canvas(reg.start.0 as int, reg.start.1 as int),
    ensures
        filling(reg, seq![reg.start], seq![0nat], 0),
{
    let queue = seq![reg.start];
    let level = seq![0nat];
    assert(reg.within(reg.start, 0));
    assert(queue[0] == reg.start);
    assert forall|cell: (usize, usize), k: nat|
        0 < queue.len() && k <= level[0] && #[trigger] reg.within(cell, k) implies queue.contains(cell) by {
        assert(queue[0] == cell);
    }
}

/// The fill after a new cell was found beside the cell at `head`.
proof fn lemma_filling_push(
    reg: Region,
    queue: Seq<(usize, usize)>,
    level: Seq<nat>,
    head: int,
    cell: (usize, usize),
)
    requires
        filling(reg, queue, level, head),
        head < queue.len(),
        adjacent(queue[head], cell, reg.diagonals),
        reg.open_cell(cell),
        !queue.contains(cell),
    ensures
        filling(reg, queue.push(cell), level.push(level[head] + 1), head),
{
    let q = queue.push(cell);
    let lv = level.push(level[head] + 1);
    let n = queue.len() as int;
    assert(reg.within(queue[head], level[head]));
    assert(reg.within(cell, level[head] + 1));
    assert forall|i: int, k: nat| 0 <= i < q.len() && k < lv[i] implies !#[trigger] reg.within(q[i], k) by {
        if i == n {
            if reg.within(cell, k) {
                assert(k <= level[head]);
                assert(queue.contains(cell));
            }
        } else {
            assert(q[i] == queue[i]);
        }
    }
    assert forall|i: int| 0 <= i < q.len() implies reg.within(#[trigger] q[i], lv[i]) by {
        if i < n {
            assert(q[i] == queue[i]);
        }
    }
    assert forall|i: int| 0 <= i < q.len() implies on_canvas((#[trigger] q[i]).0 as int, q[i].1 as int) by {
        if i < n {
            assert(q[i] == queue[i]);
        }
    }
    assert(q.no_duplicates()) by {
        assert forall|i: int, j: int| 0 <= i < q.len() && 0 <= j < q.len() && i != j implies q[i] != q[j] by {
            if i == n {
                assert(queue.contains(queue[j]));
            } else if j == n {
                assert(queue.contains(queue[i]));
            } else {
                assert(queue[i] != queue[j]);
            }
        }
    }
    assert forall|i: int, j: int| 0 <= i <= j < q.len() implies lv[i] <= lv[j] by {
        if j == n && i < n {
            assert(level[i] <= level[head] + 1);
        }
    }
    assert forall|c: (usize, usize)| queue.contains(c) implies q.contains(c) by {
        let i = choose|i: int| 0 <= i < queue.len() && queue[i] == c;
        assert(q[i] == c);
    }
    assert forall|i: int, c: (usize, usize)|
        0 <= i < head && #[trigger] adjacent(q[i], c, reg.diagonals) && reg.open_cell(c) implies q.contains(
        c,
    ) by {
        assert(q[i] == queue[i]);
        assert(adjacent(queue[i], c, reg.diagonals));
    }
}

/// The fill after all neighbours of the cell at `head` were looked at.
proof fn lemma_filling_advance(reg: Region, queue: Seq<(usize, usize)>, level: Seq<nat>, head: int)
    requires
        filling(reg, queue, level, head),
        head < queue.len(),
        forall|cell: (usize, usize)|
            #[trigger] adjacent(queue[head], cell, reg.diagonals) && reg.open_cell(cell)
                ==> queue.contains(cell),
    ensures
        filling(reg, queue, level, head + 1),
{
    if head + 1 < queue.len() {
        let d = level[head + 1];
        assert(level[head] <= d <= level[head] + 1);
        assert forall|cell: (usize, usize), k: nat|
            k <= d && #[trigger] reg.within(cell, k) implies queue.contains(cell) by {
            if k > level[head] {
                assert(k == d && d == level[head] + 1);
                if !reg.within(cell, (k - 1) as nat) {
                    let from = choose|from: (usize, usize)|
                        reg.within(from, (k - 1) as nat) && #[trigger] adjacent(from, cell, reg.diagonals);
                    assert(queue.contains(from));
                    let m = choose|m: int| 0 <= m < queue.len() && queue[m] == from;
                    if level[m] > level[head] {
                        assert(!reg.within(queue[m], (k - 1) as nat));
                    }
                    assert(m <= head) by {
                        if m > head {
                            assert(level[head + 1] <= level[m]);
                        }
                    }
                    assert(adjacent(queue[m], cell, reg.diagonals));
                }
            }
        }
        assert forall|i: int| 0 <= i < queue.len() implies #[trigger] level[i] <= level[head + 1] + 1 by {
            assert(level[i] <= level[head] + 1);
        }
    }
}

/// A fill with nothing left to look at has found the whole region.
proof fn lemma_filling_done(
    reg: Region,
    queue: Seq<(usize, usize)>,
    level: Seq<nat>,
    cell: (usize, usize),
    k: nat,
)
    requires
        filling(reg, queue, level, queue.len() as int),
        reg.within(cell, k),
    ensures
        queue.contains(cell),
    decreases k,
{
    if k == 0 {
        assert(queue[0] == cell);
    } else if reg.within(cell, (k - 1) as nat) {
        lemma_filling_done(reg, queue, level, cell, (k - 1) as nat);
    } else {
        let from = choose|from: (usize, usize)|
            reg.within(from, (k - 1) as nat) && #[trigger] adjacent(from, cell, reg.diagonals);
        lemma_filling_done(reg, queue, level, from, (k - 1) as nat);
        let m = choose|m: int| 0 <= m < queue.len() && queue[m] == from;
        assert(adjacent(queue[m], cell, reg.diagonals));
    }
}

/// Who found whom: `finder` has for each cell of `queue` but the first the
/// position of the first of its neighbours, which is below `limit`.
spec fn found(
    reg: Region,
    queue: Seq<(usize, usize)>,
    finder: Seq<int>,
    limit: int,
) -> bool {
    &&& finder.len() == queue.len()
    &&& forall|i: int| 0 < i < queue.len() ==> 0 <= #[trigger] finder[i] < i && finder[i] < limit
    &&& forall|i: int| 0 < i < queue.len() ==> adjacent(queue[#[trigger] finder[i]], queue[i], reg.diagonals)
    &&& forall|i: int, k: int|
        0 < i < queue.len() && 0 <= k < finder[i] ==> !#[trigger] adjacent(queue[k], queue[i], reg.diagonals)
    &&& forall|i: int, j: int|
        0 < i < j < queue.len() ==> #[trigger] finder[i] < #[trigger] finder[j] || finder[i] == finder[j]
            && reads_before(queue[i], queue[j])
}

proof fn lemma_found_push(
    reg: Region,
    queue: Seq<(usize, usize)>,
    level: Seq<nat>,
    finder: Seq<int>,
    head: int,
    cell: (usize, usize),
)
    requires
        filling(reg, queue, level, head),
        found(reg, queue, finder, head + 1),
        head < queue.len(),
        adjacent(queue[head], cell, reg.diagonals),
        reg.open_cell(cell),
        !queue.contains(cell),
        forall|i: int| 0 < i < queue.len() && #[trigger] finder[i] == head ==> reads_before(queue[i], cell),
    ensures
        found(reg, queue.push(cell), finder.push(head), head + 1),
{
    let q = queue.push(cell);
    let f = finder.push(head);
    let n = queue.len() as int;
    assert forall|i: int| 0 < i < q.len() implies adjacent(q[#[trigger] f[i]], q[i], reg.diagonals) by {
        if i < n {
            assert(f[i] == finder[i]);
        }
    }
    assert forall|i: int, k: int| 0 < i < q.len() && 0 <= k < f[i] implies !#[trigger] adjacent(
        q[k],
        q[i],
        reg.diagonals,
    ) by {
        assert(q[k] == queue[k]);
        if i == n {
            if adjacent(queue[k], cell, reg.diagonals) {
                assert(queue.contains(cell));
            }
        } else {
            assert(!adjacent(queue[k], queue[i], reg.diagonals));
        }
    }
    assert forall|i: int, j: int| 0 < i < j < q.len() implies #[trigger] f[i] < #[trigger] f[j] || f[i] == f[j]
        && reads_before(q[i], q[j]) by {
        assert(f[i] == finder[i]);
        if j < n {
            assert(f[j] == finder[j]);
        }
    }
}

proof fn lemma_first_beside(cells: Seq<(usize, usize)>, cell: (usize, usize), diagonals: bool, k: int, f: int)
    requires
        0 <= k <= f < cells.len(),
        adjacent(cells[f], cell, diagonals),
        forall|m: int| k <= m < f ==> !#[trigger] adjacent(cells[m], cell, diagonals),
    ensures
        first_beside(cells, cell, diagonals, k) == f,
    decreases f - k,
{
    if k < f {
        assert(!adjacent(cells[k], cell, diagonals));
        lemma_first_beside(cells, cell, diagonals, k + 1, f);
    }
}

proof fn lemma_found_in_order(reg: Region, queue: Seq<(usize, usize)>, finder: Seq<int>, limit: int)
    requires
        found(reg, queue, finder, limit),
    ensures
        in_order_found(queue, reg.diagonals),
{
    assert forall|i: int| 0 < i < queue.len() implies first_beside(
        queue,
        #[trigger] queue[i],
        reg.diagonals,
        0,
    ) == finder[i] by {
        assert(0 <= finder[i] < i);
        assert forall|m: int| 0 <= m < finder[i] implies !#[trigger] adjacent(
            queue[m],
            queue[i],
            reg.diagonals,
        ) by {}
        lemma_first_beside(queue, queue[i], reg.diagonals, 0, finder[i]);
    }
    assert forall|i: int, j: int| 0 < i < j < queue.len() implies {
        let f = first_beside(queue, #[trigger] queue[i], reg.diagonals, 0);
        let g = first_beside(queue, #[trigger] queue[j], reg.diagonals, 0);
        f < g || f == g && reads_before(queue[i], queue[j])
    } by {
        assert(finder[i] < finder[j] || finder[i] == finder[j] && reads_before(queue[i], queue[j]));
    }
}

/// Every cell reachable from the start through cells that hold `target_char`,
/// nearest first, in the order in which they are found when the neighbours of a
/// cell are looked at row by row. The start itself belongs to the region whatever
/// it holds.
pub fn flood_fill_cells(
    start_col: usize,
    start_row: usize,
    target_char: char,
    committed: &[char],
    diagonals: bool,
) -> (cells: Vec<(usize, usize)>)
    requires
        on_canvas(start_col as int, start_row as int),
        committed@.len() >= CELLS,
    ensures
        ({
            let reg = Region {
                committed: committed@,
                target: target_char,
                diagonals,
                start: (start_col, start_row),
            };
            &&& cells@.no_duplicates()
            &&& forall|cell: (usize, usize)| #[trigger] cells@.contains(cell) <==> reg.holds(cell)
            &&& forall|i: int, j: int, k: nat|
                0 <= i <= j < cells@.len() && #[trigger] reg.within(cells@[j], k) ==> #[trigger] reg.within(
                    cells@[i],
                    k,
                )
            &&& cells@.len() > 0
            &&& cells@[0] == (start_col, start_row)
            &&& in_order_found(cells@, diagonals)
        }),
{
    let ghost reg = Region {
        committed: committed@,
        target: target_char,
        diagonals,
        start: (start_col, start_row),
    };
    let mut visited: Vec<bool> = vec![false; CELLS];
    let mut queue: Vec<(usize, usize)> = Vec::new();
    let ghost mut level: Seq<nat> = seq![0nat];
    let ghost mut finder: Seq<int> = seq![0int];
    visited.set(Grid::idx(start_col, start_row), true);
    queue.push((start_col, start_row));
    let mut head: usize = 0;
    proof {
        lemma_filling_start(reg);
        assert(queue@ =~= seq![reg.start]);
        assert forall|c: (usize, usize)| on_canvas(c.0 as int, c.1 as int) implies visited@[cell_index(
            c.0 as int,
            c.1 as int,
        )] == #[trigger] queue@.contains(c) by {
            if c == reg.start {
                assert(queue@[0] == c);
            }
        }
    }
    while head < queue.len()
        invariant
            reg == (Region {
                committed: committed@,
                target: target_char,
                diagonals,
                start: (start_col, start_row),
            }),
            committed@.len() >= CELLS,
            visited@.len() == CELLS,
            filling(reg, queue@, level, head as int),
            found(reg, queue@, finder, head as int),
            forall|c: (usize, usize)|
                on_canvas(c.0 as int, c.1 as int) ==> visited@[cell_index(c.0 as int, c.1 as int)]
                    == #[trigger] queue@.contains(c),
        decreases CELLS - head,
    {
        proof {
            lemma_distinct_cells(queue@);
        }
        let (c, r) = queue[head];
        assert(on_canvas(queue@[head as int].0 as int, queue@[head as int].1 as int));
        let mut t: i64 = 0;
        while t < 9
            invariant
                reg == (Region {
                    committed: committed@,
                    target: target_char,
                    diagonals,
                    start: (start_col, start_row),
                }),
                committed@.len() >= CELLS,
                visited@.len() == CELLS,
                head < queue@.len(),
                (c, r) == queue@[head as int],
                on_canvas(c as int, r as int),
                filling(reg, queue@, level, head as int),
                found(reg, queue@, finder, head + 1),
                forall|i: int|
                    0 < i < queue@.len() && #[trigger] finder[i] == head ==> 3 * (queue@[i].1 - r + 1) + (
                    queue@[i].0 - c + 1) < t,
                forall|p: (usize, usize)|
                    on_canvas(p.0 as int, p.1 as int) ==> visited@[cell_index(p.0 as int, p.1 as int)]
                        == #[trigger] queue@.contains(p),
                0 <= t <= 9,
                forall|p: (usize, usize)|
                    #[trigger] adjacent((c, r), p, diagonals) && reg.open_cell(p) && 3 * (p.1 - r + 1) + (p.0
                        - c + 1) < t ==> queue@.contains(p),
            decreases 9 - t,
        {
            let dr: i64 = t / 3 - 1;
            let dc: i64 = t % 3 - 1;
            let ghost before = queue@;
            if !(dc == 0 && dr == 0) && (diagonals || dc == 0 || dr == 0) {
                let nc: i64 = c as i64 + dc;
                let nr: i64 = r as i64 + dr;
                if nc >= 0 && nr >= 0 && nc < COLS as i64 && nr < ROWS as i64 {
                    let cell: (usize, usize) = (nc as usize, nr as usize);
                    let i: usize = Grid::idx(cell.0, cell.1);
                    assert(adjacent((c, r), cell, diagonals));
                    if !visited[i] && committed[i] == target_char {
                        assert(visited@[cell_index(cell.0 as int, cell.1 as int)] == queue@.contains(cell));
                        proof {
                            assert forall|i: int| 0 < i < queue@.len() && #[trigger] finder[i]
                                == head implies reads_before(queue@[i], cell) by {
                                assert(adjacent(queue@[finder[i]], queue@[i], diagonals));
                            }
                            lemma_found_push(reg, queue@, level, finder, head as int, cell);
                            finder = finder.push(head as int);
                            lemma_filling_push(reg, queue@, level, head as int, cell);
                            level = level.push(level[head as int] + 1);
                        }
                        visited.set(i, true);
                        queue.push(cell);
                        proof {
                            assert(queue@[before.len() as int] == cell);
                            assert forall|p: (usize, usize)|
                                on_canvas(p.0 as int, p.1 as int) implies visited@[cell_index(
                                p.0 as int,
                                p.1 as int,
                            )] == #[trigger] queue@.contains(p) by {
                                assert(before.contains(p) ==> queue@.contains(p)) by {
                                    if before.contains(p) {
                                        let m = choose|m: int| 0 <= m < before.len() && before[m] == p;
                                        assert(queue@[m] == p);
                                    }
                                }
                                if queue@.contains(p) && !before.contains(p) {
                                    let m = choose|m: int| 0 <= m < queue@.len() && queue@[m] == p;
                                    if m < before.len() {
                                        assert(before[m] == p);
                                    }
                                    assert(p == cell);
                                }
                            }
                        }
                    }
                    assert(queue@.contains(cell) || committed@[i as int] != target_char) by {
                        assert(visited@[cell_index(cell.0 as int, cell.1 as int)] == queue@.contains(cell));
                    }
                }
            }
            proof {
                assert forall|p: (usize, usize)|
                    #[trigger] adjacent((c, r), p, diagonals) && reg.open_cell(p) && 3 * (p.1 - r + 1) + (p.0
                        - c + 1) < t + 1 implies queue@.contains(p) by {
                    if 3 * (p.1 - r + 1) + (p.0 - c + 1) < t {
                        assert(before.contains(p));
                        let m = choose|m: int| 0 <= m < before.len() && before[m] == p;
                        assert(queue@[m] == p);
                    } else {
                        assert(p.0 == c + dc && p.1 == r + dr);
                    }
                }
            }
            t = t + 1;
        }
        proof {
            lemma_filling_advance(reg, queue@, level, head as int);
        }
        head = head + 1;
    }
    proof {
        lemma_found_in_order(reg, queue@, finder, head as int);
        assert forall|cell: (usize, usize)| #[trigger] queue@.contains(cell) <==> reg.holds(cell) by {
            if queue@.contains(cell) {
                let i = choose|i: int| 0 <= i < queue@.len() && queue@[i] == cell;
                assert(reg.within(queue@[i], level[i]));
            }
            if reg.holds(cell) {
                let k = choose|k: nat| #[trigger] reg.within(cell, k);
                lemma_filling_done(reg, queue@, level, cell, k);
            }
        }
        assert forall|i: int, j: int, k: nat|
            0 <= i <= j < queue@.len() && #[trigger] reg.within(queue@[j], k) implies #[trigger] reg.within(
            queue@[i],
            k,
        ) by {
            assert(level[j] <= k);
            assert(reg.within(queue@[i], level[i]));
            reg.lemma_within_mono(queue@[i], level[i], k);
        }
    }
    queue
}

// ---------------------------------------------------------------------------
// Laws
// ---------------------------------------------------------------------------

/// The order in which the cells of a region are found is one only.
pub proof fn law_fill_order_is_unique(
    a: Seq<(usize, usize)>,
    b: Seq<(usize, usize)>,
    start: (usize, usize),
    diagonals: bool,
)
    requires
        a.no_duplicates(),
        b.no_duplicates(),
        forall|cell: (usize, usize)| #[trigger] a.contains(cell) <==> b.contains(cell),
        a.len() > 0,
        b.len() > 0,
        a[0] == start,
        b[0] == start,
        in_order_found(a, diagonals),
        in_order_found(b, diagonals),
    ensures
        a == b,
{
    a.unique_seq_to_set();
    b.unique_seq_to_set();
    assert(a.to_set() =~= b.to_set()) by {
        assert forall|cell: (usize, usize)| a.to_set().contains(cell) == b.to_set().contains(cell) by {
            assert(a.contains(cell) <==> b.contains(cell));
        }
    }
    lemma_same_order(a, b, start, diagonals, a.len() as int);
    assert(a =~= b);
}

proof fn lemma_same_order(
    a: Seq<(usize, usize)>,
    b: Seq<(usize, usize)>,
    start: (usize, usize),
    diagonals: bool,
    n: int,
)
    requires
        a.no_duplicates(),
        b.no_duplicates(),
        forall|cell: (usize, usize)| #[trigger] a.contains(cell) <==> b.contains(cell),
        a.len() == b.len(),
        0 <= n <= a.len(),
        a.len() > 0,
        a[0] == start,
        b[0] == start,
        in_order_found(a, diagonals),
        in_order_found(b, diagonals),
    ensures
        forall|i: int| 0 <= i < n ==> a[i] == b[i],
    decreases n,
{
    if n > 1 {
        let m = n - 1;
        lemma_same_order(a, b, start, diagonals, m);
        let x = a[m];
        let y = b[m];
        if x != y {
            assert(a.contains(x) && b.contains(y));
            assert(b.contains(x) && a.contains(y));
            let i = choose|i: int| 0 <= i < b.len() && b[i] == x;
            let j = choose|j: int| 0 <= j < a.len() && a[j] == y;
            assert(i > m) by {
                if i < m {
                    assert(a[i] == a[m]);
                }
            }
            assert(j > m) by {
                if j < m {
                    assert(b[j] == b[m]);
                }
            }
            lemma_same_beside(a, b, x, diagonals, 0, m);
            lemma_same_beside(b, a, y, diagonals, 0, m);
            assert(0 <= first_beside(a, a[m], diagonals, 0) < m);
            assert(0 <= first_beside(b, b[m], diagonals, 0) < m);
            assert(a[m] == x && a[j] == y && b[m] == y && b[i] == x);
            assert(!(reads_before(x, y) && reads_before(y, x)));
        }
    }
}

proof fn lemma_same_beside(
    a: Seq<(usize, usize)>,
    b: Seq<(usize, usize)>,
    cell: (usize, usize),
    diagonals: bool,
    k: int,
    m: int,
)
    requires
        0 <= k <= m <= a.len(),
        a.len() == b.len(),
        forall|i: int| 0 <= i < m ==> a[i] == b[i],
        first_beside(a, cell, diagonals, k) < m,
    ensures
        first_beside(b, cell, diagonals, k) == first_beside(a, cell, diagonals, k),
    decreases m - k,
{
    if k < m {
        assert(a[k] == b[k]);
        if !adjacent(a[k], cell, diagonals) {
            lemma_same_beside(a, b, cell, diagonals, k + 1, m);
        }
    } else {
        lemma_beside_from(a, cell, diagonals, k);
    }
}

proof fn lemma_beside_from(cells: Seq<(usize, usize)>, cell: (usize, usize), diagonals: bool, k: int)
    requires
        0 <= k <= cells.len(),
    ensures
        first_beside(cells, cell, diagonals, k) >= k,
    decreases cells.len() - k,
{
    if k < cells.len() {
        lemma_beside_from(cells, cell, diagonals, k + 1);
    }
}

/// A path of cells from the first on: each touches the one before it, at a side,
/// or with `corners` at a side or a corner, and holds the target character. What
/// the first holds does not matter.
pub open spec fn is_path(committed: Seq<char>, target: char, path: Seq<(usize, usize)>, corners: bool) -> bool {
    &&& path.len() > 0
    &&& path[0].0 < 80 && path[0].1 < 24
    &&& forall|k: int|
        0 < k < path.len() ==> (#[trigger] path[k]).0 < 80 && path[k].1 < 24 && committed[80 * path[k].1
            + path[k].0] == target
    &&& forall|j: int, k: int|
        0 <= j && k == j + 1 && k < path.len() ==> {
            let (p, q) = (#[trigger] path[j], #[trigger] path[k]);
            &&& -1 <= q.0 - p.0 <= 1
            &&& -1 <= q.1 - p.1 <= 1
            &&& corners || p.0 == q.0 || p.1 == q.1
        }
}

/// A region holds whatever a path from its start leads to.
pub proof fn law_region_holds_paths(reg: Region, path: Seq<(usize, usize)>)
    requires
        is_path(reg.committed, reg.target, path, reg.diagonals),
        path.first() == reg.start,
    ensures
        reg.holds(path.last()),
{
    lemma_path_within(reg, path, path.len() - 1);
    assert(reg.within(path.last(), (path.len() - 1) as nat));
}

proof fn lemma_path_within(reg: Region, path: Seq<(usize, usize)>, n: int)
    requires
        is_path(reg.committed, reg.target, path, reg.diagonals),
        path.first() == reg.start,
        0 <= n < path.len(),
    ensures
        reg.within(path[n], n as nat),
    decreases n,
{
    if n > 0 {
        lemma_path_within(reg, path, n - 1);
        let (p, q) = (path[n - 1], path[n]);
        if p != q {
            assert(on_canvas(p.0 as int, p.1 as int));
            assert(adjacent(p, q, reg.diagonals));
        }
    }
}

/// A region holds nothing else: to each of its cells a path from its start
/// leads.
pub proof fn law_region_has_paths(reg: Region, cell: (usize, usize)) -> (path: Seq<(usize, usize)>)
    requires
        on_canvas(reg.start.0 as int, reg.start.1 as int),
        reg.holds(cell),
    ensures
        is_path(reg.committed, reg.target, path, reg.diagonals),
        path.first() == reg.start,
        path.last() == cell,
{
    let k = choose|k: nat| #[trigger] reg.within(cell, k);
    lemma_path_to(reg, cell, k)
}

proof fn lemma_path_to(reg: Region, cell: (usize, usize), k: nat) -> (path: Seq<(usize, usize)>)
    requires
        on_canvas(reg.start.0 as int, reg.start.1 as int),
        reg.within(cell, k),
    ensures
        is_path(reg.committed, reg.target, path, reg.diagonals),
        path.first() == reg.start,
        path.last() == cell,
    decreases k,
{
    if k == 0 {
        seq![reg.start]
    } else if reg.within(cell, (k - 1) as nat) {
        lemma_path_to(reg, cell, (k - 1) as nat)
    } else {
        let from = choose|from: (usize, usize)|
            reg.within(from, (k - 1) as nat) && #[trigger] adjacent(from, cell, reg.diagonals);
        let before = lemma_path_to(reg, from, (k - 1) as nat);
        let path = before.push(cell);
        assert(path[0] == before[0]);
        assert forall|j: int| 0 < j < path.len() implies (#[trigger] path[j]).0 < 80 && path[j].1 < 24
            && reg.committed[80 * path[j].1 + path[j].0] == reg.target by {
            if j < before.len() {
                assert(path[j] == before[j]);
            }
        }
        assert forall|i: int, j: int| 0 <= i && j == i + 1 && j < path.len() implies {
            let (p, q) = (#[trigger] path[i], #[trigger] path[j]);
            &&& -1 <= q.0 - p.0 <= 1
            &&& -1 <= q.1 - p.1 <= 1
            &&& reg.diagonals || p.0 == q.0 || p.1 == q.1
        } by {
            if j < before.len() {
                assert(path[j] == before[j] && path[i] == before[i]);
            } else {
                assert(path[i] == before.last());
            }
        }
        path
    }
}

/// The region that passes sides only lies within the one that passes corners
/// too.
pub proof fn law_sides_within_corners(committed: Seq<char>, target: char, start: (usize, usize), cell: (usize, usize))
    requires
        (Region { committed, target, diagonals: false, start }).holds(cell),
    ensures
        (Region { committed, target, diagonals: true, start }).holds(cell),
{
    let four = Region { committed, target, diagonals: false, start };
    let k = choose|k: nat| #[trigger] four.within(cell, k);
    lemma_within_more(committed, target, start, cell, k);
}

proof fn lemma_within_more(committed: Seq<char>, target: char, start: (usize, usize), cell: (usize, usize), k: nat)
    requires
        (Region { committed, target, diagonals: false, start }).within(cell, k),
    ensures
        (Region { committed, target, diagonals: true, start }).within(cell, k),
    decreases k,
{
    let four = Region { committed, target, diagonals: false, start };
    let eight = Region { committed, target, diagonals: true, start };
    assert(four.within(cell, k));
    if k > 0 {
        let m = (k - 1) as nat;
        if four.within(cell, m) {
            lemma_within_more(committed, target, start, cell, m);
        } else {
            let from = choose|from: (usize, usize)|
                four.within(from, m) && #[trigger] adjacent(from, cell, four.diagonals);
            lemma_within_more(committed, target, start, from, m);
            assert(adjacent(from, cell, eight.diagonals));
        }
    }
    assert(eight.within(cell, k));
}

/// Every cell of a region other than its start holds the target character.
pub proof fn law_region_holds_target(reg: Region, cell: (usize, usize))
    requires
        reg.holds(cell),
        cell != reg.start,
    ensures
        reg.open_cell(cell),
{
    let k = choose|k: nat| #[trigger] reg.within(cell, k);
    lemma_within_open(reg, cell, k);
}

proof fn lemma_within_open(reg: Region, cell: (usize, usize), k: nat)
    requires
        reg.within(cell, k),
        cell != reg.start,
    ensures
        reg.open_cell(cell),
    decreases k,
{
    if k > 0 && reg.within(cell, (k - 1) as nat) {
        lemma_within_open(reg, cell, (k - 1) as nat);
    }
}

/// A region goes as far as it can: a neighbour of one of its cells that holds
/// the target character belongs to it.
pub proof fn law_region_is_closed(reg: Region, cell: (usize, usize), next: (usize, usize))
    requires
        reg.holds(cell),
        adjacent(cell, next, reg.diagonals),
        reg.open_cell(next),
    ensures
        reg.holds(next),
{
    let k = choose|k: nat| #[trigger] reg.within(cell, k);
    assert(reg.within(next, k + 1));
}

} // verus!
