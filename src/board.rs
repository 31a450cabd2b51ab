//! The 9x9 board, its row, column and block availability sets, and the
//! backtracking search over it.
use vstd::prelude::*;
use crate::bitset::BitSet;
use crate::text::{grid_text, grid_text_of};

verus! {

/// Number of cells of a board.
pub const CELLS: usize = 81;

/// Number of units of each kind (rows, columns, blocks).
pub const UNITS: usize = 9;

/// Index of the unit of kind `k` (0: row, 1: column, 2: block) that holds
/// cell `i`.
pub open spec fn unit_of(k: int, i: int) -> int {
    if k == 0 {
        i / 9
    } else if k == 1 {
        i % 9
    } else {
        (i / 27) * 3 + (i % 9) / 3
    }
}

/// A digit that a cell may hold.
pub open spec fn is_digit(d: nat) -> bool {
    1 <= d <= 9
}

/// Two distinct cells that share a row, a column or a block.
pub open spec fn peers(i: int, j: int) -> bool {
    &&& i != j
    &&& {
        ||| unit_of(0, i) == unit_of(0, j)
        ||| unit_of(1, i) == unit_of(1, j)
        ||| unit_of(2, i) == unit_of(2, j)
    }
}

/// Some cell of unit `u` of kind `k` holds `d`.
pub open spec fn in_unit(cells: Seq<usize>, k: int, u: int, d: nat) -> bool {
    exists|j: int| 0 <= j < 81 && unit_of(k, j) == u && #[trigger] cells[j] == d
}

/// `d` is a digit that no unit covering cell `i` holds yet.
pub open spec fn allowed(cells: Seq<usize>, i: int, d: nat) -> bool {
    &&& is_digit(d)
    &&& !in_unit(cells, 0, unit_of(0, i), d)
    &&& !in_unit(cells, 1, unit_of(1, i), d)
    &&& !in_unit(cells, 2, unit_of(2, i), d)
}

/// The digits that cell `i` may still take.
pub open spec fn candidates(cells: Seq<usize>, i: int) -> Set<nat> {
    Set::new(|d: nat| allowed(cells, i, d))
}

/// No digit appears twice in a row, a column or a block.
pub open spec fn valid(cells: Seq<usize>) -> bool {
    forall|i: int, j: int|
        0 <= i < 81 && 0 <= j < 81 && peers(i, j) && cells[i] != 0 ==> #[trigger] cells[i]
            != #[trigger] cells[j]
}

/// `s` is a filled, valid grid that keeps every filled cell of `cells`.
pub open spec fn is_completion(cells: Seq<usize>, s: Seq<usize>) -> bool {
    &&& s.len() == 81
    &&& forall|i: int| 0 <= i < 81 ==> is_digit(#[trigger] s[i] as nat)
    &&& valid(s)
    &&& forall|i: int| 0 <= i < 81 && cells[i] != 0 ==> #[trigger] s[i] == cells[i]
}

/// Number of empty cells.
pub open spec fn empty_cells(cells: Seq<usize>) -> nat
    decreases cells.len(),
{
    if cells.len() == 0 {
        0
    } else {
        empty_cells(cells.drop_last()) + if cells.last() == 0 {
            1nat
        } else {
            0nat
        }
    }
}

proof fn lemma_in_unit_fill(c: Seq<usize>, idx: int, v: usize, k: int, u: int, d: nat)
    requires
        c.len() == 81,
        0 <= idx < 81,
        c[idx] == 0,
        d != 0,
    ensures
        in_unit(c.update(idx, v), k, u, d) <==> (in_unit(c, k, u, d) || (unit_of(k, idx) == u
            && d == v)),
{
    let n = c.update(idx, v);
    if in_unit(n, k, u, d) {
        let j = choose|j: int| 0 <= j < 81 && unit_of(k, j) == u && #[trigger] n[j] == d;
        if j != idx {
            assert(c[j] == d);
        }
    }
    if in_unit(c, k, u, d) {
        let j = choose|j: int| 0 <= j < 81 && unit_of(k, j) == u && #[trigger] c[j] == d;
        assert(n[j] == d);
    }
    if unit_of(k, idx) == u && d == v {
        assert(n[idx] == d);
    }
}

proof fn lemma_in_unit_clear(c: Seq<usize>, idx: int, k: int, u: int, d: nat)
    requires
        c.len() == 81,
        0 <= idx < 81,
        0 <= k < 3,
        valid(c),
        d != 0,
    ensures
        in_unit(c.update(idx, 0), k, u, d) <==> (in_unit(c, k, u, d) && !(unit_of(k, idx) == u
            && d == c[idx])),
{
    let n = c.update(idx, 0);
    if in_unit(n, k, u, d) {
        let j = choose|j: int| 0 <= j < 81 && unit_of(k, j) == u && #[trigger] n[j] == d;
        assert(c[j] == d);
        if unit_of(k, idx) == u && d == c[idx] {
            assert(peers(j, idx));
            assert(c[j] != c[idx]);
        }
    }
    if in_unit(c, k, u, d) && !(unit_of(k, idx) == u && d == c[idx]) {
        let j = choose|j: int| 0 <= j < 81 && unit_of(k, j) == u && #[trigger] c[j] == d;
        assert(n[j] == d);
    }
}

proof fn lemma_completion_allowed(c: Seq<usize>, s: Seq<usize>, i: int)
    requires
        c.len() == 81,
        0 <= i < 81,
        c[i] == 0,
        is_completion(c, s),
    ensures
        allowed(c, i, s[i] as nat),
{
    let d = s[i] as nat;
    assert(is_digit(d));
    assert forall|k: int| 0 <= k < 3 implies !in_unit(c, k, unit_of(k, i), d) by {
        if in_unit(c, k, unit_of(k, i), d) {
            let j = choose|j: int| 0 <= j < 81 && unit_of(k, j) == unit_of(k, i) && #[trigger] c[j] == d;
            assert(s[j] == c[j]);
            assert(peers(i, j));
            assert(s[i] != s[j]);
        }
    }
    assert(!in_unit(c, 0, unit_of(0, i), d));
    assert(!in_unit(c, 1, unit_of(1, i), d));
    assert(!in_unit(c, 2, unit_of(2, i), d));
}

proof fn lemma_completion_fill(c: Seq<usize>, s: Seq<usize>, i: int, v: usize)
    requires
        c.len() == 81,
        0 <= i < 81,
        c[i] == 0,
    ensures
        is_completion(c.update(i, v), s) ==> is_completion(c, s),
        is_completion(c, s) && s[i] == v ==> is_completion(c.update(i, v), s),
{
    let n = c.update(i, v);
    if is_completion(n, s) {
        assert forall|j: int| 0 <= j < 81 && c[j] != 0 implies #[trigger] s[j] == c[j] by {
            assert(n[j] == c[j]);
        }
    }
    if is_completion(c, s) && s[i] == v {
        assert forall|j: int| 0 <= j < 81 && n[j] != 0 implies #[trigger] s[j] == n[j] by {
            if j != i {
                assert(n[j] == c[j]);
            }
        }
    }
}

/// A fixed filled grid: row `r` is the digits shifted by `3 * (r % 3) + r / 3`.
pub open spec fn pattern_grid() -> Seq<usize> {
    Seq::new(
        81,
        |i: int| ((3 * ((i / 9) % 3) + (i / 9) / 3 + i % 9) % 9 + 1) as usize,
    )
}

proof fn lemma_pattern_cells_differ(r1: int, c1: int, r2: int, c2: int)
    requires
        0 <= r1 < 9,
        0 <= c1 < 9,
        0 <= r2 < 9,
        0 <= c2 < 9,
        r1 != r2 || c1 != c2,
        r1 == r2 || c1 == c2 || (r1 / 3 == r2 / 3 && c1 / 3 == c2 / 3),
    ensures
        (3 * (r1 % 3) + r1 / 3 + c1) % 9 != (3 * (r2 % 3) + r2 / 3 + c2) % 9,
{
}

/// The grid with no filled cell has a completion.
pub proof fn lemma_blank_grid_completable()
    ensures
        is_completion(Seq::new(81, |i: int| 0usize), pattern_grid()),
{
    let s = pattern_grid();
    assert forall|i: int, j: int|
        0 <= i < 81 && 0 <= j < 81 && peers(i, j) && s[i] != 0 implies #[trigger] s[i]
            != #[trigger] s[j] by {
        lemma_pattern_cells_differ(i / 9, i % 9, j / 9, j % 9);
    }
}

/// Number of digits that cell `i` may still take.
pub open spec fn candidate_count(cells: Seq<usize>, i: int) -> nat {
    candidates(cells, i).len()
}

/// Some empty cell has no candidate left.
pub open spec fn has_dead_end(cells: Seq<usize>) -> bool {
    exists|i: int| 0 <= i < 81 && cells[i] == 0 && #[trigger] candidate_count(cells, i) == 0
}

/// Some cell is empty.
pub open spec fn has_empty(cells: Seq<usize>) -> bool {
    exists|i: int| 0 <= i < 81 && #[trigger] cells[i] == 0
}

/// Cell `m` is the cell to branch on: an empty cell with the fewest
/// candidates, and the first such cell in index order.
pub open spec fn is_branch_cell(cells: Seq<usize>, m: int) -> bool {
    &&& 0 <= m < 81
    &&& cells[m] == 0
    &&& forall|j: int|
        0 <= j < 81 && cells[j] == 0 ==> candidate_count(cells, m) <= #[trigger] candidate_count(
            cells,
            j,
        )
    &&& forall|j: int|
        0 <= j < m && cells[j] == 0 ==> candidate_count(cells, m) < #[trigger] candidate_count(
            cells,
            j,
        )
}

/// The cell that a search step branches on.
pub open spec fn branch_cell(cells: Seq<usize>) -> int {
    choose|m: int| is_branch_cell(cells, m)
}

/// `a + b`, capped at the largest `usize`.
pub open spec fn saturating(a: nat, b: nat) -> nat {
    if a + b > usize::MAX {
        usize::MAX as nat
    } else {
        a + b
    }
}

/// What a search of `cells` does, with `n` bounding the depth: the number of
/// search steps and the solutions in the order found. A dead end takes one
/// step and finds nothing; a full board takes one step and is itself the
/// solution; otherwise the step branches on [`branch_cell`] and tries its
/// candidates in ascending order.
pub open spec fn search_steps(cells: Seq<usize>, n: nat) -> (nat, Seq<Seq<usize>>)
    decreases n, 11nat,
{
    if has_dead_end(cells) {
        (1, seq![])
    } else if !has_empty(cells) {
        (1, seq![cells])
    } else if n == 0 {
        (1, seq![])
    } else {
        let b = branch_steps(cells, branch_cell(cells), 10, n);
        (1 + b.0, b.1)
    }
}

/// The searches that follow placing each candidate below `d` at cell `m`, in
/// ascending order: their steps added up and their solutions joined.
pub open spec fn branch_steps(cells: Seq<usize>, m: int, d: nat, n: nat) -> (
    nat,
    Seq<Seq<usize>>,
)
    decreases n, d,
{
    if d == 0 || n == 0 {
        (0, seq![])
    } else {
        let prev = branch_steps(cells, m, (d - 1) as nat, n);
        if allowed(cells, m, (d - 1) as nat) {
            let t = search_steps(cells.update(m, (d - 1) as usize), (n - 1) as nat);
            (prev.0 + t.0, prev.1 + t.1)
        } else {
            prev
        }
    }
}

/// The number of search steps from `cells`, and the solutions in the order
/// the search finds them.
pub open spec fn search_trace(cells: Seq<usize>) -> (nat, Seq<Seq<usize>>) {
    search_steps(cells, empty_cells(cells))
}

/// The boards appended after the first `before.len()`, as cell sequences.
pub open spec fn appended(before: Seq<Vec<usize>>, after: Seq<Vec<usize>>) -> Seq<Seq<usize>> {
    after.subrange(before.len() as int, after.len() as int).map_values(|b: Vec<usize>| b@)
}

proof fn lemma_fill_count(cells: Seq<usize>, i: int, v: usize)
    requires
        0 <= i < cells.len(),
        cells[i] == 0,
        v != 0,
    ensures
        empty_cells(cells) > 0,
        empty_cells(cells.update(i, v)) == empty_cells(cells) - 1,
    decreases cells.len(),
{
    let n = cells.update(i, v);
    if i < cells.len() - 1 {
        assert(n.drop_last() =~= cells.drop_last().update(i, v));
        lemma_fill_count(cells.drop_last(), i, v);
    } else {
        assert(n.drop_last() =~= cells.drop_last());
    }
}

proof fn lemma_branch_skip(cells: Seq<usize>, m: int, p: nat, d: nat, n: nat)
    requires
        p <= d,
        forall|v: nat| p <= v < d ==> !#[trigger] allowed(cells, m, v),
    ensures
        branch_steps(cells, m, d, n) == branch_steps(cells, m, p, n),
    decreases d,
{
    if d > p {
        lemma_branch_skip(cells, m, p, (d - 1) as nat, n);
        assert(!allowed(cells, m, (d - 1) as nat));
    }
}

proof fn lemma_branch_prefix(cells: Seq<usize>, m: int, p: nat, d: nat, n: nat)
    requires
        p <= d,
    ensures
        branch_steps(cells, m, p, n).1.is_prefix_of(branch_steps(cells, m, d, n).1),
    decreases d,
{
    if d > p {
        lemma_branch_prefix(cells, m, p, (d - 1) as nat, n);
        let a = branch_steps(cells, m, p, n).1;
        let b = branch_steps(cells, m, (d - 1) as nat, n).1;
        let c = branch_steps(cells, m, d, n).1;
        if n != 0 && allowed(cells, m, (d - 1) as nat) {
            assert(a =~= c.subrange(0, a.len() as int));
        }
    } else {
        assert(branch_steps(cells, m, p, n).1 =~= branch_steps(cells, m, d, n).1.subrange(
            0,
            branch_steps(cells, m, p, n).1.len() as int,
        ));
    }
}

proof fn lemma_branch_cell_unique(cells: Seq<usize>, m: int)
    requires
        is_branch_cell(cells, m),
    ensures
        branch_cell(cells) == m,
{
    let b = branch_cell(cells);
    assert(is_branch_cell(cells, b));
    if b < m {
        assert(candidate_count(cells, m) < candidate_count(cells, b) || cells[b] != 0);
    } else if m < b {
        assert(candidate_count(cells, b) < candidate_count(cells, m) || cells[m] != 0);
    }
}

/// Row, column and block of cell `index`.
pub fn index_to_row_column_block(index: usize) -> (r: (usize, usize, usize))
    requires
        index < 81,
    ensures
        r.0 as int == unit_of(0, index as int),
        r.1 as int == unit_of(1, index as int),
        r.2 as int == unit_of(2, index as int),
        r.0 < 9,
        r.1 < 9,
        r.2 < 9,
{
    let row = index / 9;
    let col = index % 9;
    let block = (row / 3) * 3 + (col / 3);
    (row, col, block)
}

/// A 9x9 grid with the digits still available in each row, column and block.
pub struct Board {
    cells: Vec<usize>,
    column_set: Vec<BitSet<usize>>,
    row_set: Vec<BitSet<usize>>,
    block_set: Vec<BitSet<usize>>,
    boards_seen: usize,
}

impl View for Board {
    /// The 81 cells, row by row; 0 marks an empty cell.
    type V = Seq<usize>;

    closed spec fn view(&self) -> Seq<usize> {
        self.cells@
    }
}

impl Board {
    /// The availability sets of units of kind `k`.
    closed spec fn unit_sets(&self, k: int) -> Seq<BitSet<usize>> {
        if k == 0 {
            self.row_set@
        } else if k == 1 {
            self.column_set@
        } else {
            self.block_set@
        }
    }

    /// The cells form a valid partial grid, and each unit's set holds exactly
    /// the digits that the unit does not hold yet.
    pub closed spec fn wf(&self) -> bool {
        &&& self.cells@.len() == 81
        &&& self.row_set@.len() == 9
        &&& self.column_set@.len() == 9
        &&& self.block_set@.len() == 9
        &&& forall|i: int| 0 <= i < 81 ==> #[trigger] self.cells@[i] <= 9
        &&& valid(self.cells@)
        &&& forall|k: int, u: int, d: nat|
            0 <= k < 3 && 0 <= u < 9 ==> (#[trigger] self.unit_sets(k)[u]@.contains(d) <==> (
            is_digit(d) && !in_unit(self.cells@, k, u, d)))
    }

    /// Number of search steps taken so far.
    pub closed spec fn spec_boards_seen(&self) -> nat {
        self.boards_seen as nat
    }

    /// An empty board: every cell empty, every digit available everywhere.
    pub fn new() -> (r: Self)
        ensures
            r.wf(),
            r@ == Seq::new(81, |i: int| 0usize),
            r.spec_boards_seen() == 0,
    {
        let all = BitSet::<usize>::full(9);
        let mut cells: Vec<usize> = Vec::new();
        let mut i: usize = 0;
        while i < CELLS
            invariant
                i <= 81,
                cells@ == Seq::new(i as nat, |j: int| 0usize),
            decreases 81 - i,
        {
            cells.push(0);
            i = i + 1;
            assert(cells@ =~= Seq::new(i as nat, |j: int| 0usize));
        }
        let mut rows: Vec<BitSet<usize>> = Vec::new();
        let mut columns: Vec<BitSet<usize>> = Vec::new();
        let mut blocks: Vec<BitSet<usize>> = Vec::new();
        let mut u: usize = 0;
        while u < UNITS
            invariant
                u <= 9,
                rows@.len() == u,
                columns@.len() == u,
                blocks@.len() == u,
                forall|j: int| 0 <= j < u ==> #[trigger] rows@[j] == all,
                forall|j: int| 0 <= j < u ==> #[trigger] columns@[j] == all,
                forall|j: int| 0 <= j < u ==> #[trigger] blocks@[j] == all,
            decreases 9 - u,
        {
            rows.push(all);
            columns.push(all);
            blocks.push(all);
            u = u + 1;
        }
        let r = Board {
            cells,
            column_set: columns,
            row_set: rows,
            block_set: blocks,
            boards_seen: 0,
        };
        assert forall|k: int, u: int, d: nat|
            0 <= k < 3 && 0 <= u < 9 implies (#[trigger] r.unit_sets(k)[u]@.contains(d) <==> (
            is_digit(d) && !in_unit(r.cells@, k, u, d))) by {
            if in_unit(r.cells@, k, u, d) {
                let j = choose|j: int| 0 <= j < 81 && unit_of(k, j) == u && #[trigger] r.cells@[j] == d;
                assert(r.cells@[j] == 0);
            }
        }
        r
    }

    /// Whether `value` may be placed at `index`: it is a digit that the
    /// cell's row, column and block all still lack.
    pub fn legal_at_index(&self, index: usize, value: usize) -> (r: bool)
        requires
            self.wf(),
            index < 81,
        ensures
            r == allowed(self@, index as int, value as nat),
    {
        let (r, c, g) = index_to_row_column_block(index);
        proof {
            assert(self.unit_sets(0)[r as int]@.contains(value as nat) == self.row_set@[r as int]@.contains(value as nat));
            assert(self.unit_sets(1)[c as int]@.contains(value as nat) == self.column_set@[c as int]@.contains(value as nat));
            assert(self.unit_sets(2)[g as int]@.contains(value as nat) == self.block_set@[g as int]@.contains(value as nat));
        }
        self.row_set[r].contains(value) && self.column_set[c].contains(value)
            && self.block_set[g].contains(value)
    }

    /// Fills the empty cell `index` with `value` and takes `value` out of the
    /// sets of its row, column and block.
    pub fn set_at_index(&mut self, index: usize, value: usize)
        requires
            old(self).wf(),
            index < 81,
            old(self)@[index as int] == 0,
            allowed(old(self)@, index as int, value as nat),
        ensures
            final(self).wf(),
            final(self)@ == old(self)@.update(index as int, value),
            final(self).spec_boards_seen() == old(self).spec_boards_seen(),
    {
        let ghost before = self.cells@;
        self.cells.set(index, value);
        let (r, c, g) = index_to_row_column_block(index);
        let mut s = self.row_set[r];
        s.remove(value);
        self.row_set.set(r, s);
        let mut s = self.column_set[c];
        s.remove(value);
        self.column_set.set(c, s);
        let mut s = self.block_set[g];
        s.remove(value);
        self.block_set.set(g, s);
        proof {
            let n = self.cells@;
            assert forall|i: int, j: int|
                0 <= i < 81 && 0 <= j < 81 && peers(i, j) && n[i] != 0 implies #[trigger] n[i]
                    != #[trigger] n[j] by {
                if i == index as int {
                    assert(n[j] == before[j]);
                    if n[j] == value {
                        if unit_of(0, i) == unit_of(0, j) {
                            assert(in_unit(before, 0, unit_of(0, i), value as nat));
                        } else if unit_of(1, i) == unit_of(1, j) {
                            assert(in_unit(before, 1, unit_of(1, i), value as nat));
                        } else {
                            assert(in_unit(before, 2, unit_of(2, i), value as nat));
                        }
                    }
                } else if j == index as int {
                    assert(n[i] == before[i]);
                    if n[i] == value {
                        if unit_of(0, i) == unit_of(0, j) {
                            assert(in_unit(before, 0, unit_of(0, j), value as nat));
                        } else if unit_of(1, i) == unit_of(1, j) {
                            assert(in_unit(before, 1, unit_of(1, j), value as nat));
                        } else {
                            assert(in_unit(before, 2, unit_of(2, j), value as nat));
                        }
                    }
                }
            }
            assert forall|k: int, u: int, d: nat|
                0 <= k < 3 && 0 <= u < 9 implies (#[trigger] self.unit_sets(k)[u]@.contains(d)
                <==> (is_digit(d) && !in_unit(self.cells@, k, u, d))) by {
                assert(old(self).unit_sets(k)[u]@.contains(d) <==> (is_digit(d) && !in_unit(
                    before,
                    k,
                    u,
                    d,
                )));
                if d != 0 {
                    lemma_in_unit_fill(before, index as int, value, k, u, d);
                }
            }
        }
    }

    /// Empties the filled cell `index` and gives its digit back to the sets
    /// of its row, column and block.
    pub fn clear_at_index(&mut self, index: usize)
        requires
            old(self).wf(),
            index < 81,
            old(self)@[index as int] != 0,
        ensures
            final(self).wf(),
            final(self)@ == old(self)@.update(index as int, 0),
            final(self).spec_boards_seen() == old(self).spec_boards_seen(),
    {
        let ghost before = self.cells@;
        let value = self.cells[index];
        self.cells.set(index, 0);
        let (r, c, g) = index_to_row_column_block(index);
        let mut s = self.row_set[r];
        s.insert(value);
        self.row_set.set(r, s);
        let mut s = self.column_set[c];
        s.insert(value);
        self.column_set.set(c, s);
        let mut s = self.block_set[g];
        s.insert(value);
        self.block_set.set(g, s);
        proof {
            let n = self.cells@;
            assert forall|i: int, j: int|
                0 <= i < 81 && 0 <= j < 81 && peers(i, j) && n[i] != 0 implies #[trigger] n[i]
                    != #[trigger] n[j] by {
                assert(before[i] != before[j]);
            }
            assert forall|k: int, u: int, d: nat|
                0 <= k < 3 && 0 <= u < 9 implies (#[trigger] self.unit_sets(k)[u]@.contains(d)
                <==> (is_digit(d) && !in_unit(self.cells@, k, u, d))) by {
                assert(old(self).unit_sets(k)[u]@.contains(d) <==> (is_digit(d) && !in_unit(
                    before,
                    k,
                    u,
                    d,
                )));
                if d != 0 {
                    lemma_in_unit_clear(before, index as int, k, u, d);
                }
            }
        }
    }

    /// The availability sets of cell `index`'s units, intersected.
    fn moves_at_index(&self, index: usize) -> (r: BitSet<usize>)
        requires
            self.wf(),
            index < 81,
        ensures
            r@ == candidates(self@, index as int),
    {
        let (r, c, g) = index_to_row_column_block(index);
        let moves = self.row_set[r].intersection(self.column_set[c]).intersection(
            self.block_set[g],
        );
        proof {
            assert forall|d: nat| #[trigger] moves@.contains(d) == allowed(self@, index as int, d) by {
                assert(self.unit_sets(0)[r as int]@.contains(d) == self.row_set@[r as int]@.contains(d));
                assert(self.unit_sets(1)[c as int]@.contains(d) == self.column_set@[c as int]@.contains(d));
                assert(self.unit_sets(2)[g as int]@.contains(d) == self.block_set@[g as int]@.contains(d));
            }
            assert(moves@ =~= candidates(self@, index as int));
        }
        moves
    }

    /// Depth-first search for completions of the board.
    ///
    /// Each step picks the empty cell with the fewest candidates (the first
    /// such cell in index order), and tries its candidates in ascending order,
    /// placing, searching and retracting each in turn. A cell with no candidate
    /// ends the step. A full board is appended to `solutions`. A step starts only
    /// while `solutions` holds fewer than `limit` boards, and adds one to the
    /// count of boards seen (saturating).
    ///
    /// The board is left as it was. The boards appended are the start of
    /// [`search_trace`]'s solutions, pairwise distinct completions of the
    /// board; unless `limit` was reached they are all of them, every
    /// completion among them, and the count of boards seen grew by exactly
    /// the trace's number of steps.
    pub fn search_solution(&mut self, limit: usize, solutions: &mut Vec<Vec<usize>>)
        requires
            old(self).wf(),
        ensures
            final(self).wf(),
            final(self)@ == old(self)@,
            old(solutions)@.len() <= final(solutions)@.len(),
            forall|k: int|
                0 <= k < old(solutions)@.len() ==> #[trigger] final(solutions)@[k] == old(solutions)@[k],
            old(solutions)@.len() < limit ==> appended(old(solutions)@, final(solutions)@).is_prefix_of(
                search_trace(old(self)@).1,
            ),
            old(solutions)@.len() < limit && final(solutions)@.len() < limit ==> {
                &&& appended(old(solutions)@, final(solutions)@) == search_trace(old(self)@).1
                &&& final(self).spec_boards_seen() == saturating(
                    old(self).spec_boards_seen(),
                    search_trace(old(self)@).0,
                )
            },
            forall|k: int|
                old(solutions)@.len() <= k < final(solutions)@.len() ==> is_completion(
                    old(self)@,
                    #[trigger] final(solutions)@[k]@,
                ),
            forall|i: int, j: int|
                old(solutions)@.len() <= i < j < final(solutions)@.len() ==> #[trigger] final(solutions)@[i]@ != #[trigger] final(solutions)@[j]@,
            old(solutions)@.len() <= limit ==> final(solutions)@.len() <= limit,
            final(solutions)@.len() < limit ==> forall|s: Seq<usize>|
                #[trigger] is_completion(old(self)@, s) ==> exists|k: int|
                    old(solutions)@.len() <= k < final(solutions)@.len() && #[trigger] final(solutions)@[k]@ == s,
            old(solutions)@.len() >= limit ==> final(solutions)@ == old(solutions)@
                && final(self).spec_boards_seen() == old(self).spec_boards_seen(),
            final(self).spec_boards_seen() >= old(self).spec_boards_seen(),
            (exists|s: Seq<usize>| is_completion(old(self)@, s)) && old(solutions)@.len() < limit
                ==> final(solutions)@.len() > old(solutions)@.len(),
        decreases empty_cells(old(self)@),
    {
        if solutions.len() >= limit {
            return;
        }
        if self.boards_seen < usize::MAX {
            self.boards_seen = self.boards_seen + 1;
        }
        let ghost c0 = self.cells@;
        let ghost seen = self.boards_seen as nat;
        proof {
            assert(c0 == old(self)@);
            assert forall|k: int| 0 <= k < 3 implies self.unit_sets(k) == old(self).unit_sets(k) by {
            }
            assert(appended(old(solutions)@, solutions@) =~= seq![]);
        }
        let mut found = false;
        let mut best_index: usize = 0;
        let mut best_count: usize = 0;
        let mut best_moves = BitSet::<usize>::new();
        let mut index: usize = 0;
        while index < CELLS
            invariant
                self.wf(),
                self@ == c0,
                c0 == old(self)@,
                c0.len() == 81,
                self.boards_seen == seen,
                seen == saturating(old(self).boards_seen as nat, 1),
                old(solutions)@.len() < limit,
                solutions@ == old(solutions)@,
                index <= 81,
                found ==> best_index < index && c0[best_index as int] == 0 && best_moves@
                    == candidates(c0, best_index as int),
                found ==> best_count == candidate_count(c0, best_index as int),
                found ==> forall|j: int|
                    0 <= j < index && c0[j] == 0 ==> best_count <= #[trigger] candidate_count(c0, j),
                found ==> forall|j: int|
                    0 <= j < best_index && c0[j] == 0 ==> best_count < #[trigger] candidate_count(
                        c0,
                        j,
                    ),
                forall|j: int| 0 <= j < index && c0[j] == 0 ==> #[trigger] candidate_count(c0, j) > 0,
                !found ==> forall|j: int| 0 <= j < index ==> c0[j] != 0,
            decreases 81 - index,
        {
            if self.cells[index] == 0 {
                let moves = self.moves_at_index(index);
                let count = moves.count();
                assert(count == candidate_count(c0, index as int));
                if count == 0 {
                    proof {
                        moves@.lemma_len0_is_empty();
                        assert forall|s: Seq<usize>| #[trigger]
                            is_completion(c0, s) implies false by {
                            lemma_completion_allowed(c0, s, index as int);
                            assert(moves@.contains(s[index as int] as nat));
                        }
                        assert(has_dead_end(c0));
                    }
                    return;
                }
                if !found || count < best_count {
                    found = true;
                    best_index = index;
                    best_count = count;
                    best_moves = moves;
                }
            }
            index = index + 1;
        }
        proof {
            assert(!has_dead_end(c0));
        }
        if !found {
            let mut solution: Vec<usize> = Vec::new();
            let mut i: usize = 0;
            while i < CELLS
                invariant
                    self.wf(),
                    self@ == c0,
                    i <= 81,
                    solution@ == c0.subrange(0, i as int),
                decreases 81 - i,
            {
                solution.push(self.cells[i]);
                i = i + 1;
                assert(solution@ =~= c0.subrange(0, i as int));
            }
            proof {
                assert(solution@ =~= c0);
                assert forall|s: Seq<usize>| #[trigger] is_completion(old(self)@, s) implies s
                    == c0 by {
                    assert(s =~= c0);
                }
                assert(!has_empty(c0));
            }
            solutions.push(solution);
            proof {
                let n = solutions@.len() - 1;
                assert(solutions@[n]@ == c0);
                assert(appended(old(solutions)@, solutions@) =~= seq![c0]);
                assert forall|s: Seq<usize>| #[trigger] is_completion(old(self)@, s) implies exists|
                    k: int,
                |
                    old(solutions)@.len() <= k < solutions@.len() && #[trigger] solutions@[k]@
                        == s by {
                    assert(s == c0);
                    assert(solutions@[n]@ == s);
                }
            }
        } else {
            let ghost start = solutions@.len();
            let ghost n = empty_cells(c0);
            let ghost m = best_index as int;
            proof {
                assert(is_branch_cell(c0, m));
                lemma_branch_cell_unique(c0, m);
                lemma_fill_count(c0, m, 1);
                assert(has_empty(c0));
                assert(branch_steps(c0, m, 0, n).1 =~= seq![]);
            }
            let mut it = best_moves.iter();
            loop
                invariant_except_break
                    it.position() <= 10,
                    forall|k: int|
                        start <= k < solutions@.len() ==> (#[trigger] solutions@[k]@[m] as nat)
                            < it.position(),
                    appended(old(solutions)@, solutions@).is_prefix_of(
                        branch_steps(c0, m, it.position(), n).1,
                    ),
                    solutions@.len() < limit ==> appended(old(solutions)@, solutions@)
                        == branch_steps(c0, m, it.position(), n).1 && self.boards_seen
                        == saturating(seen, branch_steps(c0, m, it.position(), n).0),
                    solutions@.len() < limit ==> forall|s: Seq<usize>|
                        #[trigger] is_completion(c0, s) && (s[best_index as int] as nat)
                            < it.position() ==> exists|k: int|
                            start <= k < solutions@.len() && #[trigger] solutions@[k]@ == s,
                invariant
                    self.wf(),
                    self@ == c0,
                    c0 == old(self)@,
                    c0.len() == 81,
                    self.boards_seen >= seen,
                    seen == saturating(old(self).boards_seen as nat, 1),
                    best_index < 81,
                    m == best_index,
                    n == empty_cells(c0),
                    n > 0,
                    c0[best_index as int] == 0,
                    it.wf(),
                    it.members() == candidates(c0, best_index as int),
                    start == old(solutions)@.len(),
                    start < limit,
                    start <= solutions@.len() <= limit,
                    forall|k: int|
                        0 <= k < start ==> #[trigger] solutions@[k] == old(solutions)@[k],
                    forall|k: int|
                        start <= k < solutions@.len() ==> is_completion(
                            c0,
                            #[trigger] solutions@[k]@,
                        ),
                    forall|i: int, j: int|
                        start <= i < j < solutions@.len() ==> #[trigger] solutions@[i]@
                            != #[trigger] solutions@[j]@,
                ensures
                    self.wf(),
                    self@ == c0,
                    self.boards_seen >= seen,
                    start <= solutions@.len() <= limit,
                    forall|k: int|
                        0 <= k < start ==> #[trigger] solutions@[k] == old(solutions)@[k],
                    forall|k: int|
                        start <= k < solutions@.len() ==> is_completion(
                            c0,
                            #[trigger] solutions@[k]@,
                        ),
                    forall|i: int, j: int|
                        start <= i < j < solutions@.len() ==> #[trigger] solutions@[i]@
                            != #[trigger] solutions@[j]@,
                    appended(old(solutions)@, solutions@).is_prefix_of(
                        branch_steps(c0, m, 10, n).1,
                    ),
                    solutions@.len() < limit ==> appended(old(solutions)@, solutions@)
                        == branch_steps(c0, m, 10, n).1 && self.boards_seen == saturating(
                        seen,
                        branch_steps(c0, m, 10, n).0,
                    ),
                    solutions@.len() < limit ==> forall|s: Seq<usize>|
                        #[trigger] is_completion(c0, s) ==> exists|k: int|
                            start <= k < solutions@.len() && #[trigger] solutions@[k]@ == s,
                decreases 64 - it.position(),
            {
                let ghost p = it.position();
                let ghost seen_before = self.boards_seen as nat;
                match it.next() {
                    None => {
                        proof {
                            assert forall|s: Seq<usize>| #[trigger]
                                is_completion(c0, s) implies (s[best_index as int] as nat) < p by {
                                lemma_completion_allowed(c0, s, best_index as int);
                                assert(candidates(c0, best_index as int).contains(
                                    s[best_index as int] as nat,
                                ));
                            }
                            assert forall|v: nat| p <= v < 10 implies !#[trigger] allowed(
                                c0,
                                m,
                                v,
                            ) by {
                                assert(!candidates(c0, m).contains(v));
                            }
                            lemma_branch_skip(c0, m, p, 10, n);
                        }
                        break ;
                    },
                    Some(value) => {
                        let ghost before = solutions@;
                        proof {
                            assert(candidates(c0, best_index as int).contains(value as nat));
                            lemma_fill_count(c0, m, value);
                            assert forall|v: nat| p <= v < value implies !#[trigger] allowed(
                                c0,
                                m,
                                v,
                            ) by {
                                assert(!candidates(c0, m).contains(v));
                            }
                            lemma_branch_skip(c0, m, p, value as nat, n);
                            lemma_branch_prefix(c0, m, p, (value + 1) as nat, n);
                        }
                        self.set_at_index(best_index, value);
                        self.search_solution(limit, solutions);
                        self.clear_at_index(best_index);
                        proof {
                            let c1 = c0.update(best_index as int, value);
                            let t = search_trace(c1);
                            assert(t == search_steps(c1, (n - 1) as nat));
                            let bv = branch_steps(c0, m, value as nat, n);
                            let bw = branch_steps(c0, m, (value + 1) as nat, n);
                            assert(bw == (bv.0 + t.0, bv.1 + t.1));
                            assert(self@ =~= c0);
                            let a0 = appended(old(solutions)@, before);
                            let a1 = appended(before, solutions@);
                            assert(appended(old(solutions)@, solutions@) =~= a0 + a1);
                            if before.len() < limit {
                                assert(a0 == bv.1);
                                assert(a1.is_prefix_of(t.1));
                                assert((a0 + a1) =~= bw.1.subrange(0, (a0 + a1).len() as int));
                                if solutions@.len() < limit {
                                    assert(a1 == t.1);
                                    assert(a0 + a1 =~= bw.1);
                                }
                            } else {
                                assert(a1 =~= seq![]);
                                assert(a0 =~= a0 + a1);
                                assert(bv.1 == branch_steps(c0, m, p, n).1);
                                assert(a0 =~= bw.1.subrange(0, a0.len() as int));
                            }
                            assert forall|k: int|
                                start <= k < solutions@.len() implies is_completion(
                                c0,
                                #[trigger] solutions@[k]@,
                            ) && (solutions@[k]@[m] as nat) < value + 1 && (k >= before.len()
                                ==> solutions@[k]@[m] == value) && (k < before.len()
                                ==> (solutions@[k]@[m] as nat) < p) by {
                                if k >= before.len() {
                                    lemma_completion_fill(c0, solutions@[k]@, best_index as int, value);
                                    assert(c1[m] == value);
                                } else {
                                    assert(solutions@[k] == before[k]);
                                }
                            }
                            assert forall|i: int, j: int|
                                start <= i < j < solutions@.len() implies #[trigger] solutions@[i]@
                                    != #[trigger] solutions@[j]@ by {
                                if j < before.len() {
                                    assert(solutions@[i] == before[i]);
                                    assert(solutions@[j] == before[j]);
                                } else if i < before.len() {
                                    assert((solutions@[i]@[m] as nat) < p);
                                    assert(solutions@[j]@[m] == value);
                                }
                            }
                            if solutions@.len() < limit {
                                assert forall|s: Seq<usize>|
                                    #[trigger] is_completion(c0, s) && (s[best_index as int] as nat)
                                        < it.position() implies exists|k: int|
                                    start <= k < solutions@.len() && #[trigger] solutions@[k]@
                                        == s by {
                                    let v = s[best_index as int] as nat;
                                    if v < p {
                                        let k = choose|k: int|
                                            start <= k < before.len() && #[trigger] before[k]@
                                                == s;
                                        assert(solutions@[k] == before[k]);
                                    } else if v == value {
                                        lemma_completion_fill(c0, s, best_index as int, value);
                                        assert(is_completion(c1, s));
                                    } else {
                                        lemma_completion_allowed(c0, s, best_index as int);
                                        assert(candidates(c0, best_index as int).contains(v));
                                    }
                                }
                            }
                        }
                    },
                }
            }
            proof {
                assert(search_trace(c0) == (1 + branch_steps(c0, m, 10, n).0, branch_steps(
                    c0,
                    m,
                    10,
                    n,
                ).1));
            }
        }
    }

    /// The digits still available in unit `u` of kind `k` (0: row, 1:
    /// column, 2: block).
    pub closed spec fn available(&self, k: int, u: int) -> Set<nat> {
        self.unit_sets(k)[u]@
    }

    /// A well-formed board is a valid partial grid of values 0 to 9, and each
    /// unit's set holds exactly the digits that the unit lacks.
    pub proof fn lemma_wf_valid(&self)
        requires
            self.wf(),
        ensures
            self@.len() == 81,
            valid(self@),
            forall|i: int| 0 <= i < 81 ==> #[trigger] self@[i] <= 9,
            forall|k: int, u: int, d: nat|
                0 <= k < 3 && 0 <= u < 9 ==> (#[trigger] self.available(k, u).contains(d) <==> (
                is_digit(d) && !in_unit(self@, k, u, d))),
    {
    }

    /// The unit sets are determined by the cells: two well-formed boards with
    /// the same cells have the same sets.
    pub proof fn lemma_sets_follow_cells(a: &Board, b: &Board)
        requires
            a.wf(),
            b.wf(),
            a@ == b@,
        ensures
            forall|k: int, u: int|
                0 <= k < 3 && 0 <= u < 9 ==> #[trigger] a.available(k, u) == b.available(k, u),
    {
        assert forall|k: int, u: int| 0 <= k < 3 && 0 <= u < 9 implies #[trigger] a.available(
            k,
            u,
        ) == b.available(k, u) by {
            assert(a.available(k, u) =~= b.available(k, u));
        }
    }

    /// Placing a digit in an empty cell and retracting it again gives back
    /// the same cells and the same unit sets.
    pub proof fn lemma_place_retract_round_trip(
        before: &Board,
        after: &Board,
        index: int,
        value: usize,
    )
        requires
            before.wf(),
            after.wf(),
            0 <= index < 81,
            before@[index] == 0,
            after@ == before@.update(index, value).update(index, 0),
        ensures
            after@ == before@,
            forall|k: int, u: int|
                0 <= k < 3 && 0 <= u < 9 ==> #[trigger] after.available(k, u) == before.available(
                    k,
                    u,
                ),
    {
        assert(after@ =~= before@);
        Board::lemma_sets_follow_cells(after, before);
    }

    /// A well-formed board without filled cells has every digit 1 to 9
    /// available in every row, column and block: nine members each.
    pub proof fn lemma_empty_board_sets_full(&self)
        requires
            self.wf(),
            forall|i: int| 0 <= i < 81 ==> #[trigger] self@[i] == 0,
        ensures
            forall|k: int, u: int|
                0 <= k < 3 && 0 <= u < 9 ==> #[trigger] self.available(k, u) == Set::new(
                    |d: nat| is_digit(d),
                ),
            Set::new(|d: nat| is_digit(d)).len() == 9,
    {
        assert forall|k: int, u: int| 0 <= k < 3 && 0 <= u < 9 implies #[trigger] self.available(
            k,
            u,
        ) == Set::new(|d: nat| is_digit(d)) by {
            assert forall|d: nat| #[trigger] self.available(k, u).contains(d) == is_digit(d) by {
                if in_unit(self@, k, u, d) {
                    let j = choose|j: int| 0 <= j < 81 && unit_of(k, j) == u && #[trigger] self@[j] == d;
                    assert(self@[j] == 0);
                }
            }
            assert(self.available(k, u) =~= Set::new(|d: nat| is_digit(d)));
        }
        let digits = set![1nat, 2nat, 3nat, 4nat, 5nat, 6nat, 7nat, 8nat, 9nat];
        assert(Set::new(|d: nat| is_digit(d)) =~= digits);
    }

    /// The set of digits still available in unit `unit` of kind `kind`
    /// (0: row, 1: column, 2: block).
    pub fn unit_set(&self, kind: usize, unit: usize) -> (r: BitSet<usize>)
        requires
            self.wf(),
            kind < 3,
            unit < 9,
        ensures
            r@ == self.available(kind as int, unit as int),
    {
        if kind == 0 {
            self.row_set[unit]
        } else if kind == 1 {
            self.column_set[unit]
        } else {
            self.block_set[unit]
        }
    }

    /// The board shown as text, as [`grid_text`] shows a grid.
    pub fn to_text(&self) -> (r: Vec<char>)
        requires
            self.wf(),
        ensures
            r@ == grid_text_of(self@, 81),
    {
        grid_text(self.cells.as_slice())
    }

    /// Number of search steps taken so far.
    pub fn get_boards_seen(&self) -> (r: usize)
        ensures
            r as nat == self.spec_boards_seen(),
    {
        self.boards_seen
    }
}

} // verus!
