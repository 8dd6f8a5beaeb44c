//! The rules of the puzzle, and the test of one candidate against them.

use crate::arrange::{balanced, count, lemma_count_push};
use crate::board::{xy_to_index, Edge, Square};
use crate::edges::{lists, names, Edges};
use crate::symbol::SolvedSquare;
use vstd::prelude::*;

verus! {

/// A fixed cell admits only its own symbol; an empty one admits both.
pub open spec fn agrees(square: Square, symbol: SolvedSquare) -> bool {
    match square {
        Square::Empty => true,
        Square::Sun => symbol is Sun,
        Square::Moon => symbol is Moon,
    }
}

/// The candidate holds, in each fixed cell of the board, the symbol fixed
/// there.
pub open spec fn keeps_fixed(c: Seq<SolvedSquare>, squares: Seq<Square>) -> bool {
    forall|i: int| 0 <= i < squares.len() ==> agrees(#[trigger] squares[i], c[i])
}

/// The two cells of pair `k` stand in the relation that `kind` demands.
pub open spec fn edge_holds(c: Seq<SolvedSquare>, k: (usize, usize), kind: Edge) -> bool {
    match kind {
        Edge::X => c[k.0 as int] != c[k.1 as int],
        Edge::Equals => c[k.0 as int] == c[k.1 as int],
    }
}

/// The candidate meets every constraint of the set.
pub open spec fn keeps_edges(c: Seq<SolvedSquare>, edges: Map<(usize, usize), Edge>) -> bool {
    forall|k: (usize, usize)| edges.contains_key(k) ==> edge_holds(c, k, edges[k])
}

/// Row `y` of a grid of width `n`, left to right.
pub open spec fn row(c: Seq<SolvedSquare>, n: nat, y: int) -> Seq<SolvedSquare> {
    Seq::new(n, |x: int| c[y * n + x])
}

/// Column `x` of a grid of width `n`, top to bottom.
pub open spec fn column(c: Seq<SolvedSquare>, n: nat, x: int) -> Seq<SolvedSquare> {
    Seq::new(n, |y: int| c[y * n + x])
}

/// Row `at` where `by_row` holds, else column `at`.
pub open spec fn line(c: Seq<SolvedSquare>, n: nat, by_row: bool, at: int) -> Seq<SolvedSquare> {
    if by_row {
        row(c, n, at)
    } else {
        column(c, n, at)
    }
}

/// Three equal symbols stand in a row from place `i` of `line`.
pub open spec fn triple_at(line: Seq<SolvedSquare>, i: int) -> bool {
    0 <= i && i + 2 < line.len() && line[i] == line[i + 1] && line[i + 1] == line[i + 2]
}

/// Nowhere in `line` do three equal symbols follow one another.
pub open spec fn no_triple(line: Seq<SolvedSquare>) -> bool {
    forall|i: int| !triple_at(line, i)
}

/// The rules: fixed cells are kept, constraints are met, every row and
/// every column holds as many `Sun` as `Moon` symbols, and none holds
/// three equal symbols one after another.
pub open spec fn is_valid(
    c: Seq<SolvedSquare>,
    squares: Seq<Square>,
    edges: Map<(usize, usize), Edge>,
    n: nat,
) -> bool {
    &&& keeps_fixed(c, squares)
    &&& keeps_edges(c, edges)
    &&& forall|y: int| 0 <= y < n ==> balanced(#[trigger] row(c, n, y))
    &&& forall|x: int| 0 <= x < n ==> balanced(#[trigger] column(c, n, x))
    &&& forall|y: int| 0 <= y < n ==> no_triple(#[trigger] row(c, n, y))
    &&& forall|x: int| 0 <= x < n ==> no_triple(#[trigger] column(c, n, x))
}

/// A cell of the grid has its index below the number of cells.
pub proof fn lemma_cell_in_grid(x: int, y: int, n: int)
    requires
        0 <= x < n,
        0 <= y < n,
    ensures
        0 <= y * n + x < n * n,
{
    assert(y * n + x < n * n) by (nonlinear_arith)
        requires
            0 <= x < n,
            0 <= y < n,
    ;
    assert(0 <= y * n) by (nonlinear_arith)
        requires
            0 <= y,
            0 <= n,
    ;
}

/// The symbol at place `k` of a row or a column.
fn symbol_at(permutation: &[SolvedSquare], n: u32, by_row: bool, at: u32, k: u32) -> (r:
    SolvedSquare)
    requires
        n * n <= u32::MAX,
        permutation@.len() == n * n,
        at < n,
        k < n,
    ensures
        r == line(permutation@, n as nat, by_row, at as int)[k as int],
{
    proof {
        lemma_cell_in_grid(k as int, at as int, n as int);
        lemma_cell_in_grid(at as int, k as int, n as int);
    }
    let index = if by_row {
        xy_to_index(k, at, n)
    } else {
        xy_to_index(at, k, n)
    };
    permutation[index]
}

/// How many times `x` stands at the end of the first `k` symbols of
/// `line` without a break.
pub open spec fn run_length(line: Seq<SolvedSquare>, k: int, x: SolvedSquare) -> nat
    decreases k,
{
    if k <= 0 || line[k - 1] != x {
        0
    } else {
        1 + run_length(line, k - 1, x)
    }
}

/// Tells whether the candidate keeps the fixed cells of the board.
fn fixed_hold(permutation: &[SolvedSquare], squares: &[Square]) -> (r: bool)
    requires
        permutation@.len() == squares@.len(),
    ensures
        r == keeps_fixed(permutation@, squares@),
{
    let mut i: usize = 0;
    while i < squares.len()
        invariant
            i <= squares@.len(),
            permutation@.len() == squares@.len(),
            forall|j: int| 0 <= j < i ==> agrees(#[trigger] squares@[j], permutation@[j]),
        decreases squares@.len() - i,
    {
        let kept = match squares[i] {
            Square::Empty => true,
            Square::Sun => permutation[i] == SolvedSquare::Sun,
            Square::Moon => permutation[i] == SolvedSquare::Moon,
        };
        if !kept {
            assert(!agrees(squares@[i as int], permutation@[i as int]));
            return false;
        }
        i += 1;
    }
    true
}

/// Tells whether the candidate meets every constraint.
fn edges_hold(permutation: &[SolvedSquare], edges: &Edges) -> (r: bool)
    requires
        edges.wf(),
        permutation@.len() == edges.spec_width() * edges.spec_width(),
    ensures
        r == keeps_edges(permutation@, edges@),
{
    let entries = edges.entries();
    let mut i: usize = 0;
    while i < entries.len()
        invariant
            i <= entries@.len(),
            edges.wf(),
            permutation@.len() == edges.spec_width() * edges.spec_width(),
            lists(entries@, edges@),
            forall|j: int|
                0 <= j < i ==> edge_holds(
                    permutation@,
                    ((#[trigger] entries@[j]).0, entries@[j].1),
                    entries@[j].2,
                ),
        decreases entries@.len() - i,
    {
        let (a, b, kind) = entries[i];
        proof {
            assert(edges@.contains_key((entries@[i as int].0, entries@[i as int].1)));
            edges.lemma_pairs((a, b));
        }
        let met = match kind {
            Edge::X => permutation[a] != permutation[b],
            Edge::Equals => permutation[a] == permutation[b],
        };
        if !met {
            assert(!edge_holds(permutation@, (a, b), edges@[(a, b)]));
            return false;
        }
        i += 1;
    }
    proof {
        assert forall|k: (usize, usize)| edges@.contains_key(k) implies edge_holds(
            permutation@,
            k,
            edges@[k],
        ) by {
            let j = choose|j: int| names(entries@, j, k);
            assert(names(entries@, j, k));
            assert(edges@.contains_key((entries@[j].0, entries@[j].1)));
        }
    }
    true
}

/// Tells whether a row or a column holds as many `Sun` as `Moon` symbols.
fn line_balanced(permutation: &[SolvedSquare], n: u32, by_row: bool, at: u32) -> (r: bool)
    requires
        n * n <= u32::MAX,
        permutation@.len() == n * n,
        at < n,
    ensures
        r == balanced(line(permutation@, n as nat, by_row, at as int)),
{
    let ghost cells = line(permutation@, n as nat, by_row, at as int);
    let mut suns: u32 = 0;
    let mut moons: u32 = 0;
    let mut k: u32 = 0;
    assert(cells.take(0) =~= Seq::empty());
    while k < n
        invariant
            n * n <= u32::MAX,
            permutation@.len() == n * n,
            at < n,
            k <= n,
            cells == line(permutation@, n as nat, by_row, at as int),
            cells.len() == n,
            suns == count(cells.take(k as int), SolvedSquare::Sun),
            moons == count(cells.take(k as int), SolvedSquare::Moon),
            suns + moons == k,
        decreases n - k,
    {
        let symbol = symbol_at(permutation, n, by_row, at, k);
        proof {
            assert(cells.take(k + 1) =~= cells.take(k as int).push(cells[k as int]));
            lemma_count_push(cells.take(k as int), cells[k as int], SolvedSquare::Sun);
            lemma_count_push(cells.take(k as int), cells[k as int], SolvedSquare::Moon);
        }
        match symbol {
            SolvedSquare::Sun => suns += 1,
            SolvedSquare::Moon => moons += 1,
        };
        k += 1;
    }
    assert(cells.take(n as int) =~= cells);
    suns == moons
}

/// Tells whether a row or a column is free of three equal symbols in a
/// row: the two counters hold the length of the run that ends at the
/// cell just read.
fn line_short_runs(permutation: &[SolvedSquare], n: u32, by_row: bool, at: u32) -> (r: bool)
    requires
        n * n <= u32::MAX,
        permutation@.len() == n * n,
        at < n,
    ensures
        r == no_triple(line(permutation@, n as nat, by_row, at as int)),
{
    let ghost cells = line(permutation@, n as nat, by_row, at as int);
    let mut suns: u32 = 0;
    let mut moons: u32 = 0;
    let mut k: u32 = 0;
    while k < n
        invariant
            n * n <= u32::MAX,
            permutation@.len() == n * n,
            at < n,
            k <= n,
            cells == line(permutation@, n as nat, by_row, at as int),
            cells.len() == n,
            suns == run_length(cells, k as int, SolvedSquare::Sun),
            moons == run_length(cells, k as int, SolvedSquare::Moon),
            suns <= 2,
            moons <= 2,
            forall|i: int| i + 2 < k ==> !triple_at(cells, i),
        decreases n - k,
    {
        let symbol = symbol_at(permutation, n, by_row, at, k);
        match symbol {
            SolvedSquare::Sun => {
                suns += 1;
                moons = 0;
            },
            SolvedSquare::Moon => {
                moons += 1;
                suns = 0;
            },
        }
        proof {
            let x = cells[k as int];
            assert(run_length(cells, k + 1, x) == 1 + run_length(cells, k as int, x));
            if run_length(cells, k as int, x) >= 1 {
                assert(cells[k - 1] == x);
                assert(run_length(cells, k as int, x) == 1 + run_length(cells, k - 1, x));
                if run_length(cells, k - 1, x) >= 1 {
                    assert(cells[k - 2] == x);
                }
            }
        }
        if suns > 2 || moons > 2 {
            assert(triple_at(cells, k - 2));
            return false;
        }
        proof {
            assert forall|i: int| i + 2 < k + 1 implies !triple_at(cells, i) by {
                if i + 2 == k && triple_at(cells, i) {
                    let x = cells[k as int];
                    assert(cells[k - 1] == x && cells[k - 2] == x);
                    assert(run_length(cells, k - 1, x) >= 1);
                    assert(run_length(cells, k as int, x) >= 2);
                }
            }
        }
        k += 1;
    }
    true
}

/// Tells whether every row, or every column, passes one of the two line
/// tests: the balance test where `balance` holds, else the test for runs.
fn lines_pass(permutation: &[SolvedSquare], n: u32, by_row: bool, balance: bool) -> (r: bool)
    requires
        n * n <= u32::MAX,
        permutation@.len() == n * n,
    ensures
        r == (forall|at: int|
            0 <= at < n ==> if balance {
                balanced(#[trigger] line(permutation@, n as nat, by_row, at))
            } else {
                no_triple(#[trigger] line(permutation@, n as nat, by_row, at))
            }),
{
    let mut at: u32 = 0;
    while at < n
        invariant
            n * n <= u32::MAX,
            permutation@.len() == n * n,
            at <= n,
            forall|j: int|
                0 <= j < at ==> if balance {
                    balanced(#[trigger] line(permutation@, n as nat, by_row, j))
                } else {
                    no_triple(#[trigger] line(permutation@, n as nat, by_row, j))
                },
        decreases n - at,
    {
        let pass = if balance {
            line_balanced(permutation, n, by_row, at)
        } else {
            line_short_runs(permutation, n, by_row, at)
        };
        if !pass {
            return false;
        }
        at += 1;
    }
    true
}

/// Tests one candidate against the rules of the puzzle, in this order:
/// the fixed cells, the constraints, the balance of the rows and of the
/// columns, the runs in the rows and in the columns. It stops at the first
/// rule that fails.
///
/// The board and the candidate each have a symbol for every cell of the
/// grid, and the constraints are those of a grid of this width.
pub fn is_valid_permutation(
    permutation: &[SolvedSquare],
    squares: &[Square],
    edges: &Edges,
    squares_count: u32,
) -> (valid: bool)
    requires
        squares_count * squares_count <= u32::MAX,
        squares@.len() == squares_count * squares_count,
        permutation@.len() == squares@.len(),
        edges.wf(),
        edges.spec_width() == squares_count,
    ensures
        valid == is_valid(permutation@, squares@, edges@, squares_count as nat),
{
    let n = squares_count;
    let ghost c = permutation@;
    if !fixed_hold(permutation, squares) {
        return false;
    }
    if !edges_hold(permutation, edges) {
        return false;
    }
    if !lines_pass(permutation, n, true, true) {
        return false;
    }
    if !lines_pass(permutation, n, false, true) {
        return false;
    }
    if !lines_pass(permutation, n, true, false) {
        return false;
    }
    if !lines_pass(permutation, n, false, false) {
        return false;
    }
    proof {
        assert forall|y: int| 0 <= y < n implies balanced(#[trigger] row(c, n as nat, y)) by {
            assert(line(c, n as nat, true, y) == row(c, n as nat, y));
        }
        assert forall|x: int| 0 <= x < n implies balanced(#[trigger] column(c, n as nat, x)) by {
            assert(line(c, n as nat, false, x) == column(c, n as nat, x));
        }
        assert forall|y: int| 0 <= y < n implies no_triple(#[trigger] row(c, n as nat, y)) by {
            assert(line(c, n as nat, true, y) == row(c, n as nat, y));
        }
        assert forall|x: int| 0 <= x < n implies no_triple(#[trigger] column(c, n as nat, x)) by {
            assert(line(c, n as nat, false, x) == column(c, n as nat, x));
        }
    }
    true
}

} // verus!
