//! The search: try every balanced arrangement against the rules until one
//! passes or none is left.

use crate::arrange::{
    arrangements, balanced, lemma_arrangements_balanced, lemma_arrangements_complete,
    lemma_count_concat, rank,
};
use crate::board::{Edge, Square};
use crate::checker::{is_valid, is_valid_permutation, row};
use crate::edges::Edges;
use crate::permute::BalancedPermutations;
use crate::symbol::SolvedSquare;
use vstd::prelude::*;

verus! {

/// Some way of filling the grid obeys the rules.
pub open spec fn satisfiable(
    squares: Seq<Square>,
    edges: Map<(usize, usize), Edge>,
    n: nat,
) -> bool {
    exists|c: Seq<SolvedSquare>| c.len() == n * n && #[trigger] is_valid(c, squares, edges, n)
}

/// Where every row is balanced, so are the first `y` rows taken together.
proof fn lemma_rows_prefix(c: Seq<SolvedSquare>, n: nat, y: nat)
    requires
        c.len() == n * n,
        y <= n,
        forall|r: int| 0 <= r < n ==> balanced(#[trigger] row(c, n, r)),
    ensures
        y * n <= c.len(),
        balanced(c.take((y * n) as int)),
    decreases y,
{
    assert(y * n <= n * n) by (nonlinear_arith)
        requires
            y <= n,
    ;
    if y == 0 {
        assert(c.take(0) =~= Seq::empty());
    } else {
        let before = (y - 1) as nat;
        lemma_rows_prefix(c, n, before);
        assert(before * n + n == y * n) by (nonlinear_arith)
            requires
                before + 1 == y,
        ;
        let head = c.take((before * n) as int);
        let last = row(c, n, before as int);
        assert(c.take((y * n) as int) =~= head + last);
        lemma_count_concat(head, last, SolvedSquare::Sun);
        lemma_count_concat(head, last, SolvedSquare::Moon);
    }
}

/// A grid whose rows are all balanced holds as many `Sun` as `Moon`
/// symbols.
pub proof fn lemma_rows_balance(c: Seq<SolvedSquare>, n: nat)
    requires
        c.len() == n * n,
        forall|y: int| 0 <= y < n ==> balanced(#[trigger] row(c, n, y)),
    ensures
        balanced(c),
{
    lemma_rows_prefix(c, n, n);
    assert(c.take((n * n) as int) =~= c);
}

/// The answer to a puzzle rests on its cells, its constraints and its width
/// and on nothing else: not on how or where they are stored, nor on what
/// was asked before.
pub proof fn lemma_answer_determined(
    squares1: Seq<Square>,
    edges1: Edges,
    n1: nat,
    squares2: Seq<Square>,
    edges2: Edges,
    n2: nat,
)
    requires
        squares1 =~= squares2,
        edges1@ =~= edges2@,
        n1 == n2,
    ensures
        satisfiable(squares1, edges1@, n1) == satisfiable(squares2, edges2@, n2),
{
}

/// Decides whether the puzzle has a solution: whether the empty cells of
/// the board can be filled so that the rules hold.
///
/// The width is even, the board has a cell for every place of the grid,
/// and the constraints are those of a grid of this width.
pub fn solve(squares: &[Square], edges: &Edges, squares_count: u32) -> (solvable: bool)
    requires
        squares_count % 2 == 0,
        squares_count * squares_count <= u32::MAX,
        squares@.len() == squares_count * squares_count,
        edges.wf(),
        edges.spec_width() == squares_count,
    ensures
        solvable == satisfiable(squares@, edges@, squares_count as nat),
{
    let total = squares_count * squares_count;
    proof {
        let half = squares_count / 2;
        assert(squares_count * squares_count == 2 * (half * squares_count)) by (nonlinear_arith)
            requires
                squares_count == 2 * half,
        ;
    }
    let mut permutations = BalancedPermutations::new(total as usize);
    let ghost all = arrangements(total as nat);
    let ghost mut tried: int = 0;
    loop
        invariant
            squares_count * squares_count <= u32::MAX,
            total == squares_count * squares_count,
            total % 2 == 0,
            squares@.len() == total,
            edges.wf(),
            edges.spec_width() == squares_count,
            all == arrangements(total as nat),
            permutations.wf(),
            0 <= tried <= all.len(),
            permutations@ == all.skip(tried),
            forall|j: int|
                0 <= j < tried ==> !is_valid(
                    #[trigger] all[j],
                    squares@,
                    edges@,
                    squares_count as nat,
                ),
        decreases all.len() - tried,
    {
        match permutations.next() {
            None => {
                proof {
                    assert forall|c: Seq<SolvedSquare>| c.len() == squares_count * squares_count
                        implies !#[trigger] is_valid(c, squares@, edges@, squares_count as nat) by {
                        if is_valid(c, squares@, edges@, squares_count as nat) {
                            lemma_rows_balance(c, squares_count as nat);
                            lemma_arrangements_complete(total as nat, c);
                            assert(all[rank(c) as int] == c);
                        }
                    }
                }
                return false;
            },
            Some(permutation) => {
                proof {
                    lemma_arrangements_balanced(total as nat, tried);
                }
                if is_valid_permutation(permutation.as_slice(), squares, edges, squares_count) {
                    return true;
                }
                proof {
                    assert(all.skip(tried).drop_first() =~= all.skip(tried + 1));
                    tried = tried + 1;
                }
            },
        }
    }
}

} // verus!
