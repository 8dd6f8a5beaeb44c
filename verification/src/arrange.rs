//! The arrangements of a fixed number of `Sun` and `Moon` symbols, listed
//! in lexicographic order, and the arithmetic that numbers them.

use crate::symbol::SolvedSquare;
use vstd::prelude::*;

verus! {

/// The binomial coefficient "`n` choose `k`", by Pascal's rule.
pub open spec fn binomial(n: nat, k: nat) -> nat
    decreases n,
{
    if k == 0 {
        1
    } else if n == 0 {
        0
    } else {
        binomial((n - 1) as nat, (k - 1) as nat) + binomial((n - 1) as nat, k)
    }
}

/// How many times `x` occurs in `s`.
pub open spec fn count(s: Seq<SolvedSquare>, x: SolvedSquare) -> nat
    decreases s.len(),
{
    if s.len() == 0 {
        0
    } else {
        (if s[0] == x { 1nat } else { 0nat }) + count(s.drop_first(), x)
    }
}

/// `s` holds as many `Sun` as `Moon` symbols.
pub open spec fn balanced(s: Seq<SolvedSquare>) -> bool {
    count(s, SolvedSquare::Sun) == count(s, SolvedSquare::Moon)
}

/// `a` comes strictly before `b` in lexicographic order, with `Sun < Moon`:
/// at the first place where they differ `a` holds the smaller symbol, or `a`
/// ends there and `b` goes on.
pub open spec fn lex_lt(a: Seq<SolvedSquare>, b: Seq<SolvedSquare>) -> bool {
    exists|i: int|
        {
            &&& 0 <= i <= a.len()
            &&& i < b.len()
            &&& #[trigger] a.take(i) == b.take(i)
            &&& (i == a.len() || (a[i] is Sun && b[i] is Moon))
        }
}

/// The position of `s` among the arrangements of its own symbols, counted
/// from zero in lexicographic order: each `Moon` is preceded by all the
/// arrangements that hold a `Sun` in its place.
pub open spec fn rank(s: Seq<SolvedSquare>) -> nat
    decreases s.len(),
{
    if s.len() == 0 {
        0
    } else if s[0] is Sun {
        rank(s.drop_first())
    } else {
        binomial((s.len() - 1) as nat, count(s, SolvedSquare::Moon)) + rank(s.drop_first())
    }
}

/// The arrangement of `suns` `Sun` and `moons` `Moon` symbols at position
/// `r`, counted from zero in lexicographic order.
pub open spec fn nth_arrangement(suns: nat, moons: nat, r: nat) -> Seq<SolvedSquare>
    decreases suns + moons,
{
    if suns == 0 {
        Seq::new(moons, |i: int| SolvedSquare::Moon)
    } else if moons == 0 {
        Seq::new(suns, |i: int| SolvedSquare::Sun)
    } else if r < binomial((suns + moons - 1) as nat, moons) {
        seq![SolvedSquare::Sun] + nth_arrangement((suns - 1) as nat, moons, r)
    } else {
        seq![SolvedSquare::Moon] + nth_arrangement(
            suns,
            (moons - 1) as nat,
            (r - binomial((suns + moons - 1) as nat, moons)) as nat,
        )
    }
}

/// Every arrangement of `len / 2` `Sun` and `len / 2` `Moon` symbols,
/// in lexicographic order.
pub open spec fn arrangements(len: nat) -> Seq<Seq<SolvedSquare>> {
    Seq::new(binomial(len, len / 2), |r: int| nth_arrangement(len / 2, len / 2, r as nat))
}

/// Choosing more than there is cannot be done.
pub proof fn lemma_binomial_zero(n: nat, k: nat)
    requires
        k > n,
    ensures
        binomial(n, k) == 0,
    decreases n,
{
    if n > 0 {
        lemma_binomial_zero((n - 1) as nat, (k - 1) as nat);
        lemma_binomial_zero((n - 1) as nat, k);
    }
}

/// There is exactly one way to choose everything.
pub proof fn lemma_binomial_full(n: nat)
    ensures
        binomial(n, n) == 1,
    decreases n,
{
    if n > 0 {
        lemma_binomial_full((n - 1) as nat);
        lemma_binomial_zero((n - 1) as nat, n);
    }
}

/// A choice that can be made can be made in at least one way.
pub proof fn lemma_binomial_positive(n: nat, k: nat)
    requires
        k <= n,
    ensures
        binomial(n, k) >= 1,
    decreases n,
{
    if k > 0 && n > 0 {
        lemma_binomial_positive((n - 1) as nat, (k - 1) as nat);
    }
}

/// Every place holds one of the two symbols.
pub proof fn lemma_count_total(s: Seq<SolvedSquare>)
    ensures
        count(s, SolvedSquare::Sun) + count(s, SolvedSquare::Moon) == s.len(),
    decreases s.len(),
{
    if s.len() > 0 {
        lemma_count_total(s.drop_first());
    }
}

/// A symbol is counted zero times exactly when it occurs nowhere.
pub proof fn lemma_count_none(s: Seq<SolvedSquare>, x: SolvedSquare)
    ensures
        count(s, x) == 0 <==> forall|i: int| 0 <= i < s.len() ==> s[i] != x,
    decreases s.len(),
{
    if s.len() > 0 {
        let t = s.drop_first();
        lemma_count_none(t, x);
        if count(s, x) == 0 {
            assert forall|i: int| 0 <= i < s.len() implies s[i] != x by {
                if i > 0 {
                    assert(t[i - 1] == s[i]);
                }
            }
        }
        if forall|i: int| 0 <= i < s.len() ==> s[i] != x {
            assert forall|i: int| 0 <= i < t.len() implies t[i] != x by {
                assert(t[i] == s[i + 1]);
            }
        }
    }
}

/// Putting a symbol in front adds one to its own count and nothing to the
/// other's.
pub proof fn lemma_count_cons(x: SolvedSquare, t: Seq<SolvedSquare>, y: SolvedSquare)
    ensures
        count(seq![x] + t, y) == (if x == y { 1nat } else { 0nat }) + count(t, y),
{
    assert((seq![x] + t).drop_first() =~= t);
}

/// Putting a symbol at the end adds one to its own count and nothing to
/// the other's.
pub proof fn lemma_count_push(s: Seq<SolvedSquare>, e: SolvedSquare, x: SolvedSquare)
    ensures
        count(s.push(e), x) == count(s, x) + (if e == x { 1nat } else { 0nat }),
    decreases s.len(),
{
    if s.len() == 0 {
        assert(s.push(e).drop_first() =~= s);
    } else {
        assert(s.push(e).drop_first() =~= s.drop_first().push(e));
        lemma_count_push(s.drop_first(), e, x);
    }
}

/// The count over two sequences joined is the sum of the counts.
pub proof fn lemma_count_concat(a: Seq<SolvedSquare>, b: Seq<SolvedSquare>, x: SolvedSquare)
    ensures
        count(a + b, x) == count(a, x) + count(b, x),
    decreases a.len(),
{
    if a.len() == 0 {
        assert(a + b =~= b);
    } else {
        assert((a + b).drop_first() =~= a.drop_first() + b);
        lemma_count_concat(a.drop_first(), b, x);
    }
}

/// An arrangement holds the symbols it was asked to hold.
pub proof fn lemma_nth_counts(suns: nat, moons: nat, r: nat)
    ensures
        nth_arrangement(suns, moons, r).len() == suns + moons,
        count(nth_arrangement(suns, moons, r), SolvedSquare::Sun) == suns,
        count(nth_arrangement(suns, moons, r), SolvedSquare::Moon) == moons,
    decreases suns + moons,
{
    let s = nth_arrangement(suns, moons, r);
    if suns == 0 || moons == 0 {
        lemma_count_none(s, SolvedSquare::Sun);
        lemma_count_none(s, SolvedSquare::Moon);
        lemma_count_total(s);
    } else {
        let block = binomial((suns + moons - 1) as nat, moons);
        if r < block {
            let t = nth_arrangement((suns - 1) as nat, moons, r);
            lemma_nth_counts((suns - 1) as nat, moons, r);
            lemma_count_cons(SolvedSquare::Sun, t, SolvedSquare::Sun);
            lemma_count_cons(SolvedSquare::Sun, t, SolvedSquare::Moon);
        } else {
            let t = nth_arrangement(suns, (moons - 1) as nat, (r - block) as nat);
            lemma_nth_counts(suns, (moons - 1) as nat, (r - block) as nat);
            lemma_count_cons(SolvedSquare::Moon, t, SolvedSquare::Sun);
            lemma_count_cons(SolvedSquare::Moon, t, SolvedSquare::Moon);
        }
    }
}

/// The rank of a sequence is below the number of arrangements of its
/// symbols, and the arrangement found at that rank is the sequence itself.
pub proof fn lemma_nth_of_rank(s: Seq<SolvedSquare>)
    ensures
        rank(s) < binomial(s.len(), count(s, SolvedSquare::Moon)),
        nth_arrangement(count(s, SolvedSquare::Sun), count(s, SolvedSquare::Moon), rank(s)) == s,
    decreases s.len(),
{
    let suns = count(s, SolvedSquare::Sun);
    let moons = count(s, SolvedSquare::Moon);
    lemma_count_total(s);
    if s.len() == 0 {
        assert(nth_arrangement(0, 0, 0) =~= s);
    } else {
        let t = s.drop_first();
        lemma_nth_of_rank(t);
        lemma_count_total(t);
        assert(s =~= seq![s[0]] + t);
        if suns == 0 {
            lemma_count_none(s, SolvedSquare::Sun);
            lemma_binomial_full(moons);
            lemma_binomial_zero((s.len() - 1) as nat, moons);
            assert(rank(t) == 0);
            assert(nth_arrangement(suns, moons, rank(s)) =~= s);
        } else if moons == 0 {
            lemma_count_none(s, SolvedSquare::Moon);
            assert(nth_arrangement(suns, moons, rank(s)) =~= s);
        }
    }
}

/// The arrangement at position `r` has rank `r`.
pub proof fn lemma_rank_of_nth(suns: nat, moons: nat, r: nat)
    requires
        r < binomial(suns + moons, moons),
    ensures
        rank(nth_arrangement(suns, moons, r)) == r,
    decreases suns + moons,
{
    let s = nth_arrangement(suns, moons, r);
    lemma_nth_counts(suns, moons, r);
    lemma_nth_of_rank(s);
    if suns == 0 {
        lemma_binomial_full(moons);
    } else if moons == 0 {
    } else {
        let block = binomial((suns + moons - 1) as nat, moons);
        if r < block {
            let t = nth_arrangement((suns - 1) as nat, moons, r);
            lemma_rank_of_nth((suns - 1) as nat, moons, r);
            assert(s.drop_first() =~= t);
        } else {
            let t = nth_arrangement(suns, (moons - 1) as nat, (r - block) as nat);
            lemma_rank_of_nth(suns, (moons - 1) as nat, (r - block) as nat);
            assert(s.drop_first() =~= t);
        }
    }
}

/// Two sequences of the same symbols with the same rank are the same
/// sequence.
pub proof fn lemma_rank_injective(a: Seq<SolvedSquare>, b: Seq<SolvedSquare>)
    requires
        count(a, SolvedSquare::Sun) == count(b, SolvedSquare::Sun),
        count(a, SolvedSquare::Moon) == count(b, SolvedSquare::Moon),
        rank(a) == rank(b),
    ensures
        a == b,
{
    lemma_nth_of_rank(a);
    lemma_nth_of_rank(b);
}

/// Putting the same symbol in front of two sequences keeps their order.
pub proof fn lemma_lex_lt_cons(x: SolvedSquare, a: Seq<SolvedSquare>, b: Seq<SolvedSquare>)
    requires
        lex_lt(a, b),
    ensures
        lex_lt(seq![x] + a, seq![x] + b),
{
    let i = choose|i: int|
        {
            &&& 0 <= i <= a.len()
            &&& i < b.len()
            &&& #[trigger] a.take(i) == b.take(i)
            &&& (i == a.len() || (a[i] is Sun && b[i] is Moon))
        };
    let xa = seq![x] + a;
    let xb = seq![x] + b;
    assert(xa.take(i + 1) =~= seq![x] + a.take(i));
    assert(xb.take(i + 1) =~= seq![x] + b.take(i));
    assert(xa.take(i + 1) == xb.take(i + 1));
}

/// Later positions hold lexicographically greater arrangements.
pub proof fn lemma_nth_increasing(suns: nat, moons: nat, r1: nat, r2: nat)
    requires
        r1 < r2 < binomial(suns + moons, moons),
    ensures
        lex_lt(nth_arrangement(suns, moons, r1), nth_arrangement(suns, moons, r2)),
    decreases suns + moons,
{
    let a = nth_arrangement(suns, moons, r1);
    let b = nth_arrangement(suns, moons, r2);
    if suns == 0 {
        lemma_binomial_full(moons);
    } else if moons == 0 {
    } else {
        let block = binomial((suns + moons - 1) as nat, moons);
        if r2 < block {
            lemma_nth_increasing((suns - 1) as nat, moons, r1, r2);
            lemma_lex_lt_cons(
                SolvedSquare::Sun,
                nth_arrangement((suns - 1) as nat, moons, r1),
                nth_arrangement((suns - 1) as nat, moons, r2),
            );
        } else if r1 >= block {
            lemma_nth_increasing(suns, (moons - 1) as nat, (r1 - block) as nat, (r2 - block) as nat);
            lemma_lex_lt_cons(
                SolvedSquare::Moon,
                nth_arrangement(suns, (moons - 1) as nat, (r1 - block) as nat),
                nth_arrangement(suns, (moons - 1) as nat, (r2 - block) as nat),
            );
        } else {
            assert(a.take(0) =~= b.take(0));
        }
    }
}

/// The arrangement at position zero is sorted: every `Sun`, then every
/// `Moon`.
pub proof fn lemma_nth_first(suns: nat, moons: nat)
    ensures
        nth_arrangement(suns, moons, 0) == Seq::new(
            suns + moons,
            |i: int| if i < suns { SolvedSquare::Sun } else { SolvedSquare::Moon },
        ),
    decreases suns + moons,
{
    let sorted = Seq::new(
        suns + moons,
        |i: int| if i < suns { SolvedSquare::Sun } else { SolvedSquare::Moon },
    );
    if suns == 0 || moons == 0 {
        assert(nth_arrangement(suns, moons, 0) =~= sorted);
    } else {
        lemma_binomial_positive((suns + moons - 1) as nat, moons);
        lemma_nth_first((suns - 1) as nat, moons);
        assert(nth_arrangement(suns, moons, 0) =~= sorted);
    }
}

/// Of two sequences neither comes before itself, and not each before the
/// other.
pub proof fn lemma_lex_lt_asymmetric(a: Seq<SolvedSquare>, b: Seq<SolvedSquare>)
    requires
        lex_lt(a, b),
    ensures
        !lex_lt(b, a),
        a != b,
{
    let i = choose|i: int|
        {
            &&& 0 <= i <= a.len()
            &&& i < b.len()
            &&& #[trigger] a.take(i) == b.take(i)
            &&& (i == a.len() || (a[i] is Sun && b[i] is Moon))
        };
    if lex_lt(b, a) {
        let j = choose|j: int|
            {
                &&& 0 <= j <= b.len()
                &&& j < a.len()
                &&& #[trigger] b.take(j) == a.take(j)
                &&& (j == b.len() || (b[j] is Sun && a[j] is Moon))
            };
        if i < j {
            assert(a.take(j)[i] == b.take(j)[i]);
        } else if j < i {
            assert(a.take(i)[j] == b.take(i)[j]);
        }
    }
}

/// Among sequences of the same symbols the rank tells the order: the one
/// that comes first in lexicographic order is the one with the smaller rank.
pub proof fn lemma_rank_order(a: Seq<SolvedSquare>, b: Seq<SolvedSquare>)
    requires
        count(a, SolvedSquare::Sun) == count(b, SolvedSquare::Sun),
        count(a, SolvedSquare::Moon) == count(b, SolvedSquare::Moon),
    ensures
        lex_lt(a, b) <==> rank(a) < rank(b),
{
    let suns = count(a, SolvedSquare::Sun);
    let moons = count(a, SolvedSquare::Moon);
    lemma_count_total(a);
    lemma_count_total(b);
    lemma_nth_of_rank(a);
    lemma_nth_of_rank(b);
    if rank(a) < rank(b) {
        lemma_nth_increasing(suns, moons, rank(a), rank(b));
    } else if rank(b) < rank(a) {
        lemma_nth_increasing(suns, moons, rank(b), rank(a));
        if lex_lt(a, b) {
            lemma_lex_lt_asymmetric(a, b);
        }
    } else {
        if lex_lt(a, b) {
            lemma_lex_lt_asymmetric(a, b);
        }
    }
}

/// The list holds every arrangement of `len / 2` `Sun` and `len / 2` `Moon`
/// symbols: as many as there are ways to choose the places of the `Moon`s,
/// each of length `len` with the two symbols in equal number.
pub proof fn lemma_arrangements_balanced(len: nat, i: int)
    requires
        len % 2 == 0,
        0 <= i < arrangements(len).len(),
    ensures
        arrangements(len).len() == binomial(len, len / 2),
        arrangements(len)[i].len() == len,
        count(arrangements(len)[i], SolvedSquare::Sun) == len / 2,
        count(arrangements(len)[i], SolvedSquare::Moon) == len / 2,
        rank(arrangements(len)[i]) == i,
{
    lemma_nth_counts(len / 2, len / 2, i as nat);
    lemma_rank_of_nth(len / 2, len / 2, i as nat);
}

/// The list is strictly increasing in lexicographic order, so no
/// arrangement occurs twice.
pub proof fn lemma_arrangements_increasing(len: nat, i: int, j: int)
    requires
        len % 2 == 0,
        0 <= i < j < arrangements(len).len(),
    ensures
        lex_lt(arrangements(len)[i], arrangements(len)[j]),
        arrangements(len)[i] != arrangements(len)[j],
{
    lemma_nth_increasing(len / 2, len / 2, i as nat, j as nat);
    lemma_rank_of_nth(len / 2, len / 2, i as nat);
    lemma_rank_of_nth(len / 2, len / 2, j as nat);
}

/// The list leaves nothing out: a sequence of length `len` with the two
/// symbols in equal number stands in it, at the place its rank gives.
pub proof fn lemma_arrangements_complete(len: nat, s: Seq<SolvedSquare>)
    requires
        s.len() == len,
        balanced(s),
    ensures
        rank(s) < arrangements(len).len(),
        arrangements(len)[rank(s) as int] == s,
{
    lemma_count_total(s);
    lemma_nth_of_rank(s);
}

/// The list starts with the sorted arrangement: every `Sun`, then every
/// `Moon`.
pub proof fn lemma_arrangements_first(len: nat)
    requires
        len % 2 == 0,
    ensures
        arrangements(len).len() > 0,
        arrangements(len)[0] == Seq::new(
            len,
            |i: int| if i < len / 2 { SolvedSquare::Sun } else { SolvedSquare::Moon },
        ),
{
    lemma_binomial_positive(len, len / 2);
    lemma_nth_first(len / 2, len / 2);
}

} // verus!
