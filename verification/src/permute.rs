//! Stepping through the distinct arrangements of a multiset of two symbols
//! in lexicographic order, in place.

use crate::arrange::{
    arrangements, balanced, binomial, count, lemma_arrangements_balanced,
    lemma_arrangements_first, lemma_binomial_zero, lemma_count_none, lemma_count_total,
    lemma_nth_counts, lemma_nth_of_rank, lemma_rank_of_nth, lemma_rank_order, lex_lt,
    nth_arrangement, rank,
};
pub use crate::symbol::SolvedSquare;
use vstd::prelude::*;

verus! {

/// At place `i` of `s` a `Sun` stands directly before a `Moon`.
pub open spec fn ascent_at(s: Seq<SolvedSquare>, i: int) -> bool {
    0 <= i < s.len() - 1 && s[i] is Sun && s[i + 1] is Moon
}

/// Somewhere in `s` a `Sun` stands directly before a `Moon`.
pub open spec fn has_ascent(s: Seq<SolvedSquare>) -> bool {
    exists|i: int| ascent_at(s, i)
}

/// No `Sun` stands anywhere before a `Moon`.
pub open spec fn descending(s: Seq<SolvedSquare>) -> bool {
    forall|i: int, j: int| 0 <= i < j < s.len() ==> !(s[i] is Sun && s[j] is Moon)
}

/// No `Moon` stands anywhere before a `Sun`.
pub open spec fn ascending(s: Seq<SolvedSquare>) -> bool {
    forall|i: int, j: int| 0 <= i < j < s.len() ==> !(s[i] is Moon && s[j] is Sun)
}

/// A descending sequence is the last arrangement of its symbols.
pub proof fn lemma_rank_last(s: Seq<SolvedSquare>)
    requires
        descending(s),
    ensures
        rank(s) + 1 == binomial(s.len(), count(s, SolvedSquare::Moon)),
    decreases s.len(),
{
    if s.len() > 0 {
        let t = s.drop_first();
        assert forall|i: int, j: int| 0 <= i < j < t.len() implies !(t[i] is Sun && t[j] is Moon) by {
            assert(t[i] == s[i + 1] && t[j] == s[j + 1]);
        }
        lemma_rank_last(t);
        if s[0] is Sun {
            assert forall|j: int| 0 <= j < s.len() implies s[j] != SolvedSquare::Moon by {
                if j > 0 {
                    assert(!(s[0] is Sun && s[j] is Moon));
                }
            }
            lemma_count_none(s, SolvedSquare::Moon);
        }
    }
}

/// An ascending sequence is the first arrangement of its symbols.
pub proof fn lemma_rank_first(s: Seq<SolvedSquare>)
    requires
        ascending(s),
    ensures
        rank(s) == 0,
    decreases s.len(),
{
    if s.len() > 0 {
        let t = s.drop_first();
        assert forall|i: int, j: int| 0 <= i < j < t.len() implies !(t[i] is Moon && t[j] is Sun) by {
            assert(t[i] == s[i + 1] && t[j] == s[j + 1]);
        }
        lemma_rank_first(t);
        if s[0] is Moon {
            assert forall|j: int| 0 <= j < s.len() implies s[j] != SolvedSquare::Sun by {
                if j > 0 {
                    assert(!(s[0] is Moon && s[j] is Sun));
                }
            }
            lemma_count_none(s, SolvedSquare::Sun);
            lemma_count_total(s);
            lemma_binomial_zero((s.len() - 1) as nat, s.len());
        }
    }
}

/// A sequence whose first `m` places hold `x` and whose other places do
/// not holds `x` exactly `m` times.
pub proof fn lemma_count_leading(s: Seq<SolvedSquare>, x: SolvedSquare, m: int)
    requires
        0 <= m <= s.len(),
        forall|k: int| 0 <= k < m ==> s[k] == x,
        forall|k: int| m <= k < s.len() ==> s[k] != x,
    ensures
        count(s, x) == m,
    decreases s.len(),
{
    if s.len() > 0 {
        let t = s.drop_first();
        if m == 0 {
            lemma_count_none(s, x);
        } else {
            assert forall|k: int| 0 <= k < m - 1 implies t[k] == x by {
                assert(t[k] == s[k + 1]);
            }
            assert forall|k: int| m - 1 <= k < t.len() implies t[k] != x by {
                assert(t[k] == s[k + 1]);
            }
            lemma_count_leading(t, x, m - 1);
        }
    }
}

/// One step of the enumeration. `s` and `t` agree before place `i`, where
/// `s` holds a `Sun` and `t` a `Moon`; after it `s` is descending, `t` is
/// ascending and holds one `Moon` less. Then `t` holds the symbols of `s`
/// and comes directly after it.
pub proof fn lemma_rank_step(s: Seq<SolvedSquare>, t: Seq<SolvedSquare>, i: int)
    requires
        s.len() == t.len(),
        0 <= i < s.len(),
        forall|k: int| 0 <= k < i ==> s[k] == t[k],
        s[i] is Sun,
        t[i] is Moon,
        descending(s.skip(i + 1)),
        ascending(t.skip(i + 1)),
        count(s.skip(i + 1), SolvedSquare::Moon) == count(t.skip(i + 1), SolvedSquare::Moon) + 1,
    ensures
        rank(t) == rank(s) + 1,
        count(t, SolvedSquare::Sun) == count(s, SolvedSquare::Sun),
        count(t, SolvedSquare::Moon) == count(s, SolvedSquare::Moon),
    decreases i,
{
    let s1 = s.drop_first();
    let t1 = t.drop_first();
    if i == 0 {
        assert(s1 =~= s.skip(1));
        assert(t1 =~= t.skip(1));
        lemma_rank_last(s1);
        lemma_rank_first(t1);
        lemma_count_total(s1);
        lemma_count_total(t1);
    } else {
        assert(s1.skip(i) =~= s.skip(i + 1));
        assert(t1.skip(i) =~= t.skip(i + 1));
        assert forall|k: int| 0 <= k < i - 1 implies s1[k] == t1[k] by {
            assert(s1[k] == s[k + 1] && t1[k] == t[k + 1]);
        }
        lemma_rank_step(s1, t1, i - 1);
    }
}

/// Rearranges `v` into the lexicographically next arrangement of its
/// symbols and returns `true`. Where `v` is already the last one, that is
/// where no `Sun` stands directly before a `Moon`, returns `false` and
/// leaves `v` as it is.
///
/// The step: find the rightmost place `i` whose symbol is smaller than its
/// successor, then the rightmost place `j` behind it whose symbol is
/// greater than the one at `i`; exchange the two and reverse what follows
/// place `i`.
pub fn next_permutation(v: &mut Vec<SolvedSquare>) -> (advanced: bool)
    ensures
        advanced == has_ascent(old(v)@),
        advanced == (rank(old(v)@) + 1 < binomial(
            old(v)@.len(),
            count(old(v)@, SolvedSquare::Moon),
        )),
        advanced ==> final(v)@ == nth_arrangement(
            count(old(v)@, SolvedSquare::Sun),
            count(old(v)@, SolvedSquare::Moon),
            rank(old(v)@) + 1,
        ),
        advanced ==> rank(final(v)@) == rank(old(v)@) + 1,
        advanced ==> lex_lt(old(v)@, final(v)@),
        !advanced ==> final(v)@ == old(v)@,
        final(v)@.len() == old(v)@.len(),
        count(final(v)@, SolvedSquare::Sun) == count(old(v)@, SolvedSquare::Sun),
        count(final(v)@, SolvedSquare::Moon) == count(old(v)@, SolvedSquare::Moon),
{
    let n = v.len();
    if n <= 1 {
        proof {
            lemma_rank_last(v@);
        }
        return false;
    }
    let mut i: usize = n - 2;
    while v[i] >= v[i + 1]
        invariant
            n == v@.len(),
            v@ == old(v)@,
            i <= n - 2,
            forall|a: int, b: int| i < a < b < n ==> !(v@[a] is Sun && v@[b] is Moon),
        decreases i,
    {
        if i == 0 {
            proof {
                assert forall|a: int, b: int| 0 <= a < b < v@.len() implies !(v@[a] is Sun
                    && v@[b] is Moon) by {
                    if a == 0 && b > 1 {
                        assert(!(v@[1] is Sun && v@[b] is Moon));
                    }
                }
                lemma_rank_last(v@);
            }
            return false;
        }
        proof {
            assert forall|a: int, b: int| i - 1 < a < b < n implies !(v@[a] is Sun
                && v@[b] is Moon) by {
                if a == i && b > i + 1 {
                    assert(!(v@[i + 1] is Sun && v@[b] is Moon));
                }
            }
        }
        i -= 1;
    }
    let mut j: usize = n - 1;
    while v[i] >= v[j]
        invariant
            n == v@.len(),
            i < j <= n - 1,
            v@[i as int] is Sun,
            v@[i + 1] is Moon,
            forall|k: int| j < k < n ==> v@[k] is Sun,
        decreases j,
    {
        j -= 1;
    }
    let ghost before = v@;
    let low = v[i];
    let high = v[j];
    v[i] = high;
    v[j] = low;
    let ghost swapped = v@;
    let mut lo: usize = i + 1;
    let mut hi: usize = n - 1;
    while lo < hi
        invariant
            n == v@.len(),
            n == swapped.len(),
            i < lo <= n,
            i <= hi < n,
            lo + hi == n + i,
            forall|k: int| 0 <= k <= i ==> v@[k] == swapped[k],
            forall|k: int| lo <= k <= hi ==> v@[k] == swapped[k],
            forall|k: int| i < k < lo ==> v@[k] == swapped[n + i - k],
            forall|k: int| hi < k < n ==> v@[k] == swapped[n + i - k],
        decreases hi,
    {
        let front = v[lo];
        let back = v[hi];
        v[lo] = back;
        v[hi] = front;
        lo += 1;
        hi -= 1;
    }
    proof {
        let s = before;
        let t = v@;
        let tail_s = s.skip(i + 1);
        let tail_t = t.skip(i + 1);
        assert(swapped == s.update(i as int, high).update(j as int, low));
        assert forall|k: int| 0 <= k < i implies s[k] == t[k] by {
            assert(t[k] == swapped[k]);
        }
        assert(t[i as int] == swapped[i as int]);
        assert forall|k: int| i < k < n implies t[k] == swapped[n + i - k] by {}
        assert forall|k: int| i < k <= j implies s[k] is Moon by {
            if k < j {
                assert(!(s[k] is Sun && s[j as int] is Moon));
            }
        }
        assert forall|k: int| 0 <= k < j - i implies tail_s[k] == SolvedSquare::Moon by {
            assert(tail_s[k] == s[k + i + 1]);
        }
        assert forall|k: int| j - i <= k < tail_s.len() implies tail_s[k] != SolvedSquare::Moon by {
            assert(tail_s[k] == s[k + i + 1]);
        }
        lemma_count_leading(tail_s, SolvedSquare::Moon, j - i);
        assert forall|k: int| 0 <= k < n - j implies tail_t[k] == SolvedSquare::Sun by {
            assert(tail_t[k] == t[k + i + 1]);
        }
        assert forall|k: int| n - j <= k < tail_t.len() implies tail_t[k] != SolvedSquare::Sun by {
            assert(tail_t[k] == t[k + i + 1]);
        }
        lemma_count_leading(tail_t, SolvedSquare::Sun, n - j);
        lemma_count_total(tail_t);
        assert(descending(tail_s));
        assert(ascending(tail_t));
        lemma_rank_step(s, t, i as int);
        lemma_nth_of_rank(t);
        lemma_rank_order(s, t);
        assert(ascent_at(s, i as int));
    }
    true
}

/// Where a balanced sequence stands in the list of arrangements of its
/// length.
proof fn lemma_place(s: Seq<SolvedSquare>)
    requires
        balanced(s),
    ensures
        count(s, SolvedSquare::Sun) == s.len() / 2,
        count(s, SolvedSquare::Moon) == s.len() / 2,
        arrangements(s.len()).len() == binomial(s.len(), s.len() / 2),
        rank(s) < arrangements(s.len()).len(),
        arrangements(s.len())[rank(s) as int] == s,
{
    lemma_count_total(s);
    lemma_nth_of_rank(s);
}

/// The arrangement that follows a balanced sequence is balanced, as long,
/// and stands one place further in the list.
proof fn lemma_place_after(s: Seq<SolvedSquare>, t: Seq<SolvedSquare>)
    requires
        balanced(s),
        rank(s) + 1 < binomial(s.len(), count(s, SolvedSquare::Moon)),
        t == nth_arrangement(
            count(s, SolvedSquare::Sun),
            count(s, SolvedSquare::Moon),
            rank(s) + 1,
        ),
    ensures
        balanced(t),
        t.len() == s.len(),
        rank(t) == rank(s) + 1,
{
    lemma_count_total(s);
    lemma_nth_counts(count(s, SolvedSquare::Sun), count(s, SolvedSquare::Moon), rank(s) + 1);
    lemma_rank_of_nth(count(s, SolvedSquare::Sun), count(s, SolvedSquare::Moon), rank(s) + 1);
}

/// Yields each arrangement of equally many `Sun` and `Moon` symbols once,
/// in lexicographic order. Its view is the list of arrangements still to
/// come.
pub struct BalancedPermutations {
    current: Vec<SolvedSquare>,
    first_call: bool,
    done: bool,
}

impl View for BalancedPermutations {
    type V = Seq<Seq<SolvedSquare>>;

    closed spec fn view(&self) -> Seq<Seq<SolvedSquare>> {
        if self.first_call {
            arrangements(self.current@.len())
        } else {
            arrangements(self.current@.len()).skip(rank(self.current@) as int + 1)
        }
    }
}

impl BalancedPermutations {
    /// The state is sound: the arrangement held is balanced; before the
    /// first call it is the first of the list, and once the end was seen it
    /// is the last.
    pub closed spec fn wf(&self) -> bool {
        &&& balanced(self.current@)
        &&& self.first_call ==> !self.done && rank(self.current@) == 0
        &&& self.done ==> rank(self.current@) + 1 == arrangements(self.current@.len()).len()
    }

    /// A generator of the arrangements of length `x`, which must be even.
    pub fn new(x: usize) -> (r: Self)
        requires
            x % 2 == 0,
        ensures
            r.wf(),
            r@ == arrangements(x as nat),
    {
        let half = x / 2;
        let mut initial = vec![SolvedSquare::Sun; half];
        let mut moons = vec![SolvedSquare::Moon; half];
        initial.append(&mut moons);
        proof {
            lemma_arrangements_first(x as nat);
            lemma_arrangements_balanced(x as nat, 0);
            assert(initial@ =~= arrangements(x as nat)[0]);
        }
        BalancedPermutations { current: initial, first_call: true, done: false }
    }

    /// Hands out the next arrangement, or `None` once all were handed out.
    pub fn next(&mut self) -> (r: Option<Vec<SolvedSquare>>)
        requires
            old(self).wf(),
        ensures
            final(self).wf(),
            match r {
                Some(v) => old(self)@.len() > 0 && v@ == old(self)@[0] && final(self)@ == old(
                    self,
                )@.drop_first(),
                None => old(self)@.len() == 0 && final(self)@ == old(self)@,
            },
    {
        let ghost before = self.current@;
        let ghost all = arrangements(before.len());
        proof {
            lemma_place(before);
        }
        if self.done {
            return None;
        }
        if self.first_call {
            self.first_call = false;
            proof {
                assert(all.skip(1) =~= all.drop_first());
            }
            return Some(self.current.clone());
        }
        if !next_permutation(&mut self.current) {
            self.done = true;
            return None;
        }
        proof {
            let after = self.current@;
            lemma_place_after(before, after);
            lemma_place(after);
            assert(all.skip(rank(before) as int + 2) =~= all.skip(rank(before) as int + 1).drop_first());
        }
        Some(self.current.clone())
    }
}

} // verus!
