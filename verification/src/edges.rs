//! The constraints that tie neighbouring cells: at most one for each pair
//! of neighbours, whichever way round the pair is named.

use crate::board::{adjacent, are_adjacent, Edge};
use vstd::prelude::*;

verus! {

/// A pair of cell indices with the smaller one first.
pub open spec fn pair_key(a: usize, b: usize) -> (usize, usize) {
    if a <= b {
        (a, b)
    } else {
        (b, a)
    }
}

/// Entry `i` of `items` speaks of the pair `k`.
pub open spec fn names(items: Seq<(usize, usize, Edge)>, i: int, k: (usize, usize)) -> bool {
    0 <= i < items.len() && items[i].0 == k.0 && items[i].1 == k.1
}

/// No two entries speak of the same pair.
pub open spec fn distinct_pairs(items: Seq<(usize, usize, Edge)>) -> bool {
    forall|i: int, j: int, k: (usize, usize)|
        names(items, i, k) && names(items, j, k) ==> i == j
}

/// `items` writes out the map `m`: each entry is a pair of `m` with its
/// kind, each pair of `m` has its entry, and none has two.
pub open spec fn lists(items: Seq<(usize, usize, Edge)>, m: Map<(usize, usize), Edge>) -> bool {
    &&& distinct_pairs(items)
    &&& forall|i: int|
        0 <= i < items.len() ==> #[trigger] m.contains_key((items[i].0, items[i].1)) && m[(
            items[i].0,
            items[i].1,
        )] == items[i].2
    &&& forall|k: (usize, usize)| m.contains_key(k) ==> exists|i: int| names(items, i, k)
}

/// The map that a list of entries without repeated pairs writes out.
pub open spec fn listed(items: Seq<(usize, usize, Edge)>) -> Map<(usize, usize), Edge> {
    Map::new(
        |k: (usize, usize)| exists|i: int| names(items, i, k),
        |k: (usize, usize)| items[choose|i: int| names(items, i, k)].2,
    )
}

/// A list without repeated pairs writes out its own map.
pub proof fn lemma_listed(items: Seq<(usize, usize, Edge)>)
    requires
        distinct_pairs(items),
    ensures
        lists(items, listed(items)),
{
    let m = listed(items);
    assert forall|i: int| 0 <= i < items.len() implies #[trigger] m.contains_key(
        (items[i].0, items[i].1),
    ) && m[(items[i].0, items[i].1)] == items[i].2 by {
        let k = (items[i].0, items[i].1);
        assert(names(items, i, k));
        let c = choose|c: int| names(items, c, k);
        assert(names(items, c, k));
    }
}

/// A list writes out one map only: two maps with the same list are the
/// same map.
pub proof fn lemma_lists_unique(
    items: Seq<(usize, usize, Edge)>,
    m1: Map<(usize, usize), Edge>,
    m2: Map<(usize, usize), Edge>,
)
    requires
        lists(items, m1),
        lists(items, m2),
    ensures
        m1 == m2,
{
    assert forall|k: (usize, usize)| m1.contains_key(k) implies m2.contains_key(k) && m1[k]
        == m2[k] by {
        let i = choose|i: int| names(items, i, k);
        assert(names(items, i, k));
        assert(m2.contains_key((items[i].0, items[i].1)));
    }
    assert forall|k: (usize, usize)| m2.contains_key(k) implies m1.contains_key(k) by {
        let i = choose|i: int| names(items, i, k);
        assert(names(items, i, k));
        assert(m1.contains_key((items[i].0, items[i].1)));
    }
    assert(m1 =~= m2);
}

/// Changing the kind of entry `i` changes the kind of its pair in the map.
pub proof fn lemma_lists_update(
    items: Seq<(usize, usize, Edge)>,
    m: Map<(usize, usize), Edge>,
    i: int,
    kind: Edge,
)
    requires
        lists(items, m),
        0 <= i < items.len(),
    ensures
        lists(
            items.update(i, (items[i].0, items[i].1, kind)),
            m.insert((items[i].0, items[i].1), kind),
        ),
{
    let key = (items[i].0, items[i].1);
    let items2 = items.update(i, (items[i].0, items[i].1, kind));
    let m2 = m.insert(key, kind);
    assert forall|x: int, y: int, k: (usize, usize)|
        names(items2, x, k) && names(items2, y, k) implies x == y by {
        assert(names(items, x, k) && names(items, y, k));
    }
    assert forall|x: int| 0 <= x < items2.len() implies #[trigger] m2.contains_key(
        (items2[x].0, items2[x].1),
    ) && m2[(items2[x].0, items2[x].1)] == items2[x].2 by {
        assert(m.contains_key((items[x].0, items[x].1)));
        if x != i && (items[x].0, items[x].1) == key {
            assert(names(items, x, key) && names(items, i, key));
        }
    }
    assert forall|k: (usize, usize)| m2.contains_key(k) implies exists|x: int|
        names(items2, x, k) by {
        if k == key {
            assert(names(items2, i, k));
        } else {
            let x = choose|x: int| names(items, x, k);
            assert(names(items, x, k));
            assert(names(items2, x, k));
        }
    }
}

/// An entry for a pair that has none adds the pair to the map.
pub proof fn lemma_lists_push(
    items: Seq<(usize, usize, Edge)>,
    m: Map<(usize, usize), Edge>,
    e: (usize, usize, Edge),
)
    requires
        lists(items, m),
        forall|i: int| !names(items, i, (e.0, e.1)),
    ensures
        lists(items.push(e), m.insert((e.0, e.1), e.2)),
{
    let key = (e.0, e.1);
    let items2 = items.push(e);
    let m2 = m.insert(key, e.2);
    assert forall|x: int, y: int, k: (usize, usize)|
        names(items2, x, k) && names(items2, y, k) implies x == y by {
        if x < items.len() {
            assert(names(items, x, k));
        }
        if y < items.len() {
            assert(names(items, y, k));
        }
    }
    assert forall|x: int| 0 <= x < items2.len() implies #[trigger] m2.contains_key(
        (items2[x].0, items2[x].1),
    ) && m2[(items2[x].0, items2[x].1)] == items2[x].2 by {
        if x < items.len() {
            assert(m.contains_key((items[x].0, items[x].1)));
            assert(!names(items, x, key));
        }
    }
    assert forall|k: (usize, usize)| m2.contains_key(k) implies exists|x: int|
        names(items2, x, k) by {
        if k == key {
            assert(names(items2, items.len() as int, k));
        } else {
            let x = choose|x: int| names(items, x, k);
            assert(names(items, x, k));
            assert(names(items2, x, k));
        }
    }
}

/// Taking entry `i` out takes its pair out of the map.
pub proof fn lemma_lists_remove(
    items: Seq<(usize, usize, Edge)>,
    m: Map<(usize, usize), Edge>,
    i: int,
)
    requires
        lists(items, m),
        0 <= i < items.len(),
    ensures
        lists(items.remove(i), m.remove((items[i].0, items[i].1))),
{
    let key = (items[i].0, items[i].1);
    let items2 = items.remove(i);
    let m2 = m.remove(key);
    assert forall|x: int| 0 <= x < items2.len() implies items2[x] == items[if x < i {
        x
    } else {
        x + 1
    }] by {}
    assert forall|x: int, y: int, k: (usize, usize)|
        names(items2, x, k) && names(items2, y, k) implies x == y by {
        let x1 = if x < i { x } else { x + 1 };
        let y1 = if y < i { y } else { y + 1 };
        assert(names(items, x1, k) && names(items, y1, k));
    }
    assert forall|x: int| 0 <= x < items2.len() implies #[trigger] m2.contains_key(
        (items2[x].0, items2[x].1),
    ) && m2[(items2[x].0, items2[x].1)] == items2[x].2 by {
        let x1 = if x < i { x } else { x + 1 };
        assert(m.contains_key((items[x1].0, items[x1].1)));
        if (items[x1].0, items[x1].1) == key {
            assert(names(items, x1, key) && names(items, i, key));
        }
    }
    assert forall|k: (usize, usize)| m2.contains_key(k) implies exists|x: int|
        names(items2, x, k) by {
        let x1 = choose|x: int| names(items, x, k);
        assert(names(items, x1, k));
        let x = if x1 < i { x1 } else { x1 - 1 };
        assert(names(items2, x, k));
    }
}

/// What one turn of the wheel makes of the constraint on pair `k`: none
/// becomes [`Edge::X`], that becomes [`Edge::Equals`], and that becomes none.
pub open spec fn cycled(m: Map<(usize, usize), Edge>, k: (usize, usize)) -> Map<
    (usize, usize),
    Edge,
> {
    if !m.contains_key(k) {
        m.insert(k, Edge::X)
    } else if m[k] == Edge::X {
        m.insert(k, Edge::Equals)
    } else {
        m.remove(k)
    }
}

/// A pair of cells has one constraint at most, whichever way round it is
/// named, and the constraint written last is the one that stands.
pub proof fn lemma_last_write_wins(
    m: Map<(usize, usize), Edge>,
    a: usize,
    b: usize,
    first: Edge,
    last: Edge,
)
    ensures
        pair_key(a, b) == pair_key(b, a),
        m.insert(pair_key(a, b), first).insert(pair_key(b, a), last) == m.insert(
            pair_key(a, b),
            last,
        ),
        m.insert(pair_key(a, b), first).insert(pair_key(b, a), last)[pair_key(a, b)] == last,
{
    assert(m.insert(pair_key(a, b), first).insert(pair_key(b, a), last) =~= m.insert(
        pair_key(a, b),
        last,
    ));
}

/// The set of constraints on a grid of a given width. Its view maps each
/// constrained pair of neighbours, smaller index first, to the kind of its
/// constraint.
pub struct Edges {
    width: u32,
    entries: Vec<(usize, usize, Edge)>,
}

impl View for Edges {
    type V = Map<(usize, usize), Edge>;

    closed spec fn view(&self) -> Map<(usize, usize), Edge> {
        listed(self.entries@)
    }
}

impl Edges {
    /// The width of the grid that the constraints are about.
    pub closed spec fn spec_width(&self) -> u32 {
        self.width
    }

    /// Each entry names two neighbours of the grid, the smaller index
    /// first, and no pair is entered twice.
    pub closed spec fn wf(&self) -> bool {
        &&& distinct_pairs(self.entries@)
        &&& forall|i: int|
            0 <= i < self.entries@.len() ==> {
                &&& (#[trigger] self.entries@[i]).0 < self.entries@[i].1
                &&& adjacent(
                    self.entries@[i].0 as int,
                    self.entries@[i].1 as int,
                    self.width as int,
                )
            }
    }

    /// Every constrained pair is a pair of neighbours on the grid, written
    /// with the smaller index first.
    pub proof fn lemma_pairs(&self, k: (usize, usize))
        requires
            self.wf(),
            self@.contains_key(k),
        ensures
            k.0 < k.1,
            adjacent(k.0 as int, k.1 as int, self.spec_width() as int),
    {
        let i = choose|i: int| names(self.entries@, i, k);
        assert(names(self.entries@, i, k));
    }

    /// No constraints, on a grid of the given width.
    pub fn new(width: u32) -> (r: Edges)
        ensures
            r.wf(),
            r.spec_width() == width,
            r@ == Map::<(usize, usize), Edge>::empty(),
    {
        let r = Edges { width, entries: Vec::new() };
        assert(r@ =~= Map::<(usize, usize), Edge>::empty()) by {
            assert forall|k: (usize, usize)| !r@.contains_key(k) by {
                if r@.contains_key(k) {
                    let i = choose|i: int| names(r.entries@, i, k);
                    assert(names(r.entries@, i, k));
                }
            }
        }
        r
    }

    /// The width of the grid that the constraints are about.
    #[verifier::when_used_as_spec(spec_width)]
    pub fn width(&self) -> (w: u32)
        ensures
            w == self.spec_width(),
    {
        self.width
    }

    /// The constraints one by one, in no particular order.
    pub fn entries(&self) -> (r: &Vec<(usize, usize, Edge)>)
        requires
            self.wf(),
        ensures
            lists(r@, self@),
    {
        proof {
            lemma_listed(self.entries@);
        }
        &self.entries
    }

    /// Where the entry of the pair `(a, b)` stands, if there is one.
    fn position(&self, a: usize, b: usize) -> (r: Option<usize>)
        ensures
            match r {
                Some(i) => names(self.entries@, i as int, (a, b)),
                None => forall|i: int| !names(self.entries@, i, (a, b)),
            },
    {
        let mut i: usize = 0;
        while i < self.entries.len()
            invariant
                i <= self.entries@.len(),
                forall|j: int| 0 <= j < i ==> !names(self.entries@, j, (a, b)),
            decreases self.entries@.len() - i,
        {
            if self.entries[i].0 == a && self.entries[i].1 == b {
                return Some(i);
            }
            i += 1;
        }
        None
    }

    /// The constraint between cells `a` and `b`, in either order.
    pub fn get(&self, a: usize, b: usize) -> (r: Option<Edge>)
        requires
            self.wf(),
        ensures
            r == (if self@.contains_key(pair_key(a, b)) {
                Some(self@[pair_key(a, b)])
            } else {
                None
            }),
    {
        let (lo, hi) = if a <= b {
            (a, b)
        } else {
            (b, a)
        };
        proof {
            lemma_listed(self.entries@);
        }
        match self.position(lo, hi) {
            Some(i) => Some(self.entries[i].2),
            None => {
                proof {
                    if self@.contains_key((lo, hi)) {
                        let i = choose|i: int| names(self.entries@, i, (lo, hi));
                        assert(names(self.entries@, i, (lo, hi)));
                    }
                }
                None
            },
        }
    }

    /// Puts the constraint `kind` on cells `a` and `b`, named in either
    /// order, in place of whatever constraint the pair had. Cells that are
    /// not neighbours on the grid take no constraint: the set then stays as
    /// it is and the answer is `false`.
    pub fn insert(&mut self, a: usize, b: usize, kind: Edge) -> (accepted: bool)
        requires
            old(self).wf(),
        ensures
            final(self).wf(),
            final(self).spec_width() == old(self).spec_width(),
            accepted == adjacent(a as int, b as int, old(self).spec_width() as int),
            accepted ==> final(self)@ == old(self)@.insert(pair_key(a, b), kind),
            !accepted ==> final(self)@ == old(self)@,
    {
        if !are_adjacent(a, b, self.width) {
            return false;
        }
        let (lo, hi) = if a <= b {
            (a, b)
        } else {
            (b, a)
        };
        let ghost items = self.entries@;
        proof {
            lemma_listed(items);
        }
        match self.position(lo, hi) {
            Some(i) => {
                self.entries[i] = (lo, hi, kind);
                proof {
                    lemma_lists_update(items, old(self)@, i as int, kind);
                    assert(self.entries@ == items.update(i as int, (lo, hi, kind)));
                }
            },
            None => {
                self.entries.push((lo, hi, kind));
                proof {
                    lemma_lists_push(items, old(self)@, (lo, hi, kind));
                }
            },
        }
        proof {
            lemma_listed(self.entries@);
            lemma_lists_unique(self.entries@, self@, old(self)@.insert((lo, hi), kind));
        }
        true
    }

    /// Lifts the constraint between cells `a` and `b`, named in either
    /// order, and hands back its kind.
    pub fn remove(&mut self, a: usize, b: usize) -> (r: Option<Edge>)
        requires
            old(self).wf(),
        ensures
            final(self).wf(),
            final(self).spec_width() == old(self).spec_width(),
            r == (if old(self)@.contains_key(pair_key(a, b)) {
                Some(old(self)@[pair_key(a, b)])
            } else {
                None
            }),
            final(self)@ == old(self)@.remove(pair_key(a, b)),
    {
        let (lo, hi) = if a <= b {
            (a, b)
        } else {
            (b, a)
        };
        let ghost items = self.entries@;
        proof {
            lemma_listed(items);
        }
        match self.position(lo, hi) {
            Some(i) => {
                let gone = self.entries.remove(i);
                proof {
                    lemma_lists_remove(items, old(self)@, i as int);
                    lemma_listed(self.entries@);
                    lemma_lists_unique(self.entries@, self@, old(self)@.remove((lo, hi)));
                }
                Some(gone.2)
            },
            None => {
                proof {
                    if old(self)@.contains_key((lo, hi)) {
                        let i = choose|i: int| names(items, i, (lo, hi));
                        assert(names(items, i, (lo, hi)));
                    }
                    assert(old(self)@.remove((lo, hi)) =~= old(self)@);
                }
                None
            },
        }
    }

    /// Turns the wheel on the pair of cells `a` and `b`, as [`cycled`]
    /// says. Cells that are not neighbours on the grid are left alone, and
    /// the answer is `false`.
    pub fn cycle(&mut self, a: usize, b: usize) -> (accepted: bool)
        requires
            old(self).wf(),
        ensures
            final(self).wf(),
            final(self).spec_width() == old(self).spec_width(),
            accepted == adjacent(a as int, b as int, old(self).spec_width() as int),
            accepted ==> final(self)@ == cycled(old(self)@, pair_key(a, b)),
            !accepted ==> final(self)@ == old(self)@,
    {
        if !are_adjacent(a, b, self.width) {
            return false;
        }
        match self.get(a, b) {
            None => {
                self.insert(a, b, Edge::X);
            },
            Some(Edge::X) => {
                self.insert(a, b, Edge::Equals);
            },
            Some(Edge::Equals) => {
                self.remove(a, b);
            },
        }
        true
    }
}

} // verus!
