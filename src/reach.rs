//! Walks through a grid of walkable and blocked cells, and the connectivity
//! of its walkable cells.
use vstd::prelude::*;

verus! {

/// Whether cell `p` = (column, row) lies on the grid `t` (a sequence of rows)
/// and is walkable there.
pub open spec fn open_cell(t: Seq<Seq<bool>>, p: (int, int)) -> bool {
    0 <= p.1 < t.len() && 0 <= p.0 < t[p.1].len() && t[p.1][p.0]
}

/// Whether two cells share a side.
pub open spec fn adjacent(a: (int, int), b: (int, int)) -> bool {
    ||| (a.0 == b.0 && (a.1 == b.1 + 1 || b.1 == a.1 + 1))
    ||| (a.1 == b.1 && (a.0 == b.0 + 1 || b.0 == a.0 + 1))
}

/// A non-empty sequence of walkable cells, each sharing a side with the next.
pub open spec fn is_walk(t: Seq<Seq<bool>>, w: Seq<(int, int)>) -> bool {
    &&& w.len() > 0
    &&& forall|i: int| 0 <= i < w.len() ==> #[trigger] open_cell(t, w[i])
    &&& forall|i: int| 0 <= i < w.len() - 1 ==> #[trigger] adjacent(w[i], w[i + 1])
}

/// Whether some walk leads from `a` to `b`.
pub open spec fn reachable(t: Seq<Seq<bool>>, a: (int, int), b: (int, int)) -> bool {
    exists|w: Seq<(int, int)>| #[trigger] is_walk(t, w) && w[0] == a && w.last() == b
}

/// Every walkable cell can be reached from every other one.
pub open spec fn connected(t: Seq<Seq<bool>>) -> bool {
    forall|a: (int, int), b: (int, int)|
        open_cell(t, a) && open_cell(t, b) ==> #[trigger] reachable(t, a, b)
}

/// Every walkable cell of `t` is also walkable in `u`.
pub open spec fn opens_within(t: Seq<Seq<bool>>, u: Seq<Seq<bool>>) -> bool {
    forall|p: (int, int)| open_cell(t, p) ==> #[trigger] open_cell(u, p)
}

/// A walkable cell reaches itself.
pub proof fn lemma_reachable_refl(t: Seq<Seq<bool>>, a: (int, int))
    requires
        open_cell(t, a),
    ensures
        reachable(t, a, a),
{
    let w = seq![a];
    assert(is_walk(t, w));
}

/// A walk read backwards is a walk.
pub proof fn lemma_reachable_symm(t: Seq<Seq<bool>>, a: (int, int), b: (int, int))
    requires
        reachable(t, a, b),
    ensures
        reachable(t, b, a),
{
    let w = choose|w: Seq<(int, int)>| #[trigger] is_walk(t, w) && w[0] == a && w.last() == b;
    let r = w.reverse();
    assert forall|i: int| 0 <= i < r.len() - 1 implies #[trigger] adjacent(r[i], r[i + 1]) by {
        let j = w.len() - 2 - i;
        assert(adjacent(w[j], w[j + 1]));
    }
    assert forall|i: int| 0 <= i < r.len() implies #[trigger] open_cell(t, r[i]) by {
        assert(open_cell(t, w[w.len() - 1 - i]));
    }
    assert(is_walk(t, r));
}

/// Two walks that meet join into one.
pub proof fn lemma_reachable_trans(t: Seq<Seq<bool>>, a: (int, int), b: (int, int), c: (int, int))
    requires
        reachable(t, a, b),
        reachable(t, b, c),
    ensures
        reachable(t, a, c),
{
    let w1 = choose|w: Seq<(int, int)>| #[trigger] is_walk(t, w) && w[0] == a && w.last() == b;
    let w2 = choose|w: Seq<(int, int)>| #[trigger] is_walk(t, w) && w[0] == b && w.last() == c;
    let w = w1 + w2.drop_first();
    assert forall|i: int| 0 <= i < w.len() implies #[trigger] open_cell(t, w[i]) by {
        if i < w1.len() {
            assert(open_cell(t, w1[i]));
        } else {
            assert(open_cell(t, w2[i - w1.len() + 1]));
        }
    }
    assert forall|i: int| 0 <= i < w.len() - 1 implies #[trigger] adjacent(w[i], w[i + 1]) by {
        if i < w1.len() - 1 {
            assert(adjacent(w1[i], w1[i + 1]));
        } else {
            let j = i - w1.len() + 1;
            assert(adjacent(w2[j], w2[j + 1]));
        }
    }
    assert(is_walk(t, w));
    if w2.len() == 1 {
        assert(w.last() == w1.last());
    } else {
        assert(w.last() == w2.last());
    }
}

/// A walk may start one step earlier, from a walkable neighbour.
pub proof fn lemma_reachable_prepend(t: Seq<Seq<bool>>, c: (int, int), a: (int, int), b: (int, int))
    requires
        open_cell(t, c),
        adjacent(c, a),
        reachable(t, a, b),
    ensures
        reachable(t, c, b),
{
    let w = choose|w: Seq<(int, int)>| #[trigger] is_walk(t, w) && w[0] == a && w.last() == b;
    let v = seq![c] + w;
    assert forall|i: int| 0 <= i < v.len() implies #[trigger] open_cell(t, v[i]) by {
        if i > 0 {
            assert(open_cell(t, w[i - 1]));
        }
    }
    assert forall|i: int| 0 <= i < v.len() - 1 implies #[trigger] adjacent(v[i], v[i + 1]) by {
        if i > 0 {
            let j = i - 1;
            assert(adjacent(w[j], w[j + 1]));
        }
    }
    assert(is_walk(t, v));
}

/// Opening more cells keeps every walk.
pub proof fn lemma_reachable_grow(t: Seq<Seq<bool>>, u: Seq<Seq<bool>>, a: (int, int), b: (int, int))
    requires
        opens_within(t, u),
        reachable(t, a, b),
    ensures
        reachable(u, a, b),
{
    let w = choose|w: Seq<(int, int)>| #[trigger] is_walk(t, w) && w[0] == a && w.last() == b;
    assert forall|i: int| 0 <= i < w.len() implies #[trigger] open_cell(u, w[i]) by {
        assert(open_cell(t, w[i]));
    }
    assert(is_walk(u, w));
}

/// A grid in which every walkable cell reaches `r` is connected.
pub proof fn lemma_connected_from_root(t: Seq<Seq<bool>>, r: (int, int))
    requires
        forall|p: (int, int)| open_cell(t, p) ==> #[trigger] reachable(t, p, r),
    ensures
        connected(t),
{
    assert forall|a: (int, int), b: (int, int)|
        open_cell(t, a) && open_cell(t, b) implies #[trigger] reachable(t, a, b) by {
        assert(reachable(t, a, r));
        assert(reachable(t, b, r));
        lemma_reachable_symm(t, b, r);
        lemma_reachable_trans(t, a, r, b);
    }
}

} // verus!
