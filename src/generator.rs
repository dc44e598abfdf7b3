//! Carving a maze into a grid of walls, and finding walkable cells in it.
use crate::maze::{PATH, WALL};
use crate::position::Position;
use crate::reach::{open_cell, opens_within, reachable};
use crate::reach::{lemma_reachable_grow, lemma_reachable_prepend, lemma_reachable_refl, lemma_reachable_trans};
use rand::rngs::StdRng;
use rand::seq::SliceRandom;
use vstd::prelude::*;

verus! {

/// rand's seedable generator, carried through the digging as an opaque value.
#[verifier::external_type_specification]
#[verifier::external_body]
pub struct ExStdRng(StdRng);

/// Relies on rand's `SliceRandom::shuffle`, a Fisher-Yates shuffle: it only
/// reorders the elements, so the result is a permutation of the input.
#[verifier::external_body]
fn shuffle(items: &mut Vec<u8>, rng: &mut StdRng)
    ensures
        final(items)@.to_multiset() == old(items)@.to_multiset(),
{
    items.shuffle(rng);
}

/// Whether `g` has `height` rows of `width` cells each.
pub open spec fn is_grid(g: Seq<Vec<char>>, width: int, height: int) -> bool {
    g.len() == height && forall|y: int| 0 <= y < height ==> #[trigger] g[y]@.len() == width
}

/// The walkable cells of a grid: all that are not walls.
pub open spec fn open_map(g: Seq<Vec<char>>) -> Seq<Seq<bool>> {
    Seq::new(g.len(), |y: int| Seq::new(g[y]@.len(), |x: int| g[y]@[x] != WALL))
}

/// `b` is `a` with some cells turned into paths.
pub open spec fn carved(a: Seq<Vec<char>>, b: Seq<Vec<char>>) -> bool {
    &&& b.len() == a.len()
    &&& forall|y: int| 0 <= y < a.len() ==> #[trigger] b[y]@.len() == a[y]@.len()
    &&& forall|x: int, y: int|
        0 <= y < a.len() && 0 <= x < a[y]@.len() ==> #[trigger] b[y]@[x] == a[y]@[x] || b[y]@[x]
            == PATH
}

/// The cell two steps from (x, y) towards north (0), east (1), south (2) or west (3).
pub open spec fn two_steps(x: int, y: int, d: int) -> (int, int) {
    if d == 0 {
        (x, y - 2)
    } else if d == 1 {
        (x + 2, y)
    } else if d == 2 {
        (x, y + 2)
    } else {
        (x - 2, y)
    }
}

/// The cell one step from (x, y) in the same directions as `two_steps`.
pub open spec fn one_step(x: int, y: int, d: int) -> (int, int) {
    if d == 0 {
        (x, y - 1)
    } else if d == 1 {
        (x + 1, y)
    } else if d == 2 {
        (x, y + 1)
    } else {
        (x - 1, y)
    }
}

/// Whether `p` lies strictly inside the border of a `width` by `height` grid.
pub open spec fn strictly_inside(p: (int, int), width: int, height: int) -> bool {
    0 < p.0 < width - 1 && 0 < p.1 < height - 1
}

/// Whether `p` and `q` lie an even number of cells apart in both directions.
pub open spec fn same_parity(p: (int, int), q: (int, int)) -> bool {
    (p.0 - q.0) % 2 == 0 && (p.1 - q.1) % 2 == 0
}

/// Every cell two steps from `c` that lies strictly inside the border is
/// walkable.
pub open spec fn settled(t: Seq<Seq<bool>>, c: (int, int), width: int, height: int) -> bool {
    forall|d: int|
        0 <= d < 4 && #[trigger] strictly_inside(two_steps(c.0, c.1, d), width, height) ==> open_cell(
            t,
            two_steps(c.0, c.1, d),
        )
}

/// The number of wall cells in a row.
pub open spec fn row_walls(r: Seq<char>) -> nat
    decreases r.len(),
{
    if r.len() == 0 {
        0
    } else {
        row_walls(r.drop_last()) + if r.last() == WALL {
            1nat
        } else {
            0nat
        }
    }
}

/// The number of wall cells in a grid.
pub open spec fn grid_walls(g: Seq<Vec<char>>) -> nat
    decreases g.len(),
{
    if g.len() == 0 {
        0
    } else {
        grid_walls(g.drop_last()) + row_walls(g.last()@)
    }
}

/// Turning a cell of a row into a non-wall removes one wall if it was one.
proof fn lemma_row_walls_update(r: Seq<char>, i: int, c: char)
    requires
        0 <= i < r.len(),
        c != WALL,
    ensures
        row_walls(r.update(i, c)) + (if r[i] == WALL {
            1nat
        } else {
            0nat
        }) == row_walls(r),
    decreases r.len(),
{
    let u = r.update(i, c);
    if i == r.len() - 1 {
        assert(u.drop_last() =~= r.drop_last());
    } else {
        assert(u.drop_last() =~= r.drop_last().update(i, c));
        lemma_row_walls_update(r.drop_last(), i, c);
    }
}

/// Replacing a row changes the wall count by the difference of the rows.
proof fn lemma_grid_walls_update(g: Seq<Vec<char>>, y: int, row: Vec<char>)
    requires
        0 <= y < g.len(),
    ensures
        grid_walls(g.update(y, row)) + row_walls(g[y]@) == grid_walls(g) + row_walls(row@),
    decreases g.len(),
{
    let u = g.update(y, row);
    if y == g.len() - 1 {
        assert(u.drop_last() =~= g.drop_last());
    } else {
        assert(u.drop_last() =~= g.drop_last().update(y, row));
        lemma_grid_walls_update(g.drop_last(), y, row);
    }
}

/// Turns cell (x, y) into a path.
fn set_path(grid: &mut Vec<Vec<char>>, x: usize, y: usize)
    requires
        y < old(grid)@.len(),
        x < old(grid)@[y as int]@.len(),
    ensures
        final(grid)@ == old(grid)@.update(y as int, final(grid)@[y as int]),
        final(grid)@[y as int]@ == old(grid)@[y as int]@.update(x as int, PATH),
        grid_walls(final(grid)@) + (if old(grid)@[y as int]@[x as int] == WALL {
            1nat
        } else {
            0nat
        }) == grid_walls(old(grid)@),
{
    let ghost g0 = grid@;
    grid[y][x] = PATH;
    proof {
        lemma_row_walls_update(g0[y as int]@, x as int, PATH);
        lemma_grid_walls_update(g0, y as int, grid@[y as int]);
        assert(grid@ =~= g0.update(y as int, grid@[y as int]));
    }
}

/// The cell two steps from (x, y) in direction `d`, when it lies strictly
/// inside the border.
fn neighbour_inside(x: usize, y: usize, d: u8, width: usize, height: usize) -> (r: Option<
    (usize, usize),
>)
    requires
        d < 4,
        x < width,
        y < height,
    ensures
        r is Some <==> strictly_inside(
            two_steps(x as int, y as int, d as int),
            width as int,
            height as int,
        ),
        r matches Some(n) ==> (n.0 as int, n.1 as int) == two_steps(x as int, y as int, d as int),
{
    let (nx, ny) = if d == 0 {
        if y < 2 {
            return None;
        }
        (x, y - 2)
    } else if d == 1 {
        if width - x <= 2 {
            return None;
        }
        (x + 2, y)
    } else if d == 2 {
        if height - y <= 2 {
            return None;
        }
        (x, y + 2)
    } else {
        if x < 2 {
            return None;
        }
        (x - 2, y)
    };
    if nx > 0 && nx < width - 1 && ny > 0 && ny < height - 1 {
        Some((nx, ny))
    } else {
        None
    }
}

/// The cell one step from (x, y) in direction `d`, towards a neighbour that
/// lies inside the border.
fn step_towards(x: usize, y: usize, d: u8, width: usize, height: usize) -> (r: (usize, usize))
    requires
        d < 4,
        strictly_inside(two_steps(x as int, y as int, d as int), width as int, height as int),
    ensures
        (r.0 as int, r.1 as int) == one_step(x as int, y as int, d as int),
{
    if d == 0 {
        (x, y - 1)
    } else if d == 1 {
        (x + 1, y)
    } else if d == 2 {
        (x, y + 1)
    } else {
        (x - 1, y)
    }
}

/// Digs a maze into `grid` by randomized depth-first search from
/// (`start_x`, `start_y`): the start becomes a path; then, in an order drawn
/// from `rng`, each cell two steps away that lies inside the border and is
/// still a wall is joined to the start by turning the cell between them into a
/// path, and the search goes on from it.
pub fn dig_maze(
    grid: &mut Vec<Vec<char>>,
    width: usize,
    height: usize,
    start_x: usize,
    start_y: usize,
    rng: &mut StdRng,
)
    requires
        is_grid(old(grid)@, width as int, height as int),
        start_x < width,
        start_y < height,
    ensures
        is_grid(final(grid)@, width as int, height as int),
        carved(old(grid)@, final(grid)@),
        final(grid)@[start_y as int]@[start_x as int] == PATH,
        forall|x: int, y: int|
            0 <= y < height && 0 <= x < width && !strictly_inside((x, y), width as int, height as int)
                && (x, y) != (start_x as int, start_y as int) ==> #[trigger] final(grid)@[y]@[x]
                == old(grid)@[y]@[x],
        grid_walls(final(grid)@) <= grid_walls(old(grid)@),
        settled(open_map(final(grid)@), (start_x as int, start_y as int), width as int, height as int),
        forall|p: (int, int)|
            open_cell(open_map(final(grid)@), p) && !open_cell(open_map(old(grid)@), p)
                ==> #[trigger] reachable(open_map(final(grid)@), p, (start_x as int, start_y as int)),
        forall|p: (int, int)|
            open_cell(open_map(final(grid)@), p) && !open_cell(open_map(old(grid)@), p)
                && #[trigger] same_parity(p, (start_x as int, start_y as int)) ==> settled(
                open_map(final(grid)@),
                p,
                width as int,
                height as int,
            ),
    decreases 2 * grid_walls(old(grid)@) + if old(grid)@[start_y as int]@[start_x as int] != WALL {
        1int
    } else {
        0int
    },
{
    let ghost g0 = grid@;
    let ghost start = (start_x as int, start_y as int);
    set_path(grid, start_x, start_y);
    proof {
        lemma_carved_one(g0, grid@, start_x as int, start_y as int);
        lemma_reachable_refl(open_map(grid@), start);
    }
    let mut order: Vec<u8> = vec![0, 1, 2, 3];
    let ghost all = order@;
    shuffle(&mut order, rng);
    proof {
        broadcast use vstd::seq_lib::group_to_multiset_ensures;

        assert(order@.to_multiset().len() == all.to_multiset().len());
        assert(order@.len() == 4);
    }
    let mut i: usize = 0;
    while i < 4
        invariant
            0 <= i <= 4,
            order@.len() == 4,
            order@.to_multiset() == all.to_multiset(),
            all == seq![0u8, 1u8, 2u8, 3u8],
            start == (start_x as int, start_y as int),
            start_x < width,
            start_y < height,
            g0 == old(grid)@,
            is_grid(g0, width as int, height as int),
            is_grid(grid@, width as int, height as int),
            carved(g0, grid@),
            grid@[start_y as int]@[start_x as int] == PATH,
            forall|x: int, y: int|
                0 <= y < height && 0 <= x < width && !strictly_inside(
                    (x, y),
                    width as int,
                    height as int,
                ) && (x, y) != start ==> #[trigger] grid@[y]@[x] == g0[y]@[x],
            grid_walls(grid@) + (if g0[start_y as int]@[start_x as int] == WALL {
                1nat
            } else {
                0nat
            }) <= grid_walls(g0),
            forall|j: int|
                0 <= j < i && #[trigger] strictly_inside(
                    two_steps(start.0, start.1, order@[j] as int),
                    width as int,
                    height as int,
                ) ==> open_cell(open_map(grid@), two_steps(start.0, start.1, order@[j] as int)),
            forall|p: (int, int)|
                open_cell(open_map(grid@), p) && !open_cell(open_map(g0), p) ==> #[trigger] reachable(
                    open_map(grid@),
                    p,
                    start,
                ),
            forall|p: (int, int)|
                open_cell(open_map(grid@), p) && !open_cell(open_map(g0), p) && p != start
                    && #[trigger] same_parity(p, start) ==> settled(
                    open_map(grid@),
                    p,
                    width as int,
                    height as int,
                ),
        decreases 4 - i,
    {
        let d = order[i];
        proof {
            broadcast use vstd::seq_lib::group_to_multiset_ensures;

            assert(order@.contains(d));
            assert(all.to_multiset().count(d) > 0);
            assert(all.contains(d));
        }
        if let Some((nx, ny)) = neighbour_inside(start_x, start_y, d, width, height) {
            if grid[ny][nx] == WALL {
                let (mx, my) = step_towards(start_x, start_y, d, width, height);
                let ghost g1 = grid@;
                let ghost m = (mx as int, my as int);
                let ghost n = (nx as int, ny as int);
                set_path(grid, mx, my);
                let ghost g2 = grid@;
                proof {
                    lemma_carved_one(g1, g2, mx as int, my as int);
                    lemma_carved_trans(g0, g1, g2);
                    assert(open_cell(open_map(g1), start));
                    lemma_reachable_refl(open_map(g1), start);
                    lemma_reachable_grow(open_map(g1), open_map(g2), start, start);
                    lemma_reachable_prepend(open_map(g2), m, start, start);
                    assert forall|p: (int, int)|
                        open_cell(open_map(g2), p) && !open_cell(open_map(g0),
                            p) implies #[trigger] reachable(open_map(g2), p, start) by {
                        if p != m {
                            assert(open_cell(open_map(g1), p));
                            assert(reachable(open_map(g1), p, start));
                            lemma_reachable_grow(open_map(g1), open_map(g2), p, start);
                        }
                    }
                    assert forall|p: (int, int)|
                        open_cell(open_map(g2), p) && !open_cell(open_map(g0), p) && p != start
                            && #[trigger] same_parity(p, start) implies settled(
                        open_map(g2),
                        p,
                        width as int,
                        height as int,
                    ) by {
                        assert(p != m);
                        assert(open_cell(open_map(g1), p));
                        lemma_settled_grow(open_map(g1), open_map(g2), p, width as int, height as int);
                    }
                    assert(g2[ny as int]@[nx as int] == WALL);
               }
                dig_maze(grid, width, height, nx, ny, rng);
                proof {
                    let g3 = grid@;
                    lemma_carved_trans(g0, g2, g3);
                    lemma_carved_opens(g2, g3);
                    lemma_reachable_grow(open_map(g2), open_map(g3), m, start);
                    assert(open_cell(open_map(g3), n));
                    lemma_reachable_prepend(open_map(g3), n, m, start);
                    assert forall|p: (int, int)|
                        open_cell(open_map(g3), p) && !open_cell(open_map(g0),
                            p) implies #[trigger] reachable(open_map(g3), p, start) by {
                        if open_cell(open_map(g2), p) {
                            assert(reachable(open_map(g2), p, start));
                            lemma_reachable_grow(open_map(g2), open_map(g3), p, start);
                        } else {
                            assert(reachable(open_map(g3), p, n));
                            lemma_reachable_trans(open_map(g3), p, n, start);
                        }
                    }
                    assert forall|p: (int, int)|
                        open_cell(open_map(g3), p) && !open_cell(open_map(g0), p) && p != start
                            && #[trigger] same_parity(p, start) implies settled(
                        open_map(g3),
                        p,
                        width as int,
                        height as int,
                    ) by {
                        if open_cell(open_map(g2), p) {
                            lemma_settled_grow(open_map(g2), open_map(g3), p, width as int, height as int);
                        } else {
                            assert(same_parity(p, n));
                        }
                    }
                    assert(g3[start_y as int]@[start_x as int] == PATH);
                }
            }
        }
        proof {
            assert(open_cell(open_map(grid@), start));
            assert forall|j: int|
                0 <= j < i + 1 && #[trigger] strictly_inside(
                    two_steps(start.0, start.1, order@[j] as int),
                    width as int,
                    height as int,
                ) implies open_cell(
                open_map(grid@),
                two_steps(start.0, start.1, order@[j] as int),
            ) by {
                let q = two_steps(start.0, start.1, order@[j] as int);
                if j == i {
                    assert(g0[q.1]@[q.0] == WALL || open_cell(open_map(grid@), q));
                }
            }
        }
        i = i + 1;
    }
    proof {
        broadcast use vstd::seq_lib::group_to_multiset_ensures;

        assert forall|d: int|
            0 <= d < 4 && #[trigger] strictly_inside(
                two_steps(start_x as int, start_y as int, d),
                width as int,
                height as int,
            ) implies open_cell(open_map(grid@), two_steps(start_x as int, start_y as int, d)) by {
            assert(all[d] == d);
            assert(all.contains(all[d]));
            assert(all.to_multiset().count(all[d]) > 0);
            assert(order@.contains(all[d]));
            let j = choose|j: int| 0 <= j < 4 && order@[j] == all[d];
            assert(order@[j] as int == d);
        }
    }
}

/// Opening more cells keeps a cell settled.
proof fn lemma_settled_grow(t: Seq<Seq<bool>>, u: Seq<Seq<bool>>, c: (int, int), width: int, height: int)
    requires
        opens_within(t, u),
        settled(t, c, width, height),
    ensures
        settled(u, c, width, height),
{
    assert forall|d: int|
        0 <= d < 4 && #[trigger] strictly_inside(two_steps(c.0, c.1, d), width, height) implies open_cell(
        u,
        two_steps(c.0, c.1, d),
    ) by {
        assert(open_cell(t, two_steps(c.0, c.1, d)));
    }
}

/// When (1, 1) is walkable and every walkable cell at odd column and odd row
/// is settled, every cell at odd column and odd row inside the border is
/// walkable.
pub proof fn lemma_odd_cells_open(t: Seq<Seq<bool>>, width: int, height: int, x: int, y: int)
    requires
        open_cell(t, (1, 1)),
        forall|p: (int, int)|
            open_cell(t, p) && #[trigger] same_parity(p, (1, 1)) ==> settled(t, p, width, height),
        0 < x < width - 1,
        0 < y < height - 1,
        x % 2 == 1,
        y % 2 == 1,
    ensures
        open_cell(t, (x, y)),
    decreases x + y,
{
    if x > 1 {
        lemma_odd_cells_open(t, width, height, x - 2, y);
        assert(same_parity((x - 2, y), (1, 1)));
        assert(strictly_inside(two_steps(x - 2, y, 1), width, height));
    } else if y > 1 {
        lemma_odd_cells_open(t, width, height, x, y - 2);
        assert(same_parity((x, y - 2), (1, 1)));
        assert(strictly_inside(two_steps(x, y - 2, 2), width, height));
    }
}

/// `carved` composes.
proof fn lemma_carved_trans(a: Seq<Vec<char>>, b: Seq<Vec<char>>, c: Seq<Vec<char>>)
    requires
        carved(a, b),
        carved(b, c),
    ensures
        carved(a, c),
{
    assert forall|x: int, y: int|
        0 <= y < a.len() && 0 <= x < a[y]@.len() implies #[trigger] c[y]@[x] == a[y]@[x]
        || c[y]@[x] == PATH by {
        assert(b[y]@.len() == a[y]@.len());
        assert(b[y]@[x] == a[y]@[x] || b[y]@[x] == PATH);
        assert(c[y]@[x] == b[y]@[x] || c[y]@[x] == PATH);
    }
}

/// Carving keeps every walkable cell walkable.
proof fn lemma_carved_opens(a: Seq<Vec<char>>, b: Seq<Vec<char>>)
    requires
        carved(a, b),
    ensures
        opens_within(open_map(a), open_map(b)),
{
    assert forall|p: (int, int)| open_cell(open_map(a), p) implies #[trigger] open_cell(
        open_map(b),
        p,
    ) by {
        assert(b[p.1]@[p.0] == a[p.1]@[p.0] || b[p.1]@[p.0] == PATH);
    }
}

/// Facts on a grid changed in one cell to a path.
proof fn lemma_carved_one(a: Seq<Vec<char>>, b: Seq<Vec<char>>, x: int, y: int)
    requires
        0 <= y < a.len(),
        0 <= x < a[y]@.len(),
        b == a.update(y, b[y]),
        b[y]@ == a[y]@.update(x, PATH),
    ensures
        carved(a, b),
        opens_within(open_map(a), open_map(b)),
        forall|p: (int, int)|
            open_cell(open_map(b), p) && !open_cell(open_map(a), p) ==> p == (x, y),
        open_cell(open_map(b), (x, y)),
{
    assert forall|p: (int, int)| open_cell(open_map(a), p) implies #[trigger] open_cell(
        open_map(b),
        p,
    ) by {
        if p.1 == y && p.0 == x {
        } else {
            assert(b[p.1]@[p.0] == a[p.1]@[p.0]);
        }
    }
}

/// Whether cell (x, y) lies on `g` and is a path.
pub open spec fn is_path(g: Seq<Vec<char>>, x: int, y: int) -> bool {
    0 <= y < g.len() && 0 <= x < g[y]@.len() && g[y]@[x] == PATH
}

/// Whether cell (x, y) lies on `g`, is a path and is not `avoid`.
pub open spec fn is_path_except(g: Seq<Vec<char>>, x: int, y: int, avoid: Position) -> bool {
    is_path(g, x, y) && !(x == avoid.x && y == avoid.y)
}

/// Whether (x1, y1) comes before (x2, y2) when the rows are read from top to
/// bottom, each from left to right.
pub open spec fn reads_before(x1: int, y1: int, x2: int, y2: int) -> bool {
    y1 < y2 || (y1 == y2 && x1 < x2)
}

/// Finds a path cell: (`start_x`, `start_y`) if it is one, else the first
/// path cell reading the rows from the top, each from the left; `None` when
/// the grid holds no path cell.
pub fn find_path_position(
    grid: &Vec<Vec<char>>,
    width: usize,
    height: usize,
    start_x: usize,
    start_y: usize,
) -> (r: Option<Position>)
    requires
        is_grid(grid@, width as int, height as int),
        start_x < width,
        start_y < height,
    ensures
        is_path(grid@, start_x as int, start_y as int) ==> r == Some(
            (Position { x: start_x, y: start_y }),
        ),
        r is None <==> forall|x: int, y: int| !#[trigger] is_path(grid@, x, y),
        !is_path(grid@, start_x as int, start_y as int) ==> (r matches Some(p) ==> {
            &&& is_path(grid@, p.x as int, p.y as int)
            &&& forall|x: int, y: int|
                #[trigger] reads_before(x, y, p.x as int, p.y as int) ==> !is_path(grid@, x, y)
        }),
{
    if grid[start_y][start_x] == PATH {
        assert(is_path(grid@, start_x as int, start_y as int));
        return Some(Position::new(start_x, start_y));
    }
    let mut y: usize = 0;
    while y < height
        invariant
            is_grid(grid@, width as int, height as int),
            !is_path(grid@, start_x as int, start_y as int),
            y <= height,
            forall|cx: int, cy: int| 0 <= cy < y ==> !#[trigger] is_path(grid@, cx, cy),
        decreases height - y,
    {
        let mut x: usize = 0;
        while x < width
            invariant
                is_grid(grid@, width as int, height as int),
                !is_path(grid@, start_x as int, start_y as int),
                y < height,
                x <= width,
                forall|cx: int, cy: int| 0 <= cy < y ==> !#[trigger] is_path(grid@, cx, cy),
                forall|cx: int| 0 <= cx < x ==> !#[trigger] is_path(grid@, cx, y as int),
            decreases width - x,
        {
            if grid[y][x] == PATH {
                let p = Position::new(x, y);
                assert(is_path(grid@, x as int, y as int));
                assert forall|cx: int, cy: int|
                    #[trigger] reads_before(cx, cy, p.x as int, p.y as int) implies !is_path(
                    grid@,
                    cx,
                    cy,
                ) by {
                    if cy == y {
                        assert(!is_path(grid@, cx, y as int));
                    }
                }
                return Some(p);
            }
            x = x + 1;
        }
        y = y + 1;
    }
    None
}

/// Finds a path cell other than `avoid`: (`start_x`, `start_y`) if it is
/// one, else the first such cell reading the rows from the bottom, each from
/// the right; `None` when the grid holds no path cell but `avoid`.
pub fn find_path_position_from_bottom(
    grid: &Vec<Vec<char>>,
    width: usize,
    height: usize,
    start_x: usize,
    start_y: usize,
    avoid: &Position,
) -> (r: Option<Position>)
    requires
        is_grid(grid@, width as int, height as int),
        start_x < width,
        start_y < height,
    ensures
        is_path_except(grid@, start_x as int, start_y as int, *avoid) ==> r == Some(
            (Position { x: start_x, y: start_y }),
        ),
        r is None <==> forall|x: int, y: int| !#[trigger] is_path_except(grid@, x, y, *avoid),
        !is_path_except(grid@, start_x as int, start_y as int, *avoid) ==> (r matches Some(p) ==> {
            &&& is_path_except(grid@, p.x as int, p.y as int, *avoid)
            &&& forall|x: int, y: int|
                #[trigger] reads_before(p.x as int, p.y as int, x, y) ==> !is_path_except(
                    grid@,
                    x,
                    y,
                    *avoid,
                )
        }),
{
    if grid[start_y][start_x] == PATH && !(start_x == avoid.x && start_y == avoid.y) {
        assert(is_path_except(grid@, start_x as int, start_y as int, *avoid));
        return Some(Position::new(start_x, start_y));
    }
    let mut y: usize = height;
    while y > 0
        invariant
            is_grid(grid@, width as int, height as int),
            !is_path_except(grid@, start_x as int, start_y as int, *avoid),
            y <= height,
            forall|cx: int, cy: int| y <= cy ==> !#[trigger] is_path_except(grid@, cx, cy, *avoid),
        decreases y,
    {
        y = y - 1;
        let mut x: usize = width;
        while x > 0
            invariant
                is_grid(grid@, width as int, height as int),
                !is_path_except(grid@, start_x as int, start_y as int, *avoid),
                y < height,
                x <= width,
                forall|cx: int, cy: int|
                    y < cy ==> !#[trigger] is_path_except(grid@, cx, cy, *avoid),
                forall|cx: int| x <= cx ==> !#[trigger] is_path_except(grid@, cx, y as int, *avoid),
            decreases x,
        {
            x = x - 1;
            if grid[y][x] == PATH && !(x == avoid.x && y == avoid.y) {
                let p = Position::new(x, y);
                assert(is_path_except(grid@, x as int, y as int, *avoid));
                assert forall|cx: int, cy: int|
                    #[trigger] reads_before(p.x as int, p.y as int, cx, cy) implies !is_path_except(
                    grid@,
                    cx,
                    cy,
                    *avoid,
                ) by {
                    if cy == y {
                        assert(!is_path_except(grid@, cx, y as int, *avoid));
                    }
                }
                return Some(p);
            }
        }
    }
    None
}

} // verus!
