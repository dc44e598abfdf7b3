//! The maze game: a dug grid, the player and the goal, and how the player
//! moves.
use crate::direction::{direction_of, parse_direction, Direction};
use crate::generator::{dig_maze, find_path_position, find_path_position_from_bottom};
use crate::generator::{is_grid, is_path_except, lemma_odd_cells_open, open_map, same_parity, settled};
use crate::position::Position;
use crate::reach::{connected, lemma_connected_from_root, open_cell, reachable};
use rand::rngs::StdRng;
use rand::SeedableRng;
use vstd::prelude::*;
use vstd::string::StringExecFns;

verus! {

/// A wall cell.
pub const WALL: char = '#';
/// A walkable cell.
pub const PATH: char = ' ';
/// The cell the player stands on.
pub const PLAYER: char = 'P';
/// The goal cell.
pub const GOAL: char = 'G';

/// Relies on rand's `rand::rng()` and `SeedableRng::from_rng`: a generator
/// seeded from the thread-local generator. Nothing is known of its output.
#[verifier::external_body]
fn fresh_rng() -> StdRng {
    StdRng::from_rng(&mut rand::rng())
}

/// A maze with a player and a goal on it.
pub struct Maze {
    width: usize,
    height: usize,
    grid: Vec<Vec<char>>,
    player: Position,
    goal: Position,
}

/// The state of a game, as seen from outside.
pub struct MazeState {
    /// Where the player stands.
    pub player_position: Position,
    /// Where the goal is.
    pub goal_position: Position,
    /// Whether the player stands on the goal.
    pub is_completed: bool,
}

/// A maze as a mathematical value: its size, which cells are walkable, and
/// where the player and the goal are.
pub ghost struct MazeView {
    /// Number of columns.
    pub width: nat,
    /// Number of rows.
    pub height: nat,
    /// `open[y][x]` holds when the cell at column `x`, row `y` is not a wall.
    pub open: Seq<Seq<bool>>,
    /// Where the player stands.
    pub player: Position,
    /// Where the goal is.
    pub goal: Position,
}

/// A requested size made valid: at least 5, and odd.
pub open spec fn normalized(n: nat) -> nat {
    let m = if n < 5 {
        5
    } else {
        n
    };
    if m % 2 == 0 {
        m + 1
    } else {
        m
    }
}

/// The character shown at (x, y): the goal, else the player, else a path or a
/// wall as `open` says.
pub open spec fn symbol(open: Seq<Seq<bool>>, player: Position, goal: Position, x: int, y: int) -> char {
    if goal.cell() == (x, y) {
        GOAL
    } else if player.cell() == (x, y) {
        PLAYER
    } else if open[y][x] {
        PATH
    } else {
        WALL
    }
}

/// Where one step in direction `d` from `p` leads on a `width` by `height`
/// grid; a step over the edge stays at `p`.
pub open spec fn target(p: Position, d: Direction, width: nat, height: nat) -> Position {
    match d {
        Direction::Up => if p.y > 0 {
            Position { x: p.x, y: (p.y - 1) as usize }
        } else {
            p
        },
        Direction::Down => if p.y + 1 < height {
            Position { x: p.x, y: (p.y + 1) as usize }
        } else {
            p
        },
        Direction::Left => if p.x > 0 {
            Position { x: (p.x - 1) as usize, y: p.y }
        } else {
            p
        },
        Direction::Right => if p.x + 1 < width {
            Position { x: (p.x + 1) as usize, y: p.y }
        } else {
            p
        },
    }
}

impl MazeView {
    /// A maze as construction leaves it: an odd size of at least 5, the
    /// player and the goal on walkable cells, and every walkable cell
    /// reachable from every other.
    pub open spec fn inv(self) -> bool {
        &&& self.width >= 5 && self.width % 2 == 1
        &&& self.height >= 5 && self.height % 2 == 1
        &&& self.open.len() == self.height
        &&& forall|y: int| 0 <= y < self.height ==> #[trigger] self.open[y].len() == self.width
        &&& open_cell(self.open, self.player.cell())
        &&& open_cell(self.open, self.goal.cell())
        &&& connected(self.open)
    }

    /// What construction gives for a requested `width` by `height`: the size
    /// made valid, the invariant, the player at (1, 1) and the goal at the
    /// opposite corner cell (width - 2, height - 2), and every cell at an odd
    /// column and an odd row inside the border dug open.
    pub open spec fn as_built(self, width: nat, height: nat) -> bool {
        &&& self.inv()
        &&& self.width == normalized(width)
        &&& self.height == normalized(height)
        &&& self.player.cell() == (1int, 1int)
        &&& self.goal.cell() == (self.width - 2, self.height - 2)
        &&& self.player != self.goal
        &&& forall|x: int, y: int|
            0 < x < self.width - 1 && 0 < y < self.height - 1 && x % 2 == 1 && y % 2 == 1
                ==> #[trigger] open_cell(self.open, (x, y))
    }

    /// The player stands on the goal.
    pub open spec fn completed(self) -> bool {
        self.player == self.goal
    }

    /// The maze after a move in direction `d` (`None` for a word that names
    /// no direction): once completed, or for no direction, nothing changes;
    /// else the player steps to the target cell if it is walkable.
    pub open spec fn after_move(self, d: Option<Direction>) -> MazeView {
        if self.completed() {
            self
        } else {
            match d {
                None => self,
                Some(d) => {
                    let t = target(self.player, d, self.width, self.height);
                    if open_cell(self.open, t.cell()) {
                        MazeView { player: t, ..self }
                    } else {
                        self
                    }
                },
            }
        }
    }

    /// The character shown at (x, y).
    pub open spec fn symbol_at(self, x: int, y: int) -> char {
        symbol(self.open, self.player, self.goal, x, y)
    }

    /// Row `y` as text, without its line end.
    pub open spec fn row_text(self, y: int) -> Seq<char> {
        Seq::new(self.width, |x: int| self.symbol_at(x, y))
    }

    /// The first `k` rows as text, each ended by a line feed.
    pub open spec fn rows_text(self, k: int) -> Seq<char>
        decreases k,
    {
        if k <= 0 {
            Seq::empty()
        } else {
            self.rows_text(k - 1) + self.row_text(k - 1) + seq!['\n']
        }
    }
}

impl View for Maze {
    type V = MazeView;

    closed spec fn view(&self) -> MazeView {
        MazeView {
            width: self.width as nat,
            height: self.height as nat,
            open: open_map(self.grid@),
            player: self.player,
            goal: self.goal,
        }
    }
}

impl Maze {
    /// The maze is consistent: its view obeys `MazeView::inv`, and each cell
    /// of the grid shows what the view says.
    pub closed spec fn wf(&self) -> bool {
        &&& self@.inv()
        &&& is_grid(self.grid@, self.width as int, self.height as int)
        &&& forall|x: int, y: int|
            0 <= y < self.height && 0 <= x < self.width ==> #[trigger] self.grid@[y]@[x]
                == self@.symbol_at(x, y)
    }
}

/// A cell with the player or the goal taken off.
pub open spec fn plain(c: char) -> char {
    if c == PLAYER || c == GOAL {
        PATH
    } else {
        c
    }
}

impl Maze {
    /// Redraws the player and the goal on the grid from their positions.
    fn update_grid(&mut self)
        requires
            is_grid(old(self).grid@, old(self).width as int, old(self).height as int),
            old(self).player.x < old(self).width,
            old(self).player.y < old(self).height,
            old(self).goal.x < old(self).width,
            old(self).goal.y < old(self).height,
            old(self).grid@[old(self).player.y as int]@[old(self).player.x as int] != WALL,
            old(self).grid@[old(self).goal.y as int]@[old(self).goal.x as int] != WALL,
            forall|x: int, y: int|
                0 <= y < old(self).height && 0 <= x < old(self).width ==> {
                    let c = #[trigger] old(self).grid@[y]@[x];
                    c == WALL || c == PATH || c == PLAYER || c == GOAL
                },
        ensures
            final(self).width == old(self).width,
            final(self).height == old(self).height,
            final(self).player == old(self).player,
            final(self).goal == old(self).goal,
            is_grid(final(self).grid@, final(self).width as int, final(self).height as int),
            open_map(final(self).grid@) == open_map(old(self).grid@),
            forall|x: int, y: int|
                0 <= y < final(self).height && 0 <= x < final(self).width
                    ==> #[trigger] final(self).grid@[y]@[x] == symbol(
                    open_map(old(self).grid@),
                    final(self).player,
                    final(self).goal,
                    x,
                    y,
                ),
    {
        let ghost g0 = self.grid@;
        let ghost w = self.width as int;
        let ghost h = self.height as int;
        let mut y: usize = 0;
        while y < self.height
            invariant
                w == self.width,
                h == self.height,
                self.player == old(self).player,
                self.goal == old(self).goal,
                self.player.x < w && self.player.y < h,
                self.goal.x < w && self.goal.y < h,
                y <= h,
                is_grid(g0, w, h),
                is_grid(self.grid@, w, h),
                forall|cx: int, cy: int|
                    0 <= cy < h && 0 <= cx < w ==> #[trigger] self.grid@[cy]@[cx] == if cy < y {
                        plain(g0[cy]@[cx])
                    } else {
                        g0[cy]@[cx]
                    },
            decreases h - y,
        {
            let mut x: usize = 0;
            while x < self.width
                invariant
                    w == self.width,
                    h == self.height,
                    self.player == old(self).player,
                    self.goal == old(self).goal,
                    self.player.x < w && self.player.y < h,
                    self.goal.x < w && self.goal.y < h,
                    y < h,
                    x <= w,
                    is_grid(g0, w, h),
                    is_grid(self.grid@, w, h),
                    forall|cx: int, cy: int|
                        0 <= cy < h && 0 <= cx < w ==> #[trigger] self.grid@[cy]@[cx] == if cy < y
                            || (cy == y && cx < x) {
                            plain(g0[cy]@[cx])
                        } else {
                            g0[cy]@[cx]
                        },
                decreases w - x,
            {
                if self.grid[y][x] == PLAYER || self.grid[y][x] == GOAL {
                    self.grid[y][x] = PATH;
                }
                x = x + 1;
            }
            y = y + 1;
        }
        let ghost g1 = self.grid@;
        let (px, py) = (self.player.x, self.player.y);
        self.grid[py][px] = PLAYER;
        let (gx, gy) = (self.goal.x, self.goal.y);
        self.grid[gy][gx] = GOAL;
        proof {
            assert forall|cx: int, cy: int|
                0 <= cy < h && 0 <= cx < w implies #[trigger] self.grid@[cy]@[cx] == symbol(
                open_map(g0),
                self.player,
                self.goal,
                cx,
                cy,
            ) by {
                assert(g1[cy]@[cx] == plain(g0[cy]@[cx]));
            }
            assert forall|cy: int| 0 <= cy < h implies #[trigger] open_map(self.grid@)[cy]
                =~= open_map(g0)[cy] by {
                assert forall|cx: int| 0 <= cx < w implies open_map(self.grid@)[cy][cx]
                    == open_map(g0)[cy][cx] by {
                    assert(g1[cy]@[cx] == plain(g0[cy]@[cx]));
                    assert(self.grid@[cy]@[cx] == symbol(
                        open_map(g0),
                        self.player,
                        self.goal,
                        cx,
                        cy,
                    ));
                }
            }
            assert(open_map(self.grid@) =~= open_map(g0));
        }
    }
}

impl Maze {
    /// Moves the player one step in the direction that `direction` names
    /// (`w`/`up`, `s`/`down`, `a`/`left`, `d`/`right`, in any case). A step
    /// over the edge stays in place; a step into a wall, or a word that names
    /// no direction, changes nothing. Once the player stands on the goal the
    /// game is over: further moves change nothing and keep returning `true`.
    /// Returns whether the player now stands on the goal.
    pub fn move_player(&mut self, direction: &str) -> (r: bool)
        requires
            old(self).wf(),
        ensures
            final(self).wf(),
            final(self)@.inv(),
            final(self)@ == old(self)@.after_move(direction_of(direction@)),
            r == final(self)@.completed(),
            final(self)@.open == old(self)@.open,
            final(self)@.goal == old(self)@.goal,
            old(self)@.completed() ==> final(self)@ == old(self)@ && r,
            !old(self)@.completed() && direction_of(direction@) is None ==> final(self)@ == old(
                self,
            )@ && !r,
            !old(self)@.completed() && (direction_of(direction@) matches Some(d) && !open_cell(
                old(self)@.open,
                target(old(self)@.player, d, old(self)@.width, old(self)@.height).cell(),
            )) ==> final(self)@ == old(self)@ && !r,
            !old(self)@.completed() && (direction_of(direction@) matches Some(d) && target(
                old(self)@.player,
                d,
                old(self)@.width,
                old(self)@.height,
            ) == old(self)@.player) ==> final(self)@ == old(self)@ && !r,
            !r ==> final(self)@.player != final(self)@.goal,
    {
        let dir = parse_direction(direction);
        if self.player == self.goal {
            return true;
        }
        let d = match dir {
            Some(d) => d,
            None => {
                return false;
            },
        };
        let mut new_x = self.player.x;
        let mut new_y = self.player.y;
        match d {
            Direction::Up => {
                if new_y > 0 {
                    new_y = new_y - 1;
                }
            },
            Direction::Down => {
                if new_y < self.height - 1 {
                    new_y = new_y + 1;
                }
            },
            Direction::Left => {
                if new_x > 0 {
                    new_x = new_x - 1;
                }
            },
            Direction::Right => {
                if new_x < self.width - 1 {
                    new_x = new_x + 1;
                }
            },
        }
        let ghost t = target(self.player, d, self.width as nat, self.height as nat);
        assert(t == Position { x: new_x, y: new_y });
        if self.grid[new_y][new_x] != WALL {
            let ghost v0 = self@;
            assert(self.grid@[self.player.y as int]@[self.player.x as int] == self@.symbol_at(
                self.player.x as int,
                self.player.y as int,
            ));
            assert(self.grid@[self.goal.y as int]@[self.goal.x as int] == self@.symbol_at(
                self.goal.x as int,
                self.goal.y as int,
            ));
            self.player = Position::new(new_x, new_y);
            proof {
                assert forall|x: int, y: int|
                    0 <= y < self.height && 0 <= x < self.width implies {
                    let c = #[trigger] self.grid@[y]@[x];
                    c == WALL || c == PATH || c == PLAYER || c == GOAL
                } by {
                    assert(self.grid@[y]@[x] == v0.symbol_at(x, y));
                }
            }
            self.update_grid();
            proof {
                assert(self@.open == v0.open);
                assert(self@ == (MazeView { player: t, ..v0 }));
            }
            return self.player == self.goal;
        }
        false
    }

    /// The player's position, the goal's, and whether the player stands on
    /// the goal.
    pub fn get_state(&self) -> (r: MazeState)
        ensures
            r.player_position == self@.player,
            r.goal_position == self@.goal,
            r.is_completed == self@.completed(),
    {
        MazeState {
            player_position: self.player,
            goal_position: self.goal,
            is_completed: self.player == self.goal,
        }
    }

    /// The number of columns.
    pub fn get_width(&self) -> (r: usize)
        ensures
            r == self@.width,
    {
        self.width
    }

    /// The number of rows.
    pub fn get_height(&self) -> (r: usize)
        ensures
            r == self@.height,
    {
        self.height
    }
}

/// A `width` by `height` grid of walls.
fn walled_grid(width: usize, height: usize) -> (g: Vec<Vec<char>>)
    ensures
        is_grid(g@, width as int, height as int),
        forall|x: int, y: int| 0 <= y < height && 0 <= x < width ==> #[trigger] g@[y]@[x] == WALL,
{
    let mut g: Vec<Vec<char>> = Vec::new();
    while g.len() < height
        invariant
            g@.len() <= height,
            is_grid(g@, width as int, g@.len() as int),
            forall|x: int, y: int| 0 <= y < g@.len() && 0 <= x < width ==> #[trigger] g@[y]@[x] == WALL,
        decreases height - g@.len(),
    {
        let mut row: Vec<char> = Vec::new();
        while row.len() < width
            invariant
                row@.len() <= width,
                forall|x: int| 0 <= x < row@.len() ==> #[trigger] row@[x] == WALL,
            decreases width - row@.len(),
        {
            row.push(WALL);
        }
        g.push(row);
    }
    g
}

impl Maze {
    /// A new maze of the default size, 17 columns by 11 rows.
    pub fn new() -> (r: Option<Maze>)
        ensures
            r matches Some(m) && m.wf() && m@.as_built(17, 11) && connected(m@.open),
    {
        Self::with_size(17, 11)
    }

    /// A new maze of the requested size, dug with a freshly seeded random
    /// generator; see `with_rng`.
    pub fn with_size(width: usize, height: usize) -> (r: Option<Maze>)
        ensures
            r matches Some(m) && m.wf() && m@.as_built(width as nat, height as nat) && connected(
                m@.open,
            ),
    {
        let mut rng = fresh_rng();
        Self::with_rng(width, height, &mut rng)
    }

    /// A new maze dug with `rng`. The size is first made valid: at least 5
    /// and odd. The maze is dug from cell (1, 1), where the player starts; the
    /// goal is the walkable cell other than the start found first from
    /// (width - 2, height - 2), which digging always opens. Construction
    /// always succeeds, with every walkable cell reachable from every other.
    pub fn with_rng(width: usize, height: usize, rng: &mut StdRng) -> (r: Option<Maze>)
        ensures
            r matches Some(m) && m.wf() && m@.as_built(width as nat, height as nat) && connected(
                m@.open,
            ),
    {
        let width = if width < 5 {
            5
        } else {
            width
        };
        let height = if height < 5 {
            5
        } else {
            height
        };
        let width = if width % 2 == 0 {
            width + 1
        } else {
            width
        };
        let height = if height % 2 == 0 {
            height + 1
        } else {
            height
        };
        let mut grid = walled_grid(width, height);
        let ghost g0 = grid@;
        dig_maze(&mut grid, width, height, 1, 1, rng);
        let ghost t = open_map(grid@);
        proof {
            assert forall|x: int, y: int| 0 <= y < height && 0 <= x < width implies {
                let c = #[trigger] grid@[y]@[x];
                c == WALL || c == PATH
            } by {
                assert(g0[y]@[x] == WALL);
            }
            assert forall|p: (int, int)| open_cell(t, p) implies #[trigger] reachable(t, p, (1, 1)) by {
                assert(g0[p.1]@[p.0] == WALL);
                assert(!open_cell(open_map(g0), p));
            }
            lemma_connected_from_root(t, (1, 1));
            assert forall|p: (int, int)|
                open_cell(t, p) && #[trigger] same_parity(p, (1, 1)) implies settled(
                t,
                p,
                width as int,
                height as int,
            ) by {
                if p != (1int, 1int) {
                    assert(g0[p.1]@[p.0] == WALL);
                }
            }
            assert forall|x: int, y: int|
                0 < x < width - 1 && 0 < y < height - 1 && x % 2 == 1 && y % 2 == 1 implies #[trigger] open_cell(
                t,
                (x, y),
            ) by {
                lemma_odd_cells_open(t, width as int, height as int, x, y);
            }
            assert(open_cell(t, (width - 2, height - 2)));
            assert(is_path_except(grid@, width - 2, height - 2, Position { x: 1, y: 1 }));
        }
        let player = match find_path_position(&grid, width, height, 1, 1) {
            Some(p) => p,
            None => {
                return None;
            },
        };
        let goal = match find_path_position_from_bottom(
            &grid,
            width,
            height,
            width - 2,
            height - 2,
            &player,
        ) {
            Some(p) => p,
            None => {
                return None;
            },
        };
        let mut maze = Maze { width, height, grid, player, goal };
        maze.update_grid();
        proof {
            let v = maze@;
            assert(v.open == t);
        }
        Some(maze)
    }
}

impl Maze {
    /// The maze as text: a caption line and an empty line, then each row with
    /// `#` for a wall, a space for a path, `P` for the player and `G` for the
    /// goal, each row ended by a line feed.
    pub fn get_maze_as_string(&self) -> (r: String)
        requires
            self.wf(),
        ensures
            r@ == "Maze: (P=Player, G=Goal, #=Wall)\n\n"@ + self@.rows_text(self@.height as int),
    {
        proof {
            reveal_strlit("#");
            reveal_strlit(" ");
            reveal_strlit("P");
            reveal_strlit("G");
            reveal_strlit("\n");
            assert("#"@ =~= seq![WALL]);
            assert(" "@ =~= seq![PATH]);
            assert("P"@ =~= seq![PLAYER]);
            assert("G"@ =~= seq![GOAL]);
            assert("\n"@ =~= seq!['\n']);
        }
        let mut result = String::new();
        result.append("Maze: (P=Player, G=Goal, #=Wall)\n\n");
        let ghost head = result@;
        assert(head =~= "Maze: (P=Player, G=Goal, #=Wall)\n\n"@);
        let mut y: usize = 0;
        while y < self.height
            invariant
                self.wf(),
                "#"@ == seq![WALL] && " "@ == seq![PATH] && "P"@ == seq![PLAYER] && "G"@ == seq![GOAL],
                "\n"@ == seq!['\n'],
                y <= self.height,
                result@ == head + self@.rows_text(y as int),
            decreases self.height - y,
        {
            let mut x: usize = 0;
            while x < self.width
                invariant
                    self.wf(),
                    "#"@ == seq![WALL] && " "@ == seq![PATH] && "P"@ == seq![PLAYER] && "G"@ == seq![GOAL],
                    "\n"@ == seq!['\n'],
                    y < self.height,
                    x <= self.width,
                    result@ == head + self@.rows_text(y as int) + self@.row_text(y as int).subrange(
                        0,
                        x as int,
                    ),
                decreases self.width - x,
            {
                let c = self.grid[y][x];
                let ghost before = result@;
                if c == WALL {
                    result.append("#");
                } else if c == PATH {
                    result.append(" ");
                } else if c == PLAYER {
                    result.append("P");
                } else {
                    result.append("G");
                }
                proof {
                    let row = self@.row_text(y as int);
                    assert(c == self@.symbol_at(x as int, y as int));
                    assert(result@ =~= before + seq![c]);
                    assert(row.subrange(0, x + 1) =~= row.subrange(0, x as int).push(c));
                    assert(result@ =~= head + self@.rows_text(y as int) + row.subrange(0, x + 1));
                }
                x = x + 1;
            }
            result.append("\n");
            proof {
                let row = self@.row_text(y as int);
                assert(row.subrange(0, self.width as int) =~= row);
                assert(self@.rows_text(y + 1) == self@.rows_text(y as int) + row + seq!['\n']);
                assert(result@ =~= head + self@.rows_text(y + 1));
            }
            y = y + 1;
        }
        result
    }
}

} // verus!
