//! The four directions of movement and the words that name them.
use vstd::prelude::*;
use vstd::string::StrSliceExecFns;

verus! {

/// A direction of one step on the grid.
#[derive(Clone, Copy, Debug, PartialEq, Eq, Structural)]
pub enum Direction {
    /// Towards row 0.
    Up,
    /// Towards the last row.
    Down,
    /// Towards column 0.
    Left,
    /// Towards the last column.
    Right,
}

/// The code of `c`, with the ASCII capitals `A`..`Z` taken to lower case.
pub open spec fn fold_case(c: char) -> u32 {
    if 65 <= c as u32 <= 90 {
        (c as u32 + 32) as u32
    } else {
        c as u32
    }
}

/// Whether `s` spells `w`, ignoring the case of ASCII letters.
pub open spec fn same_word(s: Seq<char>, w: Seq<char>) -> bool {
    s.len() == w.len() && forall|i: int| 0 <= i < s.len() ==> #[trigger] fold_case(s[i]) == fold_case(w[i])
}

/// The direction that a word names: `w` or `up`, `s` or `down`, `a` or
/// `left`, `d` or `right`, in any case; `None` for any other word.
pub open spec fn direction_of(s: Seq<char>) -> Option<Direction> {
    if same_word(s, seq!['w']) || same_word(s, seq!['u', 'p']) {
        Some(Direction::Up)
    } else if same_word(s, seq!['s']) || same_word(s, seq!['d', 'o', 'w', 'n']) {
        Some(Direction::Down)
    } else if same_word(s, seq!['a']) || same_word(s, seq!['l', 'e', 'f', 't']) {
        Some(Direction::Left)
    } else if same_word(s, seq!['d']) || same_word(s, seq!['r', 'i', 'g', 'h', 't']) {
        Some(Direction::Right)
    } else {
        None
    }
}

fn fold_char(c: char) -> (r: u32)
    ensures
        r == fold_case(c),
{
    let v = c as u32;
    if v >= 65 && v <= 90 {
        v + 32
    } else {
        v
    }
}

/// Whether `s` spells `w`, ignoring the case of ASCII letters.
fn spells(s: &str, w: &str) -> (r: bool)
    ensures
        r == same_word(s@, w@),
{
    let n = s.unicode_len();
    if n != w.unicode_len() {
        return false;
    }
    let mut i: usize = 0;
    while i < n
        invariant
            n == s@.len(),
            n == w@.len(),
            i <= n,
            forall|j: int| 0 <= j < i ==> #[trigger] fold_case(s@[j]) == fold_case(w@[j]),
        decreases n - i,
    {
        if fold_char(s.get_char(i)) != fold_char(w.get_char(i)) {
            return false;
        }
        i = i + 1;
    }
    true
}

/// Reads a direction from a word, as `direction_of` says.
pub fn parse_direction(s: &str) -> (r: Option<Direction>)
    ensures
        r == direction_of(s@),
{
    proof {
        reveal_strlit("w");
        reveal_strlit("up");
        reveal_strlit("s");
        reveal_strlit("down");
        reveal_strlit("a");
        reveal_strlit("left");
        reveal_strlit("d");
        reveal_strlit("right");
        assert("w"@ =~= seq!['w']);
        assert("up"@ =~= seq!['u', 'p']);
        assert("s"@ =~= seq!['s']);
        assert("down"@ =~= seq!['d', 'o', 'w', 'n']);
        assert("a"@ =~= seq!['a']);
        assert("left"@ =~= seq!['l', 'e', 'f', 't']);
        assert("d"@ =~= seq!['d']);
        assert("right"@ =~= seq!['r', 'i', 'g', 'h', 't']);
    }
    if spells(s, "w") || spells(s, "up") {
        Some(Direction::Up)
    } else if spells(s, "s") || spells(s, "down") {
        Some(Direction::Down)
    } else if spells(s, "a") || spells(s, "left") {
        Some(Direction::Left)
    } else if spells(s, "d") || spells(s, "right") {
        Some(Direction::Right)
    } else {
        None
    }
}

} // verus!
