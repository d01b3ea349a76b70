//! Keyboard-adjacency distance on a three-row QWERTY grid.

use vstd::prelude::*;
use crate::strcase::fold_char;
use crate::strcase::to_lower_char;

verus! {

/// Position of a lowercase letter on the QWERTY grid, as (column, row):
/// row 0 is `qwertyuiop`, row 1 is `asdfghjkl`, row 2 is `zxcvbnm`.
/// Characters not on the grid have no position.
pub open spec fn key_pos(c: char) -> Option<(usize, usize)> {
    if c == 'q' {
        Some((0, 0))
    } else if c == 'w' {
        Some((1, 0))
    } else if c == 'e' {
        Some((2, 0))
    } else if c == 'r' {
        Some((3, 0))
    } else if c == 't' {
        Some((4, 0))
    } else if c == 'y' {
        Some((5, 0))
    } else if c == 'u' {
        Some((6, 0))
    } else if c == 'i' {
        Some((7, 0))
    } else if c == 'o' {
        Some((8, 0))
    } else if c == 'p' {
        Some((9, 0))
    } else if c == 'a' {
        Some((0, 1))
    } else if c == 's' {
        Some((1, 1))
    } else if c == 'd' {
        Some((2, 1))
    } else if c == 'f' {
        Some((3, 1))
    } else if c == 'g' {
        Some((4, 1))
    } else if c == 'h' {
        Some((5, 1))
    } else if c == 'j' {
        Some((6, 1))
    } else if c == 'k' {
        Some((7, 1))
    } else if c == 'l' {
        Some((8, 1))
    } else if c == 'z' {
        Some((0, 2))
    } else if c == 'x' {
        Some((1, 2))
    } else if c == 'c' {
        Some((2, 2))
    } else if c == 'v' {
        Some((3, 2))
    } else if c == 'b' {
        Some((4, 2))
    } else if c == 'n' {
        Some((5, 2))
    } else if c == 'm' {
        Some((6, 2))
    } else {
        None
    }
}

/// Manhattan distance between the grid positions of two characters,
/// located case-insensitively; `None` when either character is not on
/// the grid.
pub open spec fn key_distance_spec(a: char, b: char) -> Option<usize> {
    match (key_pos(fold_char(a)), key_pos(fold_char(b))) {
        (Some(p), Some(q)) => {
            let dx = if p.0 >= q.0 {
                p.0 - q.0
            } else {
                q.0 - p.0
            };
            let dy = if p.1 >= q.1 {
                p.1 - q.1
            } else {
                q.1 - p.1
            };
            Some((dx + dy) as usize)
        },
        _ => None,
    }
}

/// Locate a character on the QWERTY grid.
fn find_key(c: char) -> (r: Option<(usize, usize)>)
    ensures
        r == key_pos(c),
{
    if c == 'q' {
        Some((0, 0))
    } else if c == 'w' {
        Some((1, 0))
    } else if c == 'e' {
        Some((2, 0))
    } else if c == 'r' {
        Some((3, 0))
    } else if c == 't' {
        Some((4, 0))
    } else if c == 'y' {
        Some((5, 0))
    } else if c == 'u' {
        Some((6, 0))
    } else if c == 'i' {
        Some((7, 0))
    } else if c == 'o' {
        Some((8, 0))
    } else if c == 'p' {
        Some((9, 0))
    } else if c == 'a' {
        Some((0, 1))
    } else if c == 's' {
        Some((1, 1))
    } else if c == 'd' {
        Some((2, 1))
    } else if c == 'f' {
        Some((3, 1))
    } else if c == 'g' {
        Some((4, 1))
    } else if c == 'h' {
        Some((5, 1))
    } else if c == 'j' {
        Some((6, 1))
    } else if c == 'k' {
        Some((7, 1))
    } else if c == 'l' {
        Some((8, 1))
    } else if c == 'z' {
        Some((0, 2))
    } else if c == 'x' {
        Some((1, 2))
    } else if c == 'c' {
        Some((2, 2))
    } else if c == 'v' {
        Some((3, 2))
    } else if c == 'b' {
        Some((4, 2))
    } else if c == 'n' {
        Some((5, 2))
    } else if c == 'm' {
        Some((6, 2))
    } else {
        None
    }
}

/// The keyboard-adjacency distance between two characters: the
/// Manhattan distance between their positions on the QWERTY grid,
/// located case-insensitively.
pub fn key_distance(a: char, b: char) -> (r: Option<usize>)
    ensures
        r == key_distance_spec(a, b),
{
    let pa = find_key(to_lower_char(a));
    let pb = find_key(to_lower_char(b));
    match (pa, pb) {
        (Some(p), Some(q)) => {
            let dx = if p.0 >= q.0 {
                p.0 - q.0
            } else {
                q.0 - p.0
            };
            let dy = if p.1 >= q.1 {
                p.1 - q.1
            } else {
                q.1 - p.1
            };
            Some(dx + dy)
        },
        _ => None,
    }
}

} // verus!
