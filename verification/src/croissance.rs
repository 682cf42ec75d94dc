//! Growing a set of cells: one cell at a time, each new cell in the grid and sharing an
//! edge with a cell already there.

use vstd::prelude::*;

use crate::geometrie::{voisine, Case};

verus! {

/// Whether `s2` is `s` with one more cell, which is in the grid of side `t` and shares
/// an edge with a cell of `s`.
pub open spec fn agrandit(t: int, s: Set<Case>, s2: Set<Case>) -> bool {
    exists|c: Case, v: Case|
        s.contains(c) && #[trigger] voisine(t, c, v) && !s.contains(v) && s2 == s.insert(v)
}

/// The sets that are a set of `e` with one more cell.
pub open spec fn agrandies(t: int, e: Set<Set<Case>>) -> Set<Set<Case>> {
    Set::new(|s: Set<Case>| exists|q: Set<Case>| e.contains(q) && agrandit(t, q, s))
}

/// The sets grown in `n` steps from those of `e`.
pub open spec fn croissance(t: int, e: Set<Set<Case>>, n: nat) -> Set<Set<Case>>
    decreases n,
{
    if n == 0 {
        e
    } else {
        agrandies(t, croissance(t, e, (n - 1) as nat))
    }
}

} // verus!
