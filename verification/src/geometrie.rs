//! Geometry of a square grid: cells, bounds and 4-adjacency.

use vstd::prelude::*;

verus! {

/// A cell, as (column, row), both counted from 0.
pub type Case = (u8, u8);

/// Whether `c` lies inside the grid of side `t`.
pub open spec fn dans_grille(t: int, c: Case) -> bool {
    c.0 < t && c.1 < t
}

/// Whether each cell of `s` lies inside the grid of side `t`.
pub open spec fn toutes_dans_grille(t: int, s: Seq<Case>) -> bool {
    forall|k: int| 0 <= k < s.len() ==> dans_grille(t, #[trigger] s[k])
}

/// Whether `a` comes before `b` when a grid is read row by row.
pub open spec fn precede(a: Case, b: Case) -> bool {
    a.1 < b.1 || (a.1 == b.1 && a.0 < b.0)
}

/// Whether `a` and `b` share an edge.
pub open spec fn adjacentes(a: Case, b: Case) -> bool {
    ||| a.1 == b.1 && (a.0 == b.0 + 1 || b.0 == a.0 + 1)
    ||| a.0 == b.0 && (a.1 == b.1 + 1 || b.1 == a.1 + 1)
}

/// Whether `v` is a cell of the grid of side `t` that shares an edge with `c`.
pub open spec fn voisine(t: int, c: Case, v: Case) -> bool {
    dans_grille(t, v) && adjacentes(c, v)
}

/// The cell to the left of `c`, if the grid of side `t` has one.
pub open spec fn a_gauche(t: int, c: Case) -> Seq<Case> {
    if c.0 >= 1 && dans_grille(t, ((c.0 - 1) as u8, c.1)) {
        seq![((c.0 - 1) as u8, c.1)]
    } else {
        Seq::empty()
    }
}

/// The cell above `c`, if the grid of side `t` has one.
pub open spec fn en_haut(t: int, c: Case) -> Seq<Case> {
    if c.1 >= 1 && dans_grille(t, (c.0, (c.1 - 1) as u8)) {
        seq![(c.0, (c.1 - 1) as u8)]
    } else {
        Seq::empty()
    }
}

/// The cell to the right of `c`, if the grid of side `t` has one.
pub open spec fn a_droite(t: int, c: Case) -> Seq<Case> {
    if c.0 < 255 && dans_grille(t, ((c.0 + 1) as u8, c.1)) {
        seq![((c.0 + 1) as u8, c.1)]
    } else {
        Seq::empty()
    }
}

/// The cell below `c`, if the grid of side `t` has one.
pub open spec fn en_bas(t: int, c: Case) -> Seq<Case> {
    if c.1 < 255 && dans_grille(t, (c.0, (c.1 + 1) as u8)) {
        seq![(c.0, (c.1 + 1) as u8)]
    } else {
        Seq::empty()
    }
}

/// The cells of the grid that share an edge with `c`: left, above, right, below, in
/// that order.
pub open spec fn voisins_spec(t: int, c: Case) -> Seq<Case> {
    a_gauche(t, c) + en_haut(t, c) + a_droite(t, c) + en_bas(t, c)
}

/// The neighbours of the cell of place `a` of `s`, if it has one.
pub open spec fn voisins_de(t: int, s: Seq<Case>, a: int) -> Seq<Case> {
    if 0 <= a < s.len() {
        voisins_spec(t, s[a])
    } else {
        Seq::empty()
    }
}

/// `voisins_spec` lists exactly the neighbours of `c`, each once. There are four of
/// them at most, and two at least for a cell of a grid of more than one cell.
pub proof fn lemma_voisins(t: int, c: Case)
    ensures
        forall|v: Case| voisins_spec(t, c).contains(v) <==> voisine(t, c, v),
        voisins_spec(t, c).no_duplicates(),
        voisins_spec(t, c).len() <= 4,
        t >= 2 && dans_grille(t, c) ==> voisins_spec(t, c).len() >= 2,
{
    let g = a_gauche(t, c);
    let h = en_haut(t, c);
    let d = a_droite(t, c);
    let b = en_bas(t, c);
    let s = voisins_spec(t, c);
    assert forall|v: Case| voisine(t, c, v) implies s.contains(v) by {
        if g.len() == 1 && v == g[0] {
            assert(s[0] == v);
        } else if h.len() == 1 && v == h[0] {
            assert(s[g.len() as int] == v);
        } else if d.len() == 1 && v == d[0] {
            assert(s[(g.len() + h.len()) as int] == v);
        } else {
            assert(b.len() == 1 && v == b[0]);
            assert(s[(g.len() + h.len() + d.len()) as int] == v);
        }
    }
}

} // verus!
