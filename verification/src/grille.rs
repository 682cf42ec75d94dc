//! The grid and its clues.

use vstd::prelude::*;

use crate::erreur::{erreur_contrainte, Contrainte, Erreur};
use crate::geometrie::{voisins_spec, Case};
use crate::litteraux::{
    lemma_litt_tient, lemma_toute_taille_convient, litt_case, litt_selecteur,
    nb_variables_spec, Litt,
};

verus! {

/// What a grid is to the contracts: its side and its clues, in the order in which
/// they were added.
pub struct Modele {
    pub taille: int,
    pub contraintes: Seq<Contrainte>,
}

/// A Kurotto grid: a side and a list of clues.
pub struct Grille {
    /// The side of the grid.
    pub(crate) taille: u8,
    /// The clues `(i, j, p)`: column, row and value.
    pub(crate) contraintes: Vec<Contrainte>,
}

impl View for Grille {
    type V = Modele;

    open(crate) spec fn view(&self) -> Modele {
        Modele { taille: self.taille as int, contraintes: self.contraintes@ }
    }
}

impl Grille {
    /// A grid of side `taille` without any clue. No side is refused: a `Litt` holds
    /// each of the variables of the grid, whatever its side.
    pub fn new(taille: u8) -> (g: Grille)
        ensures
            g@.taille == taille,
            g@.contraintes == Seq::<Contrainte>::empty(),
            nb_variables_spec(g@.taille) <= i32::MAX,
    {
        proof {
            lemma_toute_taille_convient(taille as int);
        }
        Grille { taille, contraintes: Vec::new() }
    }

    /// Adds the clue `(i, j, p)` after those already there. Nothing is refused here:
    /// a clue is judged when the grid is compiled.
    pub fn add_contrainte(&mut self, i: u8, j: u8, p: i8)
        ensures
            final(self)@.taille == old(self)@.taille,
            final(self)@.contraintes == old(self)@.contraintes.push((i, j, p)),
    {
        self.contraintes.push((i, j, p));
    }

    /// The literal that says that the cell `(i, j)` is marked.
    pub fn to_litt(&self, i: u8, j: u8) -> (l: Litt)
        ensures
            l == litt_case(self@.taille, (i, j)),
    {
        proof {
            lemma_litt_tient(self.taille as int, (i, j), 0);
        }
        (self.taille as i32) * (j as i32) + (i as i32) + 1
    }

    /// The literal that says that the clue of value `p` holds at the cell `(i, j)`,
    /// or the reason for which such a clue is refused.
    pub fn contrainte_to_litt(&self, i: u8, j: u8, p: i8) -> (r: Result<Litt, Erreur>)
        ensures
            match erreur_contrainte(self@.taille, (i, j, p)) {
                Some(e) => r == Err::<Litt, Erreur>(e),
                None => r == Ok::<Litt, Erreur>(
                    litt_selecteur(self@.taille, (i, j), p as int) as i32,
                ),
            },
    {
        if i >= self.taille || j >= self.taille {
            return Err(Erreur::HorsGrille);
        }
        if p < -1 || p as i32 >= self.taille as i32 {
            return Err(Erreur::ValeurInvalide);
        }
        let t: i32 = self.taille as i32;
        proof {
            lemma_litt_tient(t as int, (i, j), p as int);
            assert(t * t <= 255 * 255) by (nonlinear_arith)
                requires
                    0 <= t <= 255,
            ;
        }
        Ok(self.to_litt(i, j) + t * t * (p as i32 + 2))
    }

    /// The number of variables of the grid: the cells, then the clues of each value
    /// from -1 on at each cell.
    pub fn nb_variables(&self) -> (n: u32)
        ensures
            n == nb_variables_spec(self@.taille),
    {
        let t: u32 = self.taille as u32;
        proof {
            lemma_toute_taille_convient(t as int);
            assert(t * t <= 255 * 255) by (nonlinear_arith)
                requires
                    0 <= t <= 255,
            ;
        }
        t * t * (t + 2)
    }

    /// The cells of the grid that share an edge with `(i, j)`: left, above, right,
    /// below, in that order.
    pub fn voisins(&self, i: u8, j: u8) -> (v: Vec<Case>)
        ensures
            v@ == voisins_spec(self@.taille, (i, j)),
    {
        let t: u8 = self.taille;
        let mut v: Vec<Case> = Vec::new();
        if i >= 1 && i - 1 < t && j < t {
            v.push((i - 1, j));
        }
        if j >= 1 && i < t && j - 1 < t {
            v.push((i, j - 1));
        }
        if i < 255 && i + 1 < t && j < t {
            v.push((i + 1, j));
        }
        if j < 255 && i < t && j + 1 < t {
            v.push((i, j + 1));
        }
        v
    }
}

} // verus!
