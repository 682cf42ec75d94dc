//! What makes a clue unfit for compilation.

use vstd::prelude::*;

use crate::geometrie::dans_grille;

verus! {

/// A clue: column, row and value.
pub type Contrainte = (u8, u8, i8);

/// Why a clue is refused.
#[derive(Clone, Copy, Debug, PartialEq, Eq, Structural)]
pub enum Erreur {
    /// The clue's cell lies outside the grid.
    HorsGrille,
    /// The clue's value is below -1 or not below the grid's side.
    ValeurInvalide,
}

/// Whether `p` is a value that a clue may carry in a grid of side `t`.
pub open spec fn valeur_admise(t: int, p: int) -> bool {
    -1 <= p < t
}

/// The reason for which the clue `c` is refused in a grid of side `t`, if any.
/// The cell is looked at before the value.
pub open spec fn erreur_contrainte(t: int, c: Contrainte) -> Option<Erreur> {
    if !dans_grille(t, (c.0, c.1)) {
        Some(Erreur::HorsGrille)
    } else if !valeur_admise(t, c.2 as int) {
        Some(Erreur::ValeurInvalide)
    } else {
        None
    }
}

/// The reason for which the first unfit clue of `cs` is refused, if any clue is unfit.
pub open spec fn premiere_erreur(t: int, cs: Seq<Contrainte>) -> Option<Erreur>
    decreases cs.len(),
{
    if cs.len() == 0 {
        None
    } else {
        match erreur_contrainte(t, cs[0]) {
            Some(e) => Some(e),
            None => premiere_erreur(t, cs.drop_first()),
        }
    }
}

/// No clue is refused where every clue is fit. Else the first unfit clue is refused:
/// the reason given is that of a clue before which every clue is fit.
pub proof fn lemma_premiere_erreur(t: int, cs: Seq<Contrainte>)
    ensures
        match premiere_erreur(t, cs) {
            None => forall|k: int| 0 <= k < cs.len() ==> erreur_contrainte(t, cs[k]) is None,
            Some(e) => exists|k: int|
                0 <= k < cs.len() && erreur_contrainte(t, cs[k]) == Some(e) && forall|m: int|
                    0 <= m < k ==> erreur_contrainte(t, cs[m]) is None,
        },
    decreases cs.len(),
{
    if cs.len() > 0 {
        let r = cs.drop_first();
        lemma_premiere_erreur(t, r);
        if erreur_contrainte(t, cs[0]) is None {
            match premiere_erreur(t, r) {
                None => {
                    assert forall|k: int| 0 <= k < cs.len() implies erreur_contrainte(
                        t,
                        cs[k],
                    ) is None by {
                        if k > 0 {
                            assert(cs[k] == r[k - 1]);
                        }
                    }
                },
                Some(e) => {
                    let k = choose|k: int|
                        0 <= k < r.len() && erreur_contrainte(t, r[k]) == Some(e) && forall|
                            m: int,
                        | 0 <= m < k ==> erreur_contrainte(t, r[m]) is None;
                    assert forall|m: int| 0 <= m < k + 1 implies erreur_contrainte(
                        t,
                        cs[m],
                    ) is None by {
                        if m > 0 {
                            assert(cs[m] == r[m - 1]);
                        }
                    }
                },
            }
        }
    }
}

} // verus!
