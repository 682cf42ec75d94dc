//! The border of a shape: the cells of the grid that touch the shape without being
//! part of it.

use vstd::prelude::*;

use crate::geometrie::{
    dans_grille, lemma_voisins, toutes_dans_grille, voisine, voisins_de, voisins_spec, Case,
};
use crate::grille::Grille;
use crate::ordre::{
    ajouter_case, contient, lemma_inserer_case, lemma_suite_triee, strictement_triee,
    suite_triee,
};

verus! {

/// The cells of the grid of side `t` that share an edge with a cell of `s` and are not
/// in `s`.
pub open spec fn bordure_spec(t: int, s: Set<Case>) -> Set<Case> {
    Set::new(|v: Case| !s.contains(v) && exists|c: Case| s.contains(c) && voisine(t, c, v))
}

/// A set that holds every cell of the grid has no border.
pub proof fn lemma_bordure_grille_entiere(t: int, s: Set<Case>)
    requires
        forall|c: Case| dans_grille(t, c) ==> s.contains(c),
    ensures
        bordure_spec(t, s) == Set::<Case>::empty(),
{
}

/// The border of a set lies in the grid, apart from the set.
pub proof fn lemma_bordure_dans_grille(t: int, s: Set<Case>, v: Case)
    requires
        bordure_spec(t, s).contains(v),
    ensures
        dans_grille(t, v),
        !s.contains(v),
{
}

/// The part of the border of `centre` that is found once the cells before place `a`
/// have been gone through, and of the neighbours `vs` those before place `b`.
spec fn bord_partiel(t: int, centre: Seq<Case>, a: int, vs: Seq<Case>, b: int) -> Set<Case> {
    Set::new(
        |v: Case|
            !centre.contains(v) && ((exists|k: int| 0 <= k < a && voisine(t, centre[k], v)) || (
            exists|k: int| 0 <= k < b && vs[k] == v)),
    )
}

/// There is a canonical writing of the part of the border of `centre` that is found
/// once the cells before place `a` have been gone through, and of the neighbours of the
/// cell of place `a` those before place `b`.
proof fn lemma_bord_ecrit(t: int, centre: Seq<Case>, a: int, b: int) -> (r: Seq<Case>)
    requires
        0 <= a <= centre.len(),
        0 <= b <= voisins_de(t, centre, a).len(),
    ensures
        strictement_triee(r),
        r.to_set() == bord_partiel(t, centre, a, voisins_de(t, centre, a), b),
    decreases a, b,
{
    if b > 0 {
        let vs = voisins_de(t, centre, a);
        let v = vs[b - 1];
        let avant = lemma_bord_ecrit(t, centre, a, b - 1);
        let r = if centre.contains(v) {
            avant
        } else {
            lemma_inserer_case(avant, v)
        };
        assert(r.to_set() =~= bord_partiel(t, centre, a, vs, b)) by {
            assert(vs[b - 1] == v);
        }
        r
    } else if a > 0 {
        let vs = voisins_de(t, centre, a - 1);
        let r = lemma_bord_ecrit(t, centre, a - 1, vs.len() as int);
        lemma_voisins(t, centre[a - 1]);
        r
    } else {
        Seq::empty()
    }
}

/// The part of the border that is found once every cell has been gone through is the
/// border.
proof fn lemma_bord_entier(t: int, centre: Seq<Case>, vs: Seq<Case>)
    ensures
        bord_partiel(t, centre, centre.len() as int, vs, 0) == bordure_spec(t, centre.to_set()),
{
    let fin = bord_partiel(t, centre, centre.len() as int, vs, 0);
    let but = bordure_spec(t, centre.to_set());
    assert forall|x: Case| fin.contains(x) <==> but.contains(x) by {
        assert(centre.to_set().contains(x) == centre.contains(x));
        if fin.contains(x) {
            let k = choose|k: int| 0 <= k < centre.len() && voisine(t, centre[k], x);
            assert(centre.contains(centre[k]));
            assert(centre.to_set().contains(centre[k]));
        }
        if but.contains(x) {
            let c = choose|c: Case| centre.to_set().contains(c) && voisine(t, c, x);
            assert(centre.contains(c));
            let k = choose|k: int| 0 <= k < centre.len() && centre[k] == c;
            assert(voisine(t, centre[k], x));
        }
    }
}

/// The border of the cells of a sequence has a canonical writing, `suite_triee` of the
/// border, which is made of cells of the grid.
pub proof fn lemma_bordure_ecrite(t: int, centre: Seq<Case>)
    ensures
        strictement_triee(suite_triee(bordure_spec(t, centre.to_set()))),
        suite_triee(bordure_spec(t, centre.to_set())).to_set() == bordure_spec(
            t,
            centre.to_set(),
        ),
        toutes_dans_grille(t, suite_triee(bordure_spec(t, centre.to_set()))),
{
    let ecrit = lemma_bord_ecrit(t, centre, centre.len() as int, 0);
    lemma_bord_entier(t, centre, voisins_de(t, centre, centre.len() as int));
    assert(ecrit.to_set() == bordure_spec(t, centre.to_set()));
    let bord = suite_triee(bordure_spec(t, centre.to_set()));
    assert forall|k: int| 0 <= k < bord.len() implies dans_grille(t, #[trigger] bord[k]) by {
        assert(bord.contains(bord[k]));
        assert(bord.to_set().contains(bord[k]));
    }
}

impl Grille {
    /// The border of the shape whose cells are those of `centre`, in canonical writing.
    pub fn bordure(&self, centre: &Vec<Case>) -> (bord: Vec<Case>)
        ensures
            strictement_triee(bord@),
            bord@.to_set() == bordure_spec(self@.taille, centre@.to_set()),
            bord@ == suite_triee(bordure_spec(self@.taille, centre@.to_set())),
    {
        let ghost t = self@.taille;
        let ghost vide = Seq::<Case>::empty();
        let mut retour: Vec<Case> = Vec::new();
        let mut a: usize = 0;
        while a < centre.len()
            invariant
                a <= centre.len(),
                t == self@.taille,
                vide.len() == 0,
                strictement_triee(retour@),
                retour@.to_set() == bord_partiel(t, centre@, a as int, vide, 0),
            decreases centre.len() - a,
        {
            let vs = self.voisins(centre[a].0, centre[a].1);
            let mut b: usize = 0;
            while b < vs.len()
                invariant
                    a < centre.len(),
                    b <= vs.len(),
                    vs@ == voisins_spec(t, centre@[a as int]),
                    strictement_triee(retour@),
                    retour@.to_set() == bord_partiel(t, centre@, a as int, vs@, b as int),
                decreases vs.len() - b,
            {
                let v: Case = vs[b];
                if !contient(centre, v) {
                    ajouter_case(&mut retour, v);
                }
                b += 1;
            }
            proof {
                lemma_voisins(t, centre@[a as int]);
            }
            a += 1;
        }
        proof {
            lemma_bord_entier(t, centre@, vide);
            lemma_suite_triee(retour@);
        }
        retour
    }
}

} // verus!
