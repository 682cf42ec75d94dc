//! Listing the shapes that a clue allows: the connected sets of cells of the grid, of a
//! given size, that hold a given cell.
//!
//! The shapes of `n + 1` cells are found by growing the anchor alone in `n` rounds.
//! Each round adds to each shape, in every way, one cell of the grid that shares an edge
//! with one of its cells, and keeps each set that comes out once.

use vstd::prelude::*;

use crate::connexite::{est_forme, lemma_formes_par_croissance, lemma_sans_forme, les_formes};
use crate::croissance::{agrandies, agrandit, croissance};
use crate::geometrie::{
    dans_grille, lemma_voisins, toutes_dans_grille, voisine, voisins_de, voisins_spec, Case,
};
use crate::grille::Grille;
use crate::ordre::{
    ajouter_case, ajouter_forme, contient, copie, lemma_inserer_case, lemma_inserer_forme,
    lemma_liste_unique, lemma_triee_unique, liste_triee, strictement_triee, vues,
};

verus! {

/// Whether `s` is the set of cells of one of the sequences of `l`.
pub open spec fn figure(l: Seq<Seq<Case>>, s: Set<Case>) -> bool {
    exists|k: int| 0 <= k < l.len() && #[trigger] l[k].to_set() == s
}

/// The sets of cells written in `l`.
pub open spec fn ensembles(l: Seq<Seq<Case>>) -> Set<Set<Case>> {
    Set::new(|s: Set<Case>| figure(l, s))
}

/// Whether each sequence of `l` is a canonical writing.
pub open spec fn toutes_triees(l: Seq<Seq<Case>>) -> bool {
    forall|k: int| 0 <= k < l.len() ==> strictement_triee(#[trigger] l[k])
}

/// Whether `l` is a canonical listing: sorted, of canonical writings.
pub open spec fn canonique(l: Seq<Seq<Case>>) -> bool {
    liste_triee(l) && toutes_triees(l)
}

/// Whether `l` is the canonical listing of the shapes of `p + 1` cells around `ancre`.
pub open spec fn est_liste_des_formes(t: int, ancre: Case, p: int, l: Seq<Seq<Case>>) -> bool {
    canonique(l) && ensembles(l) == les_formes(t, ancre, p)
}

/// The canonical listing of the shapes of `p + 1` cells around `ancre` in the grid of
/// side `t`.
pub open spec fn liste_des_formes(t: int, ancre: Case, p: int) -> Seq<Seq<Case>> {
    choose|l: Seq<Seq<Case>>| est_liste_des_formes(t, ancre, p, l)
}

/// Two canonical listings of the same sets are the same listing.
pub proof fn lemma_listes_egales(a: Seq<Seq<Case>>, b: Seq<Seq<Case>>)
    requires
        canonique(a),
        canonique(b),
        ensembles(a) == ensembles(b),
    ensures
        a == b,
{
    assert forall|x: Seq<Case>| a.to_set().contains(x) <==> b.to_set().contains(x) by {
        assert(a.to_set().contains(x) == a.contains(x));
        assert(b.to_set().contains(x) == b.contains(x));
        assert(ensembles(a).contains(x.to_set()) == figure(a, x.to_set()));
        assert(ensembles(b).contains(x.to_set()) == figure(b, x.to_set()));
        if a.contains(x) {
            let k = choose|k: int| 0 <= k < a.len() && a[k] == x;
            assert(a[k].to_set() == x.to_set());
            assert(figure(a, x.to_set()));
            let m = choose|m: int| 0 <= m < b.len() && #[trigger] b[m].to_set() == x.to_set();
            lemma_triee_unique(b[m], a[k]);
        }
        if b.contains(x) {
            let k = choose|k: int| 0 <= k < b.len() && b[k] == x;
            assert(b[k].to_set() == x.to_set());
            assert(figure(b, x.to_set()));
            let m = choose|m: int| 0 <= m < a.len() && #[trigger] a[m].to_set() == x.to_set();
            lemma_triee_unique(a[m], b[k]);
        }
    }
    assert(a.to_set() =~= b.to_set());
    lemma_liste_unique(a, b);
}

/// The shapes of a listing of shapes are made of cells of the grid.
pub proof fn lemma_formes_dans_grille(t: int, ancre: Case, p: int, l: Seq<Seq<Case>>)
    requires
        est_liste_des_formes(t, ancre, p, l),
    ensures
        forall|k: int| 0 <= k < l.len() ==> toutes_dans_grille(t, #[trigger] l[k]),
{
    assert forall|k: int| 0 <= k < l.len() implies toutes_dans_grille(t, #[trigger] l[k]) by {
        let s = l[k].to_set();
        assert(figure(l, s));
        assert(ensembles(l).contains(s));
        assert(est_forme(t, ancre, p, s));
        assert forall|m: int| 0 <= m < l[k].len() implies dans_grille(t, #[trigger] l[k][m]) by {
            assert(l[k].contains(l[k][m]));
            assert(s.contains(l[k][m]));
        }
    }
}

/// The shapes around a cell have one canonical listing only: `liste_des_formes`.
pub proof fn lemma_liste_des_formes_unique(t: int, ancre: Case, p: int, l: Seq<Seq<Case>>)
    requires
        est_liste_des_formes(t, ancre, p, l),
    ensures
        l == liste_des_formes(t, ancre, p),
{
    lemma_listes_egales(l, liste_des_formes(t, ancre, p));
}

/// Whether `s` is grown by one cell from one of the sequences of `l` before place `k`.
spec fn issue(t: int, l: Seq<Seq<Case>>, k: int, s: Set<Case>) -> bool {
    exists|m: int| 0 <= m < k && agrandit(t, #[trigger] l[m].to_set(), s)
}

/// Whether `s` is grown from `forme` by a cell that is not in `forme` and is a
/// neighbour of one of its cells before place `a`, or one of the cells of `vs` before
/// place `b`.
spec fn crue(t: int, forme: Seq<Case>, a: int, vs: Seq<Case>, b: int, s: Set<Case>) -> bool {
    exists|v: Case|
        !forme.contains(v) && #[trigger] forme.to_set().insert(v) == s && ((exists|k: int|
            0 <= k < a && voisine(t, forme[k], v)) || (exists|k: int| 0 <= k < b && vs[k] == v))
}

/// What a sorted listing holds once a sequence has been added to it.
proof fn lemma_figure_ajout(avant: Seq<Seq<Case>>, apres: Seq<Seq<Case>>, f: Seq<Case>)
    requires
        apres.to_set() == avant.to_set().insert(f),
        toutes_triees(avant),
        strictement_triee(f),
    ensures
        toutes_triees(apres),
        forall|s: Set<Case>| #[trigger] figure(apres, s) <==> figure(avant, s) || s == f.to_set(),
{
    assert forall|k: int| 0 <= k < apres.len() implies strictement_triee(
        #[trigger] apres[k],
    ) by {
        assert(apres.contains(apres[k]));
        assert(apres.to_set().contains(apres[k]));
        assert(avant.to_set().insert(f).contains(apres[k]));
        if apres[k] != f {
            assert(avant.to_set().contains(apres[k]));
            assert(avant.contains(apres[k]));
        }
    }
    assert forall|s: Set<Case>| #[trigger] figure(apres, s) <==> figure(avant, s) || s
        == f.to_set() by {
        if figure(apres, s) {
            let k = choose|k: int| 0 <= k < apres.len() && #[trigger] apres[k].to_set() == s;
            assert(apres.contains(apres[k]));
            assert(apres.to_set().contains(apres[k]));
            if apres[k] != f {
                assert(avant.to_set().contains(apres[k]));
                assert(avant.contains(apres[k]));
                let m = choose|m: int| 0 <= m < avant.len() && avant[m] == apres[k];
                assert(avant[m].to_set() == s);
            }
        }
        if figure(avant, s) {
            let k = choose|k: int| 0 <= k < avant.len() && #[trigger] avant[k].to_set() == s;
            assert(avant.contains(avant[k]));
            assert(avant.to_set().contains(avant[k]));
            assert(apres.to_set().contains(avant[k]));
            assert(apres.contains(avant[k]));
            let m = choose|m: int| 0 <= m < apres.len() && apres[m] == avant[k];
            assert(apres[m].to_set() == s);
        }
        if s == f.to_set() {
            assert(apres.to_set().contains(f));
            assert(apres.contains(f));
            let m = choose|m: int| 0 <= m < apres.len() && apres[m] == f;
            assert(apres[m].to_set() == s);
        }
    }
}

/// There is a canonical listing of the sets grown by one cell from a sequence of `l`
/// before place `k`, or from that of place `k` by a neighbour of one of its cells
/// before place `a`, or by one of the neighbours before place `b` of its cell of place
/// `a`.
proof fn lemma_liste_agrandie(t: int, l: Seq<Seq<Case>>, k: int, a: int, b: int) -> (r: Seq<
    Seq<Case>,
>)
    requires
        toutes_triees(l),
        0 <= k <= l.len(),
        k == l.len() ==> a == 0 && b == 0,
        k < l.len() ==> 0 <= a <= l[k].len(),
        0 <= b <= voisins_de(t, l[k], a).len(),
    ensures
        canonique(r),
        forall|s: Set<Case>| #[trigger]
            figure(r, s) <==> issue(t, l, k, s) || (k < l.len() && crue(
                t,
                l[k],
                a,
                voisins_de(t, l[k], a),
                b,
                s,
            )),
    decreases k, a, b,
{
    if b > 0 {
        let forme = l[k];
        let vs = voisins_de(t, forme, a);
        let v = vs[b - 1];
        let avant = lemma_liste_agrandie(t, l, k, a, b - 1);
        if forme.contains(v) {
            avant
        } else {
            let candidat = lemma_inserer_case(forme, v);
            let r = lemma_inserer_forme(avant, candidat);
            lemma_figure_ajout(avant, r, candidat);
            r
        }
    } else if a > 0 {
        let forme = l[k];
        let vs = voisins_de(t, forme, a - 1);
        let r = lemma_liste_agrandie(t, l, k, a - 1, vs.len() as int);
        lemma_voisins(t, forme[a - 1]);
        r
    } else if k > 0 {
        let forme = l[k - 1];
        lemma_liste_agrandie(t, l, k - 1, forme.len() as int, 0)
    } else {
        Seq::empty()
    }
}

/// There is a canonical listing of the sets grown in `n` steps from `ancre` alone.
proof fn lemma_liste_croissance(t: int, ancre: Case, n: nat) -> (l: Seq<Seq<Case>>)
    ensures
        canonique(l),
        ensembles(l) == croissance(t, set![set![ancre]], n),
    decreases n,
{
    if n == 0 {
        let l = seq![seq![ancre]];
        assert(l[0].to_set() =~= set![ancre]) by {
            assert(l[0][0] == ancre);
        }
        l
    } else {
        let l = lemma_liste_croissance(t, ancre, (n - 1) as nat);
        let r = lemma_liste_agrandie(t, l, l.len() as int, 0, 0);
        let but = agrandies(t, ensembles(l));
        assert forall|s: Set<Case>| ensembles(r).contains(s) <==> but.contains(s) by {
            if issue(t, l, l.len() as int, s) {
                let m = choose|m: int|
                    0 <= m < l.len() && agrandit(t, #[trigger] l[m].to_set(), s);
                assert(figure(l, l[m].to_set()));
                assert(ensembles(l).contains(l[m].to_set()));
            }
            if but.contains(s) {
                let q = choose|q: Set<Case>| ensembles(l).contains(q) && agrandit(t, q, s);
                assert(figure(l, q));
                let m = choose|m: int| 0 <= m < l.len() && #[trigger] l[m].to_set() == q;
                assert(agrandit(t, l[m].to_set(), s));
            }
        }
        r
    }
}

/// The shapes around a cell have a canonical listing, whatever the cell, the side of the
/// grid and the size asked for: `liste_des_formes` is that listing.
pub proof fn lemma_liste_des_formes(t: int, ancre: Case, p: int)
    ensures
        est_liste_des_formes(t, ancre, p, liste_des_formes(t, ancre, p)),
{
    if p >= 0 && dans_grille(t, ancre) {
        let l = lemma_liste_croissance(t, ancre, p as nat);
        lemma_formes_par_croissance(t, ancre, p);
        assert(est_liste_des_formes(t, ancre, p, l));
    } else {
        let l = Seq::<Seq<Case>>::empty();
        lemma_sans_forme(t, ancre, p);
        assert(ensembles(l) =~= Set::<Set<Case>>::empty());
        assert(est_liste_des_formes(t, ancre, p, l));
    }
}

impl Grille {
    /// Adds to `retour` every shape that is `forme` with one more cell.
    fn etendre(&self, forme: &Vec<Case>, retour: &mut Vec<Vec<Case>>)
        requires
            strictement_triee(forme@),
            liste_triee(vues(old(retour)@)),
            toutes_triees(vues(old(retour)@)),
        ensures
            liste_triee(vues(final(retour)@)),
            toutes_triees(vues(final(retour)@)),
            forall|s: Set<Case>| #[trigger]
                figure(vues(final(retour)@), s) <==> figure(vues(old(retour)@), s) || agrandit(
                    self@.taille,
                    forme@.to_set(),
                    s,
                ),
    {
        let ghost t = self@.taille;
        let ghost vide = Seq::<Case>::empty();
        let ghost depart = vues(retour@);
        let mut a: usize = 0;
        while a < forme.len()
            invariant
                a <= forme.len(),
                t == self@.taille,
                vide.len() == 0,
                depart == vues(old(retour)@),
                strictement_triee(forme@),
                liste_triee(vues(retour@)),
                toutes_triees(vues(retour@)),
                forall|s: Set<Case>| #[trigger]
                    figure(vues(retour@), s) <==> figure(depart, s) || crue(
                        t,
                        forme@,
                        a as int,
                        vide,
                        0,
                        s,
                    ),
            decreases forme.len() - a,
        {
            let vs = self.voisins(forme[a].0, forme[a].1);
            let mut b: usize = 0;
            while b < vs.len()
                invariant
                    a < forme.len(),
                    b <= vs.len(),
                    vs@ == voisins_spec(t, forme@[a as int]),
                    strictement_triee(forme@),
                    liste_triee(vues(retour@)),
                    toutes_triees(vues(retour@)),
                    forall|s: Set<Case>| #[trigger]
                        figure(vues(retour@), s) <==> figure(depart, s) || crue(
                            t,
                            forme@,
                            a as int,
                            vs@,
                            b as int,
                            s,
                        ),
                decreases vs.len() - b,
            {
                let v: Case = vs[b];
                let ghost avant = vues(retour@);
                if !contient(forme, v) {
                    let mut candidat = copie(forme);
                    ajouter_case(&mut candidat, v);
                    let ghost c = candidat@;
                    ajouter_forme(retour, candidat);
                    proof {
                        lemma_figure_ajout(avant, vues(retour@), c);
                    }
                }
                b += 1;
            }
            proof {
                lemma_voisins(t, forme@[a as int]);
            }
            a += 1;
        }
    }

    /// Every shape that is one of the shapes of `centre` with one more cell.
    fn etape(&self, centre: &Vec<Vec<Case>>) -> (retour: Vec<Vec<Case>>)
        requires
            toutes_triees(vues(centre@)),
        ensures
            canonique(vues(retour@)),
            ensembles(vues(retour@)) == agrandies(self@.taille, ensembles(vues(centre@))),
    {
        let ghost t = self@.taille;
        let ghost l = vues(centre@);
        let mut retour: Vec<Vec<Case>> = Vec::new();
        let mut k: usize = 0;
        while k < centre.len()
            invariant
                k <= centre.len(),
                t == self@.taille,
                l == vues(centre@),
                toutes_triees(l),
                liste_triee(vues(retour@)),
                toutes_triees(vues(retour@)),
                forall|s: Set<Case>| #[trigger]
                    figure(vues(retour@), s) <==> issue(t, l, k as int, s),
            decreases centre.len() - k,
        {
            assert(strictement_triee(l[k as int]));
            self.etendre(&centre[k], &mut retour);
            k += 1;
        }
        proof {
            let fin = ensembles(vues(retour@));
            let but = agrandies(t, ensembles(l));
            assert forall|s: Set<Case>| fin.contains(s) <==> but.contains(s) by {
                assert(figure(vues(retour@), s) <==> issue(t, l, l.len() as int, s));
                if issue(t, l, l.len() as int, s) {
                    let m = choose|m: int|
                        0 <= m < l.len() && agrandit(t, #[trigger] l[m].to_set(), s);
                    assert(figure(l, l[m].to_set()));
                    assert(ensembles(l).contains(l[m].to_set()));
                }
                if but.contains(s) {
                    let q = choose|q: Set<Case>| ensembles(l).contains(q) && agrandit(t, q, s);
                    assert(figure(l, q));
                    let m = choose|m: int| 0 <= m < l.len() && #[trigger] l[m].to_set() == q;
                    assert(agrandit(t, l[m].to_set(), s));
                }
            }
        }
        retour
    }

    /// The shapes grown in `p` steps from those of `centre`, in canonical listing.
    pub fn formes_rec(&self, centre: Vec<Vec<Case>>, p: i8) -> (formes: Vec<Vec<Case>>)
        requires
            p >= 0,
            canonique(vues(centre@)),
        ensures
            canonique(vues(formes@)),
            ensembles(vues(formes@)) == croissance(
                self@.taille,
                ensembles(vues(centre@)),
                p as nat,
            ),
    {
        let ghost t = self@.taille;
        let ghost depart = ensembles(vues(centre@));
        let mut courant: Vec<Vec<Case>> = centre;
        let mut r: i8 = 0;
        while r < p
            invariant
                0 <= r <= p,
                t == self@.taille,
                canonique(vues(courant@)),
                ensembles(vues(courant@)) == croissance(t, depart, r as nat),
            decreases p - r,
        {
            courant = self.etape(&courant);
            r += 1;
        }
        courant
    }

    /// The shapes of `p + 1` cells around the cell `(i, j)`, in canonical listing: the
    /// connected sets of `p + 1` cells of the grid that hold `(i, j)`. There is none where
    /// `p` is negative, where `(i, j)` is outside the grid, or where the grid has no room
    /// for one.
    pub fn formes(&self, i: u8, j: u8, p: i8) -> (formes: Vec<Vec<Case>>)
        ensures
            est_liste_des_formes(self@.taille, (i, j), p as int, vues(formes@)),
            vues(formes@) == liste_des_formes(self@.taille, (i, j), p as int),
    {
        let mut centre: Vec<Vec<Case>> = Vec::new();
        if p >= 0 && i < self.taille && j < self.taille {
            let mut seule: Vec<Case> = Vec::new();
            seule.push((i, j));
            centre.push(seule);
            proof {
                let l = vues(centre@);
                assert(l[0].to_set() =~= set![(i, j)]) by {
                    assert(l[0][0] == (i, j));
                }
                assert(ensembles(l) =~= set![set![(i, j)]]);
                lemma_formes_par_croissance(self@.taille, (i, j), p as int);
            }
            centre = self.formes_rec(centre, p);
        } else {
            proof {
                lemma_sans_forme(self@.taille, (i, j), p as int);
                assert(ensembles(vues(centre@)) =~= Set::<Set<Case>>::empty());
            }
        }
        proof {
            lemma_liste_des_formes_unique(self@.taille, (i, j), p as int, vues(centre@));
        }
        centre
    }
}

} // verus!
