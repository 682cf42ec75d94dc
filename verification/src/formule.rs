//! The formula of a grid: one group of clauses for each clue, in the order of the clues.
//!
//! A clause is the disjunction of its literals, and an empty clause is false. A group
//! is the conjunction of its clauses, and the formula that of its groups.

use vstd::prelude::*;

use crate::bordure::{bordure_spec, lemma_bordure_ecrite};
use crate::erreur::{
    erreur_contrainte, lemma_premiere_erreur, premiere_erreur, Contrainte, Erreur,
};
use crate::formes::{lemma_formes_dans_grille, lemma_liste_des_formes, liste_des_formes};
use crate::geometrie::{dans_grille, lemma_voisins, toutes_dans_grille, voisins_spec, Case};
use crate::grille::Grille;
use crate::litteraux::{
    clause_admise, lemma_litt_case_admis, lemma_litt_selecteur_admis, lemma_litt_tient,
    litt_admis, litt_case, litt_selecteur, nb_variables_spec, Litt,
};
use crate::ordre::{copie, suite_triee, vues};

verus! {

/// A clause: the disjunction of its literals.
pub type Clause = Vec<Litt>;

/// The clauses written for one clue.
pub type Groupe = Vec<Clause>;

/// The groups of all the clues.
pub type Formule = Vec<Groupe>;

/// What a formula holds: its groups, each taken as the sequence of its clauses.
pub open spec fn vue_formule(f: Seq<Groupe>) -> Seq<Seq<Seq<Litt>>> {
    f.map_values(|g: Groupe| vues(g@))
}

/// The literals "this cell is marked" of the cells of `s`.
pub open spec fn positifs(t: int, s: Seq<Case>) -> Seq<Litt> {
    s.map_values(|c: Case| litt_case(t, c) as Litt)
}

/// The literals "this cell is not marked" of the cells of `s`.
pub open spec fn negatifs(t: int, s: Seq<Case>) -> Seq<Litt> {
    s.map_values(|c: Case| (-litt_case(t, c)) as Litt)
}

/// The test "is not the cell `ancre`".
pub open spec fn autre_que(ancre: Case) -> spec_fn(Case) -> bool {
    |c: Case| c != ancre
}

/// The clause of the shape `forme` around `ancre`: the cells of the shape other than
/// `ancre`, in the order of `forme`, then `ancre` denied, then the cells of the border of
/// the shape denied, in canonical order.
pub open spec fn clause_forme(t: int, ancre: Case, forme: Seq<Case>) -> Seq<Litt> {
    positifs(t, forme.filter(autre_que(ancre))) + seq![(-litt_case(t, ancre)) as Litt] + negatifs(
        t,
        suite_triee(bordure_spec(t, forme.to_set())),
    )
}

/// The clauses of the shapes of `l` around `ancre`.
pub open spec fn clauses_formes(t: int, ancre: Case, l: Seq<Seq<Case>>) -> Seq<Seq<Litt>> {
    l.map_values(|f: Seq<Case>| clause_forme(t, ancre, f))
}

/// The clause that denies the clue `c`.
pub open spec fn clause_selecteur(t: int, c: Contrainte) -> Seq<Litt> {
    seq![(-litt_selecteur(t, (c.0, c.1), c.2 as int)) as Litt]
}

/// The group of the clue `c` in the grid of side `t`.
///
/// For the value -1: the cell denied, then the clue denied. For the value 0: the
/// disjunction of the cell's neighbours, then the clue denied. For a value `p` above 0:
/// the clue denied, then the clause of each shape of `p + 1` cells around the cell.
pub open spec fn groupe_spec(t: int, c: Contrainte) -> Seq<Seq<Litt>> {
    let ancre = (c.0, c.1);
    if c.2 == -1 {
        seq![seq![(-litt_case(t, ancre)) as Litt], clause_selecteur(t, c)]
    } else if c.2 == 0 {
        seq![positifs(t, voisins_spec(t, ancre)), clause_selecteur(t, c)]
    } else {
        seq![clause_selecteur(t, c)] + clauses_formes(
            t,
            ancre,
            liste_des_formes(t, ancre, c.2 as int),
        )
    }
}

/// The formula of the clues `cs` in the grid of side `t`.
pub open spec fn formule_spec(t: int, cs: Seq<Contrainte>) -> Seq<Seq<Seq<Litt>>> {
    cs.map_values(|c: Contrainte| groupe_spec(t, c))
}

/// Whether the literal `l` is true where the variables that `m` holds are the true ones.
pub open spec fn litt_vrai(m: Set<int>, l: Litt) -> bool {
    if l > 0 {
        m.contains(l as int)
    } else {
        !m.contains(-(l as int))
    }
}

/// Whether one of the literals of `c` is true. An empty clause is false.
pub open spec fn clause_vraie(m: Set<int>, c: Seq<Litt>) -> bool {
    exists|k: int| 0 <= k < c.len() && litt_vrai(m, #[trigger] c[k])
}

/// Whether each clause of `g` is true.
pub open spec fn groupe_vrai(m: Set<int>, g: Seq<Seq<Litt>>) -> bool {
    forall|k: int| 0 <= k < g.len() ==> clause_vraie(m, #[trigger] g[k])
}

/// Whether each group of `f` is true.
pub open spec fn formule_vraie(m: Set<int>, f: Seq<Seq<Seq<Litt>>>) -> bool {
    forall|k: int| 0 <= k < f.len() ==> groupe_vrai(m, #[trigger] f[k])
}

/// A group that holds an empty clause is false, whatever the variables: so is the
/// group of a clue of value 0 at a cell without neighbours.
pub proof fn lemma_clause_vide(m: Set<int>, g: Seq<Seq<Litt>>, k: int)
    requires
        0 <= k < g.len(),
        g[k].len() == 0,
    ensures
        !groupe_vrai(m, g),
{
}

/// The groups do not change what a formula says: it is true where each of its clauses
/// is true.
pub proof fn lemma_formule_aplatie(m: Set<int>, f: Seq<Seq<Seq<Litt>>>)
    ensures
        formule_vraie(m, f) <==> groupe_vrai(m, aplatie(f)),
    decreases f.len(),
{
    if f.len() > 0 {
        let r = f.drop_first();
        lemma_formule_aplatie(m, r);
        if groupe_vrai(m, aplatie(f)) {
            assert forall|k: int| 0 <= k < f[0].len() implies clause_vraie(
                m,
                #[trigger] f[0][k],
            ) by {
                assert(aplatie(f)[k] == f[0][k]);
            }
            assert forall|k: int| 0 <= k < aplatie(r).len() implies clause_vraie(
                m,
                #[trigger] aplatie(r)[k],
            ) by {
                assert(aplatie(f)[k + f[0].len()] == aplatie(r)[k]);
            }
            assert forall|k: int| 0 <= k < f.len() implies groupe_vrai(m, #[trigger] f[k]) by {
                if k > 0 {
                    assert(f[k] == r[k - 1]);
                }
            }
        }
    }
}

/// Whether each literal of the group `g` is one of the variables 1 to `v`.
pub open spec fn groupe_admis(v: nat, g: Seq<Seq<Litt>>) -> bool {
    forall|k: int| 0 <= k < g.len() ==> clause_admise(v, #[trigger] g[k])
}

/// Whether each literal of the formula `f` is one of the variables 1 to `v`.
pub open spec fn formule_admise(v: nat, f: Seq<Seq<Seq<Litt>>>) -> bool {
    forall|k: int| 0 <= k < f.len() ==> groupe_admis(v, #[trigger] f[k])
}

/// The literals of cells of the grid are among the variables of the grid.
pub proof fn lemma_positifs_admis(t: int, s: Seq<Case>)
    requires
        0 <= t <= 255,
        toutes_dans_grille(t, s),
    ensures
        clause_admise(nb_variables_spec(t), positifs(t, s)),
        clause_admise(nb_variables_spec(t), negatifs(t, s)),
{
    assert forall|k: int| 0 <= k < s.len() implies litt_admis(
        nb_variables_spec(t),
        #[trigger] positifs(t, s)[k],
    ) by {
        lemma_litt_case_admis(t, s[k]);
    }
    assert forall|k: int| 0 <= k < s.len() implies litt_admis(
        nb_variables_spec(t),
        #[trigger] negatifs(t, s)[k],
    ) by {
        lemma_litt_case_admis(t, s[k]);
    }
}

/// The clause of a shape made of cells of the grid, around a cell of the grid, has its
/// literals among the variables of the grid.
pub proof fn lemma_clause_forme_admise(t: int, ancre: Case, forme: Seq<Case>)
    requires
        0 <= t <= 255,
        dans_grille(t, ancre),
        toutes_dans_grille(t, forme),
    ensures
        clause_admise(nb_variables_spec(t), clause_forme(t, ancre, forme)),
{
    let nb = nb_variables_spec(t);
    let autres = forme.filter(autre_que(ancre));
    assert forall|k: int| 0 <= k < autres.len() implies dans_grille(t, #[trigger] autres[k]) by {
        assert(autres.contains(autres[k]));
        forme.lemma_filter_contains_rev(autre_que(ancre), autres[k]);
    }
    lemma_positifs_admis(t, autres);
    lemma_litt_case_admis(t, ancre);
    lemma_bordure_ecrite(t, forme);
    let bord = suite_triee(bordure_spec(t, forme.to_set()));
    lemma_positifs_admis(t, bord);
    let debut = positifs(t, autres);
    let fin = negatifs(t, bord);
    let clause = clause_forme(t, ancre, forme);
    assert forall|k: int| 0 <= k < clause.len() implies litt_admis(nb, #[trigger] clause[k]) by {
        if k < debut.len() {
            assert(clause[k] == debut[k]);
        } else if k > debut.len() {
            assert(clause[k] == fin[k - debut.len() - 1]);
        }
    }
}

/// The group of a clue that is not refused has its literals among the variables of the
/// grid: none is zero, and none is beyond the number of variables.
pub proof fn lemma_groupe_admis(t: int, c: Contrainte)
    requires
        0 <= t <= 255,
        erreur_contrainte(t, c) is None,
    ensures
        groupe_admis(nb_variables_spec(t), groupe_spec(t, c)),
{
    let nb = nb_variables_spec(t);
    let ancre = (c.0, c.1);
    let g = groupe_spec(t, c);
    lemma_litt_case_admis(t, ancre);
    lemma_litt_selecteur_admis(t, ancre, c.2 as int);
    assert(clause_admise(nb, clause_selecteur(t, c)));
    if c.2 == 0 {
        let autour = voisins_spec(t, ancre);
        lemma_voisins(t, ancre);
        assert forall|k: int| 0 <= k < autour.len() implies dans_grille(
            t,
            #[trigger] autour[k],
        ) by {
            assert(autour.contains(autour[k]));
        }
        lemma_positifs_admis(t, autour);
    } else if c.2 > 0 {
        let l = liste_des_formes(t, ancre, c.2 as int);
        lemma_liste_des_formes(t, ancre, c.2 as int);
        lemma_formes_dans_grille(t, ancre, c.2 as int, l);
        assert forall|k: int| 0 <= k < g.len() implies clause_admise(nb, #[trigger] g[k]) by {
            if k > 0 {
                assert(g[k] == clause_forme(t, ancre, l[k - 1]));
                lemma_clause_forme_admise(t, ancre, l[k - 1]);
            }
        }
    }
}

/// The formula of clues none of which is refused has its literals among the variables
/// of the grid: none is zero, and none is beyond the number of variables.
pub proof fn lemma_formule_admise(t: int, cs: Seq<Contrainte>)
    requires
        0 <= t <= 255,
        premiere_erreur(t, cs) is None,
    ensures
        formule_admise(nb_variables_spec(t), formule_spec(t, cs)),
{
    lemma_premiere_erreur(t, cs);
    assert forall|k: int| 0 <= k < cs.len() implies groupe_admis(
        nb_variables_spec(t),
        #[trigger] formule_spec(t, cs)[k],
    ) by {
        lemma_groupe_admis(t, cs[k]);
    }
}

/// The clauses of a formula, one after the other, without the groups.
pub open spec fn aplatie(f: Seq<Seq<Seq<Litt>>>) -> Seq<Seq<Litt>> {
    f.flatten()
}

/// The clauses of a formula whose literals are among the variables have their literals
/// among the variables.
pub proof fn lemma_aplatie_admise(v: nat, f: Seq<Seq<Seq<Litt>>>)
    requires
        formule_admise(v, f),
    ensures
        groupe_admis(v, aplatie(f)),
    decreases f.len(),
{
    if f.len() > 0 {
        let r = f.drop_first();
        lemma_aplatie_admise(v, r);
    }
}

/// The clauses of the formula `formule`, one after the other, without the groups.
pub fn aplatir(formule: &Formule) -> (clauses: Vec<Clause>)
    ensures
        vues(clauses@) == aplatie(vue_formule(formule@)),
{
    let ghost f = vue_formule(formule@);
    let mut clauses: Vec<Clause> = Vec::new();
    let mut g: usize = 0;
    while g < formule.len()
        invariant
            g <= formule.len(),
            f == vue_formule(formule@),
            vues(clauses@) == aplatie(f.take(g as int)),
        decreases formule.len() - g,
    {
        let groupe = &formule[g];
        let mut k: usize = 0;
        while k < groupe.len()
            invariant
                g < formule.len(),
                k <= groupe.len(),
                f == vue_formule(formule@),
                groupe@ == formule@[g as int]@,
                vues(clauses@) == aplatie(f.take(g as int)) + f[g as int].take(k as int),
            decreases groupe.len() - k,
        {
            let ghost avant = vues(clauses@);
            let c = copie(&groupe[k]);
            let ghost vc = c@;
            clauses.push(c);
            proof {
                assert(vues(clauses@) =~= avant.push(vc));
            }
            k += 1;
        }
        proof {
            assert(f.take(g + 1) =~= f.take(g as int).push(f[g as int]));
            f.take(g as int).lemma_flatten_push(f[g as int]);
        }
        g += 1;
    }
    assert(f.take(formule.len() as int) =~= f);
    clauses
}

/// What compiling the clues `cs` in the grid of side `t` gives: the formula, or the
/// reason for which the first unfit clue is refused.
pub open spec fn compilation(t: int, cs: Seq<Contrainte>) -> Result<Seq<Seq<Seq<Litt>>>, Erreur> {
    match premiere_erreur(t, cs) {
        Some(e) => Err(e),
        None => Ok(formule_spec(t, cs)),
    }
}

/// What a run of the compiler gave, the formula taken by what it holds.
pub open spec fn vue_resultat(r: Result<Formule, Erreur>) -> Result<
    Seq<Seq<Seq<Litt>>>,
    Erreur,
> {
    match r {
        Ok(f) => Ok(vue_formule(f@)),
        Err(e) => Err(e),
    }
}

/// Compiling is a function of the grid's side and clues alone: two runs on grids with
/// the same side and the same clues give the same formula, group for group and clause
/// for clause, or refuse for the same reason.
pub proof fn lemma_compilation_deterministe(
    a: Grille,
    b: Grille,
    ra: Result<Formule, Erreur>,
    rb: Result<Formule, Erreur>,
)
    requires
        a@ == b@,
        vue_resultat(ra) == compilation(a@.taille, a@.contraintes),
        vue_resultat(rb) == compilation(b@.taille, b@.contraintes),
    ensures
        vue_resultat(ra) == vue_resultat(rb),
{
}

/// The formula has one group for each clue, in the order of the clues: its group of
/// rank `k` is that of the clue of rank `k`.
pub proof fn lemma_un_groupe_par_contrainte(t: int, cs: Seq<Contrainte>)
    ensures
        formule_spec(t, cs).len() == cs.len(),
        forall|k: int| 0 <= k < cs.len() ==> formule_spec(t, cs)[k] == groupe_spec(t, cs[k]),
{
}

/// Adding a clue adds its group after the others and changes none of them.
pub proof fn lemma_contrainte_ajoutee(t: int, cs: Seq<Contrainte>, c: Contrainte)
    ensures
        formule_spec(t, cs.push(c)) == formule_spec(t, cs).push(groupe_spec(t, c)),
{
}

impl Grille {
    /// The literals "this cell is marked" of the cells of `cases`.
    fn litts_positifs(&self, cases: &Vec<Case>) -> (clause: Clause)
        ensures
            clause@ == positifs(self@.taille, cases@),
    {
        let mut clause: Clause = Vec::new();
        let mut k: usize = 0;
        while k < cases.len()
            invariant
                k <= cases.len(),
                clause@ == positifs(self@.taille, cases@.take(k as int)),
            decreases cases.len() - k,
        {
            clause.push(self.to_litt(cases[k].0, cases[k].1));
            k += 1;
        }
        clause
    }

    /// The clause of the shape `forme` around the cell `(i, j)`.
    pub fn clause_de_forme(&self, i: u8, j: u8, forme: &Vec<Case>) -> (clause: Clause)
        ensures
            clause@ == clause_forme(self@.taille, (i, j), forme@),
    {
        let ghost t = self@.taille;
        let ghost garde = autre_que((i, j));
        let mut clause: Clause = Vec::new();
        let mut k: usize = 0;
        while k < forme.len()
            invariant
                k <= forme.len(),
                t == self@.taille,
                garde == autre_que((i, j)),
                clause@ == positifs(t, forme@.take(k as int).filter(garde)),
            decreases forme.len() - k,
        {
            let c: Case = forme[k];
            proof {
                assert(forme@.take(k + 1) =~= forme@.take(k as int).push(c));
                forme@.take(k as int).lemma_filter_push(c, garde);
            }
            if c.0 != i || c.1 != j {
                clause.push(self.to_litt(c.0, c.1));
            }
            k += 1;
        }
        assert(forme@.take(forme.len() as int) =~= forme@);
        let ghost debut = clause@;
        clause.push(-self.to_litt(i, j));
        let bord = self.bordure(forme);
        let mut b: usize = 0;
        while b < bord.len()
            invariant
                b <= bord.len(),
                t == self@.taille,
                clause@ == debut + seq![(-litt_case(t, (i, j))) as Litt] + negatifs(
                    t,
                    bord@.take(b as int),
                ),
            decreases bord.len() - b,
        {
            clause.push(-self.to_litt(bord[b].0, bord[b].1));
            b += 1;
        }
        clause
    }

    /// The group of the clue `(i, j, p)`, or the reason for which the clue is refused.
    /// No literal of the group is zero or beyond the number of variables of the grid.
    pub fn groupe(&self, i: u8, j: u8, p: i8) -> (r: Result<Groupe, Erreur>)
        ensures
            match erreur_contrainte(self@.taille, (i, j, p)) {
                Some(e) => r == Err::<Groupe, Erreur>(e),
                None => r matches Ok(g) && vues(g@) == groupe_spec(self@.taille, (i, j, p)),
            },
            r matches Ok(g) ==> groupe_admis(nb_variables_spec(self@.taille), vues(g@)),
    {
        let ghost t = self@.taille;
        let selecteur: Litt = match self.contrainte_to_litt(i, j, p) {
            Ok(l) => l,
            Err(e) => {
                return Err(e);
            },
        };
        proof {
            lemma_litt_tient(t, (i, j), p as int);
            lemma_groupe_admis(t, (i, j, p));
        }
        let mut nie: Clause = Vec::new();
        nie.push(-selecteur);
        let mut groupe: Groupe = Vec::new();
        if p == -1 {
            let mut vide: Clause = Vec::new();
            vide.push(-self.to_litt(i, j));
            groupe.push(vide);
            groupe.push(nie);
        } else if p == 0 {
            let autour = self.voisins(i, j);
            let clause = self.litts_positifs(&autour);
            groupe.push(clause);
            groupe.push(nie);
        } else {
            groupe.push(nie);
            let formes = self.formes(i, j, p);
            let ghost l = vues(formes@);
            let mut k: usize = 0;
            while k < formes.len()
                invariant
                    k <= formes.len(),
                    t == self@.taille,
                    l == vues(formes@),
                    vues(groupe@) == seq![clause_selecteur(t, (i, j, p))] + clauses_formes(
                        t,
                        (i, j),
                        l.take(k as int),
                    ),
                decreases formes.len() - k,
            {
                let ghost avant = vues(groupe@);
                let clause = self.clause_de_forme(i, j, &formes[k]);
                let ghost c = clause@;
                groupe.push(clause);
                proof {
                    assert(vues(groupe@) =~= avant.push(c));
                }
                k += 1;
            }
            assert(l.take(formes.len() as int) =~= l);
        }
        assert(vues(groupe@) =~= groupe_spec(t, (i, j, p)));
        Ok(groupe)
    }

    /// The formula of the grid: the group of each clue, in the order of the clues. No
    /// formula is given where a clue is unfit: the reason for which the first unfit clue
    /// is refused comes back instead. No literal of the formula is zero or beyond the
    /// number of variables of the grid.
    pub fn to_formule(&self) -> (r: Result<Formule, Erreur>)
        ensures
            vue_resultat(r) == compilation(self@.taille, self@.contraintes),
            r matches Ok(f) ==> f@.len() == self@.contraintes.len() && formule_admise(
                nb_variables_spec(self@.taille),
                vue_formule(f@),
            ),
    {
        let ghost t = self@.taille;
        let ghost cs = self@.contraintes;
        let mut formule: Formule = Vec::new();
        let mut k: usize = 0;
        assert(cs.skip(0) =~= cs);
        while k < self.contraintes.len()
            invariant
                k <= self.contraintes.len(),
                t == self@.taille,
                cs == self@.contraintes,
                formule.len() == k,
                premiere_erreur(t, cs) == premiere_erreur(t, cs.skip(k as int)),
                vue_formule(formule@) == formule_spec(t, cs.take(k as int)),
            decreases self.contraintes.len() - k,
        {
            let c: Contrainte = self.contraintes[k];
            assert(cs.skip(k as int).drop_first() =~= cs.skip(k + 1));
            match self.groupe(c.0, c.1, c.2) {
                Ok(g) => {
                    let ghost avant = vue_formule(formule@);
                    let ghost vg = vues(g@);
                    formule.push(g);
                    proof {
                        assert(vue_formule(formule@) =~= avant.push(vg));
                    }
                },
                Err(e) => {
                    return Err(e);
                },
            }
            k += 1;
        }
        proof {
            lemma_formule_admise(t, cs);
        }
        Ok(formule)
    }
}

} // verus!
