//! The text of a formula, for a solver to read, and how it is read back.
//!
//! The text begins with the line `p cnf V C`, where `V` is the number of variables and
//! `C` the number of clauses. Then each clause has its line: its literals, each
//! followed by a space, and `0` to end it. Numbers are written in base ten without a
//! sign for a positive number, without a leading zero, and lines end with a line feed.
//! The reader accepts this writing and no other.

use vstd::prelude::*;

use crate::erreur::Erreur;
use crate::formule::{
    aplatie, aplatir, compilation, lemma_aplatie_admise, vue_formule, Clause,
};
use crate::grille::Grille;
use crate::litteraux::{clause_admise, nb_variables_spec, Litt};
use crate::ordre::vues;

verus! {

/// Whether `b` is one of the characters `0` to `9`.
pub open spec fn est_chiffre(b: u8) -> bool {
    48 <= b <= 57
}

/// The writing of `n` in base ten.
pub open spec fn chiffres(n: nat) -> Seq<u8>
    decreases n,
{
    if n < 10 {
        seq![(48 + n) as u8]
    } else {
        chiffres(n / 10).push((48 + n % 10) as u8)
    }
}

/// The number that the digits of `s` write in base ten.
pub open spec fn valeur(s: Seq<u8>) -> nat
    decreases s.len(),
{
    if s.len() == 0 {
        0
    } else {
        10 * valeur(s.drop_last()) + (s.last() - 48) as nat
    }
}

/// How many digits `s` begins with.
pub open spec fn nb_chiffres(s: Seq<u8>) -> nat
    decreases s.len(),
{
    if s.len() > 0 && est_chiffre(s[0]) {
        1 + nb_chiffres(s.drop_first())
    } else {
        0
    }
}

/// The number written at the start of `s`, with what follows it. There is none where
/// `s` does not begin with a digit, where the number has a leading zero, and where it
/// is above `u64::MAX`.
pub open spec fn lit_nombre(s: Seq<u8>) -> Option<(nat, Seq<u8>)> {
    let k = nb_chiffres(s) as int;
    if k == 0 || (k > 1 && s[0] == 48) || valeur(s.take(k)) > u64::MAX {
        None
    } else {
        Some((valeur(s.take(k)), s.skip(k)))
    }
}

/// The digits that `s` begins with are digits, and within `s`.
pub proof fn lemma_nb_chiffres(s: Seq<u8>)
    ensures
        nb_chiffres(s) <= s.len(),
        forall|k: int| 0 <= k < nb_chiffres(s) ==> est_chiffre(#[trigger] s[k]),
        nb_chiffres(s) < s.len() ==> !est_chiffre(s[nb_chiffres(s) as int]),
    decreases s.len(),
{
    if s.len() > 0 && est_chiffre(s[0]) {
        let r = s.drop_first();
        lemma_nb_chiffres(r);
        assert forall|k: int| 0 <= k < nb_chiffres(s) implies est_chiffre(#[trigger] s[k]) by {
            if k > 0 {
                assert(s[k] == r[k - 1]);
            }
        }
    }
}

/// A text that begins with `k` digits, followed by no digit, begins with `k` digits
/// exactly.
pub proof fn lemma_nb_chiffres_est(s: Seq<u8>, k: int)
    requires
        0 <= k <= s.len(),
        forall|m: int| 0 <= m < k ==> est_chiffre(#[trigger] s[m]),
        k < s.len() ==> !est_chiffre(s[k]),
    ensures
        nb_chiffres(s) == k,
    decreases k,
{
    if k > 0 {
        let r = s.drop_first();
        lemma_nb_chiffres_est(r, k - 1);
    }
}

/// The writing of a number is made of digits, has no leading zero, and writes that
/// number.
pub proof fn lemma_chiffres(n: nat)
    ensures
        chiffres(n).len() >= 1,
        forall|k: int| 0 <= k < chiffres(n).len() ==> est_chiffre(#[trigger] chiffres(n)[k]),
        chiffres(n).len() > 1 ==> chiffres(n)[0] != 48,
        n > 0 ==> chiffres(n)[0] != 48,
        valeur(chiffres(n)) == n,
    decreases n,
{
    if n < 10 {
        assert(valeur(chiffres(n).drop_last()) == 0);
    } else {
        let d = chiffres(n / 10);
        lemma_chiffres(n / 10);
        assert(chiffres(n).drop_last() =~= d);
    }
}

/// The number written before some text that does not begin with a digit is read back
/// with that text left over.
pub proof fn lemma_lit_nombre_ecrit(n: nat, suite: Seq<u8>)
    requires
        n <= u64::MAX,
        suite.len() > 0 ==> !est_chiffre(suite[0]),
    ensures
        lit_nombre(chiffres(n) + suite) == Some((n, suite)),
{
    let d = chiffres(n);
    let s = d + suite;
    lemma_chiffres(n);
    lemma_nb_chiffres_est(s, d.len() as int);
    assert(s.take(d.len() as int) =~= d);
}

/// A number written with more digits is no smaller.
pub proof fn lemma_valeur_croissante(s: Seq<u8>, k: int, m: int)
    requires
        0 <= k <= m <= s.len(),
        forall|i: int| 0 <= i < m ==> est_chiffre(#[trigger] s[i]),
    ensures
        valeur(s.take(k)) <= valeur(s.take(m)),
    decreases m - k,
{
    if k < m {
        lemma_valeur_croissante(s, k, m - 1);
        assert(s.take(m).drop_last() =~= s.take(m - 1));
    }
}

/// Writes `n` in base ten at the end of `sortie`.
pub fn ecrire_nombre(sortie: &mut Vec<u8>, n: u64)
    ensures
        final(sortie)@ == old(sortie)@ + chiffres(n as nat),
    decreases n,
{
    if n >= 10 {
        ecrire_nombre(sortie, n / 10);
    }
    let d: u8 = (n % 10) as u8;
    sortie.push(48 + d);
}

/// Reads the number written in `texte` from place `pos` on: the number and the place
/// after it.
pub fn lire_nombre(texte: &Vec<u8>, pos: usize) -> (r: Option<(u64, usize)>)
    requires
        pos <= texte.len(),
    ensures
        match lit_nombre(texte@.skip(pos as int)) {
            Some((n, suite)) => r matches Some((m, fin)) && m == n && pos < fin <= texte.len()
                && suite == texte@.skip(fin as int),
            None => r is None,
        },
{
    let ghost s = texte@.skip(pos as int);
    let mut fin: usize = pos;
    let mut n: u64 = 0;
    while fin < texte.len() && 48 <= texte[fin] && texte[fin] <= 57
        invariant
            pos <= fin <= texte.len(),
            s == texte@.skip(pos as int),
            forall|k: int| 0 <= k < fin - pos ==> est_chiffre(#[trigger] s[k]),
            n == valeur(s.take(fin - pos)),
        decreases texte.len() - fin,
    {
        let d: u128 = (texte[fin] - 48) as u128;
        let ghost k = fin - pos;
        proof {
            assert(s.take(k + 1).drop_last() =~= s.take(k));
        }
        let m: u128 = (n as u128) * 10 + d;
        if m > 0xffff_ffff_ffff_ffff {
            proof {
                lemma_nb_chiffres(s);
                let total = nb_chiffres(s) as int;
                lemma_valeur_croissante(s, k + 1, total);
            }
            return None;
        }
        n = m as u64;
        fin += 1;
    }
    proof {
        lemma_nb_chiffres_est(s, fin - pos);
    }
    if fin == pos {
        return None;
    }
    if fin - pos > 1 && texte[pos] == 48 {
        return None;
    }
    Some((n, fin))
}

/// The writing of the integer `x`: a minus sign where `x` is negative, then the
/// digits.
pub open spec fn texte_entier(x: int) -> Seq<u8> {
    if x < 0 {
        seq![45u8] + chiffres((-x) as nat)
    } else {
        chiffres(x as nat)
    }
}

/// The integer written at the start of `s`, with what follows it. Zero is not read
/// after a minus sign, and no integer is read that a `Litt` cannot hold.
pub open spec fn lit_entier(s: Seq<u8>) -> Option<(int, Seq<u8>)> {
    if s.len() > 0 && s[0] == 45 {
        match lit_nombre(s.skip(1)) {
            Some((n, suite)) => if n == 0 || n > 2147483648 {
                None
            } else {
                Some((-(n as int), suite))
            },
            None => None,
        }
    } else {
        match lit_nombre(s) {
            Some((n, suite)) => if n > 2147483647 {
                None
            } else {
                Some((n as int, suite))
            },
            None => None,
        }
    }
}

/// The writing of the literals of `c`, each followed by a space.
pub open spec fn texte_litts(c: Seq<Litt>) -> Seq<u8>
    decreases c.len(),
{
    if c.len() == 0 {
        Seq::empty()
    } else {
        texte_entier(c[0] as int) + seq![32u8] + texte_litts(c.drop_first())
    }
}

/// The line of the clause `c`: its literals, then `0` and a line feed.
pub open spec fn texte_clause(c: Seq<Litt>) -> Seq<u8> {
    texte_litts(c) + seq![48u8, 10u8]
}

/// The lines of the clauses `cs`.
pub open spec fn texte_clauses(cs: Seq<Seq<Litt>>) -> Seq<u8>
    decreases cs.len(),
{
    if cs.len() == 0 {
        Seq::empty()
    } else {
        texte_clause(cs[0]) + texte_clauses(cs.drop_first())
    }
}

/// The words `p cnf ` that begin the text.
pub open spec fn entete() -> Seq<u8> {
    seq![112u8, 32u8, 99u8, 110u8, 102u8, 32u8]
}

/// The text of the clauses `cs` over `v` variables.
pub open spec fn texte_cnf(v: nat, cs: Seq<Seq<Litt>>) -> Seq<u8> {
    entete() + chiffres(v) + seq![32u8] + chiffres(cs.len()) + seq![10u8] + texte_clauses(cs)
}

/// Whether the clauses `cs` over `v` variables can be written and read back: the
/// number of variables fits in a `u32` and that of clauses in a `u64`, and each literal
/// is one of the variables 1 to `v`.
pub open spec fn bien_formee(v: nat, cs: Seq<Seq<Litt>>) -> bool {
    &&& v <= u32::MAX
    &&& cs.len() <= u64::MAX
    &&& forall|k: int| 0 <= k < cs.len() ==> clause_admise(v, #[trigger] cs[k])
}

/// The clause over `v` variables written at the start of `s`, with what follows its
/// line.
pub open spec fn lit_clause(s: Seq<u8>, v: nat) -> Option<(Seq<Litt>, Seq<u8>)>
    decreases s.len(),
{
    match lit_entier(s) {
        None => None,
        Some((x, suite)) => {
            if suite.len() >= s.len() {
                None
            } else if x == 0 {
                if suite.len() > 0 && suite[0] == 10 {
                    Some((Seq::empty(), suite.skip(1)))
                } else {
                    None
                }
            } else if x < -v || x > v {
                None
            } else if suite.len() > 0 && suite[0] == 32 {
                match lit_clause(suite.skip(1), v) {
                    Some((c, reste)) => Some((seq![x as Litt] + c, reste)),
                    None => None,
                }
            } else {
                None
            }
        },
    }
}

/// The `n` clauses over `v` variables that make up the whole of `s`.
pub open spec fn lit_clauses(s: Seq<u8>, n: nat, v: nat) -> Option<Seq<Seq<Litt>>>
    decreases n,
{
    if n == 0 {
        if s.len() == 0 {
            Some(Seq::empty())
        } else {
            None
        }
    } else {
        match lit_clause(s, v) {
            Some((c, suite)) => match lit_clauses(suite, (n - 1) as nat, v) {
                Some(cs) => Some(seq![c] + cs),
                None => None,
            },
            None => None,
        }
    }
}

/// What the text `s` says: the number of variables and the clauses. It says nothing
/// where it departs from the writing in any way.
pub open spec fn lit_cnf(s: Seq<u8>) -> Option<(nat, Seq<Seq<Litt>>)> {
    if s.len() >= 6 && s.take(6) == entete() {
        match lit_nombre(s.skip(6)) {
            Some((v, s1)) => if v <= u32::MAX && s1.len() > 0 && s1[0] == 32 {
                match lit_nombre(s1.skip(1)) {
                    Some((n, s2)) => if s2.len() > 0 && s2[0] == 10 {
                        match lit_clauses(s2.skip(1), n, v) {
                            Some(cs) => Some((v, cs)),
                            None => None,
                        }
                    } else {
                        None
                    },
                    None => None,
                }
            } else {
                None
            },
            None => None,
        }
    } else {
        None
    }
}

/// An integer written before some text that does not begin with a digit is read back
/// with that text left over.
pub proof fn lemma_lit_entier_ecrit(x: int, suite: Seq<u8>)
    requires
        i32::MIN <= x <= i32::MAX,
        suite.len() > 0 ==> !est_chiffre(suite[0]),
    ensures
        lit_entier(texte_entier(x) + suite) == Some((x, suite)),
{
    let s = texte_entier(x) + suite;
    if x < 0 {
        let n = (-x) as nat;
        assert(s.skip(1) =~= chiffres(n) + suite);
        lemma_lit_nombre_ecrit(n, suite);
    } else {
        lemma_lit_nombre_ecrit(x as nat, suite);
    }
}

/// The line of a clause, written before any text, is read back with that text left
/// over.
pub proof fn lemma_lit_clause_ecrite(c: Seq<Litt>, v: nat, suite: Seq<u8>)
    requires
        clause_admise(v, c),
    ensures
        lit_clause(texte_clause(c) + suite, v) == Some((c, suite)),
    decreases c.len(),
{
    let s = texte_clause(c) + suite;
    if c.len() == 0 {
        let apres = seq![10u8] + suite;
        assert(s =~= texte_entier(0) + apres);
        lemma_lit_entier_ecrit(0, apres);
    } else {
        let x = c[0];
        let r = c.drop_first();
        let apres = seq![32u8] + (texte_clause(r) + suite);
        assert(s =~= texte_entier(x as int) + apres);
        lemma_lit_entier_ecrit(x as int, apres);
        assert(apres.skip(1) =~= texte_clause(r) + suite);
        lemma_lit_clause_ecrite(r, v, suite);
    }
}

/// The lines of clauses are read back as those clauses.
pub proof fn lemma_lit_clauses_ecrites(cs: Seq<Seq<Litt>>, v: nat)
    requires
        forall|k: int| 0 <= k < cs.len() ==> clause_admise(v, #[trigger] cs[k]),
    ensures
        lit_clauses(texte_clauses(cs), cs.len(), v) == Some(cs),
    decreases cs.len(),
{
    if cs.len() > 0 {
        let r = cs.drop_first();
        lemma_lit_clause_ecrite(cs[0], v, texte_clauses(r));
        lemma_lit_clauses_ecrites(r, v);
    }
}

/// Writing then reading gives back what was written: the text of well-formed clauses
/// says their number of variables and these clauses, literal for literal.
pub proof fn lemma_aller_retour(v: nat, cs: Seq<Seq<Litt>>)
    requires
        bien_formee(v, cs),
    ensures
        lit_cnf(texte_cnf(v, cs)) == Some((v, cs)),
{
    let s = texte_cnf(v, cs);
    let s1 = seq![32u8] + (chiffres(cs.len()) + (seq![10u8] + texte_clauses(cs)));
    let s2 = seq![10u8] + texte_clauses(cs);
    assert(s.take(6) =~= entete());
    assert(s.skip(6) =~= chiffres(v) + s1);
    lemma_lit_nombre_ecrit(v, s1);
    assert(s1.skip(1) =~= chiffres(cs.len()) + s2);
    lemma_lit_nombre_ecrit(cs.len(), s2);
    assert(s2.skip(1) =~= texte_clauses(cs));
    lemma_lit_clauses_ecrites(cs, v);
}

/// Digits without a leading zero are the writing of the number that they write.
pub proof fn lemma_chiffres_valeur(d: Seq<u8>)
    requires
        d.len() >= 1,
        forall|k: int| 0 <= k < d.len() ==> est_chiffre(#[trigger] d[k]),
        d.len() > 1 ==> d[0] != 48,
    ensures
        chiffres(valeur(d)) == d,
    decreases d.len(),
{
    let x = d.last();
    let avant = d.drop_last();
    if d.len() == 1 {
        assert(valeur(avant) == 0);
    } else {
        lemma_chiffres_valeur(avant);
        let n = valeur(d);
    }
}

/// What is read as a number is the writing of that number, and no digit follows it.
pub proof fn lemma_lit_nombre_strict(s: Seq<u8>)
    requires
        lit_nombre(s) is Some,
    ensures
        s == chiffres(lit_nombre(s).unwrap().0) + lit_nombre(s).unwrap().1,
        lit_nombre(s).unwrap().0 <= u64::MAX,
        lit_nombre(s).unwrap().1.len() < s.len(),
        lit_nombre(s).unwrap().1.len() > 0 ==> !est_chiffre(lit_nombre(s).unwrap().1[0]),
{
    let k = nb_chiffres(s) as int;
    lemma_nb_chiffres(s);
    let d = s.take(k);
    lemma_chiffres_valeur(d);
}

/// What is read as an integer is the writing of that integer, and no digit follows it.
pub proof fn lemma_lit_entier_strict(s: Seq<u8>)
    requires
        lit_entier(s) is Some,
    ensures
        s == texte_entier(lit_entier(s).unwrap().0) + lit_entier(s).unwrap().1,
        i32::MIN <= lit_entier(s).unwrap().0 <= i32::MAX,
        lit_entier(s).unwrap().1.len() < s.len(),
{
    if s.len() > 0 && s[0] == 45 {
        lemma_lit_nombre_strict(s.skip(1));
        assert(s =~= seq![45u8] + s.skip(1));
    } else {
        lemma_lit_nombre_strict(s);
    }
}

/// What is read as a clause is the line of that clause, whose literals are among the
/// variables.
pub proof fn lemma_lit_clause_strict(s: Seq<u8>, v: nat)
    requires
        lit_clause(s, v) is Some,
    ensures
        s == texte_clause(lit_clause(s, v).unwrap().0) + lit_clause(s, v).unwrap().1,
        clause_admise(v, lit_clause(s, v).unwrap().0),
    decreases s.len(),
{
    lemma_lit_entier_strict(s);
    let x = lit_entier(s).unwrap().0;
    let suite = lit_entier(s).unwrap().1;
    let c = lit_clause(s, v).unwrap().0;
    if x != 0 {
        let apres = suite.skip(1);
        lemma_lit_clause_strict(apres, v);
        let c1 = lit_clause(apres, v).unwrap().0;
        assert(c.drop_first() =~= c1);
        assert(suite =~= seq![32u8] + apres);
    }
}

/// What is read as clauses is the lines of these clauses.
pub proof fn lemma_lit_clauses_strict(s: Seq<u8>, n: nat, v: nat)
    requires
        lit_clauses(s, n, v) is Some,
    ensures
        s == texte_clauses(lit_clauses(s, n, v).unwrap()),
        lit_clauses(s, n, v).unwrap().len() == n,
        forall|k: int|
            0 <= k < n ==> clause_admise(v, #[trigger] lit_clauses(s, n, v).unwrap()[k]),
    decreases n,
{
    let cs = lit_clauses(s, n, v).unwrap();
    if n > 0 {
        lemma_lit_clause_strict(s, v);
        let c = lit_clause(s, v).unwrap().0;
        let suite = lit_clause(s, v).unwrap().1;
        lemma_lit_clauses_strict(suite, (n - 1) as nat, v);
        let cs1 = lit_clauses(suite, (n - 1) as nat, v).unwrap();
        assert(cs.drop_first() =~= cs1);
    }
}

/// Reading then writing gives back what was read: a text that says something is the
/// text of what it says, which is well formed. With `lemma_aller_retour`: a text says
/// `(v, cs)` where, and only where, `cs` is well formed over `v` variables and the text
/// is that of `(v, cs)`.
pub proof fn lemma_retour_aller(s: Seq<u8>)
    requires
        lit_cnf(s) is Some,
    ensures
        s == texte_cnf(lit_cnf(s).unwrap().0, lit_cnf(s).unwrap().1),
        bien_formee(lit_cnf(s).unwrap().0, lit_cnf(s).unwrap().1),
{
    let s0 = s.skip(6);
    lemma_lit_nombre_strict(s0);
    let v = lit_nombre(s0).unwrap().0;
    let s1 = lit_nombre(s0).unwrap().1;
    lemma_lit_nombre_strict(s1.skip(1));
    let n = lit_nombre(s1.skip(1)).unwrap().0;
    let s2 = lit_nombre(s1.skip(1)).unwrap().1;
    lemma_lit_clauses_strict(s2.skip(1), n, v);
    let cs = lit_clauses(s2.skip(1), n, v).unwrap();
    assert(s =~= s.take(6) + s0);
    assert(s1 =~= seq![32u8] + s1.skip(1));
}

/// Writing one more literal adds its writing and a space.
proof fn lemma_texte_litts_push(c: Seq<Litt>, l: Litt)
    ensures
        texte_litts(c.push(l)) == texte_litts(c) + texte_entier(l as int) + seq![32u8],
    decreases c.len(),
{
    let d = c.push(l);
    assert(texte_litts(d) == texte_entier(d[0] as int) + seq![32u8] + texte_litts(
        d.drop_first(),
    ));
    if c.len() > 0 {
        assert(d.drop_first() =~= c.drop_first().push(l));
        lemma_texte_litts_push(c.drop_first(), l);
    }
}

/// Writing one more clause adds its line.
proof fn lemma_texte_clauses_push(cs: Seq<Seq<Litt>>, c: Seq<Litt>)
    ensures
        texte_clauses(cs.push(c)) == texte_clauses(cs) + texte_clause(c),
    decreases cs.len(),
{
    let ds = cs.push(c);
    assert(texte_clauses(ds) == texte_clause(ds[0]) + texte_clauses(ds.drop_first()));
    if cs.len() > 0 {
        assert(ds.drop_first() =~= cs.drop_first().push(c));
        lemma_texte_clauses_push(cs.drop_first(), c);
    }
}

/// Writes the integer `x` at the end of `sortie`.
pub fn ecrire_entier(sortie: &mut Vec<u8>, x: Litt)
    ensures
        final(sortie)@ == old(sortie)@ + texte_entier(x as int),
{
    if x < 0 {
        sortie.push(45);
        ecrire_nombre(sortie, (-(x as i64)) as u64);
    } else {
        ecrire_nombre(sortie, x as u64);
    }
}

/// Writes the line of the clause `c` at the end of `sortie`.
pub fn ecrire_clause(sortie: &mut Vec<u8>, c: &Clause)
    ensures
        final(sortie)@ == old(sortie)@ + texte_clause(c@),
{
    let mut k: usize = 0;
    while k < c.len()
        invariant
            k <= c.len(),
            sortie@ == old(sortie)@ + texte_litts(c@.take(k as int)),
        decreases c.len() - k,
    {
        ecrire_entier(sortie, c[k]);
        sortie.push(32);
        proof {
            lemma_texte_litts_push(c@.take(k as int), c@[k as int]);
            assert(c@.take(k + 1) =~= c@.take(k as int).push(c@[k as int]));
        }
        k += 1;
    }
    sortie.push(48);
    sortie.push(10);
    proof {
        assert(c@.take(c.len() as int) =~= c@);
    }
}

/// The text of the clauses `clauses` over `variables` variables.
pub fn exporter(variables: u32, clauses: &Vec<Clause>) -> (texte: Vec<u8>)
    ensures
        texte@ == texte_cnf(variables as nat, vues(clauses@)),
{
    let ghost cs = vues(clauses@);
    let mut texte: Vec<u8> = Vec::new();
    texte.push(112);
    texte.push(32);
    texte.push(99);
    texte.push(110);
    texte.push(102);
    texte.push(32);
    ecrire_nombre(&mut texte, variables as u64);
    texte.push(32);
    ecrire_nombre(&mut texte, clauses.len() as u64);
    texte.push(10);
    let ghost debut = texte@;
    let mut k: usize = 0;
    while k < clauses.len()
        invariant
            k <= clauses.len(),
            cs == vues(clauses@),
            texte@ == debut + texte_clauses(cs.take(k as int)),
        decreases clauses.len() - k,
    {
        ecrire_clause(&mut texte, &clauses[k]);
        proof {
            lemma_texte_clauses_push(cs.take(k as int), cs[k as int]);
            assert(cs.take(k + 1) =~= cs.take(k as int).push(cs[k as int]));
        }
        k += 1;
    }
    assert(cs.take(clauses.len() as int) =~= cs);
    texte
}

/// Reads the integer written in `texte` from place `pos` on: the integer and the place
/// after it.
pub fn lire_entier(texte: &Vec<u8>, pos: usize) -> (r: Option<(Litt, usize)>)
    requires
        pos <= texte.len(),
    ensures
        match lit_entier(texte@.skip(pos as int)) {
            Some((x, suite)) => r matches Some((y, fin)) && y == x && pos < fin <= texte.len()
                && suite == texte@.skip(fin as int),
            None => r is None,
        },
{
    let ghost s = texte@.skip(pos as int);
    if pos < texte.len() && texte[pos] == 45 {
        assert(s.skip(1) =~= texte@.skip(pos + 1));
        match lire_nombre(texte, pos + 1) {
            Some((n, fin)) => {
                if n == 0 || n > 2147483648 {
                    None
                } else {
                    Some(((-(n as i64)) as i32, fin))
                }
            },
            None => None,
        }
    } else {
        match lire_nombre(texte, pos) {
            Some((n, fin)) => {
                if n > 2147483647 {
                    None
                } else {
                    Some((n as i32, fin))
                }
            },
            None => None,
        }
    }
}

/// Reads the line of a clause over `variables` variables written in `texte` from place
/// `pos` on: the clause and the place after its line.
pub fn lire_clause(texte: &Vec<u8>, pos: usize, variables: u32) -> (r: Option<(Clause, usize)>)
    requires
        pos <= texte.len(),
    ensures
        match lit_clause(texte@.skip(pos as int), variables as nat) {
            Some((c, suite)) => r matches Some((d, fin)) && d@ == c && pos < fin <= texte.len()
                && suite == texte@.skip(fin as int),
            None => r is None,
        },
{
    let ghost v = variables as nat;
    let ghost but = lit_clause(texte@.skip(pos as int), v);
    let mut clause: Clause = Vec::new();
    let mut cur: usize = pos;
    loop
        invariant
            pos <= cur <= texte.len(),
            v == variables as nat,
            but == lit_clause(texte@.skip(pos as int), v),
            but == match lit_clause(texte@.skip(cur as int), v) {
                Some((c, suite)) => Some((clause@ + c, suite)),
                None => None,
            },
        decreases texte.len() - cur,
    {
        match lire_entier(texte, cur) {
            None => {
                return None;
            },
            Some((x, fin)) => {
                proof {
                    if fin < texte.len() {
                        assert(texte@.skip(fin as int).skip(1) =~= texte@.skip(fin + 1));
                    }
                }
                if x == 0 {
                    if fin < texte.len() && texte[fin] == 10 {
                        return Some((clause, fin + 1));
                    } else {
                        return None;
                    }
                }
                if (x as i64) < -(variables as i64) || x as i64 > variables as i64 {
                    return None;
                }
                if fin < texte.len() && texte[fin] == 32 {
                    clause.push(x);
                    cur = fin + 1;
                } else {
                    return None;
                }
            },
        }
    }
}

/// Reads the text of a formula: the number of variables and the clauses. Nothing is
/// read from a text that departs from the writing in any way: what is read is well
/// formed and has `texte` for its text, and where nothing is read, `texte` is the text of
/// nothing well formed.
pub fn analyser(texte: &Vec<u8>) -> (r: Option<(u32, Vec<Clause>)>)
    ensures
        match lit_cnf(texte@) {
            Some((v, cs)) => r matches Some((w, clauses)) && w == v && vues(clauses@) == cs,
            None => r is None,
        },
        r matches Some((v, clauses)) ==> bien_formee(v as nat, vues(clauses@)) && texte@
            == texte_cnf(v as nat, vues(clauses@)),
        r is None ==> forall|v: nat, cs: Seq<Seq<Litt>>|
            bien_formee(v, cs) ==> texte@ != #[trigger] texte_cnf(v, cs),
{
    let r = lire_cnf(texte);
    proof {
        if r is Some {
            lemma_retour_aller(texte@);
        } else {
            assert forall|v: nat, cs: Seq<Seq<Litt>>| bien_formee(v, cs) implies texte@
                != #[trigger] texte_cnf(v, cs) by {
                lemma_aller_retour(v, cs);
            }
        }
    }
    r
}

/// Reads the text of a formula, step by step.
fn lire_cnf(texte: &Vec<u8>) -> (r: Option<(u32, Vec<Clause>)>)
    ensures
        match lit_cnf(texte@) {
            Some((v, cs)) => r matches Some((w, clauses)) && w == v && vues(clauses@) == cs,
            None => r is None,
        },
{
    if texte.len() < 6 || texte[0] != 112 || texte[1] != 32 || texte[2] != 99 || texte[3] != 110
        || texte[4] != 102 || texte[5] != 32 {
        return None;
    }
    assert(texte@.take(6) =~= entete());
    let (variables, fin_variables) = match lire_nombre(texte, 6) {
        Some((v, p)) => {
            if v > 0xffff_ffff {
                return None;
            }
            (v as u32, p)
        },
        None => {
            return None;
        },
    };
    proof {
        if fin_variables < texte.len() {
            assert(texte@.skip(fin_variables as int).skip(1) =~= texte@.skip(fin_variables + 1));
        }
    }
    if !(fin_variables < texte.len() && texte[fin_variables] == 32) {
        return None;
    }
    let (n, fin_clauses) = match lire_nombre(texte, fin_variables + 1) {
        Some(x) => x,
        None => {
            return None;
        },
    };
    proof {
        if fin_clauses < texte.len() {
            assert(texte@.skip(fin_clauses as int).skip(1) =~= texte@.skip(fin_clauses + 1));
        }
    }
    if !(fin_clauses < texte.len() && texte[fin_clauses] == 10) {
        return None;
    }
    let ghost v = variables as nat;
    let ghost but = lit_clauses(texte@.skip(fin_clauses + 1), n as nat, v);
    let mut clauses: Vec<Clause> = Vec::new();
    let mut cur: usize = fin_clauses + 1;
    let mut k: u64 = 0;
    while k < n
        invariant
            k <= n,
            cur <= texte.len(),
            v == variables as nat,
            lit_cnf(texte@) == match but {
                Some(cs) => Some((v, cs)),
                None => None,
            },
            but == match lit_clauses(texte@.skip(cur as int), (n - k) as nat, v) {
                Some(cs) => Some(vues(clauses@) + cs),
                None => None,
            },
        decreases n - k,
    {
        match lire_clause(texte, cur, variables) {
            None => {
                return None;
            },
            Some((c, fin)) => {
                clauses.push(c);
                cur = fin;
                k += 1;
            },
        }
    }
    if cur != texte.len() {
        return None;
    }
    Some((variables, clauses))
}

impl Grille {
    /// The text of the formula of the grid, over the variables of the grid, or the
    /// reason for which the first unfit clue is refused. The text can be read back, and
    /// then says the clauses of the formula.
    pub fn to_cnf(&self) -> (r: Result<Vec<u8>, Erreur>)
        ensures
            match compilation(self@.taille, self@.contraintes) {
                Err(e) => r == Err::<Vec<u8>, Erreur>(e),
                Ok(f) => r matches Ok(texte) && texte@ == texte_cnf(
                    nb_variables_spec(self@.taille),
                    aplatie(f),
                ) && lit_cnf(texte@) == Some((nb_variables_spec(self@.taille), aplatie(f))),
            },
    {
        match self.to_formule() {
            Err(e) => Err(e),
            Ok(formule) => {
                let clauses = aplatir(&formule);
                let variables = self.nb_variables();
                proof {
                    lemma_aplatie_admise(variables as nat, vue_formule(formule@));
                    assert(clauses.len() <= u64::MAX);
                    lemma_aller_retour(variables as nat, vues(clauses@));
                }
                Ok(exporter(variables, &clauses))
            },
        }
    }
}

} // verus!
