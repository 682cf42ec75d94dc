//! Numbering of the boolean variables.
//!
//! The variables of the cells take the numbers 1 to `t * t`, row by row. The variables
//! that say "the clue of value `p` holds at this cell" take the block of `t * t`
//! numbers that starts after `t * t * (p + 2)`, in the same order.

use vstd::prelude::*;

use crate::erreur::valeur_admise;
use crate::geometrie::{dans_grille, precede, Case};

verus! {

/// A literal: a variable's number, negated when the variable is denied.
pub type Litt = i32;

/// The number of the variable "cell `c` is marked" in a grid of side `t`.
pub open spec fn litt_case(t: int, c: Case) -> int {
    t * c.1 + c.0 + 1
}

/// The number of the variable "the clue of value `p` holds at cell `c`" in a grid of
/// side `t`.
pub open spec fn litt_selecteur(t: int, c: Case, p: int) -> int {
    litt_case(t, c) + t * t * (p + 2)
}

/// The number of variables of the grid of side `t`: the largest number that the scheme
/// gives out.
pub open spec fn nb_variables_spec(t: int) -> nat {
    (t * t * (t + 2)) as nat
}

/// Whether `l` is the literal of one of the variables 1 to `v`.
pub open spec fn litt_admis(v: nat, l: Litt) -> bool {
    l != 0 && -v <= l <= v
}

/// Whether each literal of `c` is one of the variables 1 to `v`.
pub open spec fn clause_admise(v: nat, c: Seq<Litt>) -> bool {
    forall|k: int| 0 <= k < c.len() ==> litt_admis(v, #[trigger] c[k])
}

/// Every number that the scheme gives out on a grid whose side fits in a byte is
/// positive and fits in a `Litt`.
pub proof fn lemma_litt_tient(t: int, c: Case, p: int)
    requires
        0 <= t <= 255,
        -1 <= p <= 254,
    ensures
        1 <= litt_case(t, c) <= 65281,
        litt_case(t, c) <= litt_selecteur(t, c, p) <= 16711681,
{
    let j = c.1 as int;
    assert(0 <= t * j <= 255 * 255) by (nonlinear_arith)
        requires
            0 <= t <= 255,
            0 <= j <= 255,
    ;
    assert(0 <= t * t * (p + 2) <= 255 * 255 * 256) by (nonlinear_arith)
        requires
            0 <= t <= 255,
            1 <= p + 2 <= 256,
    ;
}

/// Whatever the side of a grid, if it fits in a byte, a `Litt` holds each of the
/// variables of the grid: no side has to be refused.
pub proof fn lemma_toute_taille_convient(t: int)
    requires
        0 <= t <= 255,
    ensures
        nb_variables_spec(t) == t * t * (t + 2),
        nb_variables_spec(t) <= 16711425 < i32::MAX,
{
    assert(0 <= t * t * (t + 2) <= 255 * 255 * 257) by (nonlinear_arith)
        requires
            0 <= t <= 255,
    ;
}

/// The cells of the grid get the numbers 1 to `t * t`.
pub proof fn lemma_litt_case_borne(t: int, c: Case)
    requires
        dans_grille(t, c),
    ensures
        1 <= litt_case(t, c) <= t * t,
{
    let j = c.1 as int;
    assert(0 <= t * j && t * j + t <= t * t) by (nonlinear_arith)
        requires
            0 <= j < t,
    ;
}

/// Read row by row, the cells of the grid get increasing numbers: no two cells share one.
pub proof fn lemma_litt_case_croissant(t: int, a: Case, b: Case)
    requires
        dans_grille(t, a),
        dans_grille(t, b),
        precede(a, b),
    ensures
        litt_case(t, a) < litt_case(t, b),
{
    let ja = a.1 as int;
    let jb = b.1 as int;
    if ja < jb {
        assert(t * ja + t <= t * jb) by (nonlinear_arith)
            requires
                0 <= ja < jb,
                0 <= t,
        ;
    }
}

/// Every number from 1 to `t * t` is the number of a cell of the grid.
pub proof fn lemma_litt_case_atteint(t: int, n: int) -> (c: Case)
    requires
        0 < t <= 256,
        1 <= n <= t * t,
    ensures
        dans_grille(t, c),
        litt_case(t, c) == n,
{
    let m = n - 1;
    let j = m / t;
    let i = m % t;
    assert(m == t * j + i && 0 <= i < t) by (nonlinear_arith)
        requires
            j == m / t,
            i == m % t,
            0 < t,
    ;
    assert(0 <= j < t) by (nonlinear_arith)
        requires
            m == t * j + i,
            0 <= i < t,
            0 <= m < t * t,
    ;
    (i as u8, j as u8)
}

/// The numbers of the clues of value `p` fill the block that follows `t * t * (p + 2)`.
pub proof fn lemma_litt_selecteur_borne(t: int, c: Case, p: int)
    requires
        dans_grille(t, c),
    ensures
        t * t * (p + 2) < litt_selecteur(t, c, p) <= t * t * (p + 3),
{
    lemma_litt_case_borne(t, c);
    assert(t * t * (p + 3) == t * t * (p + 2) + t * t) by (nonlinear_arith);
}

/// No clue of an admitted value shares its number with a cell.
pub proof fn lemma_selecteur_hors_cases(t: int, c: Case, p: int, d: Case)
    requires
        dans_grille(t, c),
        dans_grille(t, d),
        valeur_admise(t, p),
    ensures
        litt_case(t, d) < litt_selecteur(t, c, p),
{
    lemma_litt_case_borne(t, d);
    assert(t * t <= t * t * (p + 2)) by (nonlinear_arith)
        requires
            p + 2 >= 1,
    ;
}

/// Two clues share their number only if they have the same cell and the same value.
pub proof fn lemma_selecteurs_distincts(t: int, c: Case, p: int, d: Case, q: int)
    requires
        dans_grille(t, c),
        dans_grille(t, d),
        litt_selecteur(t, c, p) == litt_selecteur(t, d, q),
    ensures
        c == d,
        p == q,
{
    lemma_litt_selecteur_borne(t, c, p);
    lemma_litt_selecteur_borne(t, d, q);
    if p < q {
        assert(t * t * (p + 3) <= t * t * (q + 2)) by (nonlinear_arith)
            requires
                p + 3 <= q + 2,
        ;
    } else if q < p {
        assert(t * t * (q + 3) <= t * t * (p + 2)) by (nonlinear_arith)
            requires
                q + 3 <= p + 2,
        ;
    }
    if precede(c, d) {
        lemma_litt_case_croissant(t, c, d);
    } else if precede(d, c) {
        lemma_litt_case_croissant(t, d, c);
    }
}

/// The literals of a cell of the grid are among the variables of the grid.
pub proof fn lemma_litt_case_admis(t: int, c: Case)
    requires
        0 <= t <= 255,
        dans_grille(t, c),
    ensures
        litt_admis(nb_variables_spec(t), litt_case(t, c) as Litt),
        litt_admis(nb_variables_spec(t), (-litt_case(t, c)) as Litt),
{
    lemma_litt_case_borne(t, c);
    lemma_litt_tient(t, c, 0);
    assert(t * t <= t * t * (t + 2)) by (nonlinear_arith)
        requires
            t >= 0,
    ;
}

/// The literals of a clue that is not refused are among the variables of the grid.
pub proof fn lemma_litt_selecteur_admis(t: int, c: Case, p: int)
    requires
        0 <= t <= 255,
        dans_grille(t, c),
        valeur_admise(t, p),
    ensures
        litt_admis(nb_variables_spec(t), litt_selecteur(t, c, p) as Litt),
        litt_admis(nb_variables_spec(t), (-litt_selecteur(t, c, p)) as Litt),
{
    lemma_litt_selecteur_borne(t, c, p);
    lemma_litt_tient(t, c, p);
    assert(0 <= t * t * (p + 2) && t * t * (p + 3) <= t * t * (t + 2)) by (nonlinear_arith)
        requires
            t >= 0,
            1 <= p + 2,
            p + 3 <= t + 2,
    ;
}

} // verus!
