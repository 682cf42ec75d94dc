//! What a shape is: a connected set of cells of the grid, of the size asked for, that
//! holds the anchor.
//!
//! A set is connected around a cell where a path inside the set leads from that cell
//! to each of the others, each step going to a cell that shares an edge. Growing the
//! anchor one cell at a time yields these sets and no others.

use vstd::prelude::*;

use crate::croissance::{agrandit, croissance};
use crate::geometrie::{adjacentes, dans_grille, precede, voisine, Case};
use crate::litteraux::{lemma_litt_case_borne, lemma_litt_case_croissant, litt_case};

verus! {

/// Whether `ch` is a path inside `s`: it has a first cell, its cells are in `s`, and each
/// shares an edge with the next.
pub open spec fn est_chemin(s: Set<Case>, ch: Seq<Case>) -> bool {
    &&& ch.len() > 0
    &&& forall|k: int| 0 <= k < ch.len() ==> s.contains(#[trigger] ch[k])
    &&& forall|k: int| 0 <= k < ch.len() - 1 ==> adjacentes(#[trigger] ch[k], ch[k + 1])
}

/// Whether a path inside `s` leads from `a` to `b`.
pub open spec fn relie(s: Set<Case>, a: Case, b: Case) -> bool {
    exists|ch: Seq<Case>| #[trigger] est_chemin(s, ch) && ch[0] == a && ch.last() == b
}

/// Whether `s` holds `a` and a path inside `s` leads from `a` to each cell of `s`.
pub open spec fn connexe_autour(s: Set<Case>, a: Case) -> bool {
    s.contains(a) && forall|c: Case| s.contains(c) ==> relie(s, a, c)
}

/// Whether `s` is a set of `p + 1` cells of the grid of side `t`, connected around
/// `ancre`.
pub open spec fn est_forme(t: int, ancre: Case, p: int, s: Set<Case>) -> bool {
    &&& s.finite()
    &&& s.len() == p + 1
    &&& forall|c: Case| s.contains(c) ==> dans_grille(t, c)
    &&& connexe_autour(s, ancre)
}

/// The shapes of `p + 1` cells around `ancre` in the grid of side `t`.
pub open spec fn les_formes(t: int, ancre: Case, p: int) -> Set<Set<Case>> {
    Set::new(|s: Set<Case>| est_forme(t, ancre, p, s))
}

/// A finite set of cells of the grid of side `t` has `t * t` cells at most.
pub proof fn lemma_cases_de_la_grille(t: int, s: Set<Case>)
    requires
        s.finite(),
        forall|c: Case| s.contains(c) ==> dans_grille(t, c),
    ensures
        s.len() <= t * t,
{
    let numero = |c: Case| litt_case(t, c);
    let numeros = s.map(numero);
    let plage = vstd::set_lib::set_int_range(1, t * t + 1);
    assert(vstd::relations::injective_on(numero, s)) by {
        assert forall|a: Case, b: Case|
            s.contains(a) && s.contains(b) && #[trigger] numero(a) == #[trigger] numero(
                b,
            ) implies a == b by {
            if precede(a, b) {
                lemma_litt_case_croissant(t, a, b);
            } else if precede(b, a) {
                lemma_litt_case_croissant(t, b, a);
            }
        }
    }
    vstd::set_lib::lemma_map_size(s, numeros, numero);
    assert forall|n: int| numeros.contains(n) implies plage.contains(n) by {
        let c = choose|c: Case| s.contains(c) && numero(c) == n;
        lemma_litt_case_borne(t, c);
    }
    assert(0 <= t * t) by (nonlinear_arith);
    vstd::set_lib::lemma_int_range(1, t * t + 1);
    vstd::set_lib::lemma_len_subset(numeros, plage);
}

/// A shape has a cell at least, and no more cells than the grid.
pub proof fn lemma_forme_tient(t: int, ancre: Case, p: int, s: Set<Case>)
    requires
        est_forme(t, ancre, p, s),
    ensures
        dans_grille(t, ancre),
        0 <= p < t * t,
{
    lemma_cases_de_la_grille(t, s);
}

/// There is no shape of less than one cell, none of more cells than the grid, and none
/// around a cell outside the grid.
pub proof fn lemma_sans_forme(t: int, ancre: Case, p: int)
    requires
        p < 0 || p >= t * t || !dans_grille(t, ancre),
    ensures
        les_formes(t, ancre, p) == Set::<Set<Case>>::empty(),
{
    assert forall|s: Set<Case>| !est_forme(t, ancre, p, s) by {
        if est_forme(t, ancre, p, s) {
            lemma_forme_tient(t, ancre, p, s);
        }
    }
}

/// Every set grown in `p` steps from a cell of the grid alone is a shape of `p + 1` cells
/// around that cell.
pub proof fn lemma_crue_est_forme(t: int, ancre: Case, p: int, s: Set<Case>)
    requires
        dans_grille(t, ancre),
        p >= 0,
        croissance(t, set![set![ancre]], p as nat).contains(s),
    ensures
        est_forme(t, ancre, p, s),
    decreases p,
{
    let e = set![set![ancre]];
    if p == 0 {
        let seul = seq![ancre];
        assert forall|c: Case| s.contains(c) implies relie(s, ancre, c) by {
            assert(est_chemin(s, seul) && seul[0] == ancre && seul.last() == c);
        }
    } else {
        let q = choose|q: Set<Case>|
            croissance(t, e, (p - 1) as nat).contains(q) && agrandit(t, q, s);
        lemma_crue_est_forme(t, ancre, p - 1, q);
        let (c, v) = choose|c: Case, v: Case|
            q.contains(c) && #[trigger] voisine(t, c, v) && !q.contains(v) && s == q.insert(v);
        assert forall|d: Case| s.contains(d) implies relie(s, ancre, d) by {
            if d == v {
                let ch = choose|ch: Seq<Case>| #[trigger]
                    est_chemin(q, ch) && ch[0] == ancre && ch.last() == c;
                let suite = ch.push(v);
                assert forall|k: int| 0 <= k < suite.len() - 1 implies adjacentes(
                    #[trigger] suite[k],
                    suite[k + 1],
                ) by {
                    if k < ch.len() - 1 {
                        assert(adjacentes(ch[k], ch[k + 1]));
                    }
                }
                assert forall|k: int| 0 <= k < suite.len() implies s.contains(
                    #[trigger] suite[k],
                ) by {
                    if k < ch.len() {
                        assert(q.contains(ch[k]));
                    }
                }
                assert(est_chemin(s, suite) && suite[0] == ancre && suite.last() == d);
            } else {
                let ch = choose|ch: Seq<Case>| #[trigger]
                    est_chemin(q, ch) && ch[0] == ancre && ch.last() == d;
                assert forall|k: int| 0 <= k < ch.len() implies s.contains(#[trigger] ch[k]) by {
                    assert(q.contains(ch[k]));
                }
                assert(est_chemin(s, ch) && ch[0] == ancre && ch.last() == d);
            }
        }
    }
}

/// Whether a path of `n` steps inside `s` leads from `a` to `c`.
pub open spec fn atteint_en(s: Set<Case>, a: Case, c: Case, n: nat) -> bool {
    exists|ch: Seq<Case>| #[trigger]
        est_chemin(s, ch) && ch[0] == a && ch.last() == c && ch.len() == n + 1
}

/// Whether `n` is the least number of steps in which a path inside `s` leads from `a`
/// to `c`.
pub open spec fn au_plus_court(s: Set<Case>, a: Case, c: Case, n: nat) -> bool {
    atteint_en(s, a, c, n) && forall|m: nat| m < n ==> !atteint_en(s, a, c, m)
}

/// The least number of steps in which a path inside `s` leads from `a` to `c`.
pub open spec fn eloignement(s: Set<Case>, a: Case, c: Case) -> nat {
    choose|n: nat| au_plus_court(s, a, c, n)
}

/// Among the numbers of steps in which `c` is reached, one is the least.
proof fn lemma_plus_court(s: Set<Case>, a: Case, c: Case, n: nat) -> (m: nat)
    requires
        atteint_en(s, a, c, n),
    ensures
        m <= n,
        au_plus_court(s, a, c, m),
    decreases n,
{
    if exists|k: nat| k < n && atteint_en(s, a, c, k) {
        let k = choose|k: nat| k < n && atteint_en(s, a, c, k);
        lemma_plus_court(s, a, c, k)
    } else {
        n
    }
}

/// A cell to which a path leads has an `eloignement`: a path of that many steps leads
/// to it, and no shorter one.
proof fn lemma_eloignement(s: Set<Case>, a: Case, c: Case)
    requires
        relie(s, a, c),
    ensures
        au_plus_court(s, a, c, eloignement(s, a, c)),
{
    let ch = choose|ch: Seq<Case>| #[trigger] est_chemin(s, ch) && ch[0] == a && ch.last() == c;
    let n = (ch.len() - 1) as nat;
    assert(atteint_en(s, a, c, n));
    let m = lemma_plus_court(s, a, c, n);
}

/// A finite set that is not empty has a cell that is at least as far from `a` as any
/// other of its cells.
proof fn lemma_plus_loin(s: Set<Case>, a: Case, e: Set<Case>) -> (v: Case)
    requires
        e.finite(),
        e.len() > 0,
    ensures
        e.contains(v),
        forall|c: Case| e.contains(c) ==> eloignement(s, a, c) <= eloignement(s, a, v),
    decreases e.len(),
{
    let x = e.choose();
    let reste = e.remove(x);
    if reste.len() == 0 {
        assert forall|c: Case| e.contains(c) implies c == x by {
            if c != x {
                assert(reste.contains(c));
            }
        }
        x
    } else {
        let w = lemma_plus_loin(s, a, reste);
        if eloignement(s, a, x) > eloignement(s, a, w) {
            x
        } else {
            w
        }
    }
}

/// A connected set of two cells or more has a cell, other than the one it is connected
/// around, that touches the rest and can be taken away without cutting the rest.
proof fn lemma_case_retirable(s: Set<Case>, ancre: Case) -> (r: (Case, Case))
    requires
        s.finite(),
        s.len() >= 2,
        connexe_autour(s, ancre),
    ensures
        s.contains(r.0),
        s.contains(r.1),
        r.0 != r.1,
        r.1 != ancre,
        adjacentes(r.0, r.1),
        connexe_autour(s.remove(r.1), ancre),
{
    let v = lemma_plus_loin(s, ancre, s);
    let autre = s.remove(ancre).choose();
    assert(s.remove(ancre).contains(autre));
    lemma_eloignement(s, ancre, v);
    let n = eloignement(s, ancre, v);
    let vers_v = choose|ch: Seq<Case>| #[trigger]
        est_chemin(s, ch) && ch[0] == ancre && ch.last() == v && ch.len() == n + 1;
    let u = vers_v[n - 1];
    let reste = s.remove(v);
    assert forall|d: Case| reste.contains(d) implies relie(reste, ancre, d) by {
        lemma_eloignement(s, ancre, d);
        let m = eloignement(s, ancre, d);
        let ch = choose|ch: Seq<Case>| #[trigger]
            est_chemin(s, ch) && ch[0] == ancre && ch.last() == d && ch.len() == m + 1;
        assert forall|k: int| 0 <= k < ch.len() implies reste.contains(#[trigger] ch[k]) by {
            assert(s.contains(ch[k]));
            if ch[k] == v {
                let debut = ch.take(k + 1);
                assert forall|i: int| 0 <= i < debut.len() implies s.contains(
                    #[trigger] debut[i],
                ) by {
                    assert(s.contains(ch[i]));
                }
                assert forall|i: int| 0 <= i < debut.len() - 1 implies adjacentes(
                    #[trigger] debut[i],
                    debut[i + 1],
                ) by {
                    assert(adjacentes(ch[i], ch[i + 1]));
                }
                assert(est_chemin(s, debut) && debut[0] == ancre && debut.last() == v
                    && debut.len() == k + 1);
                assert(atteint_en(s, ancre, v, k as nat));
                assert(k < m);
            }
        }
        assert(est_chemin(reste, ch) && ch[0] == ancre && ch.last() == d);
    }
    (u, v)
}

/// Every shape of `p + 1` cells around a cell is grown in `p` steps from that cell alone.
pub proof fn lemma_forme_est_crue(t: int, ancre: Case, p: int, s: Set<Case>)
    requires
        est_forme(t, ancre, p, s),
    ensures
        p >= 0,
        croissance(t, set![set![ancre]], p as nat).contains(s),
    decreases p,
{
    if p == 0 {
        assert(s.remove(ancre).len() == 0);
        assert(s =~= set![ancre]);
    } else {
        let (u, v) = lemma_case_retirable(s, ancre);
        let reste = s.remove(v);
        lemma_forme_est_crue(t, ancre, p - 1, reste);
        assert(reste.contains(u) && voisine(t, u, v) && !reste.contains(v) && s == reste.insert(v));
    }
}

/// The shapes of `p + 1` cells around a cell of the grid are the sets grown in `p` steps
/// from that cell alone.
pub proof fn lemma_formes_par_croissance(t: int, ancre: Case, p: int)
    requires
        dans_grille(t, ancre),
        p >= 0,
    ensures
        les_formes(t, ancre, p) == croissance(t, set![set![ancre]], p as nat),
{
    let crues = croissance(t, set![set![ancre]], p as nat);
    assert forall|s: Set<Case>| les_formes(t, ancre, p).contains(s) <==> crues.contains(s) by {
        if crues.contains(s) {
            lemma_crue_est_forme(t, ancre, p, s);
        }
        if est_forme(t, ancre, p, s) {
            lemma_forme_est_crue(t, ancre, p, s);
        }
    }
}

} // verus!
