//! The canonical writing of a set of cells and of a set of shapes.
//!
//! A set of cells is written as the sequence of its cells read row by row: each cell
//! once, in increasing order. A set of shapes of the same size is written as the
//! sequence of its shapes in dictionary order. Either way a set has one writing only.

use vstd::prelude::*;

use crate::geometrie::{precede, Case};

verus! {

/// Whether each element of `s` comes before those that follow it, in the order `avant`.
pub open spec fn croissante<T>(s: Seq<T>, avant: spec_fn(T, T) -> bool) -> bool {
    forall|x: int, y: int| 0 <= x < y < s.len() ==> avant(#[trigger] s[x], #[trigger] s[y])
}

/// Two increasing sequences with the same elements are the same sequence, provided
/// that no two elements come before each other.
pub proof fn lemma_croissante_unique<T>(a: Seq<T>, b: Seq<T>, avant: spec_fn(T, T) -> bool)
    requires
        croissante(a, avant),
        croissante(b, avant),
        forall|x: T| a.contains(x) <==> b.contains(x),
        forall|x: T, y: T| #[trigger] avant(x, y) ==> !avant(y, x),
    ensures
        a == b,
    decreases a.len(),
{
    if a.len() == 0 {
        if b.len() > 0 {
            assert(b.contains(b[0]));
        }
    } else {
        let n = a.len() - 1;
        assert(a.contains(a[n]));
        let m = b.len() - 1;
        assert(b.contains(b[m]));
        let a0 = a.drop_last();
        let b0 = b.drop_last();
        assert forall|x: T| a0.contains(x) <==> b0.contains(x) by {
            if a0.contains(x) {
                let k = choose|k: int| 0 <= k < a0.len() && a0[k] == x;
                assert(a[k] == x);
                assert(avant(a[k], a[n]));
                assert(b.contains(x));
                let l = choose|l: int| 0 <= l < b.len() && b[l] == x;
                assert(b0[l] == x);
            }
            if b0.contains(x) {
                let k = choose|k: int| 0 <= k < b0.len() && b0[k] == x;
                assert(b[k] == x);
                assert(avant(b[k], b[m]));
                assert(a.contains(x));
                let l = choose|l: int| 0 <= l < a.len() && a[l] == x;
                assert(a0[l] == x);
            }
        }
        lemma_croissante_unique(a0, b0, avant);
        assert(a =~= a0.push(a[n]));
    }
}

/// Whether `s` lists its cells row by row, each once.
pub open spec fn strictement_triee(s: Seq<Case>) -> bool {
    forall|x: int, y: int| 0 <= x < y < s.len() ==> precede(#[trigger] s[x], #[trigger] s[y])
}

/// A set of cells has one canonical writing only.
pub proof fn lemma_triee_unique(a: Seq<Case>, b: Seq<Case>)
    requires
        strictement_triee(a),
        strictement_triee(b),
        a.to_set() == b.to_set(),
    ensures
        a == b,
{
    let avant = |x: Case, y: Case| precede(x, y);
    assert forall|x: Case| a.contains(x) <==> b.contains(x) by {
        assert(a.to_set().contains(x) == a.contains(x));
        assert(b.to_set().contains(x) == b.contains(x));
    }
    lemma_croissante_unique(a, b, avant);
}

/// The canonical writing of the set `s`.
pub open spec fn suite_triee(s: Set<Case>) -> Seq<Case> {
    choose|l: Seq<Case>| strictement_triee(l) && l.to_set() == s
}

/// A canonical writing is the canonical writing of the set of its cells.
pub proof fn lemma_suite_triee(l: Seq<Case>)
    requires
        strictement_triee(l),
    ensures
        l == suite_triee(l.to_set()),
{
    lemma_triee_unique(l, suite_triee(l.to_set()));
}

/// A canonical writing with one more cell: the canonical writing of the set of `s` and
/// `c`.
pub proof fn lemma_inserer_case(s: Seq<Case>, c: Case) -> (r: Seq<Case>)
    requires
        strictement_triee(s),
    ensures
        strictement_triee(r),
        r.to_set() == s.to_set().insert(c),
    decreases s.len(),
{
    if s.len() == 0 {
        let r = seq![c];
        assert(r[0] == c);
        r
    } else if s.last() == c {
        s
    } else if precede(s.last(), c) {
        let r = s.push(c);
        lemma_ensemble_insert(s, s.len() as int, c);
        assert(r =~= s.insert(s.len() as int, c));
        r
    } else {
        let debut = s.drop_last();
        let d = lemma_inserer_case(debut, c);
        let r = d.push(s.last());
        assert forall|x: int| 0 <= x < d.len() implies precede(#[trigger] d[x], s.last()) by {
            assert(d.contains(d[x]));
            assert(d.to_set().contains(d[x]));
            if d[x] != c {
                assert(debut.to_set().contains(d[x]));
                assert(debut.contains(d[x]));
                let k = choose|k: int| 0 <= k < debut.len() && debut[k] == d[x];
                assert(precede(s[k], s.last()));
            }
        }
        lemma_ensemble_insert(d, d.len() as int, s.last());
        assert(r =~= d.insert(d.len() as int, s.last()));
        assert(s =~= debut.insert(debut.len() as int, s.last()));
        r
    }
}

/// Every finite set of cells has a canonical writing: `suite_triee`.
pub proof fn lemma_suite_triee_existe(s: Set<Case>)
    requires
        s.finite(),
    ensures
        strictement_triee(suite_triee(s)),
        suite_triee(s).to_set() == s,
    decreases s.len(),
{
    if s.len() == 0 {
        let vide = Seq::<Case>::empty();
        assert(vide.to_set() =~= s);
    } else {
        let c = s.choose();
        lemma_suite_triee_existe(s.remove(c));
        let r = lemma_inserer_case(suite_triee(s.remove(c)), c);
    }
}

/// Putting `c` at place `k` of `s` adds `c` to the set of its elements.
pub proof fn lemma_ensemble_insert<T>(s: Seq<T>, k: int, c: T)
    requires
        0 <= k <= s.len(),
    ensures
        s.insert(k, c).to_set() == s.to_set().insert(c),
{
    let r = s.insert(k, c);
    assert forall|x: T| r.to_set().contains(x) <==> s.to_set().insert(c).contains(x) by {
        if r.contains(x) {
            let m = choose|m: int| 0 <= m < r.len() && r[m] == x;
            if m < k {
                assert(s[m] == x);
            } else if m > k {
                assert(s[m - 1] == x);
            }
        }
        if s.contains(x) {
            let m = choose|m: int| 0 <= m < s.len() && s[m] == x;
            if m < k {
                assert(r[m] == x);
            } else {
                assert(r[m + 1] == x);
            }
        }
        if x == c {
            assert(r[k] == x);
        }
    }
}

/// Whether `a` comes before `b` when a grid is read row by row.
pub fn avant(a: Case, b: Case) -> (r: bool)
    ensures
        r == precede(a, b),
{
    a.1 < b.1 || (a.1 == b.1 && a.0 < b.0)
}

/// Whether `c` is one of the cells of `s`.
pub fn contient(s: &Vec<Case>, c: Case) -> (r: bool)
    ensures
        r == s@.contains(c),
{
    let mut k: usize = 0;
    while k < s.len()
        invariant
            k <= s.len(),
            forall|m: int| 0 <= m < k ==> s@[m] != c,
        decreases s.len() - k,
    {
        if s[k].0 == c.0 && s[k].1 == c.1 {
            return true;
        }
        k += 1;
    }
    false
}

/// A copy of `s`.
pub fn copie<T: Copy>(s: &Vec<T>) -> (r: Vec<T>)
    ensures
        r@ == s@,
{
    let mut r: Vec<T> = Vec::new();
    let mut k: usize = 0;
    while k < s.len()
        invariant
            k <= s.len(),
            r@ == s@.take(k as int),
        decreases s.len() - k,
    {
        r.push(s[k]);
        k += 1;
    }
    r
}

/// Adds `c` to the set of cells written in `s`, keeping the writing canonical.
pub fn ajouter_case(s: &mut Vec<Case>, c: Case)
    requires
        strictement_triee(old(s)@),
    ensures
        strictement_triee(final(s)@),
        final(s)@.to_set() == old(s)@.to_set().insert(c),
        old(s)@.contains(c) ==> final(s)@ == old(s)@,
        !old(s)@.contains(c) ==> final(s)@.len() == old(s)@.len() + 1,
{
    let mut k: usize = 0;
    while k < s.len() && avant(s[k], c)
        invariant
            k <= s.len(),
            s@ == old(s)@,
            forall|m: int| 0 <= m < k ==> precede(#[trigger] s@[m], c),
        decreases s.len() - k,
    {
        k += 1;
    }
    if !(k < s.len() && s[k].0 == c.0 && s[k].1 == c.1) {
        proof {
            lemma_ensemble_insert(s@, k as int, c);
        }
        s.insert(k, c);
    }
}

/// What a list of sequences holds, each sequence taken by its view.
pub open spec fn vues<T>(l: Seq<Vec<T>>) -> Seq<Seq<T>> {
    l.map_values(|v: Vec<T>| v@)
}

/// Whether `a` and `b` have the same length and the same cells before place `k`, where
/// the cell of `a` comes before that of `b`.
pub open spec fn ecart(a: Seq<Case>, b: Seq<Case>, k: int) -> bool {
    &&& a.len() == b.len()
    &&& 0 <= k < a.len()
    &&& forall|m: int| 0 <= m < k ==> a[m] == b[m]
    &&& precede(a[k], b[k])
}

/// Whether `a` comes before `b`: it is shorter, or as long and before `b` in
/// dictionary order.
pub open spec fn forme_precede(a: Seq<Case>, b: Seq<Case>) -> bool {
    a.len() < b.len() || exists|k: int| ecart(a, b, k)
}

/// Whether `l` lists its sequences in increasing order, each once.
pub open spec fn liste_triee(l: Seq<Seq<Case>>) -> bool {
    forall|x: int, y: int|
        0 <= x < y < l.len() ==> forme_precede(#[trigger] l[x], #[trigger] l[y])
}

/// No two sequences come before each other, and none comes before itself.
pub proof fn lemma_forme_precede_asymetrique(a: Seq<Case>, b: Seq<Case>)
    requires
        forme_precede(a, b),
    ensures
        !forme_precede(b, a),
        a != b,
{
    if a.len() == b.len() {
        let k = choose|k: int| ecart(a, b, k);
        if forme_precede(b, a) {
            let m = choose|m: int| ecart(b, a, m);
        }
    }
}

/// What comes before a sequence comes before all that the sequence comes before.
pub proof fn lemma_forme_precede_transitive(a: Seq<Case>, b: Seq<Case>, c: Seq<Case>)
    requires
        forme_precede(a, b),
        forme_precede(b, c),
    ensures
        forme_precede(a, c),
{
    if a.len() == b.len() && b.len() == c.len() {
        let k = choose|k: int| ecart(a, b, k);
        let m = choose|m: int| ecart(b, c, m);
        let n = if k <= m { k } else { m };
        assert(ecart(a, c, n));
    }
}

/// A set of sequences has one sorted listing only.
pub proof fn lemma_liste_unique(a: Seq<Seq<Case>>, b: Seq<Seq<Case>>)
    requires
        liste_triee(a),
        liste_triee(b),
        a.to_set() == b.to_set(),
    ensures
        a == b,
{
    let avant = |x: Seq<Case>, y: Seq<Case>| forme_precede(x, y);
    assert forall|x: Seq<Case>| a.contains(x) <==> b.contains(x) by {
        assert(a.to_set().contains(x) == a.contains(x));
        assert(b.to_set().contains(x) == b.contains(x));
    }
    lemma_croissante_unique(a, b, avant);
}

/// How a sequence stands to another.
#[derive(Clone, Copy, Debug, PartialEq, Eq, Structural)]
pub enum Rang {
    Avant,
    Egal,
    Apres,
}

/// How `a` stands to `b`: before it, equal to it, or after it.
pub fn comparer(a: &Vec<Case>, b: &Vec<Case>) -> (r: Rang)
    ensures
        r == Rang::Avant <==> forme_precede(a@, b@),
        r == Rang::Egal <==> a@ == b@,
        r == Rang::Apres <==> forme_precede(b@, a@),
{
    if a.len() < b.len() {
        return Rang::Avant;
    }
    if b.len() < a.len() {
        return Rang::Apres;
    }
    let mut k: usize = 0;
    while k < a.len()
        invariant
            a.len() == b.len(),
            k <= a.len(),
            forall|m: int| 0 <= m < k ==> a@[m] == b@[m],
        decreases a.len() - k,
    {
        if avant(a[k], b[k]) {
            proof {
                assert(ecart(a@, b@, k as int));
            }
            return Rang::Avant;
        }
        if avant(b[k], a[k]) {
            proof {
                assert(ecart(b@, a@, k as int));
            }
            return Rang::Apres;
        }
        k += 1;
    }
    proof {
        assert(a@ =~= b@);
    }
    Rang::Egal
}

/// Adds `f` to the set of sequences listed in `l`, keeping the listing sorted.
pub fn ajouter_forme(l: &mut Vec<Vec<Case>>, f: Vec<Case>)
    requires
        liste_triee(vues(old(l)@)),
    ensures
        liste_triee(vues(final(l)@)),
        vues(final(l)@).to_set() == vues(old(l)@).to_set().insert(f@),
        vues(old(l)@).contains(f@) ==> vues(final(l)@) == vues(old(l)@),
        !vues(old(l)@).contains(f@) ==> final(l)@.len() == old(l)@.len() + 1,
{
    let ghost avant_l = vues(l@);
    let mut k: usize = 0;
    let mut rang: Rang = Rang::Apres;
    while k < l.len()
        invariant_except_break
            rang == Rang::Apres,
        invariant
            k <= l.len(),
            l@ == old(l)@,
            forall|m: int| 0 <= m < k ==> forme_precede(#[trigger] vues(l@)[m], f@),
        ensures
            k <= l.len(),
            l@ == old(l)@,
            forall|m: int| 0 <= m < k ==> forme_precede(#[trigger] vues(l@)[m], f@),
            k < l.len() ==> (rang == Rang::Egal && l@[k as int]@ == f@) || (rang == Rang::Apres
                && forme_precede(f@, l@[k as int]@)),
            k == l.len() ==> rang == Rang::Apres,
        decreases l.len() - k,
    {
        let r: Rang = comparer(&l[k], &f);
        match r {
            Rang::Avant => {
                k += 1;
            },
            Rang::Egal => {
                rang = Rang::Egal;
                break ;
            },
            Rang::Apres => {
                break ;
            },
        }
    }
    match rang {
        Rang::Egal => {
            proof {
                assert(avant_l[k as int] == f@);
            }
        },
        _ => {
            proof {
                let r = avant_l.insert(k as int, f@);
                lemma_ensemble_insert(avant_l, k as int, f@);
                assert forall|m: int| 0 <= m < avant_l.len() implies f@ != avant_l[m] by {
                    if m < k {
                        lemma_forme_precede_asymetrique(avant_l[m], f@);
                    } else {
                        if m > k {
                            lemma_forme_precede_transitive(f@, avant_l[k as int], avant_l[m]);
                        }
                        lemma_forme_precede_asymetrique(f@, avant_l[m]);
                    }
                }
                assert forall|x: int, y: int| 0 <= x < y < r.len() implies forme_precede(
                    #[trigger] r[x],
                    #[trigger] r[y],
                ) by {
                    if y < k {
                        assert(forme_precede(avant_l[x], avant_l[y]));
                    } else if y == k {
                        assert(forme_precede(avant_l[x], f@));
                    } else if x < k {
                        assert(forme_precede(avant_l[x], avant_l[y - 1]));
                    } else if x == k {
                        if y - 1 > k {
                            lemma_forme_precede_transitive(
                                f@,
                                avant_l[k as int],
                                avant_l[y - 1],
                            );
                        }
                    } else {
                        assert(forme_precede(avant_l[x - 1], avant_l[y - 1]));
                    }
                }
            }
            l.insert(k, f);
            proof {
                assert(vues(l@) =~= avant_l.insert(k as int, f@));
            }
        },
    }
}

/// Of two sequences, one comes before the other unless they are the same.
pub proof fn lemma_ordre_total(a: Seq<Case>, b: Seq<Case>)
    ensures
        a == b || forme_precede(a, b) || forme_precede(b, a),
{
    if a.len() == b.len() {
        lemma_premier_ecart(a, b, 0);
    }
}

/// Two sequences of the same length that are the same before place `k` are the same,
/// or differ first at some place from `k` on.
proof fn lemma_premier_ecart(a: Seq<Case>, b: Seq<Case>, k: int)
    requires
        a.len() == b.len(),
        0 <= k <= a.len(),
        forall|m: int| 0 <= m < k ==> a[m] == b[m],
    ensures
        a == b || forme_precede(a, b) || forme_precede(b, a),
    decreases a.len() - k,
{
    if k < a.len() {
        if a[k] == b[k] {
            lemma_premier_ecart(a, b, k + 1);
        } else if precede(a[k], b[k]) {
            assert(ecart(a, b, k));
        } else {
            assert(ecart(b, a, k));
        }
    }
}

/// A sorted listing with one more sequence: the sorted listing of the sequences of `l`
/// and `f`.
pub proof fn lemma_inserer_forme(l: Seq<Seq<Case>>, f: Seq<Case>) -> (r: Seq<Seq<Case>>)
    requires
        liste_triee(l),
    ensures
        liste_triee(r),
        r.to_set() == l.to_set().insert(f),
    decreases l.len(),
{
    if l.len() == 0 {
        let r = seq![f];
        assert(r[0] == f);
        r
    } else if l.last() == f {
        l
    } else if forme_precede(l.last(), f) {
        let r = l.push(f);
        assert forall|x: int, y: int| 0 <= x < y < r.len() implies forme_precede(
            #[trigger] r[x],
            #[trigger] r[y],
        ) by {
            if y == l.len() && x < l.len() - 1 {
                lemma_forme_precede_transitive(l[x], l.last(), f);
            }
        }
        lemma_ensemble_insert(l, l.len() as int, f);
        assert(r =~= l.insert(l.len() as int, f));
        r
    } else {
        lemma_ordre_total(l.last(), f);
        let debut = l.drop_last();
        let d = lemma_inserer_forme(debut, f);
        let r = d.push(l.last());
        assert forall|x: int| 0 <= x < d.len() implies forme_precede(#[trigger] d[x], l.last()) by {
            assert(d.contains(d[x]));
            assert(d.to_set().contains(d[x]));
            if d[x] != f {
                assert(debut.to_set().contains(d[x]));
                assert(debut.contains(d[x]));
                let k = choose|k: int| 0 <= k < debut.len() && debut[k] == d[x];
                assert(forme_precede(l[k], l.last()));
            }
        }
        lemma_ensemble_insert(d, d.len() as int, l.last());
        assert(r =~= d.insert(d.len() as int, l.last()));
        assert(l =~= debut.insert(debut.len() as int, l.last()));
        r
    }
}

} // verus!
