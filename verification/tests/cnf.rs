use kurotto::cnf::{
    analyser, ecrire_clause, ecrire_entier, ecrire_nombre, exporter, lire_clause, lire_entier,
    lire_nombre,
};
use kurotto::erreur::Erreur;
use kurotto::formule::aplatir;
use kurotto::grille::Grille;

fn octets(s: &str) -> Vec<u8> {
    s.as_bytes().to_vec()
}

#[test]
fn le_nombre_de_variables() {
    assert_eq!(Grille::new(0).nb_variables(), 0);
    assert_eq!(Grille::new(1).nb_variables(), 3);
    assert_eq!(Grille::new(2).nb_variables(), 16);
    assert_eq!(Grille::new(3).nb_variables(), 45);
    assert_eq!(Grille::new(255).nb_variables(), 255 * 255 * 257);
}

#[test]
fn le_plus_grand_litteral_est_le_nombre_de_variables() {
    for taille in 1u8..=9 {
        let g = Grille::new(taille);
        let dernier = g.contrainte_to_litt(taille - 1, taille - 1, taille as i8 - 1);
        assert_eq!(dernier, Ok(g.nb_variables() as i32));
    }
}

#[test]
fn ecrire_un_nombre() {
    let mut s = octets("x");
    ecrire_nombre(&mut s, 0);
    ecrire_nombre(&mut s, 7);
    ecrire_nombre(&mut s, 10);
    ecrire_nombre(&mut s, 9075);
    ecrire_nombre(&mut s, u64::MAX);
    assert_eq!(s, octets("x0710907518446744073709551615"));
}

#[test]
fn ecrire_un_entier() {
    let mut s = Vec::new();
    ecrire_entier(&mut s, -1);
    ecrire_entier(&mut s, 0);
    ecrire_entier(&mut s, 42);
    ecrire_entier(&mut s, i32::MIN);
    ecrire_entier(&mut s, i32::MAX);
    assert_eq!(s, octets("-1042-21474836482147483647"));
}

#[test]
fn ecrire_une_clause() {
    let mut s = Vec::new();
    ecrire_clause(&mut s, &vec![2, -1, -3, -4]);
    ecrire_clause(&mut s, &vec![]);
    assert_eq!(s, octets("2 -1 -3 -4 0\n0\n"));
}

#[test]
fn lire_un_nombre() {
    assert_eq!(lire_nombre(&octets("ab120 "), 2), Some((120, 5)));
    assert_eq!(lire_nombre(&octets("0"), 0), Some((0, 1)));
    assert_eq!(lire_nombre(&octets("7x"), 0), Some((7, 1)));
    assert_eq!(
        lire_nombre(&octets("18446744073709551615"), 0),
        Some((u64::MAX, 20))
    );
}

#[test]
fn un_nombre_mal_ecrit_n_est_pas_lu() {
    assert_eq!(lire_nombre(&octets(""), 0), None);
    assert_eq!(lire_nombre(&octets("12"), 2), None);
    assert_eq!(lire_nombre(&octets("x1"), 0), None);
    assert_eq!(lire_nombre(&octets("-1"), 0), None);
    assert_eq!(lire_nombre(&octets("+1"), 0), None);
    assert_eq!(lire_nombre(&octets("01"), 0), None);
    assert_eq!(lire_nombre(&octets("00"), 0), None);
    assert_eq!(lire_nombre(&octets("18446744073709551616"), 0), None);
    assert_eq!(lire_nombre(&octets("99999999999999999999999"), 0), None);
}

#[test]
fn lire_un_entier() {
    assert_eq!(lire_entier(&octets("-13 "), 0), Some((-13, 3)));
    assert_eq!(lire_entier(&octets("13\n"), 0), Some((13, 2)));
    assert_eq!(lire_entier(&octets("0"), 0), Some((0, 1)));
    assert_eq!(lire_entier(&octets("-2147483648"), 0), Some((i32::MIN, 11)));
    assert_eq!(lire_entier(&octets("2147483647"), 0), Some((i32::MAX, 10)));
}

#[test]
fn un_entier_mal_ecrit_n_est_pas_lu() {
    assert_eq!(lire_entier(&octets("-0"), 0), None);
    assert_eq!(lire_entier(&octets("-"), 0), None);
    assert_eq!(lire_entier(&octets("--1"), 0), None);
    assert_eq!(lire_entier(&octets("-01"), 0), None);
    assert_eq!(lire_entier(&octets("2147483648"), 0), None);
    assert_eq!(lire_entier(&octets("-2147483649"), 0), None);
    assert_eq!(lire_entier(&octets(" 1"), 0), None);
}

#[test]
fn lire_une_clause() {
    assert_eq!(
        lire_clause(&octets("2 -1 -3 0\nx"), 0, 3),
        Some((vec![2, -1, -3], 10))
    );
    assert_eq!(lire_clause(&octets("0\n"), 0, 0), Some((vec![], 2)));
}

#[test]
fn une_clause_mal_ecrite_n_est_pas_lue() {
    assert_eq!(lire_clause(&octets("2 -1 -3 0"), 0, 3), None);
    assert_eq!(lire_clause(&octets("2 -1 -3\n"), 0, 3), None);
    assert_eq!(lire_clause(&octets("2  -1 0\n"), 0, 3), None);
    assert_eq!(lire_clause(&octets("2 -1 0 \n"), 0, 3), None);
    assert_eq!(lire_clause(&octets("2 0 1 0\n"), 0, 3), None);
    assert_eq!(lire_clause(&octets("4 0\n"), 0, 3), None);
    assert_eq!(lire_clause(&octets("-4 0\n"), 0, 3), None);
    assert_eq!(lire_clause(&octets("1 0\n"), 0, 0), None);
}

#[test]
fn le_texte_d_une_formule() {
    let clauses = vec![vec![1, -2], vec![3], vec![]];
    assert_eq!(exporter(4, &clauses), octets("p cnf 4 3\n1 -2 0\n3 0\n0\n"));
    assert_eq!(exporter(0, &Vec::new()), octets("p cnf 0 0\n"));
}

#[test]
fn ecrire_puis_lire_rend_les_clauses() {
    let clauses = vec![vec![1, -2], vec![3], vec![], vec![-4, 4, 1]];
    let texte = exporter(4, &clauses);
    assert_eq!(analyser(&texte), Some((4, clauses)));
    let vide: Vec<Vec<i32>> = Vec::new();
    assert_eq!(analyser(&exporter(0, &vide)), Some((0, vide)));
    let extremes = vec![vec![i32::MIN, i32::MAX]];
    assert_eq!(
        exporter(u32::MAX, &extremes),
        octets("p cnf 4294967295 1\n-2147483648 2147483647 0\n")
    );
    assert_eq!(analyser(&exporter(u32::MAX, &extremes)), Some((u32::MAX, extremes)));
}

#[test]
fn lire_puis_ecrire_rend_le_texte() {
    let texte = octets("p cnf 16 3\n-13 0\n2 -1 -3 -4 0\n3 -1 -2 -4 0\n");
    let (variables, clauses) = analyser(&texte).unwrap();
    assert_eq!(variables, 16);
    assert_eq!(clauses, vec![vec![-13], vec![2, -1, -3, -4], vec![3, -1, -2, -4]]);
    assert_eq!(exporter(variables, &clauses), texte);
}

#[test]
fn un_texte_mal_forme_n_est_pas_lu() {
    for texte in [
        "",
        "p cnf",
        "p cnf 1 1",
        "p cnf 1 1\n",
        "p cnf 1 1\n1 0",
        "p cnf 1 1\n1 0\n\n",
        "p cnf 1 1\n1 0\n1 0\n",
        "p cnf 1 2\n1 0\n",
        "p cnf 1 1\n2 0\n",
        "p cnf 1 1\n-2 0\n",
        "p cnf 1 1\n1 0 0\n",
        "p cnf 1 1\n 1 0\n",
        "p cnf 01 1\n1 0\n",
        "p cnf 1 01\n1 0\n",
        "p cnf  1 1\n1 0\n",
        "p cnf 1  1\n1 0\n",
        "p cnf 1 1 \n1 0\n",
        "p  cnf 1 1\n1 0\n",
        "P cnf 1 1\n1 0\n",
        "p dnf 1 1\n1 0\n",
        "c a comment\np cnf 1 1\n1 0\n",
        "p cnf 1 1\r\n1 0\r\n",
        "p cnf 1 1\n+1 0\n",
        "p cnf 1 1\n-0 0\n",
        "p cnf 4294967296 0\n",
        "p cnf 1 18446744073709551616\n",
        "p cnf -1 0\n",
        "p cnf 1 -1\n",
    ] {
        assert_eq!(analyser(&octets(texte)), None, "{:?}", texte);
    }
    assert!(analyser(&octets("p cnf 1 1\n1 0\n")).is_some());
    assert!(analyser(&octets("p cnf 4294967295 0\n")).is_some());
}

#[test]
fn aplatir_une_formule() {
    let formule = vec![vec![vec![1], vec![-2, 3]], vec![], vec![vec![], vec![4]]];
    assert_eq!(
        aplatir(&formule),
        vec![vec![1], vec![-2, 3], vec![], vec![4]]
    );
    assert_eq!(aplatir(&Vec::new()), Vec::<Vec<i32>>::new());
}

#[test]
fn le_texte_d_une_grille() {
    let mut g = Grille::new(2);
    g.add_contrainte(0, 0, 1);
    assert_eq!(
        g.to_cnf(),
        Ok(octets("p cnf 16 3\n-13 0\n2 -1 -3 -4 0\n3 -1 -2 -4 0\n"))
    );
    let seule = {
        let mut g = Grille::new(1);
        g.add_contrainte(0, 0, 0);
        g
    };
    assert_eq!(seule.to_cnf(), Ok(octets("p cnf 3 2\n0\n-3 0\n")));
    assert_eq!(Grille::new(3).to_cnf(), Ok(octets("p cnf 45 0\n")));
}

#[test]
fn le_texte_d_une_grille_se_relit() {
    for taille in 1u8..=3 {
        let mut g = Grille::new(taille);
        for j in 0..taille {
            for i in 0..taille {
                for p in -1..(taille as i8) {
                    g.add_contrainte(i, j, p);
                }
            }
        }
        let formule = g.to_formule().unwrap();
        let texte = g.to_cnf().unwrap();
        let (variables, clauses) = analyser(&texte).unwrap();
        assert_eq!(variables, g.nb_variables());
        assert_eq!(clauses, aplatir(&formule));
        for (lue, ecrite) in clauses.iter().zip(aplatir(&formule).iter()) {
            let mut a = lue.clone();
            let mut b = ecrite.clone();
            a.sort();
            b.sort();
            assert_eq!(a, b);
        }
        assert!(clauses
            .iter()
            .all(|c| c.iter().all(|l| *l != 0 && l.unsigned_abs() <= variables)));
    }
}

#[test]
fn une_contrainte_refusee_ne_donne_pas_de_texte() {
    let mut g = Grille::new(2);
    g.add_contrainte(0, 0, 2);
    assert_eq!(g.to_cnf(), Err(Erreur::ValeurInvalide));
    let mut h = Grille::new(2);
    h.add_contrainte(0, 2, 0);
    assert_eq!(h.to_cnf(), Err(Erreur::HorsGrille));
}
