use kurotto::erreur::Erreur;
use kurotto::grille::Grille;

#[test]
fn une_grille_sans_contrainte_a_une_formule_vide() {
    let g = Grille::new(3);
    assert_eq!(g.to_formule(), Ok(Vec::new()));
}

#[test]
fn une_contrainte_de_taille_deux_dans_un_coin() {
    let mut g = Grille::new(2);
    g.add_contrainte(0, 0, 1);
    assert_eq!(g.formes(0, 0, 1).len(), 2);
    let formule = g.to_formule().unwrap();
    assert_eq!(formule.len(), 1);
    assert_eq!(formule[0].len(), 3);
    assert_eq!(
        formule,
        vec![vec![vec![-13], vec![2, -1, -3, -4], vec![3, -1, -2, -4]]]
    );
}

#[test]
fn la_clause_d_une_forme() {
    let g = Grille::new(3);
    // shape: the centre and the cell above; border: all that touches them
    assert_eq!(
        g.clause_de_forme(1, 1, &vec![(1, 0), (1, 1)]),
        vec![2, -5, -1, -3, -4, -6, -8]
    );
    // the anchor need not come first in the shape
    assert_eq!(
        g.clause_de_forme(1, 1, &vec![(0, 0), (1, 0), (1, 1)]),
        vec![1, 2, -5, -3, -4, -6, -8]
    );
}

#[test]
fn sans_contrainte_active() {
    let mut g = Grille::new(3);
    g.add_contrainte(1, 1, -1);
    assert_eq!(g.to_formule(), Ok(vec![vec![vec![-5], vec![-14]]]));
    assert_eq!(g.groupe(1, 1, -1), Ok(vec![vec![-5], vec![-14]]));
}

#[test]
fn une_case_isolee() {
    let mut g = Grille::new(3);
    g.add_contrainte(1, 1, 0);
    assert_eq!(g.to_formule(), Ok(vec![vec![vec![4, 2, 6, 8], vec![-23]]]));
    assert_eq!(g.groupe(0, 0, 0), Ok(vec![vec![2, 4], vec![-19]]));
}

#[test]
fn la_grille_d_une_case_donne_une_disjonction_vide() {
    let mut g = Grille::new(1);
    g.add_contrainte(0, 0, 0);
    assert_eq!(g.voisins(0, 0).len(), 0);
    // an empty clause is false: the formula then has no model
    assert_eq!(g.to_formule(), Ok(vec![vec![vec![], vec![-3]]]));
}

#[test]
fn la_grille_d_une_case_sans_contrainte_active() {
    let mut g = Grille::new(1);
    g.add_contrainte(0, 0, -1);
    assert_eq!(g.to_formule(), Ok(vec![vec![vec![-1], vec![-2]]]));
}

#[test]
fn compiler_deux_fois_donne_la_meme_formule() {
    let mut g = Grille::new(3);
    for j in 0..3u8 {
        for i in 0..3u8 {
            for p in -1..3i8 {
                g.add_contrainte(i, j, p);
            }
        }
    }
    let a = g.to_formule();
    let b = g.to_formule();
    assert!(a.is_ok());
    assert_eq!(a, b);

    let mut h = Grille::new(3);
    for j in 0..3u8 {
        for i in 0..3u8 {
            for p in -1..3i8 {
                h.add_contrainte(i, j, p);
            }
        }
    }
    assert_eq!(h.to_formule(), a);
}

#[test]
fn un_groupe_par_contrainte_dans_l_ordre() {
    let mut g = Grille::new(2);
    let contraintes = [(0u8, 0u8, 1i8), (1, 1, -1), (0, 0, 1), (1, 0, 0), (0, 1, 1)];
    for (i, j, p) in contraintes.iter() {
        g.add_contrainte(*i, *j, *p);
    }
    let formule = g.to_formule().unwrap();
    assert_eq!(formule.len(), contraintes.len());
    for (k, (i, j, p)) in contraintes.iter().enumerate() {
        assert_eq!(Ok(formule[k].clone()), g.groupe(*i, *j, *p));
    }
    // a clue given twice gives its group twice
    assert_eq!(formule[0], formule[2]);
    assert_eq!(formule[1], vec![vec![-4], vec![-8]]);
    assert_eq!(formule[3], vec![vec![1, 4], vec![-10]]);
}

#[test]
fn toutes_les_contraintes_de_la_grille_de_deux() {
    let taille: u8 = 2;
    let mut grille = Grille::new(taille);
    for i in 0..taille {
        for j in 0..taille {
            for p in -1..(taille as i8) {
                grille.add_contrainte(i, j, p);
            }
        }
    }
    let formule = grille.to_formule().unwrap();
    assert_eq!(formule.len(), 12);
    assert_eq!(formule[0], vec![vec![-1], vec![-5]]);
    assert_eq!(formule[1], vec![vec![2, 3], vec![-9]]);
    assert_eq!(
        formule[2],
        vec![vec![-13], vec![2, -1, -3, -4], vec![3, -1, -2, -4]]
    );
    for groupe in formule.iter() {
        for clause in groupe.iter() {
            assert!(clause.iter().all(|l| *l != 0 && l.abs() <= 16));
        }
    }
}

#[test]
fn une_valeur_trop_grande_arrete_la_compilation() {
    let mut g = Grille::new(2);
    g.add_contrainte(0, 0, 1);
    g.add_contrainte(0, 0, 2);
    assert_eq!(g.to_formule(), Err(Erreur::ValeurInvalide));
    assert_eq!(g.groupe(0, 0, 2), Err(Erreur::ValeurInvalide));
}

#[test]
fn une_valeur_trop_petite_arrete_la_compilation() {
    let mut g = Grille::new(2);
    g.add_contrainte(1, 1, -2);
    assert_eq!(g.to_formule(), Err(Erreur::ValeurInvalide));
}

#[test]
fn une_case_hors_grille_arrete_la_compilation() {
    let mut g = Grille::new(2);
    g.add_contrainte(2, 0, 0);
    assert_eq!(g.to_formule(), Err(Erreur::HorsGrille));
    let mut h = Grille::new(2);
    h.add_contrainte(0, 2, 7);
    assert_eq!(h.to_formule(), Err(Erreur::HorsGrille));
}

#[test]
fn la_premiere_contrainte_refusee_donne_l_erreur() {
    let mut g = Grille::new(2);
    g.add_contrainte(0, 0, 0);
    g.add_contrainte(0, 0, 5);
    g.add_contrainte(9, 9, 0);
    assert_eq!(g.to_formule(), Err(Erreur::ValeurInvalide));
    let mut h = Grille::new(2);
    h.add_contrainte(9, 9, 0);
    h.add_contrainte(0, 0, 5);
    assert_eq!(h.to_formule(), Err(Erreur::HorsGrille));
}

#[test]
fn la_grille_vide_refuse_toute_contrainte() {
    let mut g = Grille::new(0);
    assert_eq!(g.to_formule(), Ok(Vec::new()));
    g.add_contrainte(0, 0, -1);
    assert_eq!(g.to_formule(), Err(Erreur::HorsGrille));
}

#[test]
fn les_clauses_d_une_contrainte_de_taille() {
    let t: u8 = 3;
    let g = Grille::new(t);
    let (i, j, p) = (2u8, 1u8, 2i8);
    let groupe = g.groupe(i, j, p).unwrap();
    let formes = g.formes(i, j, p);
    assert_eq!(groupe.len(), 1 + formes.len());
    assert_eq!(groupe[0], vec![-g.contrainte_to_litt(i, j, p).unwrap()]);
    for (forme, clause) in formes.iter().zip(groupe[1..].iter()) {
        let mut attendue: Vec<i32> = forme
            .iter()
            .filter(|c| **c != (i, j))
            .map(|c| g.to_litt(c.0, c.1))
            .collect();
        assert_eq!(attendue.len(), p as usize);
        attendue.push(-g.to_litt(i, j));
        for b in g.bordure(forme) {
            attendue.push(-g.to_litt(b.0, b.1));
        }
        assert_eq!(*clause, attendue);
    }
}
