use kurotto::erreur::Erreur;
use kurotto::grille::Grille;

#[test]
fn le_litteral_d_une_case_suit_les_lignes() {
    let g = Grille::new(3);
    assert_eq!(g.to_litt(0, 0), 1);
    assert_eq!(g.to_litt(1, 0), 2);
    assert_eq!(g.to_litt(2, 0), 3);
    assert_eq!(g.to_litt(0, 1), 4);
    assert_eq!(g.to_litt(1, 1), 5);
    assert_eq!(g.to_litt(2, 2), 9);
}

#[test]
fn les_litteraux_des_cases_croissent_ligne_par_ligne() {
    for taille in 1u8..=12 {
        let g = Grille::new(taille);
        let mut attendu: i32 = 1;
        for j in 0..taille {
            for i in 0..taille {
                assert_eq!(g.to_litt(i, j), attendu);
                attendu += 1;
            }
        }
        assert_eq!(attendu - 1, (taille as i32) * (taille as i32));
    }
}

#[test]
fn le_litteral_d_une_contrainte_est_dans_le_bloc_de_sa_valeur() {
    let g = Grille::new(3);
    assert_eq!(g.contrainte_to_litt(0, 0, -1), Ok(10));
    assert_eq!(g.contrainte_to_litt(2, 2, -1), Ok(18));
    assert_eq!(g.contrainte_to_litt(0, 0, 0), Ok(19));
    assert_eq!(g.contrainte_to_litt(1, 1, 1), Ok(32));
    assert_eq!(g.contrainte_to_litt(2, 2, 2), Ok(45));
}

#[test]
fn aucun_numero_n_est_donne_deux_fois() {
    for taille in 1u8..=8 {
        let g = Grille::new(taille);
        let mut vus: Vec<i32> = Vec::new();
        for j in 0..taille {
            for i in 0..taille {
                vus.push(g.to_litt(i, j));
            }
        }
        for p in -1..(taille as i8) {
            for j in 0..taille {
                for i in 0..taille {
                    vus.push(g.contrainte_to_litt(i, j, p).unwrap());
                }
            }
        }
        let total = vus.len();
        assert!(vus.iter().all(|l| *l >= 1));
        vus.sort();
        vus.dedup();
        assert_eq!(vus.len(), total);
        let t = taille as i32;
        assert_eq!(*vus.last().unwrap(), t * t * (t + 2));
    }
}

#[test]
fn la_plus_grande_grille_tient_dans_un_litteral() {
    let g = Grille::new(255);
    assert_eq!(g.to_litt(254, 254), 65025);
    assert_eq!(g.contrainte_to_litt(254, 254, 127), Ok(65025 + 65025 * 129));
    assert_eq!(g.to_litt(255, 255), 65281);
}

#[test]
fn une_valeur_hors_plage_est_refusee() {
    let g = Grille::new(3);
    assert_eq!(g.contrainte_to_litt(0, 0, 3), Err(Erreur::ValeurInvalide));
    assert_eq!(g.contrainte_to_litt(0, 0, -2), Err(Erreur::ValeurInvalide));
    assert_eq!(g.contrainte_to_litt(0, 0, 127), Err(Erreur::ValeurInvalide));
    assert_eq!(g.contrainte_to_litt(0, 0, -128), Err(Erreur::ValeurInvalide));
    assert_eq!(g.contrainte_to_litt(2, 2, 2), Ok(45));
}

#[test]
fn une_case_hors_grille_est_refusee() {
    let g = Grille::new(3);
    assert_eq!(g.contrainte_to_litt(3, 0, 0), Err(Erreur::HorsGrille));
    assert_eq!(g.contrainte_to_litt(0, 3, 0), Err(Erreur::HorsGrille));
    assert_eq!(g.contrainte_to_litt(3, 0, 9), Err(Erreur::HorsGrille));
    let vide = Grille::new(0);
    assert_eq!(vide.contrainte_to_litt(0, 0, -1), Err(Erreur::HorsGrille));
}
