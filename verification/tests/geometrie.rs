use kurotto::grille::Grille;
use kurotto::ordre::{ajouter_case, ajouter_forme, avant, comparer, contient, copie, Rang};

#[test]
fn les_voisins_du_centre() {
    let g = Grille::new(3);
    assert_eq!(g.voisins(1, 1), vec![(0, 1), (1, 0), (2, 1), (1, 2)]);
}

#[test]
fn les_voisins_des_coins_et_des_bords() {
    let g = Grille::new(3);
    assert_eq!(g.voisins(0, 0), vec![(1, 0), (0, 1)]);
    assert_eq!(g.voisins(2, 0), vec![(1, 0), (2, 1)]);
    assert_eq!(g.voisins(0, 2), vec![(0, 1), (1, 2)]);
    assert_eq!(g.voisins(2, 2), vec![(1, 2), (2, 1)]);
    assert_eq!(g.voisins(1, 0), vec![(0, 0), (2, 0), (1, 1)]);
    assert_eq!(g.voisins(0, 1), vec![(0, 0), (1, 1), (0, 2)]);
}

#[test]
fn la_seule_case_n_a_pas_de_voisin() {
    let g = Grille::new(1);
    assert_eq!(g.voisins(0, 0), Vec::<(u8, u8)>::new());
}

#[test]
fn les_voisins_restent_dans_la_grille() {
    let g = Grille::new(255);
    assert_eq!(g.voisins(254, 254), vec![(253, 254), (254, 253)]);
    assert_eq!(g.voisins(255, 10), vec![(254, 10)]);
    assert_eq!(g.voisins(10, 255), vec![(10, 254)]);
    assert_eq!(g.voisins(255, 255), Vec::<(u8, u8)>::new());
    let vide = Grille::new(0);
    assert_eq!(vide.voisins(0, 0), Vec::<(u8, u8)>::new());
}

#[test]
fn l_ordre_des_cases_suit_les_lignes() {
    assert!(avant((1, 0), (0, 1)));
    assert!(avant((0, 1), (1, 1)));
    assert!(!avant((1, 1), (1, 1)));
    assert!(!avant((0, 1), (1, 0)));
}

#[test]
fn ajouter_une_case_garde_l_ecriture_canonique() {
    let mut s: Vec<(u8, u8)> = Vec::new();
    ajouter_case(&mut s, (1, 1));
    ajouter_case(&mut s, (0, 0));
    ajouter_case(&mut s, (0, 2));
    ajouter_case(&mut s, (2, 0));
    ajouter_case(&mut s, (1, 1));
    assert_eq!(s, vec![(0, 0), (2, 0), (1, 1), (0, 2)]);
    assert!(contient(&s, (2, 0)));
    assert!(!contient(&s, (0, 1)));
    assert_eq!(copie(&s), s);
}

#[test]
fn comparer_deux_formes() {
    let a = vec![(0, 0), (1, 0)];
    let b = vec![(0, 0), (0, 1)];
    let c = vec![(0, 0), (1, 0), (0, 1)];
    assert_eq!(comparer(&a, &b), Rang::Avant);
    assert_eq!(comparer(&b, &a), Rang::Apres);
    assert_eq!(comparer(&a, &a), Rang::Egal);
    assert_eq!(comparer(&b, &c), Rang::Avant);
    assert_eq!(comparer(&c, &a), Rang::Apres);
}

#[test]
fn ajouter_une_forme_garde_la_liste_triee_et_sans_double() {
    let mut l: Vec<Vec<(u8, u8)>> = Vec::new();
    ajouter_forme(&mut l, vec![(0, 0), (0, 1)]);
    ajouter_forme(&mut l, vec![(0, 0), (1, 0)]);
    ajouter_forme(&mut l, vec![(0, 0), (0, 1)]);
    ajouter_forme(&mut l, vec![(1, 0), (1, 1)]);
    assert_eq!(
        l,
        vec![vec![(0, 0), (1, 0)], vec![(0, 0), (0, 1)], vec![(1, 0), (1, 1)]]
    );
}
