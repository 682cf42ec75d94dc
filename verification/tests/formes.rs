use kurotto::grille::Grille;

#[test]
fn quatre_formes_de_deux_cases_autour_du_centre() {
    let g = Grille::new(3);
    let formes = g.formes(1, 1, 1);
    assert_eq!(formes.len(), 4);
    assert_eq!(
        formes,
        vec![
            vec![(1, 0), (1, 1)],
            vec![(0, 1), (1, 1)],
            vec![(1, 1), (2, 1)],
            vec![(1, 1), (1, 2)],
        ]
    );
}

#[test]
fn deux_formes_de_deux_cases_dans_un_coin() {
    let g = Grille::new(2);
    assert_eq!(
        g.formes(0, 0, 1),
        vec![vec![(0, 0), (1, 0)], vec![(0, 0), (0, 1)]]
    );
}

#[test]
fn la_forme_d_une_case_est_l_ancre_seule() {
    let g = Grille::new(3);
    assert_eq!(g.formes(2, 1, 0), vec![vec![(2, 1)]]);
}

#[test]
fn trois_formes_de_trois_cases_dans_la_grille_de_deux() {
    let g = Grille::new(2);
    assert_eq!(
        g.formes(0, 0, 2),
        vec![
            vec![(0, 0), (1, 0), (0, 1)],
            vec![(0, 0), (1, 0), (1, 1)],
            vec![(0, 0), (0, 1), (1, 1)],
        ]
    );
}

#[test]
fn la_grille_entiere_est_la_seule_forme_de_sa_taille() {
    let g = Grille::new(2);
    assert_eq!(
        g.formes(1, 1, 3),
        vec![vec![(0, 0), (1, 0), (0, 1), (1, 1)]]
    );
}

#[test]
fn aucune_forme_quand_la_place_manque() {
    let g = Grille::new(2);
    assert_eq!(g.formes(0, 0, 4), Vec::<Vec<(u8, u8)>>::new());
    assert_eq!(g.formes(0, 0, 50), Vec::<Vec<(u8, u8)>>::new());
    let seule = Grille::new(1);
    assert_eq!(seule.formes(0, 0, 1), Vec::<Vec<(u8, u8)>>::new());
}

#[test]
fn aucune_forme_autour_d_une_case_hors_grille() {
    let g = Grille::new(3);
    assert_eq!(g.formes(3, 0, 0), Vec::<Vec<(u8, u8)>>::new());
    assert_eq!(g.formes(0, 3, 1), Vec::<Vec<(u8, u8)>>::new());
    assert_eq!(Grille::new(0).formes(0, 0, 0), Vec::<Vec<(u8, u8)>>::new());
}

#[test]
fn aucune_forme_pour_une_valeur_negative() {
    let g = Grille::new(3);
    assert_eq!(g.formes(1, 1, -1), Vec::<Vec<(u8, u8)>>::new());
    assert_eq!(g.formes(1, 1, -128), Vec::<Vec<(u8, u8)>>::new());
}

#[test]
fn chaque_forme_est_ecrite_une_fois_en_ordre() {
    let g = Grille::new(4);
    let formes = g.formes(1, 1, 3);
    for f in formes.iter() {
        assert_eq!(f.len(), 4);
        assert!(f.contains(&(1, 1)));
        for k in 1..f.len() {
            let (a, b) = (f[k - 1], f[k]);
            assert!(a.1 < b.1 || (a.1 == b.1 && a.0 < b.0));
        }
    }
    let mut uniques = formes.clone();
    uniques.sort();
    uniques.dedup();
    assert_eq!(uniques.len(), formes.len());
    assert_eq!(formes.len(), 50);
}

#[test]
fn le_nombre_de_formes_connexes() {
    // counted apart, by listing every set of cells and keeping the connected ones
    assert_eq!(Grille::new(5).formes(2, 2, 3).len(), 72);
    assert_eq!(Grille::new(4).formes(0, 0, 4).len(), 35);
    assert_eq!(Grille::new(3).formes(1, 1, 2).len(), 14);
}

#[test]
fn les_formes_de_trois_cases_autour_du_centre() {
    let g = Grille::new(3);
    // 2 lines through the centre, 4 corners turning at the centre, and 8 corners that
    // start at the centre and turn at one of its 4 neighbours
    let formes = g.formes(1, 1, 2);
    assert_eq!(formes.len(), 2 + 4 + 8);
    assert_eq!(formes[0], vec![(0, 0), (1, 0), (1, 1)]);
    assert_eq!(formes[13], vec![(1, 1), (1, 2), (2, 2)]);
}

#[test]
fn grandir_depuis_une_liste_de_formes() {
    let g = Grille::new(3);
    let depart = vec![vec![(0, 0)], vec![(2, 2)]];
    assert_eq!(g.formes_rec(depart.clone(), 0), depart);
    assert_eq!(
        g.formes_rec(depart, 1),
        vec![
            vec![(0, 0), (1, 0)],
            vec![(0, 0), (0, 1)],
            vec![(2, 1), (2, 2)],
            vec![(1, 2), (2, 2)],
        ]
    );
}

#[test]
fn la_bordure_d_une_case_au_centre() {
    let g = Grille::new(3);
    assert_eq!(
        g.bordure(&vec![(1, 1)]),
        vec![(1, 0), (0, 1), (2, 1), (1, 2)]
    );
}

#[test]
fn la_bordure_d_une_forme_dans_un_coin() {
    let g = Grille::new(3);
    assert_eq!(
        g.bordure(&vec![(0, 0), (1, 0)]),
        vec![(2, 0), (0, 1), (1, 1)]
    );
}

#[test]
fn la_bordure_de_la_grille_entiere_est_vide() {
    for taille in 0u8..=5 {
        let g = Grille::new(taille);
        let mut tout: Vec<(u8, u8)> = Vec::new();
        for j in 0..taille {
            for i in 0..taille {
                tout.push((i, j));
            }
        }
        assert_eq!(g.bordure(&tout), Vec::<(u8, u8)>::new());
    }
}

#[test]
fn la_bordure_ne_depend_pas_de_l_ordre_des_cases() {
    let g = Grille::new(3);
    assert_eq!(
        g.bordure(&vec![(1, 0), (0, 0), (1, 0)]),
        vec![(2, 0), (0, 1), (1, 1)]
    );
    assert_eq!(g.bordure(&Vec::new()), Vec::<(u8, u8)>::new());
}

/// Every connected set of `n` cells of the grid of side `t` that holds `ancre`, found by
/// going through all the sets of cells; each written row by row, and the sets in
/// dictionary order.
fn formes_par_enumeration(t: u8, ancre: (u8, u8), n: usize) -> Vec<Vec<(u8, u8)>> {
    let cases: Vec<(u8, u8)> = (0..t).flat_map(|j| (0..t).map(move |i| (i, j))).collect();
    let mut trouvees: Vec<Vec<(u8, u8)>> = Vec::new();
    for masque in 0u32..(1u32 << cases.len()) {
        if masque.count_ones() as usize != n {
            continue;
        }
        let forme: Vec<(u8, u8)> = (0..cases.len())
            .filter(|k| masque & (1 << k) != 0)
            .map(|k| cases[k])
            .collect();
        if !forme.contains(&ancre) {
            continue;
        }
        let mut vues = vec![ancre];
        let mut pile = vec![ancre];
        while let Some((i, j)) = pile.pop() {
            for c in forme.iter() {
                let touche = (c.0 == i && c.1.abs_diff(j) == 1)
                    || (c.1 == j && c.0.abs_diff(i) == 1);
                if touche && !vues.contains(c) {
                    vues.push(*c);
                    pile.push(*c);
                }
            }
        }
        if vues.len() == forme.len() {
            trouvees.push(forme);
        }
    }
    trouvees.sort_by_key(|f| f.iter().map(|c| (c.1, c.0)).collect::<Vec<(u8, u8)>>());
    trouvees
}

#[test]
fn les_formes_sont_les_ensembles_connexes() {
    for t in 1u8..=4 {
        let g = Grille::new(t);
        for j in 0..t {
            for i in 0..t {
                for p in 0i8..=5 {
                    assert_eq!(
                        g.formes(i, j, p),
                        formes_par_enumeration(t, (i, j), p as usize + 1),
                        "side {}, cell ({}, {}), value {}",
                        t,
                        i,
                        j,
                        p
                    );
                }
            }
        }
    }
}

#[test]
fn la_bordure_est_ce_qui_touche_sans_appartenir() {
    let t: u8 = 4;
    let g = Grille::new(t);
    for forme in g.formes(1, 2, 3) {
        let mut attendue: Vec<(u8, u8)> = Vec::new();
        for j in 0..t {
            for i in 0..t {
                let touche = forme.iter().any(|c| {
                    (c.0 == i && c.1.abs_diff(j) == 1) || (c.1 == j && c.0.abs_diff(i) == 1)
                });
                if touche && !forme.contains(&(i, j)) {
                    attendue.push((i, j));
                }
            }
        }
        assert_eq!(g.bordure(&forme), attendue);
    }
}
