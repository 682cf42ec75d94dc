//! Compiles the clues of a Kurotto grid into a formula in conjunctive normal form.
//!
//! A grid is a square of cells, each marked or unmarked. A clue `(column, row, value)`
//! says what surrounds one cell. The compiler numbers one boolean variable per cell and
//! one per possible clue, lists the connected shapes that a clue allows, and writes one
//! group of clauses per clue, in the order in which the clues were added.
//!
//! - `grille`: the grid, its clues, the literals and the neighbours of a cell;
//! - `geometrie`, `litteraux`, `erreur`: cells, the numbering of variables, unfit clues;
//! - `ordre`: the canonical writing of sets of cells and of sets of shapes;
//! - `croissance`, `connexite`, `formes`: what a shape is and how the shapes are listed;
//! - `bordure`: the cells around a shape;
//! - `formule`: the groups of clauses and what they say;
//! - `cnf`: the text of a formula, written and read back.

pub mod bordure;
pub mod cnf;
pub mod connexite;
pub mod croissance;
pub mod erreur;
pub mod formes;
pub mod formule;
pub mod geometrie;
pub mod grille;
pub mod litteraux;
pub mod ordre;
