use chem_formula::counts::{accumulate, same_symbol};
use chem_formula::flatten::{flatten_group, flatten_parsed, formula_counts};
use chem_formula::formula::{FormulaError, Molecule, Parsed};
use chem_formula::parser::parse;

fn single(symbol: &str, amount: u32) -> Molecule {
    Molecule::Single(symbol.as_bytes().to_vec(), amount)
}

fn entry(symbol: &str, count: u32) -> (Vec<u8>, u32) {
    (symbol.as_bytes().to_vec(), count)
}

#[test]
fn same_symbol_compares_the_bytes() {
    assert!(same_symbol(b"Na", b"Na"));
    assert!(same_symbol(b"", b""));
    assert!(!same_symbol(b"Na", b"N"));
    assert!(!same_symbol(b"Na", b"Nb"));
    assert!(!same_symbol(b"N", b"O"));
}

#[test]
fn accumulate_appends_a_new_symbol() {
    let mut acc = vec![entry("O", 1)];
    assert_eq!(accumulate(&mut acc, b"H".to_vec(), 2), Ok(()));
    assert_eq!(acc, vec![entry("O", 1), entry("H", 2)]);
}

#[test]
fn accumulate_adds_to_a_known_symbol_in_place() {
    let mut acc = vec![entry("O", 1), entry("H", 2), entry("N", 3)];
    assert_eq!(accumulate(&mut acc, b"H".to_vec(), 5), Ok(()));
    assert_eq!(acc, vec![entry("O", 1), entry("H", 7), entry("N", 3)]);
}

#[test]
fn accumulate_into_an_empty_list() {
    let mut acc = vec![];
    assert_eq!(accumulate(&mut acc, b"Al".to_vec(), 0), Ok(()));
    assert_eq!(acc, vec![entry("Al", 0)]);
}

#[test]
fn accumulate_overflow_leaves_the_list_alone() {
    let mut acc = vec![entry("H", 1), entry("O", u32::MAX)];
    assert_eq!(accumulate(&mut acc, b"O".to_vec(), 1), Err(FormulaError::NumericOverflow));
    assert_eq!(acc, vec![entry("H", 1), entry("O", u32::MAX)]);
    assert_eq!(accumulate(&mut acc, b"O".to_vec(), 0), Ok(()));
    assert_eq!(acc, vec![entry("H", 1), entry("O", u32::MAX)]);
}

#[test]
fn accumulate_twice_is_accumulate_of_the_sum() {
    let mut twice = vec![entry("N", 4), entry("H", 1)];
    accumulate(&mut twice, b"H".to_vec(), 2).unwrap();
    accumulate(&mut twice, b"H".to_vec(), 3).unwrap();
    let mut once = vec![entry("N", 4), entry("H", 1)];
    accumulate(&mut once, b"H".to_vec(), 5).unwrap();
    assert_eq!(twice, once);
    assert_eq!(once, vec![entry("N", 4), entry("H", 6)]);
}

#[test]
fn merging_a_symbol_that_stands_twice() {
    let twice = vec![single("O", 1), single("H", 2), single("H", 3), single("N", 1)];
    let once = vec![single("O", 1), single("H", 5), single("N", 1)];
    assert_eq!(flatten_group(&twice, 1), flatten_group(&once, 1));
    assert_eq!(flatten_group(&once, 1), Ok(vec![entry("O", 1), entry("H", 5), entry("N", 1)]));
}

#[test]
fn flatten_single() {
    assert_eq!(single("O", 4).flatten(), Ok(vec![entry("O", 4)]));
    assert_eq!(single("O", 0).flatten(), Ok(vec![entry("O", 0)]));
}

#[test]
fn flatten_group_multiplies_each_count() {
    let group = Molecule::Group(vec![single("N", 1), single("O", 3)], 2);
    assert_eq!(group.flatten(), Ok(vec![entry("N", 2), entry("O", 6)]));
}

#[test]
fn flatten_nested_groups_compound() {
    let inner = Molecule::Group(vec![single("O", 1), single("H", 2)], 3);
    let outer = Molecule::Group(vec![inner, single("H", 1)], 5);
    assert_eq!(outer.flatten(), Ok(vec![entry("O", 15), entry("H", 35)]));
}

#[test]
fn flatten_two_elements() {
    let (parsed, _) = parse(b"OH").unwrap();
    assert_eq!(parsed.flatten(), Ok(vec![entry("O", 1), entry("H", 1)]));
}

#[test]
fn flatten_one_group() {
    let (parsed, _) = parse(b"(OH)4").unwrap();
    assert_eq!(parsed.flatten(), Ok(vec![entry("O", 4), entry("H", 4)]));
}

#[test]
fn flatten_merges_a_symbol_inside_and_outside_a_group() {
    let (parsed, _) = parse(b"NH2(NO3)2").unwrap();
    assert_eq!(parsed.flatten(), Ok(vec![entry("N", 3), entry("H", 2), entry("O", 6)]));
}

#[test]
fn flatten_several_groups() {
    let (parsed, _) = parse(b"Al(H2O)12(OH)4").unwrap();
    assert_eq!(parsed.flatten(), Ok(vec![entry("Al", 1), entry("H", 28), entry("O", 16)]));
}

#[test]
fn flatten_empty_formula() {
    let (parsed, _) = parse(b"").unwrap();
    assert_eq!(parsed.flatten(), Ok(vec![]));
    assert_eq!(flatten_group(&vec![], 7), Ok(vec![]));
}

#[test]
fn flatten_of_a_parse_outcome() {
    let outcome = parse(b"NH2(NO3)2");
    assert_eq!(flatten_parsed(&outcome), Ok(vec![entry("N", 3), entry("H", 2), entry("O", 6)]));
    let partial = parse(b"H2O(OH");
    assert_eq!(flatten_parsed(&partial), Ok(vec![entry("H", 2), entry("O", 1)]));
}

#[test]
fn flatten_product_overflow() {
    let group = Molecule::Group(vec![single("H", 65536)], 65536);
    assert_eq!(group.flatten(), Err(FormulaError::NumericOverflow));
    let fits = Molecule::Group(vec![single("H", 65535)], 65537);
    assert_eq!(fits.flatten(), Ok(vec![entry("H", 4294967295)]));
}

#[test]
fn flatten_sum_overflow() {
    let parsed = Parsed { molecules: vec![single("H", u32::MAX), single("O", 1), single("H", 1)] };
    assert_eq!(parsed.flatten(), Err(FormulaError::NumericOverflow));
    let fits = Parsed { molecules: vec![single("H", u32::MAX), single("O", 1)] };
    assert_eq!(fits.flatten(), Ok(vec![entry("H", u32::MAX), entry("O", 1)]));
}

#[test]
fn flatten_overflow_inside_a_group_taken_zero_times() {
    let inner = Molecule::Group(vec![single("H", 4000000000), single("H", 4000000000)], 1);
    let outer = Molecule::Group(vec![inner], 0);
    assert_eq!(outer.flatten(), Err(FormulaError::NumericOverflow));
    let flat = Molecule::Group(vec![single("H", 4000000000), single("H", 4000000000)], 0);
    assert_eq!(flat.flatten(), Ok(vec![entry("H", 0)]));
}

#[test]
fn counts_are_conserved() {
    let counts = formula_counts(b"Al(H2O)12(OH)4").unwrap();
    let sum: u32 = counts.iter().map(|pair| pair.1).sum();
    assert_eq!(sum, 1 + (2 + 1) * 12 + (1 + 1) * 4);
    let nested = formula_counts(b"((OH)2Na3)5H").unwrap();
    let sum: u32 = nested.iter().map(|pair| pair.1).sum();
    assert_eq!(sum, (1 * 2 + 1 * 2 + 3) * 5 + 1);
}

#[test]
fn first_symbol_is_the_first_leaf() {
    let counts = formula_counts(b"((Na2O)3H)2NaCl").unwrap();
    assert_eq!(counts[0].0, b"Na".to_vec());
    assert_eq!(counts, vec![entry("Na", 13), entry("O", 6), entry("H", 2), entry("Cl", 1)]);
}

#[test]
fn no_symbol_stands_twice() {
    let counts = formula_counts(b"OHOHOH(OH)2").unwrap();
    assert_eq!(counts, vec![entry("O", 5), entry("H", 5)]);
}

#[test]
fn formula_counts_is_repeatable() {
    let first = formula_counts(b"NH2(NO3)2");
    let second = formula_counts(b"NH2(NO3)2");
    assert_eq!(first, second);
    assert_eq!(first, Ok(vec![entry("N", 3), entry("H", 2), entry("O", 6)]));
}

#[test]
fn formula_counts_reports_overflow() {
    assert_eq!(formula_counts(b"H4294967296"), Err(FormulaError::NumericOverflow));
    assert_eq!(formula_counts(b"(H65536)65536"), Err(FormulaError::NumericOverflow));
    assert_eq!(formula_counts(b"H4294967295H"), Err(FormulaError::NumericOverflow));
}

#[test]
fn formula_counts_reduces_what_was_read() {
    assert_eq!(formula_counts(b"(OH"), Ok(vec![]));
    assert_eq!(formula_counts(b""), Ok(vec![]));
    assert_eq!(formula_counts(b"Mg(OH)2 "), Ok(vec![entry("Mg", 1), entry("O", 2), entry("H", 2)]));
}

#[test]
fn clone_copies_the_whole_tree() {
    let (parsed, _) = parse(b"Al(H2(O)3)12(OH)4").unwrap();
    let copy = parsed.clone();
    assert_eq!(copy, parsed);
    assert_eq!(copy.flatten(), parsed.flatten());
    let node = Molecule::Group(vec![single("N", 1), Molecule::Group(vec![single("O", 3)], 2)], 7);
    assert_eq!(node.clone(), node);
    assert_eq!(single("Na", 9).clone(), single("Na", 9));
}
