use chem_formula::formula::{FormulaError, Molecule, Parsed};
use chem_formula::parser::{parse, parse_amount, parse_element, parse_molecule};

fn single(symbol: &str, amount: u32) -> Molecule {
    Molecule::Single(symbol.as_bytes().to_vec(), amount)
}

#[test]
fn element_is_one_upper_case_letter_and_the_lower_case_run() {
    let (element, rest) = parse_element(b"Na2O").unwrap();
    assert_eq!(element, b"Na".to_vec());
    assert_eq!(rest, b"2O");
}

#[test]
fn element_stops_before_the_next_upper_case_letter() {
    let (element, rest) = parse_element(b"OH").unwrap();
    assert_eq!(element, b"O".to_vec());
    assert_eq!(rest, b"H");
}

#[test]
fn element_takes_a_long_lower_case_run() {
    let (element, rest) = parse_element(b"Uuo(").unwrap();
    assert_eq!(element, b"Uuo".to_vec());
    assert_eq!(rest, b"(");
}

#[test]
fn element_needs_an_upper_case_letter_first() {
    assert_eq!(parse_element(b"na"), Err(FormulaError::Syntax { position: 0 }));
    assert_eq!(parse_element(b"2H"), Err(FormulaError::Syntax { position: 0 }));
    assert_eq!(parse_element(b"(H)"), Err(FormulaError::Syntax { position: 0 }));
    assert_eq!(parse_element(b""), Err(FormulaError::Syntax { position: 0 }));
}

#[test]
fn element_rejects_bytes_next_to_the_letters() {
    assert_eq!(parse_element(b"@"), Err(FormulaError::Syntax { position: 0 }));
    assert_eq!(parse_element(b"["), Err(FormulaError::Syntax { position: 0 }));
    let (element, rest) = parse_element(b"Z{").unwrap();
    assert_eq!(element, b"Z".to_vec());
    assert_eq!(rest, b"{");
    let (element, rest) = parse_element(b"Az`").unwrap();
    assert_eq!(element, b"Az".to_vec());
    assert_eq!(rest, b"`");
}

#[test]
fn amount_without_digits_is_one() {
    assert_eq!(parse_amount(b""), Ok((1, &b""[..])));
    assert_eq!(parse_amount(b"O2"), Ok((1, &b"O2"[..])));
}

#[test]
fn amount_reads_every_digit_in_base_ten() {
    assert_eq!(parse_amount(b"12(OH)4"), Ok((12, &b"(OH)4"[..])));
    assert_eq!(parse_amount(b"907"), Ok((907, &b""[..])));
    assert_eq!(parse_amount(b"0"), Ok((0, &b""[..])));
}

#[test]
fn amount_accepts_leading_zeros() {
    assert_eq!(parse_amount(b"007H"), Ok((7, &b"H"[..])));
    assert_eq!(parse_amount(b"00000000000000000042"), Ok((42, &b""[..])));
}

#[test]
fn amount_takes_no_sign() {
    assert_eq!(parse_amount(b"-3"), Ok((1, &b"-3"[..])));
    assert_eq!(parse_amount(b"+3"), Ok((1, &b"+3"[..])));
}

#[test]
fn amount_at_the_limit_fits() {
    assert_eq!(parse_amount(b"4294967295"), Ok((4294967295, &b""[..])));
}

#[test]
fn amount_over_the_limit_overflows() {
    assert_eq!(parse_amount(b"4294967296"), Err(FormulaError::NumericOverflow));
    assert_eq!(parse_amount(b"99999999999999999999999"), Err(FormulaError::NumericOverflow));
}

#[test]
fn molecule_single_with_amount() {
    let (molecule, rest) = parse_molecule(b"O4H").unwrap();
    assert_eq!(molecule, single("O", 4));
    assert_eq!(rest, b"H");
}

#[test]
fn molecule_group_takes_the_digits_after_the_parenthesis() {
    let (molecule, rest) = parse_molecule(b"(NO3)2K").unwrap();
    assert_eq!(molecule, Molecule::Group(vec![single("N", 1), single("O", 3)], 2));
    assert_eq!(rest, b"K");
}

#[test]
fn molecule_nested_groups() {
    let (molecule, rest) = parse_molecule(b"((OH)2Na)3").unwrap();
    assert_eq!(
        molecule,
        Molecule::Group(
            vec![
                Molecule::Group(vec![single("O", 1), single("H", 1)], 2),
                single("Na", 1),
            ],
            3
        )
    );
    assert_eq!(rest, b"");
}

#[test]
fn molecule_empty_group_is_a_syntax_error() {
    assert_eq!(parse_molecule(b"()4"), Err(FormulaError::Syntax { position: 1 }));
}

#[test]
fn molecule_unbalanced_group_is_a_syntax_error() {
    assert_eq!(parse_molecule(b"(OH"), Err(FormulaError::Syntax { position: 3 }));
    assert_eq!(parse_molecule(b"(OH]"), Err(FormulaError::Syntax { position: 3 }));
    assert_eq!(parse_molecule(b"(O(H)"), Err(FormulaError::Syntax { position: 5 }));
}

#[test]
fn molecule_needs_a_letter_or_a_parenthesis() {
    assert_eq!(parse_molecule(b""), Err(FormulaError::Syntax { position: 0 }));
    assert_eq!(parse_molecule(b")"), Err(FormulaError::Syntax { position: 0 }));
    assert_eq!(parse_molecule(b"4O"), Err(FormulaError::Syntax { position: 0 }));
    assert_eq!(parse_molecule(b"h"), Err(FormulaError::Syntax { position: 0 }));
}

#[test]
fn molecule_amount_overflow() {
    assert_eq!(parse_molecule(b"H4294967296"), Err(FormulaError::NumericOverflow));
    assert_eq!(parse_molecule(b"(OH)4294967296"), Err(FormulaError::NumericOverflow));
    assert_eq!(parse_molecule(b"(O99999999999H)2"), Err(FormulaError::NumericOverflow));
}

#[test]
fn parse_two_elements() {
    let (parsed, rest) = parse(b"OH").unwrap();
    assert_eq!(parsed, Parsed { molecules: vec![single("O", 1), single("H", 1)] });
    assert_eq!(rest, b"");
}

#[test]
fn parse_one_group() {
    let (parsed, rest) = parse(b"(OH)4").unwrap();
    assert_eq!(
        parsed,
        Parsed { molecules: vec![Molecule::Group(vec![single("O", 1), single("H", 1)], 4)] }
    );
    assert_eq!(rest, b"");
}

#[test]
fn parse_elements_then_group() {
    let (parsed, rest) = parse(b"NH2(NO3)2").unwrap();
    assert_eq!(
        parsed,
        Parsed {
            molecules: vec![
                single("N", 1),
                single("H", 2),
                Molecule::Group(vec![single("N", 1), single("O", 3)], 2),
            ]
        }
    );
    assert_eq!(rest, b"");
}

#[test]
fn parse_several_groups() {
    let (parsed, rest) = parse(b"Al(H2O)12(OH)4").unwrap();
    assert_eq!(
        parsed,
        Parsed {
            molecules: vec![
                single("Al", 1),
                Molecule::Group(vec![single("H", 2), single("O", 1)], 12),
                Molecule::Group(vec![single("O", 1), single("H", 1)], 4),
            ]
        }
    );
    assert_eq!(rest, b"");
}

#[test]
fn parse_empty_input() {
    let (parsed, rest) = parse(b"").unwrap();
    assert_eq!(parsed, Parsed { molecules: vec![] });
    assert_eq!(rest, b"");
}

#[test]
fn parse_leaves_an_unbalanced_group_unread() {
    let (parsed, rest) = parse(b"(OH").unwrap();
    assert_eq!(parsed, Parsed { molecules: vec![] });
    assert_eq!(rest, b"(OH");
}

#[test]
fn parse_gives_the_molecules_before_the_first_mismatch() {
    let (parsed, rest) = parse(b"H2O(OH").unwrap();
    assert_eq!(parsed, Parsed { molecules: vec![single("H", 2), single("O", 1)] });
    assert_eq!(rest, b"(OH");
    let (parsed, rest) = parse(b"NaCl!").unwrap();
    assert_eq!(parsed, Parsed { molecules: vec![single("Na", 1), single("Cl", 1)] });
    assert_eq!(rest, b"!");
    let (parsed, rest) = parse(b"OH)2").unwrap();
    assert_eq!(parsed, Parsed { molecules: vec![single("O", 1), single("H", 1)] });
    assert_eq!(rest, b")2");
}

#[test]
fn parse_takes_no_white_space() {
    let (parsed, rest) = parse(b"H2 O").unwrap();
    assert_eq!(parsed, Parsed { molecules: vec![single("H", 2)] });
    assert_eq!(rest, b" O");
}

#[test]
fn parse_fails_on_an_amount_that_overflows() {
    assert_eq!(parse(b"H4294967296O"), Err(FormulaError::NumericOverflow));
    assert_eq!(parse(b"OH(Na5000000000)"), Err(FormulaError::NumericOverflow));
}

#[test]
fn parse_keeps_an_amount_of_zero() {
    let (parsed, rest) = parse(b"H0").unwrap();
    assert_eq!(parsed, Parsed { molecules: vec![single("H", 0)] });
    assert_eq!(rest, b"");
}
