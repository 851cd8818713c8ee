use rs_edlib::equal::{EqualityDefinition, EqualityPair};
use rs_edlib::error::AlignError;

#[test]
fn test_init_equality_definition() {
    let eq_def = EqualityDefinition::new("ATGC", None);
    assert_eq!(eq_def.matrix().len(), 16);
    assert_eq!(eq_def.matrix().iter().filter(|elem| **elem).count(), 4)
}

#[test]
fn test_init_equality_definition_extra_def() {
    let eq_def = EqualityDefinition::new(
        "ATGC",
        Some(&[EqualityPair {
            first: 'A',
            second: 'T',
        }]),
    );
    assert_eq!(eq_def.matrix().len(), 16);
    // First A and second T now count as equal.
    assert_eq!(eq_def.matrix().iter().filter(|elem| **elem).count(), 5)
}

#[test]
fn test_equality_definition_check_equal() {
    let eq_def = EqualityDefinition::new("ATGC", None);
    assert!(eq_def.are_equal('T', 'T').unwrap());
    assert!(!eq_def.are_equal('T', 'G').unwrap());
}

#[test]
fn test_equality_definition_check_invalid_equal() {
    let eq_def = EqualityDefinition::new("ATGC", None);
    assert!(eq_def.are_equal('X', 'X').is_err());
}

#[test]
fn test_equality_definition_index() {
    let eq_def = EqualityDefinition::new("ATGC", None);
    // T == T. T is at position 1.
    assert!(eq_def.index((1, 1)));
    // T != G. T is at position 1. G is at position 2.
    assert!(!eq_def.index((1, 2)));
}

#[test]
#[should_panic]
fn test_equality_invalid_definition_index() {
    let eq_def = EqualityDefinition::new("ATGC", None);
    // 7 is not a valid position in matrix.
    assert!(eq_def.index((7, 7)));
}

#[test]
fn added_pair_holds_both_ways() {
    let eq_def = EqualityDefinition::new("ATGC", Some(&[EqualityPair { first: 'A', second: 'T' }]));
    assert_eq!(eq_def.are_equal('A', 'T'), Ok(true));
    assert_eq!(eq_def.are_equal('T', 'A'), Ok(true));
    assert_eq!(eq_def.are_equal('A', 'G'), Ok(false));
}

#[test]
fn added_pair_outside_alphabet_is_dropped() {
    let eq_def = EqualityDefinition::new("ATGC", Some(&[EqualityPair { first: 'A', second: 'Z' }]));
    assert_eq!(eq_def.matrix().iter().filter(|elem| **elem).count(), 4);
}

#[test]
fn unknown_symbol_is_an_error() {
    let eq_def = EqualityDefinition::new("ATGC", None);
    assert_eq!(eq_def.are_equal('A', 'Q'), Err(AlignError::SymbolNotInAlphabet));
}

#[test]
fn symbol_lookup_and_wildcard() {
    let eq_def = EqualityDefinition::new("ATGC", None);
    assert_eq!(eq_def.symbol(2), Some('G'));
    assert_eq!(eq_def.symbol(4), None);
    assert_eq!(eq_def.alphabet_len(), 4);
}
