use rust_hic::clinical_code_tree::Index;
use std::cmp::Ordering;

#[test]
fn index_single_element_index_compares_for_equality() {
    let i1 = Index::make_leaf("ABC");
    let i2 = Index::make_leaf("ABC");
    assert_eq!(i1, i2);

    let i1 = Index::make_single("ABC");
    let i2 = Index::make_single("ABC");
    assert_eq!(i1, i2);
}

#[test]
fn index_two_element_index_compares_for_equality() {
    let i1 = Index::make_category("ABC", "xyz");
    let i2 = Index::make_category("ABC", "xyz");
    assert_eq!(i1, i2);

    let i1 = Index::make_dual("ABC", "xyz");
    let i2 = Index::make_dual("ABC", "xyz");
    assert_eq!(i1, i2);
}

#[test]
fn index_single_element_index_compare_inequality() {
    let i1 = Index::make_leaf("A00");
    let i2 = Index::make_leaf("A01");
    assert!(i1 < i2);

    let i1 = Index::make_leaf("i212");
    let i2 = Index::make_leaf("i222");
    assert!(i1 < i2);

    let i1 = Index::make_single("A00");
    let i2 = Index::make_single("A01");
    assert!(i1 < i2);
}

#[test]
fn index_two_element_index_compare_inequality_first_element() {
    let i1 = Index::make_category("A00", "Z00");
    let i2 = Index::make_category("A01", "X00");
    assert!(i1 < i2);

    let i1 = Index::make_dual("A00", "Z00");
    let i2 = Index::make_dual("A01", "X00");
    assert!(i1 < i2);
}

#[test]
fn index_two_element_index_compare_inequality_second_element() {
    let i1 = Index::make_category("I00", "I01");
    let i2 = Index::make_category("I00", "I02");
    assert!(i2 > i1);

    let i1 = Index::make_dual("I00", "I01");
    let i2 = Index::make_dual("I00", "I02");
    assert!(i2 > i1);
}

#[test]
fn index_check_codes_lie_in_index_range() {
    let i = Index::make_category("I00", "I02");
    let code = format!("i000");
    assert_eq!(i.compare(&code), Ordering::Equal);
    let code = format!("i02");
    assert_eq!(i.compare(&code), Ordering::Equal);
    let code = format!("i0223");
    assert_eq!(i.compare(&code), Ordering::Equal);
    let code = format!("i011");
    assert_eq!(i.compare(&code), Ordering::Equal);
}

#[test]
fn check_codes_lie_below_index_range() {
    let i = Index::make_category("I00", "I02");
    let code = format!("h999");
    assert_eq!(i.compare(&code), Ordering::Less);
    let code = format!("a001");
    assert_eq!(i.compare(&code), Ordering::Less);
}

#[test]
fn check_codes_lie_above_index_range() {
    let i = Index::make_category("I00", "I02");
    let code = format!("i030");
    assert_eq!(i.compare(&code), Ordering::Greater);
    let code = format!("z001");
    assert_eq!(i.compare(&code), Ordering::Greater);
}

#[test]
fn range_boundaries_in_upper_case() {
    let i = Index::make_category("I00", "I02");
    for code in ["I000", "I02", "I0223", "I011"] {
        assert_eq!(i.compare(&code.to_string()), Ordering::Equal);
    }
    for code in ["H999", "A001"] {
        assert_eq!(i.compare(&code.to_string()), Ordering::Less);
    }
    for code in ["I030", "Z001"] {
        assert_eq!(i.compare(&code.to_string()), Ordering::Greater);
    }
}

#[test]
fn short_code_above_category_start_is_not_a_panic() {
    let i = Index::make_category("I00", "I02");
    assert_eq!(i.compare(&"j".to_string()), Ordering::Greater);
    assert_eq!(i.compare(&"i01".to_string()), Ordering::Equal);
    assert_eq!(i.compare(&"".to_string()), Ordering::Less);
}

#[test]
fn leaf_matches_whole_code_only() {
    let i = Index::make_leaf("I210");
    assert_eq!(i.compare(&"i210".to_string()), Ordering::Equal);
    assert_eq!(i.compare(&"i2101".to_string()), Ordering::Greater);
    assert_eq!(i.compare(&"i21".to_string()), Ordering::Less);
}

#[test]
fn contains_and_is_lt() {
    let i = Index::make_dual("I00", "I02");
    assert!(i.contains(&"i011".to_string()));
    assert!(i.contains(&"I02".to_string()));
    assert!(!i.contains(&"i030".to_string()));
    assert!(!i.contains(&"h999".to_string()));
    assert!(!i.is_lt(&"i030".to_string()));
    assert!(i.is_lt(&"h999".to_string()));
    assert!(!i.is_lt(&"i011".to_string()));
    assert!(Index::make_leaf("B00").is_lt(&"A00".to_string()));
    assert!(!Index::make_leaf("B00").is_lt(&"C00".to_string()));

    let s = Index::make_single("A01");
    assert!(s.contains(&"a012".to_string()));
    assert!(!s.contains(&"a02".to_string()));
}

#[test]
fn leaf_sorts_before_category_with_same_bounds() {
    let leaf = Index::make_leaf("B20");
    let cat = Index::make_category("B20", "B20");
    assert!(leaf < cat);
    assert_ne!(leaf, cat);
    assert_eq!(leaf.partial_cmp(&cat), Some(Ordering::Less));
    assert_eq!(cat.partial_cmp(&leaf), Some(Ordering::Greater));
}
