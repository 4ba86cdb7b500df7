use rust_hic::clinical_code::{ClinicalCode, ClinicalCodeRef, ClinicalCodeStore};

#[test]
fn test_clinical_code_matches_input() {
    let name = String::from("I21.0");
    let docs = String::from("What the code means...");
    let code = ClinicalCode::new(name, docs);

    assert_eq!(code.name(), "I21.0");
    assert_eq!(code.docs(), "What the code means...");
}

#[test]
fn test_code_store_initially_empty() {
    let clinical_code_store = ClinicalCodeStore::new();
    assert_eq!(clinical_code_store.num_stored_codes(), 0);
}

#[test]
fn test_insertion_and_read_of_one_code_into_store() {
    let mut clinical_code_store = ClinicalCodeStore::new();
    let name = String::from("I21.0");
    let docs = String::from("What the code means...");
    let code = ClinicalCode::new(name, docs);

    let code_ref = clinical_code_store.clinical_code_ref_from(code);
    assert_eq!(clinical_code_store.num_stored_codes(), 1);

    let code_read = clinical_code_store.clinical_code_from(&code_ref);
    assert_ne!(code_read, None);
    let code_read = code_read.unwrap();
    assert_eq!(code_read.name(), "I21.0");
    assert_eq!(code_read.docs(), "What the code means...");
}

#[test]
fn test_insertion_and_read_of_multiple_codes_into_store() {
    let mut clinical_code_store = ClinicalCodeStore::new();
    let name = String::from("I21.0");
    let docs = String::from("What the code means...");
    let code = ClinicalCode::new(name, docs);
    let code_ref_1 = clinical_code_store.clinical_code_ref_from(code);
    assert_eq!(clinical_code_store.num_stored_codes(), 1);

    let name = String::from("A00.1");
    let docs = String::from("Another description");
    let code = ClinicalCode::new(name, docs);
    let code_ref_2 = clinical_code_store.clinical_code_ref_from(code);

    assert_eq!(clinical_code_store.num_stored_codes(), 2);

    let name = String::from("K34.3");
    let docs = String::from("Yet another description");
    let code = ClinicalCode::new(name, docs);
    let code_ref_3 = clinical_code_store.clinical_code_ref_from(code);
    assert_eq!(clinical_code_store.num_stored_codes(), 3);

    let code_read = clinical_code_store.clinical_code_from(&code_ref_1);
    assert_ne!(code_read, None);
    let code_read = code_read.unwrap();
    assert_eq!(code_read.name(), "I21.0");
    assert_eq!(code_read.docs(), "What the code means...");

    let code_read = clinical_code_store.clinical_code_from(&code_ref_2);
    assert_ne!(code_read, None);
    let code_read = code_read.unwrap();
    assert_eq!(code_read.name(), "A00.1");
    assert_eq!(code_read.docs(), "Another description");

    let code_read = clinical_code_store.clinical_code_from(&code_ref_3);
    assert_ne!(code_read, None);
    let code_read = code_read.unwrap();
    assert_eq!(code_read.name(), "K34.3");
    assert_eq!(code_read.docs(), "Yet another description");
}

#[test]
fn test_repeat_insertion_of_same_code_into_store() {
    let mut clinical_code_store = ClinicalCodeStore::new();
    let name = String::from("I21.0");
    let docs = String::from("What the code means...");
    let code = ClinicalCode::new(name, docs);
    let code_copy = code.clone();

    let code_ref_1 = clinical_code_store.clinical_code_ref_from(code);
    assert_eq!(clinical_code_store.num_stored_codes(), 1);

    let code_ref_2 = clinical_code_store.clinical_code_ref_from(code_copy);
    assert_eq!(clinical_code_store.num_stored_codes(), 1);

    assert_eq!(code_ref_1, code_ref_2);

    let code_read = clinical_code_store.clinical_code_from(&code_ref_1);
    assert_ne!(code_read, None);
    let code_read = code_read.unwrap();
    assert_eq!(code_read.name(), "I21.0");
    assert_eq!(code_read.docs(), "What the code means...");
}

#[test]
fn test_request_for_nonexistent_code_is_none() {
    let clinical_code_store = ClinicalCodeStore::new();
    let code_ref = ClinicalCodeRef::from(32);
    let code_read = clinical_code_store.clinical_code_from(&code_ref);
    assert_eq!(code_read, None);
}

#[test]
fn distinct_codes_get_dense_ids_in_insertion_order() {
    let mut store = ClinicalCodeStore::new();
    let names = ["K34.3", "A00.1", "I21.0", "Z99.9"];
    for (k, name) in names.iter().enumerate() {
        let r = store.clinical_code_ref_from(ClinicalCode::new(name.to_string(), format!("d{k}")));
        assert_eq!(r.id(), k as u64);
    }
    assert_eq!(store.num_stored_codes(), names.len());
    let again = store.clinical_code_ref_from(ClinicalCode::new("A00.1".to_string(), "d1".to_string()));
    assert_eq!(again.id(), 1);
    assert_eq!(store.num_stored_codes(), names.len());
}

#[test]
fn same_name_other_description_is_another_code() {
    let mut store = ClinicalCodeStore::new();
    let a = store.clinical_code_ref_from(ClinicalCode::new("I21.0".to_string(), "x".to_string()));
    let b = store.clinical_code_ref_from(ClinicalCode::new("I21.0".to_string(), "y".to_string()));
    assert_ne!(a, b);
    assert_eq!(store.num_stored_codes(), 2);
    assert_eq!(store.clinical_code_from(&b).unwrap().docs(), "y");
    assert_eq!(store.clinical_code_from(&ClinicalCodeRef::from(2)), None);
}
