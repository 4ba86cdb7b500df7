use rand::Rng;
use rust_hic::clinical_code::ClinicalCodeStore;
use rust_hic::clinical_code_tree::{
    normalise_code, strip_code, Categories, ClinicalCodeTree, CodeTreeError, Index,
};
use rust_hic::seeded_rng::make_rng;

fn leaf(name: &str, docs: &str, index: Index) -> Categories {
    Categories::new(name.to_string(), docs.to_string(), index, None, None)
}

fn leaf_excluding(name: &str, index: Index, exclude: &[&str]) -> Categories {
    Categories::new(
        name.to_string(),
        format!("code {name}"),
        index,
        None,
        Some(exclude.iter().map(|g| g.to_string()).collect()),
    )
}

fn category(name: &str, docs: &str, index: Index, children: Vec<Categories>) -> Categories {
    Categories::new(name.to_string(), docs.to_string(), index, Some(children), None)
}

fn category_excluding(
    name: &str,
    index: Index,
    children: Vec<Categories>,
    exclude: &[&str],
) -> Categories {
    Categories::new(
        name.to_string(),
        format!("category {name}"),
        index,
        Some(children),
        Some(exclude.iter().map(|g| g.to_string()).collect()),
    )
}

fn code(name: &str) -> Categories {
    let index: String = name.chars().filter(|c| *c != '.').collect();
    leaf(name, &format!("code {name}"), Index::make_leaf(&index))
}

fn strings(items: &[&str]) -> Vec<String> {
    items.iter().map(|s| s.to_string()).collect()
}

fn names(tree_codes: &[rust_hic::clinical_code::ClinicalCodeRef], store: &ClinicalCodeStore) -> Vec<String> {
    tree_codes
        .iter()
        .map(|r| store.clinical_code_from(r).expect("Clinical code should be present").name().clone())
        .collect()
}

/// A fragment of an ICD-10 style tree, with its siblings given in order
/// or reversed at every level.
fn cardiac_forest(reversed: bool) -> Vec<Categories> {
    let order = |mut v: Vec<Categories>| {
        if reversed {
            v.reverse();
        }
        v
    };
    let i20 = category_excluding(
        "I20",
        Index::make_category("I20", "I20"),
        order(vec![code("I20.0"), code("I20.1")]),
        &["acs_stemi_schnier"],
    );
    let i21 = category(
        "I21",
        "Acute myocardial infarction",
        Index::make_category("I21", "I21"),
        order(vec![
            code("I21.0"),
            code("I21.1"),
            code("I21.2"),
            code("I21.3"),
            leaf_excluding("I21.4", Index::make_leaf("I214"), &["acs_stemi_schnier"]),
            leaf_excluding("I21.9", Index::make_leaf("I219"), &["acs_stemi_schnier"]),
        ]),
    );
    let i22 = category(
        "I22",
        "Subsequent myocardial infarction",
        Index::make_category("I22", "I22"),
        order(vec![
            code("I22.0"),
            code("I22.1"),
            code("I22.8"),
            leaf_excluding("I22.9", Index::make_leaf("I229"), &["acs_stemi_schnier"]),
        ]),
    );
    let ischaemic = category_excluding(
        "I20-I25",
        Index::make_category("I20", "I25"),
        order(vec![i20, i21, i22]),
        &["atrial_fib"],
    );
    let i48 = category_excluding(
        "I48",
        Index::make_category("I48", "I48"),
        order(vec![
            code("I48.0"),
            code("I48.1"),
            code("I48.2"),
            code("I48.3"),
            code("I48.4"),
            code("I48.9"),
        ]),
        &["acs_stemi_schnier"],
    );
    let circulatory = category_excluding(
        "I00-I99",
        Index::make_category("I00", "I99"),
        order(vec![ischaemic, i48]),
        &["empty_group"],
    );
    let infectious = category_excluding(
        "A00-B99",
        Index::make_category("A00", "B99"),
        order(vec![category(
            "A00",
            "Cholera",
            Index::make_category("A00", "A00"),
            order(vec![code("A00.0"), code("A00.1"), code("A00.9")]),
        )]),
        &["acs_stemi_schnier", "atrial_fib", "empty_group", "cardiac"],
    );
    order(vec![infectious, circulatory])
}

fn cardiac_tree(reversed: bool) -> ClinicalCodeTree {
    ClinicalCodeTree::new(
        cardiac_forest(reversed),
        strings(&["acs_stemi_schnier", "atrial_fib", "empty_group", "cardiac"]),
    )
}

fn all_leaf_names() -> Vec<&'static str> {
    vec![
        "A00.0", "A00.1", "A00.9", "I20.0", "I20.1", "I21.0", "I21.1", "I21.2", "I21.3", "I21.4",
        "I21.9", "I22.0", "I22.1", "I22.8", "I22.9", "I48.0", "I48.1", "I48.2", "I48.3", "I48.4",
        "I48.9",
    ]
}

fn code_tree_example_1(categories: Vec<Categories>) -> ClinicalCodeTree {
    ClinicalCodeTree::new(categories, strings(&["group1", "group2", "another"]))
}

fn flatten(categories: &[Categories], depth: usize, out: &mut Vec<(usize, String, String, Index)>) {
    for c in categories {
        let index = match c.index() {
            Index::Leaf(a) => Index::make_leaf(a),
            Index::Category(a, b) => Index::make_category(a, b),
        };
        out.push((depth, c.name().clone(), c.docs().clone(), index));
        assert!(c.exclude().is_empty());
        if let Some(children) = c.categories() {
            flatten(children, depth + 1, out);
        } else {
            assert!(c.is_leaf());
        }
    }
}

#[test]
fn deserialize_pre_sorted() {
    let code_tree = code_tree_example_1(vec![
        category(
            "cat1",
            "category 1",
            Index::make_dual("cat11", "cat12"),
            vec![
                leaf("cat11", "sub cat 11", Index::make_single("cat11")),
                leaf("cat12", "sub cat 12", Index::make_single("cat12")),
            ],
        ),
        category(
            "cat2",
            "category 2",
            Index::make_dual("cat2", "cat2"),
            vec![
                leaf("cat21", "sub cat 21", Index::make_single("cat21")),
                leaf("cat22", "sub cat 22", Index::make_single("cat22")),
            ],
        ),
    ]);
    let mut nodes = Vec::new();
    flatten(code_tree.categories(), 0, &mut nodes);
    let expected = vec![
        (0, "cat1", "category 1", Index::make_dual("cat11", "cat12")),
        (1, "cat11", "sub cat 11", Index::make_single("cat11")),
        (1, "cat12", "sub cat 12", Index::make_single("cat12")),
        (0, "cat2", "category 2", Index::make_dual("cat2", "cat2")),
        (1, "cat21", "sub cat 21", Index::make_single("cat21")),
        (1, "cat22", "sub cat 22", Index::make_single("cat22")),
    ];
    let expected: Vec<(usize, String, String, Index)> = expected
        .into_iter()
        .map(|(d, n, doc, i)| (d, n.to_string(), doc.to_string(), i))
        .collect();
    assert_eq!(nodes, expected);
    assert_eq!(code_tree.groups(), &strings(&["group1", "group2", "another"]));
}

#[test]
fn deserialize_unsorted() {
    let unsorted = code_tree_example_1(vec![
        category(
            "cat2",
            "category 2",
            Index::make_dual("cat2", "cat2"),
            vec![
                leaf("cat21", "sub cat 21", Index::make_single("cat21")),
                leaf("cat22", "sub cat 22", Index::make_single("cat22")),
            ],
        ),
        category(
            "cat1",
            "category 1",
            Index::make_dual("cat11", "cat12"),
            vec![
                leaf("cat12", "sub cat 12", Index::make_single("cat12")),
                leaf("cat11", "sub cat 11", Index::make_single("cat11")),
            ],
        ),
    ]);
    let sorted = code_tree_example_1(vec![
        category(
            "cat1",
            "category 1",
            Index::make_dual("cat11", "cat12"),
            vec![
                leaf("cat11", "sub cat 11", Index::make_single("cat11")),
                leaf("cat12", "sub cat 12", Index::make_single("cat12")),
            ],
        ),
        category(
            "cat2",
            "category 2",
            Index::make_dual("cat2", "cat2"),
            vec![
                leaf("cat21", "sub cat 21", Index::make_single("cat21")),
                leaf("cat22", "sub cat 22", Index::make_single("cat22")),
            ],
        ),
    ]);
    assert_eq!(unsorted, sorted);
}

#[test]
fn check_code_normalisation() {
    let string = format!("A00.0");
    assert_eq!(normalise_code(string), "a000");
    let string = format!(" A 00.0 ");
    assert_eq!(normalise_code(string), "a000");
    let string = format!("i21.1x ");
    assert_eq!(normalise_code(string), "i211x");
    let string = format!("     j10.x ");
    assert_eq!(normalise_code(string), "j10x");
    let string = format!("A00.0|");
    assert_eq!(normalise_code(string), "a000|");
}

#[test]
fn strip_code_keeps_other_punctuation() {
    assert_eq!(strip_code("a0\t0.0-\n1"), "a000-1");
    assert_eq!(strip_code(""), "");
    assert_eq!(normalise_code("\u{2003}I21.0\u{00A0}".to_string()), "i210");
}

#[test]
fn build_is_independent_of_sibling_order() {
    assert_eq!(cardiac_tree(false), cardiac_tree(true));
    let tree = cardiac_tree(true);
    let top: Vec<&str> = tree.categories().iter().map(|c| c.name().as_str()).collect();
    assert_eq!(top, vec!["A00-B99", "I00-I99"]);
}

#[test]
fn sort_categories_orders_children() {
    let mut node = category(
        "cat",
        "a category",
        Index::make_category("B00", "B99"),
        vec![code("B20.1"), code("B01.0"), code("B20.0")],
    );
    node.sort_categories();
    let order: Vec<&str> = node.categories().unwrap().iter().map(|c| c.name().as_str()).collect();
    assert_eq!(order, vec!["B01.0", "B20.0", "B20.1"]);
}

#[test]
fn acs_and_atrial_fib_groups_in_order() {
    let tree = cardiac_tree(true);
    let mut store = ClinicalCodeStore::new();
    let acs = tree
        .codes_in_group(&format!("acs_stemi_schnier"), &mut store)
        .expect("Should succeed, group is present");
    assert_eq!(acs.len(), 7);
    assert_eq!(
        names(&acs, &store),
        vec!["I21.0", "I21.1", "I21.2", "I21.3", "I22.0", "I22.1", "I22.8"]
    );
    let af = tree
        .codes_in_group(&format!("atrial_fib"), &mut store)
        .expect("Should succeed, group is present");
    assert_eq!(af.len(), 6);
    assert_eq!(
        names(&af, &store),
        vec!["I48.0", "I48.1", "I48.2", "I48.3", "I48.4", "I48.9"]
    );
    assert_eq!(store.num_stored_codes(), 13);
}

#[test]
fn unknown_group_is_an_error() {
    let tree = cardiac_tree(false);
    let mut store = ClinicalCodeStore::new();
    let unknown_group = tree.codes_in_group(&format!("unknown_group"), &mut store);
    assert_eq!(unknown_group, Err(CodeTreeError::UnknownGroup));
    assert_eq!(store.num_stored_codes(), 0);
    let mut rng = make_rng(1, "unknown");
    assert_eq!(
        tree.random_clinical_code_from_group(&mut rng, &mut store, &format!("unknown_group")),
        Err(CodeTreeError::UnknownGroup)
    );
}

#[test]
fn excluded_leaf_appears_only_in_other_groups() {
    let tree = cardiac_tree(false);
    let mut store = ClinicalCodeStore::new();
    let acs = names(&tree.codes_in_group(&format!("acs_stemi_schnier"), &mut store).unwrap(), &store);
    let cardiac = names(&tree.codes_in_group(&format!("cardiac"), &mut store).unwrap(), &store);
    assert!(!acs.contains(&"I21.4".to_string()));
    assert!(!acs.contains(&"I48.0".to_string()));
    assert!(cardiac.contains(&"I21.4".to_string()));
    assert!(cardiac.contains(&"I48.0".to_string()));
    assert!(!cardiac.contains(&"A00.0".to_string()));
    assert_eq!(cardiac.len(), 18);
}

#[test]
fn empty_group_gives_empty_list_and_no_draw() {
    let tree = cardiac_tree(false);
    let mut store = ClinicalCodeStore::new();
    assert_eq!(tree.codes_in_group(&format!("empty_group"), &mut store), Ok(vec![]));
    let mut rng = make_rng(5, "empty");
    assert_eq!(
        tree.random_clinical_code_from_group(&mut rng, &mut store, &format!("empty_group")),
        Err(CodeTreeError::EmptyGroup)
    );
}

#[test]
fn find_exact_round_trip() {
    let tree = cardiac_tree(true);
    let mut store = ClinicalCodeStore::new();
    for name in all_leaf_names() {
        let r = tree.find_exact(name.to_string(), &mut store).expect("leaf should be found");
        assert_eq!(store.clinical_code_from(&r).unwrap().name(), name);
        let again = tree.find_exact(name.to_lowercase(), &mut store).unwrap();
        assert_eq!(r, again);
    }
    assert_eq!(store.num_stored_codes(), all_leaf_names().len());
    let r = tree.find_exact(" i48 .9 ".to_string(), &mut store).unwrap();
    assert_eq!(store.clinical_code_from(&r).unwrap().docs(), "code I48.9");
}

#[test]
fn find_exact_not_found() {
    let tree = cardiac_tree(false);
    let mut store = ClinicalCodeStore::new();
    for code in ["I99.9", "I21.5", "I21", "I21.01", "C00.0", "", "Z"] {
        assert_eq!(
            tree.find_exact(code.to_string(), &mut store),
            Err(CodeTreeError::NotFound)
        );
    }
    assert_eq!(store.num_stored_codes(), 0);
}

#[test]
fn check_returned_groups_match_tree() {
    let tree = cardiac_tree(false);
    let mut groups = tree.groups().clone();
    groups.sort();
    assert_eq!(groups, strings(&["acs_stemi_schnier", "atrial_fib", "cardiac", "empty_group"]));
}

#[test]
fn check_randomly_chosen_code_is_in_group() {
    let tree = cardiac_tree(false);
    let mut code_store = ClinicalCodeStore::new();
    let codes_in_group: Vec<String> = vec!["I48.0", "I48.1", "I48.2", "I48.3", "I48.4", "I48.9"]
        .iter()
        .map(|string| String::from(*string))
        .collect();
    let mut rng = make_rng(222, "clinical_code_test_id");
    for _ in 0..100 {
        let random_code = tree
            .random_clinical_code_from_group(&mut rng, &mut code_store, &format!("atrial_fib"))
            .expect("Should be able to pick a valid code");
        let name = code_store.clinical_code_from(&random_code).unwrap().name();
        assert!(codes_in_group.contains(name));
    }
}

#[test]
fn random_code_is_a_leaf_and_reproducible() {
    let tree = cardiac_tree(false);
    let leaves = all_leaf_names();
    let mut store_a = ClinicalCodeStore::new();
    let mut store_b = ClinicalCodeStore::new();
    let mut rng_a = make_rng(7, "tree");
    let mut rng_b = make_rng(7, "tree");
    for _ in 0..200 {
        let a = tree.random_clinical_code(&mut rng_a, &mut store_a);
        let b = tree.random_clinical_code(&mut rng_b, &mut store_b);
        let name_a = store_a.clinical_code_from(&a).unwrap().name().clone();
        let name_b = store_b.clinical_code_from(&b).unwrap().name().clone();
        assert!(leaves.contains(&name_a.as_str()));
        assert_eq!(name_a, name_b);
    }
}

#[test]
fn seeded_streams_are_reproducible_and_distinct() {
    let mut a = make_rng(222, "clinical_code_test_id");
    let mut b = make_rng(222, "clinical_code_test_id");
    let mut c = make_rng(222, "other_id");
    let xs: Vec<u64> = (0..8).map(|_| a.gen()).collect();
    let ys: Vec<u64> = (0..8).map(|_| b.gen()).collect();
    let zs: Vec<u64> = (0..8).map(|_| c.gen()).collect();
    assert_eq!(xs, ys);
    assert_ne!(xs, zs);
}

#[test]
fn group_code_count_matches_codes_in_group() {
    let tree = cardiac_tree(true);
    assert_eq!(tree.group_code_count(&format!("acs_stemi_schnier")), Some(7));
    assert_eq!(tree.group_code_count(&format!("atrial_fib")), Some(6));
    assert_eq!(tree.group_code_count(&format!("empty_group")), Some(0));
    assert_eq!(tree.group_code_count(&format!("not_declared")), Some(all_leaf_names().len()));
    assert!(tree.contains_group(&format!("cardiac")));
    assert!(!tree.contains_group(&format!("not_declared")));
}

#[test]
fn can_draw_needs_codes_at_every_level() {
    assert!(cardiac_tree(false).can_draw());
    let empty = ClinicalCodeTree::new(vec![], strings(&[]));
    assert!(!empty.can_draw());
    let hollow = ClinicalCodeTree::new(
        vec![code("A00.0"), category("B", "empty", Index::make_category("B00", "B99"), vec![])],
        strings(&[]),
    );
    assert!(!hollow.can_draw());
}

#[test]
fn sort_keeps_order_of_equal_indices() {
    let tree = ClinicalCodeTree::new(
        vec![
            leaf("second", "x", Index::make_leaf("B01")),
            leaf("first", "y", Index::make_leaf("A01")),
            leaf("third", "z", Index::make_leaf("B01")),
        ],
        strings(&[]),
    );
    let order: Vec<&str> = tree.categories().iter().map(|c| c.name().as_str()).collect();
    assert_eq!(order, vec!["first", "second", "third"]);
}

#[test]
fn same_normal_form_same_result() {
    let tree = cardiac_tree(false);
    let mut s1 = ClinicalCodeStore::new();
    let mut s2 = ClinicalCodeStore::new();
    let r1 = tree.find_exact("I21.0".to_string(), &mut s1);
    let r2 = tree.find_exact(" i21.0 ".to_string(), &mut s2);
    assert_eq!(r1, r2);
    assert_eq!(s1.num_stored_codes(), s2.num_stored_codes());
}

#[test]
fn search_is_ordered_on_the_cardiac_tree() {
    let tree = cardiac_tree(true);
    for name in all_leaf_names() {
        assert!(tree.search_is_ordered(&name.to_string()));
    }
    assert!(tree.search_is_ordered(&"Q99".to_string()));
    let overlapping = ClinicalCodeTree::new(
        vec![
            category("A", "a", Index::make_category("A00", "A50"), vec![code("A10.0")]),
            category("B", "b", Index::make_category("A20", "A90"), vec![code("A30.0")]),
        ],
        strings(&[]),
    );
    assert!(!overlapping.search_is_ordered(&"A30.0".to_string()));
    assert!(overlapping.search_is_ordered(&"A10.0".to_string()));
}
