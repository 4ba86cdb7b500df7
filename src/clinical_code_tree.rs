//! A tree of clinical code categories and the operations on it.
//!
//! Each node of the tree is a `Categories`: a leaf is one clinical code, an
//! internal node a category of codes. Siblings are kept sorted by their
//! `Index`, which makes it possible to find a code by binary search at each
//! level. Groups of codes are named by the tree, and a node lists the groups
//! that neither it nor any node below it belongs to.

use crate::clinical_code::{
    intern_all, intern_one, lemma_intern_all_concat, lemma_intern_all_prefix, ClinicalCode,
    ClinicalCodeRef, ClinicalCodeStore, CodeView,
};
use crate::text::{ascii_upper, upper_chars_of};
use rand::seq::SliceRandom;
use rand_chacha::ChaCha8Rng;
use std::cmp::Ordering;
use vstd::prelude::*;

pub mod index;

pub use index::{index_cmp, index_le, lemma_index_cmp, Index};

verus! {

broadcast use vstd::std_specs::vec::group_vec_axioms, vstd::seq::group_seq_axioms;

/// The ways a query on a clinical code tree can fail.
#[derive(Clone, Copy, PartialEq, Eq, Structural, Debug)]
pub enum CodeTreeError {
    /// The code matches no node at some level of the tree.
    NotFound,
    /// The group is not one of the tree's groups.
    UnknownGroup,
    /// The group holds no code.
    EmptyGroup,
}

/// A node of a clinical code tree: a code (a leaf, with no sub-categories)
/// or a category of codes. Name and description belong to the code or to the
/// category.
#[derive(PartialEq, Eq, Debug)]
pub struct Categories {
    /// The name of the code or category; e.g. A01.0
    name: String,
    /// The description of the code or category
    docs: String,
    /// The index used to order and search the sub-categories
    index: Index,
    /// The sub-categories; none for a leaf
    categories: Option<Vec<Categories>>,
    /// The groups that hold neither this node nor any node below it
    exclude: Option<Vec<String>>,
}

impl Categories {
    /// The name and description of this node.
    pub closed spec fn code_view(&self) -> CodeView {
        (self.name@, self.docs@)
    }

    pub closed spec fn spec_index(&self) -> &Index {
        &self.index
    }

    pub closed spec fn spec_is_leaf(&self) -> bool {
        self.categories is None
    }

    /// The sub-categories, empty for a leaf.
    pub closed spec fn spec_children(&self) -> Seq<Categories> {
        match self.categories {
            Some(v) => v@,
            None => Seq::empty(),
        }
    }

    /// The node lists `g` among the groups that exclude it.
    pub closed spec fn excludes(&self, g: Seq<char>) -> bool {
        &&& self.exclude is Some
        &&& exists|i: int|
            0 <= i < self.exclude->0.len() && (#[trigger] self.exclude->0@[i])@ == g
    }

    /// A node with the given fields; `categories` is `None` for a leaf.
    pub fn new(
        name: String,
        docs: String,
        index: Index,
        categories: Option<Vec<Categories>>,
        exclude: Option<Vec<String>>,
    ) -> (r: Self)
        ensures
            r.code_view() == (name@, docs@),
            r.spec_index() == &index,
            r.spec_is_leaf() == categories is None,
            exclude_view(r) == match exclude {
                Some(v) => Some(v@.map_values(|s: String| s@)),
                None => None,
            },
            categories matches Some(v) ==> r.spec_children() == v@,
            forall|g: Seq<char>|
                #![auto]
                r.excludes(g) == (exclude matches Some(v) && exists|i: int|
                    0 <= i < v.len() && (#[trigger] v@[i])@ == g),
    {
        Categories { name, docs, index, categories, exclude }
    }

    /// The code or category name.
    pub fn name(&self) -> (r: &String)
        ensures
            r@ == self.code_view().0,
    {
        &self.name
    }

    /// The code or category description.
    pub fn docs(&self) -> (r: &String)
        ensures
            r@ == self.code_view().1,
    {
        &self.docs
    }

    /// The index of this code or category.
    pub fn index(&self) -> (r: &Index)
        ensures
            r == self.spec_index(),
    {
        &self.index
    }

    /// True for a leaf, a node that is one clinical code.
    pub fn is_leaf(&self) -> (r: bool)
        ensures
            r == self.spec_is_leaf(),
    {
        self.categories.is_none()
    }

    /// The sub-categories, or `None` for a leaf.
    pub fn categories(&self) -> (r: Option<&Vec<Categories>>)
        ensures
            r is None <==> self.spec_is_leaf(),
            r matches Some(v) ==> v@ == self.spec_children(),
    {
        self.categories.as_ref()
    }

    /// The groups that exclude this node, empty where it lists none.
    pub fn exclude(&self) -> (r: Vec<String>)
        ensures
            forall|g: Seq<char>|
                #![auto]
                self.excludes(g) <==> exists|i: int| 0 <= i < r.len() && (#[trigger] r@[i])@ == g,
    {
        let mut r: Vec<String> = Vec::new();
        match &self.exclude {
            Some(v) => {
                let mut i: usize = 0;
                while i < v.len()
                    invariant
                        i <= v.len(),
                        r.len() == i,
                        forall|k: int| 0 <= k < i ==> (#[trigger] r@[k])@ == v@[k]@,
                    decreases v.len() - i,
                {
                    r.push(v[i].clone());
                    i += 1;
                }
                assert forall|g: Seq<char>| #![auto] self.excludes(g) <==> exists|k: int|
                    0 <= k < r.len() && (#[trigger] r@[k])@ == g by {
                    if self.excludes(g) {
                        let k = choose|k: int| 0 <= k < v.len() && (#[trigger] v@[k])@ == g;
                        assert(r@[k]@ == g);
                    }
                }
            },
            None => {},
        }
        r
    }

    /// True when this node lists `group` among the groups that exclude it.
    pub fn is_excluded_from(&self, group: &String) -> (r: bool)
        ensures
            r == self.excludes(group@),
    {
        match &self.exclude {
            Some(v) => {
                let mut i: usize = 0;
                while i < v.len()
                    invariant
                        i <= v.len(),
                        self.exclude == Some(*v),
                        forall|k: int| 0 <= k < i ==> (#[trigger] v@[k])@ != group@,
                    decreases v.len() - i,
                {
                    if v[i].eq(group) {
                        assert(self.exclude->0@[i as int]@ == group@);
                        return true;
                    }
                    i += 1;
                }
                false
            },
            None => false,
        }
    }
}

/// The codes of the leaves of `cats` that belong to group `g`, left to right
/// and depth first. A node that excludes `g` is skipped with all that lies
/// below it.
pub closed spec fn group_leaves(cats: Seq<Categories>, g: Seq<char>) -> Seq<CodeView>
    decreases cats,
{
    if cats.len() == 0 {
        Seq::empty()
    } else {
        group_leaves(cats.subrange(0, cats.len() - 1), g) + node_group_leaves(
            cats[cats.len() - 1],
            g,
        )
    }
}

/// The codes of the leaves at or below `c` that belong to group `g`.
pub closed spec fn node_group_leaves(c: Categories, g: Seq<char>) -> Seq<CodeView>
    decreases c,
{
    if c.excludes(g) {
        Seq::empty()
    } else {
        match c.categories {
            None => seq![c.code_view()],
            Some(v) => group_leaves(v@, g),
        }
    }
}

proof fn lemma_group_leaves_step(cats: Seq<Categories>, i: int, g: Seq<char>)
    requires
        0 <= i < cats.len(),
    ensures
        group_leaves(cats.subrange(0, i + 1), g) == group_leaves(cats.subrange(0, i), g)
            + node_group_leaves(cats[i], g),
{
    let s = cats.subrange(0, i + 1);
    assert(s.subrange(0, s.len() - 1) =~= cats.subrange(0, i));
    assert(s[s.len() - 1] == cats[i]);
}

/// Interns the codes of the leaves of `categories` in group `group`, in
/// order, and returns their references.
fn get_codes_in_group(
    group: &String,
    categories: &Vec<Categories>,
    code_store: &mut ClinicalCodeStore,
) -> (r: Vec<ClinicalCodeRef>)
    requires
        old(code_store).wf(),
        old(code_store).codes().len() + group_leaves(categories@, group@).len() <= usize::MAX,
    ensures
        final(code_store).wf(),
        final(code_store).codes() == intern_all(
            old(code_store).codes(),
            group_leaves(categories@, group@),
        ),
        r.len() == group_leaves(categories@, group@).len(),
        forall|k: int|
            0 <= k < r.len() ==> (#[trigger] r@[k].spec_id() as int) < final(code_store).codes().len()
                && final(code_store).codes()[r@[k].spec_id() as int] == group_leaves(
                categories@,
                group@,
            )[k],
    decreases categories@,
{
    let ghost s0 = code_store.codes();
    let ghost all = group_leaves(categories@, group@);
    let mut codes_in_group: Vec<ClinicalCodeRef> = Vec::new();
    let mut i: usize = 0;
    assert(categories@.subrange(0, 0) =~= Seq::<Categories>::empty());
    while i < categories.len()
        invariant
            i <= categories.len(),
            all == group_leaves(categories@, group@),
            code_store.wf(),
            s0.len() + all.len() <= usize::MAX,
            code_store.codes() == intern_all(s0, group_leaves(categories@.subrange(0, i as int), group@)),
            codes_in_group.len() == group_leaves(categories@.subrange(0, i as int), group@).len(),
            forall|k: int|
                0 <= k < codes_in_group.len() ==> (#[trigger] codes_in_group@[k].spec_id() as int)
                    < code_store.codes().len() && code_store.codes()[codes_in_group@[k].spec_id() as int]
                    == group_leaves(categories@.subrange(0, i as int), group@)[k],
        decreases categories.len() - i,
    {
        proof {
            lemma_group_leaves_step(categories@, i as int, group@);
            lemma_group_leaves_prefix_len(categories@, i as int + 1, group@);
        }
        let ghost before = group_leaves(categories@.subrange(0, i as int), group@);
        let ghost node = node_group_leaves(categories@[i as int], group@);
        let ghost c1 = code_store.codes();
        let category = &categories[i];
        proof {
            lemma_intern_all_prefix(c1, node);
            lemma_intern_all_concat(s0, before, node);
            lemma_intern_all_prefix(s0, before);
        }
        if category.is_excluded_from(group) {
            assert(node =~= Seq::<CodeView>::empty());
            assert(before + node =~= before);
        } else if category.is_leaf() {
            let clinical_code = ClinicalCode::from(category);
            let clinical_code_ref = code_store.clinical_code_ref_from(clinical_code);
            assert(node == seq![category.code_view()]);
            assert(node.drop_last() =~= Seq::<CodeView>::empty());
            assert(node.last() == clinical_code@);
            assert(intern_all(c1, node.drop_last()) == c1);
            assert(intern_all(c1, node) == intern_one(c1, clinical_code@));
            codes_in_group.push(clinical_code_ref);
            proof {
                let c2 = code_store.codes();
                assert forall|k: int| 0 <= k < codes_in_group.len() implies (
                #[trigger] codes_in_group@[k].spec_id() as int) < c2.len()
                    && c2[codes_in_group@[k].spec_id() as int] == (before + node)[k] by {
                    if k < before.len() {
                        let id = codes_in_group@[k].spec_id() as int;
                        assert(c2.subrange(0, c1.len() as int)[id] == c1[id]);
                    }
                }
            }
        } else {
            let sub_categories = category.categories().unwrap();
            proof {
                assert(decreases_to!(categories@ => categories@[i as int]));
            }
            assert(node == group_leaves(sub_categories@, group@));
            let mut new_codes = get_codes_in_group(group, sub_categories, code_store);
            let ghost n0 = codes_in_group@;
            let ghost fresh = new_codes@;
            codes_in_group.append(&mut new_codes);
            proof {
                let c2 = code_store.codes();
                assert forall|k: int| 0 <= k < codes_in_group.len() implies (
                #[trigger] codes_in_group@[k].spec_id() as int) < c2.len()
                    && c2[codes_in_group@[k].spec_id() as int] == (before + node)[k] by {
                    if k < before.len() {
                        assert(codes_in_group@[k] == n0[k]);
                        let id = codes_in_group@[k].spec_id() as int;
                        assert(c2.subrange(0, c1.len() as int)[id] == c1[id]);
                    } else {
                        assert(codes_in_group@[k] == fresh[k - before.len()]);
                    }
                }
            }
        }
        i += 1;
    }
    assert(categories@.subrange(0, categories.len() as int) =~= categories@);
    codes_in_group
}

/// The number of codes of group `group` among the leaves of `categories`,
/// or `None` where that number exceeds `usize::MAX`.
fn count_codes_in_group(group: &String, categories: &Vec<Categories>) -> (r: Option<usize>)
    ensures
        r matches Some(n) ==> n == group_leaves(categories@, group@).len(),
        r is None ==> group_leaves(categories@, group@).len() > usize::MAX,
    decreases categories@,
{
    let mut total: usize = 0;
    let mut i: usize = 0;
    assert(categories@.subrange(0, 0) =~= Seq::<Categories>::empty());
    while i < categories.len()
        invariant
            i <= categories.len(),
            total == group_leaves(categories@.subrange(0, i as int), group@).len(),
        decreases categories.len() - i,
    {
        proof {
            lemma_group_leaves_step(categories@, i as int, group@);
            lemma_group_leaves_prefix_len(categories@, i as int + 1, group@);
        }
        let category = &categories[i];
        let n: usize = if category.is_excluded_from(group) {
            0
        } else if category.is_leaf() {
            1
        } else {
            let sub_categories = category.categories().unwrap();
            assert(decreases_to!(categories@ => categories@[i as int]));
            match count_codes_in_group(group, sub_categories) {
                Some(n) => n,
                None => {
                    return None;
                },
            }
        };
        if total > usize::MAX - n {
            return None;
        }
        total = total + n;
        i += 1;
    }
    assert(categories@.subrange(0, categories.len() as int) =~= categories@);
    Some(total)
}

/// The codes of a prefix of the siblings are no more than those of all.
proof fn lemma_group_leaves_prefix_len(cats: Seq<Categories>, i: int, g: Seq<char>)
    requires
        0 <= i <= cats.len(),
    ensures
        group_leaves(cats.subrange(0, i), g).len() <= group_leaves(cats, g).len(),
    decreases cats.len() - i,
{
    if i < cats.len() {
        lemma_group_leaves_step(cats, i, g);
        lemma_group_leaves_prefix_len(cats, i + 1, g);
    } else {
        assert(cats.subrange(0, i) =~= cats);
    }
}

/// The lower-case form of a string, as `str::to_lowercase` gives it.
pub uninterp spec fn lower_of(s: Seq<char>) -> Seq<char>;

/// Relies on `str::to_lowercase`: the result depends on the characters alone.
#[verifier::external_body]
fn lowercase(s: &str) -> (r: String)
    ensures
        r@ == lower_of(s@),
{
    s.to_lowercase()
}

/// The characters with the Unicode `White_Space` property: tab to carriage
/// return, space, next line, no-break space, Ogham space mark, en quad to
/// hair space, line and paragraph separators, narrow no-break space, medium
/// mathematical space and ideographic space.
pub open spec fn white_space(c: char) -> bool {
    ||| '\u{0009}' <= c <= '\u{000D}'
    ||| c == '\u{0020}'
    ||| c == '\u{0085}'
    ||| c == '\u{00A0}'
    ||| c == '\u{1680}'
    ||| '\u{2000}' <= c <= '\u{200A}'
    ||| c == '\u{2028}'
    ||| c == '\u{2029}'
    ||| c == '\u{202F}'
    ||| c == '\u{205F}'
    ||| c == '\u{3000}'
}

/// Relies on `char::is_whitespace`, which is true exactly for the
/// characters with the `White_Space` property.
#[verifier::external_body]
fn is_white_space(c: char) -> (r: bool)
    ensures
        r == white_space(c),
{
    c.is_whitespace()
}

/// Relies on `String::push`: `c` is appended.
#[verifier::external_body]
fn push_char(s: &mut String, c: char)
    ensures
        final(s)@ == old(s)@.push(c),
{
    s.push(c)
}

/// The characters that normalisation keeps: all but dots and white space.
pub open spec fn kept_in_code(c: char) -> bool {
    c != '.' && !white_space(c)
}

/// The normal form of a code: lower case, with dots and white space
/// removed. Other punctuation is kept.
pub open spec fn normalised(code: Seq<char>) -> Seq<char> {
    lower_of(code).filter(|c: char| kept_in_code(c))
}

/// Removes dots and white space from a code already in lower case.
pub fn strip_code(lowered: &str) -> (r: String)
    ensures
        r@ == lowered@.filter(|c: char| kept_in_code(c)),
{
    let chars = crate::text::chars_of(lowered);
    let mut r = String::new();
    let mut i: usize = 0;
    proof {
        reveal(Seq::filter);
        assert(lowered@.subrange(0, 0) =~= Seq::<char>::empty());
    }
    while i < chars.len()
        invariant
            chars@ == lowered@,
            i <= chars.len(),
            r@ == lowered@.subrange(0, i as int).filter(|c: char| kept_in_code(c)),
        decreases chars.len() - i,
    {
        let c = chars[i];
        proof {
            reveal(Seq::filter);
            assert(lowered@.subrange(0, i + 1).drop_last() =~= lowered@.subrange(0, i as int));
        }
        if c != '.' && !is_white_space(c) {
            push_char(&mut r, c);
        }
        i += 1;
    }
    assert(lowered@.subrange(0, chars.len() as int) =~= lowered@);
    r
}

/// The normal form of a code: lower case, with dots and white space
/// removed.
pub fn normalise_code(code: String) -> (r: String)
    ensures
        r@ == normalised(code@),
{
    let lowered = lowercase(code.as_str());
    strip_code(lowered.as_str())
}

/// Rank of where a code lies against a node: above it (2), inside it (1),
/// below it (0).
pub open spec fn place_rank(o: Ordering) -> int {
    match o {
        Ordering::Greater => 2,
        Ordering::Equal => 1,
        Ordering::Less => 0,
    }
}

/// Where the upper-cased code `u` lies against node `c`.
pub open spec fn place(c: Categories, u: Seq<char>) -> Ordering {
    c.spec_index().upper_cmp(u)
}

/// The sibling that binary search between positions `lo` and `hi` finds
/// for `u`: it looks at the middle one, stops there if its index holds `u`,
/// and otherwise goes on in the half on the side where `u` lies.
pub open spec fn search_between(cats: Seq<Categories>, u: Seq<char>, lo: int, hi: int) -> Option<
    int,
>
    decreases hi - lo,
{
    if lo < 0 || hi > cats.len() || lo >= hi {
        None
    } else {
        let mid = lo + (hi - lo) / 2;
        match place(cats[mid], u) {
            Ordering::Equal => Some(mid),
            Ordering::Greater => search_between(cats, u, mid + 1, hi),
            Ordering::Less => search_between(cats, u, lo, mid),
        }
    }
}

/// What binary search finds among all of the siblings.
pub open spec fn search_level(cats: Seq<Categories>, u: Seq<char>) -> Option<int> {
    search_between(cats, u, 0, cats.len() as int)
}

/// The position that binary search finds lies among the siblings, and its
/// index holds `u`.
pub proof fn lemma_search_between_found(cats: Seq<Categories>, u: Seq<char>, lo: int, hi: int)
    ensures
        search_between(cats, u, lo, hi) matches Some(i) ==> lo <= i < hi && 0 <= i < cats.len()
            && place(cats[i], u) == Ordering::Equal,
    decreases hi - lo,
{
    if !(lo < 0 || hi > cats.len() || lo >= hi) {
        let mid = lo + (hi - lo) / 2;
        lemma_search_between_found(cats, u, mid + 1, hi);
        lemma_search_between_found(cats, u, lo, mid);
    }
}

/// The code of the leaf that the search for the upper-cased code `u` finds:
/// a binary search at each level, going down into the node found, until a
/// leaf. `None` where some level has no node that holds `u`.
pub closed spec fn search_leaf(cats: Seq<Categories>, u: Seq<char>) -> Option<CodeView>
    decreases cats,
{
    match search_level(cats, u) {
        Some(i) => {
            if 0 <= i < cats.len() {
                match cats[i].categories {
                    None => Some(cats[i].code_view()),
                    Some(ch) => search_leaf(ch@, u),
                }
            } else {
                None
            }
        },
        None => None,
    }
}

/// One step of `search_leaf`: the node that binary search finds is the
/// leaf, or the search goes on among its sub-categories.
pub proof fn lemma_search_leaf_unfold(cats: Seq<Categories>, u: Seq<char>)
    ensures
        search_leaf(cats, u) == match search_level(cats, u) {
            Some(i) => {
                if cats[i].spec_is_leaf() {
                    Some(cats[i].code_view())
                } else {
                    search_leaf(cats[i].spec_children(), u)
                }
            },
            None => None,
        },
        search_level(cats, u) matches Some(i) ==> 0 <= i < cats.len() && place(cats[i], u)
            == Ordering::Equal,
{
    lemma_search_between_found(cats, u, 0, cats.len() as int);
}

/// The siblings lie in order for the upper-cased code `u`: first those the
/// code lies above, then those that hold it, then those it lies below; and
/// at most one holds it.
pub closed spec fn ordered_for(cats: Seq<Categories>, u: Seq<char>) -> bool {
    &&& forall|i: int, j: int|
        0 <= i < j < cats.len() ==> place_rank(#[trigger] place(cats[i], u)) >= place_rank(
            #[trigger] place(cats[j], u),
        )
    &&& forall|i: int, j: int|
        0 <= i < cats.len() && 0 <= j < cats.len() && #[trigger] place(cats[i], u)
            == Ordering::Equal && #[trigger] place(cats[j], u) == Ordering::Equal ==> i == j
}

/// The search for `u` meets siblings in order at every level it goes down
/// to.
pub closed spec fn searchable(cats: Seq<Categories>, u: Seq<char>) -> bool
    decreases cats,
{
    &&& ordered_for(cats, u)
    &&& forall|i: int|
        0 <= i < cats.len() && place(cats[i], u) == Ordering::Equal ==> node_searchable(
            #[trigger] cats[i],
            u,
        )
}

/// The search for `u` meets siblings in order below `c`.
pub closed spec fn node_searchable(c: Categories, u: Seq<char>) -> bool
    decreases c,
{
    match c.categories {
        Some(v) => searchable(v@, u),
        None => true,
    }
}

/// `v` is the code of a leaf reached from `cats` by going down, at each
/// level, into a node whose index holds the upper-cased code `u`.
pub closed spec fn reaches(cats: Seq<Categories>, u: Seq<char>, v: CodeView) -> bool
    decreases cats,
{
    exists|i: int| 0 <= i < cats.len() && node_reaches(#[trigger] cats[i], u, v)
}

/// `v` is the code of a leaf reached from node `c` for `u`.
pub closed spec fn node_reaches(c: Categories, u: Seq<char>, v: CodeView) -> bool
    decreases c,
{
    &&& place(c, u) == Ordering::Equal
    &&& match c.categories {
        None => c.code_view() == v,
        Some(ch) => reaches(ch@, u, v),
    }
}

/// Exact lookup is unambiguous: where the siblings are in order for the
/// code at every level, at most one leaf is reached.
pub proof fn lemma_reaches_unique(cats: Seq<Categories>, u: Seq<char>, v: CodeView, w: CodeView)
    requires
        searchable(cats, u),
        reaches(cats, u, v),
        reaches(cats, u, w),
    ensures
        v == w,
    decreases cats,
{
    let i = choose|i: int| 0 <= i < cats.len() && node_reaches(#[trigger] cats[i], u, v);
    let j = choose|j: int| 0 <= j < cats.len() && node_reaches(#[trigger] cats[j], u, w);
    assert(place(cats[i], u) == Ordering::Equal);
    assert(place(cats[j], u) == Ordering::Equal);
    assert(i == j);
    assert(node_searchable(cats[i], u));
    match cats[i].categories {
        None => {},
        Some(ch) => {
            assert(decreases_to!(cats => cats[i]));
            lemma_reaches_unique(ch@, u, v, w);
        },
    }
}

/// Binary search, among siblings, for the node whose index holds the
/// upper-cased code.
fn locate_code_in_categories(upper: &Vec<char>, categories: &Vec<Categories>) -> (r: Option<
    usize,
>)
    ensures
        r matches Some(i) ==> i < categories.len() && place(categories@[i as int], upper@)
            == Ordering::Equal,
        r matches Some(i) ==> search_level(categories@, upper@) == Some(i as int),
        r is None ==> search_level(categories@, upper@) is None,
        r is None ==> ordered_for(categories@, upper@) ==> forall|i: int|
            0 <= i < categories.len() ==> place(#[trigger] categories@[i], upper@)
                != Ordering::Equal,
{
    let mut lo: usize = 0;
    let mut hi: usize = categories.len();
    while lo < hi
        invariant
            lo <= hi <= categories.len(),
            search_level(categories@, upper@) == search_between(
                categories@,
                upper@,
                lo as int,
                hi as int,
            ),
            ordered_for(categories@, upper@) ==> forall|i: int|
                0 <= i < lo ==> place(#[trigger] categories@[i], upper@) == Ordering::Greater,
            ordered_for(categories@, upper@) ==> forall|i: int|
                hi <= i < categories.len() ==> place(#[trigger] categories@[i], upper@)
                    == Ordering::Less,
        decreases hi - lo,
    {
        let mid = lo + (hi - lo) / 2;
        match categories[mid].index.compare_upper(upper) {
            Ordering::Equal => {
                return Some(mid);
            },
            Ordering::Greater => {
                assert(ordered_for(categories@, upper@) ==> forall|i: int|
                    0 <= i <= mid ==> place(#[trigger] categories@[i], upper@)
                        == Ordering::Greater) by {
                    if ordered_for(categories@, upper@) {
                        assert forall|i: int| 0 <= i <= mid implies place(
                            #[trigger] categories@[i],
                            upper@,
                        ) == Ordering::Greater by {
                            if i < mid {
                                assert(place_rank(place(categories@[i], upper@)) >= place_rank(
                                    place(categories@[mid as int], upper@),
                                ));
                            }
                        }
                    }
                }
                lo = mid + 1;
            },
            Ordering::Less => {
                assert(ordered_for(categories@, upper@) ==> forall|i: int|
                    mid <= i < categories.len() ==> place(#[trigger] categories@[i], upper@)
                        == Ordering::Less) by {
                    if ordered_for(categories@, upper@) {
                        assert forall|i: int| mid <= i < categories.len() implies place(
                            #[trigger] categories@[i],
                            upper@,
                        ) == Ordering::Less by {
                            if i > mid {
                                assert(place_rank(place(categories@[mid as int], upper@))
                                    >= place_rank(place(categories@[i], upper@)));
                            }
                        }
                    }
                }
                hi = mid;
            },
        }
    }
    None
}

/// Goes down the tree for the upper-cased code, one binary search per
/// level, and interns the leaf it reaches.
fn locate_code_in_tree(
    upper: &Vec<char>,
    categories: &Vec<Categories>,
    code_store: &mut ClinicalCodeStore,
) -> (r: Result<ClinicalCodeRef, CodeTreeError>)
    requires
        old(code_store).wf(),
        old(code_store).codes().len() < usize::MAX,
    ensures
        final(code_store).wf(),
        match r {
            Ok(code_ref) => {
                let v = final(code_store).codes()[code_ref.spec_id() as int];
                &&& (code_ref.spec_id() as int) < final(code_store).codes().len()
                &&& search_leaf(categories@, upper@) == Some(v)
                &&& reaches(categories@, upper@, v)
                &&& final(code_store).codes() == intern_one(old(code_store).codes(), v)
            },
            Err(e) => {
                &&& e == CodeTreeError::NotFound
                &&& search_leaf(categories@, upper@) is None
                &&& final(code_store).codes() == old(code_store).codes()
                &&& searchable(categories@, upper@) ==> forall|v: CodeView|
                    !reaches(categories@, upper@, v)
            },
        },
    decreases categories@,
{
    match locate_code_in_categories(upper, categories) {
        Some(i) => {
            let cat = &categories[i];
            if cat.is_leaf() {
                let clinical_code = ClinicalCode::from(cat);
                let code_ref = code_store.clinical_code_ref_from(clinical_code);
                assert(node_reaches(categories@[i as int], upper@, clinical_code@));
                Ok(code_ref)
            } else {
                let sub_categories = cat.categories().unwrap();
                assert(decreases_to!(categories@ => categories@[i as int]));
                let r = locate_code_in_tree(upper, sub_categories, code_store);
                match r {
                    Ok(code_ref) => {
                        let ghost v = code_store.codes()[code_ref.spec_id() as int];
                        assert(node_reaches(categories@[i as int], upper@, v));
                    },
                    Err(_) => {
                        assert(searchable(categories@, upper@) ==> forall|v: CodeView|
                            !reaches(categories@, upper@, v)) by {
                            if searchable(categories@, upper@) {
                                assert(node_searchable(categories@[i as int], upper@));
                                assert(searchable(sub_categories@, upper@));
                                assert forall|v: CodeView| !reaches(categories@, upper@, v) by {
                                    if reaches(categories@, upper@, v) {
                                        let j = choose|j: int|
                                            0 <= j < categories.len() && node_reaches(
                                                #[trigger] categories@[j],
                                                upper@,
                                                v,
                                            );
                                        assert(place(categories@[j], upper@) == Ordering::Equal);
                                        assert(j == i);
                                        assert(reaches(sub_categories@, upper@, v));
                                    }
                                }
                            }
                        }
                    },
                }
                r
            }
        },
        None => {
            assert forall|v: CodeView|
                searchable(categories@, upper@) implies !reaches(categories@, upper@, v) by {
                if reaches(categories@, upper@, v) {
                    let j = choose|j: int|
                        0 <= j < categories.len() && node_reaches(#[trigger] categories@[j], upper@, v);
                    assert(place(categories@[j], upper@) == Ordering::Equal);
                }
            }
            Err(CodeTreeError::NotFound)
        },
    }
}

/// The siblings are sorted by index, ascending.
pub closed spec fn sorted_level(cats: Seq<Categories>) -> bool {
    forall|i: int, j: int|
        0 <= i < j < cats.len() ==> index_le(&(#[trigger] cats[i]).index, &(#[trigger] cats[j]).index)
}

/// The siblings are sorted by index at every level.
pub closed spec fn sorted_tree(cats: Seq<Categories>) -> bool
    decreases cats,
{
    &&& sorted_level(cats)
    &&& forall|i: int| 0 <= i < cats.len() ==> node_sorted(#[trigger] cats[i])
}

/// The sub-categories of `c` are sorted at every level.
pub closed spec fn node_sorted(c: Categories) -> bool
    decreases c,
{
    match c.categories {
        Some(v) => sorted_tree(v@),
        None => true,
    }
}

/// No two siblings have equal indices.
pub closed spec fn distinct_level(cats: Seq<Categories>) -> bool {
    forall|i: int, j: int|
        0 <= i < cats.len() && 0 <= j < cats.len() && i != j ==> index_cmp(
            &(#[trigger] cats[i]).index,
            &(#[trigger] cats[j]).index,
        ) != Ordering::Equal
}

/// No two siblings have equal indices, at any level.
pub closed spec fn distinct_keys(cats: Seq<Categories>) -> bool
    decreases cats,
{
    &&& distinct_level(cats)
    &&& forall|i: int| 0 <= i < cats.len() ==> node_distinct(#[trigger] cats[i])
}

/// No two siblings have equal indices, at any level below `c`.
pub closed spec fn node_distinct(c: Categories) -> bool
    decreases c,
{
    match c.categories {
        Some(v) => distinct_keys(v@),
        None => true,
    }
}

/// The excluded groups of `c`, as character sequences.
pub closed spec fn exclude_view(c: Categories) -> Option<Seq<Seq<char>>> {
    match c.exclude {
        Some(v) => Some(v@.map_values(|s: String| s@)),
        None => None,
    }
}

/// The indices of `a` and `b` have the same bounds and kind.
pub closed spec fn same_key(a: Categories, b: Categories) -> bool {
    &&& a.index.start() == b.index.start()
    &&& a.index.end() == b.index.end()
    &&& a.index.is_category() == b.index.is_category()
}

/// `a` and `b` agree in everything but their sub-categories: name,
/// description, index, excluded groups, and being a leaf or not.
pub closed spec fn same_fields(a: Categories, b: Categories) -> bool {
    &&& a.code_view() == b.code_view()
    &&& same_key(a, b)
    &&& exclude_view(a) == exclude_view(b)
    &&& (a.categories is None <==> b.categories is None)
}

/// Names the `i`-th node of `a` for matching against `b`; it only serves
/// as a trigger, so that the matching quantifiers below are used where a
/// proof asks for them.
spec fn left_node(a: Seq<Categories>, b: Seq<Categories>, i: int) -> bool {
    true
}

/// Names the `j`-th node of `b` for matching against `a` (a trigger, as
/// `left_node` is).
spec fn right_node(a: Seq<Categories>, b: Seq<Categories>, j: int) -> bool {
    true
}

/// Every node among the first `n` of `a` is matched by a node of `b`.
spec fn left_matched(a: Seq<Categories>, n: int, b: Seq<Categories>) -> bool {
    forall|i: int|
        0 <= i < n && #[trigger] left_node(a, b, i) ==> exists|j: int|
            0 <= j < b.len() && node_same(a[i], #[trigger] b[j])
}

/// Every node of `b` matches one among the first `n` of `a`.
spec fn right_matched(a: Seq<Categories>, n: int, b: Seq<Categories>) -> bool {
    forall|j: int|
        0 <= j < b.len() && #[trigger] right_node(a, b, j) ==> exists|i: int|
            0 <= i < n && node_same(#[trigger] a[i], b[j])
}

/// `b` holds the nodes of `a` in some order, at every level: as many
/// nodes, each node of either matching a node of the other.
pub closed spec fn same_up_to_order(a: Seq<Categories>, b: Seq<Categories>) -> bool
    decreases a,
{
    &&& a.len() == b.len()
    &&& forall|i: int|
        0 <= i < a.len() && #[trigger] left_node(a, b, i) ==> exists|j: int|
            0 <= j < b.len() && node_same(a[i], #[trigger] b[j])
    &&& forall|j: int|
        0 <= j < b.len() && #[trigger] right_node(a, b, j) ==> exists|i: int|
            0 <= i < a.len() && node_same(#[trigger] a[i], b[j])
}

/// `b` is node `a` with the siblings below it in some order.
pub closed spec fn node_same(a: Categories, b: Categories) -> bool
    decreases a,
{
    &&& same_fields(a, b)
    &&& (a.categories is Some && b.categories is Some) ==> same_up_to_order(
        a.categories->0@,
        b.categories->0@,
    )
}

/// `a` and `b` are the same forest, node for node, at every level.
pub closed spec fn identical(a: Seq<Categories>, b: Seq<Categories>) -> bool
    decreases a,
{
    &&& a.len() == b.len()
    &&& forall|i: int| 0 <= i < a.len() ==> node_identical(#[trigger] a[i], b[i])
}

/// `a` and `b` are the same node, with the same sub-tree.
pub closed spec fn node_identical(a: Categories, b: Categories) -> bool
    decreases a,
{
    &&& same_fields(a, b)
    &&& (a.categories is Some && b.categories is Some) ==> identical(
        a.categories->0@,
        b.categories->0@,
    )
}

/// `p` lists each of `0 .. n` once.
pub open spec fn is_permutation(p: Seq<int>, n: int) -> bool {
    &&& p.len() == n
    &&& p.no_duplicates()
    &&& forall|k: int| 0 <= k < n ==> 0 <= #[trigger] p[k] < n
}

/// `b` is `a` with the siblings reordered at every level: for some
/// permutation `p`, position `k` of `b` holds node `p[k]` of `a`, itself with
/// its sub-categories reordered.
pub closed spec fn permuted(a: Seq<Categories>, b: Seq<Categories>) -> bool
    decreases a,
{
    exists|p: Seq<int>|
        #[trigger] is_permutation(p, a.len() as int) && b.len() == a.len() && forall|k: int|
            0 <= k < b.len() && 0 <= p[k] < a.len() ==> node_permuted(a[p[k]], #[trigger] b[k])
}

/// `b` is node `a` with the siblings below it reordered at every level.
pub closed spec fn node_permuted(a: Categories, b: Categories) -> bool
    decreases a,
{
    &&& same_fields(a, b)
    &&& (a.categories is Some && b.categories is Some) ==> permuted(
        a.categories->0@,
        b.categories->0@,
    )
}

/// The position at which a node with index `x` goes into the sorted `out`:
/// after every node whose index is not above `x`.
fn insertion_point(out: &Vec<Categories>, x: &Index) -> (r: usize)
    requires
        sorted_level(out@),
    ensures
        r <= out.len(),
        forall|k: int| 0 <= k < r ==> index_le(&(#[trigger] out@[k]).index, x),
        forall|k: int| r <= k < out.len() ==> index_cmp(&(#[trigger] out@[k]).index, x) == Ordering::Greater,
{
    let mut j: usize = out.len();
    while j > 0
        invariant
            j <= out.len(),
            sorted_level(out@),
            forall|k: int| j <= k < out.len() ==> index_cmp(&(#[trigger] out@[k]).index, x) == Ordering::Greater,
        decreases j,
    {
        match out[j - 1].index.partial_cmp(x) {
            Some(Ordering::Greater) => {
                j -= 1;
            },
            _ => {
                assert forall|k: int| 0 <= k < j implies index_le(&(#[trigger] out@[k]).index, x) by {
                    if k < j - 1 {
                        lemma_index_cmp(&out@[k].index, &out@[j - 1].index, x);
                        assert(index_le(&out@[k].index, &out@[j - 1].index));
                    }
                }
                return j;
            },
        }
    }
    j
}

/// `c` with its sub-categories sorted at every level.
fn sort_node(c: Categories) -> (r: Categories)
    ensures
        node_sorted(r),
        node_same(c, r),
        node_permuted(c, r),
        node_sorted(c) ==> node_identical(c, r),
        node_distinct(c) ==> node_distinct(r),
    decreases c,
{
    let ghost c0 = c;
    let Categories { name, docs, index, categories, exclude } = c;
    let categories = match categories {
        Some(v) => {
            assert(decreases_to!(c => v));
            Some(sorted_forest(v))
        },
        None => None,
    };
    let r = Categories { name, docs, index, categories, exclude };
    assert(same_fields(c0, r));
    assert(node_same(c0, r));
    assert(node_permuted(c0, r));
    r
}

/// Keys equal in the sense of `same_key` compare `Equal`, and the other way
/// round.
proof fn lemma_same_key_cmp(a: Categories, b: Categories, c: Categories)
    requires
        same_key(a, b),
    ensures
        index_cmp(&a.index, &c.index) == index_cmp(&b.index, &c.index),
        index_cmp(&c.index, &a.index) == index_cmp(&c.index, &b.index),
{
}

/// The siblings sorted by index (stably, by insertion), each with its
/// sub-categories sorted too.
fn sorted_forest(cats: Vec<Categories>) -> (r: Vec<Categories>)
    ensures
        sorted_tree(r@),
        same_up_to_order(cats@, r@),
        permuted(cats@, r@),
        sorted_tree(cats@) ==> identical(cats@, r@),
        distinct_keys(cats@) ==> distinct_keys(r@),
    decreases cats,
{
    let ghost all = cats@;
    let mut rest = cats;
    let mut out: Vec<Categories> = Vec::new();
    let ghost mut done: int = 0;
    let ghost mut p: Seq<int> = Seq::empty();
    assert(all.subrange(0, 0) =~= Seq::<Categories>::empty());
    while rest.len() > 0
        invariant
            0 <= done <= all.len(),
            rest@ == all.subrange(done, all.len() as int),
            out.len() == done,
            sorted_tree(out@),
            decreases_to!(cats => all),
            left_matched(all, done, out@),
            right_matched(all, done, out@),
            distinct_keys(all) ==> distinct_keys(out@),
            p.len() == done,
            p.no_duplicates(),
            forall|k: int| 0 <= k < done ==> 0 <= #[trigger] p[k] < done,
            forall|k: int| 0 <= k < done ==> node_permuted(all[p[k]], #[trigger] out@[k]),
            sorted_tree(all) ==> identical(all.subrange(0, done), out@),
        decreases rest.len(),
    {
        let node = rest.remove(0);
        proof {
            assert(node == all[done]);
            assert(decreases_to!(cats => all[done]));
        }
        let node = sort_node(node);
        let j = insertion_point(&out, &node.index);
        let ghost before = out@;
        out.insert(j, node);
        proof {
            lemma_insert_sorted(before, node, j as int);
            lemma_insert_matches(all, done, before, node, j as int, out@);
            if distinct_keys(all) {
                lemma_insert_distinct(all, done, before, node, j as int);
            }
            lemma_insert_permuted(all, done, before, node, j as int, out@, p);
            if sorted_tree(all) {
                lemma_append_identical(all, done, before, node, j as int);
            }
            p = p.insert(j as int, done);
            done = done + 1;
        }
    }
    assert(all.subrange(done, all.len() as int).len() == 0);
    assert(all.len() == out.len());
    assert(done == all.len());
    assert(left_matched(all, all.len() as int, out@));
    assert(right_matched(all, all.len() as int, out@));
    assert(all.subrange(0, done) =~= all);
    assert(is_permutation(p, all.len() as int));
    assert(permuted(all, out@));
    assert(same_up_to_order(all, out@)) by {
        assert forall|i: int| 0 <= i < all.len() && #[trigger] left_node(all, out@, i) implies exists|k: int|
            0 <= k < out.len() && node_same(all[i], #[trigger] out@[k]) by {
            assert(left_node(all, out@, i));
        }
        assert forall|k: int| 0 <= k < out.len() && #[trigger] right_node(all, out@, k) implies exists|i: int|
            0 <= i < all.len() && node_same(#[trigger] all[i], out@[k]) by {
            assert(right_node(all, out@, k));
        }
    }
    out
}

/// Inserting the next input node at `j` extends the permutation by placing
/// its position there.
proof fn lemma_insert_permuted(
    all: Seq<Categories>,
    done: int,
    before: Seq<Categories>,
    node: Categories,
    j: int,
    out: Seq<Categories>,
    p: Seq<int>,
)
    requires
        0 <= done < all.len(),
        before.len() == done,
        0 <= j <= before.len(),
        out == before.insert(j, node),
        node_permuted(all[done], node),
        p.len() == done,
        p.no_duplicates(),
        forall|k: int| 0 <= k < done ==> 0 <= #[trigger] p[k] < done,
        forall|k: int| 0 <= k < done ==> node_permuted(all[p[k]], #[trigger] before[k]),
    ensures
        p.insert(j, done).len() == done + 1,
        p.insert(j, done).no_duplicates(),
        forall|k: int| 0 <= k < done + 1 ==> 0 <= #[trigger] p.insert(j, done)[k] < done + 1,
        forall|k: int|
            0 <= k < done + 1 ==> node_permuted(all[p.insert(j, done)[k]], #[trigger] out[k]),
{
    let q = p.insert(j, done);
    assert forall|k: int| 0 <= k < done + 1 implies 0 <= #[trigger] q[k] < done + 1 && q[k] == (
    if k < j {
        p[k]
    } else if k == j {
        done
    } else {
        p[k - 1]
    }) by {
        if k < j {
            assert(q[k] == p[k]);
        } else if k > j {
            assert(q[k] == p[k - 1]);
        }
    }
    assert forall|a: int, b: int| 0 <= a < q.len() && 0 <= b < q.len() && a != b implies q[a]
        != q[b] by {
        assert(0 <= q[a] < done + 1);
        assert(0 <= q[b] < done + 1);
        if a != j && b != j {
            let a0 = if a < j {
                a
            } else {
                a - 1
            };
            let b0 = if b < j {
                b
            } else {
                b - 1
            };
            assert(q[a] == p[a0]);
            assert(q[b] == p[b0]);
        } else if a == j {
            let b0 = if b < j {
                b
            } else {
                b - 1
            };
            assert(q[b] == p[b0]);
            assert(p[b0] < done);
        } else {
            let a0 = if a < j {
                a
            } else {
                a - 1
            };
            assert(q[a] == p[a0]);
            assert(p[a0] < done);
        }
    }
    assert forall|k: int| 0 <= k < done + 1 implies node_permuted(all[q[k]], #[trigger] out[k]) by {
        if k < j {
            assert(out[k] == before[k]);
            assert(node_permuted(all[p[k]], before[k]));
        } else if k > j {
            assert(out[k] == before[k - 1]);
            assert(node_permuted(all[p[k - 1]], before[k - 1]));
        }
    }
}

/// Where the input is sorted, each node goes after all those before it,
/// and the output so far is the input so far.
proof fn lemma_append_identical(
    all: Seq<Categories>,
    done: int,
    before: Seq<Categories>,
    node: Categories,
    j: int,
)
    requires
        0 <= done < all.len(),
        before.len() == done,
        0 <= j <= before.len(),
        sorted_tree(all),
        identical(all.subrange(0, done), before),
        node_sorted(all[done]) ==> node_identical(all[done], node),
        forall|k: int|
            j <= k < before.len() ==> index_cmp(&(#[trigger] before[k]).index, &node.index)
                == Ordering::Greater,
    ensures
        j == done,
        identical(all.subrange(0, done + 1), before.insert(j, node)),
{
    assert(node_sorted(all[done]));
    if j < done {
        let k = done - 1;
        assert(all.subrange(0, done)[k] == all[k]);
        assert(node_identical(all.subrange(0, done)[k], before[k]));
        assert(index_le(&all[k].index, &all[done].index));
        lemma_same_key_cmp(all[k], before[k], node);
        lemma_same_key_cmp(all[done], node, all[k]);
        lemma_index_cmp(&all[k].index, &all[done].index, &all[done].index);
        assert(false);
    }
    let out = before.insert(j, node);
    let a1 = all.subrange(0, done + 1);
    assert forall|i: int| 0 <= i < a1.len() implies node_identical(#[trigger] a1[i], out[i]) by {
        if i < done {
            assert(all.subrange(0, done)[i] == a1[i]);
            assert(out[i] == before[i]);
        }
    }
}

/// Inserting a node at its insertion point keeps the siblings sorted.
proof fn lemma_insert_sorted(before: Seq<Categories>, node: Categories, j: int)
    requires
        sorted_tree(before),
        node_sorted(node),
        0 <= j <= before.len(),
        forall|k: int| 0 <= k < j ==> index_le(&(#[trigger] before[k]).index, &node.index),
        forall|k: int|
            j <= k < before.len() ==> index_cmp(&(#[trigger] before[k]).index, &node.index)
                == Ordering::Greater,
    ensures
        sorted_tree(before.insert(j, node)),
{
    let out = before.insert(j, node);
    assert forall|a: int, b: int| 0 <= a < b < out.len() implies index_le(
        &(#[trigger] out[a]).index,
        &(#[trigger] out[b]).index,
    ) by {
        if a < j && b == j {
        } else if a == j && b > j {
            lemma_index_cmp(&before[b - 1].index, &node.index, &node.index);
        } else if a < j && b > j {
            lemma_index_cmp(&before[a].index, &node.index, &before[b - 1].index);
            lemma_index_cmp(&before[b - 1].index, &node.index, &node.index);
        } else if a > j {
            assert(out[a] == before[a - 1]);
            assert(out[b] == before[b - 1]);
        } else {
            assert(out[a] == before[a]);
        }
    }
    assert forall|k: int| 0 <= k < out.len() implies node_sorted(#[trigger] out[k]) by {
        if k < j {
            assert(out[k] == before[k]);
        } else if k > j {
            assert(out[k] == before[k - 1]);
        }
    }
}

/// Inserting the next input node keeps every input node so far matched by an
/// output node, and the other way round.
proof fn lemma_insert_matches(
    all: Seq<Categories>,
    done: int,
    before: Seq<Categories>,
    node: Categories,
    j: int,
    out: Seq<Categories>,
)
    requires
        0 <= done < all.len(),
        before.len() == done,
        0 <= j <= before.len(),
        out == before.insert(j, node),
        node_same(all[done], node),
        left_matched(all, done, before),
        right_matched(all, done, before),
    ensures
        left_matched(all, done + 1, out),
        right_matched(all, done + 1, out),
{
    assert forall|i: int| 0 <= i < done + 1 && #[trigger] left_node(all, out, i) implies exists|k: int|
        0 <= k < out.len() && node_same(all[i], #[trigger] out[k]) by {
        if i == done {
            assert(node_same(all[i], out[j]));
        } else {
            assert(left_node(all, before, i));
            let k = choose|k: int| 0 <= k < before.len() && node_same(all[i], #[trigger] before[k]);
            if k < j {
                assert(out[k] == before[k]);
                assert(node_same(all[i], out[k]));
            } else {
                assert(out[k + 1] == before[k]);
                assert(node_same(all[i], out[k + 1]));
            }
        }
    }
    assert forall|k: int| 0 <= k < out.len() && #[trigger] right_node(all, out, k) implies exists|i: int|
        0 <= i < done + 1 && node_same(#[trigger] all[i], out[k]) by {
        if k == j {
            assert(node_same(all[done], out[k]));
        } else {
            let k0 = if k < j {
                k
            } else {
                k - 1
            };
            assert(out[k] == before[k0]);
            assert(right_node(all, before, k0));
            let i = choose|i: int| 0 <= i < done && node_same(#[trigger] all[i], before[k0]);
            assert(node_same(all[i], out[k]));
        }
    }
}

/// Inserting the next input node keeps sibling indices distinct where the
/// input's are.
proof fn lemma_insert_distinct(
    all: Seq<Categories>,
    done: int,
    before: Seq<Categories>,
    node: Categories,
    j: int,
)
    requires
        0 <= done < all.len(),
        before.len() == done,
        0 <= j <= before.len(),
        distinct_keys(all),
        distinct_keys(before),
        node_same(all[done], node),
        node_distinct(all[done]) ==> node_distinct(node),
        right_matched(all, done, before),
    ensures
        distinct_keys(before.insert(j, node)),
{
    let out = before.insert(j, node);
    assert(node_distinct(all[done]));
    assert forall|k: int| 0 <= k < out.len() implies node_distinct(#[trigger] out[k]) by {
        if k < j {
            assert(out[k] == before[k]);
        } else if k > j {
            assert(out[k] == before[k - 1]);
        }
    }
    assert forall|a: int, b: int|
        0 <= a < out.len() && 0 <= b < out.len() && a != b implies index_cmp(
        &(#[trigger] out[a]).index,
        &(#[trigger] out[b]).index,
    ) != Ordering::Equal by {
        if a != j && b != j {
            let a0 = if a < j {
                a
            } else {
                a - 1
            };
            let b0 = if b < j {
                b
            } else {
                b - 1
            };
            assert(out[a] == before[a0]);
            assert(out[b] == before[b0]);
        } else {
            let k = if a == j {
                b
            } else {
                a
            };
            let k0 = if k < j {
                k
            } else {
                k - 1
            };
            assert(out[k] == before[k0]);
            assert(right_node(all, before, k0));
            let i = choose|i: int| 0 <= i < done && node_same(#[trigger] all[i], before[k0]);
            assert(same_key(all[i], out[k]));
            assert(same_key(all[done], out[j]));
            assert(index_cmp(&all[i].index, &all[done].index) != Ordering::Equal);
            lemma_same_key_cmp(all[i], out[k], all[done]);
            lemma_same_key_cmp(all[done], out[j], out[k]);
            lemma_index_cmp(&all[i].index, &all[done].index, &all[done].index);
        }
    }
}

/// Sorts the siblings by index, and their sub-categories at every level.
fn sort_categories_list_in_place(categories: &mut Vec<Categories>)
    ensures
        sorted_tree(final(categories)@),
        same_up_to_order(old(categories)@, final(categories)@),
        permuted(old(categories)@, final(categories)@),
        sorted_tree(old(categories)@) ==> identical(old(categories)@, final(categories)@),
        distinct_keys(old(categories)@) ==> distinct_keys(final(categories)@),
{
    let mut taken: Vec<Categories> = Vec::new();
    std::mem::swap(categories, &mut taken);
    *categories = sorted_forest(taken);
}

impl Categories {
    /// Sorts the sub-categories by index, at every level below this node.
    pub fn sort_categories(&mut self)
        ensures
            node_sorted(*final(self)),
            node_same(*old(self), *final(self)),
            node_permuted(*old(self), *final(self)),
            node_sorted(*old(self)) ==> node_identical(*old(self), *final(self)),
            node_distinct(*old(self)) ==> node_distinct(*final(self)),
    {
        let ghost c0 = *self;
        match self.categories.take() {
            Some(v) => {
                self.categories = Some(sorted_forest(v));
            },
            None => {},
        }
        assert(same_fields(c0, *self));
        assert(node_same(c0, *self));
        assert(node_permuted(c0, *self));
    }
}

/// Relies on `SliceRandom::choose`: `None` for an empty slice, else one of
/// its elements.
#[verifier::external_body]
fn choose_from<'a, T>(items: &'a [T], rng: &mut ChaCha8Rng) -> (r: Option<&'a T>)
    ensures
        r is None <==> items@.len() == 0,
        r matches Some(x) ==> items@.contains(*x),
{
    items.choose(rng)
}

/// Picks one of the sub-categories uniformly at random; `None` where there
/// are none.
fn pick_subcategory_uniform_random<'a>(
    categories: &'a Vec<Categories>,
    rng: &mut ChaCha8Rng,
) -> (r: Option<&'a Categories>)
    ensures
        r is None <==> categories@.len() == 0,
        r matches Some(c) ==> categories@.contains(*c),
{
    choose_from(categories.as_slice(), rng)
}

/// Every internal node at or below these siblings has sub-categories, and
/// there is at least one sibling.
pub closed spec fn nonempty_forest(cats: Seq<Categories>) -> bool
    decreases cats,
{
    &&& cats.len() > 0
    &&& forall|i: int| 0 <= i < cats.len() ==> nonempty_node(#[trigger] cats[i])
}

/// Every internal node at or below `c` has sub-categories.
pub closed spec fn nonempty_node(c: Categories) -> bool
    decreases c,
{
    match c.categories {
        Some(v) => nonempty_forest(v@),
        None => true,
    }
}

/// `v` is the code of a leaf among or below the siblings `cats`.
pub closed spec fn leaf_of(cats: Seq<Categories>, v: CodeView) -> bool
    decreases cats,
{
    exists|i: int| 0 <= i < cats.len() && node_leaf_of(#[trigger] cats[i], v)
}

/// `v` is the code of `c`, a leaf, or of a leaf below it.
pub closed spec fn node_leaf_of(c: Categories, v: CodeView) -> bool
    decreases c,
{
    match c.categories {
        None => c.code_view() == v,
        Some(ch) => leaf_of(ch@, v),
    }
}

impl Categories {
    /// A clinical code drawn from the leaves at or below this node, choosing
    /// uniformly among the sub-categories at each level.
    fn random_clinical_code(&self, rng: &mut ChaCha8Rng) -> (r: ClinicalCode)
        requires
            nonempty_node(*self),
        ensures
            node_leaf_of(*self, r@),
            self.spec_is_leaf() ==> r@ == self.code_view() && *final(rng) == *old(rng),
        decreases *self,
    {
        if self.is_leaf() {
            ClinicalCode::from(self)
        } else {
            let sub_categories = self.categories().unwrap();
            let choice = pick_subcategory_uniform_random(sub_categories, rng).unwrap();
            let ghost k = choose|k: int| 0 <= k < sub_categories@.len() && sub_categories@[k] == *choice;
            proof {
                assert(decreases_to!(*self => sub_categories@[k]));
                assert(nonempty_node(sub_categories@[k]));
            }
            let r = choice.random_clinical_code(rng);
            assert(node_leaf_of(sub_categories@[k], r@));
            r
        }
    }
}

/// The code definition file structure: the tree of categories and the
/// names of the code groups that it defines.
#[derive(PartialEq, Eq, Debug)]
pub struct ClinicalCodeTree {
    categories: Vec<Categories>,
    /// The names of the code groups present in this code tree
    groups: Vec<String>,
}

impl ClinicalCodeTree {
    /// The top-level categories.
    pub closed spec fn spec_categories(&self) -> Seq<Categories> {
        self.categories@
    }

    /// The names of the tree's groups.
    pub closed spec fn group_names(&self) -> Seq<Seq<char>> {
        self.groups@.map_values(|s: String| s@)
    }

    /// The tree's categories are `x` with the siblings sorted by index at
    /// every level: a permutation of them at each level, unchanged where `x`
    /// is sorted already (the sort is stable), and with no two siblings of
    /// equal index where `x` has none.
    pub open spec fn built_from(&self, x: Seq<Categories>) -> bool {
        &&& sorted_tree(self.spec_categories())
        &&& same_up_to_order(x, self.spec_categories())
        &&& permuted(x, self.spec_categories())
        &&& sorted_tree(x) ==> identical(x, self.spec_categories())
        &&& distinct_keys(x) ==> distinct_keys(self.spec_categories())
    }

    /// `g` is one of the tree's groups.
    pub open spec fn has_group(&self, g: Seq<char>) -> bool {
        self.group_names().contains(g)
    }

    /// A tree of the given categories and groups, with the siblings sorted
    /// by index at every level.
    pub fn new(categories: Vec<Categories>, groups: Vec<String>) -> (r: Self)
        ensures
            r.built_from(categories@),
            r.group_names() == groups@.map_values(|s: String| s@),
    {
        let mut categories = categories;
        sort_categories_list_in_place(&mut categories);
        ClinicalCodeTree { categories, groups }
    }

    /// The top-level categories, sorted by index.
    pub fn categories(&self) -> (r: &Vec<Categories>)
        ensures
            r@ == self.spec_categories(),
    {
        &self.categories
    }

    /// The names of the groups defined by the tree.
    pub fn groups(&self) -> (r: &Vec<String>)
        ensures
            r@.map_values(|s: String| s@) == self.group_names(),
    {
        &self.groups
    }

    /// True when `group` is one of the tree's groups.
    pub fn contains_group(&self, group: &String) -> (r: bool)
        ensures
            r == self.has_group(group@),
    {
        let mut i: usize = 0;
        while i < self.groups.len()
            invariant
                i <= self.groups.len(),
                forall|k: int| 0 <= k < i ==> (#[trigger] self.groups@[k])@ != group@,
            decreases self.groups.len() - i,
        {
            if self.groups[i].eq(group) {
                assert(self.group_names()[i as int] == group@);
                return true;
            }
            i += 1;
        }
        assert forall|k: int| 0 <= k < self.group_names().len() implies self.group_names()[k]
            != group@ by {
            assert(self.groups@[k]@ != group@);
        }
        false
    }

    /// The codes of the leaves in group `g`, left to right and depth first.
    pub open spec fn codes_of_group(&self, g: Seq<char>) -> Seq<CodeView> {
        group_leaves(self.spec_categories(), g)
    }

    /// The number of codes in group `group` (whether or not the tree defines
    /// it), or `None` where it exceeds `usize::MAX`. With it a caller can
    /// check that a store has room for the group before `codes_in_group`.
    pub fn group_code_count(&self, group: &String) -> (r: Option<usize>)
        ensures
            r matches Some(n) ==> n == self.codes_of_group(group@).len(),
            r is None ==> self.codes_of_group(group@).len() > usize::MAX,
    {
        count_codes_in_group(group, &self.categories)
    }

    /// A clinical code drawn at random from the tree: at every level one of
    /// the sub-categories is chosen uniformly, until a leaf is reached. (So a
    /// leaf with fewer siblings is more likely than one with many.)
    pub fn random_clinical_code(
        &self,
        rng: &mut ChaCha8Rng,
        code_store: &mut ClinicalCodeStore,
    ) -> (r: ClinicalCodeRef)
        requires
            nonempty_forest(self.spec_categories()),
            old(code_store).wf(),
            old(code_store).codes().len() < usize::MAX,
        ensures
            final(code_store).wf(),
            (r.spec_id() as int) < final(code_store).codes().len(),
            leaf_of(self.spec_categories(), final(code_store).codes()[r.spec_id() as int]),
            final(code_store).codes() == intern_one(
                old(code_store).codes(),
                final(code_store).codes()[r.spec_id() as int],
            ),
    {
        let choice = pick_subcategory_uniform_random(&self.categories, rng).unwrap();
        let ghost k = choose|k: int| 0 <= k < self.categories@.len() && self.categories@[k] == *choice;
        assert(nonempty_node(self.categories@[k]));
        let clinical_code = choice.random_clinical_code(rng);
        assert(node_leaf_of(self.categories@[k], clinical_code@));
        code_store.clinical_code_ref_from(clinical_code)
    }

    /// A code drawn uniformly from the codes of `group`.
    ///
    /// Fails with `UnknownGroup` where the tree does not define the group,
    /// and with `EmptyGroup` where the group holds no code.
    pub fn random_clinical_code_from_group(
        &self,
        rng: &mut ChaCha8Rng,
        code_store: &mut ClinicalCodeStore,
        group: &String,
    ) -> (r: Result<ClinicalCodeRef, CodeTreeError>)
        requires
            old(code_store).wf(),
            old(code_store).codes().len() + self.codes_of_group(group@).len() <= usize::MAX,
        ensures
            final(code_store).wf(),
            !self.has_group(group@) ==> r == Err::<ClinicalCodeRef, CodeTreeError>(
                CodeTreeError::UnknownGroup,
            )
                && final(code_store).codes() == old(code_store).codes(),
            self.has_group(group@) ==> final(code_store).codes() == intern_all(
                old(code_store).codes(),
                self.codes_of_group(group@),
            ),
            self.has_group(group@) && self.codes_of_group(group@).len() == 0 ==> r == Err::<
                ClinicalCodeRef,
                CodeTreeError,
            >(CodeTreeError::EmptyGroup),
            self.has_group(group@) && self.codes_of_group(group@).len() > 0 ==> r is Ok,
            r matches Ok(code_ref) ==> (code_ref.spec_id() as int) < final(code_store).codes().len()
                && self.codes_of_group(group@).contains(
                final(code_store).codes()[code_ref.spec_id() as int],
            ),
    {
        match self.codes_in_group(group, code_store) {
            Ok(codes_in_group) => {
                match choose_from(codes_in_group.as_slice(), rng) {
                    Some(code) => {
                        let ghost k = choose|k: int|
                            0 <= k < codes_in_group@.len() && codes_in_group@[k] == *code;
                        assert(self.codes_of_group(group@)[k] == code_store.codes()[code.spec_id()
                            as int]);
                        Ok(*code)
                    },
                    None => Err(CodeTreeError::EmptyGroup),
                }
            },
            Err(e) => Err(e),
        }
    }

    /// The references of all the codes in `group`, left to right and depth
    /// first, each code interned into `code_store`. A node that excludes the
    /// group is skipped with all that lies below it.
    ///
    /// Fails with `UnknownGroup` where the tree does not define the group.
    pub fn codes_in_group(&self, group: &String, code_store: &mut ClinicalCodeStore) -> (r: Result<
        Vec<ClinicalCodeRef>,
        CodeTreeError,
    >)
        requires
            old(code_store).wf(),
            old(code_store).codes().len() + self.codes_of_group(group@).len() <= usize::MAX,
        ensures
            final(code_store).wf(),
            match r {
                Ok(refs) => {
                    &&& self.has_group(group@)
                    &&& final(code_store).codes() == intern_all(
                        old(code_store).codes(),
                        self.codes_of_group(group@),
                    )
                    &&& refs.len() == self.codes_of_group(group@).len()
                    &&& forall|k: int|
                        0 <= k < refs.len() ==> (#[trigger] refs@[k].spec_id() as int)
                            < final(code_store).codes().len()
                            && final(code_store).codes()[refs@[k].spec_id() as int]
                            == self.codes_of_group(group@)[k]
                },
                Err(e) => {
                    &&& !self.has_group(group@)
                    &&& e == CodeTreeError::UnknownGroup
                    &&& final(code_store).codes() == old(code_store).codes()
                },
            },
    {
        if !self.contains_group(group) {
            Err(CodeTreeError::UnknownGroup)
        } else {
            Ok(get_codes_in_group(group, &self.categories, code_store))
        }
    }

    /// Finds the leaf whose index matches `code` exactly, interns it and
    /// returns its reference.
    ///
    /// The code is normalised first (lower case, no dots or white space) and
    /// upper-cased for comparison with the indices; then each level is binary
    /// searched for the node whose index holds it. Fails with `NotFound` where
    /// some level has no such node.
    pub fn find_exact(&self, code: String, code_store: &mut ClinicalCodeStore) -> (r: Result<
        ClinicalCodeRef,
        CodeTreeError,
    >)
        requires
            old(code_store).wf(),
            old(code_store).codes().len() < usize::MAX,
        ensures
            final(code_store).wf(),
            match r {
                Ok(code_ref) => {
                    let v = final(code_store).codes()[code_ref.spec_id() as int];
                    &&& (code_ref.spec_id() as int) < final(code_store).codes().len()
                    &&& search_leaf(self.spec_categories(), ascii_upper(normalised(code@)))
                        == Some(v)
                    &&& reaches(self.spec_categories(), ascii_upper(normalised(code@)), v)
                    &&& final(code_store).codes() == intern_one(old(code_store).codes(), v)
                },
                Err(e) => {
                    &&& e == CodeTreeError::NotFound
                    &&& search_leaf(self.spec_categories(), ascii_upper(normalised(code@)))
                        is None
                    &&& final(code_store).codes() == old(code_store).codes()
                    &&& searchable(self.spec_categories(), ascii_upper(normalised(code@)))
                        ==> forall|v: CodeView|
                        !reaches(self.spec_categories(), ascii_upper(normalised(code@)), v)
                },
            },
    {
        let normalised_code = normalise_code(code);
        let upper = upper_chars_of(normalised_code.as_str());
        locate_code_in_tree(&upper, &self.categories, code_store)
    }
}

/// `v` is the code of a leaf among or below the siblings `cats` that is
/// reached through nodes none of which excludes group `g`.
pub closed spec fn reached_unexcluded(cats: Seq<Categories>, g: Seq<char>, v: CodeView) -> bool
    decreases cats,
{
    exists|i: int| 0 <= i < cats.len() && node_reached_unexcluded(#[trigger] cats[i], g, v)
}

/// `v` is the code of `c` or of a leaf below it, reached through nodes none
/// of which excludes `g`.
pub closed spec fn node_reached_unexcluded(c: Categories, g: Seq<char>, v: CodeView) -> bool
    decreases c,
{
    &&& !c.excludes(g)
    &&& match c.categories {
        None => c.code_view() == v,
        Some(ch) => reached_unexcluded(ch@, g, v),
    }
}

/// Group membership: a code is among the codes of group `g` exactly when it
/// is the code of a leaf reached through nodes none of which excludes `g`.
pub proof fn lemma_group_membership(cats: Seq<Categories>, g: Seq<char>, v: CodeView)
    ensures
        group_leaves(cats, g).contains(v) <==> reached_unexcluded(cats, g, v),
    decreases cats,
{
    if cats.len() > 0 {
        let n = cats.len() - 1;
        let prefix = cats.subrange(0, n);
        lemma_group_membership(prefix, g, v);
        lemma_node_group_membership(cats[n], g, v);
        let a = group_leaves(prefix, g);
        let b = node_group_leaves(cats[n], g);
        assert(group_leaves(cats, g) == a + b);
        if (a + b).contains(v) {
            let k = choose|k: int| 0 <= k < (a + b).len() && (a + b)[k] == v;
            if k < a.len() {
                assert(a[k] == v);
                let i = choose|i: int|
                    0 <= i < prefix.len() && node_reached_unexcluded(#[trigger] prefix[i], g, v);
                assert(prefix[i] == cats[i]);
            } else {
                assert(b[k - a.len()] == v);
            }
        }
        if reached_unexcluded(cats, g, v) {
            let i = choose|i: int| 0 <= i < cats.len() && node_reached_unexcluded(#[trigger] cats[i], g, v);
            if i < n {
                assert(prefix[i] == cats[i]);
                let k = choose|k: int| 0 <= k < a.len() && a[k] == v;
                assert((a + b)[k] == v);
            } else {
                let k = choose|k: int| 0 <= k < b.len() && b[k] == v;
                assert((a + b)[a.len() + k] == v);
            }
        }
    }
}

/// Group membership below a single node.
pub proof fn lemma_node_group_membership(c: Categories, g: Seq<char>, v: CodeView)
    ensures
        node_group_leaves(c, g).contains(v) <==> node_reached_unexcluded(c, g, v),
    decreases c,
{
    if !c.excludes(g) {
        match c.categories {
            None => {
                assert(seq![c.code_view()][0] == c.code_view());
            },
            Some(ch) => {
                lemma_group_membership(ch@, g, v);
            },
        }
    }
}

/// Binary search over siblings in order for `u` finds the one that holds
/// it.
proof fn lemma_search_between_complete(cats: Seq<Categories>, u: Seq<char>, lo: int, hi: int, e: int)
    requires
        ordered_for(cats, u),
        0 <= lo <= hi <= cats.len(),
        0 <= e < cats.len(),
        place(cats[e], u) == Ordering::Equal,
        forall|i: int| 0 <= i < lo ==> place(#[trigger] cats[i], u) == Ordering::Greater,
        forall|i: int| hi <= i < cats.len() ==> place(#[trigger] cats[i], u) == Ordering::Less,
    ensures
        search_between(cats, u, lo, hi) == Some(e),
    decreases hi - lo,
{
    if lo >= hi {
        if e < lo {
            assert(place(cats[e], u) == Ordering::Greater);
        } else {
            assert(place(cats[e], u) == Ordering::Less);
        }
    } else {
        let mid = lo + (hi - lo) / 2;
        if place(cats[mid], u) == Ordering::Greater {
            assert forall|i: int| 0 <= i < mid + 1 implies place(#[trigger] cats[i], u)
                == Ordering::Greater by {
                if i < mid {
                    assert(place_rank(place(cats[i], u)) >= place_rank(place(cats[mid], u)));
                }
            }
            lemma_search_between_complete(cats, u, mid + 1, hi, e);
        } else if place(cats[mid], u) == Ordering::Less {
            assert forall|i: int| mid <= i < cats.len() implies place(#[trigger] cats[i], u)
                == Ordering::Less by {
                if i > mid {
                    assert(place_rank(place(cats[mid], u)) >= place_rank(place(cats[i], u)));
                }
            }
            lemma_search_between_complete(cats, u, lo, mid, e);
        } else {
            assert(place(cats[mid], u) == Ordering::Equal);
        }
    }
}

/// Where the siblings are in order for `u` at every level the search goes
/// down to, the search finds every leaf that matches `u` at each level.
pub proof fn lemma_search_leaf_complete(cats: Seq<Categories>, u: Seq<char>, v: CodeView)
    requires
        searchable(cats, u),
        reaches(cats, u, v),
    ensures
        search_leaf(cats, u) == Some(v),
    decreases cats,
{
    let i = choose|i: int| 0 <= i < cats.len() && node_reaches(#[trigger] cats[i], u, v);
    assert(place(cats[i], u) == Ordering::Equal);
    lemma_search_between_complete(cats, u, 0, cats.len() as int, i);
    assert(node_searchable(cats[i], u));
    match cats[i].categories {
        None => {},
        Some(ch) => {
            assert(decreases_to!(cats => cats[i]));
            lemma_search_leaf_complete(ch@, u, v);
        },
    }
}

impl ClinicalCodeTree {
    /// Group exclusion: a code is among `codes_in_group(g)` exactly when it
    /// is the code of a leaf reached through nodes none of which excludes
    /// `g`. A leaf whose enclosing categories exclude `g` is therefore never
    /// among them, whatever other groups it belongs to.
    pub proof fn lemma_group_exclusion(&self, g: Seq<char>, v: CodeView)
        ensures
            self.codes_of_group(g).contains(v) <==> reached_unexcluded(self.spec_categories(), g, v),
    {
        lemma_group_membership(self.spec_categories(), g, v);
    }

    /// Round-trip lookup: where the search for `code` meets siblings in order
    /// at every level (which `search_is_ordered` checks) and reaches the leaf
    /// `leaf`, the search finds exactly that leaf, so `find_exact(code)`
    /// succeeds and resolves to it; no other leaf is reached.
    pub proof fn lemma_round_trip(&self, code: Seq<char>, leaf: CodeView)
        requires
            searchable(self.spec_categories(), ascii_upper(normalised(code))),
            reaches(self.spec_categories(), ascii_upper(normalised(code)), leaf),
        ensures
            search_leaf(self.spec_categories(), ascii_upper(normalised(code))) == Some(leaf),
            !(forall|v: CodeView| !reaches(self.spec_categories(), ascii_upper(normalised(code)), v)),
            forall|w: CodeView|
                reaches(self.spec_categories(), ascii_upper(normalised(code)), w) ==> w == leaf,
    {
        assert forall|w: CodeView|
            reaches(self.spec_categories(), ascii_upper(normalised(code)), w) implies w == leaf by {
            lemma_reaches_unique(self.spec_categories(), ascii_upper(normalised(code)), leaf, w);
        }
        lemma_search_leaf_complete(self.spec_categories(), ascii_upper(normalised(code)), leaf);
    }
}

/// Matching is symmetric.
proof fn lemma_same_sym(a: Seq<Categories>, b: Seq<Categories>)
    requires
        same_up_to_order(a, b),
    ensures
        same_up_to_order(b, a),
    decreases a,
{
    assert forall|j: int| 0 <= j < b.len() && #[trigger] left_node(b, a, j) implies exists|i: int|
        0 <= i < a.len() && node_same(b[j], #[trigger] a[i]) by {
        assert(right_node(a, b, j));
        let i = choose|i: int| 0 <= i < a.len() && node_same(#[trigger] a[i], b[j]);
        lemma_node_same_sym(a[i], b[j]);
    }
    assert forall|i: int| 0 <= i < a.len() && #[trigger] right_node(b, a, i) implies exists|j: int|
        0 <= j < b.len() && node_same(#[trigger] b[j], a[i]) by {
        assert(left_node(a, b, i));
        let j = choose|j: int| 0 <= j < b.len() && node_same(a[i], #[trigger] b[j]);
        lemma_node_same_sym(a[i], b[j]);
    }
}

proof fn lemma_node_same_sym(x: Categories, y: Categories)
    requires
        node_same(x, y),
    ensures
        node_same(y, x),
    decreases x,
{
    if x.categories is Some && y.categories is Some {
        lemma_same_sym(x.categories->0@, y.categories->0@);
    }
}

/// Matching is transitive.
proof fn lemma_same_trans(a: Seq<Categories>, b: Seq<Categories>, c: Seq<Categories>)
    requires
        same_up_to_order(a, b),
        same_up_to_order(b, c),
    ensures
        same_up_to_order(a, c),
    decreases a,
{
    assert forall|i: int| 0 <= i < a.len() && #[trigger] left_node(a, c, i) implies exists|k: int|
        0 <= k < c.len() && node_same(a[i], #[trigger] c[k]) by {
        assert(left_node(a, b, i));
        let j = choose|j: int| 0 <= j < b.len() && node_same(a[i], #[trigger] b[j]);
        assert(left_node(b, c, j));
        let k = choose|k: int| 0 <= k < c.len() && node_same(b[j], #[trigger] c[k]);
        lemma_node_same_trans(a[i], b[j], c[k]);
    }
    assert forall|k: int| 0 <= k < c.len() && #[trigger] right_node(a, c, k) implies exists|i: int|
        0 <= i < a.len() && node_same(#[trigger] a[i], c[k]) by {
        assert(right_node(b, c, k));
        let j = choose|j: int| 0 <= j < b.len() && node_same(#[trigger] b[j], c[k]);
        assert(right_node(a, b, j));
        let i = choose|i: int| 0 <= i < a.len() && node_same(#[trigger] a[i], b[j]);
        lemma_node_same_trans(a[i], b[j], c[k]);
    }
}

proof fn lemma_node_same_trans(x: Categories, y: Categories, z: Categories)
    requires
        node_same(x, y),
        node_same(y, z),
    ensures
        node_same(x, z),
    decreases x,
{
    if x.categories is Some && z.categories is Some {
        lemma_same_trans(x.categories->0@, y.categories->0@, z.categories->0@);
    }
}

/// The indices of the siblings rise strictly.
spec fn strictly_sorted(s: Seq<Categories>) -> bool {
    forall|i: int, j: int|
        0 <= i < j < s.len() ==> index_cmp(&(#[trigger] s[i]).index, &(#[trigger] s[j]).index)
            == Ordering::Less
}

/// Each sibling of `a` has the index of a sibling of `b`, and the other way
/// round, and there are as many.
spec fn keys_match(a: Seq<Categories>, b: Seq<Categories>) -> bool {
    &&& a.len() == b.len()
    &&& forall|i: int|
        0 <= i < a.len() && #[trigger] left_node(a, b, i) ==> exists|j: int|
            0 <= j < b.len() && same_key(a[i], #[trigger] b[j])
    &&& forall|j: int|
        0 <= j < b.len() && #[trigger] right_node(a, b, j) ==> exists|i: int|
            0 <= i < a.len() && same_key(#[trigger] a[i], b[j])
}

/// Two strictly sorted sibling lists with the same indices have them in the
/// same places.
proof fn lemma_keys_align(a: Seq<Categories>, b: Seq<Categories>)
    requires
        keys_match(a, b),
        strictly_sorted(a),
        strictly_sorted(b),
    ensures
        forall|k: int| 0 <= k < a.len() ==> #[trigger] same_key(a[k], b[k]),
    decreases a.len(),
{
    if a.len() > 0 {
        assert(left_node(a, b, 0));
        let m = choose|m: int| 0 <= m < b.len() && same_key(a[0], #[trigger] b[m]);
        assert(right_node(a, b, 0));
        let i = choose|i: int| 0 <= i < a.len() && same_key(#[trigger] a[i], b[0]);
        if m > 0 {
            assert(index_cmp(&b[0].index, &b[m].index) == Ordering::Less);
            lemma_same_key_cmp(a[0], b[m], b[0]);
            lemma_index_cmp(&b[0].index, &a[0].index, &a[0].index);
            if i > 0 {
                assert(index_cmp(&a[0].index, &a[i].index) == Ordering::Less);
                lemma_same_key_cmp(a[i], b[0], a[0]);
                lemma_index_cmp(&a[0].index, &b[0].index, &b[0].index);
            }
            assert(false);
        }
        let a1 = a.drop_first();
        let b1 = b.drop_first();
        assert forall|p: int| 0 <= p < a1.len() && #[trigger] left_node(a1, b1, p) implies exists|q: int|
            0 <= q < b1.len() && same_key(a1[p], #[trigger] b1[q]) by {
            assert(left_node(a, b, p + 1));
            let q = choose|q: int| 0 <= q < b.len() && same_key(a[p + 1], #[trigger] b[q]);
            if q == 0 {
                assert(index_cmp(&a[0].index, &a[p + 1].index) == Ordering::Less);
                lemma_same_key_cmp(a[p + 1], b[0], a[0]);
                lemma_same_key_cmp(a[0], b[0], b[0]);
                lemma_index_cmp(&a[0].index, &b[0].index, &b[0].index);
                assert(false);
            }
            assert(b1[q - 1] == b[q]);
        }
        assert forall|q: int| 0 <= q < b1.len() && #[trigger] right_node(a1, b1, q) implies exists|p: int|
            0 <= p < a1.len() && same_key(#[trigger] a1[p], b1[q]) by {
            assert(right_node(a, b, q + 1));
            let p = choose|p: int| 0 <= p < a.len() && same_key(#[trigger] a[p], b[q + 1]);
            if p == 0 {
                assert(index_cmp(&b[0].index, &b[q + 1].index) == Ordering::Less);
                lemma_same_key_cmp(a[0], b[q + 1], b[0]);
                lemma_same_key_cmp(a[0], b[0], b[0]);
                lemma_index_cmp(&b[0].index, &a[0].index, &a[0].index);
                assert(false);
            }
            assert(a1[p - 1] == a[p]);
        }
        lemma_keys_align(a1, b1);
        assert forall|k: int| 0 <= k < a.len() implies #[trigger] same_key(a[k], b[k]) by {
            if k > 0 {
                assert(same_key(a1[k - 1], b1[k - 1]));
            }
        }
    }
}

/// Sorted forests, without equal sibling indices, that match up to the
/// order of siblings are identical.
proof fn lemma_sorted_same_identical(a: Seq<Categories>, b: Seq<Categories>)
    requires
        same_up_to_order(a, b),
        sorted_tree(a),
        sorted_tree(b),
        distinct_keys(a),
        distinct_keys(b),
    ensures
        identical(a, b),
    decreases a,
{
    assert(strictly_sorted(a));
    assert(strictly_sorted(b));
    assert forall|i: int| 0 <= i < a.len() && #[trigger] left_node(a, b, i) implies exists|j: int|
        0 <= j < b.len() && same_key(a[i], #[trigger] b[j]) by {
        let j = choose|j: int| 0 <= j < b.len() && node_same(a[i], #[trigger] b[j]);
    }
    assert forall|j: int| 0 <= j < b.len() && #[trigger] right_node(a, b, j) implies exists|i: int|
        0 <= i < a.len() && same_key(#[trigger] a[i], b[j]) by {
        let i = choose|i: int| 0 <= i < a.len() && node_same(#[trigger] a[i], b[j]);
    }
    assert(keys_match(a, b));
    lemma_keys_align(a, b);
    assert forall|k: int| 0 <= k < a.len() implies node_identical(#[trigger] a[k], b[k]) by {
        assert(left_node(a, b, k));
        let m = choose|m: int| 0 <= m < b.len() && node_same(a[k], #[trigger] b[m]);
        assert(same_key(a[k], b[k]));
        if m != k {
            lemma_same_key_cmp(a[k], b[k], b[m]);
            lemma_same_key_cmp(a[k], b[m], b[m]);
            lemma_index_cmp(&b[m].index, &b[m].index, &b[m].index);
            lemma_index_cmp(&b[k].index, &b[m].index, &b[m].index);
            assert(false);
        }
        assert(node_sorted(a[k]) && node_sorted(b[k]));
        assert(node_distinct(a[k]) && node_distinct(b[k]));
        if a[k].categories is Some && b[k].categories is Some {
            lemma_sorted_same_identical(a[k].categories->0@, b[k].categories->0@);
        }
    }
}

impl ClinicalCodeTree {
    /// Sort idempotence: two trees built from forests that differ only in
    /// the order of siblings, at any levels, are identical, where no two
    /// siblings have equal indices.
    pub proof fn lemma_build_ignores_sibling_order(
        x: Seq<Categories>,
        y: Seq<Categories>,
        t1: ClinicalCodeTree,
        t2: ClinicalCodeTree,
    )
        requires
            same_up_to_order(x, y),
            distinct_keys(x),
            distinct_keys(y),
            t1.built_from(x),
            t2.built_from(y),
        ensures
            identical(t1.spec_categories(), t2.spec_categories()),
    {
        let rx = t1.spec_categories();
        let ry = t2.spec_categories();
        lemma_same_sym(x, rx);
        lemma_same_trans(rx, x, y);
        lemma_same_trans(rx, y, ry);
        lemma_sorted_same_identical(rx, ry);
    }
}

/// One step of `group_leaves`: the codes of the siblings are those of all
/// but the last, then those at or below the last.
pub proof fn lemma_group_leaves_unfold(cats: Seq<Categories>, g: Seq<char>)
    ensures
        cats.len() == 0 ==> group_leaves(cats, g) == Seq::<CodeView>::empty(),
        cats.len() > 0 ==> group_leaves(cats, g) == group_leaves(cats.drop_last(), g)
            + node_group_leaves(cats.last(), g),
{
}

/// One step of `node_group_leaves`: nothing for a node that excludes the
/// group, the node's own code for a leaf, else the codes of its
/// sub-categories.
pub proof fn lemma_node_group_leaves_unfold(c: Categories, g: Seq<char>)
    ensures
        node_group_leaves(c, g) == if c.excludes(g) {
            Seq::<CodeView>::empty()
        } else if c.spec_is_leaf() {
            seq![c.code_view()]
        } else {
            group_leaves(c.spec_children(), g)
        },
{
}

/// One step of `reaches` and `node_reaches`.
pub proof fn lemma_reaches_unfold(cats: Seq<Categories>, c: Categories, u: Seq<char>, v: CodeView)
    ensures
        reaches(cats, u, v) <==> exists|i: int| 0 <= i < cats.len() && node_reaches(#[trigger] cats[i], u, v),
        node_reaches(c, u, v) <==> place(c, u) == Ordering::Equal && if c.spec_is_leaf() {
            c.code_view() == v
        } else {
            reaches(c.spec_children(), u, v)
        },
{
}

/// What `ordered_for` and `searchable` say, one level at a time.
pub proof fn lemma_searchable_unfold(cats: Seq<Categories>, c: Categories, u: Seq<char>)
    ensures
        ordered_for(cats, u) <==> (forall|i: int, j: int|
            0 <= i < j < cats.len() ==> place_rank(#[trigger] place(cats[i], u)) >= place_rank(
                #[trigger] place(cats[j], u),
            )) && (forall|i: int, j: int|
            0 <= i < cats.len() && 0 <= j < cats.len() && #[trigger] place(cats[i], u)
                == Ordering::Equal && #[trigger] place(cats[j], u) == Ordering::Equal ==> i == j),
        searchable(cats, u) <==> ordered_for(cats, u) && forall|i: int|
            0 <= i < cats.len() && place(cats[i], u) == Ordering::Equal ==> node_searchable(
                #[trigger] cats[i],
                u,
            ),
        node_searchable(c, u) <==> (!c.spec_is_leaf() ==> searchable(c.spec_children(), u)),
{
}

/// What `identical`, `node_identical`, `distinct_keys` and `node_distinct`
/// say, one level at a time.
pub proof fn lemma_identical_distinct_unfold(
    a: Seq<Categories>,
    b: Seq<Categories>,
    x: Categories,
    y: Categories,
)
    ensures
        identical(a, b) <==> a.len() == b.len() && forall|i: int|
            0 <= i < a.len() ==> node_identical(#[trigger] a[i], b[i]),
        node_identical(x, y) <==> same_fields(x, y) && ((!x.spec_is_leaf() && !y.spec_is_leaf())
            ==> identical(x.spec_children(), y.spec_children())),
        same_fields(x, y) <==> x.code_view() == y.code_view() && x.spec_index().start()
            == y.spec_index().start() && x.spec_index().end() == y.spec_index().end()
            && x.spec_index().is_category() == y.spec_index().is_category() && exclude_view(x)
            == exclude_view(y) && x.spec_is_leaf() == y.spec_is_leaf(),
        distinct_keys(a) <==> (forall|i: int, j: int|
            0 <= i < a.len() && 0 <= j < a.len() && i != j ==> index_cmp(
                (#[trigger] a[i]).spec_index(),
                (#[trigger] a[j]).spec_index(),
            ) != Ordering::Equal) && forall|i: int|
            0 <= i < a.len() ==> node_distinct(#[trigger] a[i]),
        node_distinct(x) <==> (!x.spec_is_leaf() ==> distinct_keys(x.spec_children())),
{
}

/// One step of `reached_unexcluded` and `node_reached_unexcluded`.
pub proof fn lemma_reached_unexcluded_unfold(
    cats: Seq<Categories>,
    c: Categories,
    g: Seq<char>,
    v: CodeView,
)
    ensures
        reached_unexcluded(cats, g, v) <==> exists|i: int|
            0 <= i < cats.len() && node_reached_unexcluded(#[trigger] cats[i], g, v),
        node_reached_unexcluded(c, g, v) <==> !c.excludes(g) && if c.spec_is_leaf() {
            c.code_view() == v
        } else {
            reached_unexcluded(c.spec_children(), g, v)
        },
{
}

/// One step of `leaf_of` and `node_leaf_of`.
pub proof fn lemma_leaf_of_unfold(cats: Seq<Categories>, c: Categories, v: CodeView)
    ensures
        leaf_of(cats, v) <==> exists|i: int| 0 <= i < cats.len() && node_leaf_of(#[trigger] cats[i], v),
        node_leaf_of(c, v) <==> if c.spec_is_leaf() {
            c.code_view() == v
        } else {
            leaf_of(c.spec_children(), v)
        },
{
}

/// One step of `nonempty_forest` and `nonempty_node`.
pub proof fn lemma_nonempty_unfold(cats: Seq<Categories>, c: Categories)
    ensures
        nonempty_forest(cats) <==> cats.len() > 0 && forall|i: int|
            0 <= i < cats.len() ==> nonempty_node(#[trigger] cats[i]),
        nonempty_node(c) <==> (!c.spec_is_leaf() ==> nonempty_forest(c.spec_children())),
{
}

/// One step of `sorted_tree` and `node_sorted`.
pub proof fn lemma_sorted_unfold(cats: Seq<Categories>, c: Categories)
    ensures
        sorted_tree(cats) <==> (forall|i: int, j: int|
            0 <= i < j < cats.len() ==> index_le(
                (#[trigger] cats[i]).spec_index(),
                (#[trigger] cats[j]).spec_index(),
            )) && forall|i: int| 0 <= i < cats.len() ==> node_sorted(#[trigger] cats[i]),
        node_sorted(c) <==> (!c.spec_is_leaf() ==> sorted_tree(c.spec_children())),
{
}

/// Every internal node of the siblings, at every level, has
/// sub-categories, and there is at least one sibling.
fn forest_nonempty(cats: &Vec<Categories>) -> (r: bool)
    ensures
        r == nonempty_forest(cats@),
    decreases cats@,
{
    if cats.len() == 0 {
        return false;
    }
    let mut i: usize = 0;
    while i < cats.len()
        invariant
            i <= cats.len(),
            forall|k: int| 0 <= k < i ==> nonempty_node(#[trigger] cats@[k]),
        decreases cats.len() - i,
    {
        let node = &cats[i];
        if !node.is_leaf() {
            let children = node.categories().unwrap();
            assert(decreases_to!(cats@ => cats@[i as int]));
            if !forest_nonempty(children) {
                assert(!nonempty_node(cats@[i as int]));
                return false;
            }
        }
        i += 1;
    }
    true
}

impl ClinicalCodeTree {
    /// True when a code can be drawn from the whole tree: there is at least
    /// one top-level category and every internal node has sub-categories.
    pub fn can_draw(&self) -> (r: bool)
        ensures
            r == nonempty_forest(self.spec_categories()),
    {
        forest_nonempty(&self.categories)
    }
}

/// Checks that the search for the upper-cased code meets siblings in order
/// at every level it goes down to.
fn forest_searchable(upper: &Vec<char>, cats: &Vec<Categories>) -> (r: bool)
    ensures
        r == searchable(cats@, upper@),
    decreases cats@,
{
    let mut i: usize = 0;
    let mut last_rank: u8 = 2;
    let mut equal_at: Option<usize> = None;
    while i < cats.len()
        invariant
            i <= cats.len(),
            forall|a: int, b: int|
                0 <= a < b < i ==> place_rank(#[trigger] place(cats@[a], upper@)) >= place_rank(
                    #[trigger] place(cats@[b], upper@),
                ),
            i > 0 ==> last_rank == place_rank(place(cats@[i - 1], upper@)),
            i == 0 ==> last_rank == 2,
            forall|a: int|
                0 <= a < i && #[trigger] place(cats@[a], upper@) == Ordering::Equal ==> equal_at
                    == Some(a as usize),
            equal_at matches Some(e) ==> e < i && place(cats@[e as int], upper@) == Ordering::Equal,
            forall|a: int|
                0 <= a < i && place(cats@[a], upper@) == Ordering::Equal ==> node_searchable(
                    #[trigger] cats@[a],
                    upper@,
                ),
        decreases cats.len() - i,
    {
        let o = cats[i].index.compare_upper(upper);
        let rank: u8 = match o {
            Ordering::Greater => 2,
            Ordering::Equal => 1,
            Ordering::Less => 0,
        };
        assert(rank as int == place_rank(place(cats@[i as int], upper@)));
        if rank > last_rank {
            assert(!ordered_for(cats@, upper@)) by {
                assert(place_rank(place(cats@[i - 1], upper@)) < place_rank(
                    place(cats@[i as int], upper@),
                ));
            }
            return false;
        }
        if rank == 1 {
            match equal_at {
                Some(e) => {
                    assert(!ordered_for(cats@, upper@)) by {
                        assert(place(cats@[e as int], upper@) == Ordering::Equal);
                        assert(place(cats@[i as int], upper@) == Ordering::Equal);
                    }
                    return false;
                },
                None => {},
            }
            if !cats[i].is_leaf() {
                let children = cats[i].categories().unwrap();
                assert(decreases_to!(cats@ => cats@[i as int]));
                if !forest_searchable(upper, children) {
                    assert(!node_searchable(cats@[i as int], upper@));
                    return false;
                }
            }
            equal_at = Some(i);
        }
        last_rank = rank;
        i += 1;
    }
    assert(ordered_for(cats@, upper@));
    true
}

impl ClinicalCodeTree {
    /// True when the search for `code` (normalised and upper-cased, as
    /// `find_exact` does) meets siblings in order at every level it goes
    /// down to. Where it holds, `find_exact(code)` fails only if no leaf
    /// matches, and otherwise finds the one leaf that does.
    pub fn search_is_ordered(&self, code: &String) -> (r: bool)
        ensures
            r == searchable(self.spec_categories(), ascii_upper(normalised(code@))),
    {
        let normalised_code = normalise_code(code.clone());
        let upper = upper_chars_of(normalised_code.as_str());
        forest_searchable(&upper, &self.categories)
    }
}

} // verus!
