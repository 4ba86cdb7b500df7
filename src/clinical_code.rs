//! Clinical codes (ICD-10 and OPCS-4) and the store that interns them.
//!
//! A `ClinicalCode` holds the name and description of a code. Programs pass
//! around `ClinicalCodeRef`s instead, small handles into a
//! `ClinicalCodeStore`, so that later processing avoids string work.

use bimap::BiMap;
use vstd::prelude::*;

verus! {

/// The name and description of a code, as plain character sequences.
pub type CodeView = (Seq<char>, Seq<char>);

/// A diagnosis (ICD-10) code.
#[derive(Debug)]
pub struct DiagnosisCode(pub ClinicalCodeRef);

/// A procedure (OPCS-4) code.
#[derive(Debug)]
pub struct ProcedureCode(pub ClinicalCodeRef);

/// The data for a clinical code: its name (e.g. I22.1) and its description.
#[derive(Clone, PartialEq, Eq, Hash, Debug)]
pub struct ClinicalCode {
    name: String,
    docs: String,
}

impl View for ClinicalCode {
    type V = CodeView;

    closed spec fn view(&self) -> CodeView {
        (self.name@, self.docs@)
    }
}

impl ClinicalCode {
    /// A clinical code with a name and a description.
    pub fn new(name: String, docs: String) -> (r: Self)
        ensures
            r@ == (name@, docs@),
    {
        ClinicalCode { name, docs }
    }

    /// The code of a node of a clinical code tree.
    pub fn from(category: &crate::clinical_code_tree::Categories) -> (r: Self)
        ensures
            r@ == category.code_view(),
    {
        Self::new(category.name().clone(), category.docs().clone())
    }

    pub fn name(&self) -> (r: &String)
        ensures
            r@ == self@.0,
    {
        &self.name
    }

    pub fn docs(&self) -> (r: &String)
        ensures
            r@ == self@.1,
    {
        &self.docs
    }
}

/// An opaque handle on a clinical code held in a `ClinicalCodeStore`.
#[derive(Clone, Copy, PartialEq, Eq, Structural, Debug)]
pub struct ClinicalCodeRef {
    id: u64,
}

impl ClinicalCodeRef {
    pub closed spec fn spec_id(&self) -> u64 {
        self.id
    }

    /// A handle with the given raw id.
    pub fn from(id: u64) -> (r: Self)
        ensures
            r.spec_id() == id,
    {
        ClinicalCodeRef { id }
    }

    /// The raw id.
    pub fn id(&self) -> (r: u64)
        ensures
            r == self.spec_id(),
    {
        self.id
    }
}

/// The bimap of the `bimap` crate, held opaque.
#[verifier::external_type_specification]
#[verifier::external_body]
#[verifier::reject_recursive_types(L)]
#[verifier::reject_recursive_types(R)]
#[verifier::reject_recursive_types(LS)]
#[verifier::reject_recursive_types(RS)]
pub struct ExBiHashMap<L, R, LS, RS>(bimap::BiHashMap<L, R, LS, RS>);

/// The pairs held by a bimap of ids and codes, as a map from id to the
/// code's name and description.
pub uninterp spec fn code_table(m: BiMap<u64, ClinicalCode>) -> Map<u64, CodeView>;

/// Relies on `BiHashMap::new`: a new bimap holds no pairs.
#[verifier::external_body]
fn table_new() -> (r: BiMap<u64, ClinicalCode>)
    ensures
        code_table(r).len() == 0,
        forall|k: u64| !(#[trigger] code_table(r).contains_key(k)),
{
    BiMap::new()
}

/// Relies on `BiHashMap::len`: the number of pairs held.
#[verifier::external_body]
fn table_len(m: &BiMap<u64, ClinicalCode>) -> (r: usize)
    ensures
        r == code_table(*m).len(),
{
    m.len()
}

/// Relies on `BiHashMap::get_by_left`: the code paired with `id`, if any.
#[verifier::external_body]
fn table_get_by_left<'a>(m: &'a BiMap<u64, ClinicalCode>, id: &u64) -> (r: Option<
    &'a ClinicalCode,
>)
    ensures
        r is Some <==> code_table(*m).contains_key(*id),
        r matches Some(c) ==> c@ == code_table(*m)[*id],
{
    m.get_by_left(id)
}

/// Relies on `BiHashMap::get_by_right`: the id paired with a code equal to
/// `code` (the derived equality: same name and same description), if any.
#[verifier::external_body]
fn table_get_by_right<'a>(m: &'a BiMap<u64, ClinicalCode>, code: &ClinicalCode) -> (r: Option<
    &'a u64,
>)
    ensures
        r matches Some(id) ==> code_table(*m).contains_key(*id) && code_table(*m)[*id]
            == code@,
        r is None ==> forall|id: u64| #[trigger]
            code_table(*m).contains_key(id) ==> code_table(*m)[id] != code@,
{
    m.get_by_right(code)
}

/// Relies on `BiHashMap::insert`: where neither `id` nor `code` is held yet,
/// the pair is added and nothing else changes.
#[verifier::external_body]
fn table_insert(m: &mut BiMap<u64, ClinicalCode>, id: u64, code: ClinicalCode)
    requires
        !code_table(*old(m)).contains_key(id),
        forall|k: u64| #[trigger]
            code_table(*old(m)).contains_key(k) ==> code_table(*old(m))[k] != code@,
        code_table(*old(m)).len() < usize::MAX,
    ensures
        code_table(*final(m)) == code_table(*old(m)).insert(id, code@),
        code_table(*final(m)).len() == code_table(*old(m)).len() + 1,
{
    m.insert(id, code);
}

/// The codes held after interning `v` into `s`: unchanged if `v` is held,
/// else `v` appended.
pub open spec fn intern_one(s: Seq<CodeView>, v: CodeView) -> Seq<CodeView> {
    if s.contains(v) {
        s
    } else {
        s.push(v)
    }
}

/// The codes held after interning each of `vs` in turn into `s`.
pub open spec fn intern_all(s: Seq<CodeView>, vs: Seq<CodeView>) -> Seq<CodeView>
    decreases vs.len(),
{
    if vs.len() == 0 {
        s
    } else {
        intern_one(intern_all(s, vs.drop_last()), vs.last())
    }
}

/// Interning keeps the codes distinct.
pub proof fn lemma_intern_one_distinct(s: Seq<CodeView>, v: CodeView)
    requires
        s.no_duplicates(),
    ensures
        intern_one(s, v).no_duplicates(),
        intern_one(s, v).contains(v),
{
    if !s.contains(v) {
        assert(s.push(v)[s.len() as int] == v);
        assert forall|i: int, j: int|
            0 <= i < s.len() + 1 && 0 <= j < s.len() + 1 && i != j implies s.push(v)[i]
            != s.push(v)[j] by {
            if i < s.len() && j == s.len() {
                assert(s.contains(s[i]));
            } else if j < s.len() && i == s.len() {
                assert(s.contains(s[j]));
            }
        }
    }
}

/// Store dedup: interning the same code twice leaves the store as the first
/// interning left it, and both calls name the code by the same id.
pub proof fn lemma_intern_twice(s: Seq<CodeView>, v: CodeView, id1: int, id2: int)
    requires
        s.no_duplicates(),
        0 <= id1 < intern_one(s, v).len(),
        intern_one(s, v)[id1] == v,
        0 <= id2 < intern_one(intern_one(s, v), v).len(),
        intern_one(intern_one(s, v), v)[id2] == v,
    ensures
        intern_one(intern_one(s, v), v) == intern_one(s, v),
        id1 == id2,
{
    lemma_intern_one_distinct(s, v);
}

/// Interning grows the codes by at most the number of codes interned and
/// keeps every code already held at its id.
pub proof fn lemma_intern_all_prefix(s: Seq<CodeView>, vs: Seq<CodeView>)
    ensures
        s.len() <= intern_all(s, vs).len() <= s.len() + vs.len(),
        intern_all(s, vs).subrange(0, s.len() as int) == s,
    decreases vs.len(),
{
    if vs.len() > 0 {
        lemma_intern_all_prefix(s, vs.drop_last());
        let t = intern_all(s, vs.drop_last());
        assert(intern_one(t, vs.last()).subrange(0, s.len() as int) =~= t.subrange(
            0,
            s.len() as int,
        ));
    } else {
        assert(s.subrange(0, s.len() as int) =~= s);
    }
}

/// Interning the codes of `a` and then those of `b` is interning `a + b`.
pub proof fn lemma_intern_all_concat(s: Seq<CodeView>, a: Seq<CodeView>, b: Seq<CodeView>)
    ensures
        intern_all(intern_all(s, a), b) == intern_all(s, a + b),
    decreases b.len(),
{
    if b.len() == 0 {
        assert(a + b =~= a);
    } else {
        lemma_intern_all_concat(s, a, b.drop_last());
        assert((a + b).drop_last() =~= a + b.drop_last());
        assert((a + b).last() == b.last());
    }
}

/// Store dedup: interning `k` distinct codes into an empty store holds
/// exactly those codes, the `i`-th of them under id `i`.
pub proof fn lemma_intern_distinct(vs: Seq<CodeView>)
    requires
        vs.no_duplicates(),
    ensures
        intern_all(Seq::empty(), vs) == vs,
        intern_all(Seq::empty(), vs).len() == vs.len(),
    decreases vs.len(),
{
    if vs.len() > 0 {
        assert(vs.drop_last().no_duplicates());
        lemma_intern_distinct(vs.drop_last());
        assert(!vs.drop_last().contains(vs.last()));
        assert(vs.drop_last().push(vs.last()) =~= vs);
    }
}

/// All the clinical codes seen so far, each under a stable id. Ids are
/// handed out in insertion order from 0 and never reused.
#[derive(Debug)]
pub struct ClinicalCodeStore {
    ids_to_codes: BiMap<u64, ClinicalCode>,
}

impl ClinicalCodeStore {
    /// The codes held, in id order: the code with id `i` is at position `i`.
    pub closed spec fn codes(&self) -> Seq<CodeView> {
        let t = code_table(self.ids_to_codes);
        Seq::new(t.len(), |i: int| t[i as u64])
    }

    /// The ids held are exactly `0 .. len`, and no code is held twice.
    pub closed spec fn wf(&self) -> bool {
        let t = code_table(self.ids_to_codes);
        &&& forall|k: u64| #[trigger] t.contains_key(k) <==> (k as int) < t.len()
        &&& self.codes().no_duplicates()
    }

    /// No code is held under two ids.
    pub proof fn lemma_codes_distinct(&self)
        requires
            self.wf(),
        ensures
            self.codes().no_duplicates(),
    {
    }

    /// An empty store.
    pub fn new() -> (r: Self)
        ensures
            r.wf(),
            r.codes() == Seq::<CodeView>::empty(),
    {
        let r = ClinicalCodeStore { ids_to_codes: table_new() };
        assert(r.codes() =~= Seq::<CodeView>::empty());
        r
    }

    /// Interns `clinical_code` and returns its reference: the id it already
    /// has, or else the next id (the number of codes held so far).
    pub fn clinical_code_ref_from(&mut self, clinical_code: ClinicalCode) -> (r: ClinicalCodeRef)
        requires
            old(self).wf(),
            old(self).codes().len() < usize::MAX,
        ensures
            final(self).wf(),
            final(self).codes() == intern_one(old(self).codes(), clinical_code@),
            (r.spec_id() as int) < final(self).codes().len(),
            final(self).codes()[r.spec_id() as int] == clinical_code@,
    {
        let ghost t0 = code_table(self.ids_to_codes);
        match table_get_by_right(&self.ids_to_codes, &clinical_code) {
            Some(id) => {
                let id = *id;
                assert(self.codes()[id as int] == clinical_code@);
                ClinicalCodeRef::from(id)
            },
            None => {
                let n = table_len(&self.ids_to_codes);
                let next_id = n as u64;
                assert(!self.codes().contains(clinical_code@)) by {
                    if self.codes().contains(clinical_code@) {
                        let i = choose|i: int|
                            0 <= i < self.codes().len() && self.codes()[i] == clinical_code@;
                        assert(t0.contains_key(i as u64));
                    }
                }
                let ghost old_codes = self.codes();
                table_insert(&mut self.ids_to_codes, next_id, clinical_code);
                let ghost t1 = code_table(self.ids_to_codes);
                assert(self.codes() =~= old_codes.push(clinical_code@));
                assert forall|k: u64| #[trigger] t1.contains_key(k) <==> (k as int) < t1.len() by {
                    assert(t0.contains_key(k) <==> (k as int) < t0.len());
                }
                assert(self.codes().no_duplicates()) by {
                    assert forall|i: int, j: int|
                        0 <= i < self.codes().len() && 0 <= j < self.codes().len() && i != j
                            implies self.codes()[i] != self.codes()[j] by {
                        if i < old_codes.len() && j < old_codes.len() {
                            assert(old_codes[i] != old_codes[j]);
                        } else if i < old_codes.len() {
                            assert(old_codes.contains(old_codes[i]));
                        } else if j < old_codes.len() {
                            assert(old_codes.contains(old_codes[j]));
                        }
                    }
                }
                ClinicalCodeRef::from(next_id)
            },
        }
    }

    /// The code that `clinical_code_ref` refers to, or `None` where this store
    /// never handed out that id.
    pub fn clinical_code_from(&self, clinical_code_ref: &ClinicalCodeRef) -> (r: Option<
        &ClinicalCode,
    >)
        requires
            self.wf(),
        ensures
            r is Some <==> (clinical_code_ref.spec_id() as int) < self.codes().len(),
            r matches Some(c) ==> c@ == self.codes()[clinical_code_ref.spec_id() as int],
    {
        table_get_by_left(&self.ids_to_codes, &clinical_code_ref.id())
    }

    /// The number of codes held, which is also the next id.
    pub fn num_stored_codes(&self) -> (r: usize)
        ensures
            r == self.codes().len(),
    {
        table_len(&self.ids_to_codes)
    }
}

} // verus!
