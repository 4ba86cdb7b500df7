//! The range index that orders sibling categories and locates a code
//! among them.

use crate::text::{
    ascii_upper, chars_of, lemma_lex_cmp_equal, lemma_lex_cmp_swap, lemma_lex_cmp_trans, lex_cmp,
    lex_compare, truncate, truncated, upper_chars_of,
};
use std::cmp::Ordering;
use vstd::prelude::*;

verus! {

/// Index used to sort the code categories and to search for a code.
///
/// A `Leaf` holds the code itself. A `Category(start, end)` spans the codes
/// whose first `len(end)` characters lie between `start` and `end`,
/// inclusive; `start` and `end` have the same length.
#[derive(Debug)]
pub enum Index {
    Leaf(String),
    Category(String, String),
}

/// Three-way order of two indices: by start, then by end, and a leaf
/// before a category with the same bounds.
pub open spec fn index_cmp(a: &Index, b: &Index) -> Ordering {
    let s = lex_cmp(a.start(), b.start());
    let e = lex_cmp(a.end(), b.end());
    if s != Ordering::Equal {
        s
    } else if e != Ordering::Equal {
        e
    } else if a.is_category() == b.is_category() {
        Ordering::Equal
    } else if b.is_category() {
        Ordering::Less
    } else {
        Ordering::Greater
    }
}

/// `a` sorts no later than `b`.
pub open spec fn index_le(a: &Index, b: &Index) -> bool {
    index_cmp(a, b) != Ordering::Greater
}

proof fn lemma_lex_facts(a: Seq<char>, b: Seq<char>, c: Seq<char>)
    ensures
        (lex_cmp(a, b) == Ordering::Less) <==> (lex_cmp(b, a) == Ordering::Greater),
        (lex_cmp(a, b) == Ordering::Equal) <==> (a == b),
        lex_cmp(a, b) == Ordering::Less && lex_cmp(b, c) == Ordering::Less ==> lex_cmp(a, c)
            == Ordering::Less,
{
    lemma_lex_cmp_swap(a, b);
    lemma_lex_cmp_equal(a, b);
    if lex_cmp(a, b) == Ordering::Less && lex_cmp(b, c) == Ordering::Less {
        lemma_lex_cmp_trans(a, b, c);
    }
}

/// The order of indices is total: swapping the arguments reverses it, and
/// it is transitive.
pub proof fn lemma_index_cmp(a: &Index, b: &Index, c: &Index)
    ensures
        (index_cmp(a, b) == Ordering::Less) <==> (index_cmp(b, a) == Ordering::Greater),
        (index_cmp(a, b) == Ordering::Equal) <==> (index_cmp(b, a) == Ordering::Equal),
        index_le(a, b) && index_le(b, c) ==> index_le(a, c),
        index_cmp(a, b) == Ordering::Less && index_le(b, c) ==> index_cmp(a, c)
            == Ordering::Less,
{
    lemma_lex_facts(a.start(), b.start(), c.start());
    lemma_lex_facts(b.start(), a.start(), c.start());
    lemma_lex_facts(b.start(), c.start(), a.start());
    lemma_lex_facts(a.start(), c.start(), b.start());
    lemma_lex_facts(a.end(), b.end(), c.end());
    lemma_lex_facts(b.end(), a.end(), c.end());
    lemma_lex_facts(b.end(), c.end(), a.end());
    lemma_lex_facts(a.end(), c.end(), b.end());
}

impl Index {
    /// The lower end of the range (the code itself for a leaf).
    pub open spec fn start(&self) -> Seq<char> {
        match self {
            Index::Leaf(s) => s@,
            Index::Category(s, _) => s@,
        }
    }

    /// The upper end of the range (the code itself for a leaf).
    pub open spec fn end(&self) -> Seq<char> {
        match self {
            Index::Leaf(s) => s@,
            Index::Category(_, e) => e@,
        }
    }

    pub open spec fn is_category(&self) -> bool {
        self is Category
    }

    /// Where a code already in upper case lies relative to this index:
    /// `Less` below it, `Equal` inside it, `Greater` above it. A leaf is
    /// matched by the whole code, a category by the code cut to the length
    /// of its end.
    pub open spec fn upper_cmp(&self, u: Seq<char>) -> Ordering {
        match self {
            Index::Leaf(s) => lex_cmp(u, s@),
            Index::Category(s, e) => {
                if lex_cmp(u, s@) == Ordering::Less {
                    Ordering::Less
                } else if lex_cmp(truncate(u, e@.len()), e@) == Ordering::Greater {
                    Ordering::Greater
                } else {
                    Ordering::Equal
                }
            },
        }
    }

    /// Where `code` lies relative to this index, once upper-cased.
    pub open spec fn code_cmp(&self, code: Seq<char>) -> Ordering {
        self.upper_cmp(ascii_upper(code))
    }

    /// The upper-cased code, cut to the length of the start, lies in
    /// `[start, end]`.
    pub open spec fn spec_contains(&self, code: Seq<char>) -> bool {
        let t = truncate(ascii_upper(code), self.start().len());
        lex_cmp(t, self.start()) != Ordering::Less && lex_cmp(t, self.end())
            != Ordering::Greater
    }

    /// A leaf index for `start`.
    pub fn make_leaf(start: &str) -> (r: Self)
        ensures
            r is Leaf,
            r.start() == start@,
    {
        Index::Leaf(String::from_str(start))
    }

    /// A leaf index for `start` (another name for `make_leaf`).
    pub fn make_single(start: &str) -> (r: Self)
        ensures
            r is Leaf,
            r.start() == start@,
    {
        Self::make_leaf(start)
    }

    /// A category index spanning `start` to `end`.
    pub fn make_category(start: &str, end: &str) -> (r: Self)
        ensures
            r is Category,
            r.start() == start@,
            r.end() == end@,
    {
        Index::Category(String::from_str(start), String::from_str(end))
    }

    /// A category index spanning `start` to `end` (another name for
    /// `make_category`).
    pub fn make_dual(start: &str, end: &str) -> (r: Self)
        ensures
            r is Category,
            r.start() == start@,
            r.end() == end@,
    {
        Self::make_category(start, end)
    }

    /// Compares the code held as upper-case characters with this index.
    pub fn compare_upper(&self, upper: &Vec<char>) -> (r: Ordering)
        ensures
            r == self.upper_cmp(upper@),
    {
        match self {
            Index::Leaf(s) => {
                let start = chars_of(s.as_str());
                lex_compare(upper, &start)
            },
            Index::Category(s, e) => {
                let start = chars_of(s.as_str());
                let end = chars_of(e.as_str());
                if matches!(lex_compare(upper, &start), Ordering::Less) {
                    Ordering::Less
                } else {
                    let cut = truncated(upper, end.len());
                    if matches!(lex_compare(&cut, &end), Ordering::Greater) {
                        Ordering::Greater
                    } else {
                        Ordering::Equal
                    }
                }
            },
        }
    }

    /// Where `code` lies relative to this index: `Equal` when it is in the
    /// range, `Less` when it lies below it, `Greater` when above it.
    pub fn compare(&self, code: &String) -> (r: Ordering)
        ensures
            r == self.code_cmp(code@),
    {
        let upper = upper_chars_of(code.as_str());
        self.compare_upper(&upper)
    }

    /// True when `code`, upper-cased and cut to the length of the start,
    /// lies between start and end inclusive.
    pub fn contains(&self, code: &String) -> (r: bool)
        ensures
            r == self.spec_contains(code@),
    {
        let upper = upper_chars_of(code.as_str());
        let (start, end) = match self {
            Index::Leaf(s) => (chars_of(s.as_str()), chars_of(s.as_str())),
            Index::Category(s, e) => (chars_of(s.as_str()), chars_of(e.as_str())),
        };
        let cut = truncated(&upper, start.len());
        !matches!(lex_compare(&cut, &start), Ordering::Less) && !matches!(
            lex_compare(&cut, &end),
            Ordering::Greater
        )
    }

    /// True when this index lies wholly above `code`, that is, when the
    /// code lies below it (compares `Less`).
    pub fn is_lt(&self, code: &String) -> (r: bool)
        ensures
            r == (self.code_cmp(code@) == Ordering::Less),
    {
        matches!(self.compare(code), Ordering::Less)
    }
}

impl PartialEq for Index {
    fn eq(&self, other: &Index) -> (r: bool)
        ensures
            r == (self.is_category() == other.is_category() && self.start() == other.start()
                && self.end() == other.end()),
    {
        match (self, other) {
            (Index::Leaf(a), Index::Leaf(b)) => a.eq(b),
            (Index::Category(a1, a2), Index::Category(b1, b2)) => a1.eq(b1) && a2.eq(b2),
            _ => false,
        }
    }
}

impl vstd::std_specs::cmp::PartialEqSpecImpl for Index {
    open spec fn obeys_eq_spec() -> bool {
        true
    }

    open spec fn eq_spec(&self, other: &Index) -> bool {
        self.is_category() == other.is_category() && self.start() == other.start() && self.end()
            == other.end()
    }
}

impl Eq for Index {

}

impl PartialOrd for Index {
    fn partial_cmp(&self, other: &Index) -> (r: Option<Ordering>)
        ensures
            r == Some(index_cmp(self, other)),
    {
        let (s1, e1) = match self {
            Index::Leaf(s) => (s, s),
            Index::Category(s, e) => (s, e),
        };
        let (s2, e2) = match other {
            Index::Leaf(s) => (s, s),
            Index::Category(s, e) => (s, e),
        };
        let s = lex_compare(&chars_of(s1.as_str()), &chars_of(s2.as_str()));
        if !matches!(s, Ordering::Equal) {
            return Some(s);
        }
        let e = lex_compare(&chars_of(e1.as_str()), &chars_of(e2.as_str()));
        if !matches!(e, Ordering::Equal) {
            return Some(e);
        }
        match (self, other) {
            (Index::Leaf(_), Index::Category(_, _)) => Some(Ordering::Less),
            (Index::Category(_, _), Index::Leaf(_)) => Some(Ordering::Greater),
            _ => Some(Ordering::Equal),
        }
    }
}

impl vstd::std_specs::cmp::PartialOrdSpecImpl for Index {
    open spec fn obeys_partial_cmp_spec() -> bool {
        true
    }

    open spec fn partial_cmp_spec(&self, other: &Index) -> Option<Ordering> {
        Some(index_cmp(self, other))
    }
}

} // verus!
