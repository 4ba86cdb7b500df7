//! Hierarchical clinical code trees (ICD-10 and OPCS-4 style): exact code
//! lookup by range search, enumeration of the codes in a named group,
//! reproducible random draws, and an interning store for the codes found.

pub mod clinical_code;
pub mod clinical_code_tree;
pub mod seeded_rng;
pub mod text;
