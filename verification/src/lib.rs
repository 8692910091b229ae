//! Block-max MaxScore retrieval over sparse vectors, verified.
//!
//! Documents are sparse vectors; each dimension has a posting list of offsets
//! and weights, cut into blocks. A writer collects updates and a commit turns
//! them into changes to the stored lists ([`writer`], [`postings`],
//! [`layout`]). A query walks the document ids in windows and keeps the `k`
//! best documents, skipping what cannot be among them ([`reader`], [`search`],
//! [`query`], [`topk`]); [`rescore`] selects anew by exact scores.
//!
//! The library decides; its caller fetches, stores and adds up. Weights are
//! bit patterns that are only compared here ([`weight`]). What the pieces amount
//! to is stated in [`exactness`] and [`run`] for queries and in [`storage`] for
//! commits.

use vstd::prelude::*;

pub mod delta;
pub mod dimension;
pub mod exactness;
pub mod heap;
pub mod layout;
pub mod order;
pub mod postings;
pub mod query;
pub mod reader;
pub mod rescore;
pub mod run;
pub mod score;
pub mod search;
pub mod storage;
pub mod topk;
pub mod weight;
pub mod window;
pub mod writer;

verus! {

} // verus!
