//! Core of a trading-card inventory tracker: a line-oriented delta format
//! (parse, render, aggregate, diff), resolution of card references into
//! catalog print identifiers, a merge engine that folds signed deltas into
//! an ownership ledger, and the compaction step of an append-only patch log.

pub mod card;
pub mod cdif;
pub mod cdifdiff;
pub mod cdifparse;
pub mod composition;
pub mod parser;
pub mod reconciler;
pub mod roundtrip;
pub mod text;
