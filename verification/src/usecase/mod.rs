//! Scoring a transaction.

pub mod score_fraud;
