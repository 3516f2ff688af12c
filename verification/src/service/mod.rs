//! What a transaction is turned into before it is searched for.

pub mod vectorizer;
