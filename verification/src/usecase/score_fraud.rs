//! What the labels of the nearest neighbours decide.

use vstd::prelude::*;

use crate::domain::fraud::FraudDecision;
use crate::net::response::is_approved;
use crate::repository::ivf::{
    count_fraud_votes, fraud_votes, is_settled, two_or_three_of_five_are_not_settled,
    Adaptive,
};
use crate::repository::reference::ReferenceRepository;
use crate::repository::short::{labels_in, Labels};
use crate::service::vectorizer::Vectorizer;

verus! {

/// How many neighbours are asked.
pub const NEIGHBOURS: usize = 5;

/// Scores transactions by their nearest neighbours among the references.
pub struct ScoreFraudUseCase {
    pub vectorizer: Vectorizer,
    pub repository: ReferenceRepository,
}

/// What comes of a first look at the neighbours.
pub enum Verdict {
    /// The matter is decided.
    Decided(FraudDecision),
    /// The neighbours are to be looked for among this many clusters, and what
    /// they say decides.
    LookAgain(usize),
}

/// What some labels decide.
pub open spec fn decision_of(labels: Seq<u8>) -> FraudDecision {
    FraudDecision {
        approved: is_approved(fraud_votes(labels)),
        fraud_count: fraud_votes(labels) as usize,
    }
}

impl ScoreFraudUseCase {
    /// Scores a transaction whose nearest neighbours at a first look have the
    /// labels `stage1`.
    pub fn execute(&self, stage1: Labels) -> (r: Verdict)
        ensures
            r == (if is_settled(labels_in(stage1), NEIGHBOURS as int) {
                Verdict::Decided(decision_of(labels_in(stage1)))
            } else {
                Verdict::LookAgain(self.repository.ivf.nprobe_slow)
            }),
    {
        match self.repository.knn_adaptive(stage1, NEIGHBOURS) {
            Adaptive::Settled(labels) => Verdict::Decided(self.conclude(&labels)),
            Adaptive::Repeat(nprobe) => Verdict::LookAgain(nprobe),
        }
    }

    /// What the labels of the nearest neighbours decide: a transaction is
    /// approved where less than three of them say fraud.
    pub fn conclude(&self, labels: &Labels) -> (r: FraudDecision)
        ensures
            r == decision_of(labels_in(*labels)),
            r.fraud_count == fraud_votes(labels_in(*labels)),
    {
        let fraud_count = count_fraud_votes(labels.as_slice());
        FraudDecision { approved: fraud_count < 3, fraud_count }
    }
}

/// Where the first look decides about five neighbours, four or five of them say
/// the same; a second look is taken where it is two against three.
pub proof fn close_votes_are_looked_at_again(labels: Seq<u8>)
    requires
        labels.len() == NEIGHBOURS,
    ensures
        is_settled(labels, NEIGHBOURS as int) ==> (decision_of(labels).approved
            <==> decision_of(labels).fraud_count <= 1) && (!decision_of(labels).approved
            <==> decision_of(labels).fraud_count >= 4),
{
    two_or_three_of_five_are_not_settled(labels);
}

/// The decision to be answered with: the one that was made, or where none was
/// made in time, an approval.
pub fn decision_or_approval(made: Option<FraudDecision>) -> (r: FraudDecision)
    ensures
        r == (match made {
            Some(d) => d,
            None => FraudDecision { approved: true, fraud_count: 0 },
        }),
{
    match made {
        Some(d) => d,
        None => FraudDecision { approved: true, fraud_count: 0 },
    }
}

/// A transaction is approved exactly where less than three of the labels are 1.
pub proof fn three_votes_refuse(labels: Seq<u8>)
    requires
        fraud_votes(labels) <= usize::MAX,
    ensures
        decision_of(labels).approved <==> fraud_votes(labels) < 3,
        decision_of(labels).fraud_count == fraud_votes(labels),
{
    lemma_votes_nonneg(labels);
}

proof fn lemma_votes_nonneg(labels: Seq<u8>)
    ensures
        0 <= fraud_votes(labels) <= labels.len(),
    decreases labels.len(),
{
    if labels.len() > 0 {
        lemma_votes_nonneg(labels.drop_last());
    }
}

/// Of five labels, none or one, and four or five that are 1 decide at once, with an
/// approval and a refusal; two or three do not.
pub proof fn five_labels_decide(a: u8, b: u8, c: u8, d: u8, e: u8)
    ensures
        ({
            let labels = seq![a, b, c, d, e];
            let ones = (if a == 1 { 1int } else { 0 }) + (if b == 1 { 1int } else { 0 }) + (if c
                == 1 { 1int } else { 0 }) + (if d == 1 { 1int } else { 0 }) + (if e == 1 {
                1int
            } else {
                0
            });
            &&& is_settled(labels, 5) <==> ones != 2 && ones != 3
            &&& decision_of(labels).fraud_count == ones
            &&& decision_of(labels).approved <==> ones <= 2
        }),
{
    let labels = seq![a, b, c, d, e];
    two_or_three_of_five_are_not_settled(labels);
    reveal_with_fuel(fraud_votes, 6);
}

} // verus!
