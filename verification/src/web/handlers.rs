//! From a request to a transaction, and from a decision to a response.

use vstd::prelude::*;

use crate::domain::fraud::FraudDecision;
use crate::domain::transaction::{Customer, LastTransaction, Merchant, Terminal, Transaction};
use crate::usecase::score_fraud::decision_or_approval;
use crate::web::dto::{FraudScoreResponse, TransactionRequest};

verus! {

/// How long a decision may take, in milliseconds.
pub const TIMEOUT_MS: u64 = 1600;

/// The transaction that a request is about.
pub fn into_transaction(req: TransactionRequest) -> (r: Transaction)
    ensures
        r.id == req.id,
        r.amount == req.transaction.amount,
        r.installments == req.transaction.installments,
        r.requested_at == req.transaction.requested_at,
        r.customer.avg_amount == req.customer.avg_amount,
        r.customer.tx_count_24h == req.customer.tx_count_24h,
        r.customer.known_merchants == req.customer.known_merchants,
        r.merchant.id == req.merchant.id,
        r.merchant.mcc == req.merchant.mcc,
        r.merchant.avg_amount == req.merchant.avg_amount,
        r.terminal.is_online == req.terminal.is_online,
        r.terminal.card_present == req.terminal.card_present,
        r.terminal.km_from_home == req.terminal.km_from_home,
        match req.last_transaction {
            Some(last) => r.last_transaction matches Some(l) && l.timestamp == last.timestamp
                && l.km_from_current == last.km_from_current,
            None => r.last_transaction is None,
        },
{
    Transaction {
        id: req.id,
        amount: req.transaction.amount,
        installments: req.transaction.installments,
        requested_at: req.transaction.requested_at,
        customer: Customer {
            avg_amount: req.customer.avg_amount,
            tx_count_24h: req.customer.tx_count_24h,
            known_merchants: req.customer.known_merchants,
        },
        merchant: Merchant {
            id: req.merchant.id,
            mcc: req.merchant.mcc,
            avg_amount: req.merchant.avg_amount,
        },
        terminal: Terminal {
            is_online: req.terminal.is_online,
            card_present: req.terminal.card_present,
            km_from_home: req.terminal.km_from_home,
        },
        last_transaction: match req.last_transaction {
            Some(last) => Some(
                LastTransaction {
                    timestamp: last.timestamp,
                    km_from_current: last.km_from_current,
                },
            ),
            None => None,
        },
    }
}

/// The answer to a readiness probe.
pub fn ready_handler() -> (r: &'static str)
    ensures
        r@ == "ok"@,
{
    "ok"
}

/// The response to a request on which `made` was decided in time, if anything
/// was: where nothing was, the transaction is approved with no score.
pub fn fraud_score_response(made: Option<FraudDecision>) -> (r: FraudScoreResponse)
    ensures
        r == (match made {
            Some(d) => FraudScoreResponse { approved: d.approved, fraud_count: d.fraud_count },
            None => FraudScoreResponse { approved: true, fraud_count: 0 },
        }),
{
    let decision = decision_or_approval(made);
    FraudScoreResponse { approved: decision.approved, fraud_count: decision.fraud_count }
}

} // verus!
