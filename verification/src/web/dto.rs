//! Requests and responses as they go over the wire.

use vstd::prelude::*;

use crate::domain::instant::Instant;
use crate::single::Single;

verus! {

pub struct TransactionRequest {
    pub id: String,
    pub transaction: TransactionDto,
    pub customer: CustomerDto,
    pub merchant: MerchantDto,
    pub terminal: TerminalDto,
    pub last_transaction: Option<LastTransactionDto>,
}

pub struct TransactionDto {
    pub amount: Single,
    pub installments: u32,
    pub requested_at: Instant,
}

pub struct CustomerDto {
    pub avg_amount: Single,
    pub tx_count_24h: u32,
    pub known_merchants: Vec<String>,
}

pub struct MerchantDto {
    pub id: String,
    pub mcc: String,
    pub avg_amount: Single,
}

pub struct TerminalDto {
    pub is_online: bool,
    pub card_present: bool,
    pub km_from_home: Single,
}

pub struct LastTransactionDto {
    pub timestamp: Instant,
    pub km_from_current: Single,
}

/// The score is a fifth of `fraud_count`.
#[derive(Debug, Clone, Copy, PartialEq, Eq, Structural)]
pub struct FraudScoreResponse {
    pub approved: bool,
    pub fraud_count: usize,
}

} // verus!
