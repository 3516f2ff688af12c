//! Transactions.

use vstd::prelude::*;

use crate::domain::instant::Instant;
use crate::single::Single;

verus! {

pub struct Transaction {
    pub id: String,
    pub amount: Single,
    pub installments: u32,
    pub requested_at: Instant,
    pub customer: Customer,
    pub merchant: Merchant,
    pub terminal: Terminal,
    pub last_transaction: Option<LastTransaction>,
}

pub struct Customer {
    pub avg_amount: Single,
    pub tx_count_24h: u32,
    pub known_merchants: Vec<String>,
}

pub struct Merchant {
    pub id: String,
    pub mcc: String,
    pub avg_amount: Single,
}

pub struct Terminal {
    pub is_online: bool,
    pub card_present: bool,
    pub km_from_home: Single,
}

pub struct LastTransaction {
    pub timestamp: Instant,
    pub km_from_current: Single,
}

impl Transaction {
    /// The moments are of the calendar.
    pub open spec fn wf(&self) -> bool {
        self.requested_at.wf() && (self.last_transaction matches Some(last) ==> last.timestamp.wf())
    }
}

} // verus!
