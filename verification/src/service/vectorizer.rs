//! The features of a transaction, and the risks of merchant categories.

use vstd::prelude::*;

use crate::domain::instant::{
    hour_of, minutes_between, utc_hour, utc_minutes_between, utc_weekday, weekday_of,
};
use crate::domain::transaction::Transaction;
use crate::single::Single;

verus! {

/// The bits of 10000.
pub const MAX_AMOUNT: u32 = 0x461c_4000;

/// The bits of 12.
pub const MAX_INSTALLMENTS: u32 = 0x4140_0000;

/// The bits of 10.
pub const AMOUNT_VS_AVG_RATIO: u32 = 0x4120_0000;

/// The bits of 1440.
pub const MAX_MINUTES: u32 = 0x44b4_0000;

/// The bits of 1000.
pub const MAX_KM: u32 = 0x447a_0000;

/// The bits of 20.
pub const MAX_TX_COUNT_24H: u32 = 0x41a0_0000;

/// The bits of 10000.
pub const MAX_MERCHANT_AVG_AMOUNT: u32 = 0x461c_4000;

/// What the values of a transaction are divided by to become dimensions.
#[derive(Debug, Clone, Copy, PartialEq, Eq, Structural)]
pub struct NormalizationConstants {
    pub max_amount: Single,
    pub max_installments: Single,
    pub amount_vs_avg_ratio: Single,
    pub max_minutes: Single,
    pub max_km: Single,
    pub max_tx_count_24h: Single,
    pub max_merchant_avg_amount: Single,
}

impl Default for NormalizationConstants {
    fn default() -> (r: NormalizationConstants)
        ensures
            r.max_amount.bits == MAX_AMOUNT,
            r.max_installments.bits == MAX_INSTALLMENTS,
            r.amount_vs_avg_ratio.bits == AMOUNT_VS_AVG_RATIO,
            r.max_minutes.bits == MAX_MINUTES,
            r.max_km.bits == MAX_KM,
            r.max_tx_count_24h.bits == MAX_TX_COUNT_24H,
            r.max_merchant_avg_amount.bits == MAX_MERCHANT_AVG_AMOUNT,
            r.max_amount.bits == 0x461c_4000,
            r.max_installments.bits == 0x4140_0000,
            r.amount_vs_avg_ratio.bits == 0x4120_0000,
            r.max_minutes.bits == 0x44b4_0000,
            r.max_km.bits == 0x447a_0000,
            r.max_tx_count_24h.bits == 0x41a0_0000,
            r.max_merchant_avg_amount.bits == 0x461c_4000,
    {
        NormalizationConstants {
            max_amount: Single { bits: MAX_AMOUNT },
            max_installments: Single { bits: MAX_INSTALLMENTS },
            amount_vs_avg_ratio: Single { bits: AMOUNT_VS_AVG_RATIO },
            max_minutes: Single { bits: MAX_MINUTES },
            max_km: Single { bits: MAX_KM },
            max_tx_count_24h: Single { bits: MAX_TX_COUNT_24H },
            max_merchant_avg_amount: Single { bits: MAX_MERCHANT_AVG_AMOUNT },
        }
    }
}

/// The risk of a category that is not in the map: the bits of 0.5.
pub const DEFAULT_RISK: u32 = 0x3f00_0000;

/// The risks of merchant categories. No category is in it twice.
#[derive(Default)]
pub struct MccRiskMap {
    pub risks: Vec<(String, Single)>,
}

impl View for MccRiskMap {
    type V = Map<Seq<char>, Single>;

    open spec fn view(&self) -> Map<Seq<char>, Single> {
        Map::new(
            |mcc: Seq<char>| exists|i: int| 0 <= i < self.risks@.len() && #[trigger] self.risks@[i].0@
                == mcc,
            |mcc: Seq<char>| self.risks@[self.index_of(mcc)].1,
        )
    }
}

impl MccRiskMap {
    /// No category is in the map twice.
    pub open spec fn wf(&self) -> bool {
        forall|i: int, j: int|
            0 <= i < j < self.risks@.len() ==> #[trigger] self.risks@[i].0@
                != #[trigger] self.risks@[j].0@
    }

    /// Where a category stands.
    pub open spec fn index_of(&self, mcc: Seq<char>) -> int {
        choose|i: int| 0 <= i < self.risks@.len() && #[trigger] self.risks@[i].0@ == mcc
    }

    /// The risk of a category.
    pub open spec fn risk(&self, mcc: Seq<char>) -> Single {
        if self@.dom().contains(mcc) {
            self@[mcc]
        } else {
            Single { bits: DEFAULT_RISK }
        }
    }

    /// A map with nothing in it.
    pub fn new() -> (r: MccRiskMap)
        ensures
            r.wf(),
            r@ == Map::<Seq<char>, Single>::empty(),
    {
        let r = MccRiskMap { risks: Vec::new() };
        assert(r@ =~= Map::<Seq<char>, Single>::empty());
        r
    }

    fn find(&self, mcc: &String) -> (r: Option<usize>)
        requires
            self.wf(),
        ensures
            match r {
                Some(i) => i < self.risks@.len() && self.risks@[i as int].0@ == mcc@
                    && self.index_of(mcc@) == i,
                None => !self@.dom().contains(mcc@),
            },
    {
        let mut i: usize = 0;
        while i < self.risks.len()
            invariant
                self.wf(),
                i <= self.risks@.len(),
                forall|j: int| 0 <= j < i ==> #[trigger] self.risks@[j].0@ != mcc@,
            decreases self.risks@.len() - i,
        {
            if self.risks[i].0 == *mcc {
                proof {
                    let j = self.index_of(mcc@);
                    assert(self.risks@[i as int].0@ == mcc@);
                    assert(self.risks@[j].0@ == mcc@);
                }
                return Some(i);
            }
            i = i + 1;
        }
        None
    }

    /// The risk of a category; that of one which is not in the map is
    /// `DEFAULT_RISK`.
    pub fn get(&self, mcc: &String) -> (r: Single)
        requires
            self.wf(),
        ensures
            r == self.risk(mcc@),
    {
        match self.find(mcc) {
            Some(i) => {
                assert(self@.dom().contains(mcc@)) by {
                    assert(self.risks@[i as int].0@ == mcc@);
                }
                self.risks[i].1
            },
            None => Single { bits: DEFAULT_RISK },
        }
    }

    /// Sets the risk of a category.
    pub fn insert(&mut self, mcc: String, risk: Single)
        requires
            old(self).wf(),
        ensures
            final(self).wf(),
            final(self)@ == old(self)@.insert(mcc@, risk),
    {
        let ghost before = *self;
        let ghost name = mcc@;
        match self.find(&mcc) {
            Some(i) => {
                let entry: (String, Single) = (mcc, risk);
                self.risks[i] = entry;
                proof {
                    before.lemma_updated(self, i as int, name, risk);
                }
            },
            None => {
                self.risks.push((mcc, risk));
                proof {
                    before.lemma_pushed(self, name, risk);
                }
            },
        }
    }

    proof fn lemma_at(&self, i: int)
        requires
            self.wf(),
            0 <= i < self.risks@.len(),
        ensures
            self@.dom().contains(self.risks@[i].0@),
            self@[self.risks@[i].0@] == self.risks@[i].1,
    {
        let mcc = self.risks@[i].0@;
        let j = self.index_of(mcc);
        assert(self.risks@[j].0@ == mcc);
    }

    proof fn lemma_updated(&self, after: &MccRiskMap, i: int, mcc: Seq<char>, risk: Single)
        requires
            self.wf(),
            0 <= i < self.risks@.len(),
            self.risks@[i].0@ == mcc,
            after.risks@.len() == self.risks@.len(),
            forall|j: int| 0 <= j < self.risks@.len() && j != i ==> #[trigger] after.risks@[j]
                == self.risks@[j],
            after.risks@[i].0@ == mcc,
            after.risks@[i].1 == risk,
        ensures
            after.wf(),
            after@ == self@.insert(mcc, risk),
    {
        assert forall|a: int, b: int| 0 <= a < b < after.risks@.len() implies
            #[trigger] after.risks@[a].0@ != #[trigger] after.risks@[b].0@ by {
            assert(self.risks@[a].0@ != self.risks@[b].0@);
        }
        assert(after@.dom() =~= self@.insert(mcc, risk).dom()) by {
            assert forall|m: Seq<char>| after@.dom().contains(m) <==> self@.insert(
                mcc,
                risk,
            ).dom().contains(m) by {
                if after@.dom().contains(m) {
                    let a = choose|a: int|
                        0 <= a < after.risks@.len() && #[trigger] after.risks@[a].0@ == m;
                    assert(self.risks@[a].0@ == m);
                }
                if self@.dom().contains(m) || m == mcc {
                    let a = if m == mcc {
                        i
                    } else {
                        choose|a: int| 0 <= a < self.risks@.len() && #[trigger] self.risks@[a].0@
                            == m
                    };
                    assert(after.risks@[a].0@ == m);
                }
            }
        }
        assert forall|m: Seq<char>| after@.dom().contains(m) implies after@[m] == self@.insert(
            mcc,
            risk,
        )[m] by {
            let a = choose|a: int| 0 <= a < after.risks@.len() && #[trigger] after.risks@[a].0@ == m;
            after.lemma_at(a);
            if a != i {
                assert(self.risks@[a].0@ == m);
                self.lemma_at(a);
            }
        }
        assert(after@ =~= self@.insert(mcc, risk));
    }

    proof fn lemma_pushed(&self, after: &MccRiskMap, mcc: Seq<char>, risk: Single)
        requires
            self.wf(),
            !self@.dom().contains(mcc),
            after.risks@.len() == self.risks@.len() + 1,
            forall|j: int| 0 <= j < self.risks@.len() ==> #[trigger] after.risks@[j]
                == self.risks@[j],
            after.risks@[self.risks@.len() as int].0@ == mcc,
            after.risks@[self.risks@.len() as int].1 == risk,
        ensures
            after.wf(),
            after@ == self@.insert(mcc, risk),
    {
        let n = self.risks@.len() as int;
        assert forall|a: int, b: int| 0 <= a < b < after.risks@.len() implies
            #[trigger] after.risks@[a].0@ != #[trigger] after.risks@[b].0@ by {
            if b < n {
                assert(self.risks@[a].0@ != self.risks@[b].0@);
            } else {
                assert(self.risks@[a].0@ != mcc);
            }
        }
        assert(after@.dom() =~= self@.insert(mcc, risk).dom()) by {
            assert forall|m: Seq<char>| after@.dom().contains(m) <==> self@.insert(
                mcc,
                risk,
            ).dom().contains(m) by {
                if after@.dom().contains(m) {
                    let a = choose|a: int|
                        0 <= a < after.risks@.len() && #[trigger] after.risks@[a].0@ == m;
                    if a < n {
                        assert(self.risks@[a].0@ == m);
                    }
                }
                if self@.dom().contains(m) || m == mcc {
                    let a = if m == mcc {
                        n
                    } else {
                        choose|a: int| 0 <= a < self.risks@.len() && #[trigger] self.risks@[a].0@
                            == m
                    };
                    assert(after.risks@[a].0@ == m);
                }
            }
        }
        assert forall|m: Seq<char>| after@.dom().contains(m) implies after@[m] == self@.insert(
            mcc,
            risk,
        )[m] by {
            let a = choose|a: int| 0 <= a < after.risks@.len() && #[trigger] after.risks@[a].0@ == m;
            after.lemma_at(a);
            if a < n {
                assert(self.risks@[a].0@ == m);
                self.lemma_at(a);
            }
        }
        assert(after@ =~= self@.insert(mcc, risk));
    }
}

/// What is read off a transaction that is not a fraction of it.
#[derive(Debug, Clone, Copy, PartialEq, Eq, Structural)]
pub struct Features {
    pub hour: u32,
    /// Monday is 0.
    pub weekday: u32,
    /// The whole minutes since the last transaction, if there was one.
    pub minutes_since_last: Option<i64>,
    pub unknown_merchant: bool,
    pub mcc_risk: Single,
}

/// Whether the merchant is one that the customer knows.
pub open spec fn is_known_merchant(tx: Transaction) -> bool {
    exists|i: int|
        0 <= i < tx.customer.known_merchants@.len() && #[trigger] tx.customer.known_merchants@[i]@
            == tx.merchant.id@
}

fn knows_merchant(tx: &Transaction) -> (r: bool)
    ensures
        r == is_known_merchant(*tx),
{
    let mut i: usize = 0;
    while i < tx.customer.known_merchants.len()
        invariant
            i <= tx.customer.known_merchants@.len(),
            forall|j: int|
                0 <= j < i ==> #[trigger] tx.customer.known_merchants@[j]@ != tx.merchant.id@,
        decreases tx.customer.known_merchants@.len() - i,
    {
        if tx.customer.known_merchants[i] == tx.merchant.id {
            assert(tx.customer.known_merchants@[i as int]@ == tx.merchant.id@);
            return true;
        }
        i = i + 1;
    }
    false
}

/// What is needed to turn a transaction into a vector.
pub struct Vectorizer {
    pub norm: NormalizationConstants,
    pub mcc_risk: MccRiskMap,
}

impl Vectorizer {
    pub fn new(norm: NormalizationConstants, mcc_risk: MccRiskMap) -> (r: Vectorizer)
        ensures
            r.norm == norm,
            r.mcc_risk == mcc_risk,
    {
        Vectorizer { norm, mcc_risk }
    }

    /// What is read off a transaction that is not a fraction of it.
    pub fn features(&self, tx: &Transaction) -> (r: Features)
        requires
            tx.wf(),
            self.mcc_risk.wf(),
        ensures
            r.hour == hour_of(tx.requested_at),
            r.weekday == weekday_of(tx.requested_at),
            match tx.last_transaction {
                Some(last) => r.minutes_since_last matches Some(m) && m == minutes_between(
                    tx.requested_at,
                    last.timestamp,
                ),
                None => r.minutes_since_last is None,
            },
            r.unknown_merchant == !is_known_merchant(*tx),
            r.mcc_risk == self.mcc_risk.risk(tx.merchant.mcc@),
    {
        let minutes_since_last: Option<i64> = match &tx.last_transaction {
            Some(last) => Some(utc_minutes_between(tx.requested_at, last.timestamp)),
            None => None,
        };
        Features {
            hour: utc_hour(tx.requested_at),
            weekday: utc_weekday(tx.requested_at),
            minutes_since_last,
            unknown_merchant: !knows_merchant(tx),
            mcc_risk: self.mcc_risk.get(&tx.merchant.mcc),
        }
    }
}

impl MccRiskMap {
    /// A category has the risk that was set for it last; setting it changes no other
    /// category's risk, and one that was never set has a risk of one half.
    pub proof fn risks_are_those_set(&self, after: &MccRiskMap, mcc: Seq<char>, risk: Single, other:
        Seq<char>)
        requires
            after@ == self@.insert(mcc, risk),
        ensures
            after.risk(mcc) == risk,
            other != mcc ==> after.risk(other) == self.risk(other),
            self@ == Map::<Seq<char>, Single>::empty() ==> self.risk(other).bits == 0x3f00_0000,
            (forall|i: int|
                0 <= i < self.risks@.len() ==> #[trigger] self.risks@[i].0@ != other)
                ==> self.risk(other).bits == 0x3f00_0000,
    {
    }

    /// What stands in the list is the category's risk.
    pub proof fn listed_risks_count(&self, i: int)
        requires
            self.wf(),
            0 <= i < self.risks@.len(),
        ensures
            self.risk(self.risks@[i].0@) == self.risks@[i].1,
    {
        self.lemma_at(i);
    }
}

} // verus!
