use chrono::{DateTime, Datelike, TimeDelta, Timelike, Utc};
use fraud_detection::domain::fraud::FraudDecision;
use fraud_detection::domain::instant::{Instant, FIRST_SECOND, LAST_SECOND};
use fraud_detection::domain::transaction::{
    Customer, LastTransaction, Merchant, Terminal, Transaction,
};
use fraud_detection::repository::reference::ReferenceRepository;
use fraud_detection::repository::short::{Labels, Ranked};
use fraud_detection::service::vectorizer::{
    Features, MccRiskMap, NormalizationConstants, Vectorizer,
};
use fraud_detection::single::Single;
use fraud_detection::usecase::score_fraud::{
    decision_or_approval, ScoreFraudUseCase, Verdict, NEIGHBOURS,
};

fn single(x: f32) -> Single {
    Single { bits: x.to_bits() }
}

fn float(x: Single) -> f32 {
    f32::from_bits(x.bits)
}

fn instant(t: DateTime<Utc>) -> Instant {
    Instant { secs: t.timestamp(), nanos: t.timestamp_subsec_nanos() }
}

fn moment(text: &str) -> Instant {
    instant(DateTime::parse_from_rfc3339(text).unwrap().into())
}

fn make_vectorizer() -> Vectorizer {
    let mut mcc_risk = MccRiskMap::new();
    let risks = [
        ("5411", 0.15f32), ("5812", 0.30), ("5912", 0.20), ("5944", 0.45), ("7801", 0.80),
        ("7802", 0.75), ("7995", 0.85), ("4511", 0.35), ("5311", 0.25), ("5999", 0.50),
    ];
    for (mcc, risk) in risks {
        mcc_risk.insert(mcc.to_string(), single(risk));
    }
    Vectorizer::new(NormalizationConstants::default(), mcc_risk)
}

/// The fourteen dimensions, which are fractions.
fn vectorize(v: &Vectorizer, tx: &Transaction) -> [f32; 14] {
    let n = &v.norm;
    let f: Features = v.features(tx);
    let clamped = |x: f32, max: Single| (x / float(max)).clamp(0.0, 1.0);
    let (minutes, km) = match (&f.minutes_since_last, &tx.last_transaction) {
        (Some(m), Some(lt)) => {
            (clamped(*m as f32, n.max_minutes), clamped(float(lt.km_from_current), n.max_km))
        }
        _ => (-1.0, -1.0),
    };
    let flag = |x: bool| if x { 1.0 } else { 0.0 };
    let amount = float(tx.amount);
    [
        clamped(amount, n.max_amount),
        clamped(tx.installments as f32, n.max_installments),
        clamped(amount / float(tx.customer.avg_amount), n.amount_vs_avg_ratio),
        f.hour as f32 / 23.0,
        f.weekday as f32 / 6.0,
        minutes,
        km,
        clamped(float(tx.terminal.km_from_home), n.max_km),
        clamped(tx.customer.tx_count_24h as f32, n.max_tx_count_24h),
        flag(tx.terminal.is_online),
        flag(tx.terminal.card_present),
        flag(f.unknown_merchant),
        float(f.mcc_risk),
        clamped(float(tx.merchant.avg_amount), n.max_merchant_avg_amount),
    ]
}

fn legit_tx() -> Transaction {
    Transaction {
        id: "tx-1329056812".to_string(),
        amount: single(41.12),
        installments: 2,
        requested_at: moment("2026-03-11T18:45:53Z"),
        customer: Customer {
            avg_amount: single(82.24),
            tx_count_24h: 3,
            known_merchants: vec!["MERC-003".to_string(), "MERC-016".to_string()],
        },
        merchant: Merchant {
            id: "MERC-016".to_string(),
            mcc: "5411".to_string(),
            avg_amount: single(60.25),
        },
        terminal: Terminal {
            is_online: false,
            card_present: true,
            km_from_home: single(29.2331036248),
        },
        last_transaction: None,
    }
}

fn fraud_tx() -> Transaction {
    Transaction {
        id: "tx-3330991687".to_string(),
        amount: single(9505.97),
        installments: 10,
        requested_at: moment("2026-03-14T05:15:12Z"),
        customer: Customer {
            avg_amount: single(81.28),
            tx_count_24h: 20,
            known_merchants: vec![
                "MERC-008".to_string(),
                "MERC-007".to_string(),
                "MERC-005".to_string(),
            ],
        },
        merchant: Merchant {
            id: "MERC-068".to_string(),
            mcc: "7802".to_string(),
            avg_amount: single(54.86),
        },
        terminal: Terminal {
            is_online: false,
            card_present: true,
            km_from_home: single(952.27),
        },
        last_transaction: None,
    }
}

#[test]
fn test_vectorize_legit_example() {
    let v = make_vectorizer();
    let d = vectorize(&v, &legit_tx());
    assert!(
        (d[0] - 0.004112).abs() < 0.0001,
        "dim0 expected ~0.0041 got {}",
        d[0]
    );
    assert!(
        (d[1] - 0.16667).abs() < 0.0001,
        "dim1 expected ~0.1667 got {}",
        d[1]
    );
    assert!(
        (d[2] - 0.05).abs() < 0.0001,
        "dim2 expected 0.05 got {}",
        d[2]
    );
    assert!(
        (d[3] - 0.78261).abs() < 0.0001,
        "dim3 expected ~0.7826 got {}",
        d[3]
    );
    assert!(
        (d[4] - 0.33333).abs() < 0.0001,
        "dim4 expected ~0.3333 got {}",
        d[4]
    );
    assert_eq!(d[5], -1.0, "dim5 must be -1 for null last_tx");
    assert_eq!(d[6], -1.0, "dim6 must be -1 for null last_tx");
    assert!(
        (d[7] - 0.02923).abs() < 0.0001,
        "dim7 expected ~0.0292 got {}",
        d[7]
    );
    assert!(
        (d[8] - 0.15).abs() < 0.0001,
        "dim8 expected 0.15 got {}",
        d[8]
    );
    assert_eq!(d[9], 0.0, "dim9: not online");
    assert_eq!(d[10], 1.0, "dim10: card present");
    assert_eq!(d[11], 0.0, "dim11: known merchant");
    assert!((d[12] - 0.15).abs() < 0.0001, "dim12: mcc 5411 = 0.15");
    assert!((d[13] - 0.006025).abs() < 0.0001, "dim13 got {}", d[13]);
}

#[test]
fn test_vectorize_fraud_example() {
    let v = make_vectorizer();
    let d = vectorize(&v, &fraud_tx());
    assert!((d[0] - 0.950597).abs() < 0.0001, "dim0 got {}", d[0]);
    assert!((d[1] - 0.83333).abs() < 0.0001, "dim1 got {}", d[1]);
    assert_eq!(d[2], 1.0, "dim2: clamped to 1.0");
    assert!((d[3] - 0.21739).abs() < 0.0001, "dim3 got {}", d[3]);
    assert!((d[4] - 0.83333).abs() < 0.0001, "dim4 got {}", d[4]);
    assert_eq!(d[5], -1.0, "dim5: null last_tx");
    assert_eq!(d[6], -1.0, "dim6: null last_tx");
    assert!((d[7] - 0.95227).abs() < 0.0001, "dim7 got {}", d[7]);
    assert_eq!(d[8], 1.0, "dim8: clamped to 1.0");
    assert_eq!(d[9], 0.0, "dim9: not online");
    assert_eq!(d[10], 1.0, "dim10: card present");
    assert_eq!(d[11], 1.0, "dim11: unknown merchant");
    assert!((d[12] - 0.75).abs() < 0.0001, "dim12: mcc 7802 = 0.75");
    assert!((d[13] - 0.005486).abs() < 0.0001, "dim13 got {}", d[13]);
}

#[test]
fn test_vectorize_null_last_tx() {
    let v = make_vectorizer();
    let mut tx = legit_tx();
    tx.last_transaction = None;
    let vec = vectorize(&v, &tx);
    assert_eq!(vec[5], -1.0, "dim5 must be -1.0 when last_tx is None");
    assert_eq!(vec[6], -1.0, "dim6 must be -1.0 when last_tx is None");
    assert_eq!(v.features(&tx).minutes_since_last, None);
}

#[test]
fn test_vectorize_clamp_high() {
    let v = make_vectorizer();
    let mut tx = legit_tx();
    tx.amount = single(100_000.0);
    let vec = vectorize(&v, &tx);
    assert_eq!(
        vec[0], 1.0,
        "dim0: clamped to 1.0 when amount >> max_amount"
    );
}

#[test]
fn test_vectorize_unknown_mcc() {
    let v = make_vectorizer();
    let mut tx = legit_tx();
    tx.merchant.mcc = "9999".to_string();
    let vec = vectorize(&v, &tx);
    assert!(
        (vec[12] - 0.5).abs() < 0.0001,
        "dim12: unknown MCC defaults to 0.5"
    );
}

#[test]
fn test_vectorize_known_mcc() {
    let v = make_vectorizer();
    let mut tx = legit_tx();
    tx.merchant.mcc = "7995".to_string();
    let vec = vectorize(&v, &tx);
    assert!((vec[12] - 0.85).abs() < 0.0001, "dim12: MCC 7995 = 0.85");
}

#[test]
fn default_constants() {
    let n = NormalizationConstants::default();
    assert_eq!(float(n.max_amount), 10_000.0);
    assert_eq!(float(n.max_installments), 12.0);
    assert_eq!(float(n.amount_vs_avg_ratio), 10.0);
    assert_eq!(float(n.max_minutes), 1_440.0);
    assert_eq!(float(n.max_km), 1_000.0);
    assert_eq!(float(n.max_tx_count_24h), 20.0);
    assert_eq!(float(n.max_merchant_avg_amount), 10_000.0);
}

#[test]
fn the_last_risk_of_a_category_stands() {
    let mut map = MccRiskMap::new();
    assert_eq!(float(map.get(&"1".to_string())), 0.5);
    map.insert("1".to_string(), single(0.25));
    map.insert("2".to_string(), single(0.75));
    map.insert("1".to_string(), single(0.125));
    assert_eq!(float(map.get(&"1".to_string())), 0.125);
    assert_eq!(float(map.get(&"2".to_string())), 0.75);
    assert_eq!(float(map.get(&"3".to_string())), 0.5);
    assert_eq!(map.risks.len(), 2);
}

fn features_at(now: Instant, before: Option<Instant>) -> Features {
    let mut tx = legit_tx();
    tx.requested_at = now;
    tx.last_transaction =
        before.map(|timestamp| LastTransaction { timestamp, km_from_current: single(1.0) });
    make_vectorizer().features(&tx)
}

#[test]
fn features_of_a_moment() {
    let f = features_at(moment("2026-03-11T20:23:35Z"), Some(moment("2026-03-11T14:58:35Z")));
    assert_eq!(f.hour, 20);
    assert_eq!(f.weekday, 2);
    assert_eq!(f.minutes_since_last, Some(325));
    assert!(!f.unknown_merchant);
    let f = features_at(moment("1969-12-31T23:59:59Z"), Some(moment("1970-01-01T00:00:58Z")));
    assert_eq!((f.hour, f.weekday), (23, 2));
    assert_eq!(f.minutes_since_last, Some(0));
    let f = features_at(moment("1969-12-31T23:58:59Z"), Some(moment("1970-01-01T00:00:00Z")));
    assert_eq!(f.minutes_since_last, Some(-1));
}

#[test]
fn hours_and_weekdays_agree_with_the_calendar() {
    let mut secs = FIRST_SECOND;
    while secs <= LAST_SECOND {
        let t = DateTime::from_timestamp(secs, 0).unwrap();
        let f = features_at(Instant { secs, nanos: 0 }, None);
        assert_eq!(f.hour, t.hour());
        assert_eq!(f.weekday, t.weekday().num_days_from_monday());
        // What holds of a moment by the calendar alone.
        assert_eq!(f.hour as i64, secs.rem_euclid(86400) / 3600);
        assert_eq!(f.weekday as i64, (secs.div_euclid(86400) + 3).rem_euclid(7));
        secs += 8_271_434_097;
    }
}

#[test]
fn the_calendar_has_a_first_and_a_last_second() {
    assert!(DateTime::from_timestamp(FIRST_SECOND, 0).is_some());
    assert!(DateTime::from_timestamp(FIRST_SECOND - 1, 0).is_none());
    assert!(DateTime::from_timestamp(LAST_SECOND, 1_999_999_999).is_some());
    assert!(DateTime::from_timestamp(LAST_SECOND + 1, 0).is_none());
    let well_formed = |secs: i64, nanos: u32| Instant { secs, nanos }.is_well_formed();
    for secs in [FIRST_SECOND - 1, FIRST_SECOND, -61, -1, 0, 58, 59, 60, LAST_SECOND, i64::MAX] {
        for nanos in [0, 999_999_999, 1_000_000_000, 1_999_999_999, 2_000_000_000] {
            assert_eq!(
                well_formed(secs, nanos),
                DateTime::from_timestamp(secs, nanos).is_some(),
                "{secs} {nanos}"
            );
        }
    }
    let first = Instant { secs: FIRST_SECOND, nanos: 0 };
    let last = Instant { secs: LAST_SECOND, nanos: 1_999_999_999 };
    let f = features_at(last, Some(first));
    assert_eq!((f.hour, f.minutes_since_last), (23, Some((LAST_SECOND - FIRST_SECOND + 1) / 60)));
    assert_eq!(features_at(first, Some(last)).hour, 0);
}

#[test]
fn weeks_repeat_and_minutes_are_symmetric() {
    let a = moment("2026-03-11T20:23:35Z");
    let later = moment("2026-03-18T20:23:35Z");
    let (f, g) = (features_at(a, Some(later)), features_at(later, Some(a)));
    assert_eq!((f.hour, f.weekday), (g.hour, g.weekday));
    assert_eq!(f.minutes_since_last, Some(-10_080));
    assert_eq!(g.minutes_since_last, Some(10_080));
    assert_eq!(features_at(a, Some(a)).minutes_since_last, Some(0));
}

#[test]
fn leap_seconds_count_between_times_of_day() {
    let leap = |secs: i64| Instant { secs, nanos: 1_500_000_000 };
    let plain = |secs: i64| Instant { secs, nanos: 500_000_000 };
    // 59.5 seconds after a moment in a leap second that began at second 59.
    assert_eq!(features_at(plain(119), Some(leap(59))).minutes_since_last, Some(1));
    assert_eq!(features_at(plain(118), Some(leap(59))).minutes_since_last, Some(0));
    // On the next day, at an earlier time of day.
    assert_eq!(features_at(plain(86_430), Some(leap(59))).minutes_since_last, Some(1439));
    assert_eq!(features_at(leap(59), Some(plain(0))).minutes_since_last, Some(1));
    assert_eq!(features_at(plain(0), Some(leap(59))).minutes_since_last, Some(-1));
    assert_eq!(features_at(leap(59), Some(leap(59))).minutes_since_last, Some(0));
}

#[test]
fn minutes_agree_with_durations() {
    let moments: Vec<Instant> = [0i64, 1, 59, 60, 119, 3599, 86399, 86400, -1, -60, -86341]
        .iter()
        .flat_map(|&secs| {
            [0u32, 1, 999_999_999, 1_000_000_000, 1_999_999_999]
                .map(|nanos| Instant { secs, nanos })
        })
        .filter(|t| t.is_well_formed())
        .collect();
    let leap = |t: &Instant| t.nanos >= 1_000_000_000;
    let day = |t: &Instant| t.secs.rem_euclid(86400);
    for a in &moments {
        for b in &moments {
            let mut secs = a.secs - b.secs;
            if day(a) > day(b) && leap(b) {
                secs += 1;
            } else if day(a) < day(b) && leap(a) {
                secs -= 1;
            }
            let between = TimeDelta::seconds(secs)
                + TimeDelta::nanoseconds(a.nanos as i64 - b.nanos as i64);
            assert_eq!(
                features_at(*a, Some(*b)).minutes_since_last,
                Some(between.num_minutes()),
                "{a:?} {b:?}"
            );
        }
    }
}

fn ranked(of: &[u8]) -> Labels {
    let mut top = Ranked::new();
    for (i, &l) in of.iter().enumerate() {
        top.offer_item(of.len(), (i as u32, l));
    }
    top.labels()
}

/// A file with one block around each of two transactions.
fn two_clusters() -> Vec<u8> {
    let legit: [f32; 14] =
        [0.004, 0.167, 0.05, 0.78, 0.33, -1.0, -1.0, 0.03, 0.15, 0.0, 1.0, 0.0, 0.15, 0.006];
    let fraud: [f32; 14] =
        [0.95, 0.83, 1.0, 0.22, 0.83, -1.0, -1.0, 0.95, 1.0, 0.0, 1.0, 1.0, 0.75, 0.005];
    let mut buf = b"IVF2".to_vec();
    for x in [16u32, 2, 14] {
        buf.extend(x.to_le_bytes());
    }
    for d in 0..14 {
        buf.extend(legit[d].to_le_bytes());
        buf.extend(fraud[d].to_le_bytes());
    }
    for x in 0u32..=2 {
        buf.extend(x.to_le_bytes());
    }
    buf.extend([0u8; 8]);
    buf.extend([1u8; 8]);
    for of in [legit, fraud] {
        for x in of {
            for _ in 0..8 {
                buf.extend(((x * 10000.0) as i16).to_le_bytes());
            }
        }
    }
    buf
}

/// Scores a transaction as the service does.
fn execute(case: &ScoreFraudUseCase, tx: &Transaction) -> FraudDecision {
    let q = vectorize(&case.vectorizer, tx);
    let ivf = &case.repository.ivf;
    let look = |nprobe: usize| {
        let centres: Vec<u32> = (0..ivf.k)
            .map(|c| {
                (0..14)
                    .map(|d| f32::from_bits(ivf.centroids[d * ivf.k + c]) - q[d])
                    .map(|x| x * x)
                    .sum::<f32>()
                    .to_bits()
            })
            .collect();
        let slots = ivf.slots(&ivf.probes(&centres, nprobe));
        let dists: Vec<u32> = slots
            .iter()
            .map(|&slot| {
                let raw = ivf.slot_values(slot);
                (0..14)
                    .map(|d| q[d] - raw[d] as f32 * 0.0001)
                    .map(|x| x * x)
                    .sum::<f32>()
                    .to_bits()
            })
            .collect();
        ivf.knn(&slots, &dists, NEIGHBOURS)
    };
    match case.execute(look(ivf.nprobe_fast)) {
        Verdict::Decided(decision) => decision,
        Verdict::LookAgain(nprobe) => case.conclude(&look(nprobe)),
    }
}

fn use_case() -> ScoreFraudUseCase {
    ScoreFraudUseCase {
        vectorizer: make_vectorizer(),
        repository: ReferenceRepository::from_file(&two_clusters(), 3, 8).unwrap(),
    }
}

#[test]
fn transactions_are_decided_by_their_neighbours() {
    let case = use_case();
    assert_eq!(
        execute(&case, &legit_tx()),
        FraudDecision { approved: true, fraud_count: 0 }
    );
    assert_eq!(
        execute(&case, &fraud_tx()),
        FraudDecision { approved: false, fraud_count: 5 }
    );
}

#[test]
fn three_of_five_votes_refuse_a_transaction() {
    let case = use_case();
    for n in 0..=5usize {
        let mut of = [0u8; 5];
        of[..n].fill(1);
        let fraud_score = n as f32 / 5.0;
        assert_eq!(
            case.conclude(&ranked(&of)),
            FraudDecision { approved: fraud_score < 0.6, fraud_count: n }
        );
    }
}

#[test]
fn close_votes_ask_for_a_second_look() {
    let case = use_case();
    for n in 0..=5usize {
        let mut of = [0u8; 5];
        of[..n].fill(1);
        match case.execute(ranked(&of)) {
            Verdict::Decided(d) => {
                assert!(n != 2 && n != 3);
                assert_eq!(d, FraudDecision { approved: n < 3, fraud_count: n });
            }
            Verdict::LookAgain(nprobe) => {
                assert!(n == 2 || n == 3);
                assert_eq!(nprobe, 8);
            }
        }
    }
}

#[test]
fn without_a_decision_a_transaction_is_approved() {
    assert_eq!(
        decision_or_approval(None),
        FraudDecision { approved: true, fraud_count: 0 }
    );
    let made = FraudDecision { approved: false, fraud_count: 4 };
    assert_eq!(decision_or_approval(Some(made)), made);
}
