use fraud_detection::balancer::{deal, parse_upstreams, port, MAX_FDS_PER_MSG};
use fraud_detection::config::{Config, ConfigError, Variables};
use fraud_detection::domain::fraud::FraudDecision;
use fraud_detection::domain::instant::Instant;
use fraud_detection::env::sock_path;
use fraud_detection::metrics::{snapshot, Counters};
use fraud_detection::single::Single;
use fraud_detection::web::dto::{
    CustomerDto, LastTransactionDto, MerchantDto, TerminalDto, TransactionDto, TransactionRequest,
};
use fraud_detection::web::extractors::{SonicJson, SonicJsonRejection};
use fraud_detection::web::handlers::{
    fraud_score_response, into_transaction, ready_handler, TIMEOUT_MS,
};

fn no_variables() -> Variables {
    Variables {
        port: None,
        ivf_path: None,
        mcc_path: None,
        norm_path: None,
        nprobe_fast: None,
        nprobe_slow: None,
    }
}

fn config(vars: Variables) -> Config {
    Config::from_env(vars).unwrap()
}

#[test]
fn test_config_nprobe_fast_default() {
    let config = config(no_variables());
    assert_eq!(config.nprobe_fast, 3);
}

#[test]
fn test_config_nprobe_fast_from_env() {
    let mut vars = no_variables();
    vars.nprobe_fast = Some("5".to_string());
    let config = config(vars);
    assert_eq!(config.nprobe_fast, 5);
}

#[test]
fn config_defaults() {
    let c = config(no_variables());
    assert_eq!(c.port, 3000);
    assert_eq!(c.ivf_path, "resources/ivf_index.bin");
    assert_eq!(c.mcc_path, "resources/mcc_risk.json");
    assert_eq!(c.norm_path, "resources/normalization.json");
    assert_eq!(c.nprobe_slow, 24);
}

#[test]
fn config_from_all_variables() {
    let text = |s: &str| Some(s.to_string());
    let c = config(Variables {
        port: text("+8080"),
        ivf_path: text("a"),
        mcc_path: text(""),
        norm_path: text("ü"),
        nprobe_fast: text("0"),
        nprobe_slow: text("18446744073709551615"),
    });
    assert_eq!(c.port, 8080);
    assert_eq!(c.ivf_path, "a");
    assert_eq!(c.mcc_path, "");
    assert_eq!(c.norm_path, "ü");
    assert_eq!(c.nprobe_fast, 0);
    assert_eq!(c.nprobe_slow, usize::MAX);
}

#[test]
fn config_errors_name_the_first_bad_variable() {
    let bad = || Some("x".to_string());
    let mut vars = no_variables();
    vars.nprobe_slow = bad();
    assert_eq!(Config::from_env(vars).err(), Some(ConfigError::NprobeSlow));
    let mut vars = no_variables();
    vars.nprobe_slow = bad();
    vars.nprobe_fast = Some("-1".to_string());
    assert_eq!(Config::from_env(vars).err(), Some(ConfigError::NprobeFast));
    let mut vars = no_variables();
    vars.nprobe_fast = bad();
    vars.port = Some("65536".to_string());
    assert_eq!(Config::from_env(vars).err(), Some(ConfigError::Port));
}

#[test]
fn socket_paths() {
    assert_eq!(sock_path(None), "/tmp/fraud-api.sock");
    assert_eq!(sock_path(Some("/run/a".to_string())), "/run/a");
}

#[test]
fn snapshot_reads_all_seven_counters() {
    let counters = Counters {
        fast_path_count: 1,
        ivf_count: 2,
        fast_probe_count: 3,
        full_probe_count: 4,
        fast_probe_total_us: 500,
        full_probe_total_us: 600,
        request_total: 7,
    };

    let s = snapshot(&counters);
    assert_eq!(s.fast_path_count, 1);
    assert_eq!(s.ivf_count, 2);
    assert_eq!(s.fast_probe_count, 3);
    assert_eq!(s.full_probe_count, 4);
    assert_eq!(s.fast_probe_total_us, 500);
    assert_eq!(s.full_probe_total_us, 600);
    assert_eq!(s.request_total, 7);
}

#[test]
fn upstreams_are_separated_by_commas() {
    let lists = [
        "", ",", " , ,", "/a", "/a,/b", " /a , /b ,,", "\t/a\n,/b c", "\u{3000}/a\u{3000},b", "a,,b",
    ];
    for raw in lists {
        let expected: Vec<Vec<u8>> = raw
            .split(',')
            .map(|s| s.trim().as_bytes().to_vec())
            .filter(|s| !s.is_empty())
            .collect();
        assert_eq!(parse_upstreams(raw.as_bytes()), expected, "{raw:?}");
    }
}

#[test]
fn ports_of_the_balancer() {
    assert_eq!(port(None), 9999);
    assert_eq!(port(Some(b"80")), 80);
    assert_eq!(port(Some(b"65535")), 65535);
    assert_eq!(port(Some(b"65536")), 9999);
    assert_eq!(port(Some(b"x")), 9999);
    assert_eq!(port(Some(b"")), 9999);
}

#[test]
fn connections_are_dealt_in_turn() {
    let (batches, next) = deal(&[10, 11, 12, 13, 14, 15, 16], 3, 1);
    assert_eq!(batches, [vec![12, 15], vec![10, 13, 16], vec![11, 14]]);
    assert_eq!(next, 2);
    let (batches, next) = deal(&[], 2, 1);
    assert_eq!(batches, [vec![], vec![]] as [Vec<i32>; 2]);
    assert_eq!(next, 1);
    let fds: Vec<i32> = (0..100).collect();
    for n in 1..9 {
        for first in 0..n {
            let (batches, next) = deal(&fds, n, first);
            assert_eq!(next, (first + 100) % n);
            assert_eq!(batches.iter().map(|b| b.len()).sum::<usize>(), fds.len());
            for batch in &batches {
                assert!(batch.len() == 100 / n || batch.len() == 100 / n + 1);
            }
        }
    }
    assert_eq!(MAX_FDS_PER_MSG, 16);
}

#[test]
fn test_rejection_is_422() {
    assert_eq!(SonicJsonRejection.status(), 422);
    assert_eq!(
        SonicJsonRejection.status(),
        axum::http::StatusCode::UNPROCESSABLE_ENTITY.as_u16()
    );
}

#[test]
fn what_cannot_be_read_is_rejected() {
    assert!(matches!(SonicJson::from_read(Some(42u32)), Ok(SonicJson(42))));
    assert!(SonicJson::<u32>::from_read(None).is_err());
}

#[test]
fn the_ready_endpoint_says_ok() {
    assert_eq!(ready_handler(), "ok");
    assert_eq!(TIMEOUT_MS, 1600);
}

#[test]
fn responses_follow_the_decision() {
    let r = fraud_score_response(None);
    assert_eq!((r.approved, r.fraud_count), (true, 0));
    let r = fraud_score_response(Some(FraudDecision { approved: false, fraud_count: 4 }));
    assert_eq!((r.approved, r.fraud_count), (false, 4));
}

#[test]
fn requests_become_transactions() {
    let single = |x: f32| Single { bits: x.to_bits() };
    let req = TransactionRequest {
        id: "tx-1".to_string(),
        transaction: TransactionDto {
            amount: single(41.12),
            installments: 2,
            requested_at: Instant { secs: 1_773_254_753, nanos: 5 },
        },
        customer: CustomerDto {
            avg_amount: single(82.24),
            tx_count_24h: 3,
            known_merchants: vec!["MERC-003".to_string()],
        },
        merchant: MerchantDto {
            id: "MERC-016".to_string(),
            mcc: "5411".to_string(),
            avg_amount: single(60.25),
        },
        terminal: TerminalDto { is_online: true, card_present: false, km_from_home: single(29.2) },
        last_transaction: Some(LastTransactionDto {
            timestamp: Instant { secs: 1_773_254_000, nanos: 0 },
            km_from_current: single(18.8),
        }),
    };
    let tx = into_transaction(req);
    assert_eq!(tx.id, "tx-1");
    assert_eq!(tx.amount, single(41.12));
    assert_eq!(tx.installments, 2);
    assert_eq!(tx.requested_at, Instant { secs: 1_773_254_753, nanos: 5 });
    assert_eq!(tx.customer.avg_amount, single(82.24));
    assert_eq!(tx.customer.tx_count_24h, 3);
    assert_eq!(tx.customer.known_merchants, ["MERC-003"]);
    assert_eq!(tx.merchant.id, "MERC-016");
    assert_eq!(tx.merchant.mcc, "5411");
    assert_eq!(tx.merchant.avg_amount, single(60.25));
    assert!(tx.terminal.is_online);
    assert!(!tx.terminal.card_present);
    assert_eq!(tx.terminal.km_from_home, single(29.2));
    let last = tx.last_transaction.unwrap();
    assert_eq!(last.timestamp.secs, 1_773_254_000);
    assert_eq!(last.km_from_current, single(18.8));
}
