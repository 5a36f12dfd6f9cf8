use marketsync::config::{
    api_client_config, contains_name, history_pairs, history_selected, pairs_mature,
    trades_selected, APIClientConfig, AppConfig, HistoryConfig, Pair, PairSeries, TradesConfig,
};
use marketsync::diff::{run_json, snapshot_update, Diff, SnapshotAction, StringOrVec};
use marketsync::gaps::{fill, series_mature, timestamps_missing};
use marketsync::paths::{
    dir_config, dir_data, dir_klines, dir_logs, dir_trades, dir_wip, file_config, file_fiat,
    file_pairs_binance, file_pairs_kraken, file_stablecoins, path_join, DirEntry,
};
use marketsync::tree::{serialize, tree_eq, Tree};

fn scalar(s: &str) -> Tree {
    Tree::Scalar(s.to_string())
}

fn obj(fields: Vec<(&str, Tree)>) -> Tree {
    Tree::Object(fields.into_iter().map(|(k, v)| (k.to_string(), v)).collect())
}

#[test]
fn gap_detection_reports_the_missing_slot() {
    let times = vec![0u64, 60, 180];
    let missing = timestamps_missing(&times, 60);
    assert_eq!(missing, vec![120u64]);
}

#[test]
fn fill_joins_onto_the_dense_grid() {
    let times = vec![0u64, 60, 180];
    let slots = fill(&times, 60);
    assert_eq!(slots.len(), 4);
    let expect = [(0u64, true), (60, true), (120, false), (180, true)];
    for (slot, (ts, present)) in slots.iter().zip(expect.iter()) {
        assert_eq!(slot.ts, *ts);
        assert_eq!(slot.present, *present);
    }
}

#[test]
fn gap_detection_none_when_dense() {
    let times = vec![100u64, 160, 220];
    let missing = timestamps_missing(&times, 60);
    assert!(missing.is_empty());
}

#[test]
fn maturity_is_a_full_day() {
    assert!(series_mature(0, 86402));
    assert!(!series_mature(2, 86402));
    assert!(!series_mature(0, 86400));
}

#[test]
fn diff_of_identical_snapshots_is_empty() {
    let a = obj(vec![
        ("pairs", Tree::Array(vec![scalar("1"), scalar("2")])),
        ("name", scalar("\"spot\"")),
    ]);
    let b = obj(vec![
        ("pairs", Tree::Array(vec![scalar("1"), scalar("2")])),
        ("name", scalar("\"spot\"")),
    ]);
    assert!(tree_eq(&a, &b));
    let mut d = Diff::new();
    run_json(&a, &b, "", &mut d);
    assert!(d.is_empty());
    assert!(d.new.is_empty() && d.old.is_empty() && d.diff.is_empty());
}

#[test]
fn diff_example_reports_added_and_changed() {
    // old = {"a":{"x":1}}, new = {"a":{"x":2},"b":3}
    let old_snapshot = obj(vec![("a", obj(vec![("x", scalar("1"))]))]);
    let new_snapshot = obj(vec![("a", obj(vec![("x", scalar("2"))])), ("b", scalar("3"))]);
    let mut d = Diff::new();
    run_json(&new_snapshot, &old_snapshot, "", &mut d);
    assert_eq!(d.new, vec![("".to_string(), vec!["b".to_string()])]);
    assert!(d.old.is_empty());
    assert_eq!(
        d.diff,
        vec![("/a/x".to_string(), (vec!["1".to_string()], vec!["2".to_string()]))]
    );
}

#[test]
fn diff_arrays_as_element_sets() {
    let left = Tree::Array(vec![scalar("1"), scalar("3")]);
    let right = Tree::Array(vec![scalar("1"), scalar("2")]);
    let mut d = Diff::new();
    run_json(&left, &right, "/list", &mut d);
    assert!(d.new.is_empty() && d.old.is_empty());
    assert_eq!(
        d.diff,
        vec![("/list".to_string(), (vec!["3".to_string()], vec!["2".to_string()]))]
    );
    // Reordering alone is not reported: arrays are compared as sets.
    let x = Tree::Array(vec![scalar("1"), scalar("2")]);
    let y = Tree::Array(vec![scalar("2"), scalar("1")]);
    let mut d2 = Diff::new();
    run_json(&x, &y, "", &mut d2);
    assert!(d2.is_empty());
}

#[test]
fn diff_shape_mismatch_is_a_changed_leaf() {
    let left = scalar("5");
    let right = Tree::Array(vec![scalar("5")]);
    let mut d = Diff::new();
    run_json(&left, &right, "/v", &mut d);
    assert_eq!(
        d.diff,
        vec![("/v".to_string(), (vec!["[5]".to_string()], vec!["5".to_string()]))]
    );
}

#[test]
fn removed_keys_are_reported() {
    let left = obj(vec![("a", scalar("1"))]);
    let right = obj(vec![("a", scalar("1")), ("gone", scalar("2"))]);
    let mut d = Diff::new();
    run_json(&left, &right, "", &mut d);
    assert!(d.new.is_empty());
    assert_eq!(d.old, vec![("".to_string(), vec!["gone".to_string()])]);
}

#[test]
fn serialization_writes_json_text() {
    assert_eq!(serialize(&scalar("1")), "1");
    assert_eq!(serialize(&Tree::Array(vec![scalar("1"), scalar("2")])), "[1,2]");
    assert_eq!(serialize(&obj(vec![("a", scalar("1"))])), "{\"a\":1}");
    let nested = obj(vec![("a", Tree::Array(vec![scalar("true"), scalar("null")]))]);
    assert_eq!(serialize(&nested), "{\"a\":[true,null]}");
    let quoted = obj(vec![("a\"b", scalar("1"))]);
    assert_eq!(serialize(&quoted), "{\"a\\\"b\":1}");
    // Control characters in keys follow the JSON string rules: named
    // escapes where they exist, \u00 and two lowercase hex digits
    // otherwise.
    let ctrl = obj(vec![("a\u{1f}b", scalar("1"))]);
    assert_eq!(serialize(&ctrl), "{\"a\\u001fb\":1}");
    let named = obj(vec![("x\u{8}\u{c}", scalar("2"))]);
    assert_eq!(serialize(&named), "{\"x\\b\\f\":2}");
}

#[test]
fn snapshot_update_rules() {
    let fresh = obj(vec![("a", scalar("1"))]);
    assert_eq!(snapshot_update(&fresh, None), SnapshotAction::Create);
    let same = obj(vec![("a", scalar("1"))]);
    assert_eq!(snapshot_update(&fresh, Some(&same)), SnapshotAction::Skip);
    let older = obj(vec![("a", scalar("2"))]);
    match snapshot_update(&fresh, Some(&older)) {
        SnapshotAction::Overwrite(report) => {
            assert_eq!(
                report.diff,
                vec![("/a".to_string(), (vec!["2".to_string()], vec!["1".to_string()]))]
            );
        },
        other => panic!("expected an overwrite, got {:?}", other),
    }
}

#[test]
fn string_or_vec_holds_both_shapes() {
    let s = StringOrVec::String("x".to_string());
    let v = StringOrVec::Vec(vec!["a".to_string(), "b".to_string()]);
    assert_ne!(s, v);
}

#[test]
fn path_layout() {
    assert_eq!(dir_config(), "config");
    assert_eq!(dir_data(), "data");
    assert_eq!(dir_klines(), "data/klines");
    assert_eq!(dir_trades(), "data/trades");
    assert_eq!(dir_logs(), "logs");
    assert_eq!(dir_wip(), "wip");
    assert_eq!(file_config(), "config/config.yaml");
    assert_eq!(file_fiat(), "config/fiat.json");
    assert_eq!(file_pairs_binance(), "config/pairs-binance.json");
    assert_eq!(file_pairs_kraken(), "config/pairs-kraken.json");
    assert_eq!(file_stablecoins(), "config/stablecoins.json");
    assert_eq!(path_join("data/klines", "BTCEUR.feather"), "data/klines/BTCEUR.feather");
    let entry = DirEntry {
        path: "data/klines/BTCEUR.feather".to_string(),
        stem: "BTCEUR".to_string(),
        extension: "feather".to_string(),
    };
    assert_eq!(entry.stem, "BTCEUR");
}

fn sample_pair(quote: &str, status: &str, spot: bool, target: &str) -> Pair {
    let mut p = Pair::default();
    p.quote = quote.to_string();
    p.status = status.to_string();
    p.spot = spot;
    p.target = target.to_string();
    p
}

#[test]
fn history_filter_applies_each_restriction() {
    let cfg = HistoryConfig {
        spot_only: true,
        quote_only: true,
        quotes: vec!["EUR".to_string()],
        tradable_only: true,
        fiat_removed: true,
        stablecoins_removed: true,
    };
    let fiat = vec!["USD".to_string()];
    let stable = vec!["USDT".to_string()];
    let good = sample_pair("EUR", "TRADING", true, "BTC");
    assert!(history_selected(&good, &cfg, &fiat, &stable));
    assert!(!history_selected(&sample_pair("USD", "TRADING", true, "BTC"), &cfg, &fiat, &stable));
    assert!(!history_selected(&sample_pair("EUR", "BREAK", true, "BTC"), &cfg, &fiat, &stable));
    assert!(!history_selected(&sample_pair("EUR", "TRADING", false, "BTC"), &cfg, &fiat, &stable));
    assert!(!history_selected(&sample_pair("EUR", "TRADING", true, "USD"), &cfg, &fiat, &stable));
    assert!(!history_selected(&sample_pair("EUR", "TRADING", true, "USDT"), &cfg, &fiat, &stable));
}

#[test]
fn trades_filter_checks_quotes_only() {
    let cfg = TradesConfig {
        quote_only: true,
        quotes: vec!["EUR".to_string()],
        limit: 1000,
        recvwindow: 5000,
    };
    assert!(trades_selected(&sample_pair("EUR", "", false, "BTC"), &cfg));
    assert!(!trades_selected(&sample_pair("USD", "", false, "BTC"), &cfg));
}

#[test]
fn history_pairs_selects_names_in_order() {
    let cfg = HistoryConfig {
        spot_only: false,
        quote_only: true,
        quotes: vec!["EUR".to_string()],
        tradable_only: false,
        fiat_removed: false,
        stablecoins_removed: false,
    };
    let pairs = vec![
        ("BTCEUR".to_string(), sample_pair("EUR", "TRADING", true, "BTC")),
        ("BTCUSD".to_string(), sample_pair("USD", "TRADING", true, "BTC")),
        ("ETHEUR".to_string(), sample_pair("EUR", "TRADING", true, "ETH")),
    ];
    let names = history_pairs(&pairs, &cfg, &Vec::new(), &Vec::new());
    assert_eq!(names, vec!["BTCEUR".to_string(), "ETHEUR".to_string()]);
}

#[test]
fn mature_pairs_reported_once() {
    let entries = vec![
        PairSeries { pair: "OLD".to_string(), earliest_ts: 0 },
        PairSeries { pair: "OLD".to_string(), earliest_ts: 10 },
        PairSeries { pair: "FRESH".to_string(), earliest_ts: 1_000_000 },
    ];
    let mature = pairs_mature(&entries, 1_000_100);
    assert_eq!(mature, vec!["OLD".to_string()]);
}

#[test]
fn endpoint_lookup_by_name() {
    let cfg = AppConfig {
        interval: "1m".to_string(),
        api_retries: 3,
        api_timeout: "30s".to_string(),
        history: HistoryConfig {
            spot_only: false,
            quote_only: false,
            quotes: Vec::new(),
            tradable_only: false,
            fiat_removed: false,
            stablecoins_removed: false,
        },
        trades: TradesConfig {
            quote_only: false,
            quotes: Vec::new(),
            limit: 1000,
            recvwindow: 5000,
        },
        api_clients: vec![(
            "binance".to_string(),
            APIClientConfig {
                url: "https://api.example.test".to_string(),
                limit_requests: 5,
                limit_period: "1m".to_string(),
                limit_status_codes: vec![429, 418],
            },
        )],
    };
    let c = api_client_config(&cfg, &"binance".to_string()).unwrap();
    assert_eq!(c.limit_requests, 5);
    assert!(api_client_config(&cfg, &"kraken".to_string()).is_none());
    assert!(contains_name(&vec!["a".to_string()], &"a".to_string()));
    assert!(!contains_name(&vec!["a".to_string()], &"b".to_string()));
}
