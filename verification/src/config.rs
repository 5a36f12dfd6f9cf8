use vstd::prelude::*;

verus! {

/// Configuration of one remote endpoint's client: its base URL and the
/// admission limits.  The limit period is an interval string such
/// as `1m`.
#[derive(Clone, Debug)]
pub struct APIClientConfig {
    pub url: String,
    pub limit_requests: usize,
    pub limit_period: String,
    pub limit_status_codes: Vec<u16>,
}

/// Which trading pairs the candle-history pass covers.
#[derive(Clone, Debug)]
pub struct HistoryConfig {
    pub spot_only: bool,
    pub quote_only: bool,
    pub quotes: Vec<String>,
    pub tradable_only: bool,
    pub fiat_removed: bool,
    pub stablecoins_removed: bool,
}

/// Parameters of the trade-history pass.
#[derive(Clone, Debug)]
pub struct TradesConfig {
    pub quote_only: bool,
    pub quotes: Vec<String>,
    pub limit: u64,
    pub recvwindow: u64,
}

/// The application configuration the core consumes, as plain values.
/// Endpoint clients are held as a name-keyed association list.
#[derive(Clone, Debug)]
pub struct AppConfig {
    pub interval: String,
    pub api_retries: usize,
    pub api_timeout: String,
    pub history: HistoryConfig,
    pub trades: TradesConfig,
    pub api_clients: Vec<(String, APIClientConfig)>,
}

/// A name occurs in a list of strings.
pub open spec fn name_listed(names: Seq<String>, n: Seq<char>) -> bool {
    exists|i: int| 0 <= i < names.len() && (#[trigger] names[i])@ == n
}

/// Whether the list carries the given name.
pub fn contains_name(names: &Vec<String>, n: &String) -> (r: bool)
    ensures
        r == name_listed(names@, n@),
{
    let mut i: usize = 0;
    while i < names.len()
        invariant
            i <= names.len(),
            forall|j: int| 0 <= j < i ==> (#[trigger] names@[j])@ != n@,
        decreases names.len() - i,
    {
        if names[i].eq(n) {
            assert(names@[i as int]@ == n@);
            return true;
        }
        i += 1;
    }
    false
}

/// Looks an endpoint's client configuration up by name — the first entry
/// under that name, if any.
pub fn api_client_config<'a>(config: &'a AppConfig, name: &String) -> (r: Option<
    &'a APIClientConfig,
>)
    ensures
        match r {
            Some(c) => exists|i: int|
                0 <= i < config.api_clients@.len() && (#[trigger] config.api_clients@[i]).0@
                    == name@ && c == &config.api_clients@[i].1,
            None => forall|i: int|
                0 <= i < config.api_clients@.len() ==> (#[trigger] config.api_clients@[i]).0@
                    != name@,
        },
{
    let mut i: usize = 0;
    while i < config.api_clients.len()
        invariant
            i <= config.api_clients.len(),
            forall|j: int|
                0 <= j < i ==> (#[trigger] config.api_clients@[j]).0@ != name@,
        decreases config.api_clients.len() - i,
    {
        if config.api_clients[i].0.eq(name) {
            assert(config.api_clients@[i as int].0@ == name@);
            return Some(&config.api_clients[i].1);
        }
        i += 1;
    }
    None
}

/// One trading pair's reference data, as the pair filters read it.  The
/// exchange's decimal filter bounds are carried as text, exactly as the
/// endpoint sent them.
#[derive(Clone, Debug)]
pub struct Pair {
    pub spot: bool,
    pub status: String,
    pub target: String,
    pub target_precision: usize,
    pub quote: String,
    pub quote_precision: usize,
    pub filter_quantity_min: String,
    pub filter_quantity_max: String,
    pub filter_step_size: String,
    pub filter_notional_min: String,
}

impl Default for Pair {
    /// An empty pair, every field blank or off.
    fn default() -> (r: Pair)
        ensures
            !r.spot,
            r.status@ == Seq::<char>::empty(),
            r.target@ == Seq::<char>::empty(),
            r.target_precision == 0,
            r.quote@ == Seq::<char>::empty(),
            r.quote_precision == 0,
            r.filter_quantity_min@ == Seq::<char>::empty(),
            r.filter_quantity_max@ == Seq::<char>::empty(),
            r.filter_step_size@ == Seq::<char>::empty(),
            r.filter_notional_min@ == Seq::<char>::empty(),
    {
        Pair {
            spot: false,
            status: String::new(),
            target: String::new(),
            target_precision: 0,
            quote: String::new(),
            quote_precision: 0,
            filter_quantity_min: String::new(),
            filter_quantity_max: String::new(),
            filter_step_size: String::new(),
            filter_notional_min: String::new(),
        }
    }
}

/// The candle-history pair filter of the per-source passes: a pair is
/// covered unless one of the enabled restrictions excludes it.
pub open spec fn spec_history_selected(
    pair: Pair,
    cfg: HistoryConfig,
    fiat: Seq<String>,
    stablecoins: Seq<String>,
) -> bool {
    &&& cfg.spot_only ==> pair.spot
    &&& cfg.quote_only ==> name_listed(cfg.quotes@, pair.quote@)
    &&& cfg.tradable_only ==> pair.status@ == "TRADING"@
    &&& cfg.fiat_removed ==> !name_listed(fiat, pair.target@)
    &&& cfg.stablecoins_removed ==> !name_listed(stablecoins, pair.target@)
}

/// Applies the candle-history restrictions to one pair.
pub fn history_selected(
    pair: &Pair,
    cfg: &HistoryConfig,
    fiat: &Vec<String>,
    stablecoins: &Vec<String>,
) -> (r: bool)
    ensures
        r == spec_history_selected(*pair, *cfg, fiat@, stablecoins@),
{
    if cfg.spot_only && !pair.spot {
        return false;
    }
    if cfg.quote_only && !contains_name(&cfg.quotes, &pair.quote) {
        return false;
    }
    if cfg.tradable_only {
        let trading: String = "TRADING".to_owned();
        if !pair.status.eq(&trading) {
            return false;
        }
    }
    if cfg.fiat_removed && contains_name(fiat, &pair.target) {
        return false;
    }
    if cfg.stablecoins_removed && contains_name(stablecoins, &pair.target) {
        return false;
    }
    true
}

/// The trade-history pair filter: only the quote restriction applies.
pub open spec fn spec_trades_selected(pair: Pair, cfg: TradesConfig) -> bool {
    cfg.quote_only ==> name_listed(cfg.quotes@, pair.quote@)
}

pub fn trades_selected(pair: &Pair, cfg: &TradesConfig) -> (r: bool)
    ensures
        r == spec_trades_selected(*pair, *cfg),
{
    if cfg.quote_only && !contains_name(&cfg.quotes, &pair.quote) {
        return false;
    }
    true
}

/// `name` names a pair that the candle-history restrictions select.
pub open spec fn selected_name(
    pairs: Seq<(String, Pair)>,
    cfg: HistoryConfig,
    fiat: Seq<String>,
    stablecoins: Seq<String>,
    name: Seq<char>,
) -> bool {
    exists|j: int|
        0 <= j < pairs.len() && (#[trigger] pairs[j]).0@ == name && spec_history_selected(
            pairs[j].1,
            cfg,
            fiat,
            stablecoins,
        )
}

/// Selects, in order, the names of the pairs the candle-history pass
/// covers.
pub fn history_pairs(
    pairs: &Vec<(String, Pair)>,
    cfg: &HistoryConfig,
    fiat: &Vec<String>,
    stablecoins: &Vec<String>,
) -> (r: Vec<String>)
    ensures
        forall|m: int|
            0 <= m < r@.len() ==> selected_name(
                pairs@,
                *cfg,
                fiat@,
                stablecoins@,
                (#[trigger] r@[m])@,
            ),
        forall|i: int|
            0 <= i < pairs@.len() && spec_history_selected(
                (#[trigger] pairs@[i]).1,
                *cfg,
                fiat@,
                stablecoins@,
            ) ==> name_listed(r@, pairs@[i].0@),
{
    let mut out: Vec<String> = Vec::new();
    let mut i: usize = 0;
    while i < pairs.len()
        invariant
            i <= pairs.len(),
            forall|m: int|
                0 <= m < out@.len() ==> selected_name(
                    pairs@,
                    *cfg,
                    fiat@,
                    stablecoins@,
                    (#[trigger] out@[m])@,
                ),
            forall|j: int|
                0 <= j < i && spec_history_selected(
                    (#[trigger] pairs@[j]).1,
                    *cfg,
                    fiat@,
                    stablecoins@,
                ) ==> name_listed(out@, pairs@[j].0@),
        decreases pairs.len() - i,
    {
        let ghost out_pre = out@;
        let selected = history_selected(&pairs[i].1, cfg, fiat, stablecoins);
        if selected {
            out.push(pairs[i].0.clone());
            assert(out@[out@.len() - 1]@ == pairs@[i as int].0@);
            assert(selected_name(pairs@, *cfg, fiat@, stablecoins@, out@[out@.len() - 1]@)) by {
                assert((pairs@[i as int]).0@ == out@[out@.len() - 1]@);
            }
            assert forall|m: int| 0 <= m < out@.len() implies selected_name(
                pairs@,
                *cfg,
                fiat@,
                stablecoins@,
                (#[trigger] out@[m])@,
            ) by {
                if m < out_pre.len() {
                    assert(out@[m] == out_pre[m]);
                }
            }
        }
        assert forall|j: int|
            0 <= j < i + 1 && spec_history_selected(
                (#[trigger] pairs@[j]).1,
                *cfg,
                fiat@,
                stablecoins@,
            ) implies name_listed(out@, pairs@[j].0@) by {
            if j < i {
                let m = choose|m: int|
                    0 <= m < out_pre.len() && (#[trigger] out_pre[m])@ == pairs@[j].0@;
                assert(out@[m]@ == pairs@[j].0@);
            } else {
                assert(out@[out@.len() - 1]@ == pairs@[j].0@);
            }
        }
        i += 1;
    }
    out
}

/// One dataset's name and earliest available timestamp, as read back from
/// the persisted candle files.
#[derive(Clone, Debug)]
pub struct PairSeries {
    pub pair: String,
    pub earliest_ts: u64,
}

/// `name` names a series whose collection stalled: its earliest
/// timestamp is more than one day before `now_s`.
pub open spec fn stale_name(entries: Seq<PairSeries>, now_s: u64, name: Seq<char>) -> bool {
    exists|j: int|
        0 <= j < entries.len() && (#[trigger] entries[j]).pair@ == name && entries[j].earliest_ts
            + 86400 < now_s
}

/// The maturity report: the pairs whose earliest available
/// timestamp is more than one day old, each name reported once.
pub fn pairs_mature(entries: &Vec<PairSeries>, now_s: u64) -> (r: Vec<String>)
    ensures
        forall|m: int| 0 <= m < r@.len() ==> stale_name(entries@, now_s, (#[trigger] r@[m])@),
        forall|i: int|
            0 <= i < entries@.len() && (#[trigger] entries@[i]).earliest_ts + 86400 < now_s
                ==> name_listed(r@, entries@[i].pair@),
        forall|m1: int, m2: int| 0 <= m1 < m2 < r@.len() ==> (#[trigger] r@[m1])@ != (
        #[trigger] r@[m2])@,
{
    let mut out: Vec<String> = Vec::new();
    let mut i: usize = 0;
    while i < entries.len()
        invariant
            i <= entries.len(),
            forall|m: int|
                0 <= m < out@.len() ==> stale_name(entries@, now_s, (#[trigger] out@[m])@),
            forall|j: int|
                0 <= j < i && (#[trigger] entries@[j]).earliest_ts + 86400 < now_s
                    ==> name_listed(out@, entries@[j].pair@),
            forall|m1: int, m2: int| 0 <= m1 < m2 < out@.len() ==> (#[trigger] out@[m1])@ != (
            #[trigger] out@[m2])@,
        decreases entries.len() - i,
    {
        let ghost out_pre = out@;
        let stale = crate::gaps::series_mature(entries[i].earliest_ts, now_s);
        if stale && !contains_name(&out, &entries[i].pair) {
            out.push(entries[i].pair.clone());
            assert(out@[out@.len() - 1]@ == entries@[i as int].pair@);
            assert(stale_name(entries@, now_s, out@[out@.len() - 1]@)) by {
                assert((entries@[i as int]).pair@ == out@[out@.len() - 1]@);
            }
            assert forall|m: int| 0 <= m < out@.len() implies stale_name(
                entries@,
                now_s,
                (#[trigger] out@[m])@,
            ) by {
                if m < out_pre.len() {
                    assert(out@[m] == out_pre[m]);
                }
            }
            assert forall|m1: int, m2: int|
                0 <= m1 < m2 < out@.len() implies (#[trigger] out@[m1])@ != (
            #[trigger] out@[m2])@ by {
                if m2 == out@.len() - 1 {
                    assert(out@[m1] == out_pre[m1]);
                    assert(!name_listed(out_pre, entries@[i as int].pair@));
                }
            }
        }
        assert forall|j: int|
            0 <= j < i + 1 && (#[trigger] entries@[j]).earliest_ts + 86400
                < now_s implies name_listed(out@, entries@[j].pair@) by {
            if j < i {
                let m = choose|m: int|
                    0 <= m < out_pre.len() && (#[trigger] out_pre[m])@ == entries@[j].pair@;
                assert(out@[m]@ == entries@[j].pair@);
            } else {
                if name_listed(out_pre, entries@[j].pair@) {
                    let m = choose|m: int|
                        0 <= m < out_pre.len() && (#[trigger] out_pre[m])@ == entries@[j].pair@;
                    assert(out@[m]@ == entries@[j].pair@);
                } else {
                    assert(out@[out@.len() - 1]@ == entries@[j].pair@);
                }
            }
        }
        i += 1;
    }
    out
}

} // verus!
