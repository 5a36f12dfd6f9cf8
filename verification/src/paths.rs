use vstd::prelude::*;

verus! {

/// One entry of a dataset directory listing, as plain path text.
#[derive(Clone, Debug)]
pub struct DirEntry {
    pub path: String,
    pub stem: String,
    pub extension: String,
}

/// Joins a directory and a name with a single `/` separator.
pub fn path_join(base: &str, name: &str) -> (r: String)
    ensures
        r@ == base@ + "/"@ + name@,
{
    let mut s = base.to_owned();
    s.append("/");
    s.append(name);
    s
}

/// Directory of configuration and reference snapshots, relative to the
/// working directory.
pub fn dir_config() -> (r: String)
    ensures
        r@ == "config"@,
{
    "config".to_owned()
}

/// Root directory of persisted datasets.
pub fn dir_data() -> (r: String)
    ensures
        r@ == "data"@,
{
    "data".to_owned()
}

/// Directory of persisted candle datasets.
pub fn dir_klines() -> (r: String)
    ensures
        r@ == "data"@ + "/"@ + "klines"@,
{
    let d = dir_data();
    path_join(d.as_str(), "klines")
}

/// Directory of persisted trade datasets.
pub fn dir_trades() -> (r: String)
    ensures
        r@ == "data"@ + "/"@ + "trades"@,
{
    let d = dir_data();
    path_join(d.as_str(), "trades")
}

/// Directory of audit logs (diff reports of reference snapshots).
pub fn dir_logs() -> (r: String)
    ensures
        r@ == "logs"@,
{
    "logs".to_owned()
}

/// Scratch directory.
pub fn dir_wip() -> (r: String)
    ensures
        r@ == "wip"@,
{
    "wip".to_owned()
}

/// Path of the application configuration file.
pub fn file_config() -> (r: String)
    ensures
        r@ == "config"@ + "/"@ + "config.yaml"@,
{
    let d = dir_config();
    path_join(d.as_str(), "config.yaml")
}

/// Path of the fiat currency snapshot.
pub fn file_fiat() -> (r: String)
    ensures
        r@ == "config"@ + "/"@ + "fiat.json"@,
{
    let d = dir_config();
    path_join(d.as_str(), "fiat.json")
}

/// Path of the first exchange's trading-pair snapshot.
pub fn file_pairs_binance() -> (r: String)
    ensures
        r@ == "config"@ + "/"@ + "pairs-binance.json"@,
{
    let d = dir_config();
    path_join(d.as_str(), "pairs-binance.json")
}

/// Path of the second exchange's trading-pair snapshot.
pub fn file_pairs_kraken() -> (r: String)
    ensures
        r@ == "config"@ + "/"@ + "pairs-kraken.json"@,
{
    let d = dir_config();
    path_join(d.as_str(), "pairs-kraken.json")
}

/// Path of the stablecoin snapshot.
pub fn file_stablecoins() -> (r: String)
    ensures
        r@ == "config"@ + "/"@ + "stablecoins.json"@,
{
    let d = dir_config();
    path_join(d.as_str(), "stablecoins.json")
}

} // verus!
