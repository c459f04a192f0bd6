//! Candles between the market, the database and the program, and the stored settings.

use crate::bingx_answers;
use crate::clock;
use crate::clock::first_download;
use crate::decimal;
use crate::decimal::{integer_text, numeral_text};
use crate::decimal_reader::parse_double_or;
use crate::double;
use crate::double::Double;
use crate::double_laws;
use crate::json;
use crate::json::{as_integer, as_text, elements, parse_json, Json};
use crate::types::Candle;
use vstd::arithmetic::power2::*;
use vstd::prelude::*;
use vstd::string::*;

verus! {

/// Whether the table of candles has to be rebuilt with a column for the timeframe.
pub fn needs_migration(table_exists: bool, has_timeframe: bool) -> (r: bool)
    ensures
        r == (table_exists && !has_timeframe),
{
    table_exists && !has_timeframe
}

/// The moment from which candles are downloaded: just behind the last one, or the first download.
pub open spec fn resume_time(last: Option<i64>) -> int {
    match last {
        Some(t) => t + 1,
        None => clock::midnight(2020, 4, 20),
    }
}

/// The moment from which candles are downloaded.
pub fn start_time(last: Option<i64>) -> (r: i64)
    requires
        last matches Some(t) ==> t < i64::MAX,
    ensures
        r == resume_time(last),
{
    match last {
        Some(t) => t + 1,
        None => first_download(),
    }
}

/// A time from its stored number.
pub open spec fn time_in(stored: Double) -> int {
    double::clamped(stored.truncated(), i64::MIN as int, i64::MAX as int)
}

/// The candle from a stored row, whose times are stored as numbers.
pub fn stored_candle(
    open_time: Double,
    open: Double,
    high: Double,
    low: Double,
    close: Double,
    volume: Double,
    close_time: Double,
) -> (r: Candle)
    ensures
        r == (Candle {
            open_time: time_in(open_time) as i64,
            open,
            high,
            low,
            close,
            volume,
            close_time: time_in(close_time) as i64,
        }),
        r.open_time == time_in(open_time),
        r.close_time == time_in(close_time),
{
    Candle {
        open_time: open_time.to_i64(),
        open,
        high,
        low,
        close,
        volume,
        close_time: close_time.to_i64(),
    }
}

/// A time as it is stored.
pub fn stored_time(millis: i64) -> (r: Double)
    ensures
        r == Double::of(millis as int),
{
    Double::from_i64(millis)
}

/// A time that has a number of its own, which are all times of up to 53 binary digits moved up by
/// any number of places, is read back as it was stored.
pub proof fn stored_times_are_read_back(m: int, k: nat)
    requires
        -pow2(53) < m < pow2(53),
        i64::MIN <= m * pow2(k) <= i64::MAX,
    ensures
        time_in(Double::of(m * pow2(k))) == m * pow2(k),
{
    lemma2_to64();
    lemma2_to64_rest();
    double_laws::integers_are_kept(m, k);
}

/// The download goes on behind what is stored: no candle is asked for again.
pub proof fn download_goes_on_behind(last: i64)
    ensures
        resume_time(Some(last)) == last + 1,
        resume_time(Some(last)) > last,
{
}

/// The address of up to a thousand candles from a moment on.
pub fn klines_url(timeframe: &str, start: i64) -> (r: String)
    ensures
        r@ == "https://api.binance.com/api/v3/klines?symbol=BTCUSDT&interval="@ + timeframe@
            + "&startTime="@ + decimal::signed_numeral(start as int) + "&limit=1000"@,
{
    let mut url = "https://api.binance.com/api/v3/klines?symbol=BTCUSDT&interval=".to_owned();
    url.append(timeframe);
    url.append("&startTime=");
    let from = integer_text(start as i128);
    url.append(from.as_str());
    url.append("&limit=1000");
    url
}

/// A number written as a text, zero where it is none.
pub open spec fn amount(v: Json) -> Double {
    match v.text() {
        Some(s) => bingx_answers::number_or(s, Double::zero()),
        None => Double::zero(),
    }
}

/// A time in milliseconds, zero where it is none.
pub open spec fn moment(v: Json) -> i64 {
    match v.integer() {
        Some(t) => t,
        None => 0,
    }
}

/// The candle that the first seven fields of an entry hold.
pub open spec fn candle_in(entry: Seq<Json>) -> Candle {
    Candle {
        open_time: moment(entry[0]),
        open: amount(entry[1]),
        high: amount(entry[2]),
        low: amount(entry[3]),
        close: amount(entry[4]),
        volume: amount(entry[5]),
        close_time: moment(entry[6]),
    }
}

/// The candles of the first `n` entries; an entry with fewer than seven fields is passed over.
pub open spec fn candles_in(entries: Seq<Seq<Json>>, n: nat) -> Seq<Candle>
    decreases n,
{
    if n == 0 {
        Seq::empty()
    } else {
        let rest = candles_in(entries, (n - 1) as nat);
        if entries[n - 1].len() >= 7 {
            rest.push(candle_in(entries[n - 1]))
        } else {
            rest
        }
    }
}

/// The fields of a document that is a list of lists.
pub open spec fn entries_in(document: Json) -> Option<Seq<Seq<Json>>> {
    match document {
        Json::List(list) => if forall|i: int| 0 <= i < list.len() ==> #[trigger] list[i] is List {
            Some(list.map_values(|v: Json| v->List_0))
        } else {
            None
        },
        _ => None,
    }
}

/// What an answer with candles brings.
#[derive(Debug, Clone)]
pub enum Batch {
    /// The answer is no list of lists.
    Unreadable,
    /// There are no candles left.
    Finished,
    /// No entry of the answer holds a candle.
    Unusable,
    /// Candles to store.
    Candles { candles: Vec<Candle> },
}

/// Whether a batch is what a list of entries brings.
pub open spec fn is_batch(batch: Batch, entries: Option<Seq<Seq<Json>>>) -> bool {
    match entries {
        None => batch is Unreadable,
        Some(list) => if list.len() == 0 {
            batch is Finished
        } else if candles_in(list, list.len()).len() == 0 {
            batch is Unusable
        } else {
            batch matches Batch::Candles { candles } && candles@ == candles_in(list, list.len())
        },
    }
}

fn amount_of(v: &serde_json::Value) -> (r: Double)
    ensures
        r == amount(json::json_tree(*v)),
{
    match as_text(v) {
        Some(s) => parse_double_or(s, Double { bits: 0 }),
        None => Double { bits: 0 },
    }
}

fn moment_of(v: &serde_json::Value) -> (r: i64)
    ensures
        r == moment(json::json_tree(*v)),
{
    match as_integer(v) {
        Some(t) => t,
        None => 0,
    }
}

spec fn trees(list: Seq<serde_json::Value>) -> Seq<Json> {
    list.map_values(|x: serde_json::Value| json::json_tree(x))
}

/// Reads an answer with candles.
pub fn read_batch(document: &serde_json::Value) -> (r: Batch)
    ensures
        is_batch(r, entries_in(json::json_tree(*document))),
{
    let list = match elements(document) {
        Some(list) => list,
        None => {
            return Batch::Unreadable;
        },
    };
    let ghost all = trees(list@);
    let ghost entries = all.map_values(|v: Json| v->List_0);
    let mut candles: Vec<Candle> = Vec::new();
    let mut i: usize = 0;
    while i < list.len()
        invariant
            i <= list@.len(),
            all == trees(list@),
            json::json_tree(*document) == Json::List(all),
            entries == all.map_values(|v: Json| v->List_0),
            forall|k: int| 0 <= k < i ==> #[trigger] all[k] is List,
            candles@ == candles_in(entries, i as nat),
        decreases list@.len() - i,
    {
        assert(all[i as int] == json::json_tree(list@[i as int]));
        let fields = match elements(&list[i]) {
            Some(fields) => fields,
            None => {
                return Batch::Unreadable;
            },
        };
        assert(entries[i as int] == trees(fields@));
        if fields.len() >= 7 {
            candles.push(
                Candle {
                    open_time: moment_of(&fields[0]),
                    open: amount_of(&fields[1]),
                    high: amount_of(&fields[2]),
                    low: amount_of(&fields[3]),
                    close: amount_of(&fields[4]),
                    volume: amount_of(&fields[5]),
                    close_time: moment_of(&fields[6]),
                },
            );
            assert(candles@.last() == candle_in(entries[i as int]));
        }
        i = i + 1;
    }
    assert(entries_in(json::json_tree(*document)) == Some(entries));
    if list.len() == 0 {
        Batch::Finished
    } else if candles.len() == 0 {
        Batch::Unusable
    } else {
        Batch::Candles { candles }
    }
}

/// Reads the text of an answer with candles.
pub fn read_klines(text: &str) -> (r: Batch)
    ensures
        is_batch(
            r,
            match json::json_of_text(text@) {
                Some(document) => entries_in(document),
                None => None,
            },
        ),
{
    match parse_json(text) {
        Ok(document) => read_batch(&document),
        Err(_) => Batch::Unreadable,
    }
}

/// The moment from which the download goes on behind stored candles.
pub fn next_start(candles: &Vec<Candle>) -> (r: i64)
    requires
        candles@.len() > 0,
        candles@.last().open_time < i64::MAX,
    ensures
        r == resume_time(Some(candles@.last().open_time)),
{
    candles[candles.len() - 1].open_time + 1
}

/// The query for stored candles, oldest first, with or without a limit.
pub fn candles_query(limit: Option<usize>) -> (r: String)
    ensures
        r@ == "SELECT open_time, open, high, low, close, volume, close_time FROM candles WHERE timeframe = ?1 ORDER BY open_time ASC"@
            + (match limit {
            Some(n) => " LIMIT "@ + decimal::numeral(n as nat),
            None => Seq::empty(),
        }),
{
    let mut query =
        "SELECT open_time, open, high, low, close, volume, close_time FROM candles WHERE timeframe = ?1 ORDER BY open_time ASC".to_owned();
    match limit {
        Some(n) => {
            let mut clause = " LIMIT ".to_owned();
            let count = numeral_text(n as u128);
            clause.append(count.as_str());
            query.append(clause.as_str());
        },
        None => {},
    }
    query
}

/// The query for the latest stored candles, newest first.
pub fn latest_query(limit: usize) -> (r: String)
    ensures
        r@ == "SELECT open_time, open, high, low, close, volume, close_time FROM candles WHERE timeframe = ?1 ORDER BY open_time DESC LIMIT "@
            + decimal::numeral(limit as nat),
{
    let mut query =
        "SELECT open_time, open, high, low, close, volume, close_time FROM candles WHERE timeframe = ?1 ORDER BY open_time DESC LIMIT ".to_owned();
    let count = numeral_text(limit as u128);
    query.append(count.as_str());
    query
}

/// Candles in the opposite order: from newest first to oldest first.
pub fn oldest_first(candles: &Vec<Candle>) -> (r: Vec<Candle>)
    ensures
        r@ == candles@.reverse(),
{
    let mut out: Vec<Candle> = Vec::new();
    let mut i: usize = candles.len();
    while i > 0
        invariant
            i <= candles@.len(),
            out@ =~= candles@.reverse().take(candles@.len() - i),
        decreases i,
    {
        i = i - 1;
        out.push(candles[i]);
        assert(candles@.reverse()[candles@.len() - i - 1] == candles@[i as int]);
        assert(candles@.reverse().take(candles@.len() - i) =~= candles@.reverse().take(
            candles@.len() - i - 1,
        ).push(candles@[i as int]));
    }
    assert(candles@.reverse().take(candles@.len() as int) =~= candles@.reverse());
    out
}

/// The address and the token of the model server where none are stored.
pub fn default_llm_config() -> (r: (String, String))
    ensures
        r.0@ == "http://127.0.0.1:5508/v1/chat/completions"@,
        r.1@ == "lm-studio"@,
{
    ("http://127.0.0.1:5508/v1/chat/completions".to_owned(), "lm-studio".to_owned())
}

/// Whether a stored flag means the demonstration network.
pub fn is_testnet(flag: i32) -> (r: bool)
    ensures
        r == (flag == 1),
{
    flag == 1
}

/// The flag that is stored for the network.
pub fn testnet_flag(use_testnet: bool) -> (r: i32)
    ensures
        r == (if use_testnet {
            1i32
        } else {
            0i32
        }),
        (r == 1) == use_testnet,
{
    if use_testnet {
        1
    } else {
        0
    }
}

/// Turning the order of candles around twice gives the first order back.
pub proof fn turning_around_twice(candles: Seq<Candle>)
    ensures
        candles.reverse().reverse() == candles,
{
    assert(candles.reverse().reverse() =~= candles);
}

/// No more candles are read than there are entries, and one from each entry where all have seven
/// fields.
pub proof fn candles_come_from_entries(entries: Seq<Seq<Json>>, n: nat)
    requires
        n <= entries.len(),
    ensures
        candles_in(entries, n).len() <= n,
        (forall|i: int| 0 <= i < n ==> (#[trigger] entries[i]).len() >= 7) ==> candles_in(
            entries,
            n,
        ) == Seq::new(n, |i: int| candle_in(entries[i])),
    decreases n,
{
    if n > 0 {
        candles_come_from_entries(entries, (n - 1) as nat);
        if forall|i: int| 0 <= i < n ==> (#[trigger] entries[i]).len() >= 7 {
            assert(entries[n - 1].len() >= 7);
            assert(candles_in(entries, n) =~= Seq::new(n, |i: int| candle_in(entries[i])));
        }
    } else {
        assert(candles_in(entries, 0) =~= Seq::new(0, |i: int| candle_in(entries[i])));
    }
}

} // verus!
