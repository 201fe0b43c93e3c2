//! The central-bank-backed rate provider: authoritative for the major
//! currencies and registered first, so it wins every merge collision.
//!
//! Its historical answer arrives as rows pairing an ISO-8601 date text with
//! that day's rates. The connector that performs the HTTP fetch and the JSON
//! decoding lives outside the library and hands the decoded rows in;
//! `historical_from_rows` checks the dates and indexes the rows by calendar
//! day. A row whose date is not a calendar day makes the whole answer a
//! malformed payload, refused as such.

use crate::date::Date;
use crate::date::iso_date_of;
use crate::date::parse_iso_date;
use crate::model::ExchangeRate;
use crate::model::RateEntry;
use crate::model::RateView;
use crate::model::rate_map_of;
use crate::series::RateSeries;
use vstd::prelude::*;

verus! {

/// One decoded historical row: a date text and that day's rates.
#[derive(Debug)]
pub struct EcbRow {
    pub date: String,
    pub rates: Vec<RateEntry>,
}

/// The series meant by the rows, or nothing if any date text is malformed.
pub open spec fn ecb_series_of(base: Seq<char>, rows: Seq<EcbRow>) -> Option<Map<Date, RateView>>
    decreases rows.len(),
{
    if rows.len() == 0 {
        Some(Map::empty())
    } else {
        match (ecb_series_of(base, rows.drop_last()), iso_date_of(rows.last().date@)) {
            (Some(m), Some(d)) => Some(
                m.insert(d, RateView { base, rates: rate_map_of(rows.last().rates@) }),
            ),
            _ => None,
        }
    }
}

/// A malformed row anywhere spoils the whole answer.
proof fn lemma_ecb_none_propagates(base: Seq<char>, rows: Seq<EcbRow>, i: int)
    requires
        0 <= i <= rows.len(),
        ecb_series_of(base, rows.take(i)) is None,
    ensures
        ecb_series_of(base, rows) is None,
    decreases rows.len(),
{
    if i < rows.len() {
        assert(rows.drop_last().take(i) =~= rows.take(i));
        lemma_ecb_none_propagates(base, rows.drop_last(), i);
    } else {
        assert(rows.take(i) =~= rows);
    }
}

/// The central-bank provider.
#[derive(Debug)]
pub struct EcbRateProvider;

impl EcbRateProvider {
    pub fn new() -> (r: Self) {
        EcbRateProvider
    }

    pub fn provider_name(&self) -> (r: &'static str)
        ensures
            r@ == "European Central Bank"@,
    {
        "European Central Bank"
    }

    /// Index the decoded historical rows by calendar day. `None` exactly
    /// when some row's date text is not an ISO-8601 calendar day.
    pub fn historical_from_rows(base: &str, rows: &Vec<EcbRow>) -> (r: Option<RateSeries>)
        ensures
            match r {
                Some(s) => s.wf() && ecb_series_of(base@, rows@) == Some(s@),
                None => ecb_series_of(base@, rows@) is None,
            },
    {
        let mut acc = RateSeries::empty();
        let n = rows.len();
        let mut i: usize = 0;
        proof {
            assert(rows@.take(0) =~= Seq::<EcbRow>::empty());
        }
        while i < n
            invariant
                i <= n,
                n == rows@.len(),
                acc.wf(),
                ecb_series_of(base@, rows@.take(i as int)) == Some(acc@),
            decreases n - i,
        {
            let row = &rows[i];
            proof {
                assert(rows@.take(i + 1).drop_last() =~= rows@.take(i as int));
                assert(rows@.take(i + 1).last() == rows@[i as int]);
            }
            let date = match parse_iso_date(row.date.as_str()) {
                Some(d) => d,
                None => {
                    proof {
                        lemma_ecb_none_propagates(base@, rows@, i + 1);
                    }
                    return None;
                },
            };
            let day_rates = day_rates_of(base, &row.rates);
            acc.insert(date, day_rates);
            i = i + 1;
        }
        proof {
            assert(rows@.take(n as int) =~= rows@);
        }
        Some(acc)
    }
}

/// Build one day's snapshot from its decoded rate entries.
fn day_rates_of(base: &str, entries: &Vec<RateEntry>) -> (r: ExchangeRate)
    ensures
        r.wf(),
        r@ == (RateView { base: base@, rates: rate_map_of(entries@) }),
{
    let mut out = ExchangeRate::empty(base);
    let n = entries.len();
    let mut i: usize = 0;
    proof {
        assert(entries@.take(0) =~= Seq::<RateEntry>::empty());
    }
    while i < n
        invariant
            i <= n,
            n == entries@.len(),
            out.wf(),
            out@.base == base@,
            out@.rates == rate_map_of(entries@.take(i as int)),
        decreases n - i,
    {
        let e = &entries[i];
        out.insert(e.code.clone(), e.value);
        proof {
            assert(entries@.take(i + 1).drop_last() =~= entries@.take(i as int));
            assert(entries@.take(i + 1).last() == entries@[i as int]);
        }
        i = i + 1;
    }
    proof {
        assert(entries@.take(n as int) =~= entries@);
    }
    out
}

} // verus!
