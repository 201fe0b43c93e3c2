//! The floating-market rate provider: broad currency coverage, registered
//! after the central bank and therefore outranked by it.
//!
//! The upstream answers with entries carrying a currency code, a display
//! name and a rate. The connector that performs the HTTP fetch and the JSON
//! decoding lives outside the library and hands the decoded entries in; the
//! functions here normalise them into the engine's shapes. This provider
//! keeps no history: its historical answer is always empty.

use crate::date::Date;
use crate::model::ExchangeRate;
use crate::model::RateView;
use crate::series::RateSeries;
use crate::symbols::SymbolTable;
use vstd::prelude::*;

verus! {

/// One decoded upstream entry.
#[derive(Debug)]
pub struct FloatRateEntry {
    pub code: String,
    pub name: String,
    pub rate: u32,
}

/// The rate map meant by the entries: inserted in order, later wins.
pub open spec fn float_rate_map_of(entries: Seq<FloatRateEntry>) -> Map<Seq<char>, u32>
    decreases entries.len(),
{
    if entries.len() == 0 {
        Map::empty()
    } else {
        float_rate_map_of(entries.drop_last()).insert(
            entries.last().code@,
            entries.last().rate,
        )
    }
}

/// The name map meant by the entries: inserted in order, later wins.
pub open spec fn float_name_map_of(entries: Seq<FloatRateEntry>) -> Map<Seq<char>, Seq<char>>
    decreases entries.len(),
{
    if entries.len() == 0 {
        Map::empty()
    } else {
        float_name_map_of(entries.drop_last()).insert(
            entries.last().code@,
            entries.last().name@,
        )
    }
}

/// The floating-market provider.
#[derive(Debug)]
pub struct FloatRateProvider;

impl FloatRateProvider {
    pub fn new() -> (r: Self) {
        FloatRateProvider
    }

    pub fn provider_name(&self) -> (r: &'static str)
        ensures
            r@ == "floatrates.com"@,
    {
        "floatrates.com"
    }

    /// Normalise the decoded upstream entries into current rates for `base`.
    pub fn latest_from_entries(base: &str, entries: &Vec<FloatRateEntry>) -> (r: ExchangeRate)
        ensures
            r.wf(),
            r@.base == base@,
            r@.rates == float_rate_map_of(entries@),
    {
        let mut out = ExchangeRate::empty(base);
        let n = entries.len();
        let mut i: usize = 0;
        proof {
            assert(entries@.take(0) =~= Seq::<FloatRateEntry>::empty());
        }
        while i < n
            invariant
                i <= n,
                n == entries@.len(),
                out.wf(),
                out@.base == base@,
                out@.rates == float_rate_map_of(entries@.take(i as int)),
            decreases n - i,
        {
            let e = &entries[i];
            out.insert(e.code.clone(), e.rate);
            proof {
                assert(entries@.take(i + 1).drop_last() =~= entries@.take(i as int));
                assert(entries@.take(i + 1).last() == entries@[i as int]);
            }
            i = i + 1;
        }
        proof {
            assert(entries@.take(n as int) =~= entries@);
        }
        out
    }

    /// Normalise the decoded upstream entries into a symbol catalogue.
    pub fn symbols_from_entries(entries: &Vec<FloatRateEntry>) -> (r: SymbolTable)
        ensures
            r.wf(),
            r@ == float_name_map_of(entries@),
    {
        let mut out = SymbolTable::empty();
        let n = entries.len();
        let mut i: usize = 0;
        proof {
            assert(entries@.take(0) =~= Seq::<FloatRateEntry>::empty());
        }
        while i < n
            invariant
                i <= n,
                n == entries@.len(),
                out.wf(),
                out@ == float_name_map_of(entries@.take(i as int)),
            decreases n - i,
        {
            let e = &entries[i];
            out.insert(e.code.clone(), e.name.clone());
            proof {
                assert(entries@.take(i + 1).drop_last() =~= entries@.take(i as int));
                assert(entries@.take(i + 1).last() == entries@[i as int]);
            }
            i = i + 1;
        }
        proof {
            assert(entries@.take(n as int) =~= entries@);
        }
        out
    }

    /// This provider keeps no history: the answer is empty for any range.
    pub fn historical(&self, _base: &str, _from: Date, _to: Date) -> (r: RateSeries)
        ensures
            r@ == Map::<Date, RateView>::empty(),
            r.wf(),
    {
        RateSeries::empty()
    }
}

} // verus!
