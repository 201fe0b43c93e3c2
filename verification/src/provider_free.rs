//! The free multi-currency provider: registered last, it exists only to fill
//! historical gaps for a narrow allow-list of minor currencies.
//!
//! Its current-rate and symbol answers are intentionally empty. History is
//! served one day at a time: the range is expanded into single days, the
//! connector outside the library fetches each day's answer, and the
//! functions here keep only the allowed minor currencies and pair the days
//! with their answers into a series.

use crate::date::Date;
use crate::model::ExchangeRate;
use crate::model::RateEntry;
use crate::model::RateView;
use crate::model::rate_map_of;
use crate::series::RateSeries;
use crate::symbols::SymbolTable;
use vstd::prelude::*;
use vstd::string::*;

verus! {

/// The upstream quotes every currency in lower case; only these two minor
/// currencies are kept, under their upper-case codes.
pub open spec fn allowed_minor_rates(m: Map<Seq<char>, u32>) -> Map<Seq<char>, u32> {
    Map::new(
        |k: Seq<char>|
            (k == "KES"@ && m.contains_key("kes"@)) || (k == "BDT"@ && m.contains_key("bdt"@)),
        |k: Seq<char>|
            if k == "KES"@ {
                m["kes"@]
            } else {
                m["bdt"@]
            },
    )
}

/// The series meant by pairing each day with its fetched answer, in order.
pub open spec fn daily_series_of(days: Seq<Date>, rates: Seq<ExchangeRate>) -> Map<Date, RateView>
    decreases days.len(),
{
    if days.len() == 0 {
        Map::empty()
    } else {
        daily_series_of(days.drop_last(), rates.drop_last()).insert(days.last(), rates.last()@)
    }
}

/// Law: the reconstructed series covers exactly the fetched days. With the
/// date range's own laws, a series built over an inclusive range holds one
/// key per day of the range and no others.
pub proof fn lemma_daily_series_dom(days: Seq<Date>, rates: Seq<ExchangeRate>)
    requires
        days.len() == rates.len(),
    ensures
        forall|d: Date| #[trigger]
            daily_series_of(days, rates).contains_key(d) <==> days.contains(d),
    decreases days.len(),
{
    broadcast use vstd::set::group_set_axioms;
    broadcast use vstd::map::group_map_axioms;

    if days.len() > 0 {
        lemma_daily_series_dom(days.drop_last(), rates.drop_last());
        assert forall|d: Date| #[trigger]
            daily_series_of(days, rates).contains_key(d) <==> days.contains(d) by {
            if d == days.last() {
                assert(days[days.len() - 1] == d);
                assert(days.contains(d));
            } else {
                let m = daily_series_of(days.drop_last(), rates.drop_last());
                assert(daily_series_of(days, rates) == m.insert(days.last(), rates.last()@));
                if daily_series_of(days, rates).contains_key(d) {
                    assert(m.contains_key(d));
                    assert(days.drop_last().contains(d));
                    let i = choose|i: int|
                        0 <= i < days.drop_last().len() && days.drop_last()[i] == d;
                    assert(days[i] == d);
                    assert(days.contains(d));
                }
                if days.contains(d) {
                    let i = choose|i: int| 0 <= i < days.len() && days[i] == d;
                    assert(i < days.len() - 1);
                    assert(days.drop_last()[i] == d);
                    assert(days.drop_last().contains(d));
                    assert(m.contains_key(d));
                    assert(daily_series_of(days, rates).contains_key(d));
                }
            }
        }
    }
}

/// The free multi-currency provider.
#[derive(Debug)]
pub struct FreeRateProvider;

impl FreeRateProvider {
    pub fn new() -> (r: Self) {
        FreeRateProvider
    }

    pub fn provider_name(&self) -> (r: &'static str)
        ensures
            r@ == "Free Exchange API"@,
    {
        "Free Exchange API"
    }

    /// Current rates are intentionally not served: an empty answer for any
    /// base, so this provider never outranks the others on latest rates.
    pub fn latest(&self, base: &str) -> (r: ExchangeRate)
        ensures
            r.wf(),
            r@.base == base@,
            r@.rates == Map::<Seq<char>, u32>::empty(),
    {
        ExchangeRate::empty(base)
    }

    /// No symbol metadata either: an empty catalogue.
    pub fn symbols(&self) -> (r: SymbolTable)
        ensures
            r@ == Map::<Seq<char>, Seq<char>>::empty(),
            r.wf(),
    {
        SymbolTable::empty()
    }

    /// Keep only the allowed minor currencies of one day's decoded answer,
    /// under their upper-case codes.
    pub fn rates_from_entries(base: &str, entries: &Vec<RateEntry>) -> (r: ExchangeRate)
        ensures
            r.wf(),
            r@.base == base@,
            r@.rates == allowed_minor_rates(rate_map_of(entries@)),
    {
        let table = table_of_entries(base, entries);
        let mut out = ExchangeRate::empty(base);
        proof {
            reveal_strlit("KES");
            reveal_strlit("kes");
            reveal_strlit("BDT");
            reveal_strlit("bdt");
        }
        match table.get("kes") {
            Some(v) => {
                out.insert(String::from_str("KES"), v);
            },
            None => {},
        }
        match table.get("bdt") {
            Some(v) => {
                out.insert(String::from_str("BDT"), v);
            },
            None => {},
        }
        proof {
            broadcast use vstd::string::group_string_axioms;

            reveal_strlit("KES");
            reveal_strlit("kes");
            reveal_strlit("BDT");
            reveal_strlit("bdt");
            assert("KES"@[0] == 'K' && "kes"@[0] == 'k' && "BDT"@[0] == 'B' && "bdt"@[0] == 'b');
            assert("KES"@ != "BDT"@);
            assert("KES"@ != "kes"@);
            assert("KES"@ != "bdt"@);
            assert("BDT"@ != "kes"@);
            assert("BDT"@ != "bdt"@);
            assert(out@.rates =~= allowed_minor_rates(rate_map_of(entries@)));
        }
        out
    }

    /// Pair each fetched day with its answer, in order, into a series.
    pub fn series_from_daily(days: &Vec<Date>, rates: Vec<ExchangeRate>) -> (r: RateSeries)
        requires
            days@.len() == rates@.len(),
            forall|i: int| 0 <= i < rates@.len() ==> (#[trigger] rates@[i]).wf(),
        ensures
            r.wf(),
            r@ == daily_series_of(days@, rates@),
    {
        let ghost all = rates@;
        let mut rest = rates;
        let mut acc = RateSeries::empty();
        let ghost mut i: int = 0;
        proof {
            assert(rest@ =~= all.skip(0));
            assert(days@.take(0) =~= Seq::<Date>::empty());
            assert(daily_series_of(days@.take(0), all.take(0)) =~= Map::<Date, RateView>::empty());
        }
        while rest.len() > 0
            invariant
                0 <= i <= all.len(),
                all.len() == days@.len(),
                rest@ == all.skip(i),
                forall|j: int| 0 <= j < all.len() ==> (#[trigger] all[j]).wf(),
                acc.wf(),
                acc@ == daily_series_of(days@.take(i), all.take(i)),
            decreases rest@.len(),
        {
            let idx = days.len() - rest.len();
            let rate = rest.remove(0);
            proof {
                assert(all.skip(i)[0] == all[i]);
                assert(rest@ =~= all.skip(i + 1));
            }
            let day = days[idx];
            proof {
                assert(day == days@[i]);
                assert(days@.take(i + 1).drop_last() =~= days@.take(i));
                assert(all.take(i + 1).drop_last() =~= all.take(i));
                assert(days@.take(i + 1).last() == days@[i]);
                assert(all.take(i + 1).last() == all[i]);
            }
            acc.insert(day, rate);
            proof {
                i = i + 1;
            }
        }
        proof {
            assert(all.skip(i).len() == 0);
            assert(i == all.len());
            assert(days@.take(i) =~= days@);
            assert(all.take(i) =~= all);
        }
        acc
    }
}

/// Index one day's decoded entries as a rate table.
fn table_of_entries(base: &str, entries: &Vec<RateEntry>) -> (r: ExchangeRate)
    ensures
        r.wf(),
        r@.rates == rate_map_of(entries@),
{
    let mut out = ExchangeRate::empty(base);
    let n = entries.len();
    let mut i: usize = 0;
    proof {
        assert(entries@.take(0) =~= Seq::<RateEntry>::empty());
    }
    while i < n
        invariant
            i <= n,
            n == entries@.len(),
            out.wf(),
            out@.rates == rate_map_of(entries@.take(i as int)),
        decreases n - i,
    {
        let e = &entries[i];
        out.insert(e.code.clone(), e.value);
        proof {
            assert(entries@.take(i + 1).drop_last() =~= entries@.take(i as int));
            assert(entries@.take(i + 1).last() == entries@[i as int]);
        }
        i = i + 1;
    }
    proof {
        assert(entries@.take(n as int) =~= entries@);
    }
    out
}

} // verus!
