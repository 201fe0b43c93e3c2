//! The aggregation engine: fold provider answers into one view.
//!
//! Providers are consulted in registration order. For rates, the running
//! result is chained on top of each new answer, so the first-registered
//! provider wins every collision. For symbol catalogues the convention is the
//! opposite: catalogues are unioned by plain overwrite, so the last-registered
//! provider's name stands. Both precedences are intentional and kept exactly.

use crate::date::Date;
use crate::model::ExchangeRate;
use crate::model::RateView;
use crate::series::RateSeries;
use crate::series::SeriesEntry;
use crate::series::distinct_dates;
use crate::series::lemma_series_map_dom;
use crate::series::series_map_of;
use crate::series::snapshots_wf;
use crate::symbols::SymbolEntry;
use crate::symbols::SymbolTable;
use crate::symbols::symbol_map_of;
use vstd::prelude::*;

verus! {

/// The rate maps of a sequence of provider answers.
pub open spec fn rate_maps_of(results: Seq<ExchangeRate>) -> Seq<Map<Seq<char>, u32>> {
    results.map_values(|e: ExchangeRate| e@.rates)
}

/// The merged rate map of provider answers in registration order: the
/// earliest answer wins every collision.
pub open spec fn merged_rates(provs: Seq<Map<Seq<char>, u32>>) -> Map<Seq<char>, u32>
    decreases provs.len(),
{
    if provs.len() == 0 {
        Map::empty()
    } else {
        provs.last().union_prefer_right(merged_rates(provs.drop_last()))
    }
}

/// Law: aggregating over no providers leaves no rates.
pub proof fn lemma_merged_rates_empty()
    ensures
        merged_rates(Seq::<Map<Seq<char>, u32>>::empty()) == Map::<Seq<char>, u32>::empty(),
{
}

/// Law: when several providers quote the same code, the first-registered
/// provider's value stands in the merge, never a later one's.
pub proof fn lemma_first_provider_wins(provs: Seq<Map<Seq<char>, u32>>, k: Seq<char>)
    requires
        provs.len() > 0,
        provs[0].contains_key(k),
    ensures
        merged_rates(provs).contains_key(k),
        merged_rates(provs)[k] == provs[0][k],
    decreases provs.len(),
{
    broadcast use vstd::set::group_set_axioms;
    broadcast use vstd::map::group_map_axioms;

    if provs.len() == 1 {
        assert(merged_rates(provs.drop_last()) == Map::<Seq<char>, u32>::empty());
        assert(!Map::<Seq<char>, u32>::empty().contains_key(k));
        assert(provs.last().union_prefer_right(Map::<Seq<char>, u32>::empty())[k]
            == provs.last()[k]);
    } else {
        let prefix = provs.drop_last();
        assert(prefix[0] == provs[0]);
        lemma_first_provider_wins(prefix, k);
        assert(provs.last().union_prefer_right(merged_rates(prefix))[k]
            == merged_rates(prefix)[k]);
    }
}

/// Law: every code quoted by any provider reaches the merged rates.
pub proof fn lemma_merged_rates_complete(provs: Seq<Map<Seq<char>, u32>>, i: int, k: Seq<char>)
    requires
        0 <= i < provs.len(),
        provs[i].contains_key(k),
    ensures
        merged_rates(provs).contains_key(k),
    decreases provs.len(),
{
    if i < provs.len() - 1 {
        let prefix = provs.drop_last();
        assert(prefix[i] == provs[i]);
        lemma_merged_rates_complete(prefix, i, k);
    }
}

/// Aggregate the providers' current-rate answers for one base currency.
/// Registration order is priority order: each answer is merged under the
/// running result, so earlier providers override later ones.
pub fn rates_of_with(base: &str, results: &Vec<ExchangeRate>) -> (r: ExchangeRate)
    requires
        forall|i: int| 0 <= i < results@.len() ==> (#[trigger] results@[i]).wf(),
    ensures
        r.wf(),
        r@.base == base@,
        r@.rates == merged_rates(rate_maps_of(results@)),
{
    let mut acc = ExchangeRate::empty(base);
    let n = results.len();
    let mut i: usize = 0;
    proof {
        assert(rate_maps_of(results@.take(0)) =~= Seq::<Map<Seq<char>, u32>>::empty());
    }
    while i < n
        invariant
            i <= n,
            n == results@.len(),
            forall|j: int| 0 <= j < results@.len() ==> (#[trigger] results@[j]).wf(),
            acc.wf(),
            acc@.base == base@,
            acc@.rates == merged_rates(rate_maps_of(results@.take(i as int))),
        decreases n - i,
    {
        acc = results[i].chain(acc);
        proof {
            let ms = rate_maps_of(results@.take(i + 1));
            assert(ms.drop_last() =~= rate_maps_of(results@.take(i as int)));
            assert(ms.last() == results@[i as int]@.rates);
        }
        i = i + 1;
    }
    proof {
        assert(results@.take(n as int) =~= results@);
    }
    acc
}

/// The symbol maps of a sequence of provider catalogues.
pub open spec fn symbol_maps_of(tables: Seq<SymbolTable>) -> Seq<Map<Seq<char>, Seq<char>>> {
    tables.map_values(|t: SymbolTable| t@)
}

/// The merged catalogue of providers in registration order: the last
/// provider to name a code wins.
pub open spec fn merged_symbols(cats: Seq<Map<Seq<char>, Seq<char>>>) -> Map<Seq<char>, Seq<char>>
    decreases cats.len(),
{
    if cats.len() == 0 {
        Map::empty()
    } else {
        merged_symbols(cats.drop_last()).union_prefer_right(cats.last())
    }
}

/// Law: every code catalogued by any provider reaches the union.
pub proof fn lemma_symbols_union_complete(
    cats: Seq<Map<Seq<char>, Seq<char>>>,
    i: int,
    k: Seq<char>,
)
    requires
        0 <= i < cats.len(),
        cats[i].contains_key(k),
    ensures
        merged_symbols(cats).contains_key(k),
    decreases cats.len(),
{
    if i < cats.len() - 1 {
        let prefix = cats.drop_last();
        assert(prefix[i] == cats[i]);
        lemma_symbols_union_complete(prefix, i, k);
    }
}

/// Law: on a collision the catalogue keeps the name from the last-registered
/// provider that has the code — the opposite precedence from rate merging.
pub proof fn lemma_symbols_last_wins(cats: Seq<Map<Seq<char>, Seq<char>>>, i: int, k: Seq<char>)
    requires
        0 <= i < cats.len(),
        cats[i].contains_key(k),
        forall|j: int| i < j < cats.len() ==> !(#[trigger] cats[j]).contains_key(k),
    ensures
        merged_symbols(cats).contains_key(k),
        merged_symbols(cats)[k] == cats[i][k],
    decreases cats.len(),
{
    if i < cats.len() - 1 {
        let prefix = cats.drop_last();
        assert(prefix[i] == cats[i]);
        assert forall|j: int| i < j < prefix.len() implies !(#[trigger] prefix[j]).contains_key(
            k,
        ) by {
            assert(prefix[j] == cats[j]);
        }
        lemma_symbols_last_wins(prefix, i, k);
        assert(!cats[cats.len() - 1].contains_key(k));
    }
}

/// The catalogue after inserting a run of entries in order.
pub open spec fn inserted_symbols(
    m: Map<Seq<char>, Seq<char>>,
    entries: Seq<SymbolEntry>,
) -> Map<Seq<char>, Seq<char>>
    decreases entries.len(),
{
    if entries.len() == 0 {
        m
    } else {
        inserted_symbols(m, entries.drop_last()).insert(
            entries.last().code@,
            entries.last().name@,
        )
    }
}

/// Inserting a run of entries overlays their catalogue onto the base map.
proof fn lemma_inserted_symbols_union(m: Map<Seq<char>, Seq<char>>, entries: Seq<SymbolEntry>)
    ensures
        inserted_symbols(m, entries) == m.union_prefer_right(symbol_map_of(entries)),
    decreases entries.len(),
{
    if entries.len() == 0 {
        assert(inserted_symbols(m, entries) =~= m.union_prefer_right(symbol_map_of(entries)));
    } else {
        lemma_inserted_symbols_union(m, entries.drop_last());
        assert(inserted_symbols(m, entries) =~= m.union_prefer_right(symbol_map_of(entries)));
    }
}

/// Union the providers' symbol catalogues in registration order; on a shared
/// code the later catalogue overwrites the earlier one.
pub fn symbols_with(tables: &Vec<SymbolTable>) -> (r: SymbolTable)
    ensures
        r.wf(),
        r@ == merged_symbols(symbol_maps_of(tables@)),
{
    let mut acc = SymbolTable::empty();
    let n = tables.len();
    let mut i: usize = 0;
    proof {
        assert(symbol_maps_of(tables@.take(0)) =~= Seq::<Map<Seq<char>, Seq<char>>>::empty());
    }
    while i < n
        invariant
            i <= n,
            n == tables@.len(),
            acc.wf(),
            acc@ == merged_symbols(symbol_maps_of(tables@.take(i as int))),
        decreases n - i,
    {
        let m = tables[i].entries.len();
        let mut j: usize = 0;
        while j < m
            invariant
                j <= m,
                i < n,
                n == tables@.len(),
                m == tables@[i as int].entries@.len(),
                acc.wf(),
                acc@ == inserted_symbols(
                    merged_symbols(symbol_maps_of(tables@.take(i as int))),
                    tables@[i as int].entries@.take(j as int),
                ),
            decreases m - j,
        {
            let e = &tables[i].entries[j];
            acc.insert(e.code.clone(), e.name.clone());
            proof {
                let entries = tables@[i as int].entries@;
                assert(entries.take(j + 1).drop_last() =~= entries.take(j as int));
                assert(entries.take(j + 1).last() == entries[j as int]);
            }
            j = j + 1;
        }
        proof {
            let entries = tables@[i as int].entries@;
            assert(entries.take(m as int) =~= entries);
            lemma_inserted_symbols_union(
                merged_symbols(symbol_maps_of(tables@.take(i as int))),
                entries,
            );
            let cs = symbol_maps_of(tables@.take(i + 1));
            assert(cs.drop_last() =~= symbol_maps_of(tables@.take(i as int)));
            assert(cs.last() == tables@[i as int]@);
        }
        i = i + 1;
    }
    proof {
        assert(tables@.take(n as int) =~= tables@);
    }
    acc
}

/// The series maps of a sequence of provider series.
pub open spec fn series_maps_of(series: Seq<RateSeries>) -> Seq<Map<Date, RateView>> {
    series.map_values(|s: RateSeries| s@)
}

/// A provider's snapshot merged into the accumulated one for the same day:
/// rates accumulated from earlier providers win, and the base stays the
/// accumulated one.
pub open spec fn combine_snapshots(incoming: RateView, prior: RateView) -> RateView {
    RateView { base: prior.base, rates: incoming.rates.union_prefer_right(prior.rates) }
}

/// A whole provider series merged into the accumulated series, day by day.
pub open spec fn merge_day(acc: Map<Date, RateView>, m: Map<Date, RateView>) -> Map<
    Date,
    RateView,
> {
    Map::new(
        |d: Date| acc.contains_key(d) || m.contains_key(d),
        |d: Date|
            if acc.contains_key(d) && m.contains_key(d) {
                combine_snapshots(m[d], acc[d])
            } else if acc.contains_key(d) {
                acc[d]
            } else {
                m[d]
            },
    )
}

/// The merged historical series of providers in registration order: every
/// date present anywhere is present, and on each date earlier providers win.
pub open spec fn merged_series(provs: Seq<Map<Date, RateView>>) -> Map<Date, RateView>
    decreases provs.len(),
{
    if provs.len() == 0 {
        Map::empty()
    } else {
        merge_day(merged_series(provs.drop_last()), provs.last())
    }
}

/// One entry merged into the accumulated series.
pub open spec fn merge_entry(acc: Map<Date, RateView>, d: Date, rv: RateView) -> Map<
    Date,
    RateView,
> {
    if acc.contains_key(d) {
        acc.insert(d, combine_snapshots(rv, acc[d]))
    } else {
        acc.insert(d, rv)
    }
}

/// A run of entries merged into the accumulated series, in order.
pub open spec fn merge_entries(acc: Map<Date, RateView>, entries: Seq<SeriesEntry>) -> Map<
    Date,
    RateView,
>
    decreases entries.len(),
{
    if entries.len() == 0 {
        acc
    } else {
        merge_entry(
            merge_entries(acc, entries.drop_last()),
            entries.last().date,
            entries.last().rate@,
        )
    }
}

/// Merging a provider's series entry by entry is its day-by-day merge, as
/// long as the provider lists each date once.
proof fn lemma_merge_entries_day(acc: Map<Date, RateView>, entries: Seq<SeriesEntry>)
    requires
        distinct_dates(entries),
    ensures
        merge_entries(acc, entries) == merge_day(acc, series_map_of(entries)),
    decreases entries.len(),
{
    broadcast use vstd::set::group_set_axioms;
    broadcast use vstd::map::group_map_axioms;

    if entries.len() == 0 {
        assert(merge_day(acc, series_map_of(entries)) =~= acc);
    } else {
        let prefix = entries.drop_last();
        assert forall|p: int, q: int|
            0 <= p < q < prefix.len() implies prefix[p].date != prefix[q].date by {
            assert(prefix[p] == entries[p]);
            assert(prefix[q] == entries[q]);
        }
        lemma_merge_entries_day(acc, prefix);
        let d = entries.last().date;
        let rv = entries.last().rate@;
        let mp = series_map_of(prefix);
        assert(!mp.contains_key(d)) by {
            lemma_series_map_dom(prefix, d);
            if exists|j: int| 0 <= j < prefix.len() && prefix[j].date == d {
                let j = choose|j: int| 0 <= j < prefix.len() && prefix[j].date == d;
                assert(entries[j].date == entries[entries.len() - 1].date);
            }
        }
        assert(merge_entry(merge_day(acc, mp), d, rv) =~= merge_day(acc, mp.insert(d, rv)));
    }
}

/// Merge the providers' historical series, in registration order: for every
/// date, the first provider that covers it wins each rate collision — the
/// same priority rule as the latest-rate merge, applied per date.
pub fn historical_rates_of_with(provider_series: Vec<RateSeries>) -> (r: RateSeries)
    requires
        forall|i: int| 0 <= i < provider_series@.len() ==> (#[trigger] provider_series@[i]).wf(),
    ensures
        r.wf(),
        r@ == merged_series(series_maps_of(provider_series@)),
{
    let ghost all = provider_series@;
    let mut rest = provider_series;
    let mut acc = RateSeries::empty();
    let ghost mut i: int = 0;
    proof {
        assert(series_maps_of(all.take(0)) =~= Seq::<Map<Date, RateView>>::empty());
        assert(rest@ =~= all.skip(0));
    }
    while rest.len() > 0
        invariant
            0 <= i <= all.len(),
            rest@ == all.skip(i),
            forall|j: int| 0 <= j < all.len() ==> (#[trigger] all[j]).wf(),
            acc.wf(),
            acc@ == merged_series(series_maps_of(all.take(i))),
        decreases rest@.len(),
    {
        let mut s = rest.remove(0);
        proof {
            assert(all.skip(i)[0] == all[i]);
            assert(rest@ =~= all.skip(i + 1));
        }
        let ghost s0 = s.entries@;
        let ghost macc = acc@;
        let ghost mut j: int = 0;
        proof {
            assert(s0.skip(0) =~= s0);
            assert(s0.take(0) =~= Seq::<SeriesEntry>::empty());
        }
        while s.entries.len() > 0
            invariant
                0 <= j <= s0.len(),
                s.entries@ == s0.skip(j),
                distinct_dates(s0),
                snapshots_wf(s0),
                acc.wf(),
                acc@ == merge_entries(macc, s0.take(j)),
            decreases s.entries@.len(),
        {
            let e = s.entries.remove(0);
            proof {
                assert(s0.skip(j)[0] == s0[j]);
                assert(s.entries@ =~= s0.skip(j + 1));
                assert(e.rate.wf());
            }
            let ghost acc_pre = acc@;
            let date = e.date;
            let merged_rate = match acc.take_out(date) {
                Some(prior) => e.rate.chain(prior.rate),
                None => e.rate,
            };
            acc.insert(date, merged_rate);
            proof {
                assert(acc@ =~= merge_entry(acc_pre, date, e.rate@));
                assert(s0.take(j + 1).drop_last() =~= s0.take(j));
                assert(s0.take(j + 1).last() == s0[j]);
                j = j + 1;
            }
        }
        proof {
            assert(s0.take(s0.len() as int) =~= s0);
            lemma_merge_entries_day(macc, s0);
            let ss = series_maps_of(all.take(i + 1));
            assert(ss.drop_last() =~= series_maps_of(all.take(i)));
            assert(ss.last() == all[i]@);
            i = i + 1;
        }
    }
    proof {
        assert(all.skip(i).len() == 0);
        assert(i == all.len());
        assert(all.take(i) =~= all);
    }
    acc
}

/// The providers' rate maps at one date, in registration order, keeping only
/// the providers that cover the date.
pub open spec fn rates_at(provs: Seq<Map<Date, RateView>>, d: Date) -> Seq<Map<Seq<char>, u32>>
    decreases provs.len(),
{
    if provs.len() == 0 {
        Seq::empty()
    } else {
        let rest = rates_at(provs.drop_last(), d);
        if provs.last().contains_key(d) {
            rest.push(provs.last()[d].rates)
        } else {
            rest
        }
    }
}

/// Law: the historical merge applies, at every date independently, exactly
/// the first-provider-wins rule of the latest-rate merge: a date is covered
/// iff some provider covers it, and its merged rates are `merged_rates` of
/// the covering providers' snapshots in registration order.
pub proof fn lemma_historical_same_rule(provs: Seq<Map<Date, RateView>>, d: Date)
    ensures
        merged_series(provs).contains_key(d) <==> rates_at(provs, d).len() > 0,
        merged_series(provs).contains_key(d) ==> merged_series(provs)[d].rates == merged_rates(
            rates_at(provs, d),
        ),
    decreases provs.len(),
{
    broadcast use vstd::set::group_set_axioms;
    broadcast use vstd::map::group_map_axioms;

    if provs.len() > 0 {
        lemma_historical_same_rule(provs.drop_last(), d);
        let prior = merged_series(provs.drop_last());
        let m = provs.last();
        if m.contains_key(d) {
            let rest = rates_at(provs.drop_last(), d);
            let ra = rates_at(provs, d);
            assert(ra == rest.push(m[d].rates));
            assert(ra.drop_last() =~= rest);
            assert(ra.last() == m[d].rates);
            assert(merged_rates(ra) == m[d].rates.union_prefer_right(merged_rates(rest)));
            if prior.contains_key(d) {
                assert(merged_series(provs)[d] == combine_snapshots(m[d], prior[d]));
                assert(merged_rates(rest) == prior[d].rates);
            } else {
                assert(rest.len() == 0);
                assert(rest =~= Seq::<Map<Seq<char>, u32>>::empty());
                assert(merged_series(provs)[d] == m[d]);
                assert(m[d].rates.union_prefer_right(merged_rates(rest)) =~= m[d].rates);
            }
        } else {
            assert(rates_at(provs, d) == rates_at(provs.drop_last(), d));
            if prior.contains_key(d) {
                assert(merged_series(provs)[d] == prior[d]);
            }
        }
    }
}

} // verus!
