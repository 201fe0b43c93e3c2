//! A date-indexed series of exchange-rate snapshots.
//!
//! Entries carry pairwise-distinct dates and are read as the map built by
//! inserting them in order, later entries winning on a repeated date.

use crate::date::Date;
use crate::model::ExchangeRate;
use crate::model::RateView;
use vstd::prelude::*;

verus! {

/// One day's snapshot.
#[derive(Debug)]
pub struct SeriesEntry {
    pub date: Date,
    pub rate: ExchangeRate,
}

/// A series of snapshots keyed by calendar date.
#[derive(Debug)]
pub struct RateSeries {
    pub entries: Vec<SeriesEntry>,
}

/// The map meant by a sequence of entries: inserted in order, later wins.
pub open spec fn series_map_of(entries: Seq<SeriesEntry>) -> Map<Date, RateView>
    decreases entries.len(),
{
    if entries.len() == 0 {
        Map::empty()
    } else {
        series_map_of(entries.drop_last()).insert(entries.last().date, entries.last().rate@)
    }
}

/// No two entries share a date.
pub open spec fn distinct_dates(entries: Seq<SeriesEntry>) -> bool {
    forall|i: int, j: int| 0 <= i < j < entries.len() ==> entries[i].date != entries[j].date
}

/// Every snapshot in the sequence is well formed.
pub open spec fn snapshots_wf(entries: Seq<SeriesEntry>) -> bool {
    forall|i: int| 0 <= i < entries.len() ==> (#[trigger] entries[i]).rate.wf()
}

impl View for RateSeries {
    type V = Map<Date, RateView>;

    open spec fn view(&self) -> Map<Date, RateView> {
        series_map_of(self.entries@)
    }
}

/// A key of `series_map_of` is exactly a date that occurs in the entries.
pub proof fn lemma_series_map_dom(entries: Seq<SeriesEntry>, date: Date)
    ensures
        series_map_of(entries).contains_key(date) <==> exists|j: int|
            0 <= j < entries.len() && entries[j].date == date,
    decreases entries.len(),
{
    if entries.len() > 0 {
        lemma_series_map_dom(entries.drop_last(), date);
        if entries.last().date == date {
            assert(entries[entries.len() - 1].date == date);
        } else {
            assert(forall|j: int|
                0 <= j < entries.len() - 1 ==> entries.drop_last()[j] == entries[j]);
            if exists|j: int| 0 <= j < entries.len() && entries[j].date == date {
                let j = choose|j: int| 0 <= j < entries.len() && entries[j].date == date;
                assert(entries.drop_last()[j].date == date);
            }
        }
    }
}

/// The snapshot at a date is the one of its last occurrence.
pub proof fn lemma_series_map_last(entries: Seq<SeriesEntry>, date: Date, i: int)
    requires
        0 <= i < entries.len(),
        entries[i].date == date,
        forall|j: int| i < j < entries.len() ==> entries[j].date != date,
    ensures
        series_map_of(entries).contains_key(date),
        series_map_of(entries)[date] == entries[i].rate@,
    decreases entries.len(),
{
    if i < entries.len() - 1 {
        lemma_series_map_last(entries.drop_last(), date, i);
    }
}

/// Taking out the only occurrence of a date removes exactly that key.
pub proof fn lemma_series_map_remove(entries: Seq<SeriesEntry>, i: int)
    requires
        0 <= i < entries.len(),
        distinct_dates(entries),
    ensures
        series_map_of(entries.remove(i)) == series_map_of(entries).remove(entries[i].date),
    decreases entries.len(),
{
    let d = entries[i].date;
    if i == entries.len() - 1 {
        assert(entries.remove(i) =~= entries.drop_last());
        lemma_series_map_dom(entries.drop_last(), d);
        assert(forall|j: int|
            0 <= j < entries.len() - 1 && entries.drop_last()[j].date == d
                ==> entries[j].date == d);
        assert(!series_map_of(entries.drop_last()).contains_key(d));
        assert(series_map_of(entries.remove(i)) =~= series_map_of(entries).remove(d));
    } else {
        let prefix = entries.drop_last();
        assert forall|p: int, q: int|
            0 <= p < q < prefix.len() implies prefix[p].date != prefix[q].date by {
            assert(prefix[p] == entries[p]);
            assert(prefix[q] == entries[q]);
        }
        lemma_series_map_remove(prefix, i);
        assert(entries.remove(i).drop_last() =~= prefix.remove(i));
        assert(entries.remove(i).last() == entries.last());
        assert(entries.last().date != d);
        assert(series_map_of(entries.remove(i)) =~= series_map_of(entries).remove(d));
    }
}

/// Index of the last entry with the given date, if any.
fn find_date(entries: &Vec<SeriesEntry>, date: Date) -> (r: Option<usize>)
    ensures
        match r {
            Some(i) => {
                &&& i < entries@.len()
                &&& entries@[i as int].date == date
                &&& forall|j: int| i < j < entries@.len() ==> entries@[j].date != date
            },
            None => forall|j: int| 0 <= j < entries@.len() ==> entries@[j].date != date,
        },
{
    let mut found: Option<usize> = None;
    let n = entries.len();
    let mut i: usize = 0;
    while i < n
        invariant
            i <= n,
            n == entries@.len(),
            match found {
                Some(f) => {
                    &&& f < i
                    &&& entries@[f as int].date == date
                    &&& forall|j: int| f < j < i ==> entries@[j].date != date
                },
                None => forall|j: int| 0 <= j < i ==> entries@[j].date != date,
            },
        decreases n - i,
    {
        if entries[i].date == date {
            found = Some(i);
        }
        i = i + 1;
    }
    found
}

impl RateSeries {
    /// Distinct dates, each with a well-formed snapshot.
    pub open spec fn wf(&self) -> bool {
        distinct_dates(self.entries@) && snapshots_wf(self.entries@)
    }

    /// A series with no days.
    pub fn empty() -> (r: RateSeries)
        ensures
            r@ == Map::<Date, RateView>::empty(),
            r.wf(),
    {
        RateSeries { entries: Vec::new() }
    }

    /// The snapshot recorded for a date, if any.
    pub fn get(&self, date: Date) -> (r: Option<&ExchangeRate>)
        ensures
            match r {
                Some(e) => self@.contains_key(date) && self@[date] == e@,
                None => !self@.contains_key(date),
            },
    {
        match find_date(&self.entries, date) {
            Some(i) => {
                proof {
                    lemma_series_map_last(self.entries@, date, i as int);
                }
                Some(&self.entries[i].rate)
            },
            None => {
                proof {
                    lemma_series_map_dom(self.entries@, date);
                }
                None
            },
        }
    }

    /// Number of days in the series.
    pub fn len(&self) -> (n: usize)
        ensures
            n == self.entries@.len(),
    {
        self.entries.len()
    }

    /// Remove and hand back one day's snapshot, if the day is present.
    pub fn take_out(&mut self, date: Date) -> (r: Option<SeriesEntry>)
        requires
            old(self).wf(),
        ensures
            match r {
                Some(entry) => {
                    &&& old(self)@.contains_key(date)
                    &&& entry.date == date
                    &&& entry.rate@ == old(self)@[date]
                    &&& entry.rate.wf()
                    &&& final(self)@ == old(self)@.remove(date)
                    &&& final(self).wf()
                },
                None => !old(self)@.contains_key(date) && *final(self) == *old(self),
            },
    {
        match find_date(&self.entries, date) {
            Some(i) => {
                proof {
                    lemma_series_map_last(self.entries@, date, i as int);
                    lemma_series_map_remove(self.entries@, i as int);
                }
                let entry = self.entries.remove(i);
                proof {
                    assert forall|p: int, q: int|
                        0 <= p < q < self.entries@.len() implies self.entries@[p].date
                        != self.entries@[q].date by {
                        let p0: int = if p < i as int { p } else { p + 1 };
                        let q0: int = if q < i as int { q } else { q + 1 };
                        assert(self.entries@[p] == old(self).entries@[p0]);
                        assert(self.entries@[q] == old(self).entries@[q0]);
                    }
                    assert forall|p: int|
                        0 <= p < self.entries@.len() implies (#[trigger] self.entries@[p])
                        .rate.wf() by {
                        let p0: int = if p < i as int { p } else { p + 1 };
                        assert(self.entries@[p] == old(self).entries@[p0]);
                    }
                }
                Some(entry)
            },
            None => {
                proof {
                    lemma_series_map_dom(self.entries@, date);
                }
                None
            },
        }
    }

    /// Insert or overwrite one day's snapshot.
    pub fn insert(&mut self, date: Date, rate: ExchangeRate)
        ensures
            final(self)@ == old(self)@.insert(date, rate@),
            old(self).wf() && rate.wf() ==> final(self).wf(),
    {
        match find_date(&self.entries, date) {
            Some(i) => {
                self.entries.set(i, SeriesEntry { date, rate });
                proof {
                    let e = self.entries@[i as int];
                    assert(self.entries@ == old(self).entries@.update(i as int, e));
                    lemma_series_map_update_last(old(self).entries@, i as int, e);
                    if old(self).wf() && e.rate.wf() {
                        assert forall|p: int, q: int|
                            0 <= p < q < self.entries@.len() implies self.entries@[p].date
                            != self.entries@[q].date by {
                            assert(self.entries@[p].date == old(self).entries@[p].date);
                            assert(self.entries@[q].date == old(self).entries@[q].date);
                        }
                        assert forall|p: int|
                            0 <= p < self.entries@.len() implies (#[trigger] self.entries@[p])
                            .rate.wf() by {
                            if p != i as int {
                                assert(self.entries@[p] == old(self).entries@[p]);
                            }
                        }
                    }
                }
            },
            None => {
                self.entries.push(SeriesEntry { date, rate });
                proof {
                    assert(self.entries@.drop_last() =~= old(self).entries@);
                    if old(self).wf() && self.entries@.last().rate.wf() {
                        assert forall|p: int, q: int|
                            0 <= p < q < self.entries@.len() implies self.entries@[p].date
                            != self.entries@[q].date by {
                            if q < self.entries@.len() - 1 {
                                assert(self.entries@[p].date == old(self).entries@[p].date);
                                assert(self.entries@[q].date == old(self).entries@[q].date);
                            } else {
                                assert(self.entries@[p].date == old(self).entries@[p].date);
                            }
                        }
                        assert forall|p: int|
                            0 <= p < self.entries@.len() implies (#[trigger] self.entries@[p])
                            .rate.wf() by {
                            if p < self.entries@.len() - 1 {
                                assert(self.entries@[p] == old(self).entries@[p]);
                            }
                        }
                    }
                }
            },
        }
    }
}

/// The days of a series that quote one counter currency, with its rate, in
/// entry order.
pub open spec fn counter_points_of(entries: Seq<SeriesEntry>, counter: Seq<char>) -> Seq<
    (Date, u32),
>
    decreases entries.len(),
{
    if entries.len() == 0 {
        Seq::empty()
    } else {
        let rest = counter_points_of(entries.drop_last(), counter);
        if entries.last().rate@.rates.contains_key(counter) {
            rest.push((entries.last().date, entries.last().rate@.rates[counter]))
        } else {
            rest
        }
    }
}

impl RateSeries {
    /// The time series of one counter currency: each day that quotes it,
    /// paired with its rate; days that do not quote it are left out.
    pub fn rates_for(&self, counter: &str) -> (r: Vec<(Date, u32)>)
        ensures
            r@ == counter_points_of(self.entries@, counter@),
    {
        let mut out: Vec<(Date, u32)> = Vec::new();
        let n = self.entries.len();
        let mut i: usize = 0;
        proof {
            assert(self.entries@.take(0) =~= Seq::<SeriesEntry>::empty());
        }
        while i < n
            invariant
                i <= n,
                n == self.entries@.len(),
                out@ == counter_points_of(self.entries@.take(i as int), counter@),
            decreases n - i,
        {
            let e = &self.entries[i];
            proof {
                assert(self.entries@.take(i + 1).drop_last() =~= self.entries@.take(i as int));
                assert(self.entries@.take(i + 1).last() == self.entries@[i as int]);
            }
            match e.rate.get(counter) {
                Some(v) => {
                    out.push((e.date, v));
                },
                None => {},
            }
            i = i + 1;
        }
        proof {
            assert(self.entries@.take(n as int) =~= self.entries@);
        }
        out
    }
}

/// Overwriting the last occurrence of a date updates only that key.
proof fn lemma_series_map_update_last(entries: Seq<SeriesEntry>, i: int, e: SeriesEntry)
    requires
        0 <= i < entries.len(),
        entries[i].date == e.date,
        forall|j: int| i < j < entries.len() ==> entries[j].date != e.date,
    ensures
        series_map_of(entries.update(i, e)) == series_map_of(entries).insert(e.date, e.rate@),
    decreases entries.len(),
{
    if i == entries.len() - 1 {
        assert(entries.update(i, e).drop_last() =~= entries.drop_last());
        assert(series_map_of(entries.update(i, e))
            =~= series_map_of(entries).insert(e.date, e.rate@));
    } else {
        let prefix = entries.drop_last();
        assert forall|j: int| i < j < prefix.len() implies prefix[j].date != e.date by {
            assert(prefix[j] == entries[j]);
        }
        lemma_series_map_update_last(prefix, i, e);
        assert(entries.update(i, e).drop_last() =~= prefix.update(i, e));
        assert(entries.update(i, e).last() == entries.last());
        assert(series_map_of(entries.update(i, e))
            =~= series_map_of(entries).insert(e.date, e.rate@));
    }
}

} // verus!
