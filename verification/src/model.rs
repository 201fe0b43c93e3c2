//! The exchange-rate value object and its priority merge.
//!
//! An `ExchangeRate` pairs a base currency with a table of counter-currency
//! rates. The table is a vector of entries with pairwise-distinct codes; its
//! mathematical meaning is the map built by inserting the entries in order,
//! so on duplicate codes the later entry wins, as a hash-map `collect` would.
//! Rate values are carried as the raw bit pattern of the upstream number: the
//! engine moves them between tables and never computes with them.

use vstd::prelude::*;

verus! {

/// One counter currency and its quoted rate (raw bits, never interpreted).
#[derive(Debug)]
pub struct RateEntry {
    pub code: String,
    pub value: u32,
}

/// Mathematical view of an `ExchangeRate`: the base code and the rate map.
pub ghost struct RateView {
    pub base: Seq<char>,
    pub rates: Map<Seq<char>, u32>,
}

/// The map meant by a sequence of entries: inserted in order, later wins.
pub open spec fn rate_map_of(entries: Seq<RateEntry>) -> Map<Seq<char>, u32>
    decreases entries.len(),
{
    if entries.len() == 0 {
        Map::empty()
    } else {
        rate_map_of(entries.drop_last()).insert(entries.last().code@, entries.last().value)
    }
}

/// No two entries share a currency code.
pub open spec fn distinct_codes(entries: Seq<RateEntry>) -> bool {
    forall|i: int, j: int|
        0 <= i < j < entries.len() ==> entries[i].code@ != entries[j].code@
}

/// Current rates for one base currency.
#[derive(Debug)]
pub struct ExchangeRate {
    pub base: String,
    pub rates: Vec<RateEntry>,
}

impl View for ExchangeRate {
    type V = RateView;

    open spec fn view(&self) -> RateView {
        RateView { base: self.base@, rates: rate_map_of(self.rates@) }
    }
}

/// A key of `rate_map_of` is exactly a code that occurs in the entries.
pub proof fn lemma_rate_map_dom(entries: Seq<RateEntry>, code: Seq<char>)
    ensures
        rate_map_of(entries).contains_key(code) <==> exists|j: int|
            0 <= j < entries.len() && entries[j].code@ == code,
    decreases entries.len(),
{
    if entries.len() > 0 {
        lemma_rate_map_dom(entries.drop_last(), code);
        if entries.last().code@ == code {
            assert(entries[entries.len() - 1].code@ == code);
        } else {
            assert(forall|j: int|
                0 <= j < entries.len() - 1 && entries.drop_last()[j].code@ == code
                    ==> entries[j].code@ == code);
        }
    }
}

/// The value at a code is the value of its last occurrence.
pub proof fn lemma_rate_map_last(entries: Seq<RateEntry>, code: Seq<char>, i: int)
    requires
        0 <= i < entries.len(),
        entries[i].code@ == code,
        forall|j: int| i < j < entries.len() ==> entries[j].code@ != code,
    ensures
        rate_map_of(entries).contains_key(code),
        rate_map_of(entries)[code] == entries[i].value,
    decreases entries.len(),
{
    if i == entries.len() - 1 {
    } else {
        lemma_rate_map_last(entries.drop_last(), code, i);
    }
}

/// A code that occurs nowhere is not in the map.
pub proof fn lemma_rate_map_absent(entries: Seq<RateEntry>, code: Seq<char>)
    requires
        forall|j: int| 0 <= j < entries.len() ==> entries[j].code@ != code,
    ensures
        !rate_map_of(entries).contains_key(code),
{
    lemma_rate_map_dom(entries, code);
}

/// The map of any entry sequence has a finite domain.
pub proof fn lemma_rate_map_finite(entries: Seq<RateEntry>)
    ensures
        rate_map_of(entries).dom().finite(),
    decreases entries.len(),
{
    broadcast use vstd::set::group_set_axioms;
    broadcast use vstd::map::group_map_axioms;

    if entries.len() > 0 {
        lemma_rate_map_finite(entries.drop_last());
    }
}

/// With distinct codes the map has exactly one key per entry.
pub proof fn lemma_rate_map_len(entries: Seq<RateEntry>)
    requires
        distinct_codes(entries),
    ensures
        rate_map_of(entries).len() == entries.len(),
    decreases entries.len(),
{
    broadcast use vstd::set::group_set_axioms;
    broadcast use vstd::map::group_map_axioms;

    lemma_rate_map_finite(entries);

    if entries.len() > 0 {
        let prefix = entries.drop_last();
        let k = entries.last().code@;
        assert forall|i: int, j: int|
            0 <= i < j < prefix.len() implies prefix[i].code@ != prefix[j].code@ by {
            assert(prefix[i] == entries[i]);
            assert(prefix[j] == entries[j]);
        }
        lemma_rate_map_finite(prefix);
        lemma_rate_map_len(prefix);
        lemma_rate_map_dom(prefix, k);
        assert(!rate_map_of(prefix).contains_key(k)) by {
            if exists|j: int| 0 <= j < prefix.len() && prefix[j].code@ == k {
                let j = choose|j: int| 0 <= j < prefix.len() && prefix[j].code@ == k;
                assert(entries[j].code@ == entries[entries.len() - 1].code@);
            }
        }
        assert(rate_map_of(entries).dom() =~= rate_map_of(prefix).dom().insert(k));
    }
}

/// Index of the last entry with the given code, if any.
fn find_code(entries: &Vec<RateEntry>, code: &str) -> (r: Option<usize>)
    ensures
        match r {
            Some(i) => {
                &&& i < entries@.len()
                &&& entries@[i as int].code@ == code@
                &&& forall|j: int| i < j < entries@.len() ==> entries@[j].code@ != code@
            },
            None => forall|j: int| 0 <= j < entries@.len() ==> entries@[j].code@ != code@,
        },
{
    let mut found: Option<usize> = None;
    let n = entries.len();
    let mut i: usize = 0;
    while i < n
        invariant
            i <= n,
            n == entries@.len(),
            match found {
                Some(f) => {
                    &&& f < i
                    &&& entries@[f as int].code@ == code@
                    &&& forall|j: int| f < j < i ==> entries@[j].code@ != code@
                },
                None => forall|j: int| 0 <= j < i ==> entries@[j].code@ != code@,
            },
        decreases n - i,
    {
        if crate::text::str_eq(entries[i].code.as_str(), code) {
            found = Some(i);
        }
        i = i + 1;
    }
    found
}

impl ExchangeRate {
    /// Pairwise-distinct codes: the well-formed shape every operation keeps.
    pub open spec fn wf(&self) -> bool {
        distinct_codes(self.rates@)
    }

    /// The identity of the priority fold: the requested base, no rates.
    pub fn empty(base: &str) -> (r: ExchangeRate)
        ensures
            r@.base == base@,
            r@.rates == Map::<Seq<char>, u32>::empty(),
            r.wf(),
    {
        ExchangeRate { base: base.to_owned(), rates: Vec::new() }
    }

    /// The rate quoted for a counter currency, if any.
    pub fn get(&self, code: &str) -> (r: Option<u32>)
        ensures
            match r {
                Some(v) => self@.rates.contains_key(code@) && self@.rates[code@] == v,
                None => !self@.rates.contains_key(code@),
            },
    {
        match find_code(&self.rates, code) {
            Some(i) => {
                proof {
                    lemma_rate_map_last(self.rates@, code@, i as int);
                }
                Some(self.rates[i].value)
            },
            None => {
                proof {
                    lemma_rate_map_absent(self.rates@, code@);
                }
                None
            },
        }
    }

    /// Whether a counter currency is quoted.
    pub fn contains(&self, code: &str) -> (r: bool)
        ensures
            r == self@.rates.contains_key(code@),
    {
        match self.get(code) {
            Some(_) => true,
            None => false,
        }
    }

    /// Number of quoted counter currencies.
    pub fn len(&self) -> (n: usize)
        ensures
            n == self.rates@.len(),
            self.wf() ==> n == self@.rates.len(),
    {
        proof {
            if self.wf() {
                lemma_rate_map_len(self.rates@);
            }
        }
        self.rates.len()
    }

    /// Insert or overwrite one rate.
    pub fn insert(&mut self, code: String, value: u32)
        ensures
            final(self)@.base == old(self)@.base,
            final(self)@.rates == old(self)@.rates.insert(code@, value),
            old(self).wf() ==> final(self).wf(),
    {
        match find_code(&self.rates, code.as_str()) {
            Some(i) => {
                self.rates.set(i, RateEntry { code, value });
                proof {
                    let e = self.rates@[i as int];
                    assert(e.code@ == code@ && e.value == value);
                    assert(self.rates@ == old(self).rates@.update(i as int, e));
                    lemma_rate_map_update_last(old(self).rates@, i as int, e);
                    if old(self).wf() {
                        assert forall|p: int, q: int|
                            0 <= p < q < self.rates@.len() implies self.rates@[p].code@
                            != self.rates@[q].code@ by {
                            assert(self.rates@[p].code@ == old(self).rates@[p].code@);
                            assert(self.rates@[q].code@ == old(self).rates@[q].code@);
                        }
                    }
                }
            },
            None => {
                self.rates.push(RateEntry { code, value });
                proof {
                    assert(self.rates@.drop_last() =~= old(self).rates@);
                    if old(self).wf() {
                        assert forall|p: int, q: int|
                            0 <= p < q < self.rates@.len() implies self.rates@[p].code@
                            != self.rates@[q].code@ by {
                            if q < self.rates@.len() - 1 {
                                assert(self.rates@[p].code@ == old(self).rates@[p].code@);
                                assert(self.rates@[q].code@ == old(self).rates@[q].code@);
                            } else {
                                assert(self.rates@[p].code@ == old(self).rates@[p].code@);
                                assert(self.rates@[q].code@ == code@);
                            }
                        }
                    }
                }
            },
        }
    }
}

impl ExchangeRate {
    /// Merge two rate tables: the union of both, where on a shared code the
    /// argument (`that`) wins, and the result takes `that`'s base.
    pub fn chain(&self, that: ExchangeRate) -> (r: ExchangeRate)
        requires
            self.wf(),
            that.wf(),
        ensures
            r.wf(),
            r@.base == that@.base,
            r@.rates == self@.rates.union_prefer_right(that@.rates),
    {
        let ghost that_rates = rate_map_of(that.rates@);
        let ExchangeRate { base: out_base, rates: mut out } = that;
        let n = self.rates.len();
        let mut i: usize = 0;
        proof {
            assert(rate_map_of(out@)
                =~= rate_map_of(self.rates@.take(0)).union_prefer_right(that_rates));
        }
        while i < n
            invariant
                i <= n,
                n == self.rates@.len(),
                distinct_codes(self.rates@),
                distinct_codes(out@),
                rate_map_of(out@) == rate_map_of(self.rates@.take(i as int)).union_prefer_right(
                    that_rates,
                ),
            decreases n - i,
        {
            let e = &self.rates[i];
            let ghost pre = self.rates@.take(i as int);
            let ghost k = e.code@;
            proof {
                assert(!rate_map_of(pre).contains_key(k)) by {
                    lemma_rate_map_dom(pre, k);
                    if exists|j: int| 0 <= j < pre.len() && pre[j].code@ == k {
                        let j = choose|j: int| 0 <= j < pre.len() && pre[j].code@ == k;
                        assert(self.rates@[j].code@ == self.rates@[i as int].code@);
                    }
                }
                assert(pre.push(self.rates@[i as int]).drop_last() =~= pre);
                assert(self.rates@.take(i + 1) =~= pre.push(self.rates@[i as int]));
            }
            let ghost out_pre = out@;
            if !entries_contain(&out, e.code.as_str()) {
                proof {
                    assert(!that_rates.contains_key(k));
                    lemma_rate_map_dom(out@, k);
                }
                out.push(RateEntry { code: e.code.clone(), value: e.value });
                proof {
                    assert(out@.drop_last() =~= out_pre);
                    assert(distinct_codes(out@)) by {
                        assert forall|p: int, q: int|
                            0 <= p < q < out@.len() implies out@[p].code@ != out@[q].code@ by {
                            if q == out@.len() - 1 {
                                assert(forall|j: int|
                                    0 <= j < out_pre.len() ==> out_pre[j].code@ != k);
                            } else {
                                assert(out@[p] == out_pre[p]);
                                assert(out@[q] == out_pre[q]);
                            }
                        }
                    }
                    assert(rate_map_of(out@)
                        =~= rate_map_of(self.rates@.take(i + 1)).union_prefer_right(that_rates));
                }
            } else {
                proof {
                    assert(that_rates.contains_key(k));
                    assert(rate_map_of(self.rates@.take(i + 1))
                        =~= rate_map_of(pre).insert(k, self.rates@[i as int].value));
                    assert(rate_map_of(out@)
                        =~= rate_map_of(self.rates@.take(i + 1)).union_prefer_right(that_rates));
                }
            }
            i = i + 1;
        }
        proof {
            assert(self.rates@.take(n as int) =~= self.rates@);
        }
        ExchangeRate { base: out_base, rates: out }
    }
}

/// Whether some entry carries the given code.
fn entries_contain(entries: &Vec<RateEntry>, code: &str) -> (r: bool)
    ensures
        r == rate_map_of(entries@).contains_key(code@),
{
    match find_code(entries, code) {
        Some(i) => {
            proof {
                lemma_rate_map_last(entries@, code@, i as int);
            }
            true
        },
        None => {
            proof {
                lemma_rate_map_absent(entries@, code@);
            }
            false
        },
    }
}

/// Law: chaining two tables with disjoint code sets unions them. Every code
/// of either operand keeps its value, and the sizes add up.
pub proof fn lemma_chain_disjoint(a: ExchangeRate, b: ExchangeRate)
    requires
        a.wf(),
        b.wf(),
        a@.rates.dom().disjoint(b@.rates.dom()),
    ensures
        forall|k: Seq<char>|
            #[trigger] a@.rates.union_prefer_right(b@.rates).contains_key(k)
                <==> a@.rates.contains_key(k) || b@.rates.contains_key(k),
        forall|k: Seq<char>|
            a@.rates.contains_key(k) ==> a@.rates.union_prefer_right(b@.rates)[k]
                == a@.rates[k],
        forall|k: Seq<char>|
            b@.rates.contains_key(k) ==> a@.rates.union_prefer_right(b@.rates)[k]
                == b@.rates[k],
        a@.rates.union_prefer_right(b@.rates).len() == a@.rates.len() + b@.rates.len(),
{
    lemma_rate_map_finite(a.rates@);
    lemma_rate_map_finite(b.rates@);
    vstd::map_lib::lemma_disjoint_union_size(a@.rates, b@.rates);
    vstd::map_lib::lemma_union_dom(a@.rates, b@.rates);
}

/// Law: on a code both operands quote, `chain`'s result carries the second
/// operand's value.
pub proof fn lemma_chain_overlap(a: ExchangeRate, b: ExchangeRate, k: Seq<char>)
    requires
        a@.rates.contains_key(k),
        b@.rates.contains_key(k),
    ensures
        a@.rates.union_prefer_right(b@.rates).contains_key(k),
        a@.rates.union_prefer_right(b@.rates)[k] == b@.rates[k],
{
}

/// Overwriting the last occurrence of a code updates only that key.
proof fn lemma_rate_map_update_last(entries: Seq<RateEntry>, i: int, e: RateEntry)
    requires
        0 <= i < entries.len(),
        entries[i].code@ == e.code@,
        forall|j: int| i < j < entries.len() ==> entries[j].code@ != e.code@,
    ensures
        rate_map_of(entries.update(i, e)) == rate_map_of(entries).insert(e.code@, e.value),
    decreases entries.len(),
{
    if i == entries.len() - 1 {
        assert(entries.update(i, e).drop_last() =~= entries.drop_last());
        assert(rate_map_of(entries.update(i, e))
            =~= rate_map_of(entries).insert(e.code@, e.value));
    } else {
        let prefix = entries.drop_last();
        assert forall|j: int| i < j < prefix.len() implies prefix[j].code@ != e.code@ by {
            assert(prefix[j] == entries[j]);
        }
        lemma_rate_map_update_last(prefix, i, e);
        assert(entries.update(i, e).drop_last() =~= prefix.update(i, e));
        assert(entries.update(i, e).last() == entries.last());
        assert(rate_map_of(entries.update(i, e))
            =~= rate_map_of(entries).insert(e.code@, e.value));
    }
}

} // verus!
