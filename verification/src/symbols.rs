//! The currency symbol catalogue: ISO-like code to human-readable name.
//!
//! Like the rate table, the catalogue is a vector of entries with
//! pairwise-distinct codes, read as the map built by inserting the entries in
//! order, later entries winning.

use vstd::prelude::*;

verus! {

/// One currency code and its display name.
#[derive(Debug)]
pub struct SymbolEntry {
    pub code: String,
    pub name: String,
}

/// The map meant by a sequence of entries: inserted in order, later wins.
pub open spec fn symbol_map_of(entries: Seq<SymbolEntry>) -> Map<Seq<char>, Seq<char>>
    decreases entries.len(),
{
    if entries.len() == 0 {
        Map::empty()
    } else {
        symbol_map_of(entries.drop_last()).insert(entries.last().code@, entries.last().name@)
    }
}

/// No two entries share a currency code.
pub open spec fn distinct_symbol_codes(entries: Seq<SymbolEntry>) -> bool {
    forall|i: int, j: int|
        0 <= i < j < entries.len() ==> entries[i].code@ != entries[j].code@
}

/// A catalogue of supported currencies.
#[derive(Debug)]
pub struct SymbolTable {
    pub entries: Vec<SymbolEntry>,
}

impl View for SymbolTable {
    type V = Map<Seq<char>, Seq<char>>;

    open spec fn view(&self) -> Map<Seq<char>, Seq<char>> {
        symbol_map_of(self.entries@)
    }
}

/// A key of `symbol_map_of` is exactly a code that occurs in the entries.
pub proof fn lemma_symbol_map_dom(entries: Seq<SymbolEntry>, code: Seq<char>)
    ensures
        symbol_map_of(entries).contains_key(code) <==> exists|j: int|
            0 <= j < entries.len() && entries[j].code@ == code,
    decreases entries.len(),
{
    if entries.len() > 0 {
        lemma_symbol_map_dom(entries.drop_last(), code);
        if entries.last().code@ == code {
            assert(entries[entries.len() - 1].code@ == code);
        } else {
            assert(forall|j: int|
                0 <= j < entries.len() - 1 && entries.drop_last()[j].code@ == code
                    ==> entries[j].code@ == code);
        }
    }
}

/// The name at a code is the name of its last occurrence.
pub proof fn lemma_symbol_map_last(entries: Seq<SymbolEntry>, code: Seq<char>, i: int)
    requires
        0 <= i < entries.len(),
        entries[i].code@ == code,
        forall|j: int| i < j < entries.len() ==> entries[j].code@ != code,
    ensures
        symbol_map_of(entries).contains_key(code),
        symbol_map_of(entries)[code] == entries[i].name@,
    decreases entries.len(),
{
    if i < entries.len() - 1 {
        lemma_symbol_map_last(entries.drop_last(), code, i);
    }
}

/// Index of the last entry with the given code, if any.
fn find_symbol(entries: &Vec<SymbolEntry>, code: &str) -> (r: Option<usize>)
    ensures
        match r {
            Some(i) => {
                &&& i < entries@.len()
                &&& entries@[i as int].code@ == code@
                &&& forall|j: int| i < j < entries@.len() ==> entries@[j].code@ != code@
            },
            None => forall|j: int| 0 <= j < entries@.len() ==> entries@[j].code@ != code@,
        },
{
    let mut found: Option<usize> = None;
    let n = entries.len();
    let mut i: usize = 0;
    while i < n
        invariant
            i <= n,
            n == entries@.len(),
            match found {
                Some(f) => {
                    &&& f < i
                    &&& entries@[f as int].code@ == code@
                    &&& forall|j: int| f < j < i ==> entries@[j].code@ != code@
                },
                None => forall|j: int| 0 <= j < i ==> entries@[j].code@ != code@,
            },
        decreases n - i,
    {
        if crate::text::str_eq(entries[i].code.as_str(), code) {
            found = Some(i);
        }
        i = i + 1;
    }
    found
}

impl SymbolTable {
    /// Pairwise-distinct codes: the well-formed shape every operation keeps.
    pub open spec fn wf(&self) -> bool {
        distinct_symbol_codes(self.entries@)
    }

    /// A catalogue with no symbols.
    pub fn empty() -> (r: SymbolTable)
        ensures
            r@ == Map::<Seq<char>, Seq<char>>::empty(),
            r.wf(),
    {
        SymbolTable { entries: Vec::new() }
    }

    /// The display name recorded for a code, if any.
    pub fn get(&self, code: &str) -> (r: Option<&String>)
        ensures
            match r {
                Some(name) => self@.contains_key(code@) && self@[code@] == name@,
                None => !self@.contains_key(code@),
            },
    {
        match find_symbol(&self.entries, code) {
            Some(i) => {
                proof {
                    lemma_symbol_map_last(self.entries@, code@, i as int);
                }
                Some(&self.entries[i].name)
            },
            None => {
                proof {
                    lemma_symbol_map_dom(self.entries@, code@);
                }
                None
            },
        }
    }

    /// Number of catalogued currencies.
    pub fn len(&self) -> (n: usize)
        ensures
            n == self.entries@.len(),
    {
        self.entries.len()
    }

    /// Insert or overwrite one symbol.
    pub fn insert(&mut self, code: String, name: String)
        ensures
            final(self)@ == old(self)@.insert(code@, name@),
            old(self).wf() ==> final(self).wf(),
    {
        match find_symbol(&self.entries, code.as_str()) {
            Some(i) => {
                self.entries.set(i, SymbolEntry { code, name });
                proof {
                    let e = self.entries@[i as int];
                    assert(self.entries@ == old(self).entries@.update(i as int, e));
                    lemma_symbol_map_update_last(old(self).entries@, i as int, e);
                    if old(self).wf() {
                        assert forall|p: int, q: int|
                            0 <= p < q < self.entries@.len() implies self.entries@[p].code@
                            != self.entries@[q].code@ by {
                            assert(self.entries@[p].code@ == old(self).entries@[p].code@);
                            assert(self.entries@[q].code@ == old(self).entries@[q].code@);
                        }
                    }
                }
            },
            None => {
                self.entries.push(SymbolEntry { code, name });
                proof {
                    assert(self.entries@.drop_last() =~= old(self).entries@);
                    if old(self).wf() {
                        assert forall|p: int, q: int|
                            0 <= p < q < self.entries@.len() implies self.entries@[p].code@
                            != self.entries@[q].code@ by {
                            if q < self.entries@.len() - 1 {
                                assert(self.entries@[p].code@ == old(self).entries@[p].code@);
                                assert(self.entries@[q].code@ == old(self).entries@[q].code@);
                            } else {
                                assert(self.entries@[p].code@ == old(self).entries@[p].code@);
                            }
                        }
                    }
                }
            },
        }
    }
}

/// Overwriting the last occurrence of a code updates only that key.
proof fn lemma_symbol_map_update_last(entries: Seq<SymbolEntry>, i: int, e: SymbolEntry)
    requires
        0 <= i < entries.len(),
        entries[i].code@ == e.code@,
        forall|j: int| i < j < entries.len() ==> entries[j].code@ != e.code@,
    ensures
        symbol_map_of(entries.update(i, e)) == symbol_map_of(entries).insert(e.code@, e.name@),
    decreases entries.len(),
{
    if i == entries.len() - 1 {
        assert(entries.update(i, e).drop_last() =~= entries.drop_last());
        assert(symbol_map_of(entries.update(i, e))
            =~= symbol_map_of(entries).insert(e.code@, e.name@));
    } else {
        let prefix = entries.drop_last();
        assert forall|j: int| i < j < prefix.len() implies prefix[j].code@ != e.code@ by {
            assert(prefix[j] == entries[j]);
        }
        lemma_symbol_map_update_last(prefix, i, e);
        assert(entries.update(i, e).drop_last() =~= prefix.update(i, e));
        assert(entries.update(i, e).last() == entries.last());
        assert(symbol_map_of(entries.update(i, e))
            =~= symbol_map_of(entries).insert(e.code@, e.name@));
    }
}

} // verus!
