//! The aggregate table: running statistics per distinct key, looked up
//! through the key's fixed-width code.
use vstd::prelude::*;

use fxhash::FxHashMap;

use crate::key::{key_code, to_key};
use crate::order::{
    bytes_equal, bytes_less, lemma_lex_asymmetric, lemma_lex_irreflexive, lemma_lex_total,
    lemma_lex_transitive, lex_lt,
};
use crate::record::Record;

verus! {

/// fxhash's hasher, carried opaquely inside the index map's type.
#[verifier::external_type_specification]
#[verifier::external_body]
pub struct ExFxHasher(fxhash::FxHasher);

/// std's hasher builder, carried opaquely inside the index map's type.
#[verifier::external_type_specification]
#[verifier::external_body]
#[verifier::reject_recursive_types(H)]
pub struct ExBuildHasherDefault<H>(core::hash::BuildHasherDefault<H>);

/// Positions of entries, by key code.
pub type CodeIndex = FxHashMap<u64, usize>;

/// Relies on `FxHashMap::default` (std's `HashMap` with fxhash's hasher):
/// a new map is empty.
#[verifier::external_body]
fn index_new() -> (r: CodeIndex)
    ensures
        r@.dom().is_empty(),
{
    FxHashMap::default()
}

/// Relies on `HashMap::get` under fxhash's hasher, which hashes a `u64`
/// deterministically: the value stored for `code`, if any.
#[verifier::external_body]
fn index_get(m: &CodeIndex, code: u64) -> (r: Option<usize>)
    ensures
        r == (if m@.contains_key(code) { Some(m@[code]) } else { None::<usize> }),
{
    m.get(&code).copied()
}

/// Relies on `HashMap::insert` under fxhash's hasher: `code` maps to `at`
/// afterwards, and every other entry is kept.
#[verifier::external_body]
fn index_insert(m: &mut CodeIndex, code: u64, at: usize)
    ensures
        final(m)@ == old(m)@.insert(code, at),
{
    m.insert(code, at);
}

/// Per-key statistics. Each distinct key has one entry; the map from key
/// codes gives, for each code, the position of one key with that code, and
/// keys whose codes coincide are told apart by their bytes.
pub struct Table {
    index: CodeIndex,
    names: Vec<Vec<u8>>,
    stats: Vec<Record>,
    model: Ghost<Map<Seq<u8>, Record>>,
}

/// The statistics of `r` with `value` folded in.
pub open spec fn fold_into(m: Map<Seq<u8>, Record>, key: Seq<u8>, value: i32) -> Map<Seq<u8>, Record> {
    let before = if m.contains_key(key) { m[key] } else { Record::empty() };
    m.insert(key, before.added(value))
}

/// The names of `out` are in strictly ascending lexicographic order.
pub open spec fn strictly_sorted(out: Seq<(Vec<u8>, Record)>) -> bool {
    forall|i: int, j: int|
        0 <= i < j < out.len() ==> lex_lt(#[trigger] out[i].0@, #[trigger] out[j].0@)
}

/// Some entry of `out` has the name `k`.
pub open spec fn has_name(out: Seq<(Vec<u8>, Record)>, k: Seq<u8>) -> bool {
    exists|i: int| 0 <= i < out.len() && (#[trigger] out[i]).0@ == k
}

/// `out` lists exactly the entries of `m`, each once, by ascending name.
pub open spec fn lists_sorted(out: Seq<(Vec<u8>, Record)>, m: Map<Seq<u8>, Record>) -> bool {
    &&& strictly_sorted(out)
    &&& forall|i: int| 0 <= i < out.len() ==> #[trigger] m.contains_key(out[i].0@) && m[out[i].0@] == out[i].1
    &&& forall|k: Seq<u8>| #[trigger] m.contains_key(k) ==> has_name(out, k)
}

proof fn lemma_listing_prefix(a: Seq<(Vec<u8>, Record)>, b: Seq<(Vec<u8>, Record)>, m: Map<Seq<u8>, Record>, i: int)
    requires
        lists_sorted(a, m),
        lists_sorted(b, m),
        0 <= i <= a.len(),
        i <= b.len(),
    ensures
        forall|j: int| 0 <= j < i ==> (#[trigger] a[j]).0@ == b[j].0@,
    decreases i,
{
    if i > 0 {
        let p = i - 1;
        lemma_listing_prefix(a, b, m, p);
        assert(m.contains_key(a[p].0@));
        assert(has_name(b, a[p].0@));
        let j = choose|j: int| 0 <= j < b.len() && (#[trigger] b[j]).0@ == a[p].0@;
        if j < p {
            assert(a[j].0@ == b[j].0@);
            assert(lex_lt(a[j].0@, a[p].0@));
            lemma_lex_irreflexive(a[p].0@);
        } else if j > p {
            assert(m.contains_key(b[p].0@));
            assert(has_name(a, b[p].0@));
            let q = choose|q: int| 0 <= q < a.len() && (#[trigger] a[q]).0@ == b[p].0@;
            assert(lex_lt(b[p].0@, b[j].0@));
            if q < p {
                assert(a[q].0@ == b[q].0@);
                assert(lex_lt(b[q].0@, b[p].0@));
                lemma_lex_irreflexive(b[p].0@);
            } else if q == p {
                lemma_lex_irreflexive(b[p].0@);
            } else {
                assert(lex_lt(a[p].0@, a[q].0@));
                lemma_lex_asymmetric(a[p].0@, a[q].0@);
            }
        }
    }
}

/// Two sorted listings of the same entries are the same listing: the order
/// of a report is fixed by its keys alone.
pub proof fn lemma_listing_unique(a: Seq<(Vec<u8>, Record)>, b: Seq<(Vec<u8>, Record)>, m: Map<Seq<u8>, Record>)
    requires
        lists_sorted(a, m),
        lists_sorted(b, m),
    ensures
        a.len() == b.len(),
        forall|j: int| 0 <= j < a.len() ==> (#[trigger] a[j]).0@ == b[j].0@ && a[j].1 == b[j].1,
{
    if a.len() > b.len() {
        lemma_listing_prefix(a, b, m, b.len() as int);
        let p = b.len() as int;
        assert(m.contains_key(a[p].0@));
        let j = choose|j: int| 0 <= j < b.len() && (#[trigger] b[j]).0@ == a[p].0@;
        assert(a[j].0@ == b[j].0@);
        assert(lex_lt(a[j].0@, a[p].0@));
        lemma_lex_irreflexive(a[p].0@);
    } else if b.len() > a.len() {
        lemma_listing_prefix(b, a, m, a.len() as int);
        let p = a.len() as int;
        assert(m.contains_key(b[p].0@));
        let j = choose|j: int| 0 <= j < a.len() && (#[trigger] a[j]).0@ == b[p].0@;
        assert(b[j].0@ == a[j].0@);
        assert(lex_lt(b[j].0@, b[p].0@));
        lemma_lex_irreflexive(b[p].0@);
    }
    lemma_listing_prefix(a, b, m, a.len() as int);
    assert forall|j: int| 0 <= j < a.len() implies (#[trigger] a[j]).0@ == b[j].0@ && a[j].1 == b[j].1 by {
        assert(m.contains_key(a[j].0@));
        assert(m.contains_key(b[j].0@));
    }
}

impl View for Table {
    type V = Map<Seq<u8>, Record>;

    closed spec fn view(&self) -> Map<Seq<u8>, Record> {
        self.model@
    }
}

impl Table {
    pub closed spec fn wf(&self) -> bool {
        &&& self.names@.len() == self.stats@.len()
        &&& forall|i: int, j: int|
            0 <= i < self.names@.len() && 0 <= j < self.names@.len() && i != j
                ==> self.names@[i]@ != self.names@[j]@
        &&& forall|i: int|
            0 <= i < self.names@.len() ==> {
                &&& self.model@.contains_key(#[trigger] self.names@[i]@)
                &&& self.model@[self.names@[i]@] == self.stats@[i]
                &&& self.index@.contains_key(key_code(self.names@[i]@) as u64)
            }
        &&& forall|k: Seq<u8>|
            #[trigger] self.model@.contains_key(k) ==> exists|i: int|
                0 <= i < self.names@.len() && self.names@[i]@ == k
        &&& forall|c: u64| #[trigger] self.index@.contains_key(c) ==> self.index@[c] < self.names@.len()
        &&& forall|k: Seq<u8>| #[trigger] self.model@.contains_key(k) ==> self.model@[k].is_populated()
    }

    /// Every entry of a well-formed table holds at least one value.
    pub proof fn lemma_populated(&self)
        requires
            self.wf(),
        ensures
            forall|k: Seq<u8>| #[trigger] self@.contains_key(k) ==> self@[k].is_populated(),
    {
    }

    /// An empty table.
    pub fn new() -> (r: Table)
        ensures
            r.wf(),
            r@ == Map::<Seq<u8>, Record>::empty(),
    {
        Table { index: index_new(), names: Vec::new(), stats: Vec::new(), model: Ghost(Map::empty()) }
    }

    fn scan(&self, key: &[u8]) -> (r: Option<usize>)
        requires
            self.wf(),
        ensures
            match r {
                Some(i) => i < self.names@.len() && self.names@[i as int]@ == key@,
                None => !self@.contains_key(key@),
            },
    {
        let mut i: usize = 0;
        while i < self.names.len()
            invariant
                self.wf(),
                i <= self.names@.len(),
                forall|j: int| 0 <= j < i ==> self.names@[j]@ != key@,
            decreases self.names@.len() - i,
        {
            if bytes_equal(self.names[i].as_slice(), key) {
                return Some(i);
            }
            i = i + 1;
        }
        None
    }

    /// The position of `key`'s entry, if it has one.
    fn find(&self, key: &[u8], code: u64) -> (r: Option<usize>)
        requires
            self.wf(),
            code == key_code(key@),
        ensures
            match r {
                Some(i) => i < self.names@.len() && self.names@[i as int]@ == key@,
                None => !self@.contains_key(key@),
            },
    {
        match index_get(&self.index, code) {
            Some(i) => {
                if bytes_equal(self.names[i].as_slice(), key) {
                    Some(i)
                } else {
                    self.scan(key)
                }
            },
            None => {
                proof {
                    if self@.contains_key(key@) {
                        let i = choose|i: int| 0 <= i < self.names@.len() && self.names@[i]@ == key@;
                        assert(self.index@.contains_key(key_code(self.names@[i]@) as u64));
                    }
                }
                None
            },
        }
    }

    /// Folds `value` into the statistics of `key`, creating them on first
    /// sight of the key.
    pub fn fold(&mut self, key: &[u8], value: i32)
        requires
            old(self).wf(),
            old(self)@.contains_key(key@) ==> old(self)@[key@].can_add(value as int),
        ensures
            final(self).wf(),
            final(self)@ == fold_into(old(self)@, key@, value),
    {
        let code = to_key(key);
        match self.find(key, code) {
            Some(i) => {
                let mut r = self.stats[i];
                proof {
                    crate::record::lemma_added_populated(r, value);
                }
                r.add(value);
                self.stats.set(i, r);
                self.model = Ghost(self.model@.insert(key@, r));
                assert(self@ == fold_into(old(self)@, key@, value));
            },
            None => {
                let mut r = Record::default();
                proof {
                    crate::record::lemma_added_populated(r, value);
                }
                r.add(value);
                let at = self.names.len();
                let had_code = index_get(&self.index, code).is_some();
                self.names.push(vstd::slice::slice_to_vec(key));
                self.stats.push(r);
                if !had_code {
                    index_insert(&mut self.index, code, at);
                }
                self.model = Ghost(self.model@.insert(key@, r));
                assert(self@ == fold_into(old(self)@, key@, value));
                assert forall|k: Seq<u8>| #[trigger] self.model@.contains_key(k) implies exists|i: int|
                    0 <= i < self.names@.len() && self.names@[i]@ == k by {
                    if k != key@ {
                        let j = choose|j: int| 0 <= j < old(self).names@.len() && old(self).names@[j]@ == k;
                        assert(self.names@[j]@ == k);
                    } else {
                        assert(self.names@[at as int]@ == k);
                    }
                }
            },
        }
    }
    /// All entries, each with its key, by ascending lexicographic order of
    /// the keys' bytes. The table is used up.
    pub fn drain_sorted(self) -> (r: Vec<(Vec<u8>, Record)>)
        requires
            self.wf(),
        ensures
            lists_sorted(r@, self@),
    {
        let mut out: Vec<(Vec<u8>, Record)> = Vec::new();
        let mut i: usize = 0;
        while i < self.names.len()
            invariant
                self.wf(),
                i <= self.names@.len(),
                strictly_sorted(out@),
                forall|q: int|
                    0 <= q < out@.len() ==> exists|j: int|
                        0 <= j < i && (#[trigger] out@[q]).0@ == self.names@[j]@ && out@[q].1
                            == self.stats@[j],
                forall|j: int| 0 <= j < i ==> has_name(out@, #[trigger] self.names@[j]@),
            decreases self.names@.len() - i,
        {
            let name = vstd::slice::slice_to_vec(self.names[i].as_slice());
            let stat = self.stats[i];
            let mut p: usize = 0;
            while p < out.len() && bytes_less(out[p].0.as_slice(), name.as_slice())
                invariant
                    p <= out@.len(),
                    forall|q: int| 0 <= q < p ==> lex_lt((#[trigger] out@[q]).0@, name@),
                decreases out@.len() - p,
            {
                p = p + 1;
            }
            proof {
                assert forall|q: int| 0 <= q < out@.len() implies (#[trigger] out@[q]).0@ != name@ by {
                    let j = choose|j: int|
                        0 <= j < i && out@[q].0@ == self.names@[j]@ && out@[q].1 == self.stats@[j];
                    assert(self.names@[j]@ != self.names@[i as int]@);
                }
                assert forall|q: int| p <= q < out@.len() implies lex_lt(name@, (#[trigger] out@[q]).0@) by {
                    lemma_lex_total(name@, out@[p as int].0@);
                    if q > p {
                        lemma_lex_transitive(name@, out@[p as int].0@, out@[q].0@);
                    }
                }
            }
            let ghost before = out@;
            out.insert(p, (name, stat));
            proof {
                assert forall|a: int, b: int| 0 <= a < b < out@.len() implies lex_lt(
                    #[trigger] out@[a].0@,
                    #[trigger] out@[b].0@,
                ) by {
                    if b < p {
                    } else if b == p {
                    } else if a < p {
                        assert(out@[b] == before[b - 1]);
                        lemma_lex_transitive(out@[a].0@, name@, out@[b].0@);
                    } else if a == p {
                        assert(out@[b] == before[b - 1]);
                    } else {
                        assert(out@[a] == before[a - 1]);
                        assert(out@[b] == before[b - 1]);
                    }
                }
                assert forall|q: int|
                    0 <= q < out@.len() implies exists|j: int|
                        0 <= j < i + 1 && (#[trigger] out@[q]).0@ == self.names@[j]@ && out@[q].1
                            == self.stats@[j] by {
                    if q < p {
                        assert(out@[q] == before[q]);
                    } else if q == p {
                        assert(out@[q].0@ == self.names@[i as int]@);
                    } else {
                        assert(out@[q] == before[q - 1]);
                    }
                }
                assert forall|j: int| 0 <= j < i + 1 implies has_name(out@, #[trigger] self.names@[j]@) by {
                    if j == i {
                        assert(out@[p as int].0@ == self.names@[j]@);
                    } else {
                        let q = choose|q: int| 0 <= q < before.len() && (#[trigger] before[q]).0@ == self.names@[j]@;
                        if q < p {
                            assert(out@[q] == before[q]);
                        } else {
                            assert(out@[q + 1] == before[q]);
                        }
                    }
                }
            }
            i = i + 1;
        }
        proof {
            assert forall|k: Seq<u8>| #[trigger] self@.contains_key(k) implies has_name(out@, k) by {
                let j = choose|j: int| 0 <= j < self.names@.len() && self.names@[j]@ == k;
                assert(has_name(out@, self.names@[j]@));
            }
            assert forall|q: int| 0 <= q < out@.len() implies #[trigger] self@.contains_key(out@[q].0@)
                && self@[out@[q].0@] == out@[q].1 by {
                let j = choose|j: int|
                    0 <= j < i && out@[q].0@ == self.names@[j]@ && out@[q].1 == self.stats@[j];
            }
        }
        out
    }
}

} // verus!
