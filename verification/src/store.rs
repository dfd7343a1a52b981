//! An ordered byte-keyed store: the flat key-value space that all
//! containers share.
//!
//! The store maps byte keys to byte values (its view is a
//! `Map<Seq<u8>, Seq<u8>>`) and keeps its entries sorted by the
//! lexicographic byte order, so that `pairs` can enumerate a half-open key
//! range in ascending order.

use crate::order::bytes_eq;
use crate::order::bytes_lt;
use crate::order::copy_bytes;
use crate::order::lemma_lex_lt_asym;
use crate::order::lemma_lex_lt_irrefl;
use crate::order::lemma_lex_lt_total;
use crate::order::lemma_lex_lt_trans;
use crate::order::lex_lt;
use vstd::prelude::*;

verus! {

/// First-match lookup of a key in a sequence of (key, value) pairs.
pub open spec fn assoc_lookup(c: Seq<(Seq<u8>, Seq<u8>)>, k: Seq<u8>) -> Option<Seq<u8>>
    decreases c.len(),
{
    if c.len() == 0 {
        None
    } else if c[0].0 == k {
        Some(c[0].1)
    } else {
        assoc_lookup(c.skip(1), k)
    }
}

/// The view of an optional byte-slice range bound.
pub open spec fn opt_bytes(o: Option<&[u8]>) -> Option<Seq<u8>> {
    match o {
        Some(s) => Some(s@),
        None => None,
    }
}

/// Whether key `k` lies in the half-open range `[start, end)`; a missing
/// bound is unbounded on that side.
pub open spec fn in_range(start: Option<Seq<u8>>, end: Option<Seq<u8>>, k: Seq<u8>) -> bool {
    &&& match start {
        Some(s) => !lex_lt(k, s),
        None => true,
    }
    &&& match end {
        Some(e) => lex_lt(k, e),
        None => true,
    }
}

/// The keys of `c`, read off pairwise, sorted strictly ascending.
pub open spec fn keys_sorted(c: Seq<(Seq<u8>, Seq<u8>)>) -> bool {
    forall|i: int, j: int|
        0 <= i < j < c.len() ==> lex_lt((#[trigger] c[i]).0, (#[trigger] c[j]).0)
}

/// The element-wise view of a vector of owned (key, value) pairs.
pub open spec fn entries_view(es: Seq<(Vec<u8>, Vec<u8>)>) -> Seq<(Seq<u8>, Seq<u8>)> {
    Seq::new(es.len(), |i: int| (es[i].0@, es[i].1@))
}

proof fn lemma_lookup_absent(c: Seq<(Seq<u8>, Seq<u8>)>, k: Seq<u8>)
    requires
        forall|i: int| 0 <= i < c.len() ==> (#[trigger] c[i]).0 != k,
    ensures
        assoc_lookup(c, k) is None,
    decreases c.len(),
{
    if c.len() > 0 {
        assert(forall|i: int| 0 <= i < c.skip(1).len() ==> (#[trigger] c.skip(1)[i]).0 != k);
        lemma_lookup_absent(c.skip(1), k);
    }
}

proof fn lemma_lookup_found(c: Seq<(Seq<u8>, Seq<u8>)>, k: Seq<u8>, i: int)
    requires
        0 <= i < c.len(),
        c[i].0 == k,
        forall|j: int| 0 <= j < i ==> (#[trigger] c[j]).0 != k,
    ensures
        assoc_lookup(c, k) == Some(c[i].1),
    decreases i,
{
    if i > 0 {
        assert(c.skip(1)[i - 1] == c[i]);
        assert(forall|j: int| 0 <= j < i - 1 ==> (#[trigger] c.skip(1)[j]).0 != k);
        lemma_lookup_found(c.skip(1), k, i - 1);
    }
}

proof fn lemma_lookup_some_exists(c: Seq<(Seq<u8>, Seq<u8>)>, k: Seq<u8>)
    requires
        assoc_lookup(c, k) is Some,
    ensures
        exists|i: int|
            0 <= i < c.len() && (#[trigger] c[i]).0 == k && c[i].1 == assoc_lookup(c, k)->Some_0,
    decreases c.len(),
{
    if c.len() > 0 && c[0].0 != k {
        lemma_lookup_some_exists(c.skip(1), k);
        let i = choose|i: int|
            0 <= i < c.skip(1).len() && (#[trigger] c.skip(1)[i]).0 == k && c.skip(1)[i].1
                == assoc_lookup(c.skip(1), k)->Some_0;
        assert(c[i + 1] == c.skip(1)[i]);
    }
}

proof fn lemma_lookup_insert_other(
    c: Seq<(Seq<u8>, Seq<u8>)>,
    i: int,
    e: (Seq<u8>, Seq<u8>),
    k: Seq<u8>,
)
    requires
        0 <= i <= c.len(),
        k != e.0,
    ensures
        assoc_lookup(c.insert(i, e), k) == assoc_lookup(c, k),
    decreases i,
{
    let nc = c.insert(i, e);
    if i == 0 {
        assert(nc[0] == e);
        assert(nc.skip(1) =~= c);
    } else {
        assert(nc[0] == c[0]);
        if c[0].0 != k {
            assert(nc.skip(1) =~= c.skip(1).insert(i - 1, e));
            lemma_lookup_insert_other(c.skip(1), i - 1, e, k);
        }
    }
}

proof fn lemma_lookup_remove_other(c: Seq<(Seq<u8>, Seq<u8>)>, i: int, k: Seq<u8>)
    requires
        0 <= i < c.len(),
        k != c[i].0,
    ensures
        assoc_lookup(c.remove(i), k) == assoc_lookup(c, k),
    decreases i,
{
    let nc = c.remove(i);
    if i == 0 {
        assert(nc =~= c.skip(1));
    } else {
        assert(nc[0] == c[0]);
        if c[0].0 != k {
            assert(nc.skip(1) =~= c.skip(1).remove(i - 1));
            assert(c.skip(1)[i - 1] == c[i]);
            lemma_lookup_remove_other(c.skip(1), i - 1, k);
        }
    }
}

/// In a sorted pair sequence, if everything before `i` is below `key` and
/// position `i` (when it exists) is above it, then `key` is absent.
proof fn lemma_lookup_absent_sorted(c: Seq<(Seq<u8>, Seq<u8>)>, key: Seq<u8>, i: int)
    requires
        keys_sorted(c),
        0 <= i <= c.len(),
        forall|j: int| 0 <= j < i ==> lex_lt((#[trigger] c[j]).0, key),
        i < c.len() ==> !lex_lt(c[i].0, key) && c[i].0 != key,
    ensures
        assoc_lookup(c, key) is None,
{
    assert forall|j: int| 0 <= j < c.len() implies (#[trigger] c[j]).0 != key by {
        lemma_lex_lt_irrefl(key);
        if j >= i {
            lemma_lex_lt_total(c[i].0, key);
            if j > i {
                assert(lex_lt(c[i].0, c[j].0));
            }
            lemma_lex_lt_trans(key, c[i].0, c[j].0);
            lemma_lex_lt_asym(c[j].0, key);
        }
    }
    lemma_lookup_absent(c, key);
}

/// The ordered byte-keyed store.
pub struct Store {
    entries: Vec<(Vec<u8>, Vec<u8>)>,
}

impl View for Store {
    type V = Map<Seq<u8>, Seq<u8>>;

    closed spec fn view(&self) -> Map<Seq<u8>, Seq<u8>> {
        Map::new(
            |k: Seq<u8>| assoc_lookup(self.contents(), k) is Some,
            |k: Seq<u8>| assoc_lookup(self.contents(), k)->Some_0,
        )
    }
}

impl Store {
    spec fn contents(self) -> Seq<(Seq<u8>, Seq<u8>)> {
        entries_view(self.entries@)
    }

    #[verifier::type_invariant]
    spec fn wf(self) -> bool {
        keys_sorted(self.contents())
    }

    /// In a well-formed store keys are pairwise distinct, so every entry of
    /// `contents` is a pair of the map view.
    proof fn lemma_view_entry(self, i: int)
        requires
            self.wf(),
            0 <= i < self.contents().len(),
        ensures
            self@.contains_pair(self.contents()[i].0, self.contents()[i].1),
    {
        let c = self.contents();
        assert forall|j: int| 0 <= j < i implies (#[trigger] c[j]).0 != c[i].0 by {
            lemma_lex_lt_irrefl(c[i].0);
            lemma_lex_lt_asym(c[j].0, c[i].0);
        }
        lemma_lookup_found(c, c[i].0, i);
    }

    /// A new, empty store.
    pub fn new() -> (r: Store)
        ensures
            r@ == Map::<Seq<u8>, Seq<u8>>::empty(),
    {
        let r = Store { entries: Vec::new() };
        proof {
            assert(r@ =~= Map::<Seq<u8>, Seq<u8>>::empty());
        }
        r
    }

    /// The first index whose key does not sort strictly before `key`;
    /// the length when every key does.
    fn find(&self, key: &[u8]) -> (i: usize)
        ensures
            0 <= i <= self.entries@.len(),
            forall|j: int| 0 <= j < i ==> lex_lt((#[trigger] self.contents()[j]).0, key@),
            i < self.entries@.len() ==> !lex_lt(self.contents()[i as int].0, key@),
    {
        let n = self.entries.len();
        let mut i: usize = 0;
        while i < n
            invariant
                0 <= i <= n,
                n == self.entries@.len(),
                forall|j: int| 0 <= j < i ==> lex_lt((#[trigger] self.contents()[j]).0, key@),
            decreases n - i,
        {
            let e = &self.entries[i];
            if !bytes_lt(e.0.as_slice(), key) {
                return i;
            }
            assert(self.contents()[i as int].0 == e.0@);
            i = i + 1;
        }
        i
    }

    /// Read the value stored at exactly `key`, if any.
    pub fn get(&self, key: &[u8]) -> (r: Option<Vec<u8>>)
        ensures
            match r {
                Some(v) => self@.contains_key(key@) && self@[key@] == v@,
                None => !self@.contains_key(key@),
            },
    {
        proof {
            use_type_invariant(&*self);
        }
        let i = self.find(key);
        let ghost c = self.contents();
        proof {
            assert forall|j: int| 0 <= j < i implies (#[trigger] c[j]).0 != key@ by {
                lemma_lex_lt_irrefl(key@);
            }
        }
        if i < self.entries.len() {
            let e = &self.entries[i];
            if bytes_eq(e.0.as_slice(), key) {
                proof {
                    assert(c[i as int].0 == key@);
                    lemma_lookup_found(c, key@, i as int);
                }
                return Some(copy_bytes(e.1.as_slice()));
            }
            proof {
                assert(c[i as int].0 == e.0@);
                lemma_lookup_absent_sorted(c, key@, i as int);
            }
            return None;
        }
        proof {
            lemma_lookup_absent_sorted(c, key@, i as int);
        }
        None
    }

    /// Store `value` at exactly `key`, overwriting any previous value.
    pub fn set(&mut self, key: &[u8], value: &[u8])
        ensures
            final(self)@ == old(self)@.insert(key@, value@),
    {
        proof {
            use_type_invariant(&*self);
        }
        let ghost c = self.contents();
        let i = self.find(key);
        proof {
            assert forall|j: int| 0 <= j < i implies (#[trigger] c[j]).0 != key@ by {
                lemma_lex_lt_irrefl(key@);
            }
        }
        let mut entries: Vec<(Vec<u8>, Vec<u8>)> = Vec::new();
        core::mem::swap(&mut entries, &mut self.entries);
        let mut replaced = false;
        if i < entries.len() {
            if bytes_eq(entries[i].0.as_slice(), key) {
                entries.remove(i);
                replaced = true;
            }
        }
        let ghost mid = entries_view(entries@);
        proof {
            if replaced {
                assert(mid =~= c.remove(i as int));
            } else {
                assert(mid =~= c);
            }
            // Everything before `i` is below `key`; everything at or after
            // `i` in `mid` is above it.
            assert forall|j: int| i <= j < mid.len() implies lex_lt(
                key@,
                (#[trigger] mid[j]).0,
            ) by {
                if replaced {
                    assert(mid[j] == c[j + 1]);
                    assert(c[i as int].0 == key@);
                    assert(lex_lt(c[i as int].0, c[j + 1].0));
                } else {
                    lemma_lex_lt_total(c[i as int].0, key@);
                    if j > i {
                        assert(lex_lt(c[i as int].0, c[j].0));
                        lemma_lex_lt_trans(key@, c[i as int].0, c[j].0);
                    }
                }
            }
        }
        let new_entry = (copy_bytes(key), copy_bytes(value));
        entries.insert(i, new_entry);
        let ghost nc = entries_view(entries@);
        proof {
            assert(nc =~= mid.insert(i as int, (key@, value@)));
            assert forall|a: int, b: int| 0 <= a < b < nc.len() implies lex_lt(
                (#[trigger] nc[a]).0,
                (#[trigger] nc[b]).0,
            ) by {
                if a < i {
                    assert(nc[a] == mid[a] && mid[a] == c[a]);
                }
                if b < i {
                    assert(nc[b] == mid[b] && mid[b] == c[b]);
                }
                if a > i {
                    assert(nc[a] == mid[a - 1]);
                }
                if b > i {
                    assert(nc[b] == mid[b - 1]);
                }
                if a < i && b > i {
                    lemma_lex_lt_trans(nc[a].0, key@, nc[b].0);
                }
                if replaced {
                    if a > i && b > i {
                        assert(mid[a - 1] == c[a] && mid[b - 1] == c[b]);
                    }
                }
            }
            assert(keys_sorted(nc));
        }
        self.entries = entries;
        proof {
            assert(self.contents() == nc);
            // The view gained exactly the binding `key |-> value`.
            assert forall|j: int| 0 <= j < i implies (#[trigger] nc[j]).0 != key@ by {
                lemma_lex_lt_irrefl(key@);
            }
            lemma_lookup_found(nc, key@, i as int);
            assert forall|k: Seq<u8>| k != key@ implies assoc_lookup(nc, k) == assoc_lookup(
                c,
                k,
            ) by {
                lemma_lookup_insert_other(mid, i as int, (key@, value@), k);
                if replaced {
                    lemma_lookup_remove_other(c, i as int, k);
                }
            }
            assert(self@ =~= old(self)@.insert(key@, value@));
        }
    }

    /// Delete the entry at exactly `key`; removing an absent key changes
    /// nothing.
    pub fn remove(&mut self, key: &[u8])
        ensures
            final(self)@ == old(self)@.remove(key@),
    {
        proof {
            use_type_invariant(&*self);
        }
        let ghost c = self.contents();
        let i = self.find(key);
        proof {
            assert forall|j: int| 0 <= j < i implies (#[trigger] c[j]).0 != key@ by {
                lemma_lex_lt_irrefl(key@);
            }
        }
        let mut present = false;
        if i < self.entries.len() {
            present = bytes_eq(self.entries[i].0.as_slice(), key);
        }
        if !present {
            proof {
                lemma_lookup_absent_sorted(c, key@, i as int);
                assert(self@ =~= old(self)@.remove(key@));
            }
            return ;
        }
        let mut entries: Vec<(Vec<u8>, Vec<u8>)> = Vec::new();
        core::mem::swap(&mut entries, &mut self.entries);
        entries.remove(i);
        let ghost nc = entries_view(entries@);
        proof {
            assert(nc =~= c.remove(i as int));
            assert forall|a: int, b: int| 0 <= a < b < nc.len() implies lex_lt(
                (#[trigger] nc[a]).0,
                (#[trigger] nc[b]).0,
            ) by {
                if a >= i {
                    assert(nc[a] == c[a + 1]);
                }
                if b >= i {
                    assert(nc[b] == c[b + 1]);
                }
            }
            assert(keys_sorted(nc));
        }
        self.entries = entries;
        proof {
            assert(self.contents() == nc);
            assert forall|j: int| 0 <= j < nc.len() implies (#[trigger] nc[j]).0 != key@ by {
                lemma_lex_lt_irrefl(key@);
                if j >= i {
                    assert(nc[j] == c[j + 1]);
                    assert(lex_lt(c[i as int].0, c[j + 1].0));
                    lemma_lex_lt_asym(key@, nc[j].0);
                }
            }
            lemma_lookup_absent(nc, key@);
            assert forall|k: Seq<u8>| k != key@ implies assoc_lookup(nc, k) == assoc_lookup(
                c,
                k,
            ) by {
                lemma_lookup_remove_other(c, i as int, k);
            }
            assert(self@ =~= old(self)@.remove(key@));
        }
    }

    /// All entries whose key lies in the half-open range `[start, end)`,
    /// in ascending byte order of their keys; a missing bound leaves that
    /// side of the range open.
    pub fn pairs(&self, start: Option<&[u8]>, end: Option<&[u8]>) -> (r: Vec<(Vec<u8>, Vec<u8>)>)
        ensures
            forall|m1: int, m2: int|
                0 <= m1 < m2 < r@.len() ==> lex_lt((#[trigger] r@[m1]).0@, (#[trigger] r@[m2]).0@),
            forall|m: int|
                0 <= m < r@.len() ==> self@.contains_pair((#[trigger] r@[m]).0@, r@[m].1@)
                    && in_range(opt_bytes(start), opt_bytes(end), r@[m].0@),
            forall|k: Seq<u8>, v: Seq<u8>|
                #[trigger] self@.contains_pair(k, v) && in_range(opt_bytes(start), opt_bytes(end), k)
                    ==> exists|m: int| 0 <= m < r@.len() && (#[trigger] r@[m]).0@ == k && r@[m].1@ == v,
    {
        proof {
            use_type_invariant(&*self);
        }
        let ghost c = self.contents();
        let n = self.entries.len();
        let mut r: Vec<(Vec<u8>, Vec<u8>)> = Vec::new();
        let ghost mut idxs: Seq<int> = Seq::empty();
        let mut i: usize = 0;
        while i < n
            invariant
                0 <= i <= n,
                n == self.entries@.len(),
                c == self.contents(),
                keys_sorted(c),
                idxs.len() == r@.len(),
                forall|m: int| 0 <= m < idxs.len() ==> 0 <= #[trigger] idxs[m] < i,
                forall|m1: int, m2: int| 0 <= m1 < m2 < idxs.len() ==> idxs[m1] < idxs[m2],
                forall|m: int|
                    0 <= m < idxs.len() ==> (#[trigger] r@[m]).0@ == c[idxs[m]].0 && r@[m].1@
                        == c[idxs[m]].1 && in_range(opt_bytes(start), opt_bytes(end), c[idxs[m]].0),
                forall|j: int|
                    0 <= j < i && in_range(opt_bytes(start), opt_bytes(end), (#[trigger] c[j]).0)
                        ==> exists|m: int| 0 <= m < idxs.len() && #[trigger] idxs[m] == j,
            decreases n - i,
        {
            let e = &self.entries[i];
            proof {
                assert(c[i as int] == (e.0@, e.1@));
            }
            let after_start = match start {
                Some(s) => !bytes_lt(e.0.as_slice(), s),
                None => true,
            };
            let before_end = match end {
                Some(e2) => bytes_lt(e.0.as_slice(), e2),
                None => true,
            };
            proof {
                assert(in_range(opt_bytes(start), opt_bytes(end), c[i as int].0) == (after_start
                    && before_end));
            }
            if after_start && before_end {
                r.push((copy_bytes(e.0.as_slice()), copy_bytes(e.1.as_slice())));
                let ghost prev = idxs;
                proof {
                    idxs = idxs.push(i as int);
                    assert forall|m: int|
                        0 <= m < idxs.len() implies (#[trigger] r@[m]).0@ == c[idxs[m]].0
                        && r@[m].1@ == c[idxs[m]].1 && in_range(
                        opt_bytes(start),
                        opt_bytes(end),
                        c[idxs[m]].0,
                    ) by {
                        if m < idxs.len() - 1 {
                            assert(idxs[m] == prev[m]);
                        } else {
                            assert(idxs[m] == i as int);
                            assert(r@[m] == r@.last());
                        }
                    }
                    assert forall|j: int|
                        0 <= j < i + 1 && in_range(
                            opt_bytes(start),
                            opt_bytes(end),
                            (#[trigger] c[j]).0,
                        ) implies exists|m: int| 0 <= m < idxs.len() && #[trigger] idxs[m] == j by {
                        if j < i {
                            let m = choose|m: int| 0 <= m < prev.len() && #[trigger] prev[m] == j;
                            assert(idxs[m] == j);
                        } else {
                            assert(idxs[idxs.len() - 1] == i);
                        }
                    }
                }
            }
            i = i + 1;
        }
        proof {
            assert forall|m: int|
                0 <= m < r@.len() implies self@.contains_pair((#[trigger] r@[m]).0@, r@[m].1@)
                && in_range(opt_bytes(start), opt_bytes(end), r@[m].0@) by {
                self.lemma_view_entry(idxs[m]);
            }
            assert forall|k: Seq<u8>, v: Seq<u8>|
                #[trigger] self@.contains_pair(k, v) && in_range(
                    opt_bytes(start),
                    opt_bytes(end),
                    k,
                ) implies exists|m: int|
                0 <= m < r@.len() && (#[trigger] r@[m]).0@ == k && r@[m].1@ == v by {
                lemma_lookup_some_exists(c, k);
                let j = choose|j: int|
                    0 <= j < c.len() && (#[trigger] c[j]).0 == k && c[j].1 == assoc_lookup(
                        c,
                        k,
                    )->Some_0;
                assert(in_range(opt_bytes(start), opt_bytes(end), c[j].0));
                let m = choose|m: int| 0 <= m < idxs.len() && #[trigger] idxs[m] == j;
                assert(r@[m].0@ == k && r@[m].1@ == v);
            }
        }
        r
    }
}

} // verus!
