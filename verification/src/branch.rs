//! A namespace branch: a view of the store scoped to one byte prefix.
//!
//! Every key a branch touches is `prefix ++ suffix`; `pairs` hands back
//! relative keys with the prefix already stripped, so containers never see
//! their absolute position in the store.

use crate::order::bytes_lt;
use crate::order::bytes_starts_with;
use crate::order::concat_bytes;
use crate::order::copy_bytes;
use crate::order::is_prefix_of;
use crate::order::lemma_concat_parts;
use crate::order::lemma_disjoint_prefixes;
use crate::order::lemma_lex_lt_prepend;
use crate::order::lemma_prefix_split;
use crate::order::lex_lt;
use crate::store::in_range;
use crate::store::opt_bytes;
use crate::store::Store;
use vstd::prelude::*;

verus! {

/// A store view scoped to one byte prefix. Its view is that prefix.
pub struct StorageBranch {
    prefix: Vec<u8>,
}

impl View for StorageBranch {
    type V = Seq<u8>;

    closed spec fn view(&self) -> Seq<u8> {
        self.prefix@
    }
}

impl StorageBranch {
    /// A branch over all keys that extend `prefix`.
    pub fn new(prefix: Vec<u8>) -> (r: StorageBranch)
        ensures
            r@ == prefix@,
    {
        StorageBranch { prefix }
    }

    /// A branch one level deeper: its prefix extends this one by `suffix`.
    pub fn child(&self, suffix: &[u8]) -> (r: StorageBranch)
        ensures
            r@ == self@ + suffix@,
    {
        StorageBranch { prefix: concat_bytes(self.prefix.as_slice(), suffix) }
    }

    /// Read the value under the relative key `key`, if any.
    pub fn get(&self, store: &Store, key: &[u8]) -> (r: Option<Vec<u8>>)
        ensures
            match r {
                Some(v) => store@.contains_key(self@ + key@) && store@[self@ + key@] == v@,
                None => !store@.contains_key(self@ + key@),
            },
    {
        let full = concat_bytes(self.prefix.as_slice(), key);
        store.get(full.as_slice())
    }

    /// Write `value` under the relative key `key`.
    pub fn set(&self, store: &mut Store, key: &[u8], value: &[u8])
        ensures
            final(store)@ == old(store)@.insert(self@ + key@, value@),
    {
        let full = concat_bytes(self.prefix.as_slice(), key);
        store.set(full.as_slice(), value);
    }

    /// Delete the entry under the relative key `key`; removing an absent
    /// key changes nothing.
    pub fn remove(&self, store: &mut Store, key: &[u8])
        ensures
            final(store)@ == old(store)@.remove(self@ + key@),
    {
        let full = concat_bytes(self.prefix.as_slice(), key);
        store.remove(full.as_slice());
    }

    /// All entries of the store whose key extends this branch's prefix with
    /// a suffix in the half-open range `[start, end)`, in ascending byte
    /// order, with the prefix stripped off each returned key.
    pub fn pairs(&self, store: &Store, start: Option<&[u8]>, end: Option<&[u8]>) -> (r: Vec<
        (Vec<u8>, Vec<u8>),
    >)
        ensures
            forall|m1: int, m2: int|
                0 <= m1 < m2 < r@.len() ==> lex_lt((#[trigger] r@[m1]).0@, (#[trigger] r@[m2]).0@),
            forall|m: int|
                0 <= m < r@.len() ==> store@.contains_pair(self@ + (#[trigger] r@[m]).0@, r@[m].1@)
                    && in_range(opt_bytes(start), opt_bytes(end), r@[m].0@),
            forall|s: Seq<u8>, v: Seq<u8>|
                #[trigger] store@.contains_pair(self@ + s, v) && in_range(
                    opt_bytes(start),
                    opt_bytes(end),
                    s,
                ) ==> exists|m: int| 0 <= m < r@.len() && (#[trigger] r@[m]).0@ == s && r@[m].1@ == v,
    {
        let raw = store.pairs(None, None);
        let ghost p = self.prefix@;
        let n = raw.len();
        let mut r: Vec<(Vec<u8>, Vec<u8>)> = Vec::new();
        let ghost mut idxs: Seq<int> = Seq::empty();
        let mut i: usize = 0;
        while i < n
            invariant
                0 <= i <= n,
                n == raw@.len(),
                p == self@,
                forall|m1: int, m2: int|
                    0 <= m1 < m2 < raw@.len() ==> lex_lt(
                        (#[trigger] raw@[m1]).0@,
                        (#[trigger] raw@[m2]).0@,
                    ),
                forall|m: int|
                    0 <= m < raw@.len() ==> store@.contains_pair(
                        (#[trigger] raw@[m]).0@,
                        raw@[m].1@,
                    ),
                forall|k: Seq<u8>, v: Seq<u8>|
                    #[trigger] store@.contains_pair(k, v) ==> exists|m: int|
                        0 <= m < raw@.len() && (#[trigger] raw@[m]).0@ == k && raw@[m].1@ == v,
                idxs.len() == r@.len(),
                forall|m: int| 0 <= m < idxs.len() ==> 0 <= #[trigger] idxs[m] < i,
                forall|m1: int, m2: int| 0 <= m1 < m2 < idxs.len() ==> idxs[m1] < idxs[m2],
                forall|m: int|
                    0 <= m < idxs.len() ==> is_prefix_of(p, raw@[#[trigger] idxs[m]].0@) && r@[m].0@
                        == raw@[idxs[m]].0@.skip(p.len() as int) && r@[m].1@ == raw@[idxs[m]].1@
                        && in_range(opt_bytes(start), opt_bytes(end), r@[m].0@),
                forall|j: int|
                    0 <= j < i && is_prefix_of(p, (#[trigger] raw@[j]).0@) && in_range(
                        opt_bytes(start),
                        opt_bytes(end),
                        raw@[j].0@.skip(p.len() as int),
                    ) ==> exists|m: int| 0 <= m < idxs.len() && #[trigger] idxs[m] == j,
            decreases n - i,
        {
            let e = &raw[i];
            if bytes_starts_with(e.0.as_slice(), self.prefix.as_slice()) {
                let suffix = vstd::slice::slice_subrange(e.0.as_slice(), self.prefix.len(), e.0.len());
                proof {
                    assert(suffix@ == raw@[i as int].0@.skip(p.len() as int));
                }
                let after_start = match start {
                    Some(s) => !bytes_lt(suffix, s),
                    None => true,
                };
                let before_end = match end {
                    Some(e2) => bytes_lt(suffix, e2),
                    None => true,
                };
                if after_start && before_end {
                    let ghost prev_r = r@;
                    r.push((copy_bytes(suffix), copy_bytes(e.1.as_slice())));
                    let ghost prev = idxs;
                    proof {
                        idxs = idxs.push(i as int);
                        assert forall|m: int|
                            0 <= m < idxs.len() implies is_prefix_of(
                            p,
                            raw@[#[trigger] idxs[m]].0@,
                        ) && r@[m].0@ == raw@[idxs[m]].0@.skip(p.len() as int) && r@[m].1@
                            == raw@[idxs[m]].1@ && in_range(
                            opt_bytes(start),
                            opt_bytes(end),
                            r@[m].0@,
                        ) by {
                            if m < idxs.len() - 1 {
                                assert(idxs[m] == prev[m]);
                                assert(r@[m] == prev_r[m]);
                            } else {
                                assert(idxs[m] == i as int);
                                assert(r@[m] == r@.last());
                                assert(r@[m].0@ == suffix@);
                            }
                        }
                        assert forall|j: int|
                            0 <= j < i + 1 && is_prefix_of(p, (#[trigger] raw@[j]).0@) && in_range(
                                opt_bytes(start),
                                opt_bytes(end),
                                raw@[j].0@.skip(p.len() as int),
                            ) implies exists|m: int|
                            0 <= m < idxs.len() && #[trigger] idxs[m] == j by {
                            if j < i {
                                let m = choose|m: int|
                                    0 <= m < prev.len() && #[trigger] prev[m] == j;
                                assert(idxs[m] == j);
                            } else {
                                assert(idxs[idxs.len() - 1] == i);
                            }
                        }
                    }
                }
            }
            i = i + 1;
        }
        proof {
            assert forall|m1: int, m2: int| 0 <= m1 < m2 < r@.len() implies lex_lt(
                (#[trigger] r@[m1]).0@,
                (#[trigger] r@[m2]).0@,
            ) by {
                let k1 = raw@[idxs[m1]].0@;
                let k2 = raw@[idxs[m2]].0@;
                lemma_prefix_split(p, k1);
                lemma_prefix_split(p, k2);
                lemma_lex_lt_prepend(p, k1.skip(p.len() as int), k2.skip(p.len() as int));
            }
            assert forall|m: int|
                0 <= m < r@.len() implies store@.contains_pair(
                self@ + (#[trigger] r@[m]).0@,
                r@[m].1@,
            ) && in_range(opt_bytes(start), opt_bytes(end), r@[m].0@) by {
                lemma_prefix_split(p, raw@[idxs[m]].0@);
            }
            assert forall|s: Seq<u8>, v: Seq<u8>|
                #[trigger] store@.contains_pair(self@ + s, v) && in_range(
                    opt_bytes(start),
                    opt_bytes(end),
                    s,
                ) implies exists|m: int|
                0 <= m < r@.len() && (#[trigger] r@[m]).0@ == s && r@[m].1@ == v by {
                let j = choose|j: int|
                    0 <= j < raw@.len() && (#[trigger] raw@[j]).0@ == p + s && raw@[j].1@ == v;
                lemma_concat_parts(p, s);
                let m = choose|m: int| 0 <= m < idxs.len() && #[trigger] idxs[m] == j;
                assert(r@[m].0@ == s && r@[m].1@ == v);
            }
        }
        r
    }
}

/// Sibling branches whose prefixes do not extend one another cover disjoint
/// parts of the key space: no write through one is ever visible through the
/// other, whatever relative keys are used.
pub proof fn lemma_namespace_disjoint(
    m: Map<Seq<u8>, Seq<u8>>,
    p1: Seq<u8>,
    p2: Seq<u8>,
    k1: Seq<u8>,
    k2: Seq<u8>,
    v: Seq<u8>,
)
    requires
        !is_prefix_of(p1, p2),
        !is_prefix_of(p2, p1),
    ensures
        m.insert(p1 + k1, v).contains_key(p2 + k2) == m.contains_key(p2 + k2),
        m.insert(p1 + k1, v).contains_key(p2 + k2) ==> m.insert(p1 + k1, v)[p2 + k2] == m[p2 + k2],
        m.remove(p1 + k1).contains_key(p2 + k2) == m.contains_key(p2 + k2),
        m.remove(p1 + k1).contains_key(p2 + k2) ==> m.remove(p1 + k1)[p2 + k2] == m[p2 + k2],
{
    lemma_disjoint_prefixes(p1, p2, k1, k2);
}

} // verus!
