//! Ordered column-family state and pending write sets.
//!
//! A column family holds its entries as a vector sorted strictly by key; a
//! write set holds the pending operations of one transaction on one column
//! family, also sorted by key, with `Some` bytes for a put and `None` for a
//! delete.  Specifications view both as maps from key to value.

use vstd::prelude::*;

use crate::keys::{
    clone_bytes, key_eq, key_lt, lemma_lex_lt_connected, lemma_lex_lt_irreflexive,
    lemma_lex_lt_transitive, lex_lt,
};

verus! {

/// View of one pending operation's payload: `Some` bytes for a put, `None`
/// for a delete.
pub open spec fn opt_view(o: Option<Vec<u8>>) -> Option<Seq<u8>> {
    match o {
        Option::Some(v) => Option::Some(v@),
        Option::None => Option::None,
    }
}

/// The views of a vector of key/value entries.
pub open spec fn kvs_of(s: Seq<(Vec<u8>, Vec<u8>)>) -> Seq<(Seq<u8>, Seq<u8>)> {
    Seq::new(s.len(), |i: int| (s[i].0@, s[i].1@))
}

/// The views of a vector of pending operations.
pub open spec fn wops_of(s: Seq<(Vec<u8>, Option<Vec<u8>>)>) -> Seq<(Seq<u8>, Option<Seq<u8>>)> {
    Seq::new(s.len(), |i: int| (s[i].0@, opt_view(s[i].1)))
}

/// Keys strictly ascending.
pub open spec fn assoc_sorted<V>(s: Seq<(Seq<u8>, V)>) -> bool {
    forall|i: int, j: int| #![trigger s[i], s[j]]
        0 <= i < j < s.len() ==> lex_lt(s[i].0, s[j].0)
}

/// Keys strictly descending.
pub open spec fn assoc_sorted_desc<V>(s: Seq<(Seq<u8>, V)>) -> bool {
    forall|i: int, j: int| #![trigger s[i], s[j]]
        0 <= i < j < s.len() ==> lex_lt(s[j].0, s[i].0)
}

/// No key occurs twice.
pub open spec fn distinct_keys<V>(s: Seq<(Seq<u8>, V)>) -> bool {
    forall|i: int, j: int| #![trigger s[i], s[j]]
        0 <= i < j < s.len() ==> s[i].0 != s[j].0
}

/// The map an association sequence denotes; a later occurrence of a key wins.
pub open spec fn assoc_map<V>(s: Seq<(Seq<u8>, V)>) -> Map<Seq<u8>, V>
    decreases s.len(),
{
    if s.len() == 0 {
        Map::empty()
    } else {
        assoc_map(s.drop_last()).insert(s.last().0, s.last().1)
    }
}

/// What a transaction reads: its pending operations layered over a base
/// state.  A pending put supplies the value, a pending delete hides the key,
/// and everything else comes from the base.
pub open spec fn merged_map(
    base: Map<Seq<u8>, Seq<u8>>,
    pend: Map<Seq<u8>, Option<Seq<u8>>>,
) -> Map<Seq<u8>, Seq<u8>> {
    Map::new(
        |k: Seq<u8>|
            if pend.dom().contains(k) {
                pend[k] is Some
            } else {
                base.dom().contains(k)
            },
        |k: Seq<u8>|
            if pend.dom().contains(k) {
                pend[k]->Some_0
            } else {
                base[k]
            },
    )
}

pub proof fn lemma_sorted_implies_distinct<V>(s: Seq<(Seq<u8>, V)>)
    requires
        assoc_sorted(s) || assoc_sorted_desc(s),
    ensures
        distinct_keys(s),
{
    assert forall|i: int, j: int| #![trigger s[i], s[j]]
        0 <= i < j < s.len() implies s[i].0 != s[j].0 by {
        if s[i].0 == s[j].0 {
            lemma_lex_lt_irreflexive(s[i].0);
        }
    }
}

pub proof fn lemma_assoc_map_push<V>(s: Seq<(Seq<u8>, V)>, p: (Seq<u8>, V))
    ensures
        assoc_map(s.push(p)) == assoc_map(s).insert(p.0, p.1),
{
    assert(s.push(p).drop_last() =~= s);
    assert(s.push(p).last() == p);
}

pub proof fn lemma_assoc_map_take_step<V>(s: Seq<(Seq<u8>, V)>, i: int)
    requires
        0 <= i < s.len(),
    ensures
        assoc_map(s.take(i + 1)) == assoc_map(s.take(i)).insert(s[i].0, s[i].1),
{
    assert(s.take(i + 1).drop_last() =~= s.take(i));
    assert(s.take(i + 1).last() == s[i]);
}

/// For distinct keys, the association map contains exactly the listed keys,
/// each bound to its listed value.
pub proof fn lemma_assoc_map_index<V>(s: Seq<(Seq<u8>, V)>)
    requires
        distinct_keys(s),
    ensures
        forall|k: Seq<u8>|
            #[trigger] assoc_map(s).dom().contains(k)
                ==> exists|i: int| 0 <= i < s.len() && (#[trigger] s[i]).0 == k,
        forall|i: int|
            0 <= i < s.len()
                ==> assoc_map(s).dom().contains((#[trigger] s[i]).0) && assoc_map(s)[s[i].0]
                == s[i].1,
    decreases s.len(),
{
    if s.len() > 0 {
        let t = s.drop_last();
        let last = s.last();
        assert forall|i: int, j: int| #![trigger t[i], t[j]]
            0 <= i < j < t.len() implies t[i].0 != t[j].0 by {
            assert(t[i] == s[i]);
            assert(t[j] == s[j]);
        }
        lemma_assoc_map_index(t);
        assert forall|k: Seq<u8>| #[trigger] assoc_map(s).dom().contains(k)
            implies exists|i: int| 0 <= i < s.len() && (#[trigger] s[i]).0 == k by {
            if k == last.0 {
                assert(s[s.len() - 1].0 == k);
            } else {
                assert(assoc_map(t).dom().contains(k));
                let i = choose|i: int| 0 <= i < t.len() && (#[trigger] t[i]).0 == k;
                assert(s[i].0 == k);
            }
        }
        assert forall|i: int| 0 <= i < s.len()
            implies assoc_map(s).dom().contains((#[trigger] s[i]).0) && assoc_map(s)[s[i].0]
                == s[i].1 by {
            if i == s.len() - 1 {
                assert(s[i] == last);
            } else {
                assert(t[i] == s[i]);
                assert(s[i].0 != last.0);
            }
        }
    }
}

/// Inserting a key absent from the pending set into the base inserts it into
/// the merged view.
pub proof fn lemma_merged_map_insert_base(
    base: Map<Seq<u8>, Seq<u8>>,
    pend: Map<Seq<u8>, Option<Seq<u8>>>,
    k: Seq<u8>,
    v: Seq<u8>,
)
    requires
        !pend.dom().contains(k),
    ensures
        merged_map(base.insert(k, v), pend) == merged_map(base, pend).insert(k, v),
{
    assert(merged_map(base.insert(k, v), pend) =~= merged_map(base, pend).insert(k, v));
}

/// A pending put inserts its value into the merged view.
pub proof fn lemma_merged_map_insert_put(
    base: Map<Seq<u8>, Seq<u8>>,
    pend: Map<Seq<u8>, Option<Seq<u8>>>,
    k: Seq<u8>,
    v: Seq<u8>,
)
    ensures
        merged_map(base, pend.insert(k, Option::Some(v))) == merged_map(base, pend).insert(k, v),
{
    assert(merged_map(base, pend.insert(k, Option::Some(v))) =~= merged_map(base, pend).insert(
        k,
        v,
    ));
}

/// A pending delete removes its key from the merged view.
pub proof fn lemma_merged_map_insert_del(
    base: Map<Seq<u8>, Seq<u8>>,
    pend: Map<Seq<u8>, Option<Seq<u8>>>,
    k: Seq<u8>,
)
    ensures
        merged_map(base, pend.insert(k, Option::None)) == merged_map(base, pend).remove(k),
{
    assert(merged_map(base, pend.insert(k, Option::None)) =~= merged_map(base, pend).remove(k));
}

/// With nothing pending, a transaction reads exactly the base state.
pub proof fn lemma_merged_map_empty_pending(base: Map<Seq<u8>, Seq<u8>>)
    ensures
        merged_map(base, Map::empty()) == base,
{
    assert(merged_map(base, Map::empty()) =~= base);
}

/// An owned copy of a pending operation's payload.
pub fn clone_opt_bytes(o: &Option<Vec<u8>>) -> (r: Option<Vec<u8>>)
    ensures
        opt_view(r) == opt_view(*o),
{
    match o {
        Option::Some(v) => Option::Some(clone_bytes(v.as_slice())),
        Option::None => Option::None,
    }
}

/// One column family: an independently ordered keyspace partition.  The
/// entries are sorted strictly by key.
pub struct ColumnFamily {
    pub entries: Vec<(Vec<u8>, Vec<u8>)>,
}

impl View for ColumnFamily {
    type V = Map<Seq<u8>, Seq<u8>>;

    open spec fn view(&self) -> Map<Seq<u8>, Seq<u8>> {
        assoc_map(kvs_of(self.entries@))
    }
}

impl ColumnFamily {
    pub open spec fn wf(self) -> bool {
        assoc_sorted(kvs_of(self.entries@))
    }

    pub fn empty() -> (r: ColumnFamily)
        ensures
            r.wf(),
            r@ == Map::<Seq<u8>, Seq<u8>>::empty(),
    {
        ColumnFamily { entries: Vec::new() }
    }

    /// Point lookup in this column family, returning an owned copy of the
    /// value bound to `key`, if any.
    pub fn lookup(&self, key: &[u8]) -> (r: Option<Vec<u8>>)
        requires
            self.wf(),
        ensures
            r is Some <==> self@.dom().contains(key@),
            r is Some ==> (r->Some_0)@ == self@[key@],
    {
        let ghost s = kvs_of(self.entries@);
        proof {
            lemma_sorted_implies_distinct(s);
            lemma_assoc_map_index(s);
        }
        let n: usize = self.entries.len();
        let mut i: usize = 0;
        while i < n
            invariant
                i <= n,
                n == self.entries@.len(),
                s == kvs_of(self.entries@),
                forall|j: int| 0 <= j < i ==> (#[trigger] s[j]).0 != key@,
                forall|j: int|
                    0 <= j < s.len()
                        ==> assoc_map(s).dom().contains((#[trigger] s[j]).0) && assoc_map(s)[s[j].0]
                        == s[j].1,
                forall|k: Seq<u8>|
                    #[trigger] assoc_map(s).dom().contains(k)
                        ==> exists|j: int| 0 <= j < s.len() && (#[trigger] s[j]).0 == k,
            decreases n - i,
        {
            if key_eq(self.entries[i].0.as_slice(), key) {
                assert(s[i as int].0 == key@);
                return Option::Some(clone_bytes(self.entries[i].1.as_slice()));
            }
            i += 1;
        }
        Option::None
    }
}

/// The pending write set of one transaction on one column family: the keys
/// it has put (`Some` payload) or deleted (`None` payload), sorted strictly
/// by key.
pub struct WriteSet {
    pub ops: Vec<(Vec<u8>, Option<Vec<u8>>)>,
}

impl View for WriteSet {
    type V = Map<Seq<u8>, Option<Seq<u8>>>;

    open spec fn view(&self) -> Map<Seq<u8>, Option<Seq<u8>>> {
        assoc_map(wops_of(self.ops@))
    }
}

impl WriteSet {
    pub open spec fn wf(self) -> bool {
        assoc_sorted(wops_of(self.ops@))
    }

    pub fn empty() -> (r: WriteSet)
        ensures
            r.wf(),
            r@ == Map::<Seq<u8>, Option<Seq<u8>>>::empty(),
    {
        WriteSet { ops: Vec::new() }
    }

    /// The pending operation on `key`, if any: `Some(Some(v))` for a pending
    /// put of `v`, `Some(None)` for a pending delete, `None` when the
    /// transaction has not touched the key.
    pub fn lookup(&self, key: &[u8]) -> (r: Option<Option<Vec<u8>>>)
        requires
            self.wf(),
        ensures
            r is Some <==> self@.dom().contains(key@),
            r is Some ==> opt_view(r->Some_0) == self@[key@],
    {
        let ghost s = wops_of(self.ops@);
        proof {
            lemma_sorted_implies_distinct(s);
            lemma_assoc_map_index(s);
        }
        let n: usize = self.ops.len();
        let mut i: usize = 0;
        while i < n
            invariant
                i <= n,
                n == self.ops@.len(),
                s == wops_of(self.ops@),
                forall|j: int| 0 <= j < i ==> (#[trigger] s[j]).0 != key@,
                forall|j: int|
                    0 <= j < s.len()
                        ==> assoc_map(s).dom().contains((#[trigger] s[j]).0) && assoc_map(s)[s[j].0]
                        == s[j].1,
                forall|k: Seq<u8>|
                    #[trigger] assoc_map(s).dom().contains(k)
                        ==> exists|j: int| 0 <= j < s.len() && (#[trigger] s[j]).0 == k,
            decreases n - i,
        {
            if key_eq(self.ops[i].0.as_slice(), key) {
                assert(s[i as int].0 == key@);
                return Option::Some(clone_opt_bytes(&self.ops[i].1));
            }
            i += 1;
        }
        Option::None
    }

    /// This write set with a put (`Some` payload) or delete (`None` payload)
    /// of `key` recorded, replacing any earlier pending operation on the key.
    pub fn with_write(&self, key: &[u8], val: Option<Vec<u8>>) -> (r: WriteSet)
        requires
            self.wf(),
        ensures
            r.wf(),
            r@ == self@.insert(key@, opt_view(val)),
    {
        let ghost p = wops_of(self.ops@);
        let ghost vv = opt_view(val);
        let n: usize = self.ops.len();
        let mut out: Vec<(Vec<u8>, Option<Vec<u8>>)> = Vec::new();
        let mut i: usize = 0;
        while i < n && key_lt(self.ops[i].0.as_slice(), key)
            invariant
                self.wf(),
                i <= n,
                n == self.ops@.len(),
                p == wops_of(self.ops@),
                wops_of(out@) == p.take(i as int),
                forall|j: int| 0 <= j < i ==> lex_lt((#[trigger] p[j]).0, key@),
            decreases n - i,
        {
            let ghost out_pre = wops_of(out@);
            let e = (clone_bytes(self.ops[i].0.as_slice()), clone_opt_bytes(&self.ops[i].1));
            out.push(e);
            proof {
                assert(wops_of(out@) =~= out_pre.push(p[i as int]));
                assert(out_pre.push(p[i as int]) =~= p.take(i as int + 1));
            }
            i += 1;
        }
        let ghost i0 = i as int;
        out.push((clone_bytes(key), val));
        proof {
            assert(wops_of(out@) =~= wops_of(out@.drop_last()).push((key@, vv)));
            assert(wops_of(out@.drop_last()) =~= p.take(i0));
            lemma_assoc_map_push(p.take(i0), (key@, vv));
        }
        let mut j: usize = i;
        if j < n && key_eq(self.ops[j].0.as_slice(), key) {
            j += 1;
            proof {
                lemma_assoc_map_take_step(p, i0);
                assert(assoc_map(p.take(i0 + 1)).insert(key@, vv) =~= assoc_map(p.take(i0)).insert(
                    key@,
                    vv,
                ));
            }
        }
        proof {
            // every remaining pending key is strictly above `key`
            if i0 < n && j == i {
                if !lex_lt(key@, p[i0].0) {
                    lemma_lex_lt_connected(key@, p[i0].0);
                }
                assert(lex_lt(key@, p[i0].0));
            }
            assert forall|u: int| j <= u < n implies lex_lt(key@, (#[trigger] p[u]).0) by {
                if j == i {
                    if u > i0 {
                        lemma_lex_lt_transitive(key@, p[i0].0, p[u].0);
                    }
                } else {
                    assert(key@ == p[i0].0);
                    assert(lex_lt(p[i0].0, p[u].0));
                }
            }
        }
        while j < n
            invariant
                self.wf(),
                j <= n,
                n == self.ops@.len(),
                p == wops_of(self.ops@),
                assoc_sorted(wops_of(out@)),
                assoc_map(wops_of(out@)) == assoc_map(p.take(j as int)).insert(key@, vv),
                forall|u: int| j <= u < n ==> lex_lt(key@, (#[trigger] p[u]).0),
                forall|t: int, u: int|
                    0 <= t < wops_of(out@).len() && j <= u < n
                        ==> lex_lt((#[trigger] wops_of(out@)[t]).0, (#[trigger] p[u]).0),
            decreases n - j,
        {
            let ghost out_pre = wops_of(out@);
            let e = (clone_bytes(self.ops[j].0.as_slice()), clone_opt_bytes(&self.ops[j].1));
            out.push(e);
            proof {
                let jj = j as int;
                assert(wops_of(out@) =~= out_pre.push(p[jj]));
                lemma_assoc_map_push(out_pre, p[jj]);
                lemma_assoc_map_take_step(p, jj);
                assert(assoc_map(out_pre).insert(p[jj].0, p[jj].1) =~= assoc_map(
                    p.take(jj + 1),
                ).insert(key@, vv)) by {
                    lemma_lex_lt_irreflexive(key@);
                }
                assert forall|t: int, u: int|
                    0 <= t < wops_of(out@).len() && jj + 1 <= u < n
                        implies lex_lt((#[trigger] wops_of(out@)[t]).0, (#[trigger] p[u]).0) by {
                    if t == wops_of(out@).len() - 1 {
                        assert(wops_of(out@)[t] == p[jj]);
                    } else {
                        assert(wops_of(out@)[t] == out_pre[t]);
                    }
                }
                assert forall|t: int, u: int| #![trigger wops_of(out@)[t], wops_of(out@)[u]]
                    0 <= t < u < wops_of(out@).len()
                        implies lex_lt(wops_of(out@)[t].0, wops_of(out@)[u].0) by {
                    if u == wops_of(out@).len() - 1 {
                        assert(wops_of(out@)[t] == out_pre[t]);
                        assert(wops_of(out@)[u] == p[jj]);
                    } else {
                        assert(wops_of(out@)[t] == out_pre[t]);
                        assert(wops_of(out@)[u] == out_pre[u]);
                    }
                }
            }
            j += 1;
        }
        proof {
            assert(p.take(n as int) =~= p);
        }
        WriteSet { ops: out }
    }
}

/// Merge a sorted column family with a sorted write set: pending puts insert
/// or replace values, pending deletes drop keys, and everything else carries
/// over, preserving the strict key order.
pub fn merge_entries(
    base: &Vec<(Vec<u8>, Vec<u8>)>,
    pend: &Vec<(Vec<u8>, Option<Vec<u8>>)>,
) -> (r: Vec<(Vec<u8>, Vec<u8>)>)
    requires
        assoc_sorted(kvs_of(base@)),
        assoc_sorted(wops_of(pend@)),
    ensures
        assoc_sorted(kvs_of(r@)),
        assoc_map(kvs_of(r@)) == merged_map(assoc_map(kvs_of(base@)), assoc_map(wops_of(pend@))),
{
    let ghost bs = kvs_of(base@);
    let ghost ps = wops_of(pend@);
    let blen: usize = base.len();
    let plen: usize = pend.len();
    let mut out: Vec<(Vec<u8>, Vec<u8>)> = Vec::new();
    let mut i: usize = 0;
    let mut j: usize = 0;
    while i < blen || j < plen
        invariant
            i <= blen,
            j <= plen,
            blen == base@.len(),
            plen == pend@.len(),
            bs == kvs_of(base@),
            ps == wops_of(pend@),
            assoc_sorted(bs),
            assoc_sorted(ps),
            assoc_sorted(kvs_of(out@)),
            forall|t: int, u: int|
                0 <= t < kvs_of(out@).len() && i <= u < blen
                    ==> lex_lt((#[trigger] kvs_of(out@)[t]).0, (#[trigger] bs[u]).0),
            forall|t: int, u: int|
                0 <= t < kvs_of(out@).len() && j <= u < plen
                    ==> lex_lt((#[trigger] kvs_of(out@)[t]).0, (#[trigger] ps[u]).0),
            forall|t: int, u: int|
                0 <= t < i && j <= u < plen
                    ==> lex_lt((#[trigger] bs[t]).0, (#[trigger] ps[u]).0),
            forall|t: int, u: int|
                0 <= t < j && i <= u < blen
                    ==> lex_lt((#[trigger] ps[t]).0, (#[trigger] bs[u]).0),
            assoc_map(kvs_of(out@)) == merged_map(
                assoc_map(bs.take(i as int)),
                assoc_map(ps.take(j as int)),
            ),
        decreases (blen - i) + (plen - j),
    {
        let ghost out_pre = kvs_of(out@);
        let ghost bm = assoc_map(bs.take(i as int));
        let ghost pm = assoc_map(ps.take(j as int));
        proof {
            lemma_sorted_implies_distinct(ps);
            assert forall|t: int, u: int| #![trigger ps.take(j as int)[t], ps.take(j as int)[u]]
                0 <= t < u < j implies ps.take(j as int)[t].0 != ps.take(j as int)[u].0 by {
                assert(ps.take(j as int)[t] == ps[t]);
                assert(ps.take(j as int)[u] == ps[u]);
            }
            lemma_assoc_map_index(ps.take(j as int));
            lemma_sorted_implies_distinct(bs);
            assert forall|t: int, u: int| #![trigger bs.take(i as int)[t], bs.take(i as int)[u]]
                0 <= t < u < i implies bs.take(i as int)[t].0 != bs.take(i as int)[u].0 by {
                assert(bs.take(i as int)[t] == bs[t]);
                assert(bs.take(i as int)[u] == bs[u]);
            }
            lemma_assoc_map_index(bs.take(i as int));
        }
        if i < blen && (j == plen || key_lt(base[i].0.as_slice(), pend[j].0.as_slice())) {
            let ii = i;
            let ghost k = bs[ii as int].0;
            let e = (clone_bytes(base[ii].0.as_slice()), clone_bytes(base[ii].1.as_slice()));
            out.push(e);
            proof {
                let iii = ii as int;
                assert(kvs_of(out@) =~= out_pre.push(bs[iii]));
                lemma_assoc_map_push(out_pre, bs[iii]);
                lemma_assoc_map_take_step(bs, iii);
                // the key is absent from the pending prefix
                assert(!pm.dom().contains(k)) by {
                    if pm.dom().contains(k) {
                        let t = choose|t: int|
                            0 <= t < ps.take(j as int).len() && (#[trigger] ps.take(
                                j as int,
                            )[t]).0 == k;
                        assert(ps.take(j as int)[t] == ps[t]);
                        lemma_lex_lt_irreflexive(k);
                    }
                }
                lemma_merged_map_insert_base(bm, pm, k, bs[iii].1);
                // strictly above every remaining pending key's predecessor: order bounds
                assert forall|u: int| j <= u < plen implies lex_lt(k, (#[trigger] ps[u]).0) by {
                    if u > j {
                        lemma_lex_lt_transitive(k, ps[j as int].0, ps[u].0);
                    }
                }
                assert forall|t: int, u: int| #![trigger kvs_of(out@)[t], kvs_of(out@)[u]]
                    0 <= t < u < kvs_of(out@).len()
                        implies lex_lt(kvs_of(out@)[t].0, kvs_of(out@)[u].0) by {
                    if u == kvs_of(out@).len() - 1 {
                        assert(kvs_of(out@)[t] == out_pre[t]);
                        assert(kvs_of(out@)[u] == bs[iii]);
                    } else {
                        assert(kvs_of(out@)[t] == out_pre[t]);
                        assert(kvs_of(out@)[u] == out_pre[u]);
                    }
                }
                assert forall|t: int, u: int|
                    0 <= t < kvs_of(out@).len() && iii + 1 <= u < blen
                        implies lex_lt((#[trigger] kvs_of(out@)[t]).0, (#[trigger] bs[u]).0) by {
                    if t == kvs_of(out@).len() - 1 {
                        assert(kvs_of(out@)[t] == bs[iii]);
                    } else {
                        assert(kvs_of(out@)[t] == out_pre[t]);
                    }
                }
                assert forall|t: int, u: int|
                    0 <= t < kvs_of(out@).len() && j <= u < plen
                        implies lex_lt((#[trigger] kvs_of(out@)[t]).0, (#[trigger] ps[u]).0) by {
                    if t == kvs_of(out@).len() - 1 {
                        assert(kvs_of(out@)[t] == bs[iii]);
                    } else {
                        assert(kvs_of(out@)[t] == out_pre[t]);
                    }
                }
            }
            i = ii + 1;
        } else if i < blen && key_eq(base[i].0.as_slice(), pend[j].0.as_slice()) {
            // same key on both sides: the pending operation wins
            let ghost k = bs[i as int].0;
            let ghost w = bs[i as int].1;
            match &pend[j].1 {
                Option::Some(v) => {
                    let e = (clone_bytes(pend[j].0.as_slice()), clone_bytes(v.as_slice()));
                    out.push(e);
                },
                Option::None => {},
            }
            proof {
                let iii = i as int;
                let jjj = j as int;
                assert(ps[jjj].0 == k);
                lemma_assoc_map_take_step(bs, iii);
                lemma_assoc_map_take_step(ps, jjj);
                assert(!pm.dom().contains(k)) by {
                    if pm.dom().contains(k) {
                        let t = choose|t: int|
                            0 <= t < ps.take(jjj).len() && (#[trigger] ps.take(jjj)[t]).0 == k;
                        assert(ps.take(jjj)[t] == ps[t]);
                        lemma_lex_lt_irreflexive(k);
                    }
                }
                assert(!merged_map(bm, pm).dom().contains(k)) by {
                    if bm.dom().contains(k) {
                        let t = choose|t: int|
                            0 <= t < bs.take(iii).len() && (#[trigger] bs.take(iii)[t]).0 == k;
                        assert(bs.take(iii)[t] == bs[t]);
                        lemma_lex_lt_irreflexive(k);
                    }
                }
                lemma_merged_map_insert_base(bm, pm, k, w);
                let bm1 = bm.insert(k, w);
                match ps[jjj].1 {
                    Option::Some(v) => {
                        lemma_merged_map_insert_put(bm1, pm, k, v);
                        assert(kvs_of(out@) =~= out_pre.push((k, v)));
                        lemma_assoc_map_push(out_pre, (k, v));
                        assert(merged_map(bm1, pm).insert(k, v) =~= merged_map(bm, pm).insert(
                            k,
                            v,
                        ));
                    },
                    Option::None => {
                        lemma_merged_map_insert_del(bm1, pm, k);
                        assert(merged_map(bm1, pm).remove(k) =~= merged_map(bm, pm));
                    },
                }
                // order bounds for the new state
                assert forall|u: int| jjj + 1 <= u < plen implies lex_lt(k, (#[trigger] ps[u]).0) by {}
                assert forall|u: int| iii + 1 <= u < blen implies lex_lt(k, (#[trigger] bs[u]).0) by {}
                assert forall|t: int, u: int| #![trigger kvs_of(out@)[t], kvs_of(out@)[u]]
                    0 <= t < u < kvs_of(out@).len()
                        implies lex_lt(kvs_of(out@)[t].0, kvs_of(out@)[u].0) by {
                    if u == kvs_of(out@).len() - 1 && kvs_of(out@).len() == out_pre.len() + 1 {
                        assert(kvs_of(out@)[t] == out_pre[t]);
                        assert(kvs_of(out@)[u].0 == k);
                    } else {
                        assert(kvs_of(out@)[t] == out_pre[t]);
                        assert(kvs_of(out@)[u] == out_pre[u]);
                    }
                }
                assert forall|t: int, u: int|
                    0 <= t < kvs_of(out@).len() && iii + 1 <= u < blen
                        implies lex_lt((#[trigger] kvs_of(out@)[t]).0, (#[trigger] bs[u]).0) by {
                    if t == out_pre.len() {
                        assert(kvs_of(out@)[t].0 == k);
                    } else {
                        assert(kvs_of(out@)[t] == out_pre[t]);
                    }
                }
                assert forall|t: int, u: int|
                    0 <= t < kvs_of(out@).len() && jjj + 1 <= u < plen
                        implies lex_lt((#[trigger] kvs_of(out@)[t]).0, (#[trigger] ps[u]).0) by {
                    if t == out_pre.len() {
                        assert(kvs_of(out@)[t].0 == k);
                    } else {
                        assert(kvs_of(out@)[t] == out_pre[t]);
                    }
                }
                assert forall|t: int, u: int|
                    0 <= t < iii + 1 && jjj + 1 <= u < plen
                        implies lex_lt((#[trigger] bs[t]).0, (#[trigger] ps[u]).0) by {
                    if t == iii {
                        assert(lex_lt(k, ps[u].0));
                    }
                }
                assert forall|t: int, u: int|
                    0 <= t < jjj + 1 && iii + 1 <= u < blen
                        implies lex_lt((#[trigger] ps[t]).0, (#[trigger] bs[u]).0) by {
                    if t == jjj {
                        assert(lex_lt(k, bs[u].0));
                    }
                }
            }
            i += 1;
            j += 1;
        } else {
            // the pending key is strictly below every remaining base key
            proof {
                assert(j < plen);
                if i < blen {
                    if !lex_lt(ps[j as int].0, bs[i as int].0) {
                        lemma_lex_lt_connected(ps[j as int].0, bs[i as int].0);
                    }
                    assert(lex_lt(ps[j as int].0, bs[i as int].0));
                }
            }
            let ghost k = ps[j as int].0;
            match &pend[j].1 {
                Option::Some(v) => {
                    let e = (clone_bytes(pend[j].0.as_slice()), clone_bytes(v.as_slice()));
                    out.push(e);
                },
                Option::None => {},
            }
            proof {
                let jjj = j as int;
                lemma_assoc_map_take_step(ps, jjj);
                assert forall|u: int| i <= u < blen implies lex_lt(k, (#[trigger] bs[u]).0) by {
                    if u > i {
                        lemma_lex_lt_transitive(k, bs[i as int].0, bs[u].0);
                    }
                }
                assert(!merged_map(bm, pm).dom().contains(k)) by {
                    if bm.dom().contains(k) {
                        let t = choose|t: int|
                            0 <= t < bs.take(i as int).len() && (#[trigger] bs.take(
                                i as int,
                            )[t]).0 == k;
                        assert(bs.take(i as int)[t] == bs[t]);
                        lemma_lex_lt_irreflexive(k);
                    }
                    if pm.dom().contains(k) {
                        let t = choose|t: int|
                            0 <= t < ps.take(jjj).len() && (#[trigger] ps.take(jjj)[t]).0 == k;
                        assert(ps.take(jjj)[t] == ps[t]);
                        lemma_lex_lt_irreflexive(k);
                    }
                }
                match ps[jjj].1 {
                    Option::Some(v) => {
                        lemma_merged_map_insert_put(bm, pm, k, v);
                        assert(kvs_of(out@) =~= out_pre.push((k, v)));
                        lemma_assoc_map_push(out_pre, (k, v));
                    },
                    Option::None => {
                        lemma_merged_map_insert_del(bm, pm, k);
                        assert(merged_map(bm, pm).remove(k) =~= merged_map(bm, pm));
                    },
                }
                assert forall|u: int| jjj + 1 <= u < plen implies lex_lt(k, (#[trigger] ps[u]).0) by {}
                assert forall|t: int, u: int| #![trigger kvs_of(out@)[t], kvs_of(out@)[u]]
                    0 <= t < u < kvs_of(out@).len()
                        implies lex_lt(kvs_of(out@)[t].0, kvs_of(out@)[u].0) by {
                    if u == kvs_of(out@).len() - 1 && kvs_of(out@).len() == out_pre.len() + 1 {
                        assert(kvs_of(out@)[t] == out_pre[t]);
                        assert(kvs_of(out@)[u].0 == k);
                    } else {
                        assert(kvs_of(out@)[t] == out_pre[t]);
                        assert(kvs_of(out@)[u] == out_pre[u]);
                    }
                }
                assert forall|t: int, u: int|
                    0 <= t < kvs_of(out@).len() && i <= u < blen
                        implies lex_lt((#[trigger] kvs_of(out@)[t]).0, (#[trigger] bs[u]).0) by {
                    if t == out_pre.len() {
                        assert(kvs_of(out@)[t].0 == k);
                    } else {
                        assert(kvs_of(out@)[t] == out_pre[t]);
                    }
                }
                assert forall|t: int, u: int|
                    0 <= t < kvs_of(out@).len() && jjj + 1 <= u < plen
                        implies lex_lt((#[trigger] kvs_of(out@)[t]).0, (#[trigger] ps[u]).0) by {
                    if t == out_pre.len() {
                        assert(kvs_of(out@)[t].0 == k);
                    } else {
                        assert(kvs_of(out@)[t] == out_pre[t]);
                    }
                }
                assert forall|t: int, u: int|
                    0 <= t < jjj + 1 && i <= u < blen
                        implies lex_lt((#[trigger] ps[t]).0, (#[trigger] bs[u]).0) by {
                    if t == jjj {
                        assert(lex_lt(k, bs[u].0));
                    }
                }
            }
            j += 1;
        }
    }
    proof {
        assert(bs.take(blen as int) =~= bs);
        assert(ps.take(plen as int) =~= ps);
    }
    out
}

/// Reversing an association sequence with distinct keys leaves its map
/// unchanged.
pub proof fn lemma_assoc_map_reversed<V>(s1: Seq<(Seq<u8>, V)>, s2: Seq<(Seq<u8>, V)>)
    requires
        distinct_keys(s1),
        s2.len() == s1.len(),
        forall|t: int| 0 <= t < s1.len() ==> #[trigger] s2[t] == s1[s1.len() - 1 - t],
    ensures
        distinct_keys(s2),
        assoc_map(s2) == assoc_map(s1),
{
    assert forall|i: int, j: int| #![trigger s2[i], s2[j]]
        0 <= i < j < s2.len() implies s2[i].0 != s2[j].0 by {
        assert(s2[i] == s1[s1.len() - 1 - i]);
        assert(s2[j] == s1[s1.len() - 1 - j]);
    }
    lemma_assoc_map_index(s1);
    lemma_assoc_map_index(s2);
    assert(assoc_map(s2) =~= assoc_map(s1)) by {
        assert forall|k: Seq<u8>|
            assoc_map(s2).dom().contains(k) == assoc_map(s1).dom().contains(k) by {
            if assoc_map(s2).dom().contains(k) {
                let i = choose|i: int| 0 <= i < s2.len() && (#[trigger] s2[i]).0 == k;
                assert(s1[s1.len() - 1 - i].0 == k);
            }
            if assoc_map(s1).dom().contains(k) {
                let i = choose|i: int| 0 <= i < s1.len() && (#[trigger] s1[i]).0 == k;
                assert(s2[s1.len() - 1 - i] == s1[i]);
            }
        }
        assert forall|k: Seq<u8>| #[trigger] assoc_map(s2).dom().contains(k)
            implies assoc_map(s2)[k] == assoc_map(s1)[k] by {
            let i = choose|i: int| 0 <= i < s2.len() && (#[trigger] s2[i]).0 == k;
            assert(s2[i] == s1[s1.len() - 1 - i]);
            assert(assoc_map(s2)[s2[i].0] == s2[i].1);
            assert(assoc_map(s1)[s1[s1.len() - 1 - i].0] == s1[s1.len() - 1 - i].1);
        }
    }
}

/// An owned copy of a column family's entry vector.
pub fn clone_entries(v: &Vec<(Vec<u8>, Vec<u8>)>) -> (r: Vec<(Vec<u8>, Vec<u8>)>)
    ensures
        kvs_of(r@) == kvs_of(v@),
{
    let n: usize = v.len();
    let mut r: Vec<(Vec<u8>, Vec<u8>)> = Vec::new();
    let mut i: usize = 0;
    while i < n
        invariant
            i <= n,
            n == v@.len(),
            kvs_of(r@) == kvs_of(v@).take(i as int),
        decreases n - i,
    {
        let ghost pre = kvs_of(r@);
        let e = (clone_bytes(v[i].0.as_slice()), clone_bytes(v[i].1.as_slice()));
        r.push(e);
        proof {
            assert(kvs_of(r@) =~= pre.push(kvs_of(v@)[i as int]));
            assert(pre.push(kvs_of(v@)[i as int]) =~= kvs_of(v@).take(i as int + 1));
        }
        i += 1;
    }
    proof {
        assert(kvs_of(v@).take(n as int) =~= kvs_of(v@));
    }
    r
}

/// The entry vector in the opposite order.
pub fn reverse_entries(v: Vec<(Vec<u8>, Vec<u8>)>) -> (r: Vec<(Vec<u8>, Vec<u8>)>)
    ensures
        kvs_of(r@).len() == kvs_of(v@).len(),
        forall|t: int|
            0 <= t < v@.len() ==> #[trigger] kvs_of(r@)[t] == kvs_of(v@)[v@.len() - 1 - t],
{
    let ghost v0 = v@;
    let mut src = v;
    let mut out: Vec<(Vec<u8>, Vec<u8>)> = Vec::new();
    let mut k: usize = src.len();
    while k > 0
        invariant
            k == src@.len(),
            src@ == v0.take(k as int),
            out@.len() + k == v0.len(),
            forall|t: int| 0 <= t < out@.len() ==> #[trigger] out@[t] == v0[v0.len() - 1 - t],
        decreases k,
    {
        let e = match src.pop() {
            Option::Some(e) => e,
            Option::None => {
                proof {
                    assert(false);
                }
                (Vec::new(), Vec::new())
            },
        };
        proof {
            assert(v0.take(k as int).last() == v0[k as int - 1]);
            assert(v0.take(k as int).drop_last() =~= v0.take(k as int - 1));
        }
        out.push(e);
        k -= 1;
    }
    proof {
        assert forall|t: int| 0 <= t < v0.len()
            implies #[trigger] kvs_of(out@)[t] == kvs_of(v0)[v0.len() - 1 - t] by {
            assert(out@[t] == v0[v0.len() - 1 - t]);
        }
    }
    out
}

/// An owned copy of a vector of column families, preserving each column's
/// contents.
pub fn clone_columns(cols: &Vec<ColumnFamily>) -> (r: Vec<ColumnFamily>)
    requires
        forall|c: int| 0 <= c < cols@.len() ==> (#[trigger] cols@[c]).wf(),
    ensures
        r@.len() == cols@.len(),
        forall|c: int| 0 <= c < cols@.len() ==> (#[trigger] r@[c])@ == cols@[c]@ && r@[c].wf(),
{
    let n: usize = cols.len();
    let mut r: Vec<ColumnFamily> = Vec::new();
    let mut i: usize = 0;
    while i < n
        invariant
            i <= n,
            n == cols@.len(),
            r@.len() == i,
            forall|c: int| 0 <= c < cols@.len() ==> (#[trigger] cols@[c]).wf(),
            forall|c: int| 0 <= c < i ==> (#[trigger] r@[c])@ == cols@[c]@ && r@[c].wf(),
        decreases n - i,
    {
        let copy = ColumnFamily { entries: clone_entries(&cols[i].entries) };
        r.push(copy);
        i += 1;
    }
    r
}

} // verus!
