//! The laws of the transaction protocol, proved over the same spec functions
//! the operation contracts are stated with.
//!
//! `Transaction::put` and `Transaction::delete` update `pending_view` by
//! `insert`, `Transaction::begin_transaction` and `Transaction::rollback`
//! leave `pending_view` empty, reads and cursors observe
//! `merged_map(base_view, pending_view)`, and `Transaction::commit` turns
//! each database column into `merged_map` of its old contents and the pending
//! view.  The lemmas here therefore state the protocol's promises once, over
//! those maps, and apply to every operation sequence.

use vstd::prelude::*;

use crate::keys::{lemma_lex_lt_asymmetric, lex_lt};
use crate::store::{
    assoc_map, assoc_sorted, lemma_assoc_map_index, lemma_merged_map_empty_pending,
    lemma_merged_map_insert_del, lemma_merged_map_insert_put, lemma_sorted_implies_distinct,
    merged_map,
};

verus! {

/// A key never written in a transaction reads as absent, not as an error: a
/// transaction with nothing pending sees exactly its begin-time state, so a
/// key absent there is absent from every read of the transaction.
pub proof fn lemma_unwritten_key_reads_absent(base: Map<Seq<u8>, Seq<u8>>, k: Seq<u8>)
    requires
        !base.dom().contains(k),
    ensures
        !merged_map(base, Map::empty()).dom().contains(k),
{
    lemma_merged_map_empty_pending(base);
}

/// Read-your-own-writes: after a put of `(k, v)`, the same transaction's
/// reads see `v` under `k`, whatever the begin-time state and whatever else
/// is pending.
pub proof fn lemma_read_own_writes(
    base: Map<Seq<u8>, Seq<u8>>,
    pend: Map<Seq<u8>, Option<Seq<u8>>>,
    k: Seq<u8>,
    v: Seq<u8>,
)
    ensures
        merged_map(base, pend.insert(k, Option::Some(v))).dom().contains(k),
        merged_map(base, pend.insert(k, Option::Some(v)))[k] == v,
{
    lemma_merged_map_insert_put(base, pend, k, v);
}

/// A delete hides its key from the same transaction's reads, even when the
/// key existed before the transaction began.
pub proof fn lemma_delete_hides_key(
    base: Map<Seq<u8>, Seq<u8>>,
    pend: Map<Seq<u8>, Option<Seq<u8>>>,
    k: Seq<u8>,
)
    ensures
        !merged_map(base, pend.insert(k, Option::None)).dom().contains(k),
{
    lemma_merged_map_insert_del(base, pend, k);
}

/// What a commit publishes: in the committed state every pending put is
/// present with its value, every pending delete is absent, and every key the
/// transaction never touched keeps its previous binding.  Transactions begun
/// after the commit read exactly this state.
pub proof fn lemma_commit_visibility(
    base: Map<Seq<u8>, Seq<u8>>,
    pend: Map<Seq<u8>, Option<Seq<u8>>>,
    k: Seq<u8>,
)
    ensures
        pend.dom().contains(k) && pend[k] is Some ==> merged_map(base, pend).dom().contains(k)
            && merged_map(base, pend)[k] == pend[k]->Some_0,
        pend.dom().contains(k) && pend[k] is None ==> !merged_map(base, pend).dom().contains(k),
        !pend.dom().contains(k) ==> (merged_map(base, pend).dom().contains(k)
            <==> base.dom().contains(k)) && (base.dom().contains(k) ==> merged_map(base, pend)[k]
            == base[k]),
{
}

/// A rollback discards every pending put and delete: a transaction with
/// nothing pending — fresh, or spent by `rollback`, which never writes to the
/// database — reads exactly the pre-transaction state.
pub proof fn lemma_rollback_restores_base(base: Map<Seq<u8>, Seq<u8>>)
    ensures
        merged_map(base, Map::empty()) == base,
{
    lemma_merged_map_empty_pending(base);
}

/// A cursor's order is fully determined by the view it scans: two ascending
/// key-ordered listings that denote the same map are the same listing, entry
/// for entry.  With `Transaction::iter`'s contract — the scan is key-ordered
/// in the cursor's direction and denotes the transaction's view of the column
/// family — the forward scan over keys `{a, b, c}` can only be `a, b, c`, and
/// the reverse scan its mirror image.
pub proof fn lemma_cursor_order_determined<V>(s1: Seq<(Seq<u8>, V)>, s2: Seq<(Seq<u8>, V)>)
    requires
        assoc_sorted(s1),
        assoc_sorted(s2),
        assoc_map(s1) == assoc_map(s2),
    ensures
        s1 == s2,
    decreases s1.len(),
{
    lemma_sorted_implies_distinct(s1);
    lemma_sorted_implies_distinct(s2);
    lemma_assoc_map_index(s1);
    lemma_assoc_map_index(s2);
    if s1.len() == 0 {
        if s2.len() > 0 {
            assert(assoc_map(s2).dom().contains(s2[s2.len() - 1].0));
            assert(assoc_map(s1).dom().contains(s2[s2.len() - 1].0));
        }
        assert(s1 =~= s2);
    } else if s2.len() == 0 {
        assert(assoc_map(s1).dom().contains(s1[s1.len() - 1].0));
        assert(assoc_map(s2).dom().contains(s1[s1.len() - 1].0));
    } else {
        let k1 = s1.last().0;
        let k2 = s2.last().0;
        assert(assoc_map(s1).dom().contains(s1[s1.len() - 1].0));
        assert(assoc_map(s2).dom().contains(s2[s2.len() - 1].0));
        let i2 = choose|i: int| 0 <= i < s2.len() && (#[trigger] s2[i]).0 == k1;
        let i1 = choose|i: int| 0 <= i < s1.len() && (#[trigger] s1[i]).0 == k2;
        if k1 != k2 {
            // each last key would sit strictly below the other's: impossible
            assert(lex_lt(s2[i2].0, s2[s2.len() - 1].0));
            assert(lex_lt(s1[i1].0, s1[s1.len() - 1].0));
            lemma_lex_lt_asymmetric(k1, k2);
        }
        assert(s1[s1.len() - 1].1 == assoc_map(s1)[k1]);
        assert(s2[s2.len() - 1].1 == assoc_map(s2)[k1]);
        let t1 = s1.drop_last();
        let t2 = s2.drop_last();
        assert forall|i: int, j: int| #![trigger t1[i], t1[j]]
            0 <= i < j < t1.len() implies lex_lt(t1[i].0, t1[j].0) by {
            assert(t1[i] == s1[i]);
            assert(t1[j] == s1[j]);
        }
        assert forall|i: int, j: int| #![trigger t2[i], t2[j]]
            0 <= i < j < t2.len() implies lex_lt(t2[i].0, t2[j].0) by {
            assert(t2[i] == s2[i]);
            assert(t2[j] == s2[j]);
        }
        lemma_sorted_implies_distinct(t1);
        lemma_sorted_implies_distinct(t2);
        lemma_assoc_map_index(t1);
        lemma_assoc_map_index(t2);
        assert(!assoc_map(t1).dom().contains(k1)) by {
            if assoc_map(t1).dom().contains(k1) {
                let i = choose|i: int| 0 <= i < t1.len() && (#[trigger] t1[i]).0 == k1;
                assert(s1[i] == t1[i]);
            }
        }
        assert(!assoc_map(t2).dom().contains(k1)) by {
            if assoc_map(t2).dom().contains(k1) {
                let i = choose|i: int| 0 <= i < t2.len() && (#[trigger] t2[i]).0 == k1;
                assert(s2[i] == t2[i]);
            }
        }
        assert(assoc_map(t1) =~= assoc_map(s1).remove(k1));
        assert(assoc_map(t2) =~= assoc_map(s2).remove(k1));
        lemma_cursor_order_determined(t1, t2);
        assert(s1 =~= s2) by {
            assert(s1.len() == s2.len());
            assert forall|i: int| 0 <= i < s1.len() implies s1[i] == s2[i] by {
                if i < s1.len() - 1 {
                    assert(s1[i] == t1[i]);
                    assert(s2[i] == t2[i]);
                }
            }
        }
    }
}

} // verus!
