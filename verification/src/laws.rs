//! General laws of the merge engine, proved over the spec-level model:
//! idempotence, order-independence of the retained rule sets, dedup
//! uniqueness, and relation-conflict preservation.
use vstd::prelude::*;
use crate::model::{EventKind, Polarity, Relation, RuleGroup};
use crate::accumulate::{blocks_keys, blocks_rids, block_rids, fold_keys, fold_rids, groups_keys,
    groups_rids, rid_of, wf_groups, RuleId, RuleKey};

verus! {

/// Membership in a fold of fragments is membership in some fragment's
/// contribution.
pub proof fn lemma_fold_rids_elem(frags: Seq<Seq<RuleGroup>>, t: RuleId)
    ensures
        fold_rids(frags).contains(t) <==> exists|i: int|
            0 <= i < frags.len() && groups_rids(#[trigger] frags[i]).contains(t),
    decreases frags.len(),
{
    if frags.len() > 0 {
        lemma_fold_rids_elem(frags.drop_last(), t);
        if fold_rids(frags).contains(t) {
            if fold_rids(frags.drop_last()).contains(t) {
                let i = choose|i: int| 0 <= i < frags.drop_last().len()
                    && groups_rids(#[trigger] frags.drop_last()[i]).contains(t);
                assert(frags.drop_last()[i] == frags[i]);
            } else {
                assert(groups_rids(frags[frags.len() - 1]).contains(t));
            }
        }
        if exists|i: int| 0 <= i < frags.len() && groups_rids(#[trigger] frags[i]).contains(t) {
            let i = choose|i: int| 0 <= i < frags.len()
                && groups_rids(#[trigger] frags[i]).contains(t);
            if i < frags.len() - 1 {
                assert(frags.drop_last()[i] == frags[i]);
            } else {
                assert(frags.last() == frags[i]);
            }
        }
    }
}

/// Membership in a fold's key set is membership in some fragment's keys.
pub proof fn lemma_fold_keys_elem(frags: Seq<Seq<RuleGroup>>, k: RuleKey)
    ensures
        fold_keys(frags).contains(k) <==> exists|i: int|
            0 <= i < frags.len() && groups_keys(#[trigger] frags[i]).contains(k),
    decreases frags.len(),
{
    if frags.len() > 0 {
        lemma_fold_keys_elem(frags.drop_last(), k);
        if fold_keys(frags).contains(k) {
            if fold_keys(frags.drop_last()).contains(k) {
                let i = choose|i: int| 0 <= i < frags.drop_last().len()
                    && groups_keys(#[trigger] frags.drop_last()[i]).contains(k);
                assert(frags.drop_last()[i] == frags[i]);
            } else {
                assert(groups_keys(frags[frags.len() - 1]).contains(k));
            }
        }
        if exists|i: int| 0 <= i < frags.len() && groups_keys(#[trigger] frags[i]).contains(k) {
            let i = choose|i: int| 0 <= i < frags.len()
                && groups_keys(#[trigger] frags[i]).contains(k);
            if i < frags.len() - 1 {
                assert(frags.drop_last()[i] == frags[i]);
            } else {
                assert(frags.last() == frags[i]);
            }
        }
    }
}

/// Idempotence: when a merged result retains exactly the identities and keys
/// of a fragment sequence, folding that result in again as one more fragment
/// changes nothing.
pub proof fn lemma_merge_idempotent(frags: Seq<Seq<RuleGroup>>, merged: Seq<RuleGroup>)
    requires
        groups_rids(merged) == fold_rids(frags),
        groups_keys(merged) == fold_keys(frags),
    ensures
        fold_rids(frags.push(merged)) == fold_rids(frags),
        fold_keys(frags.push(merged)) == fold_keys(frags),
{
    assert(frags.push(merged).drop_last() =~= frags);
    assert(frags.push(merged).last() == merged);
    assert(fold_rids(frags).union(fold_rids(frags)) =~= fold_rids(frags));
    assert(fold_keys(frags).union(fold_keys(frags)) =~= fold_keys(frags));
}

/// Order-independence of retained content: any two fragment sequences that
/// are permutations of one another fold to the same retained rule identities
/// and the same keys.
pub proof fn lemma_merge_order_independent(a: Seq<Seq<RuleGroup>>, b: Seq<Seq<RuleGroup>>)
    requires
        a.to_multiset() == b.to_multiset(),
    ensures
        fold_rids(a) == fold_rids(b),
        fold_keys(a) == fold_keys(b),
{
    broadcast use vstd::seq_lib::group_to_multiset_ensures;

    assert forall|t: RuleId| fold_rids(a).contains(t) implies fold_rids(b).contains(t) by {
        lemma_fold_rids_elem(a, t);
        let i = choose|i: int| 0 <= i < a.len() && groups_rids(#[trigger] a[i]).contains(t);
        assert(a.contains(a[i]));
        assert(a.to_multiset().count(a[i]) > 0);
        assert(b.to_multiset().count(a[i]) > 0);
        assert(b.contains(a[i]));
        let j = choose|j: int| 0 <= j < b.len() && b[j] == a[i];
        lemma_fold_rids_elem(b, t);
        assert(groups_rids(b[j]).contains(t));
    }
    assert forall|t: RuleId| fold_rids(b).contains(t) implies fold_rids(a).contains(t) by {
        lemma_fold_rids_elem(b, t);
        let i = choose|i: int| 0 <= i < b.len() && groups_rids(#[trigger] b[i]).contains(t);
        assert(b.contains(b[i]));
        assert(b.to_multiset().count(b[i]) > 0);
        assert(a.to_multiset().count(b[i]) > 0);
        assert(a.contains(b[i]));
        let j = choose|j: int| 0 <= j < a.len() && a[j] == b[i];
        lemma_fold_rids_elem(a, t);
        assert(groups_rids(a[j]).contains(t));
    }
    assert(fold_rids(a) =~= fold_rids(b));
    assert forall|k: RuleKey| fold_keys(a).contains(k) implies fold_keys(b).contains(k) by {
        lemma_fold_keys_elem(a, k);
        let i = choose|i: int| 0 <= i < a.len() && groups_keys(#[trigger] a[i]).contains(k);
        assert(a.contains(a[i]));
        assert(a.to_multiset().count(a[i]) > 0);
        assert(b.to_multiset().count(a[i]) > 0);
        assert(b.contains(a[i]));
        let j = choose|j: int| 0 <= j < b.len() && b[j] == a[i];
        lemma_fold_keys_elem(b, k);
        assert(groups_keys(b[j]).contains(k));
    }
    assert forall|k: RuleKey| fold_keys(b).contains(k) implies fold_keys(a).contains(k) by {
        lemma_fold_keys_elem(b, k);
        let i = choose|i: int| 0 <= i < b.len() && groups_keys(#[trigger] b[i]).contains(k);
        assert(b.contains(b[i]));
        assert(b.to_multiset().count(b[i]) > 0);
        assert(a.to_multiset().count(b[i]) > 0);
        assert(a.contains(b[i]));
        let j = choose|j: int| 0 <= j < a.len() && a[j] == b[i];
        lemma_fold_keys_elem(a, k);
        assert(groups_keys(a[j]).contains(k));
    }
    assert(fold_keys(a) =~= fold_keys(b));
}

/// Idempotence at the document level: a merged output retaining exactly the
/// identities and keys of a document sequence, folded in again as one more
/// document, changes nothing about what is retained.
pub proof fn lemma_merge_docs_idempotent(docs: Seq<crate::document::ConfigDoc>,
    out: crate::document::ConfigDoc)
    requires
        groups_rids(crate::document::doc_groups(out))
            == fold_rids(crate::driver::docs_groups(docs)),
        groups_keys(crate::document::doc_groups(out))
            == fold_keys(crate::driver::docs_groups(docs)),
    ensures
        fold_rids(crate::driver::docs_groups(docs.push(out)))
            == fold_rids(crate::driver::docs_groups(docs)),
        fold_keys(crate::driver::docs_groups(docs.push(out)))
            == fold_keys(crate::driver::docs_groups(docs)),
{
    assert(crate::driver::docs_groups(docs.push(out))
        =~= crate::driver::docs_groups(docs).push(crate::document::doc_groups(out)));
    lemma_merge_idempotent(crate::driver::docs_groups(docs),
        crate::document::doc_groups(out));
}

/// A position within a group sequence holds a rule entry.
pub open spec fn pos_valid(gs: Seq<RuleGroup>, i: int, j: int, k: int) -> bool {
    &&& 0 <= i < gs.len()
    &&& 0 <= j < gs[i].blocks@.len()
    &&& 0 <= k < gs[i].blocks@[j].entries@.len()
}

/// The rule identity held at a position within a group sequence.
pub open spec fn rid_at(gs: Seq<RuleGroup>, i: int, j: int, k: int) -> RuleId {
    rid_of(gs[i].relation, gs[i].blocks@[j].kind, gs[i].blocks@[j].polarity,
        gs[i].blocks@[j].entries@[k])
}

/// Dedup correctness, existence half: every retained rule identity stands at
/// some position of the merged group sequence.
pub proof fn lemma_retained_position(gs: Seq<RuleGroup>, t: RuleId)
    requires
        groups_rids(gs).contains(t),
    ensures
        exists|i: int, j: int, k: int| pos_valid(gs, i, j, k) && rid_at(gs, i, j, k) == t,
{
    let i = choose|i: int| 0 <= i < gs.len()
        && #[trigger] blocks_rids(gs[i].relation, gs[i].blocks@).contains(t);
    let j = choose|j: int| 0 <= j < gs[i].blocks@.len()
        && #[trigger] block_rids(gs[i].relation, gs[i].blocks@[j]).contains(t);
    let b = gs[i].blocks@[j];
    let k = choose|k: int| 0 <= k < b.entries@.len()
        && t == rid_of(gs[i].relation, b.kind, b.polarity, #[trigger] b.entries@[k]);
    assert(pos_valid(gs, i, j, k) && rid_at(gs, i, j, k) == t);
}

/// Dedup correctness, uniqueness half: in a well-formed merged group
/// sequence no rule identity stands at two distinct positions. Together with
/// the existence half, a retained (field, operator, value) triple appears
/// exactly once under its relation, kind and polarity.
pub proof fn lemma_retained_once(gs: Seq<RuleGroup>, i1: int, j1: int, k1: int,
    i2: int, j2: int, k2: int)
    requires
        wf_groups(gs),
        pos_valid(gs, i1, j1, k1),
        pos_valid(gs, i2, j2, k2),
        rid_at(gs, i1, j1, k1) == rid_at(gs, i2, j2, k2),
    ensures
        i1 == i2,
        j1 == j2,
        k1 == k2,
{
    let t = rid_at(gs, i1, j1, k1);
    assert(gs[i1].relation == t.relation && gs[i2].relation == t.relation);
    if i1 < i2 {
        assert(gs[i1].relation != gs[i2].relation);
    }
    if i2 < i1 {
        assert(gs[i2].relation != gs[i1].relation);
    }
    assert(i1 == i2);
    let blocks = gs[i1].blocks@;
    assert(blocks[j1].kind == t.kind && blocks[j1].polarity == t.polarity);
    assert(blocks[j2].kind == t.kind && blocks[j2].polarity == t.polarity);
    assert(wf_groups(gs) ==> wf_blocks_at(gs, i1));
    if j1 < j2 {
        assert(!(blocks[j1].kind == blocks[j2].kind && blocks[j1].polarity == blocks[j2].polarity));
    }
    if j2 < j1 {
        assert(!(blocks[j2].kind == blocks[j1].kind && blocks[j2].polarity == blocks[j1].polarity));
    }
    assert(j1 == j2);
    let es = blocks[j1].entries@;
    assert(crate::accumulate::eid_of(es[k1]) == crate::accumulate::eid_of(es[k2]));
    if k1 < k2 {
        assert(crate::accumulate::eid_of(es[k1]) != crate::accumulate::eid_of(es[k2]));
    }
    if k2 < k1 {
        assert(crate::accumulate::eid_of(es[k2]) != crate::accumulate::eid_of(es[k1]));
    }
}

/// The blocks of one group of a well-formed sequence are well-formed.
pub open spec fn wf_blocks_at(gs: Seq<RuleGroup>, i: int) -> bool {
    crate::accumulate::wf_blocks(gs[i].blocks@)
}

/// Relation-conflict preservation: when the merged state retains the same
/// (kind, polarity) under both relations, two distinct groups carry them,
/// one per relation, never one group with blended semantics.
pub proof fn lemma_relation_conflict_preserved(gs: Seq<RuleGroup>, kind: EventKind,
    pol: Polarity)
    requires
        wf_groups(gs),
        groups_keys(gs).contains(RuleKey { relation: Relation::Or, kind, polarity: pol }),
        groups_keys(gs).contains(RuleKey { relation: Relation::And, kind, polarity: pol }),
    ensures
        exists|i: int, j: int| 0 <= i < gs.len() && 0 <= j < gs.len() && i != j
            && (#[trigger] gs[i]).relation == Relation::Or
            && (#[trigger] gs[j]).relation == Relation::And,
{
    let ko = RuleKey { relation: Relation::Or, kind, polarity: pol };
    let ka = RuleKey { relation: Relation::And, kind, polarity: pol };
    let i = choose|i: int| 0 <= i < gs.len()
        && #[trigger] blocks_keys(gs[i].relation, gs[i].blocks@).contains(ko);
    let j = choose|j: int| 0 <= j < gs.len()
        && #[trigger] blocks_keys(gs[j].relation, gs[j].blocks@).contains(ka);
    assert(gs[i].relation == Relation::Or);
    assert(gs[j].relation == Relation::And);
    assert(i != j);
}

} // verus!
