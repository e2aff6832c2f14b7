//! The merge accumulator: folds the rule groups of successive fragments into
//! one deduplicated, conflict-aware state. One accumulated group exists per
//! distinct group relation, in first-seen order; within a group one block per
//! (event kind, polarity); within a block each (field, operator, value)
//! triple at most once.
use vstd::prelude::*;
use crate::model::{CondOp, EventBlock, EventKind, Polarity, Relation, RuleEntry, RuleGroup,
    chars_eq};

verus! {

/// The identity of a rule entry: the (field, operator, value) triple.
/// The optional label is metadata and takes no part.
pub struct EntryId {
    pub field: Seq<char>,
    pub op: CondOp,
    pub value: Seq<char>,
}

/// The key of an event-type block within one relation.
pub struct RuleKey {
    pub relation: Relation,
    pub kind: EventKind,
    pub polarity: Polarity,
}

/// The full identity of one retained rule.
pub struct RuleId {
    pub relation: Relation,
    pub kind: EventKind,
    pub polarity: Polarity,
    pub field: Seq<char>,
    pub op: CondOp,
    pub value: Seq<char>,
}

/// The identity triple of an entry.
pub open spec fn eid_of(e: RuleEntry) -> EntryId {
    EntryId { field: e.field@, op: e.op, value: e.value@ }
}

/// The rule identity of an entry under a given relation, kind and polarity.
pub open spec fn rid_of(rel: Relation, kind: EventKind, pol: Polarity, e: RuleEntry) -> RuleId {
    RuleId { relation: rel, kind, polarity: pol, field: e.field@, op: e.op, value: e.value@ }
}

/// The label of an entry, as a sequence.
pub open spec fn label_of(e: RuleEntry) -> Option<Seq<char>> {
    match e.label {
        Some(l) => Some(l@),
        None => None,
    }
}

/// The set of entry identities in a sequence of entries.
pub open spec fn eids(es: Seq<RuleEntry>) -> Set<EntryId> {
    Set::new(|t: EntryId| exists|i: int| 0 <= i < es.len() && t == eid_of(#[trigger] es[i]))
}

/// Entry identities tagged with a relation, kind and polarity.
pub open spec fn tag_ids(rel: Relation, kind: EventKind, pol: Polarity, es: Set<EntryId>)
    -> Set<RuleId> {
    Set::new(|t: RuleId| t.relation == rel && t.kind == kind && t.polarity == pol
        && es.contains(EntryId { field: t.field, op: t.op, value: t.value }))
}

/// The rule identities of one block under a given relation.
pub open spec fn block_rids(rel: Relation, b: EventBlock) -> Set<RuleId> {
    Set::new(|t: RuleId| exists|i: int| 0 <= i < b.entries@.len()
        && t == rid_of(rel, b.kind, b.polarity, #[trigger] b.entries@[i]))
}

/// The rule identities of a sequence of blocks under a given relation.
pub open spec fn blocks_rids(rel: Relation, blocks: Seq<EventBlock>) -> Set<RuleId> {
    Set::new(|t: RuleId| exists|i: int| 0 <= i < blocks.len()
        && #[trigger] block_rids(rel, blocks[i]).contains(t))
}

/// The block keys of a sequence of blocks under a given relation.
pub open spec fn blocks_keys(rel: Relation, blocks: Seq<EventBlock>) -> Set<RuleKey> {
    Set::new(|k: RuleKey| k.relation == rel && exists|i: int| 0 <= i < blocks.len()
        && (#[trigger] blocks[i]).kind == k.kind && blocks[i].polarity == k.polarity)
}

/// The rule identities of a sequence of rule groups, each block tagged with
/// its group's relation. This is what a fragment contributes to a merge, and
/// equally what an accumulated state retains.
pub open spec fn groups_rids(gs: Seq<RuleGroup>) -> Set<RuleId> {
    Set::new(|t: RuleId| exists|i: int| 0 <= i < gs.len()
        && #[trigger] blocks_rids(gs[i].relation, gs[i].blocks@).contains(t))
}

/// The block keys of a sequence of rule groups.
pub open spec fn groups_keys(gs: Seq<RuleGroup>) -> Set<RuleKey> {
    Set::new(|k: RuleKey| exists|i: int| 0 <= i < gs.len()
        && #[trigger] blocks_keys(gs[i].relation, gs[i].blocks@).contains(k))
}

/// No two entries share an identity triple.
pub open spec fn wf_entries(es: Seq<RuleEntry>) -> bool {
    forall|i: int, j: int| 0 <= i < j < es.len()
        ==> eid_of(#[trigger] es[i]) != eid_of(#[trigger] es[j])
}

/// No two blocks share a (kind, polarity) key, and each block's entries are
/// deduplicated.
pub open spec fn wf_blocks(blocks: Seq<EventBlock>) -> bool {
    &&& forall|i: int, j: int| 0 <= i < j < blocks.len()
        ==> !((#[trigger] blocks[i]).kind == (#[trigger] blocks[j]).kind
            && blocks[i].polarity == blocks[j].polarity)
    &&& forall|i: int| 0 <= i < blocks.len() ==> wf_entries((#[trigger] blocks[i]).entries@)
}

/// No two accumulated groups share a relation, and each group's blocks are
/// well-formed.
pub open spec fn wf_groups(gs: Seq<RuleGroup>) -> bool {
    &&& forall|i: int, j: int| 0 <= i < j < gs.len()
        ==> (#[trigger] gs[i]).relation != (#[trigger] gs[j]).relation
    &&& forall|i: int| 0 <= i < gs.len() ==> wf_blocks((#[trigger] gs[i]).blocks@)
}

/// A folded block extends an earlier state of itself: same key, the earlier
/// entries unchanged in place, new entries only appended.
pub open spec fn block_extends(nb: EventBlock, ob: EventBlock) -> bool {
    &&& nb.kind == ob.kind
    &&& nb.polarity == ob.polarity
    &&& ob.entries@.len() <= nb.entries@.len()
    &&& forall|i: int| 0 <= i < ob.entries@.len() ==> nb.entries@[i] == ob.entries@[i]
}

/// A folded block list extends an earlier state of itself: earlier blocks
/// stay in place and only grow, new blocks only append. This is what makes
/// first-seen ordering stable across folds.
pub open spec fn blocks_extend(nbs: Seq<EventBlock>, obs: Seq<EventBlock>) -> bool {
    &&& obs.len() <= nbs.len()
    &&& forall|i: int| 0 <= i < obs.len() ==> block_extends(#[trigger] nbs[i], obs[i])
}

/// A folded group extends an earlier state of itself.
pub open spec fn group_extends(ng: RuleGroup, og: RuleGroup) -> bool {
    &&& ng.relation == og.relation
    &&& blocks_extend(ng.blocks@, og.blocks@)
}

/// A folded group list extends an earlier state of itself: earlier groups
/// stay in place and only grow, new groups only append.
pub open spec fn groups_extend(ngs: Seq<RuleGroup>, ogs: Seq<RuleGroup>) -> bool {
    &&& ogs.len() <= ngs.len()
    &&& forall|i: int| 0 <= i < ogs.len() ==> group_extends(#[trigger] ngs[i], ogs[i])
}

proof fn lemma_blocks_extend_refl(bs: Seq<EventBlock>)
    ensures
        blocks_extend(bs, bs),
{
    assert forall|i: int| 0 <= i < bs.len() implies block_extends(#[trigger] bs[i], bs[i]) by {
    }
}

proof fn lemma_groups_extend_refl(gs: Seq<RuleGroup>)
    ensures
        groups_extend(gs, gs),
{
    assert forall|i: int| 0 <= i < gs.len() implies group_extends(#[trigger] gs[i], gs[i]) by {
        lemma_blocks_extend_refl(gs[i].blocks@);
    }
}

proof fn lemma_blocks_extend_trans(a: Seq<EventBlock>, b: Seq<EventBlock>, c: Seq<EventBlock>)
    requires
        blocks_extend(c, b),
        blocks_extend(b, a),
    ensures
        blocks_extend(c, a),
{
    assert forall|i: int| 0 <= i < a.len() implies block_extends(#[trigger] c[i], a[i]) by {
        assert(block_extends(c[i], b[i]));
        assert(block_extends(b[i], a[i]));
    }
}

proof fn lemma_groups_extend_trans(a: Seq<RuleGroup>, b: Seq<RuleGroup>, c: Seq<RuleGroup>)
    requires
        groups_extend(c, b),
        groups_extend(b, a),
    ensures
        groups_extend(c, a),
{
    assert forall|i: int| 0 <= i < a.len() implies group_extends(#[trigger] c[i], a[i]) by {
        assert(group_extends(c[i], b[i]));
        assert(group_extends(b[i], a[i]));
        lemma_blocks_extend_trans(a[i].blocks@, b[i].blocks@, c[i].blocks@);
    }
}

/// The entry identities of an entry list, in order.
pub open spec fn eid_seq(es: Seq<RuleEntry>) -> Seq<EntryId> {
    es.map_values(|e: RuleEntry| eid_of(e))
}

/// The entry identity order after folding a source entry list into a block
/// whose entries carry the given identities: a source entry with a new
/// identity appends it, in source order; one already present changes
/// nothing. This pins "entries in first-seen order, duplicates dropped".
pub open spec fn fold_eids(existing: Seq<EntryId>, src: Seq<RuleEntry>) -> Seq<EntryId>
    decreases src.len(),
{
    if src.len() == 0 {
        existing
    } else {
        let prev = fold_eids(existing, src.drop_last());
        if prev.contains(eid_of(src.last())) {
            prev
        } else {
            prev.push(eid_of(src.last()))
        }
    }
}

/// The (kind, polarity) keys of a block list, in order.
pub open spec fn key_seq(bs: Seq<EventBlock>) -> Seq<(EventKind, Polarity)> {
    bs.map_values(|b: EventBlock| (b.kind, b.polarity))
}

/// The (kind, polarity) key order after folding one fragment group's blocks
/// into an accumulated block list with the given key order: a block with a
/// new key appends it, in fragment order; one already present changes
/// nothing. This pins "blocks in first-seen order".
pub open spec fn fold_key_seq(existing: Seq<(EventKind, Polarity)>, src: Seq<EventBlock>)
    -> Seq<(EventKind, Polarity)>
    decreases src.len(),
{
    if src.len() == 0 {
        existing
    } else {
        let prev = fold_key_seq(existing, src.drop_last());
        let k = (src.last().kind, src.last().polarity);
        if prev.contains(k) {
            prev
        } else {
            prev.push(k)
        }
    }
}

/// The relations of a group list, in order.
pub open spec fn rel_seq(gs: Seq<RuleGroup>) -> Seq<Relation> {
    gs.map_values(|g: RuleGroup| g.relation)
}

/// The relation order after folding one fragment's groups into a state with
/// the given relation order: a fragment group with at least one block whose
/// relation is new appends it; everything else leaves the order alone. This
/// pins "one accumulated group per distinct relation value, in the order
/// first observed".
pub open spec fn fold_rels(existing: Seq<Relation>, frag: Seq<RuleGroup>) -> Seq<Relation>
    decreases frag.len(),
{
    if frag.len() == 0 {
        existing
    } else {
        let prev = fold_rels(existing, frag.drop_last());
        let g = frag.last();
        if g.blocks@.len() == 0 || prev.contains(g.relation) {
            prev
        } else {
            prev.push(g.relation)
        }
    }
}

/// The relation order after folding a sequence of fragments into an empty
/// accumulator: distinct relation values in the order first observed.
pub open spec fn fold_rels_all(frags: Seq<Seq<RuleGroup>>) -> Seq<Relation>
    decreases frags.len(),
{
    if frags.len() == 0 {
        Seq::empty()
    } else {
        fold_rels(fold_rels_all(frags.drop_last()), frags.last())
    }
}

/// The relation and block-key order of one accumulated group.
pub type GroupKeys = (Relation, Seq<(EventKind, Polarity)>);

/// The relation and block-key order of each accumulated group, in order.
pub open spec fn gk_view(gs: Seq<RuleGroup>) -> Seq<GroupKeys> {
    gs.map_values(|g: RuleGroup| (g.relation, key_seq(g.blocks@)))
}

/// The first index with the given relation; the length when none has it.
pub open spec fn find_rel(state: Seq<GroupKeys>, rel: Relation) -> int
    decreases state.len(),
{
    if state.len() == 0 {
        0
    } else if state.first().0 == rel {
        0
    } else {
        1 + find_rel(state.drop_first(), rel)
    }
}

proof fn lemma_find_rel(state: Seq<GroupKeys>, rel: Relation)
    ensures
        0 <= find_rel(state, rel) <= state.len(),
        find_rel(state, rel) < state.len() ==> state[find_rel(state, rel)].0 == rel,
        forall|j: int| 0 <= j < find_rel(state, rel) ==> (#[trigger] state[j]).0 != rel,
    decreases state.len(),
{
    if state.len() > 0 && state.first().0 != rel {
        lemma_find_rel(state.drop_first(), rel);
        assert forall|j: int| 0 <= j < find_rel(state, rel)
            implies (#[trigger] state[j]).0 != rel by {
            if j > 0 {
                assert(state.drop_first()[j - 1] == state[j]);
            }
        }
        if find_rel(state, rel) < state.len() {
            assert(state.drop_first()[find_rel(state, rel) - 1] == state[find_rel(state, rel)]);
        }
    }
}

proof fn lemma_group_view_step(before: Seq<RuleGroup>, after: Seq<RuleGroup>, g: RuleGroup)
    requires
        g.blocks@.len() == 0 ==> after == before,
        g.blocks@.len() > 0 ==> exists|gi: int| {
            &&& 0 <= gi <= before.len()
            &&& gi < after.len()
            &&& after.len() == if gi < before.len() {
                before.len()
            } else {
                before.len() + 1
            }
            &&& (#[trigger] after[gi]).relation == g.relation
            &&& gi < before.len() ==> before[gi].relation == g.relation
            &&& forall|j: int| 0 <= j < gi ==> (#[trigger] before[j]).relation != g.relation
            &&& key_seq(after[gi].blocks@) == fold_key_seq(
                if gi < before.len() {
                    key_seq(before[gi].blocks@)
                } else {
                    Seq::empty()
                }, g.blocks@)
            &&& forall|j: int| 0 <= j < after.len() && j != gi ==> after[j] == before[j]
        },
    ensures
        gk_view(after) == fold_group_view(gk_view(before), g),
{
    if g.blocks@.len() == 0 {
        assert(gk_view(after) == gk_view(before));
    } else {
        let gi = choose|gi: int| {
            &&& 0 <= gi <= before.len()
            &&& gi < after.len()
            &&& after.len() == if gi < before.len() {
                before.len()
            } else {
                before.len() + 1
            }
            &&& (#[trigger] after[gi]).relation == g.relation
            &&& gi < before.len() ==> before[gi].relation == g.relation
            &&& forall|j: int| 0 <= j < gi ==> (#[trigger] before[j]).relation != g.relation
            &&& key_seq(after[gi].blocks@) == fold_key_seq(
                if gi < before.len() {
                    key_seq(before[gi].blocks@)
                } else {
                    Seq::empty()
                }, g.blocks@)
            &&& forall|j: int| 0 <= j < after.len() && j != gi ==> after[j] == before[j]
        };
        let bv = gk_view(before);
        lemma_find_rel(bv, g.relation);
        assert(find_rel(bv, g.relation) == gi) by {
            assert(forall|j: int| 0 <= j < gi ==> (#[trigger] bv[j]).0 != g.relation);
            if gi < before.len() {
                assert(bv[gi].0 == g.relation);
                if find_rel(bv, g.relation) < gi {
                    assert(bv[find_rel(bv, g.relation)].0 != g.relation);
                }
            } else {
                if find_rel(bv, g.relation) < bv.len() {
                    assert(bv[find_rel(bv, g.relation)].0 != g.relation);
                }
            }
        }
        if gi < before.len() {
            assert(gk_view(after) =~= bv.update(gi,
                (g.relation, fold_key_seq(bv[gi].1, g.blocks@)))) by {
                assert forall|x: int| 0 <= x < after.len() && x != gi
                    implies gk_view(after)[x] == bv[x] by {
                    assert(after[x] == before[x]);
                }
            }
        } else {
            assert(gk_view(after) =~= bv.push(
                (g.relation, fold_key_seq(Seq::empty(), g.blocks@)))) by {
                assert forall|x: int| 0 <= x < before.len()
                    implies gk_view(after)[x] == bv[x] by {
                    assert(after[x] == before[x]);
                }
            }
        }
    }
}

/// The group view after folding one fragment group: a group with blocks
/// either extends the first group with its relation by its new keys, in
/// fragment order, or appends a fresh group; an empty group changes nothing.
pub open spec fn fold_group_view(state: Seq<GroupKeys>, g: RuleGroup) -> Seq<GroupKeys> {
    if g.blocks@.len() == 0 {
        state
    } else {
        let i = find_rel(state, g.relation);
        if i < state.len() {
            state.update(i, (g.relation, fold_key_seq(state[i].1, g.blocks@)))
        } else {
            state.push((g.relation, fold_key_seq(Seq::empty(), g.blocks@)))
        }
    }
}

/// The group view after folding one fragment's groups in order.
pub open spec fn fold_frag_view(state: Seq<GroupKeys>, frag: Seq<RuleGroup>) -> Seq<GroupKeys>
    decreases frag.len(),
{
    if frag.len() == 0 {
        state
    } else {
        fold_group_view(fold_frag_view(state, frag.drop_last()), frag.last())
    }
}

/// The group view after folding a sequence of fragments into an empty
/// accumulator: the relation of each emitted group and the first-seen order
/// of its block keys.
pub open spec fn fold_views_all(frags: Seq<Seq<RuleGroup>>) -> Seq<GroupKeys>
    decreases frags.len(),
{
    if frags.len() == 0 {
        Seq::empty()
    } else {
        fold_frag_view(fold_views_all(frags.drop_last()), frags.last())
    }
}

/// The retained rule identities after folding a sequence of fragments, each
/// given as its extracted rule groups, into an empty accumulator.
pub open spec fn fold_rids(frags: Seq<Seq<RuleGroup>>) -> Set<RuleId>
    decreases frags.len(),
{
    if frags.len() == 0 {
        Set::empty()
    } else {
        fold_rids(frags.drop_last()).union(groups_rids(frags.last()))
    }
}

/// The retained block keys after folding a sequence of fragments into an
/// empty accumulator.
pub open spec fn fold_keys(frags: Seq<Seq<RuleGroup>>) -> Set<RuleKey>
    decreases frags.len(),
{
    if frags.len() == 0 {
        Set::empty()
    } else {
        fold_keys(frags.drop_last()).union(groups_keys(frags.last()))
    }
}

/// Whether two entries have the same identity triple.
fn same_entry(a: &RuleEntry, b: &RuleEntry) -> (r: bool)
    ensures
        r == (eid_of(*a) == eid_of(*b)),
{
    let r = chars_eq(a.field.as_slice(), b.field.as_slice()) && a.op == b.op
        && chars_eq(a.value.as_slice(), b.value.as_slice());
    proof {
        if r {
            assert(eid_of(*a) == eid_of(*b));
        } else {
            assert(eid_of(*a) != eid_of(*b));
        }
    }
    r
}

/// Whether an entry with the same identity triple is already present.
fn entry_in(es: &Vec<RuleEntry>, e: &RuleEntry) -> (r: bool)
    ensures
        r == eids(es@).contains(eid_of(*e)),
{
    let mut i: usize = 0;
    while i < es.len()
        invariant
            i <= es@.len(),
            forall|j: int| 0 <= j < i ==> eid_of(#[trigger] es@[j]) != eid_of(*e),
        decreases es@.len() - i,
    {
        if same_entry(&es[i], e) {
            proof {
                assert(eids(es@).contains(eid_of(*e))) by {
                    assert(eid_of(*e) == eid_of(es@[i as int]));
                }
            }
            return true;
        }
        i = i + 1;
    }
    proof {
        if eids(es@).contains(eid_of(*e)) {
            let j = choose|j: int| 0 <= j < es@.len() && eid_of(*e) == eid_of(es@[j]);
            assert(eid_of(es@[j]) != eid_of(*e));
        }
    }
    false
}

/// Copies a character vector.
pub fn copy_chars(v: &Vec<char>) -> (r: Vec<char>)
    ensures
        r@ == v@,
{
    let mut r: Vec<char> = Vec::new();
    let mut i: usize = 0;
    while i < v.len()
        invariant
            i <= v@.len(),
            r@ == v@.take(i as int),
        decreases v@.len() - i,
    {
        r.push(v[i]);
        i = i + 1;
        proof {
            assert(r@ =~= v@.take(i as int));
        }
    }
    proof {
        assert(r@ =~= v@);
    }
    r
}

/// Copies an entry, identity triple and label alike.
fn copy_entry(e: &RuleEntry) -> (r: RuleEntry)
    ensures
        eid_of(r) == eid_of(*e),
        label_of(r) == label_of(*e),
{
    let label = match &e.label {
        Some(l) => Some(copy_chars(l)),
        None => None,
    };
    RuleEntry { field: copy_chars(&e.field), op: e.op, value: copy_chars(&e.value), label }
}

proof fn lemma_eids_push(es: Seq<RuleEntry>, e: RuleEntry)
    ensures
        eids(es.push(e)) == eids(es).insert(eid_of(e)),
{
    assert forall|t: EntryId| eids(es.push(e)).contains(t)
        implies eids(es).insert(eid_of(e)).contains(t) by {
        let i = choose|i: int| 0 <= i < es.push(e).len() && t == eid_of(#[trigger] es.push(e)[i]);
        if i < es.len() {
            assert(es.push(e)[i] == es[i]);
            assert(t == eid_of(es[i]));
        } else {
            assert(es.push(e)[i] == e);
        }
    }
    assert forall|t: EntryId| eids(es).insert(eid_of(e)).contains(t)
        implies eids(es.push(e)).contains(t) by {
        if eids(es).contains(t) {
            let i = choose|i: int| 0 <= i < es.len() && t == eid_of(#[trigger] es[i]);
            assert(es.push(e)[i] == es[i]);
            assert(t == eid_of(es.push(e)[i]));
        } else {
            assert(t == eid_of(e));
            assert(es.push(e)[es.len() as int] == e);
            assert(t == eid_of(es.push(e)[es.len() as int]));
        }
    }
    assert(eids(es.push(e)) =~= eids(es).insert(eid_of(e)));
}

proof fn lemma_eid_seq_contains(es: Seq<RuleEntry>, t: EntryId)
    ensures
        eid_seq(es).contains(t) <==> eids(es).contains(t),
{
    if eid_seq(es).contains(t) {
        let k = choose|k: int| 0 <= k < eid_seq(es).len() && eid_seq(es)[k] == t;
        assert(t == eid_of(es[k]));
    }
    if eids(es).contains(t) {
        let k = choose|k: int| 0 <= k < es.len() && t == eid_of(#[trigger] es[k]);
        assert(eid_seq(es)[k] == t);
    }
}

proof fn lemma_wf_entries_push(es: Seq<RuleEntry>, e: RuleEntry)
    requires
        wf_entries(es),
        !eids(es).contains(eid_of(e)),
    ensures
        wf_entries(es.push(e)),
{
    assert forall|i: int, j: int| 0 <= i < j < es.push(e).len()
        implies eid_of(#[trigger] es.push(e)[i]) != eid_of(#[trigger] es.push(e)[j]) by {
        if j < es.len() {
            assert(es.push(e)[i] == es[i]);
            assert(es.push(e)[j] == es[j]);
        } else {
            assert(es.push(e)[j] == e);
            assert(es.push(e)[i] == es[i]);
            if eid_of(es[i]) == eid_of(e) {
                assert(eids(es).contains(eid_of(e))) by {
                    assert(eid_of(e) == eid_of(es[i]));
                }
            }
        }
    }
}

/// Appends to `dst` each entry of `src` whose identity triple is not already
/// present; entries already present are dropped. Existing entries stay in
/// place; retained identities become the union.
fn add_entries(dst: &mut Vec<RuleEntry>, src: &Vec<RuleEntry>)
    requires
        wf_entries(old(dst)@),
    ensures
        wf_entries(final(dst)@),
        eids(final(dst)@) == eids(old(dst)@).union(eids(src@)),
        eid_seq(final(dst)@) == fold_eids(eid_seq(old(dst)@), src@),
        final(dst)@.len() >= old(dst)@.len(),
        forall|i: int| 0 <= i < old(dst)@.len() ==> final(dst)@[i] == old(dst)@[i],
{
    let ghost d0 = dst@;
    let ghost ss = src@;
    let mut i: usize = 0;
    proof {
        assert(eids(ss.take(0)) =~= Set::<EntryId>::empty());
        assert(eids(d0) =~= eids(d0).union(eids(ss.take(0))));
    }
    while i < src.len()
        invariant
            i <= ss.len(),
            src@ == ss,
            wf_entries(dst@),
            eids(dst@) == eids(d0).union(eids(ss.take(i as int))),
            eid_seq(dst@) == fold_eids(eid_seq(d0), ss.take(i as int)),
            dst@.len() >= d0.len(),
            forall|k: int| 0 <= k < d0.len() ==> dst@[k] == d0[k],
        decreases ss.len() - i,
    {
        let e = &src[i];
        proof {
            assert(ss.take(i as int + 1).drop_last() =~= ss.take(i as int));
            assert(ss.take(i as int + 1) =~= ss.take(i as int).push(ss[i as int]));
            assert(ss.take(i as int + 1).last() == ss[i as int]);
            lemma_eids_push(ss.take(i as int), ss[i as int]);
            lemma_eid_seq_contains(dst@, eid_of(ss[i as int]));
        }
        if !entry_in(dst, e) {
            let ghost dprev = dst@;
            let ecopy = copy_entry(e);
            proof {
                lemma_wf_entries_push(dprev, ecopy);
                lemma_eids_push(dprev, ecopy);
            }
            dst.push(ecopy);
            proof {
                assert(eids(dst@) =~= eids(d0).union(eids(ss.take(i as int + 1))));
                assert(eid_seq(dst@) =~= eid_seq(dprev).push(eid_of(ecopy)));
                assert(eid_seq(dst@) =~= fold_eids(eid_seq(d0), ss.take(i as int + 1)));
            }
        } else {
            proof {
                assert(eids(dst@) =~= eids(d0).union(eids(ss.take(i as int + 1))));
                assert(eid_seq(dst@) =~= fold_eids(eid_seq(d0), ss.take(i as int + 1)));
            }
        }
        i = i + 1;
    }
    proof {
        assert(ss.take(i as int) =~= ss);
    }
}

proof fn lemma_block_rids_tag(rel: Relation, b: EventBlock)
    ensures
        block_rids(rel, b) == tag_ids(rel, b.kind, b.polarity, eids(b.entries@)),
{
    assert forall|t: RuleId| block_rids(rel, b).contains(t)
        implies tag_ids(rel, b.kind, b.polarity, eids(b.entries@)).contains(t) by {
        let i = choose|i: int| 0 <= i < b.entries@.len()
            && t == rid_of(rel, b.kind, b.polarity, #[trigger] b.entries@[i]);
        assert(EntryId { field: t.field, op: t.op, value: t.value } == eid_of(b.entries@[i]));
    }
    assert forall|t: RuleId| tag_ids(rel, b.kind, b.polarity, eids(b.entries@)).contains(t)
        implies block_rids(rel, b).contains(t) by {
        let te = EntryId { field: t.field, op: t.op, value: t.value };
        let i = choose|i: int| 0 <= i < b.entries@.len() && te == eid_of(#[trigger] b.entries@[i]);
        assert(t == rid_of(rel, b.kind, b.polarity, b.entries@[i]));
    }
    assert(block_rids(rel, b) =~= tag_ids(rel, b.kind, b.polarity, eids(b.entries@)));
}

/// The index of the block with the given key, if one exists.
fn find_block(blocks: &Vec<EventBlock>, kind: EventKind, pol: Polarity) -> (r: Option<usize>)
    ensures
        match r {
            Some(i) => i < blocks@.len() && blocks@[i as int].kind == kind
                && blocks@[i as int].polarity == pol && forall|j: int| 0 <= j < i
                ==> !((#[trigger] blocks@[j]).kind == kind && blocks@[j].polarity == pol),
            None => forall|i: int| 0 <= i < blocks@.len()
                ==> !((#[trigger] blocks@[i]).kind == kind && blocks@[i].polarity == pol),
        },
{
    let mut i: usize = 0;
    while i < blocks.len()
        invariant
            i <= blocks@.len(),
            forall|j: int| 0 <= j < i
                ==> !((#[trigger] blocks@[j]).kind == kind && blocks@[j].polarity == pol),
        decreases blocks@.len() - i,
    {
        if blocks[i].kind == kind && blocks[i].polarity == pol {
            return Some(i);
        }
        i = i + 1;
    }
    None
}

proof fn lemma_blocks_rids_update(rel: Relation, s: Seq<EventBlock>, bi: int, nb: EventBlock,
    added: Set<RuleId>)
    requires
        0 <= bi < s.len(),
        block_rids(rel, nb) == block_rids(rel, s[bi]).union(added),
        added.subset_of(tag_ids(rel, s[bi].kind, s[bi].polarity,
            Set::new(|e: EntryId| true))),
        nb.kind == s[bi].kind,
        nb.polarity == s[bi].polarity,
    ensures
        blocks_rids(rel, s.update(bi, nb)) == blocks_rids(rel, s).union(added),
{
    let su = s.update(bi, nb);
    assert forall|t: RuleId| blocks_rids(rel, su).contains(t)
        implies blocks_rids(rel, s).union(added).contains(t) by {
        let i = choose|i: int| 0 <= i < su.len() && #[trigger] block_rids(rel, su[i]).contains(t);
        if i == bi {
            assert(block_rids(rel, nb).contains(t));
            if block_rids(rel, s[bi]).contains(t) {
                assert(blocks_rids(rel, s).contains(t));
            }
        } else {
            assert(su[i] == s[i]);
            assert(blocks_rids(rel, s).contains(t));
        }
    }
    assert forall|t: RuleId| blocks_rids(rel, s).union(added).contains(t)
        implies blocks_rids(rel, su).contains(t) by {
        if blocks_rids(rel, s).contains(t) {
            let i = choose|i: int| 0 <= i < s.len() && #[trigger] block_rids(rel, s[i]).contains(t);
            if i == bi {
                assert(block_rids(rel, nb).contains(t));
                assert(block_rids(rel, su[bi]).contains(t));
            } else {
                assert(su[i] == s[i]);
                assert(block_rids(rel, su[i]).contains(t));
            }
        } else {
            assert(block_rids(rel, nb).contains(t));
            assert(block_rids(rel, su[bi]).contains(t));
        }
    }
    assert(blocks_rids(rel, su) =~= blocks_rids(rel, s).union(added));
}

proof fn lemma_blocks_keys_update(rel: Relation, s: Seq<EventBlock>, bi: int, nb: EventBlock)
    requires
        0 <= bi < s.len(),
        nb.kind == s[bi].kind,
        nb.polarity == s[bi].polarity,
    ensures
        blocks_keys(rel, s.update(bi, nb)) == blocks_keys(rel, s),
        blocks_keys(rel, s).contains(RuleKey { relation: rel, kind: nb.kind, polarity: nb.polarity }),
{
    let su = s.update(bi, nb);
    assert forall|k: RuleKey| blocks_keys(rel, su).contains(k)
        implies blocks_keys(rel, s).contains(k) by {
        let i = choose|i: int| 0 <= i < su.len()
            && (#[trigger] su[i]).kind == k.kind && su[i].polarity == k.polarity;
        if i == bi {
            assert(s[bi].kind == k.kind && s[bi].polarity == k.polarity);
        } else {
            assert(s[i].kind == k.kind && s[i].polarity == k.polarity);
        }
    }
    assert forall|k: RuleKey| blocks_keys(rel, s).contains(k)
        implies blocks_keys(rel, su).contains(k) by {
        let i = choose|i: int| 0 <= i < s.len()
            && (#[trigger] s[i]).kind == k.kind && s[i].polarity == k.polarity;
        if i == bi {
            assert(su[bi].kind == k.kind && su[bi].polarity == k.polarity);
        } else {
            assert(su[i].kind == k.kind && su[i].polarity == k.polarity);
        }
    }
    assert(blocks_keys(rel, su) =~= blocks_keys(rel, s));
    assert(s[bi].kind == nb.kind && s[bi].polarity == nb.polarity);
}

proof fn lemma_blocks_push(rel: Relation, s: Seq<EventBlock>, nb: EventBlock)
    ensures
        blocks_rids(rel, s.push(nb)) == blocks_rids(rel, s).union(block_rids(rel, nb)),
        blocks_keys(rel, s.push(nb)) == blocks_keys(rel, s).insert(
            RuleKey { relation: rel, kind: nb.kind, polarity: nb.polarity }),
{
    let sp = s.push(nb);
    assert forall|t: RuleId| blocks_rids(rel, sp).contains(t)
        implies blocks_rids(rel, s).union(block_rids(rel, nb)).contains(t) by {
        let i = choose|i: int| 0 <= i < sp.len() && #[trigger] block_rids(rel, sp[i]).contains(t);
        if i < s.len() {
            assert(sp[i] == s[i]);
            assert(block_rids(rel, s[i]).contains(t));
        } else {
            assert(sp[i] == nb);
        }
    }
    assert forall|t: RuleId| blocks_rids(rel, s).union(block_rids(rel, nb)).contains(t)
        implies blocks_rids(rel, sp).contains(t) by {
        if blocks_rids(rel, s).contains(t) {
            let i = choose|i: int| 0 <= i < s.len() && #[trigger] block_rids(rel, s[i]).contains(t);
            assert(sp[i] == s[i]);
            assert(block_rids(rel, sp[i]).contains(t));
        } else {
            assert(sp[s.len() as int] == nb);
            assert(block_rids(rel, sp[s.len() as int]).contains(t));
        }
    }
    assert(blocks_rids(rel, sp) =~= blocks_rids(rel, s).union(block_rids(rel, nb)));
    let nk = RuleKey { relation: rel, kind: nb.kind, polarity: nb.polarity };
    assert forall|k: RuleKey| blocks_keys(rel, sp).contains(k)
        implies blocks_keys(rel, s).insert(nk).contains(k) by {
        let i = choose|i: int| 0 <= i < sp.len()
            && (#[trigger] sp[i]).kind == k.kind && sp[i].polarity == k.polarity;
        if i < s.len() {
            assert(s[i].kind == k.kind && s[i].polarity == k.polarity);
        } else {
            assert(sp[i] == nb);
            assert(k == nk);
        }
    }
    assert forall|k: RuleKey| blocks_keys(rel, s).insert(nk).contains(k)
        implies blocks_keys(rel, sp).contains(k) by {
        if blocks_keys(rel, s).contains(k) {
            let i = choose|i: int| 0 <= i < s.len()
                && (#[trigger] s[i]).kind == k.kind && s[i].polarity == k.polarity;
            assert(sp[i].kind == k.kind && sp[i].polarity == k.polarity);
        } else {
            assert(sp[s.len() as int].kind == k.kind && sp[s.len() as int].polarity == k.polarity);
        }
    }
    assert(blocks_keys(rel, sp) =~= blocks_keys(rel, s).insert(nk));
}

/// Folds one event-type block of a fragment into an accumulated block list:
/// finds or appends the block with the same key and appends the entries not
/// already present under it.
fn add_block(blocks: &mut Vec<EventBlock>, kind: EventKind, pol: Polarity, src: &Vec<RuleEntry>)
    requires
        wf_blocks(old(blocks)@),
    ensures
        wf_blocks(final(blocks)@),
        forall|rel: Relation| blocks_rids(rel, final(blocks)@)
            == blocks_rids(rel, old(blocks)@).union(tag_ids(rel, kind, pol, eids(src@))),
        forall|rel: Relation| blocks_keys(rel, final(blocks)@)
            == blocks_keys(rel, old(blocks)@).insert(
                RuleKey { relation: rel, kind, polarity: pol }),
        blocks_extend(final(blocks)@, old(blocks)@),
        key_seq(final(blocks)@) == (if key_seq(old(blocks)@).contains((kind, pol)) {
            key_seq(old(blocks)@)
        } else {
            key_seq(old(blocks)@).push((kind, pol))
        }),
        exists|bi: int| {
            &&& 0 <= bi < final(blocks)@.len()
            &&& (#[trigger] final(blocks)@[bi]).kind == kind
            &&& final(blocks)@[bi].polarity == pol
            &&& forall|j: int| 0 <= j < bi ==> !((#[trigger] old(blocks)@[j]).kind == kind
                && old(blocks)@[j].polarity == pol)
            &&& eid_seq(final(blocks)@[bi].entries@) == fold_eids(
                if bi < old(blocks)@.len() {
                    eid_seq(old(blocks)@[bi].entries@)
                } else {
                    Seq::empty()
                }, src@)
            &&& forall|j: int| 0 <= j < final(blocks)@.len() && j != bi
                ==> final(blocks)@[j] == old(blocks)@[j]
        },
{
    let ghost b0 = blocks@;
    match find_block(blocks, kind, pol) {
        Some(bi) => {
            let mut blk = blocks.remove(bi);
            let ghost oldblk = blk;
            add_entries(&mut blk.entries, src);
            let ghost nb = blk;
            blocks.insert(bi, blk);
            proof {
                assert(blocks@ =~= b0.update(bi as int, nb));
                assert forall|rel: Relation| blocks_rids(rel, blocks@)
                    =~= blocks_rids(rel, b0).union(tag_ids(rel, kind, pol, eids(src@))) by {
                    lemma_block_rids_tag(rel, oldblk);
                    lemma_block_rids_tag(rel, nb);
                    let added = tag_ids(rel, kind, pol, eids(src@));
                    assert(block_rids(rel, nb)
                        =~= block_rids(rel, b0[bi as int]).union(added)) by {
                        assert(eids(nb.entries@) == eids(oldblk.entries@).union(eids(src@)));
                        assert forall|t: RuleId| block_rids(rel, nb).contains(t)
                            implies block_rids(rel, b0[bi as int]).union(added).contains(t) by {
                            assert(tag_ids(rel, kind, pol, eids(nb.entries@)).contains(t));
                        }
                        assert forall|t: RuleId| block_rids(rel, b0[bi as int]).union(added).contains(t)
                            implies block_rids(rel, nb).contains(t) by {
                            assert(tag_ids(rel, kind, pol, eids(nb.entries@)).contains(t));
                        }
                    }
                    assert(added.subset_of(tag_ids(rel, b0[bi as int].kind,
                        b0[bi as int].polarity, Set::new(|e: EntryId| true))));
                    lemma_blocks_rids_update(rel, b0, bi as int, nb, added);
                }
                assert forall|rel: Relation| blocks_keys(rel, blocks@)
                    =~= blocks_keys(rel, b0).insert(
                        RuleKey { relation: rel, kind, polarity: pol }) by {
                    lemma_blocks_keys_update(rel, b0, bi as int, nb);
                    assert(blocks_keys(rel, b0).insert(
                        RuleKey { relation: rel, kind, polarity: pol }) =~= blocks_keys(rel, b0));
                }
                assert(wf_blocks(blocks@)) by {
                    assert forall|i: int, j: int| 0 <= i < j < blocks@.len()
                        implies !((#[trigger] blocks@[i]).kind == (#[trigger] blocks@[j]).kind
                            && blocks@[i].polarity == blocks@[j].polarity) by {
                        assert(blocks@[i] == if i == bi as int { nb } else { b0[i] });
                        assert(blocks@[j] == if j == bi as int { nb } else { b0[j] });
                    }
                    assert forall|i: int| 0 <= i < blocks@.len()
                        implies wf_entries((#[trigger] blocks@[i]).entries@) by {
                        assert(blocks@[i] == if i == bi as int { nb } else { b0[i] });
                    }
                }
                assert(key_seq(b0).contains((kind, pol))) by {
                    assert(key_seq(b0)[bi as int] == (kind, pol));
                }
                assert(key_seq(blocks@) =~= key_seq(b0)) by {
                    assert forall|x: int| 0 <= x < blocks@.len()
                        implies key_seq(blocks@)[x] == key_seq(b0)[x] by {
                        assert(blocks@[x] == if x == bi as int { nb } else { b0[x] });
                    }
                }
                assert(blocks@[bi as int] == nb);
                assert(eid_seq(blocks@[bi as int].entries@)
                    == fold_eids(eid_seq(b0[bi as int].entries@), src@));
                assert(forall|j: int| 0 <= j < blocks@.len() && j != bi as int
                    ==> blocks@[j] == b0[j]);
            }
        },
        None => {
            let mut es: Vec<RuleEntry> = Vec::new();
            add_entries(&mut es, src);
            let blk = EventBlock { kind, polarity: pol, entries: es };
            let ghost nb = blk;
            blocks.push(blk);
            proof {
                assert(eids(nb.entries@) =~= Set::<EntryId>::empty().union(eids(src@)));
                assert forall|rel: Relation| blocks_rids(rel, blocks@)
                    =~= blocks_rids(rel, b0).union(tag_ids(rel, kind, pol, eids(src@))) by {
                    lemma_blocks_push(rel, b0, nb);
                    lemma_block_rids_tag(rel, nb);
                    assert(tag_ids(rel, kind, pol, eids(nb.entries@))
                        =~= tag_ids(rel, kind, pol, eids(src@)));
                }
                assert forall|rel: Relation| blocks_keys(rel, blocks@)
                    =~= blocks_keys(rel, b0).insert(
                        RuleKey { relation: rel, kind, polarity: pol }) by {
                    lemma_blocks_push(rel, b0, nb);
                }
                assert(wf_blocks(blocks@)) by {
                    assert forall|i: int, j: int| 0 <= i < j < blocks@.len()
                        implies !((#[trigger] blocks@[i]).kind == (#[trigger] blocks@[j]).kind
                            && blocks@[i].polarity == blocks@[j].polarity) by {
                        if j == b0.len() as int {
                            assert(blocks@[i] == b0[i]);
                            assert(blocks@[j] == nb);
                        } else {
                            assert(blocks@[i] == b0[i] && blocks@[j] == b0[j]);
                        }
                    }
                    assert forall|i: int| 0 <= i < blocks@.len()
                        implies wf_entries((#[trigger] blocks@[i]).entries@) by {
                        if i < b0.len() as int {
                            assert(blocks@[i] == b0[i]);
                        } else {
                            assert(blocks@[i] == nb);
                        }
                    }
                }
                assert(!key_seq(b0).contains((kind, pol))) by {
                    if key_seq(b0).contains((kind, pol)) {
                        let w = choose|w: int| 0 <= w < key_seq(b0).len()
                            && key_seq(b0)[w] == (kind, pol);
                        assert(b0[w].kind == kind && b0[w].polarity == pol);
                    }
                }
                assert(key_seq(blocks@) =~= key_seq(b0).push((kind, pol))) by {
                    assert forall|x: int| 0 <= x < b0.len()
                        implies key_seq(blocks@)[x] == key_seq(b0)[x] by {
                        assert(blocks@[x] == b0[x]);
                    }
                    assert(blocks@[b0.len() as int] == nb);
                }
                assert(eid_seq(Seq::<RuleEntry>::empty()) =~= Seq::<EntryId>::empty());
                assert(blocks@[b0.len() as int] == nb);
                assert(eid_seq(blocks@[b0.len() as int].entries@)
                    == fold_eids(Seq::empty(), src@));
                assert(forall|j: int| 0 <= j < blocks@.len() && j != b0.len() as int
                    ==> blocks@[j] == b0[j]);
            }
        },
    }
}

/// The index of the accumulated group with the given relation, if one exists.
fn find_group(gs: &Vec<RuleGroup>, rel: Relation) -> (r: Option<usize>)
    ensures
        match r {
            Some(i) => i < gs@.len() && gs@[i as int].relation == rel
                && forall|j: int| 0 <= j < i ==> (#[trigger] gs@[j]).relation != rel,
            None => forall|i: int| 0 <= i < gs@.len()
                ==> (#[trigger] gs@[i]).relation != rel,
        },
{
    let mut i: usize = 0;
    while i < gs.len()
        invariant
            i <= gs@.len(),
            forall|j: int| 0 <= j < i ==> (#[trigger] gs@[j]).relation != rel,
        decreases gs@.len() - i,
    {
        if gs[i].relation == rel {
            return Some(i);
        }
        i = i + 1;
    }
    None
}

proof fn lemma_groups_update(s: Seq<RuleGroup>, gi: int, ng: RuleGroup,
    addr: Set<RuleId>, addk: Set<RuleKey>)
    requires
        0 <= gi < s.len(),
        ng.relation == s[gi].relation,
        blocks_rids(ng.relation, ng.blocks@)
            == blocks_rids(ng.relation, s[gi].blocks@).union(addr),
        blocks_keys(ng.relation, ng.blocks@)
            == blocks_keys(ng.relation, s[gi].blocks@).union(addk),
    ensures
        groups_rids(s.update(gi, ng)) == groups_rids(s).union(addr),
        groups_keys(s.update(gi, ng)) == groups_keys(s).union(addk),
{
    let su = s.update(gi, ng);
    assert forall|t: RuleId| groups_rids(su).contains(t)
        implies groups_rids(s).union(addr).contains(t) by {
        let i = choose|i: int| 0 <= i < su.len()
            && #[trigger] blocks_rids(su[i].relation, su[i].blocks@).contains(t);
        if i == gi {
            if blocks_rids(s[gi].relation, s[gi].blocks@).contains(t) {
                assert(groups_rids(s).contains(t));
            }
        } else {
            assert(su[i] == s[i]);
            assert(blocks_rids(s[i].relation, s[i].blocks@).contains(t));
        }
    }
    assert forall|t: RuleId| groups_rids(s).union(addr).contains(t)
        implies groups_rids(su).contains(t) by {
        if groups_rids(s).contains(t) {
            let i = choose|i: int| 0 <= i < s.len()
                && #[trigger] blocks_rids(s[i].relation, s[i].blocks@).contains(t);
            if i == gi {
                assert(blocks_rids(su[gi].relation, su[gi].blocks@).contains(t));
            } else {
                assert(su[i] == s[i]);
                assert(blocks_rids(su[i].relation, su[i].blocks@).contains(t));
            }
        } else {
            assert(blocks_rids(su[gi].relation, su[gi].blocks@).contains(t));
        }
    }
    assert(groups_rids(su) =~= groups_rids(s).union(addr));
    assert forall|k: RuleKey| groups_keys(su).contains(k)
        implies groups_keys(s).union(addk).contains(k) by {
        let i = choose|i: int| 0 <= i < su.len()
            && #[trigger] blocks_keys(su[i].relation, su[i].blocks@).contains(k);
        if i == gi {
            if blocks_keys(s[gi].relation, s[gi].blocks@).contains(k) {
                assert(groups_keys(s).contains(k));
            }
        } else {
            assert(su[i] == s[i]);
            assert(blocks_keys(s[i].relation, s[i].blocks@).contains(k));
        }
    }
    assert forall|k: RuleKey| groups_keys(s).union(addk).contains(k)
        implies groups_keys(su).contains(k) by {
        if groups_keys(s).contains(k) {
            let i = choose|i: int| 0 <= i < s.len()
                && #[trigger] blocks_keys(s[i].relation, s[i].blocks@).contains(k);
            if i == gi {
                assert(blocks_keys(su[gi].relation, su[gi].blocks@).contains(k));
            } else {
                assert(su[i] == s[i]);
                assert(blocks_keys(su[i].relation, su[i].blocks@).contains(k));
            }
        } else {
            assert(blocks_keys(su[gi].relation, su[gi].blocks@).contains(k));
        }
    }
    assert(groups_keys(su) =~= groups_keys(s).union(addk));
}

proof fn lemma_groups_push(s: Seq<RuleGroup>, ng: RuleGroup)
    ensures
        groups_rids(s.push(ng)) == groups_rids(s).union(blocks_rids(ng.relation, ng.blocks@)),
        groups_keys(s.push(ng)) == groups_keys(s).union(blocks_keys(ng.relation, ng.blocks@)),
{
    let sp = s.push(ng);
    assert forall|t: RuleId| groups_rids(sp).contains(t)
        implies groups_rids(s).union(blocks_rids(ng.relation, ng.blocks@)).contains(t) by {
        let i = choose|i: int| 0 <= i < sp.len()
            && #[trigger] blocks_rids(sp[i].relation, sp[i].blocks@).contains(t);
        if i < s.len() {
            assert(sp[i] == s[i]);
            assert(blocks_rids(s[i].relation, s[i].blocks@).contains(t));
        } else {
            assert(sp[i] == ng);
        }
    }
    assert forall|t: RuleId| groups_rids(s).union(blocks_rids(ng.relation, ng.blocks@)).contains(t)
        implies groups_rids(sp).contains(t) by {
        if groups_rids(s).contains(t) {
            let i = choose|i: int| 0 <= i < s.len()
                && #[trigger] blocks_rids(s[i].relation, s[i].blocks@).contains(t);
            assert(sp[i] == s[i]);
            assert(blocks_rids(sp[i].relation, sp[i].blocks@).contains(t));
        } else {
            assert(sp[s.len() as int] == ng);
            assert(blocks_rids(sp[s.len() as int].relation,
                sp[s.len() as int].blocks@).contains(t));
        }
    }
    assert(groups_rids(sp) =~= groups_rids(s).union(blocks_rids(ng.relation, ng.blocks@)));
    assert forall|k: RuleKey| groups_keys(sp).contains(k)
        implies groups_keys(s).union(blocks_keys(ng.relation, ng.blocks@)).contains(k) by {
        let i = choose|i: int| 0 <= i < sp.len()
            && #[trigger] blocks_keys(sp[i].relation, sp[i].blocks@).contains(k);
        if i < s.len() {
            assert(sp[i] == s[i]);
            assert(blocks_keys(s[i].relation, s[i].blocks@).contains(k));
        } else {
            assert(sp[i] == ng);
        }
    }
    assert forall|k: RuleKey| groups_keys(s).union(blocks_keys(ng.relation, ng.blocks@)).contains(k)
        implies groups_keys(sp).contains(k) by {
        if groups_keys(s).contains(k) {
            let i = choose|i: int| 0 <= i < s.len()
                && #[trigger] blocks_keys(s[i].relation, s[i].blocks@).contains(k);
            assert(sp[i] == s[i]);
            assert(blocks_keys(sp[i].relation, sp[i].blocks@).contains(k));
        } else {
            assert(sp[s.len() as int] == ng);
            assert(blocks_keys(sp[s.len() as int].relation,
                sp[s.len() as int].blocks@).contains(k));
        }
    }
    assert(groups_keys(sp) =~= groups_keys(s).union(blocks_keys(ng.relation, ng.blocks@)));
}

/// The merge accumulator: the retained rule groups, in first-seen relation
/// order.
pub struct Merged {
    pub groups: Vec<RuleGroup>,
}

impl Merged {
    /// The accumulated state is well-formed: one group per relation, one
    /// block per key within a group, no duplicate entry triple in a block.
    pub open spec fn wf(self) -> bool {
        wf_groups(self.groups@)
    }

    /// The retained rule identities.
    pub open spec fn rids(self) -> Set<RuleId> {
        groups_rids(self.groups@)
    }

    /// The retained block keys.
    pub open spec fn keys(self) -> Set<RuleKey> {
        groups_keys(self.groups@)
    }

    /// An empty accumulator.
    pub fn new() -> (r: Merged)
        ensures
            r.wf(),
            r.rids() == Set::<RuleId>::empty(),
            r.keys() == Set::<RuleKey>::empty(),
            r.groups@.len() == 0,
    {
        let r = Merged { groups: Vec::new() };
        proof {
            assert(r.rids() =~= Set::<RuleId>::empty());
            assert(r.keys() =~= Set::<RuleKey>::empty());
        }
        r
    }

    /// Folds one fragment rule group into the state.
    #[verifier::rlimit(100)]
    fn add_group(&mut self, g: &RuleGroup)
        requires
            old(self).wf(),
        ensures
            final(self).wf(),
            final(self).rids() == old(self).rids().union(
                blocks_rids(g.relation, g.blocks@)),
            final(self).keys() == old(self).keys().union(
                blocks_keys(g.relation, g.blocks@)),
            groups_extend(final(self).groups@, old(self).groups@),
            rel_seq(final(self).groups@) == if g.blocks@.len() == 0
                || rel_seq(old(self).groups@).contains(g.relation) {
                rel_seq(old(self).groups@)
            } else {
                rel_seq(old(self).groups@).push(g.relation)
            },
            g.blocks@.len() == 0 ==> final(self).groups@ == old(self).groups@,
            g.blocks@.len() > 0 ==> exists|gi: int| {
                &&& 0 <= gi <= old(self).groups@.len()
                &&& gi < final(self).groups@.len()
                &&& final(self).groups@.len() == if gi < old(self).groups@.len() {
                    old(self).groups@.len()
                } else {
                    old(self).groups@.len() + 1
                }
                &&& (#[trigger] final(self).groups@[gi]).relation == g.relation
                &&& gi < old(self).groups@.len()
                    ==> old(self).groups@[gi].relation == g.relation
                &&& forall|j: int| 0 <= j < gi
                    ==> (#[trigger] old(self).groups@[j]).relation != g.relation
                &&& key_seq(final(self).groups@[gi].blocks@) == fold_key_seq(
                    if gi < old(self).groups@.len() {
                        key_seq(old(self).groups@[gi].blocks@)
                    } else {
                        Seq::empty()
                    }, g.blocks@)
                &&& forall|j: int| 0 <= j < final(self).groups@.len() && j != gi
                    ==> final(self).groups@[j] == old(self).groups@[j]
            },
    {
        let ghost g0 = self.groups@;
        if g.blocks.len() == 0 {
            proof {
                assert(blocks_rids(g.relation, g.blocks@) =~= Set::<RuleId>::empty());
                assert(blocks_keys(g.relation, g.blocks@) =~= Set::<RuleKey>::empty());
                assert(self.rids() =~= self.rids().union(blocks_rids(g.relation, g.blocks@)));
                assert(self.keys() =~= self.keys().union(blocks_keys(g.relation, g.blocks@)));
                lemma_groups_extend_refl(self.groups@);
            }
            return;
        }
        let gi: usize = match find_group(&self.groups, g.relation) {
            Some(i) => {
                proof {
                    assert(rel_seq(g0).contains(g.relation)) by {
                        assert(rel_seq(g0)[i as int] == g.relation);
                    }
                }
                i
            },
            None => {
                proof {
                    assert(!rel_seq(g0).contains(g.relation)) by {
                        if rel_seq(g0).contains(g.relation) {
                            let w = choose|w: int| 0 <= w < rel_seq(g0).len()
                                && rel_seq(g0)[w] == g.relation;
                            assert(g0[w].relation == g.relation);
                        }
                    }
                }
                let ghost gp = self.groups@;
                self.groups.push(RuleGroup {
                    name: None,
                    relation: g.relation,
                    blocks: Vec::new(),
                });
                proof {
                    let ng = self.groups@.last();
                    lemma_groups_push(gp, ng);
                    assert(blocks_rids(ng.relation, ng.blocks@) =~= Set::<RuleId>::empty());
                    assert(blocks_keys(ng.relation, ng.blocks@) =~= Set::<RuleKey>::empty());
                    assert(groups_rids(self.groups@) =~= groups_rids(gp));
                    assert(groups_keys(self.groups@) =~= groups_keys(gp));
                    assert(rel_seq(self.groups@) =~= rel_seq(gp).push(g.relation));
                    assert(wf_groups(self.groups@)) by {
                        assert forall|i: int, j: int| 0 <= i < j < self.groups@.len()
                            implies (#[trigger] self.groups@[i]).relation
                                != (#[trigger] self.groups@[j]).relation by {
                            if j == gp.len() as int {
                                assert(self.groups@[i] == gp[i]);
                            } else {
                                assert(self.groups@[i] == gp[i] && self.groups@[j] == gp[j]);
                            }
                        }
                        assert forall|i: int| 0 <= i < self.groups@.len()
                            implies wf_blocks((#[trigger] self.groups@[i]).blocks@) by {
                            if i < gp.len() as int {
                                assert(self.groups@[i] == gp[i]);
                            }
                        }
                    }
                }
                self.groups.len() - 1
            },
        };
        let ghost g1 = self.groups@;
        proof {
            assert(groups_rids(g1) == groups_rids(g0));
            assert(groups_keys(g1) == groups_keys(g0));
            assert(gi < g1.len() && g1[gi as int].relation == g.relation);
            assert(rel_seq(g1) == if rel_seq(g0).contains(g.relation) {
                rel_seq(g0)
            } else {
                rel_seq(g0).push(g.relation)
            });
            assert(groups_extend(g1, g0)) by {
                assert forall|i: int| 0 <= i < g0.len()
                    implies group_extends(#[trigger] g1[i], g0[i]) by {
                    assert(g1[i] == g0[i]);
                    lemma_blocks_extend_refl(g0[i].blocks@);
                }
            }
        }
        let mut grp = self.groups.remove(gi);
        let ghost oldgrp = grp;
        let mut j: usize = 0;
        let ghost bs = g.blocks@;
        proof {
            assert(blocks_rids(g.relation, bs.take(0)) =~= Set::<RuleId>::empty());
            assert(blocks_keys(g.relation, bs.take(0)) =~= Set::<RuleKey>::empty());
            assert(blocks_rids(g.relation, grp.blocks@)
                =~= blocks_rids(g.relation, oldgrp.blocks@).union(
                    blocks_rids(g.relation, bs.take(0))));
            assert(blocks_keys(g.relation, grp.blocks@)
                =~= blocks_keys(g.relation, oldgrp.blocks@).union(
                    blocks_keys(g.relation, bs.take(0))));
            lemma_blocks_extend_refl(grp.blocks@);
            assert(key_seq(grp.blocks@) == fold_key_seq(key_seq(oldgrp.blocks@), bs.take(0)));
        }
        while j < g.blocks.len()
            invariant
                j <= bs.len(),
                g.blocks@ == bs,
                wf_groups(g1),
                gi < g1.len(),
                g1[gi as int] == oldgrp,
                oldgrp.relation == g.relation,
                grp.relation == oldgrp.relation,
                grp.name == oldgrp.name,
                self.groups@ == g1.remove(gi as int),
                rel_seq(g1) == (if rel_seq(g0).contains(g.relation) {
                    rel_seq(g0)
                } else {
                    rel_seq(g0).push(g.relation)
                }),
                groups_extend(g1, g0),
                blocks_extend(grp.blocks@, oldgrp.blocks@),
                wf_blocks(grp.blocks@),
                blocks_rids(g.relation, grp.blocks@)
                    == blocks_rids(g.relation, oldgrp.blocks@).union(
                        blocks_rids(g.relation, bs.take(j as int))),
                blocks_keys(g.relation, grp.blocks@)
                    == blocks_keys(g.relation, oldgrp.blocks@).union(
                        blocks_keys(g.relation, bs.take(j as int))),
                key_seq(grp.blocks@) == fold_key_seq(key_seq(oldgrp.blocks@), bs.take(j as int)),
            decreases bs.len() - j,
        {
            let b = &g.blocks[j];
            let ghost before = grp.blocks@;
            add_block(&mut grp.blocks, b.kind, b.polarity, &b.entries);
            proof {
                lemma_blocks_extend_trans(oldgrp.blocks@, before, grp.blocks@);
                assert(bs.take(j as int + 1).drop_last() =~= bs.take(j as int));
                assert(bs.take(j as int + 1) =~= bs.take(j as int).push(bs[j as int]));
                lemma_blocks_push(g.relation, bs.take(j as int), bs[j as int]);
                lemma_block_rids_tag(g.relation, bs[j as int]);
                assert(blocks_rids(g.relation, grp.blocks@)
                    =~= blocks_rids(g.relation, oldgrp.blocks@).union(
                        blocks_rids(g.relation, bs.take(j as int + 1))));
                assert(blocks_keys(g.relation, bs.take(j as int + 1))
                    =~= blocks_keys(g.relation, bs.take(j as int)).insert(
                        RuleKey { relation: g.relation, kind: bs[j as int].kind,
                            polarity: bs[j as int].polarity }));
                assert(blocks_keys(g.relation, grp.blocks@)
                    =~= blocks_keys(g.relation, oldgrp.blocks@).union(
                        blocks_keys(g.relation, bs.take(j as int + 1))));
                assert(bs.take(j as int + 1).last() == bs[j as int]);
                assert(key_seq(grp.blocks@)
                    == fold_key_seq(key_seq(oldgrp.blocks@), bs.take(j as int + 1)));
            }
            j = j + 1;
        }
        proof {
            assert(bs.take(j as int) =~= bs);
        }
        let ghost ng = grp;
        self.groups.insert(gi, grp);
        proof {
            assert(self.groups@ =~= g1.update(gi as int, ng));
            lemma_groups_update(g1, gi as int, ng,
                blocks_rids(g.relation, bs), blocks_keys(g.relation, bs));
            assert(groups_extend(self.groups@, g1)) by {
                assert forall|i: int| 0 <= i < g1.len()
                    implies group_extends(#[trigger] self.groups@[i], g1[i]) by {
                    if i == gi as int {
                        assert(self.groups@[i] == ng);
                        assert(group_extends(ng, oldgrp));
                    } else {
                        assert(self.groups@[i] == g1[i]);
                        lemma_blocks_extend_refl(g1[i].blocks@);
                    }
                }
            }
            lemma_groups_extend_trans(g0, g1, self.groups@);
            assert(rel_seq(self.groups@) =~= rel_seq(g1));
            assert(self.groups@[gi as int] == ng);
            assert(ng.relation == g.relation);
            assert(self.groups@.len() == g1.len());
            if (gi as int) < g0.len() {
                assert(g0[gi as int].relation == g.relation);
                assert(g1[gi as int] == g0[gi as int]);
                assert(key_seq(self.groups@[gi as int].blocks@) == fold_key_seq(
                    key_seq(g0[gi as int].blocks@), bs));
                assert(forall|j: int| 0 <= j < gi as int
                    ==> (#[trigger] g0[j]).relation != g.relation);
            } else {
                assert(key_seq(oldgrp.blocks@) =~= Seq::<(EventKind, Polarity)>::empty());
                assert(key_seq(self.groups@[gi as int].blocks@) == fold_key_seq(
                    Seq::empty(), bs));
            }
            assert(forall|j: int| 0 <= j < self.groups@.len() && j != gi as int
                ==> self.groups@[j] == g0[j]) by {
                assert forall|j: int| 0 <= j < self.groups@.len() && j != gi as int
                    implies self.groups@[j] == g0[j] by {
                    assert(self.groups@[j] == g1[j]);
                }
            }
            assert(wf_groups(self.groups@)) by {
                assert forall|i: int, j2: int| 0 <= i < j2 < self.groups@.len()
                    implies (#[trigger] self.groups@[i]).relation
                        != (#[trigger] self.groups@[j2]).relation by {
                    assert(self.groups@[i] == if i == gi as int { ng } else { g1[i] });
                    assert(self.groups@[j2] == if j2 == gi as int { ng } else { g1[j2] });
                }
                assert forall|i: int| 0 <= i < self.groups@.len()
                    implies wf_blocks((#[trigger] self.groups@[i]).blocks@) by {
                    assert(self.groups@[i] == if i == gi as int { ng } else { g1[i] });
                }
            }
        }
    }

    /// Folds one fragment, given as its extracted rule groups, into the
    /// state. Retained identities and keys become the union of the old state
    /// and the fragment's contribution; duplicates are dropped. The dedup
    /// key is (relation, kind, polarity): per the conflict policy, rule sets
    /// under distinct relations are kept apart, so an identical (field,
    /// operator, value) triple observed under both relations is retained
    /// once per relation.
    pub fn add_fragment(&mut self, groups: &Vec<RuleGroup>)
        requires
            old(self).wf(),
        ensures
            final(self).wf(),
            final(self).rids() == old(self).rids().union(groups_rids(groups@)),
            final(self).keys() == old(self).keys().union(groups_keys(groups@)),
            groups_extend(final(self).groups@, old(self).groups@),
            rel_seq(final(self).groups@) == fold_rels(rel_seq(old(self).groups@), groups@),
            gk_view(final(self).groups@) == fold_frag_view(gk_view(old(self).groups@), groups@),
    {
        let ghost s0 = *old(self);
        let ghost fs = groups@;
        let mut i: usize = 0;
        proof {
            assert(groups_rids(fs.take(0)) =~= Set::<RuleId>::empty());
            assert(groups_keys(fs.take(0)) =~= Set::<RuleKey>::empty());
            assert(self.rids() =~= s0.rids().union(groups_rids(fs.take(0))));
            assert(self.keys() =~= s0.keys().union(groups_keys(fs.take(0))));
            lemma_groups_extend_refl(self.groups@);
        }
        while i < groups.len()
            invariant
                i <= fs.len(),
                groups@ == fs,
                self.wf(),
                self.rids() == s0.rids().union(groups_rids(fs.take(i as int))),
                self.keys() == s0.keys().union(groups_keys(fs.take(i as int))),
                groups_extend(self.groups@, s0.groups@),
                rel_seq(self.groups@) == fold_rels(rel_seq(s0.groups@), fs.take(i as int)),
                gk_view(self.groups@) == fold_frag_view(gk_view(s0.groups@), fs.take(i as int)),
            decreases fs.len() - i,
        {
            let ghost before = self.groups@;
            self.add_group(&groups[i]);
            proof {
                lemma_groups_extend_trans(s0.groups@, before, self.groups@);
                assert(fs.take(i as int + 1).drop_last() =~= fs.take(i as int));
                assert(fs.take(i as int + 1).last() == fs[i as int]);
                assert(rel_seq(self.groups@)
                    == fold_rels(rel_seq(s0.groups@), fs.take(i as int + 1)));
                lemma_group_view_step(before, self.groups@, fs[i as int]);
                assert(gk_view(self.groups@)
                    == fold_frag_view(gk_view(s0.groups@), fs.take(i as int + 1)));
                assert(fs.take(i as int + 1) =~= fs.take(i as int).push(fs[i as int]));
                lemma_groups_push(fs.take(i as int), fs[i as int]);
                assert(self.rids() =~= s0.rids().union(groups_rids(fs.take(i as int + 1))));
                assert(self.keys() =~= s0.keys().union(groups_keys(fs.take(i as int + 1))));
            }
            i = i + 1;
        }
        proof {
            assert(fs.take(i as int) =~= fs);
        }
    }
}

} // verus!
