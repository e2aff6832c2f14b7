//! The merge driver: validates each fragment document, folds them in order
//! into the accumulator, emits the combined document, and re-validates the
//! output as a correctness assertion.
use vstd::prelude::*;
use crate::model::RuleGroup;
use crate::document::{doc_groups, doc_valid, doc_violation, extract_groups, validate, ConfigDoc,
    Violation};
use crate::accumulate::{copy_chars, fold_keys, fold_rels_all, fold_rids, fold_views_all,
    gk_view, groups_keys, groups_rids, rel_seq, wf_groups, Merged, RuleKey};
use crate::emit::emit;

verus! {

/// Why a merge failed.
#[derive(Clone, Copy, PartialEq, Eq, Structural, Debug)]
pub enum MergeError {
    /// No fragment documents were given.
    NoInput,
    /// A fragment violated a structural invariant: the first offending
    /// document and the invariant it broke.
    InvalidFragment { index: usize, violation: Violation },
    /// The merged output itself would not pass validation; with fragments
    /// that carry at least one event-type block this cannot arise.
    InvalidOutput,
}

/// The rule groups each document of a sequence contributes.
pub open spec fn docs_groups(ds: Seq<ConfigDoc>) -> Seq<Seq<RuleGroup>> {
    ds.map_values(|d: ConfigDoc| doc_groups(d))
}

/// The characters of an optional attribute value.
pub open spec fn opt_chars(v: Option<Vec<char>>) -> Option<Seq<char>> {
    match v {
        Some(s) => Some(s@),
        None => None,
    }
}

/// Merges a sequence of fragment documents into one combined document.
///
/// Every fragment must pass validation; the first that does not aborts the
/// merge and is named. The output document is valid, well-formed, and
/// retains exactly the union of the fragments' rule identities and keys,
/// deduplicated, with groups in first-seen relation order. Its root name and
/// schema version are taken from the first fragment.
pub fn merge_docs(docs: Vec<ConfigDoc>) -> (r: Result<ConfigDoc, MergeError>)
    ensures
        (r == Result::<ConfigDoc, MergeError>::Err(MergeError::NoInput)) <==> docs@.len() == 0,
        r is Ok ==> {
            &&& docs@.len() > 0
            &&& forall|i: int| 0 <= i < docs@.len() ==> doc_valid(#[trigger] docs@[i])
            &&& doc_valid(r->Ok_0)
            &&& r->Ok_0.items@.len() == 1
            &&& r->Ok_0.items@[0] is Filtering
            &&& wf_groups(doc_groups(r->Ok_0))
            &&& groups_rids(doc_groups(r->Ok_0)) == fold_rids(docs_groups(docs@))
            &&& groups_keys(doc_groups(r->Ok_0)) == fold_keys(docs_groups(docs@))
            &&& rel_seq(doc_groups(r->Ok_0)) == fold_rels_all(docs_groups(docs@))
            &&& gk_view(doc_groups(r->Ok_0)) == fold_views_all(docs_groups(docs@))
            &&& r->Ok_0.root_name@ == docs@[0].root_name@
            &&& opt_chars(r->Ok_0.schema_version) == opt_chars(docs@[0].schema_version)
        },
        forall|ix: usize, v: Violation|
            r == Result::<ConfigDoc, MergeError>::Err(MergeError::InvalidFragment {
                index: ix, violation: v }) ==> {
            &&& ix < docs@.len()
            &&& !doc_valid(docs@[ix as int])
            &&& v == doc_violation(docs@[ix as int])
            &&& forall|j: int| 0 <= j < ix ==> doc_valid(#[trigger] docs@[j])
        },
        r == Result::<ConfigDoc, MergeError>::Err(MergeError::InvalidOutput) ==> {
            &&& docs@.len() > 0
            &&& forall|i: int| 0 <= i < docs@.len() ==> doc_valid(#[trigger] docs@[i])
            &&& fold_keys(docs_groups(docs@)) == Set::<RuleKey>::empty()
        },
        (docs@.len() > 0 && (forall|i: int| 0 <= i < docs@.len()
            ==> doc_valid(#[trigger] docs@[i]))
            && fold_keys(docs_groups(docs@)) != Set::<RuleKey>::empty()) ==> r is Ok,
{
    let ghost dv = docs@;
    if docs.len() == 0 {
        return Err(MergeError::NoInput);
    }
    let mut i: usize = 0;
    while i < docs.len()
        invariant
            docs@ == dv,
            i <= dv.len(),
            forall|j: int| 0 <= j < i ==> doc_valid(#[trigger] dv[j]),
        decreases dv.len() - i,
    {
        match validate(&docs[i]) {
            Ok(()) => {},
            Err(v) => {
                return Err(MergeError::InvalidFragment { index: i, violation: v });
            },
        }
        i = i + 1;
    }
    let root_name = copy_chars(&docs[0].root_name);
    let schema_version = match &docs[0].schema_version {
        Some(s) => Some(copy_chars(s)),
        None => None,
    };
    let mut rest = docs;
    let mut m = Merged::new();
    let mut k: usize = 0;
    proof {
        assert(docs_groups(dv.take(0)) =~= Seq::<Seq<RuleGroup>>::empty());
        assert(m.rids() =~= fold_rids(docs_groups(dv.take(0))));
        assert(m.keys() =~= fold_keys(docs_groups(dv.take(0))));
        assert(rel_seq(m.groups@) =~= fold_rels_all(docs_groups(dv.take(0))));
        assert(gk_view(m.groups@) =~= fold_views_all(docs_groups(dv.take(0))));
    }
    while rest.len() > 0
        invariant
            k <= dv.len() <= usize::MAX,
            rest@ == dv.skip(k as int),
            forall|j: int| 0 <= j < dv.len() ==> doc_valid(#[trigger] dv[j]),
            m.wf(),
            m.rids() == fold_rids(docs_groups(dv.take(k as int))),
            m.keys() == fold_keys(docs_groups(dv.take(k as int))),
            rel_seq(m.groups@) == fold_rels_all(docs_groups(dv.take(k as int))),
            gk_view(m.groups@) == fold_views_all(docs_groups(dv.take(k as int))),
        decreases rest@.len(),
    {
        let d = rest.remove(0);
        proof {
            assert(dv.skip(k as int)[0] == dv[k as int]);
            assert(rest@ =~= dv.skip(k as int + 1));
            assert(doc_valid(d));
        }
        let groups = extract_groups(d);
        m.add_fragment(&groups);
        proof {
            assert(docs_groups(dv.take(k as int + 1)).drop_last()
                =~= docs_groups(dv.take(k as int)));
            assert(docs_groups(dv.take(k as int + 1)).last() == doc_groups(dv[k as int]));
            assert(m.rids() == fold_rids(docs_groups(dv.take(k as int + 1))));
            assert(m.keys() == fold_keys(docs_groups(dv.take(k as int + 1))));
            assert(rel_seq(m.groups@) == fold_rels_all(docs_groups(dv.take(k as int + 1))));
            assert(gk_view(m.groups@) == fold_views_all(docs_groups(dv.take(k as int + 1))));
        }
        k = k + 1;
    }
    proof {
        assert(dv.take(k as int) =~= dv);
    }
    if m.groups.len() == 0 {
        proof {
            assert forall|key: RuleKey| !(#[trigger] m.keys().contains(key)) by {
                if m.keys().contains(key) {
                    let gi = choose|gi: int| 0 <= gi < m.groups@.len()
                        && #[trigger] crate::accumulate::blocks_keys(m.groups@[gi].relation,
                            m.groups@[gi].blocks@).contains(key);
                }
            }
            assert(m.keys() =~= Set::<RuleKey>::empty());
        }
        return Err(MergeError::InvalidOutput);
    }
    let out = emit(m, root_name, schema_version);
    match validate(&out) {
        Ok(()) => Ok(out),
        Err(_) => Err(MergeError::InvalidOutput),
    }
}

/// Why one content buffer failed to merge or validate.
#[derive(Clone, Copy, PartialEq, Eq, Structural, Debug)]
pub enum ConfigError {
    /// The content would not parse.
    Parse(crate::parse::ParseError),
    /// The parsed document violates a structural invariant.
    Invalid(Violation),
}

/// Parses one content buffer and checks the three structural invariants,
/// reporting the first fault found: the thin composition of `parse_document`
/// and `validate`. `validate` carries the exact contract (success if and
/// only if the parsed document satisfies the invariants, and the first
/// violated invariant named); the tie between the text and the parsed
/// document rests on `parse_document`, whose structural correctness is
/// exercised by the round-trip tests.
pub fn validate_content(content: &Vec<char>) -> (r: Result<(), ConfigError>)
{
    let doc = match crate::parse::parse_document(content.as_slice()) {
        Ok(d) => d,
        Err(e) => {
            return Err(ConfigError::Parse(e));
        },
    };
    match validate(&doc) {
        Ok(()) => Ok(()),
        Err(v) => Err(ConfigError::Invalid(v)),
    }
}

/// Why a content-level merge failed.
#[derive(Clone, Copy, PartialEq, Eq, Structural, Debug)]
pub enum MergeContentsError {
    /// A fragment would not parse: which one, and why.
    Parse { index: usize, error: crate::parse::ParseError },
    /// The parsed fragments would not merge.
    Merge(MergeError),
}

/// Parses each fragment content buffer in the given order, merges the
/// documents, and renders the combined document: the thin composition of
/// `parse_document`, `merge_docs` and `render`. `merge_docs` carries the
/// exact merge contract (retained sets, deduplication, relation order,
/// error taxonomy) and `render` the exact text contract; the tie between
/// each buffer and its parsed document rests on `parse_document`. The
/// buffers must come in stable (lexicographic path) order for first-seen
/// ordering to be reproducible; the caller sorts.
pub fn merge_contents(contents: &Vec<Vec<char>>) -> (r: Result<Vec<char>, MergeContentsError>)
    ensures
        (r == Result::<Vec<char>, MergeContentsError>::Err(
            MergeContentsError::Merge(MergeError::NoInput))) <==> contents@.len() == 0,
        r is Ok ==> contents@.len() > 0,
        forall|ix: usize, pe: crate::parse::ParseError|
            r == Result::<Vec<char>, MergeContentsError>::Err(
                MergeContentsError::Parse { index: ix, error: pe }) ==> ix < contents@.len(),
        forall|ix: usize, v: Violation|
            r == Result::<Vec<char>, MergeContentsError>::Err(MergeContentsError::Merge(
                MergeError::InvalidFragment { index: ix, violation: v }))
                ==> ix < contents@.len(),
{
    let mut docs: Vec<ConfigDoc> = Vec::new();
    let mut i: usize = 0;
    while i < contents.len()
        invariant
            i <= contents@.len(),
            docs@.len() == i,
        decreases contents@.len() - i,
    {
        match crate::parse::parse_document(contents[i].as_slice()) {
            Ok(d) => docs.push(d),
            Err(e) => {
                return Err(MergeContentsError::Parse { index: i, error: e });
            },
        }
        i = i + 1;
    }
    let out = match merge_docs(docs) {
        Ok(d) => d,
        Err(e) => {
            return Err(MergeContentsError::Merge(e));
        },
    };
    Ok(crate::emit::render(&out))
}

} // verus!
