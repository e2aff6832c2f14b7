//! Structural representation of one parsed configuration document, the three
//! wrapper invariants, and the validator that checks them.
use vstd::prelude::*;
use crate::model::{EventKind, RuleGroup};

verus! {

/// One child of the `EventFiltering` element.
#[derive(Debug, PartialEq, Eq)]
pub enum FilterItem {
    /// A rule group.
    Group(RuleGroup),
    /// An event-type element standing directly under `EventFiltering`
    /// instead of inside a rule group: a violation of the second invariant.
    StrayEvent(EventKind),
}

/// One child of the document's root element.
#[derive(Debug, PartialEq, Eq)]
pub enum RootItem {
    /// An `EventFiltering` element and its children.
    Filtering(Vec<FilterItem>),
    /// A rule-bearing element (or one with a rule-bearing descendant)
    /// outside `EventFiltering`: a violation of the first invariant.
    /// Carries the offending element's name.
    Stray(Vec<char>),
    /// Merge-insignificant metadata element, carried by name only.
    Meta(Vec<char>),
}

/// One parsed configuration document, fragment or merged output.
#[derive(Debug, PartialEq, Eq)]
pub struct ConfigDoc {
    pub root_name: Vec<char>,
    pub schema_version: Option<Vec<char>>,
    pub items: Vec<RootItem>,
}

/// The structural invariant a document failed, in checking order.
#[derive(Clone, Copy, PartialEq, Eq, Structural, Debug)]
pub enum Violation {
    /// Not exactly one `EventFiltering` element, or rule-bearing content
    /// outside it.
    RulesOutsideFiltering,
    /// An event-type element is not a direct child of a rule group.
    EventOutsideGroup,
    /// `EventFiltering` holds no rule group.
    NoRuleGroup,
}

/// First invariant: exactly one `EventFiltering` element, and no
/// rule-bearing element outside it.
pub open spec fn inv_one_filtering(items: Seq<RootItem>) -> bool {
    &&& exists|i: int| 0 <= i < items.len() && items[i] is Filtering
    &&& forall|i: int, j: int|
        0 <= i < items.len() && 0 <= j < items.len() && items[i] is Filtering
            && items[j] is Filtering ==> i == j
    &&& forall|i: int| 0 <= i < items.len() ==> !(items[i] is Stray)
}

/// The index of the document's `EventFiltering` element; meaningful only
/// when one exists.
pub open spec fn filtering_index(items: Seq<RootItem>) -> int {
    choose|i: int| 0 <= i < items.len() && items[i] is Filtering
}

/// The children of the document's `EventFiltering` element.
pub open spec fn filtering_items(items: Seq<RootItem>) -> Seq<FilterItem> {
    items[filtering_index(items)]->Filtering_0@
}

/// Second invariant: every event-type element is a direct child of some
/// rule group.
pub open spec fn inv_events_grouped(items: Seq<RootItem>) -> bool {
    forall|j: int|
        0 <= j < filtering_items(items).len() ==> !(filtering_items(items)[j] is StrayEvent)
}

/// Third invariant: `EventFiltering` holds at least one rule group.
pub open spec fn inv_has_group(items: Seq<RootItem>) -> bool {
    exists|j: int| 0 <= j < filtering_items(items).len() && filtering_items(items)[j] is Group
}

/// All three structural invariants.
pub open spec fn doc_valid(doc: ConfigDoc) -> bool {
    &&& inv_one_filtering(doc.items@)
    &&& inv_events_grouped(doc.items@)
    &&& inv_has_group(doc.items@)
}

/// The first violated invariant of an invalid document, in checking order.
pub open spec fn doc_violation(doc: ConfigDoc) -> Violation {
    if !inv_one_filtering(doc.items@) {
        Violation::RulesOutsideFiltering
    } else if !inv_events_grouped(doc.items@) {
        Violation::EventOutsideGroup
    } else {
        Violation::NoRuleGroup
    }
}

proof fn lemma_two_filtering(items: Seq<RootItem>, a: int, b: int)
    requires
        0 <= a < items.len(),
        0 <= b < items.len(),
        a != b,
        items[a] is Filtering,
        items[b] is Filtering,
    ensures
        !inv_one_filtering(items),
{
    if inv_one_filtering(items) {
        assert(a == b);
    }
}

proof fn lemma_stray(items: Seq<RootItem>, a: int)
    requires
        0 <= a < items.len(),
        items[a] is Stray,
    ensures
        !inv_one_filtering(items),
{
    if inv_one_filtering(items) {
        assert(!(items[a] is Stray));
    }
}

/// Checks the three structural invariants in order and reports the first
/// one violated.
pub fn validate(doc: &ConfigDoc) -> (r: Result<(), Violation>)
    ensures
        r is Ok <==> doc_valid(*doc),
        r is Err ==> r->Err_0 == doc_violation(*doc),
{
    let mut found: Option<usize> = None;
    let mut i: usize = 0;
    while i < doc.items.len()
        invariant
            i <= doc.items@.len(),
            match found {
                Some(f) => f < i && doc.items@[f as int] is Filtering && forall|j: int|
                    0 <= j < i && doc.items@[j] is Filtering ==> j == f,
                None => forall|j: int| 0 <= j < i ==> !(doc.items@[j] is Filtering),
            },
            forall|j: int| 0 <= j < i ==> !(doc.items@[j] is Stray),
        decreases doc.items@.len() - i,
    {
        match &doc.items[i] {
            RootItem::Filtering(_) => {
                if let Some(fv) = found {
                    proof {
                        lemma_two_filtering(doc.items@, fv as int, i as int);
                    }
                    return Err(Violation::RulesOutsideFiltering);
                }
                found = Some(i);
            },
            RootItem::Stray(_) => {
                proof {
                    lemma_stray(doc.items@, i as int);
                }
                return Err(Violation::RulesOutsideFiltering);
            },
            RootItem::Meta(_) => {},
        }
        i = i + 1;
    }
    let f = match found {
        Some(f) => f,
        None => {
            proof {
                assert(!inv_one_filtering(doc.items@));
            }
            return Err(Violation::RulesOutsideFiltering);
        },
    };
    proof {
        assert(inv_one_filtering(doc.items@));
        assert(filtering_index(doc.items@) == f as int);
    }
    let children = match &doc.items[f] {
        RootItem::Filtering(c) => c,
        _ => {
            proof {
                assert(false);
            }
            return Err(Violation::RulesOutsideFiltering);
        },
    };
    let mut has_group = false;
    let mut j: usize = 0;
    while j < children.len()
        invariant
            j <= children@.len(),
            children@ == filtering_items(doc.items@),
            inv_one_filtering(doc.items@),
            forall|k: int| 0 <= k < j ==> !(children@[k] is StrayEvent),
            has_group <==> exists|k: int| 0 <= k < j && children@[k] is Group,
        decreases children@.len() - j,
    {
        match &children[j] {
            FilterItem::StrayEvent(_) => {
                proof {
                    assert(!inv_events_grouped(doc.items@));
                }
                return Err(Violation::EventOutsideGroup);
            },
            FilterItem::Group(_) => {
                has_group = true;
            },
        }
        j = j + 1;
    }
    if !has_group {
        proof {
            assert(inv_events_grouped(doc.items@));
            assert(!inv_has_group(doc.items@));
        }
        return Err(Violation::NoRuleGroup);
    }
    proof {
        assert(doc_valid(*doc));
    }
    Ok(())
}

/// The rule groups a valid document contributes to a merge, in document
/// order.
pub open spec fn groups_of_items(items: Seq<FilterItem>) -> Seq<RuleGroup>
    decreases items.len(),
{
    if items.len() == 0 {
        Seq::empty()
    } else {
        groups_of_items(items.drop_last()) + match items.last() {
            FilterItem::Group(g) => seq![g],
            FilterItem::StrayEvent(_) => Seq::empty(),
        }
    }
}

/// The rule groups of a valid document.
pub open spec fn doc_groups(doc: ConfigDoc) -> Seq<RuleGroup> {
    groups_of_items(filtering_items(doc.items@))
}

/// Extracts the rule groups of a valid document, consuming it, in document
/// order.
pub fn extract_groups(doc: ConfigDoc) -> (r: Vec<RuleGroup>)
    requires
        doc_valid(doc),
    ensures
        r@ == doc_groups(doc),
{
    let ghost gitems = doc.items@;
    let mut items = doc.items;
    let mut f: usize = 0;
    while f < items.len() && !matches!(&items[f], RootItem::Filtering(_))
        invariant
            items@ == gitems,
            f <= gitems.len(),
            forall|j: int| 0 <= j < f ==> !(gitems[j] is Filtering),
        decreases gitems.len() - f,
    {
        f = f + 1;
    }
    proof {
        assert(f < gitems.len() && gitems[f as int] is Filtering) by {
            assert(inv_one_filtering(gitems));
        }
        assert(filtering_index(gitems) == f as int);
    }
    let item = items.remove(f);
    let mut children = match item {
        RootItem::Filtering(c) => c,
        _ => {
            proof {
                assert(false);
            }
            Vec::new()
        },
    };
    let ghost cs = children@;
    let n0 = children.len();
    proof {
        assert(cs == filtering_items(gitems));
        assert(cs.len() == n0 as int);
    }
    let mut groups: Vec<RuleGroup> = Vec::new();
    let mut k: usize = 0;
    while children.len() > 0
        invariant
            k <= cs.len() <= usize::MAX,
            children@ == cs.skip(k as int),
            groups@ == groups_of_items(cs.take(k as int)),
        decreases children@.len(),
    {
        let c = children.remove(0);
        proof {
            assert(cs.skip(k as int)[0] == cs[k as int]);
            assert(cs.take(k as int + 1).drop_last() =~= cs.take(k as int));
            assert(cs.take(k as int + 1).last() == cs[k as int]);
            assert(children@ =~= cs.skip(k as int + 1));
        }
        match c {
            FilterItem::Group(g) => {
                groups.push(g);
            },
            FilterItem::StrayEvent(_) => {},
        }
        k = k + 1;
    }
    proof {
        assert(cs.take(k as int) =~= cs);
    }
    groups
}

} // verus!
