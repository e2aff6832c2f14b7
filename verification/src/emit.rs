//! The canonical emitter: turns a folded accumulator state into one valid
//! configuration document, and renders a document as markup text with
//! deterministic element ordering and escaping.
use vstd::prelude::*;
use vstd::string::StrSliceExecFns;
use crate::model::{kind_name, op_name, polarity_name, relation_name, EventBlock, Polarity,
    Relation, RuleEntry, RuleGroup};
use crate::document::{doc_valid, doc_groups, filtering_index, filtering_items, groups_of_items,
    inv_one_filtering, ConfigDoc, FilterItem, RootItem};
use crate::accumulate::{wf_groups, Merged};

verus! {

/// Builds the merged output document: one `EventFiltering` element holding
/// one `RuleGroup` per accumulated relation, in first-seen order, with blocks
/// and entries in first-seen order. The result is always valid and carries
/// exactly the accumulated groups.
pub fn emit(m: Merged, root_name: Vec<char>, schema_version: Option<Vec<char>>) -> (d: ConfigDoc)
    requires
        m.wf(),
        m.groups@.len() >= 1,
    ensures
        doc_valid(d),
        d.items@.len() == 1,
        d.items@[0] is Filtering,
        doc_groups(d) == m.groups@,
        wf_groups(doc_groups(d)),
        d.root_name == root_name,
        d.schema_version == schema_version,
{
    let ghost gs = m.groups@;
    let mut groups = m.groups;
    let mut children: Vec<FilterItem> = Vec::new();
    let mut k: usize = 0;
    let n0 = groups.len();
    proof {
        assert(gs.len() == n0 as int);
        assert(groups_of_items(children@) =~= gs.take(0));
    }
    while groups.len() > 0
        invariant
            k <= gs.len() <= usize::MAX,
            groups@ == gs.skip(k as int),
            groups_of_items(children@) == gs.take(k as int),
            children@.len() == k,
            forall|i: int| 0 <= i < k ==> children@[i] is Group,
        decreases groups@.len(),
    {
        let g = groups.remove(0);
        proof {
            assert(gs.skip(k as int)[0] == gs[k as int]);
            assert(groups@ =~= gs.skip(k as int + 1));
            assert(children@.push(FilterItem::Group(gs[k as int])).drop_last() =~= children@);
        }
        let ghost cprev = children@;
        children.push(FilterItem::Group(g));
        proof {
            assert(gs.take(k as int + 1).drop_last() =~= gs.take(k as int));
            assert(groups_of_items(children@)
                =~= groups_of_items(cprev) + seq![gs[k as int]]);
            assert(groups_of_items(children@) =~= gs.take(k as int + 1));
        }
        k = k + 1;
    }
    proof {
        assert(gs.take(k as int) =~= gs);
    }
    let ghost cs = children@;
    let mut items: Vec<RootItem> = Vec::new();
    items.push(RootItem::Filtering(children));
    let d = ConfigDoc { root_name, schema_version, items };
    proof {
        assert(d.items@.len() == 1);
        assert(d.items@[0] is Filtering);
        assert(inv_one_filtering(d.items@));
        assert(filtering_index(d.items@) == 0);
        assert(filtering_items(d.items@) == cs);
        assert(cs.len() >= 1 && cs[0] is Group);
        assert(doc_groups(d) == gs);
    }
    d
}

/// A character rendered into markup text: the five reserved characters become
/// entity references, every other character stands as itself.
pub open spec fn esc_char(c: char) -> Seq<char> {
    if c == '&' {
        "&amp;"@
    } else if c == '<' {
        "&lt;"@
    } else if c == '>' {
        "&gt;"@
    } else if c == '"' {
        "&quot;"@
    } else if c == '\'' {
        "&apos;"@
    } else {
        seq![c]
    }
}

/// A character sequence rendered into markup text.
pub open spec fn escaped(s: Seq<char>) -> Seq<char>
    decreases s.len(),
{
    if s.len() == 0 {
        Seq::empty()
    } else {
        escaped(s.drop_last()) + esc_char(s.last())
    }
}

/// Appends a literal to the output.
fn push_str_chars(out: &mut Vec<char>, s: &str)
    ensures
        final(out)@ == old(out)@ + s@,
{
    let n = s.unicode_len();
    let ghost base = out@;
    let mut i: usize = 0;
    while i < n
        invariant
            i <= n,
            n == s@.len(),
            out@ == base + s@.take(i as int),
        decreases n - i,
    {
        out.push(s.get_char(i));
        i = i + 1;
        proof {
            assert(base + s@.take(i as int) =~= (base + s@.take(i as int - 1)).push(
                s@[i as int - 1]));
        }
    }
    proof {
        assert(base + s@.take(i as int) =~= base + s@);
    }
}

/// Appends a character vector to the output.
fn push_all(out: &mut Vec<char>, v: &Vec<char>)
    ensures
        final(out)@ == old(out)@ + v@,
{
    let ghost base = out@;
    let mut i: usize = 0;
    while i < v.len()
        invariant
            i <= v@.len(),
            out@ == base + v@.take(i as int),
        decreases v@.len() - i,
    {
        out.push(v[i]);
        i = i + 1;
        proof {
            assert(base + v@.take(i as int) =~= (base + v@.take(i as int - 1)).push(
                v@[i as int - 1]));
        }
    }
    proof {
        assert(base + v@.take(i as int) =~= base + v@);
    }
}

/// Appends a character vector, escaping the five reserved characters.
fn push_escaped(out: &mut Vec<char>, v: &Vec<char>)
    ensures
        final(out)@ == old(out)@ + escaped(v@),
{
    let ghost base = out@;
    let mut i: usize = 0;
    proof {
        assert(base + escaped(v@.take(0)) =~= base);
    }
    while i < v.len()
        invariant
            i <= v@.len(),
            out@ == base + escaped(v@.take(i as int)),
        decreases v@.len() - i,
    {
        let c = v[i];
        proof {
            assert(v@.take(i as int + 1).drop_last() =~= v@.take(i as int));
            assert(v@.take(i as int + 1).last() == v@[i as int]);
        }
        if c == '&' {
            push_str_chars(out, "&amp;");
        } else if c == '<' {
            push_str_chars(out, "&lt;");
        } else if c == '>' {
            push_str_chars(out, "&gt;");
        } else if c == '"' {
            push_str_chars(out, "&quot;");
        } else if c == '\'' {
            push_str_chars(out, "&apos;");
        } else {
            out.push(c);
            proof {
                assert(esc_char(c) =~= seq![c]);
                assert((base + escaped(v@.take(i as int))).push(c)
                    =~= base + (escaped(v@.take(i as int)) + seq![c]));
            }
        }
        proof {
            assert(out@ =~= base + escaped(v@.take(i as int + 1)));
        }
        i = i + 1;
    }
    proof {
        assert(v@.take(i as int) =~= v@);
    }
}

/// The rendered form of an optional name attribute.
pub open spec fn rendered_name_attr(l: Option<Vec<char>>) -> Seq<char> {
    match l {
        Some(v) => " name=\""@ + escaped(v@) + "\""@,
        None => Seq::empty(),
    }
}

/// The rendered form of one rule entry element.
pub open spec fn rendered_entry(e: RuleEntry) -> Seq<char> {
    "      <"@ + e.field@ + " condition=\""@ + op_name(e.op) + "\""@
        + rendered_name_attr(e.label) + ">"@ + escaped(e.value@) + "</"@ + e.field@ + ">\n"@
}

/// The rendered form of a sequence of rule entries.
pub open spec fn rendered_entries(es: Seq<RuleEntry>) -> Seq<char>
    decreases es.len(),
{
    if es.len() == 0 {
        Seq::empty()
    } else {
        rendered_entries(es.drop_last()) + rendered_entry(es.last())
    }
}

/// The rendered form of one event-type block element.
pub open spec fn rendered_block(b: EventBlock) -> Seq<char> {
    "    <"@ + kind_name(b.kind) + " onmatch=\""@ + polarity_name(b.polarity) + "\">\n"@
        + rendered_entries(b.entries@) + "    </"@ + kind_name(b.kind) + ">\n"@
}

/// The rendered form of a sequence of event-type blocks.
pub open spec fn rendered_blocks(bs: Seq<EventBlock>) -> Seq<char>
    decreases bs.len(),
{
    if bs.len() == 0 {
        Seq::empty()
    } else {
        rendered_blocks(bs.drop_last()) + rendered_block(bs.last())
    }
}

/// The rendered form of one rule group element.
pub open spec fn rendered_group(g: RuleGroup) -> Seq<char> {
    "  <RuleGroup"@ + rendered_name_attr(g.name) + " groupRelation=\""@
        + relation_name(g.relation) + "\">\n"@ + rendered_blocks(g.blocks@)
        + "  </RuleGroup>\n"@
}

/// The rendered form of the children of the filtering element: each group in
/// order; a stray event-type item renders as nothing.
pub open spec fn rendered_items(items: Seq<FilterItem>) -> Seq<char>
    decreases items.len(),
{
    if items.len() == 0 {
        Seq::empty()
    } else {
        rendered_items(items.drop_last()) + match items.last() {
            FilterItem::Group(g) => rendered_group(g),
            FilterItem::StrayEvent(_) => Seq::empty(),
        }
    }
}

/// The rendered form of an optional schema-version attribute.
pub open spec fn rendered_version(v: Option<Vec<char>>) -> Seq<char> {
    match v {
        Some(sv) => " schemaversion=\""@ + escaped(sv@) + "\""@,
        None => Seq::empty(),
    }
}

/// The rendered form of a whole merged output document.
pub open spec fn rendered_doc(doc: ConfigDoc) -> Seq<char> {
    "<?xml version=\"1.0\" encoding=\"UTF-8\"?>\n<"@ + doc.root_name@
        + rendered_version(doc.schema_version) + ">\n<EventFiltering>\n"@
        + rendered_items(doc.items@[0]->Filtering_0@) + "</EventFiltering>\n</"@
        + doc.root_name@ + ">\n"@
}

/// Renders one rule entry element.
fn render_entry(out: &mut Vec<char>, e: &RuleEntry)
    ensures
        final(out)@ == old(out)@ + rendered_entry(*e),
{
    let ghost base = out@;
    push_str_chars(out, "      <");
    push_all(out, &e.field);
    push_str_chars(out, " condition=\"");
    push_all(out, &crate::model::op_name_vec(e.op));
    push_str_chars(out, "\"");
    match &e.label {
        Some(l) => {
            push_str_chars(out, " name=\"");
            push_escaped(out, l);
            push_str_chars(out, "\"");
        },
        None => {},
    }
    proof {
        assert(out@ =~= base + ("      <"@ + e.field@ + " condition=\""@ + op_name(e.op)
            + "\""@ + rendered_name_attr(e.label)));
    }
    push_str_chars(out, ">");
    push_escaped(out, &e.value);
    push_str_chars(out, "</");
    push_all(out, &e.field);
    push_str_chars(out, ">\n");
    proof {
        assert(out@ =~= base + rendered_entry(*e));
    }
}

/// Renders one event-type block element.
fn render_block(out: &mut Vec<char>, b: &EventBlock)
    ensures
        final(out)@ == old(out)@ + rendered_block(*b),
{
    let ghost base = out@;
    push_str_chars(out, "    <");
    push_all(out, &crate::model::kind_name_vec(b.kind));
    push_str_chars(out, " onmatch=\"");
    match b.polarity {
        Polarity::Include => push_str_chars(out, "include"),
        Polarity::Exclude => push_str_chars(out, "exclude"),
    }
    push_str_chars(out, "\">\n");
    let ghost head = out@;
    proof {
        assert(head =~= base + ("    <"@ + kind_name(b.kind) + " onmatch=\""@
            + polarity_name(b.polarity) + "\">\n"@));
        assert(rendered_entries(b.entries@.take(0)) =~= Seq::<char>::empty());
        assert(out@ =~= head + rendered_entries(b.entries@.take(0)));
    }
    let mut i: usize = 0;
    while i < b.entries.len()
        invariant
            i <= b.entries@.len(),
            out@ == head + rendered_entries(b.entries@.take(i as int)),
        decreases b.entries@.len() - i,
    {
        render_entry(out, &b.entries[i]);
        proof {
            assert(b.entries@.take(i as int + 1).drop_last() =~= b.entries@.take(i as int));
            assert(b.entries@.take(i as int + 1).last() == b.entries@[i as int]);
            assert(out@ =~= head + rendered_entries(b.entries@.take(i as int + 1)));
        }
        i = i + 1;
    }
    proof {
        assert(b.entries@.take(i as int) =~= b.entries@);
    }
    push_str_chars(out, "    </");
    push_all(out, &crate::model::kind_name_vec(b.kind));
    push_str_chars(out, ">\n");
    proof {
        assert(out@ =~= base + rendered_block(*b));
    }
}

/// Renders one rule group element.
fn render_group(out: &mut Vec<char>, g: &RuleGroup)
    ensures
        final(out)@ == old(out)@ + rendered_group(*g),
{
    let ghost base = out@;
    push_str_chars(out, "  <RuleGroup");
    match &g.name {
        Some(n) => {
            push_str_chars(out, " name=\"");
            push_escaped(out, n);
            push_str_chars(out, "\"");
        },
        None => {},
    }
    push_str_chars(out, " groupRelation=\"");
    match g.relation {
        Relation::Or => push_str_chars(out, "or"),
        Relation::And => push_str_chars(out, "and"),
    }
    push_str_chars(out, "\">\n");
    let ghost head = out@;
    proof {
        assert(head =~= base + ("  <RuleGroup"@ + rendered_name_attr(g.name)
            + " groupRelation=\""@ + relation_name(g.relation) + "\">\n"@));
        assert(rendered_blocks(g.blocks@.take(0)) =~= Seq::<char>::empty());
        assert(out@ =~= head + rendered_blocks(g.blocks@.take(0)));
    }
    let mut i: usize = 0;
    while i < g.blocks.len()
        invariant
            i <= g.blocks@.len(),
            out@ == head + rendered_blocks(g.blocks@.take(i as int)),
        decreases g.blocks@.len() - i,
    {
        render_block(out, &g.blocks[i]);
        proof {
            assert(g.blocks@.take(i as int + 1).drop_last() =~= g.blocks@.take(i as int));
            assert(g.blocks@.take(i as int + 1).last() == g.blocks@[i as int]);
            assert(out@ =~= head + rendered_blocks(g.blocks@.take(i as int + 1)));
        }
        i = i + 1;
    }
    proof {
        assert(g.blocks@.take(i as int) =~= g.blocks@);
    }
    push_str_chars(out, "  </RuleGroup>\n");
    proof {
        assert(out@ =~= base + rendered_group(*g));
    }
}

/// Renders a merged output document as markup text: a declaration, the root
/// element with its optional schema-version attribute, and the single
/// `EventFiltering` element with its groups in accumulated order. The text
/// is a deterministic function of the document.
pub fn render(doc: &ConfigDoc) -> (out: Vec<char>)
    requires
        doc.items@.len() == 1,
        doc.items@[0] is Filtering,
    ensures
        out@ == rendered_doc(*doc),
{
    let mut out: Vec<char> = Vec::new();
    push_str_chars(&mut out, "<?xml version=\"1.0\" encoding=\"UTF-8\"?>\n<");
    push_all(&mut out, &doc.root_name);
    match &doc.schema_version {
        Some(sv) => {
            push_str_chars(&mut out, " schemaversion=\"");
            push_escaped(&mut out, sv);
            push_str_chars(&mut out, "\"");
        },
        None => {},
    }
    push_str_chars(&mut out, ">\n<EventFiltering>\n");
    let children = match &doc.items[0] {
        RootItem::Filtering(c) => c,
        _ => {
            proof {
                assert(false);
            }
            return out;
        },
    };
    let ghost head = out@;
    proof {
        assert(head =~= "<?xml version=\"1.0\" encoding=\"UTF-8\"?>\n<"@ + doc.root_name@
            + rendered_version(doc.schema_version) + ">\n<EventFiltering>\n"@);
        assert(rendered_items(children@.take(0)) =~= Seq::<char>::empty());
        assert(out@ =~= head + rendered_items(children@.take(0)));
    }
    let mut i: usize = 0;
    while i < children.len()
        invariant
            i <= children@.len(),
            out@ == head + rendered_items(children@.take(i as int)),
        decreases children@.len() - i,
    {
        proof {
            assert(children@.take(i as int + 1).drop_last() =~= children@.take(i as int));
            assert(children@.take(i as int + 1).last() == children@[i as int]);
        }
        match &children[i] {
            FilterItem::Group(g) => {
                render_group(&mut out, g);
            },
            FilterItem::StrayEvent(_) => {},
        }
        proof {
            assert(out@ =~= head + rendered_items(children@.take(i as int + 1)));
        }
        i = i + 1;
    }
    proof {
        assert(children@.take(i as int) =~= children@);
        assert(children@ == doc.items@[0]->Filtering_0@);
    }
    push_str_chars(&mut out, "</EventFiltering>\n</");
    push_all(&mut out, &doc.root_name);
    push_str_chars(&mut out, ">\n");
    proof {
        assert(out@ =~= rendered_doc(*doc));
    }
    out
}

} // verus!
