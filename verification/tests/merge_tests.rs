use sysmon_merge::driver::{merge_contents, validate_content, ConfigError, MergeContentsError,
    MergeError};
use sysmon_merge::document::{ConfigDoc, FilterItem, RootItem, Violation};
use sysmon_merge::parse::{parse_document, ParseError};
use sysmon_merge::model::{CondOp, EventKind, Polarity, Relation, RuleGroup};

fn chars(s: &str) -> Vec<char> {
    s.chars().collect()
}

fn text(v: &[char]) -> String {
    v.iter().collect()
}

fn frag_a() -> Vec<char> {
    chars("<Sysmon schemaversion=\"4.90\"><EventFiltering><RuleGroup name=\"g\" groupRelation=\"or\"><ProcessCreate onmatch=\"include\"><Image condition=\"is\">cmd.exe</Image></ProcessCreate></RuleGroup></EventFiltering></Sysmon>")
}

fn frag_b() -> Vec<char> {
    chars("<Sysmon schemaversion=\"4.90\"><EventFiltering><RuleGroup groupRelation=\"or\"><ProcessCreate onmatch=\"include\"><Image condition=\"is\">cmd.exe</Image><CommandLine condition=\"contains\">powershell</CommandLine></ProcessCreate></RuleGroup></EventFiltering></Sysmon>")
}

fn frag_and() -> Vec<char> {
    chars("<Sysmon><EventFiltering><RuleGroup groupRelation=\"and\"><ProcessCreate onmatch=\"include\"><ParentImage condition=\"end with\">explorer.exe</ParentImage></ProcessCreate></RuleGroup></EventFiltering></Sysmon>")
}

fn groups_of(doc: &ConfigDoc) -> Vec<&RuleGroup> {
    let mut gs = Vec::new();
    for item in &doc.items {
        if let RootItem::Filtering(children) = item {
            for c in children {
                if let FilterItem::Group(g) = c {
                    gs.push(g);
                }
            }
        }
    }
    gs
}

type Retained = (Relation, EventKind, Polarity, String, CondOp, String);

fn retained(doc: &ConfigDoc) -> Vec<Retained> {
    let mut out = Vec::new();
    for g in groups_of(doc) {
        for b in &g.blocks {
            for e in &b.entries {
                out.push((g.relation, b.kind, b.polarity, text(&e.field), e.op, text(&e.value)));
            }
        }
    }
    out
}

fn same_retained(a: &[Retained], b: &[Retained]) -> bool {
    a.len() == b.len() && a.iter().all(|t| b.contains(t)) && b.iter().all(|t| a.contains(t))
}

fn merge_to_doc(frags: Vec<Vec<char>>) -> ConfigDoc {
    let out = merge_contents(&frags).expect("merge failed");
    parse_document(&out).expect("merged output did not parse back")
}

#[test]
fn test_parse_basic() {
    let doc = parse_document(&frag_a()).unwrap();
    assert_eq!(text(&doc.root_name), "Sysmon");
    assert_eq!(doc.schema_version.as_ref().map(|v| text(v)), Some("4.90".to_string()));
    let gs = groups_of(&doc);
    assert_eq!(gs.len(), 1);
    assert_eq!(gs[0].relation, Relation::Or);
    assert_eq!(gs[0].name.as_ref().map(|v| text(v)), Some("g".to_string()));
    assert_eq!(gs[0].blocks.len(), 1);
    let b = &gs[0].blocks[0];
    assert_eq!(b.kind, EventKind::ProcessCreate);
    assert_eq!(b.polarity, Polarity::Include);
    assert_eq!(b.entries.len(), 1);
    assert_eq!(text(&b.entries[0].field), "Image");
    assert_eq!(b.entries[0].op, CondOp::Is);
    assert_eq!(text(&b.entries[0].value), "cmd.exe");
}

#[test]
fn test_validate_valid_fragment() {
    assert!(validate_content(&frag_a()).is_ok());
    assert!(validate_content(&frag_b()).is_ok());
}

#[test]
fn test_invalid_rules_outside_filtering() {
    let bad = chars("<Sysmon><ProcessCreate onmatch=\"include\"><Image condition=\"is\">x</Image></ProcessCreate></Sysmon>");
    assert_eq!(validate_content(&bad),
        Err(ConfigError::Invalid(Violation::RulesOutsideFiltering)));
}

#[test]
fn test_invalid_nested_rules_outside_filtering() {
    let bad = chars("<Sysmon><Wrapper><ProcessCreate onmatch=\"include\"><Image condition=\"is\">x</Image></ProcessCreate></Wrapper></Sysmon>");
    assert_eq!(validate_content(&bad),
        Err(ConfigError::Invalid(Violation::RulesOutsideFiltering)));
}

#[test]
fn test_invalid_event_outside_group() {
    let bad = chars(
        "<Sysmon><EventFiltering><ProcessCreate onmatch=\"include\"/></EventFiltering></Sysmon>");
    assert_eq!(validate_content(&bad), Err(ConfigError::Invalid(Violation::EventOutsideGroup)));
}

#[test]
fn test_invalid_no_rule_group() {
    let bad = chars("<Sysmon><EventFiltering></EventFiltering></Sysmon>");
    assert_eq!(validate_content(&bad), Err(ConfigError::Invalid(Violation::NoRuleGroup)));
}

#[test]
fn test_merge_aborts_on_invalid_fragment() {
    let bad = chars("<Sysmon><EventFiltering></EventFiltering></Sysmon>");
    let r = merge_contents(&vec![frag_a(), bad]);
    assert_eq!(r, Err(MergeContentsError::Merge(MergeError::InvalidFragment {
        index: 1,
        violation: Violation::NoRuleGroup,
    })));
}

#[test]
fn test_merge_dedup_scenario() {
    // fragment A holds `Image is cmd.exe`; fragment B holds the same rule
    // plus `CommandLine contains powershell` under the same grouping
    // relation: the merge collapses the duplicate.
    let doc = merge_to_doc(vec![frag_a(), frag_b()]);
    let gs = groups_of(&doc);
    assert_eq!(gs.len(), 1);
    assert_eq!(gs[0].relation, Relation::Or);
    assert_eq!(gs[0].blocks.len(), 1);
    let b = &gs[0].blocks[0];
    assert_eq!(b.kind, EventKind::ProcessCreate);
    assert_eq!(b.polarity, Polarity::Include);
    assert_eq!(b.entries.len(), 2);
    assert_eq!(text(&b.entries[0].field), "Image");
    assert_eq!(b.entries[0].op, CondOp::Is);
    assert_eq!(text(&b.entries[0].value), "cmd.exe");
    assert_eq!(text(&b.entries[1].field), "CommandLine");
    assert_eq!(b.entries[1].op, CondOp::Contains);
    assert_eq!(text(&b.entries[1].value), "powershell");
}

#[test]
fn test_merge_idempotent() {
    let out1 = merge_contents(&vec![frag_a(), frag_b()]).unwrap();
    let out2 = merge_contents(&vec![frag_a(), frag_b(), out1.clone()]).unwrap();
    assert_eq!(out1, out2);
}

#[test]
fn test_merge_order_independent_sets() {
    let d1 = merge_to_doc(vec![frag_a(), frag_b(), frag_and()]);
    let d2 = merge_to_doc(vec![frag_and(), frag_b(), frag_a()]);
    assert!(same_retained(&retained(&d1), &retained(&d2)));
}

#[test]
fn test_relation_conflict_two_groups() {
    // two fragments carry the same event kind and polarity under different
    // group relations: the output keeps two distinct groups, never one.
    let doc = merge_to_doc(vec![frag_a(), frag_and()]);
    let gs = groups_of(&doc);
    assert_eq!(gs.len(), 2);
    assert_eq!(gs[0].relation, Relation::Or);
    assert_eq!(gs[1].relation, Relation::And);
    assert_eq!(gs[0].blocks[0].kind, EventKind::ProcessCreate);
    assert_eq!(gs[1].blocks[0].kind, EventKind::ProcessCreate);
    assert_eq!(text(&gs[1].blocks[0].entries[0].field), "ParentImage");
    assert_eq!(gs[1].blocks[0].entries[0].op, CondOp::EndWith);
}

#[test]
fn test_merged_output_passes_validation() {
    let out = merge_contents(&vec![frag_a(), frag_b(), frag_and()]).unwrap();
    assert!(validate_content(&out).is_ok());
}

#[test]
fn test_merge_no_input() {
    let r = merge_contents(&Vec::new());
    assert_eq!(r, Err(MergeContentsError::Merge(MergeError::NoInput)));
}

#[test]
fn test_merge_empty_groups_invalid_output() {
    // a fragment whose only rule group is empty is valid on its own but
    // contributes nothing, so the merge cannot emit a valid document
    let empty = chars("<Sysmon><EventFiltering><RuleGroup/></EventFiltering></Sysmon>");
    assert!(validate_content(&empty).is_ok());
    let r = merge_contents(&vec![empty]);
    assert_eq!(r, Err(MergeContentsError::Merge(MergeError::InvalidOutput)));
}

#[test]
fn test_parse_malformed() {
    let r = parse_document(&chars("<Sysmon><EventFiltering>"));
    assert!(matches!(r, Err(ParseError::Malformed { .. })));
}

#[test]
fn test_parse_unknown_condition() {
    let bad = chars("<Sysmon><EventFiltering><RuleGroup><ProcessCreate><Image condition=\"frobs\">x</Image></ProcessCreate></RuleGroup></EventFiltering></Sysmon>");
    assert!(matches!(parse_document(&bad), Err(ParseError::UnknownName { .. })));
}

#[test]
fn test_parse_unknown_event_kind() {
    let bad = chars("<Sysmon><EventFiltering><RuleGroup><NotAnEvent onmatch=\"include\"/></RuleGroup></EventFiltering></Sysmon>");
    assert!(matches!(parse_document(&bad), Err(ParseError::UnknownName { .. })));
}

#[test]
fn test_parse_unknown_group_relation() {
    let bad = chars("<Sysmon><EventFiltering><RuleGroup groupRelation=\"xor\"><ProcessCreate/></RuleGroup></EventFiltering></Sysmon>");
    assert!(matches!(parse_document(&bad), Err(ParseError::UnknownName { .. })));
}

#[test]
fn test_default_attribute_values() {
    // a missing groupRelation reads as "or", a missing onmatch as
    // "include", a missing condition as "is"
    let frag = chars("<Sysmon><EventFiltering><RuleGroup><ProcessCreate><Image>x</Image></ProcessCreate></RuleGroup></EventFiltering></Sysmon>");
    let doc = parse_document(&frag).unwrap();
    let gs = groups_of(&doc);
    assert_eq!(gs[0].relation, Relation::Or);
    assert_eq!(gs[0].blocks[0].polarity, Polarity::Include);
    assert_eq!(gs[0].blocks[0].entries[0].op, CondOp::Is);
}

#[test]
fn test_escape_round_trip() {
    let frag = chars("<Sysmon><EventFiltering><RuleGroup><ProcessCreate><CommandLine condition=\"contains\">a&lt;b&amp;c&gt;d&quot;e&apos;f</CommandLine></ProcessCreate></RuleGroup></EventFiltering></Sysmon>");
    let doc = merge_to_doc(vec![frag]);
    let gs = groups_of(&doc);
    assert_eq!(text(&gs[0].blocks[0].entries[0].value), "a<b&c>d\"e'f");
}

#[test]
fn test_prolog_comments_and_metadata() {
    let frag = chars("<?xml version=\"1.0\"?>\n<!-- event rules -->\n<Sysmon schemaversion=\"4.90\">\n  <HashAlgorithms>md5</HashAlgorithms>\n  <EventFiltering><RuleGroup groupRelation=\"or\">\n    <DnsQuery onmatch=\"exclude\"><QueryName condition=\"end with\">.local</QueryName></DnsQuery>\n  </RuleGroup></EventFiltering>\n</Sysmon>");
    assert!(validate_content(&frag).is_ok());
    let doc = merge_to_doc(vec![frag]);
    assert_eq!(doc.schema_version.as_ref().map(|v| text(v)), Some("4.90".to_string()));
    let gs = groups_of(&doc);
    assert_eq!(gs[0].blocks[0].kind, EventKind::DnsQuery);
    assert_eq!(gs[0].blocks[0].polarity, Polarity::Exclude);
}

#[test]
fn test_merge_keeps_first_seen_order() {
    let frag_c = chars("<Sysmon><EventFiltering><RuleGroup groupRelation=\"or\"><NetworkConnect onmatch=\"include\"><DestinationPort condition=\"is\">4444</DestinationPort></NetworkConnect></RuleGroup></EventFiltering></Sysmon>");
    let doc = merge_to_doc(vec![frag_a(), frag_c.clone(), frag_b()]);
    let gs = groups_of(&doc);
    assert_eq!(gs.len(), 1);
    assert_eq!(gs[0].blocks.len(), 2);
    assert_eq!(gs[0].blocks[0].kind, EventKind::ProcessCreate);
    assert_eq!(gs[0].blocks[1].kind, EventKind::NetworkConnect);
    // entries of the first block keep their first-seen order
    assert_eq!(text(&gs[0].blocks[0].entries[0].field), "Image");
    assert_eq!(text(&gs[0].blocks[0].entries[1].field), "CommandLine");
}

#[test]
fn test_merge_takes_root_metadata_from_first_fragment() {
    let doc = merge_to_doc(vec![frag_a(), frag_and()]);
    assert_eq!(text(&doc.root_name), "Sysmon");
    assert_eq!(doc.schema_version.as_ref().map(|v| text(v)), Some("4.90".to_string()));
}

#[test]
fn test_merge_reports_parse_failure_with_index() {
    let bad = chars("<Sysmon><EventFiltering>");
    let r = merge_contents(&vec![frag_a(), bad]);
    assert!(matches!(r, Err(MergeContentsError::Parse { index: 1, .. })));
}

#[test]
fn test_validate_content_reports_parse_failure() {
    let bad = chars("not markup at all");
    assert!(matches!(validate_content(&bad), Err(ConfigError::Parse(ParseError::Malformed { .. }))));
}

#[test]
fn test_entry_label_kept_from_first_seen() {
    let frag = chars("<Sysmon><EventFiltering><RuleGroup><ProcessCreate onmatch=\"include\"><Image condition=\"is\" name=\"technique\">cmd.exe</Image></ProcessCreate></RuleGroup></EventFiltering></Sysmon>");
    let doc = merge_to_doc(vec![frag]);
    let gs = groups_of(&doc);
    let e = &gs[0].blocks[0].entries[0];
    assert_eq!(e.label.as_ref().map(|v| text(v)), Some("technique".to_string()));
}

#[test]
fn test_all_operators_round_trip() {
    let ops = [
        ("is", CondOp::Is),
        ("is not", CondOp::IsNot),
        ("contains", CondOp::Contains),
        ("contains any", CondOp::ContainsAny),
        ("contains all", CondOp::ContainsAll),
        ("excludes", CondOp::Excludes),
        ("excludes any", CondOp::ExcludesAny),
        ("excludes all", CondOp::ExcludesAll),
        ("begin with", CondOp::BeginWith),
        ("end with", CondOp::EndWith),
        ("not begin with", CondOp::NotBeginWith),
        ("not end with", CondOp::NotEndWith),
        ("less than", CondOp::LessThan),
        ("more than", CondOp::MoreThan),
        ("image", CondOp::Image),
    ];
    for (spelling, op) in &ops {
        let frag = chars(&format!(
            "<Sysmon><EventFiltering><RuleGroup><ProcessCreate onmatch=\"include\"><Image condition=\"{}\">v</Image></ProcessCreate></RuleGroup></EventFiltering></Sysmon>",
            spelling
        ));
        let doc = merge_to_doc(vec![frag]);
        let gs = groups_of(&doc);
        assert_eq!(gs[0].blocks[0].entries[0].op, *op, "operator {}", spelling);
    }
}

#[test]
fn test_event_kinds_round_trip() {
    let kinds = [
        ("ProcessCreate", EventKind::ProcessCreate),
        ("FileCreateTime", EventKind::FileCreateTime),
        ("NetworkConnect", EventKind::NetworkConnect),
        ("DriverLoad", EventKind::DriverLoad),
        ("ImageLoad", EventKind::ImageLoad),
        ("RegistryEvent", EventKind::RegistryEvent),
        ("DnsQuery", EventKind::DnsQuery),
        ("ClipboardChange", EventKind::ClipboardChange),
        ("FileExecutableDetected", EventKind::FileExecutableDetected),
    ];
    for (name, kind) in &kinds {
        let frag = chars(&format!(
            "<Sysmon><EventFiltering><RuleGroup><{} onmatch=\"exclude\"><F condition=\"is\">v</F></{}></RuleGroup></EventFiltering></Sysmon>",
            name, name
        ));
        let doc = merge_to_doc(vec![frag]);
        let gs = groups_of(&doc);
        assert_eq!(gs[0].blocks[0].kind, *kind, "event kind {}", name);
        assert_eq!(gs[0].blocks[0].polarity, Polarity::Exclude);
    }
}

#[test]
fn test_single_quoted_attributes() {
    let frag = chars("<Sysmon schemaversion='4.90'><EventFiltering><RuleGroup groupRelation='and'><ProcessCreate onmatch='include'><Image condition='is'>x</Image></ProcessCreate></RuleGroup></EventFiltering></Sysmon>");
    let doc = parse_document(&frag).unwrap();
    assert_eq!(doc.schema_version.as_ref().map(|v| text(v)), Some("4.90".to_string()));
    assert_eq!(groups_of(&doc)[0].relation, Relation::And);
}

#[test]
fn test_same_key_different_polarity_two_blocks() {
    let inc = chars("<Sysmon><EventFiltering><RuleGroup><ProcessCreate onmatch=\"include\"><Image condition=\"is\">a</Image></ProcessCreate></RuleGroup></EventFiltering></Sysmon>");
    let exc = chars("<Sysmon><EventFiltering><RuleGroup><ProcessCreate onmatch=\"exclude\"><Image condition=\"is\">a</Image></ProcessCreate></RuleGroup></EventFiltering></Sysmon>");
    let doc = merge_to_doc(vec![inc, exc]);
    let gs = groups_of(&doc);
    assert_eq!(gs.len(), 1);
    assert_eq!(gs[0].blocks.len(), 2);
    assert_eq!(gs[0].blocks[0].polarity, Polarity::Include);
    assert_eq!(gs[0].blocks[1].polarity, Polarity::Exclude);
    assert_eq!(gs[0].blocks[0].entries.len(), 1);
    assert_eq!(gs[0].blocks[1].entries.len(), 1);
}

#[test]
fn test_entry_equality_ignores_label() {
    // two fragments carry the same (field, operator, value) triple under
    // different labels: one entry remains, with the first-seen label
    let one = chars("<Sysmon><EventFiltering><RuleGroup><ProcessCreate onmatch=\"include\"><Image condition=\"is\" name=\"first\">x</Image></ProcessCreate></RuleGroup></EventFiltering></Sysmon>");
    let two = chars("<Sysmon><EventFiltering><RuleGroup><ProcessCreate onmatch=\"include\"><Image condition=\"is\" name=\"second\">x</Image></ProcessCreate></RuleGroup></EventFiltering></Sysmon>");
    let doc = merge_to_doc(vec![one, two]);
    let gs = groups_of(&doc);
    assert_eq!(gs[0].blocks[0].entries.len(), 1);
    assert_eq!(gs[0].blocks[0].entries[0].label.as_ref().map(|v| text(v)),
        Some("first".to_string()));
}

#[test]
fn test_merge_output_reproducible() {
    // two merges of the same fragment sequence emit byte-identical text
    let out1 = merge_contents(&vec![frag_a(), frag_and(), frag_b()]).unwrap();
    let out2 = merge_contents(&vec![frag_a(), frag_and(), frag_b()]).unwrap();
    assert_eq!(out1, out2);
}
