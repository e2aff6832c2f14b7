//! Core data model of a Sysmon filtering configuration: match polarity,
//! group relation, the closed set of monitored event kinds, the closed set
//! of comparison operators, and the rule/block/group structures.
use vstd::prelude::*;
use vstd::string::StrSliceExecFns;

verus! {

/// Match polarity of an event-type block: whether matching events are
/// reported (`include`) or suppressed (`exclude`).
#[derive(Clone, Copy, PartialEq, Eq, Structural, Debug)]
pub enum Polarity {
    Include,
    Exclude,
}

/// Boolean combination mode of a rule group (`groupRelation` attribute).
#[derive(Clone, Copy, PartialEq, Eq, Structural, Debug)]
pub enum Relation {
    Or,
    And,
}

/// The closed enumeration of monitored event kinds, one per event-type
/// element name the schema knows.
#[derive(Clone, Copy, PartialEq, Eq, Structural, Debug)]
pub enum EventKind {
    ProcessCreate,
    FileCreateTime,
    NetworkConnect,
    ProcessTerminate,
    DriverLoad,
    ImageLoad,
    CreateRemoteThread,
    RawAccessRead,
    ProcessAccess,
    FileCreate,
    RegistryEvent,
    FileCreateStreamHash,
    PipeEvent,
    WmiEvent,
    DnsQuery,
    FileDelete,
    ClipboardChange,
    ProcessTampering,
    FileDeleteDetected,
    FileBlockExecutable,
    FileBlockShredding,
    FileExecutableDetected,
}

/// The closed enumeration of comparison operators (`condition` attribute).
#[derive(Clone, Copy, PartialEq, Eq, Structural, Debug)]
pub enum CondOp {
    Is,
    IsNot,
    Contains,
    ContainsAny,
    ContainsAll,
    Excludes,
    ExcludesAny,
    ExcludesAll,
    BeginWith,
    EndWith,
    NotBeginWith,
    NotEndWith,
    LessThan,
    MoreThan,
    Image,
}

/// One field/operator/value condition. The optional `label` is metadata and
/// takes no part in rule equality.
#[derive(Debug, PartialEq, Eq)]
pub struct RuleEntry {
    pub field: Vec<char>,
    pub op: CondOp,
    pub value: Vec<char>,
    pub label: Option<Vec<char>>,
}

/// The rules of one monitored event kind under one match polarity.
#[derive(Debug, PartialEq, Eq)]
pub struct EventBlock {
    pub kind: EventKind,
    pub polarity: Polarity,
    pub entries: Vec<RuleEntry>,
}

/// A named container with a boolean combination mode holding event-type
/// blocks.
#[derive(Debug, PartialEq, Eq)]
pub struct RuleGroup {
    pub name: Option<Vec<char>>,
    pub relation: Relation,
    pub blocks: Vec<EventBlock>,
}

/// The element name of each event kind.
pub open spec fn kind_name(k: EventKind) -> Seq<char> {
    match k {
        EventKind::ProcessCreate => "ProcessCreate"@,
        EventKind::FileCreateTime => "FileCreateTime"@,
        EventKind::NetworkConnect => "NetworkConnect"@,
        EventKind::ProcessTerminate => "ProcessTerminate"@,
        EventKind::DriverLoad => "DriverLoad"@,
        EventKind::ImageLoad => "ImageLoad"@,
        EventKind::CreateRemoteThread => "CreateRemoteThread"@,
        EventKind::RawAccessRead => "RawAccessRead"@,
        EventKind::ProcessAccess => "ProcessAccess"@,
        EventKind::FileCreate => "FileCreate"@,
        EventKind::RegistryEvent => "RegistryEvent"@,
        EventKind::FileCreateStreamHash => "FileCreateStreamHash"@,
        EventKind::PipeEvent => "PipeEvent"@,
        EventKind::WmiEvent => "WmiEvent"@,
        EventKind::DnsQuery => "DnsQuery"@,
        EventKind::FileDelete => "FileDelete"@,
        EventKind::ClipboardChange => "ClipboardChange"@,
        EventKind::ProcessTampering => "ProcessTampering"@,
        EventKind::FileDeleteDetected => "FileDeleteDetected"@,
        EventKind::FileBlockExecutable => "FileBlockExecutable"@,
        EventKind::FileBlockShredding => "FileBlockShredding"@,
        EventKind::FileExecutableDetected => "FileExecutableDetected"@,
    }
}

/// The `condition` attribute spelling of each operator.
pub open spec fn op_name(o: CondOp) -> Seq<char> {
    match o {
        CondOp::Is => "is"@,
        CondOp::IsNot => "is not"@,
        CondOp::Contains => "contains"@,
        CondOp::ContainsAny => "contains any"@,
        CondOp::ContainsAll => "contains all"@,
        CondOp::Excludes => "excludes"@,
        CondOp::ExcludesAny => "excludes any"@,
        CondOp::ExcludesAll => "excludes all"@,
        CondOp::BeginWith => "begin with"@,
        CondOp::EndWith => "end with"@,
        CondOp::NotBeginWith => "not begin with"@,
        CondOp::NotEndWith => "not end with"@,
        CondOp::LessThan => "less than"@,
        CondOp::MoreThan => "more than"@,
        CondOp::Image => "image"@,
    }
}

/// The `groupRelation` attribute spelling of each relation.
pub open spec fn relation_name(r: Relation) -> Seq<char> {
    match r {
        Relation::Or => "or"@,
        Relation::And => "and"@,
    }
}

/// The `onmatch` attribute spelling of each polarity.
pub open spec fn polarity_name(p: Polarity) -> Seq<char> {
    match p {
        Polarity::Include => "include"@,
        Polarity::Exclude => "exclude"@,
    }
}

/// Copies the characters of a string slice into a vector.
pub fn str_chars(s: &str) -> (r: Vec<char>)
    ensures
        r@ == s@,
{
    let n = s.unicode_len();
    let mut r: Vec<char> = Vec::new();
    let mut i: usize = 0;
    while i < n
        invariant
            i <= n,
            n == s@.len(),
            r@ == s@.take(i as int),
        decreases n - i,
    {
        r.push(s.get_char(i));
        i = i + 1;
        proof {
            assert(r@ =~= s@.take(i as int));
        }
    }
    proof {
        assert(r@ =~= s@);
    }
    r
}

/// Character-for-character equality of two slices.
pub fn chars_eq(a: &[char], b: &[char]) -> (r: bool)
    ensures
        r == (a@ == b@),
{
    if a.len() != b.len() {
        proof {
            assert(a@ != b@);
        }
        return false;
    }
    let mut i: usize = 0;
    while i < a.len()
        invariant
            i <= a@.len(),
            a@.len() == b@.len(),
            forall|j: int| 0 <= j < i ==> a@[j] == b@[j],
        decreases a@.len() - i,
    {
        if *vstd::slice::slice_index_get(a, i) != *vstd::slice::slice_index_get(b, i) {
            proof {
                assert(a@ != b@);
            }
            return false;
        }
        i = i + 1;
    }
    proof {
        assert(a@ =~= b@);
    }
    true
}

/// Equality of a slice and a string literal's characters.
fn chars_is(a: &[char], s: &str) -> (r: bool)
    ensures
        r == (a@ == s@),
{
    let v = str_chars(s);
    chars_eq(a, v.as_slice())
}

/// The element name of an event kind, as a vector.
pub fn kind_name_vec(k: EventKind) -> (r: Vec<char>)
    ensures
        r@ == kind_name(k),
{
    match k {
        EventKind::ProcessCreate => str_chars("ProcessCreate"),
        EventKind::FileCreateTime => str_chars("FileCreateTime"),
        EventKind::NetworkConnect => str_chars("NetworkConnect"),
        EventKind::ProcessTerminate => str_chars("ProcessTerminate"),
        EventKind::DriverLoad => str_chars("DriverLoad"),
        EventKind::ImageLoad => str_chars("ImageLoad"),
        EventKind::CreateRemoteThread => str_chars("CreateRemoteThread"),
        EventKind::RawAccessRead => str_chars("RawAccessRead"),
        EventKind::ProcessAccess => str_chars("ProcessAccess"),
        EventKind::FileCreate => str_chars("FileCreate"),
        EventKind::RegistryEvent => str_chars("RegistryEvent"),
        EventKind::FileCreateStreamHash => str_chars("FileCreateStreamHash"),
        EventKind::PipeEvent => str_chars("PipeEvent"),
        EventKind::WmiEvent => str_chars("WmiEvent"),
        EventKind::DnsQuery => str_chars("DnsQuery"),
        EventKind::FileDelete => str_chars("FileDelete"),
        EventKind::ClipboardChange => str_chars("ClipboardChange"),
        EventKind::ProcessTampering => str_chars("ProcessTampering"),
        EventKind::FileDeleteDetected => str_chars("FileDeleteDetected"),
        EventKind::FileBlockExecutable => str_chars("FileBlockExecutable"),
        EventKind::FileBlockShredding => str_chars("FileBlockShredding"),
        EventKind::FileExecutableDetected => str_chars("FileExecutableDetected"),
    }
}

/// The `condition` attribute spelling of an operator, as a vector.
pub fn op_name_vec(o: CondOp) -> (r: Vec<char>)
    ensures
        r@ == op_name(o),
{
    match o {
        CondOp::Is => str_chars("is"),
        CondOp::IsNot => str_chars("is not"),
        CondOp::Contains => str_chars("contains"),
        CondOp::ContainsAny => str_chars("contains any"),
        CondOp::ContainsAll => str_chars("contains all"),
        CondOp::Excludes => str_chars("excludes"),
        CondOp::ExcludesAny => str_chars("excludes any"),
        CondOp::ExcludesAll => str_chars("excludes all"),
        CondOp::BeginWith => str_chars("begin with"),
        CondOp::EndWith => str_chars("end with"),
        CondOp::NotBeginWith => str_chars("not begin with"),
        CondOp::NotEndWith => str_chars("not end with"),
        CondOp::LessThan => str_chars("less than"),
        CondOp::MoreThan => str_chars("more than"),
        CondOp::Image => str_chars("image"),
    }
}

/// Which event kind, if any, a given element name denotes.
pub open spec fn kind_of_name(s: Seq<char>) -> Option<EventKind> {
    if s == kind_name(EventKind::ProcessCreate) { Some(EventKind::ProcessCreate) }
    else if s == kind_name(EventKind::FileCreateTime) { Some(EventKind::FileCreateTime) }
    else if s == kind_name(EventKind::NetworkConnect) { Some(EventKind::NetworkConnect) }
    else if s == kind_name(EventKind::ProcessTerminate) { Some(EventKind::ProcessTerminate) }
    else if s == kind_name(EventKind::DriverLoad) { Some(EventKind::DriverLoad) }
    else if s == kind_name(EventKind::ImageLoad) { Some(EventKind::ImageLoad) }
    else if s == kind_name(EventKind::CreateRemoteThread) { Some(EventKind::CreateRemoteThread) }
    else if s == kind_name(EventKind::RawAccessRead) { Some(EventKind::RawAccessRead) }
    else if s == kind_name(EventKind::ProcessAccess) { Some(EventKind::ProcessAccess) }
    else if s == kind_name(EventKind::FileCreate) { Some(EventKind::FileCreate) }
    else if s == kind_name(EventKind::RegistryEvent) { Some(EventKind::RegistryEvent) }
    else if s == kind_name(EventKind::FileCreateStreamHash) { Some(EventKind::FileCreateStreamHash) }
    else if s == kind_name(EventKind::PipeEvent) { Some(EventKind::PipeEvent) }
    else if s == kind_name(EventKind::WmiEvent) { Some(EventKind::WmiEvent) }
    else if s == kind_name(EventKind::DnsQuery) { Some(EventKind::DnsQuery) }
    else if s == kind_name(EventKind::FileDelete) { Some(EventKind::FileDelete) }
    else if s == kind_name(EventKind::ClipboardChange) { Some(EventKind::ClipboardChange) }
    else if s == kind_name(EventKind::ProcessTampering) { Some(EventKind::ProcessTampering) }
    else if s == kind_name(EventKind::FileDeleteDetected) { Some(EventKind::FileDeleteDetected) }
    else if s == kind_name(EventKind::FileBlockExecutable) { Some(EventKind::FileBlockExecutable) }
    else if s == kind_name(EventKind::FileBlockShredding) { Some(EventKind::FileBlockShredding) }
    else if s == kind_name(EventKind::FileExecutableDetected) { Some(EventKind::FileExecutableDetected) }
    else { None }
}

/// Classifies an element name as an event kind.
pub fn kind_of(name: &[char]) -> (r: Option<EventKind>)
    ensures
        r == kind_of_name(name@),
{
    if chars_is(name, "ProcessCreate") { Some(EventKind::ProcessCreate) }
    else if chars_is(name, "FileCreateTime") { Some(EventKind::FileCreateTime) }
    else if chars_is(name, "NetworkConnect") { Some(EventKind::NetworkConnect) }
    else if chars_is(name, "ProcessTerminate") { Some(EventKind::ProcessTerminate) }
    else if chars_is(name, "DriverLoad") { Some(EventKind::DriverLoad) }
    else if chars_is(name, "ImageLoad") { Some(EventKind::ImageLoad) }
    else if chars_is(name, "CreateRemoteThread") { Some(EventKind::CreateRemoteThread) }
    else if chars_is(name, "RawAccessRead") { Some(EventKind::RawAccessRead) }
    else if chars_is(name, "ProcessAccess") { Some(EventKind::ProcessAccess) }
    else if chars_is(name, "FileCreate") { Some(EventKind::FileCreate) }
    else if chars_is(name, "RegistryEvent") { Some(EventKind::RegistryEvent) }
    else if chars_is(name, "FileCreateStreamHash") { Some(EventKind::FileCreateStreamHash) }
    else if chars_is(name, "PipeEvent") { Some(EventKind::PipeEvent) }
    else if chars_is(name, "WmiEvent") { Some(EventKind::WmiEvent) }
    else if chars_is(name, "DnsQuery") { Some(EventKind::DnsQuery) }
    else if chars_is(name, "FileDelete") { Some(EventKind::FileDelete) }
    else if chars_is(name, "ClipboardChange") { Some(EventKind::ClipboardChange) }
    else if chars_is(name, "ProcessTampering") { Some(EventKind::ProcessTampering) }
    else if chars_is(name, "FileDeleteDetected") { Some(EventKind::FileDeleteDetected) }
    else if chars_is(name, "FileBlockExecutable") { Some(EventKind::FileBlockExecutable) }
    else if chars_is(name, "FileBlockShredding") { Some(EventKind::FileBlockShredding) }
    else if chars_is(name, "FileExecutableDetected") { Some(EventKind::FileExecutableDetected) }
    else { None }
}

/// Which operator, if any, a given `condition` attribute value denotes.
pub open spec fn op_of_name(s: Seq<char>) -> Option<CondOp> {
    if s == op_name(CondOp::Is) { Some(CondOp::Is) }
    else if s == op_name(CondOp::IsNot) { Some(CondOp::IsNot) }
    else if s == op_name(CondOp::Contains) { Some(CondOp::Contains) }
    else if s == op_name(CondOp::ContainsAny) { Some(CondOp::ContainsAny) }
    else if s == op_name(CondOp::ContainsAll) { Some(CondOp::ContainsAll) }
    else if s == op_name(CondOp::Excludes) { Some(CondOp::Excludes) }
    else if s == op_name(CondOp::ExcludesAny) { Some(CondOp::ExcludesAny) }
    else if s == op_name(CondOp::ExcludesAll) { Some(CondOp::ExcludesAll) }
    else if s == op_name(CondOp::BeginWith) { Some(CondOp::BeginWith) }
    else if s == op_name(CondOp::EndWith) { Some(CondOp::EndWith) }
    else if s == op_name(CondOp::NotBeginWith) { Some(CondOp::NotBeginWith) }
    else if s == op_name(CondOp::NotEndWith) { Some(CondOp::NotEndWith) }
    else if s == op_name(CondOp::LessThan) { Some(CondOp::LessThan) }
    else if s == op_name(CondOp::MoreThan) { Some(CondOp::MoreThan) }
    else if s == op_name(CondOp::Image) { Some(CondOp::Image) }
    else { None }
}

/// Classifies a `condition` attribute value as an operator.
pub fn op_of(name: &[char]) -> (r: Option<CondOp>)
    ensures
        r == op_of_name(name@),
{
    if chars_is(name, "is") { Some(CondOp::Is) }
    else if chars_is(name, "is not") { Some(CondOp::IsNot) }
    else if chars_is(name, "contains") { Some(CondOp::Contains) }
    else if chars_is(name, "contains any") { Some(CondOp::ContainsAny) }
    else if chars_is(name, "contains all") { Some(CondOp::ContainsAll) }
    else if chars_is(name, "excludes") { Some(CondOp::Excludes) }
    else if chars_is(name, "excludes any") { Some(CondOp::ExcludesAny) }
    else if chars_is(name, "excludes all") { Some(CondOp::ExcludesAll) }
    else if chars_is(name, "begin with") { Some(CondOp::BeginWith) }
    else if chars_is(name, "end with") { Some(CondOp::EndWith) }
    else if chars_is(name, "not begin with") { Some(CondOp::NotBeginWith) }
    else if chars_is(name, "not end with") { Some(CondOp::NotEndWith) }
    else if chars_is(name, "less than") { Some(CondOp::LessThan) }
    else if chars_is(name, "more than") { Some(CondOp::MoreThan) }
    else if chars_is(name, "image") { Some(CondOp::Image) }
    else { None }
}

/// Which relation, if any, a given `groupRelation` attribute value denotes.
pub open spec fn relation_of_name(s: Seq<char>) -> Option<Relation> {
    if s == relation_name(Relation::Or) { Some(Relation::Or) }
    else if s == relation_name(Relation::And) { Some(Relation::And) }
    else { None }
}

/// Classifies a `groupRelation` attribute value as a relation.
pub fn relation_of(name: &[char]) -> (r: Option<Relation>)
    ensures
        r == relation_of_name(name@),
{
    if chars_is(name, "or") { Some(Relation::Or) }
    else if chars_is(name, "and") { Some(Relation::And) }
    else { None }
}

/// Which polarity, if any, a given `onmatch` attribute value denotes.
pub open spec fn polarity_of_name(s: Seq<char>) -> Option<Polarity> {
    if s == polarity_name(Polarity::Include) { Some(Polarity::Include) }
    else if s == polarity_name(Polarity::Exclude) { Some(Polarity::Exclude) }
    else { None }
}

/// Classifies an `onmatch` attribute value as a polarity.
pub fn polarity_of(name: &[char]) -> (r: Option<Polarity>)
    ensures
        r == polarity_of_name(name@),
{
    if chars_is(name, "include") { Some(Polarity::Include) }
    else if chars_is(name, "exclude") { Some(Polarity::Exclude) }
    else { None }
}

/// The element name that wraps all filtering content.
pub open spec fn filtering_tag() -> Seq<char> {
    "EventFiltering"@
}

/// The element name of a rule group.
pub open spec fn group_tag() -> Seq<char> {
    "RuleGroup"@
}

/// Whether an element name is rule-bearing: the filtering wrapper, a rule
/// group, or an event-type element.
pub open spec fn is_rule_bearing_name(s: Seq<char>) -> bool {
    s == filtering_tag() || s == group_tag() || kind_of_name(s) is Some
}

/// Tests whether an element name is rule-bearing.
pub fn is_rule_bearing(name: &[char]) -> (r: bool)
    ensures
        r == is_rule_bearing_name(name@),
{
    if chars_is(name, "EventFiltering") {
        true
    } else if chars_is(name, "RuleGroup") {
        true
    } else {
        kind_of(name).is_some()
    }
}

} // verus!
