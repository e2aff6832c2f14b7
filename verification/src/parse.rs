//! Parser for fragment configuration documents: markup text in, structural
//! `ConfigDoc` out. Parsing is non-recovering: the first syntax fault aborts
//! the file. Unknown elements outside the filtering structure are kept by
//! name only; unknown elements inside it are faults.
use vstd::prelude::*;
use crate::model::{is_rule_bearing, kind_of, op_of, op_of_name, polarity_of, polarity_of_name,
    relation_of, relation_of_name, CondOp, Polarity, Relation, RuleEntry, RuleGroup};
use crate::document::{ConfigDoc, FilterItem, RootItem};

verus! {

/// Why a document would not parse.
#[derive(Clone, Copy, PartialEq, Eq, Structural, Debug)]
pub enum ParseError {
    /// Broken markup: an unterminated construct, a bad entity, a mismatched
    /// close tag, or trailing garbage, at the given position.
    Malformed { pos: usize },
    /// A name with a fixed vocabulary held none of its values: an unknown
    /// element inside the filtering structure, or an unknown `condition`,
    /// `onmatch` or `groupRelation` value, at the given position.
    UnknownName { pos: usize },
}

/// Reads the character at a position.
fn at(s: &[char], pos: usize) -> (c: char)
    requires
        pos < s@.len(),
    ensures
        c == s@[pos as int],
{
    *vstd::slice::slice_index_get(s, pos)
}

/// Whether a character may stand in an element or attribute name.
fn is_name_char(c: char) -> bool {
    let u = c as u32;
    (97 <= u && u <= 122) || (65 <= u && u <= 90) || (48 <= u && u <= 57)
        || u == 95 || u == 45 || u == 58 || u == 46
}

/// Whether a character is markup whitespace.
fn is_ws(c: char) -> bool {
    c == ' ' || c == '\t' || c == '\r' || c == '\n'
}

/// Advances past whitespace.
fn skip_ws(s: &[char], pos: &mut usize)
    requires
        *old(pos) <= s@.len(),
    ensures
        *old(pos) <= *final(pos) <= s@.len(),
{
    while *pos < s.len() && is_ws(at(s, *pos))
        invariant
            *old(pos) <= *pos <= s@.len(),
        decreases s@.len() - *pos,
    {
        *pos = *pos + 1;
    }
}

/// Advances past whitespace, comments, processing instructions and
/// declarations, up to the next element tag or the end of input.
fn skip_misc(s: &[char], pos: &mut usize) -> (r: Result<(), ParseError>)
    requires
        *old(pos) <= s@.len(),
    ensures
        *old(pos) <= *final(pos) <= s@.len(),
{
    loop
        invariant
            *old(pos) <= *pos <= s@.len(),
        decreases s@.len() - *pos,
    {
        skip_ws(s, pos);
        if s.len() - *pos < 2 || at(s, *pos) != '<' {
            return Ok(());
        }
        let c1 = at(s, *pos + 1);
        let ghost p0 = *pos;
        if c1 == '?' {
            // processing instruction or declaration: skip to "?>"
            *pos = *pos + 2;
            loop
                invariant
                    *old(pos) <= p0 < *pos <= s@.len(),
                decreases s@.len() - *pos,
            {
                if s.len() - *pos < 2 {
                    return Err(ParseError::Malformed { pos: *pos });
                }
                if at(s, *pos) == '?' && at(s, *pos + 1) == '>' {
                    *pos = *pos + 2;
                    break;
                }
                *pos = *pos + 1;
            }
        } else if c1 == '!' {
            if s.len() - *pos > 3 && at(s, *pos + 2) == '-' && at(s, *pos + 3) == '-' {
                // comment: skip to "-->"
                *pos = *pos + 4;
                loop
                    invariant
                        *old(pos) <= p0 < *pos <= s@.len(),
                    decreases s@.len() - *pos,
                {
                    if s.len() - *pos < 3 {
                        return Err(ParseError::Malformed { pos: *pos });
                    }
                    if at(s, *pos) == '-' && at(s, *pos + 1) == '-' && at(s, *pos + 2) == '>' {
                        *pos = *pos + 3;
                        break;
                    }
                    *pos = *pos + 1;
                }
            } else {
                // document type declaration: skip to '>'
                *pos = *pos + 2;
                loop
                    invariant
                        *old(pos) <= p0 < *pos <= s@.len(),
                    decreases s@.len() - *pos,
                {
                    if *pos >= s.len() {
                        return Err(ParseError::Malformed { pos: *pos });
                    }
                    if at(s, *pos) == '>' {
                        *pos = *pos + 1;
                        break;
                    }
                    *pos = *pos + 1;
                }
            }
        } else {
            return Ok(());
        }
    }
}

/// Reads one element or attribute name.
fn parse_name(s: &[char], pos: &mut usize) -> (r: Result<Vec<char>, ParseError>)
    requires
        *old(pos) <= s@.len(),
    ensures
        *old(pos) <= *final(pos) <= s@.len(),
        r is Ok ==> *old(pos) < *final(pos),
{
    let mut name: Vec<char> = Vec::new();
    while *pos < s.len() && is_name_char(at(s, *pos))
        invariant
            *old(pos) <= *pos <= s@.len(),
            name@.len() <= *pos - *old(pos),
        decreases s@.len() - *pos,
    {
        name.push(at(s, *pos));
        *pos = *pos + 1;
    }
    if name.len() == 0 {
        return Err(ParseError::Malformed { pos: *pos });
    }
    Ok(name)
}

/// Decodes one entity reference standing at `pos` (on the ampersand).
fn parse_entity(s: &[char], pos: &mut usize) -> (r: Result<char, ParseError>)
    requires
        *old(pos) < s@.len(),
    ensures
        *old(pos) <= *final(pos) <= s@.len(),
        r is Ok ==> *old(pos) < *final(pos),
{
    let start = *pos;
    if start >= s.len() {
        return Err(ParseError::Malformed { pos: start });
    }
    *pos = start + 1;
    let mut name: Vec<char> = Vec::new();
    loop
        invariant
            *old(pos) < *pos <= s@.len(),
        decreases s@.len() - *pos,
    {
        if *pos >= s.len() || name.len() > 4 {
            return Err(ParseError::Malformed { pos: start });
        }
        let c = at(s, *pos);
        *pos = *pos + 1;
        if c == ';' {
            break;
        }
        name.push(c);
    }
    if crate::model::chars_eq(name.as_slice(), crate::model::str_chars("amp").as_slice()) {
        Ok('&')
    } else if crate::model::chars_eq(name.as_slice(), crate::model::str_chars("lt").as_slice()) {
        Ok('<')
    } else if crate::model::chars_eq(name.as_slice(), crate::model::str_chars("gt").as_slice()) {
        Ok('>')
    } else if crate::model::chars_eq(name.as_slice(), crate::model::str_chars("quot").as_slice()) {
        Ok('"')
    } else if crate::model::chars_eq(name.as_slice(), crate::model::str_chars("apos").as_slice()) {
        Ok('\'')
    } else {
        Err(ParseError::Malformed { pos: start })
    }
}

/// One parsed attribute.
struct Attr {
    name: Vec<char>,
    value: Vec<char>,
}

/// Reads the attributes of an open tag, up to but not past its `>` or `/>`.
fn parse_attrs(s: &[char], pos: &mut usize) -> (r: Result<Vec<Attr>, ParseError>)
    requires
        *old(pos) <= s@.len(),
    ensures
        *old(pos) <= *final(pos) <= s@.len(),
{
    let mut attrs: Vec<Attr> = Vec::new();
    loop
        invariant
            *old(pos) <= *pos <= s@.len(),
        decreases s@.len() - *pos,
    {
        let before = *pos;
        skip_ws(s, pos);
        if *pos >= s.len() {
            return Err(ParseError::Malformed { pos: *pos });
        }
        let c = at(s, *pos);
        if c == '>' || c == '/' {
            return Ok(attrs);
        }
        let name = match parse_name(s, pos) {
            Ok(n) => n,
            Err(e) => {
                return Err(e);
            },
        };
        skip_ws(s, pos);
        if *pos >= s.len() || at(s, *pos) != '=' {
            return Err(ParseError::Malformed { pos: *pos });
        }
        *pos = *pos + 1;
        skip_ws(s, pos);
        if *pos >= s.len() {
            return Err(ParseError::Malformed { pos: *pos });
        }
        let quote = at(s, *pos);
        if quote != '"' && quote != '\'' {
            return Err(ParseError::Malformed { pos: *pos });
        }
        *pos = *pos + 1;
        let mut value: Vec<char> = Vec::new();
        loop
            invariant
                *old(pos) <= *pos <= s@.len(),
            decreases s@.len() - *pos,
        {
            if *pos >= s.len() {
                return Err(ParseError::Malformed { pos: *pos });
            }
            let vc = at(s, *pos);
            if vc == quote {
                *pos = *pos + 1;
                break;
            }
            if vc == '&' {
                match parse_entity(s, pos) {
                    Ok(d) => value.push(d),
                    Err(e) => {
                        return Err(e);
                    },
                }
            } else if vc == '<' {
                return Err(ParseError::Malformed { pos: *pos });
            } else {
                value.push(vc);
                *pos = *pos + 1;
            }
        }
        attrs.push(Attr { name, value });
        if *pos <= before {
            return Err(ParseError::Malformed { pos: *pos });
        }
    }
}

/// Finds the first attribute with the given name and hands its value out.
fn take_attr(attrs: &Vec<Attr>, name: &str) -> (r: Option<Vec<char>>)
    ensures
        match r {
            Some(v) => exists|i: int| 0 <= i < attrs@.len()
                && (#[trigger] attrs@[i]).name@ == name@ && v@ == attrs@[i].value@
                && forall|j: int| 0 <= j < i ==> (#[trigger] attrs@[j]).name@ != name@,
            None => forall|i: int| 0 <= i < attrs@.len()
                ==> (#[trigger] attrs@[i]).name@ != name@,
        },
{
    let mut i: usize = 0;
    while i < attrs.len()
        invariant
            i <= attrs@.len(),
            forall|j: int| 0 <= j < i ==> (#[trigger] attrs@[j]).name@ != name@,
        decreases attrs@.len() - i,
    {
        if crate::model::chars_eq(attrs[i].name.as_slice(),
            crate::model::str_chars(name).as_slice()) {
            let v = crate::accumulate::copy_chars(&attrs[i].value);
            proof {
                assert((attrs@[i as int]).name@ == name@ && v@ == attrs@[i as int].value@);
            }
            return Some(v);
        }
        i = i + 1;
    }
    None
}

/// The relation an optional `groupRelation` attribute denotes: an absent
/// attribute counts as `or`; an unknown spelling is no relation.
fn relation_of_attr(v: &Option<Vec<char>>) -> (r: Option<Relation>)
    ensures
        r == match *v {
            Option::Some(s) => relation_of_name(s@),
            Option::None => Some(Relation::Or),
        },
{
    match v {
        Some(s) => relation_of(s.as_slice()),
        None => Some(Relation::Or),
    }
}

/// The polarity an optional `onmatch` attribute denotes: an absent attribute
/// counts as `include`; an unknown spelling is no polarity.
fn polarity_of_attr(v: &Option<Vec<char>>) -> (r: Option<Polarity>)
    ensures
        r == match *v {
            Option::Some(s) => polarity_of_name(s@),
            Option::None => Some(Polarity::Include),
        },
{
    match v {
        Some(s) => polarity_of(s.as_slice()),
        None => Some(Polarity::Include),
    }
}

/// The operator an optional `condition` attribute denotes: an absent
/// attribute counts as `is`; an unknown spelling is no operator.
fn op_of_attr(v: &Option<Vec<char>>) -> (r: Option<CondOp>)
    ensures
        r == match *v {
            Option::Some(s) => op_of_name(s@),
            Option::None => Some(CondOp::Is),
        },
{
    match v {
        Some(s) => op_of(s.as_slice()),
        None => Some(CondOp::Is),
    }
}

/// Reads decoded character content up to the next tag.
fn parse_text(s: &[char], pos: &mut usize) -> (r: Result<Vec<char>, ParseError>)
    requires
        *old(pos) <= s@.len(),
    ensures
        *old(pos) <= *final(pos) <= s@.len(),
{
    let mut text: Vec<char> = Vec::new();
    loop
        invariant
            *old(pos) <= *pos <= s@.len(),
        decreases s@.len() - *pos,
    {
        if *pos >= s.len() {
            return Err(ParseError::Malformed { pos: *pos });
        }
        let c = at(s, *pos);
        if c == '<' {
            return Ok(text);
        }
        if c == '&' {
            match parse_entity(s, pos) {
                Ok(d) => text.push(d),
                Err(e) => {
                    return Err(e);
                },
            }
        } else {
            text.push(c);
            *pos = *pos + 1;
        }
    }
}

/// The head of one parsed open tag.
struct OpenTag {
    name: Vec<char>,
    attrs: Vec<Attr>,
    self_closing: bool,
}

/// Reads one open tag standing at `pos` (on the `<`), past its closing `>`.
fn parse_open_tag(s: &[char], pos: &mut usize) -> (r: Result<OpenTag, ParseError>)
    requires
        *old(pos) <= s@.len(),
    ensures
        *old(pos) <= *final(pos) <= s@.len(),
        r is Ok ==> *old(pos) < *final(pos),
{
    if *pos >= s.len() || at(s, *pos) != '<' {
        return Err(ParseError::Malformed { pos: *pos });
    }
    *pos = *pos + 1;
    let name = match parse_name(s, pos) {
        Ok(n) => n,
        Err(e) => {
            return Err(e);
        },
    };
    let attrs = match parse_attrs(s, pos) {
        Ok(a) => a,
        Err(e) => {
            return Err(e);
        },
    };
    if *pos >= s.len() {
        return Err(ParseError::Malformed { pos: *pos });
    }
    if at(s, *pos) == '/' {
        if s.len() - *pos < 2 || at(s, *pos + 1) != '>' {
            return Err(ParseError::Malformed { pos: *pos });
        }
        *pos = *pos + 2;
        return Ok(OpenTag { name, attrs, self_closing: true });
    }
    if at(s, *pos) != '>' {
        return Err(ParseError::Malformed { pos: *pos });
    }
    *pos = *pos + 1;
    Ok(OpenTag { name, attrs, self_closing: false })
}

/// Reads one close tag standing at `pos` (on the `<`), past its `>`, and
/// hands its name out.
fn parse_close_tag(s: &[char], pos: &mut usize) -> (r: Result<Vec<char>, ParseError>)
    requires
        *old(pos) <= s@.len(),
    ensures
        *old(pos) <= *final(pos) <= s@.len(),
{
    if s.len() - *pos < 2 || at(s, *pos) != '<' || at(s, *pos + 1) != '/' {
        return Err(ParseError::Malformed { pos: *pos });
    }
    *pos = *pos + 2;
    let name = match parse_name(s, pos) {
        Ok(n) => n,
        Err(e) => {
            return Err(e);
        },
    };
    skip_ws(s, pos);
    if *pos >= s.len() || at(s, *pos) != '>' {
        return Err(ParseError::Malformed { pos: *pos });
    }
    *pos = *pos + 1;
    Ok(name)
}

/// Skips the content and close tag of an already-opened element, nested
/// elements included, and reports whether any rule-bearing element name was
/// seen inside.
fn skip_element(s: &[char], pos: &mut usize) -> (r: Result<bool, ParseError>)
    requires
        *old(pos) <= s@.len(),
    ensures
        *old(pos) <= *final(pos) <= s@.len(),
{
    let mut depth: usize = 1;
    let mut seen = false;
    loop
        invariant
            *old(pos) <= *pos <= s@.len(),
        decreases s@.len() - *pos,
    {
        let before = *pos;
        // scan to the next tag
        loop
            invariant
                *old(pos) <= *pos <= s@.len(),
            decreases s@.len() - *pos,
        {
            if *pos >= s.len() {
                return Err(ParseError::Malformed { pos: *pos });
            }
            if at(s, *pos) == '<' {
                break;
            }
            *pos = *pos + 1;
        }
        if s.len() - *pos < 2 {
            return Err(ParseError::Malformed { pos: *pos });
        }
        let c1 = at(s, *pos + 1);
        if c1 == '/' {
            match parse_close_tag(s, pos) {
                Ok(_) => {},
                Err(e) => {
                    return Err(e);
                },
            }
            if depth <= 1 {
                return Ok(seen);
            }
            depth = depth - 1;
        } else if c1 == '!' || c1 == '?' {
            match skip_misc(s, pos) {
                Ok(()) => {},
                Err(e) => {
                    return Err(e);
                },
            }
            if *pos <= before {
                return Err(ParseError::Malformed { pos: *pos });
            }
        } else {
            let tag = match parse_open_tag(s, pos) {
                Ok(t) => t,
                Err(e) => {
                    return Err(e);
                },
            };
            if is_rule_bearing(tag.name.as_slice()) {
                seen = true;
            }
            if !tag.self_closing {
                if depth == usize::MAX {
                    return Err(ParseError::Malformed { pos: *pos });
                }
                depth = depth + 1;
            }
        }
        if *pos <= before {
            return Err(ParseError::Malformed { pos: *pos });
        }
    }
}

/// Reads the rule entries of an event-type block, up to and past the block's
/// close tag, whose name must match the block's.
fn parse_entries(s: &[char], pos: &mut usize, block_name: &Vec<char>)
    -> (r: Result<Vec<RuleEntry>, ParseError>)
    requires
        *old(pos) <= s@.len(),
    ensures
        *old(pos) <= *final(pos) <= s@.len(),
{
    let mut entries: Vec<RuleEntry> = Vec::new();
    loop
        invariant
            *old(pos) <= *pos <= s@.len(),
        decreases s@.len() - *pos,
    {
        let before = *pos;
        match skip_misc(s, pos) {
            Ok(()) => {},
            Err(e) => {
                return Err(e);
            },
        }
        if s.len() - *pos < 2 || at(s, *pos) != '<' {
            return Err(ParseError::Malformed { pos: *pos });
        }
        if at(s, *pos + 1) == '/' {
            let close = match parse_close_tag(s, pos) {
                Ok(n) => n,
                Err(e) => {
                    return Err(e);
                },
            };
            if !crate::model::chars_eq(close.as_slice(), block_name.as_slice()) {
                return Err(ParseError::Malformed { pos: *pos });
            }
            return Ok(entries);
        }
        let field_pos = *pos;
        let tag = match parse_open_tag(s, pos) {
            Ok(t) => t,
            Err(e) => {
                return Err(e);
            },
        };
        let op = match op_of_attr(&take_attr(&tag.attrs, "condition")) {
            Some(o) => o,
            None => {
                return Err(ParseError::UnknownName { pos: field_pos });
            },
        };
        let label = take_attr(&tag.attrs, "name");
        let value: Vec<char>;
        if tag.self_closing {
            value = Vec::new();
        } else {
            value = match parse_text(s, pos) {
                Ok(t) => t,
                Err(e) => {
                    return Err(e);
                },
            };
            let close = match parse_close_tag(s, pos) {
                Ok(n) => n,
                Err(e) => {
                    return Err(e);
                },
            };
            if !crate::model::chars_eq(close.as_slice(), tag.name.as_slice()) {
                return Err(ParseError::Malformed { pos: *pos });
            }
        }
        entries.push(RuleEntry { field: tag.name, op, value, label });
        if *pos <= before {
            return Err(ParseError::Malformed { pos: *pos });
        }
    }
}

/// Reads the event-type blocks of a rule group, up to and past the group's
/// close tag.
fn parse_blocks(s: &[char], pos: &mut usize) -> (r: Result<Vec<crate::model::EventBlock>, ParseError>)
    requires
        *old(pos) <= s@.len(),
    ensures
        *old(pos) <= *final(pos) <= s@.len(),
{
    let mut blocks: Vec<crate::model::EventBlock> = Vec::new();
    loop
        invariant
            *old(pos) <= *pos <= s@.len(),
        decreases s@.len() - *pos,
    {
        let before = *pos;
        match skip_misc(s, pos) {
            Ok(()) => {},
            Err(e) => {
                return Err(e);
            },
        }
        if s.len() - *pos < 2 || at(s, *pos) != '<' {
            return Err(ParseError::Malformed { pos: *pos });
        }
        if at(s, *pos + 1) == '/' {
            let close = match parse_close_tag(s, pos) {
                Ok(n) => n,
                Err(e) => {
                    return Err(e);
                },
            };
            if !crate::model::chars_eq(close.as_slice(),
                crate::model::str_chars("RuleGroup").as_slice()) {
                return Err(ParseError::Malformed { pos: *pos });
            }
            return Ok(blocks);
        }
        let tag_pos = *pos;
        let tag = match parse_open_tag(s, pos) {
            Ok(t) => t,
            Err(e) => {
                return Err(e);
            },
        };
        let kind = match kind_of(tag.name.as_slice()) {
            Some(k) => k,
            None => {
                return Err(ParseError::UnknownName { pos: tag_pos });
            },
        };
        let polarity = match polarity_of_attr(&take_attr(&tag.attrs, "onmatch")) {
            Some(p) => p,
            None => {
                return Err(ParseError::UnknownName { pos: tag_pos });
            },
        };
        let entries: Vec<RuleEntry>;
        if tag.self_closing {
            entries = Vec::new();
        } else {
            entries = match parse_entries(s, pos, &tag.name) {
                Ok(es) => es,
                Err(e) => {
                    return Err(e);
                },
            };
        }
        blocks.push(crate::model::EventBlock { kind, polarity, entries });
        if *pos <= before {
            return Err(ParseError::Malformed { pos: *pos });
        }
    }
}

/// Reads the children of an `EventFiltering` element, up to and past its
/// close tag.
fn parse_filter_items(s: &[char], pos: &mut usize) -> (r: Result<Vec<FilterItem>, ParseError>)
    requires
        *old(pos) <= s@.len(),
    ensures
        *old(pos) <= *final(pos) <= s@.len(),
{
    let mut items: Vec<FilterItem> = Vec::new();
    loop
        invariant
            *old(pos) <= *pos <= s@.len(),
        decreases s@.len() - *pos,
    {
        let before = *pos;
        match skip_misc(s, pos) {
            Ok(()) => {},
            Err(e) => {
                return Err(e);
            },
        }
        if s.len() - *pos < 2 || at(s, *pos) != '<' {
            return Err(ParseError::Malformed { pos: *pos });
        }
        if at(s, *pos + 1) == '/' {
            let close = match parse_close_tag(s, pos) {
                Ok(n) => n,
                Err(e) => {
                    return Err(e);
                },
            };
            if !crate::model::chars_eq(close.as_slice(),
                crate::model::str_chars("EventFiltering").as_slice()) {
                return Err(ParseError::Malformed { pos: *pos });
            }
            return Ok(items);
        }
        let tag_pos = *pos;
        let tag = match parse_open_tag(s, pos) {
            Ok(t) => t,
            Err(e) => {
                return Err(e);
            },
        };
        if crate::model::chars_eq(tag.name.as_slice(),
            crate::model::str_chars("RuleGroup").as_slice()) {
            let gname = take_attr(&tag.attrs, "name");
            let relation = match relation_of_attr(&take_attr(&tag.attrs, "groupRelation")) {
                Some(rl) => rl,
                None => {
                    return Err(ParseError::UnknownName { pos: tag_pos });
                },
            };
            let blocks: Vec<crate::model::EventBlock>;
            if tag.self_closing {
                blocks = Vec::new();
            } else {
                blocks = match parse_blocks(s, pos) {
                    Ok(bs) => bs,
                    Err(e) => {
                        return Err(e);
                    },
                };
            }
            items.push(FilterItem::Group(RuleGroup { name: gname, relation, blocks }));
        } else {
            match kind_of(tag.name.as_slice()) {
                Some(k) => {
                    if !tag.self_closing {
                        match skip_element(s, pos) {
                            Ok(_) => {},
                            Err(e) => {
                                return Err(e);
                            },
                        }
                    }
                    items.push(FilterItem::StrayEvent(k));
                },
                None => {
                    return Err(ParseError::UnknownName { pos: tag_pos });
                },
            }
        }
        if *pos <= before {
            return Err(ParseError::Malformed { pos: *pos });
        }
    }
}

/// Parses one configuration document. The root element may have any name;
/// its `schemaversion` attribute is kept as metadata. Rule-bearing elements
/// outside `EventFiltering`, and event-type elements standing directly under
/// it, are kept as stray items for the validator to reject.
pub fn parse_document(s: &[char]) -> (r: Result<ConfigDoc, ParseError>)
{
    let mut pos: usize = 0;
    match skip_misc(s, &mut pos) {
        Ok(()) => {},
        Err(e) => {
            return Err(e);
        },
    }
    let root = match parse_open_tag(s, &mut pos) {
        Ok(t) => t,
        Err(e) => {
            return Err(e);
        },
    };
    let schema_version = take_attr(&root.attrs, "schemaversion");
    let mut items: Vec<RootItem> = Vec::new();
    if !root.self_closing {
        loop
            invariant
                pos <= s@.len(),
            decreases s@.len() - pos,
        {
            let before = pos;
            match skip_misc(s, &mut pos) {
                Ok(()) => {},
                Err(e) => {
                    return Err(e);
                },
            }
            if s.len() - pos < 2 || at(s, pos) != '<' {
                return Err(ParseError::Malformed { pos });
            }
            if at(s, pos + 1) == '/' {
                let close = match parse_close_tag(s, &mut pos) {
                    Ok(n) => n,
                    Err(e) => {
                        return Err(e);
                    },
                };
                if !crate::model::chars_eq(close.as_slice(), root.name.as_slice()) {
                    return Err(ParseError::Malformed { pos });
                }
                break;
            }
            let tag = match parse_open_tag(s, &mut pos) {
                Ok(t) => t,
                Err(e) => {
                    return Err(e);
                },
            };
            if crate::model::chars_eq(tag.name.as_slice(),
                crate::model::str_chars("EventFiltering").as_slice()) {
                let children: Vec<FilterItem>;
                if tag.self_closing {
                    children = Vec::new();
                } else {
                    children = match parse_filter_items(s, &mut pos) {
                        Ok(cs) => cs,
                        Err(e) => {
                            return Err(e);
                        },
                    };
                }
                items.push(RootItem::Filtering(children));
            } else if is_rule_bearing(tag.name.as_slice()) {
                if !tag.self_closing {
                    match skip_element(s, &mut pos) {
                        Ok(_) => {},
                        Err(e) => {
                            return Err(e);
                        },
                    }
                }
                items.push(RootItem::Stray(tag.name));
            } else {
                let mut seen = false;
                if !tag.self_closing {
                    seen = match skip_element(s, &mut pos) {
                        Ok(b) => b,
                        Err(e) => {
                            return Err(e);
                        },
                    };
                }
                if seen {
                    items.push(RootItem::Stray(tag.name));
                } else {
                    items.push(RootItem::Meta(tag.name));
                }
            }
            if pos <= before {
                return Err(ParseError::Malformed { pos });
            }
        }
    }
    match skip_misc(s, &mut pos) {
        Ok(()) => {},
        Err(e) => {
            return Err(e);
        },
    }
    if pos < s.len() {
        return Err(ParseError::Malformed { pos });
    }
    Ok(ConfigDoc { root_name: root.name, schema_version, items })
}

} // verus!
