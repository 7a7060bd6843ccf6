//! The configuration language: a line-oriented section tree.  A line
//! ending in `{` opens a section — a route section when it starts with
//! the word `route` — a line of `}` closes one, and any other line is a
//! key and a value separated by the first space.  Values are quoted
//! strings, integers, booleans, or sizes with a K, M or G suffix;
//! comments run from `#` to the end of the line.  The tree flattens
//! into dotted keys for the server to read.

use vstd::prelude::*;

use crate::text::{
    all_digits, dec_value, digit_val, is_digit_char, lower_char, parse_u64_digits, str_eq,
    u64_to_string,
};
use crate::wildcard::str_chars;

verus! {

/// One node of the configuration tree.
#[derive(PartialEq, Eq, Debug)]
pub enum ConfigNode {
    Number(String, String),
    Boolean(String, String),
    Text(String, String),
    Section(String, Vec<ConfigNode>),
    Route(String, Vec<ConfigNode>),
}

/// A configuration error: what went wrong, in which file, on which line.
#[derive(Debug)]
pub struct ConfigError {
    pub message: String,
    pub file: String,
    pub line: u64,
}

impl ConfigError {
    pub fn new(message: &str, file: &str, line: u64) -> (r: ConfigError)
        ensures
            r.message@ == message@,
            r.file@ == file@,
            r.line == line,
    {
        ConfigError {
            message: String::from_str(message),
            file: String::from_str(file),
            line: line,
        }
    }
}

/// Blank characters a line is trimmed of: space, tab, carriage return.
pub open spec fn is_blank(c: char) -> bool {
    c == ' ' || c == '\t' || c == '\r'
}

/// The line up to its first `#`.
pub open spec fn strip_comment(s: Seq<char>) -> Seq<char>
    decreases s.len(),
{
    if s.len() == 0 {
        s
    } else if s[0] == '#' {
        Seq::empty()
    } else {
        seq![s[0]] + strip_comment(s.drop_first())
    }
}

pub open spec fn trim_front(s: Seq<char>) -> Seq<char>
    decreases s.len(),
{
    if s.len() > 0 && is_blank(s[0]) {
        trim_front(s.drop_first())
    } else {
        s
    }
}

pub open spec fn trim_back(s: Seq<char>) -> Seq<char>
    decreases s.len(),
{
    if s.len() > 0 && is_blank(s.last()) {
        trim_back(s.drop_last())
    } else {
        s
    }
}

/// A line as the parser reads it: comment gone, blanks trimmed off both
/// ends.
pub open spec fn spec_clean(s: Seq<char>) -> Seq<char> {
    trim_back(trim_front(strip_comment(s)))
}

/// Cleans up a line by removing any comment and the surrounding blanks.
pub fn clean_up(line: &str) -> (r: String)
    ensures
        r@ == spec_clean(line@),
{
    let cs = str_chars(line);
    let n = cs.len();

    // End of the content: the first `#`, or the whole line.
    let mut stop: usize = 0;
    while stop < n && cs[stop] != '#'
        invariant
            cs@ == line@,
            n == cs@.len(),
            0 <= stop <= n,
            forall|k: int| 0 <= k < stop ==> #[trigger] cs@[k] != '#',
        decreases n - stop,
    {
        stop += 1;
    }
    proof {
        lemma_strip_comment_take(cs@, stop as int);
    }
    let ghost stripped = strip_comment(cs@);

    // Trim blanks off both ends of the content.
    let mut a: usize = 0;
    proof {
        assert(stripped.skip(0) =~= stripped);
    }
    while a < stop && (cs[a] == ' ' || cs[a] == '\t' || cs[a] == '\r')
        invariant
            cs@ == line@,
            stripped =~= cs@.take(stop as int),
            0 <= a <= stop <= cs@.len(),
            trim_front(stripped) == trim_front(stripped.skip(a as int)),
        decreases stop - a,
    {
        proof {
            assert(stripped.skip(a as int)[0] == cs@[a as int]);
            assert(stripped.skip(a as int).drop_first() =~= stripped.skip(a + 1));
        }
        a += 1;
    }
    proof {
        if a < stop {
            assert(stripped.skip(a as int)[0] == cs@[a as int]);
        }
        assert(trim_front(stripped.skip(a as int)) == stripped.skip(a as int));
    }
    let ghost fronted = stripped.skip(a as int);
    let mut b: usize = stop;
    proof {
        assert(fronted =~= cs@.subrange(a as int, stop as int));
    }
    while b > a && (cs[b - 1] == ' ' || cs[b - 1] == '\t' || cs[b - 1] == '\r')
        invariant
            cs@ == line@,
            stripped =~= cs@.take(stop as int),
            fronted == stripped.skip(a as int),
            0 <= a <= b <= stop <= cs@.len(),
            trim_back(fronted) == trim_back(cs@.subrange(a as int, b as int)),
        decreases b - a,
    {
        proof {
            assert(cs@.subrange(a as int, b as int).last() == cs@[b - 1]);
            assert(cs@.subrange(a as int, b as int).drop_last() =~= cs@.subrange(a as int, b - 1));
        }
        b -= 1;
    }
    proof {
        if b > a {
            assert(cs@.subrange(a as int, b as int).last() == cs@[b - 1]);
        }
        assert(trim_back(cs@.subrange(a as int, b as int)) == cs@.subrange(a as int, b as int));
    }
    let mut out = String::new();
    let mut i: usize = a;
    while i < b
        invariant
            cs@ == line@,
            a <= i <= b <= cs@.len(),
            out@ =~= cs@.subrange(a as int, i as int),
        decreases b - i,
    {
        out.push(cs[i]);
        proof {
            assert(out@ =~= cs@.subrange(a as int, i + 1));
        }
        i += 1;
    }
    out
}

/// The comment-free part is the line up to its first `#`.
proof fn lemma_strip_comment_take(s: Seq<char>, stop: int)
    requires
        0 <= stop <= s.len(),
        forall|k: int| 0 <= k < stop ==> #[trigger] s[k] != '#',
        stop < s.len() ==> s[stop] == '#',
    ensures
        strip_comment(s) =~= s.take(stop),
    decreases s.len(),
{
    if s.len() == 0 {
    } else if s[0] == '#' {
        assert(stop == 0);
    } else {
        assert(stop >= 1);
        assert forall|k: int| 0 <= k < stop - 1 implies #[trigger] s.drop_first()[k] != '#' by {
            assert(s.drop_first()[k] == s[k + 1]);
        }
        assert(stop - 1 < s.drop_first().len() ==> s.drop_first()[stop - 1] == '#');
        lemma_strip_comment_take(s.drop_first(), stop - 1);
        assert(seq![s[0]] + strip_comment(s.drop_first()) =~= s.take(stop));
    }
}

/// An integer literal: an optional minus sign and digits, whose value
/// fits a signed 64-bit number.
pub open spec fn spec_parse_i64(s: Seq<char>) -> Option<int> {
    if s.len() > 0 && s[0] == '-' {
        if all_digits(s.skip(1)) && dec_value(s.skip(1)) <= 0x8000_0000_0000_0000 {
            Some(-dec_value(s.skip(1)))
        } else {
            None
        }
    } else {
        if all_digits(s) && dec_value(s) <= 0x7fff_ffff_ffff_ffff {
            Some(dec_value(s))
        } else {
            None
        }
    }
}

/// Reads an integer literal.
pub fn parse_i64(s: &[char]) -> (r: Option<i64>)
    ensures
        match r {
            Some(n) => spec_parse_i64(s@) == Some(n as int),
            None => spec_parse_i64(s@) is None,
        },
{
    if s.len() > 0 && s[0] == '-' {
        let rest = crate::wildcard::chars_range(s, 1, s.len());
        proof {
            assert(rest@ =~= s@.skip(1));
        }
        match parse_u64_digits(rest.as_slice()) {
            None => None,
            Some(m) => {
                if m > 0x8000_0000_0000_0000u64 {
                    None
                } else if m == 0x8000_0000_0000_0000u64 {
                    Some(i64::MIN)
                } else {
                    Some(-(m as i64))
                }
            },
        }
    } else {
        match parse_u64_digits(s) {
            None => None,
            Some(m) => {
                if m > 0x7fff_ffff_ffff_ffffu64 {
                    None
                } else {
                    Some(m as i64)
                }
            },
        }
    }
}

/// A size: an integer alone, or an integer with a K, M or G suffix
/// scaling it to bytes, as long as the result still fits.
pub open spec fn spec_parse_size(s: Seq<char>) -> Option<int> {
    if s.len() == 0 {
        None
    } else if s.len() == 1 {
        spec_parse_i64(s)
    } else {
        let scale: int = if lower_char(s.last()) == 'k' {
            1024
        } else if lower_char(s.last()) == 'm' {
            1048576
        } else if lower_char(s.last()) == 'g' {
            1073741824
        } else {
            0
        };
        if scale != 0 {
            match spec_parse_i64(s.drop_last()) {
                Some(n) => if -0x8000_0000_0000_0000 <= n * scale <= 0x7fff_ffff_ffff_ffff {
                    Some(n * scale)
                } else {
                    None
                },
                None => None,
            }
        } else if is_digit_char(s.last()) {
            spec_parse_i64(s)
        } else {
            None
        }
    }
}

/// Parses a size string into its number of bytes: `4K` is 4096, `1M` is
/// 1048576.  Without a suffix letter the number is taken as bytes.  A
/// product too large for a signed 64-bit number is refused.
pub fn parse_size(size: &str) -> (r: Result<i64, ()>)
    ensures
        match r {
            Ok(n) => spec_parse_size(size@) == Some(n as int),
            Err(()) => spec_parse_size(size@) is None,
        },
{
    let cs = str_chars(size);
    if cs.len() == 0 {
        return Err(());
    }
    if cs.len() == 1 {
        return match parse_i64(cs.as_slice()) {
            Some(n) => Ok(n),
            None => Err(()),
        };
    }
    let lastc = cs[cs.len() - 1];
    let lastu: u32 = lastc as u32;
    let scale: i64 = if lastc == 'K' || lastc == 'k' {
        1024
    } else if lastc == 'M' || lastc == 'm' {
        1048576
    } else if lastc == 'G' || lastc == 'g' {
        1073741824
    } else {
        0
    };
    proof {
        if 65 <= lastu <= 90 {
            vstd::utf8::char_u32_cast(lastc, lastu);
            assert(((lastc as u8) as u32) == lastu);
        }
    }
    if scale != 0 {
        let head = crate::wildcard::chars_range(cs.as_slice(), 0, cs.len() - 1);
        proof {
            assert(head@ =~= cs@.drop_last());
        }
        match parse_i64(head.as_slice()) {
            None => Err(()),
            Some(n) => {
                match n.checked_mul(scale) {
                    Some(v) => Ok(v),
                    None => Err(()),
                }
            },
        }
    } else if 48 <= lastu && lastu <= 57 {
        match parse_i64(cs.as_slice()) {
            Some(n) => Ok(n),
            None => Err(()),
        }
    } else {
        Err(())
    }
}

/// Asserts a condition, reporting a configuration error instead of
/// panicking.
pub fn quiet_assert(condition: bool, message: &str, filename: &str, line: u64) -> (r: Result<
    (),
    ConfigError,
>)
    ensures
        condition <==> r is Ok,
        r matches Err(e) ==> e.message@ == message@ && e.file@ == filename@ && e.line == line,
{
    if condition {
        Ok(())
    } else {
        Err(ConfigError::new(message, filename, line))
    }
}

/// A quoted value: wrapped in double quotes, no escapes.
pub open spec fn is_quoted(v: Seq<char>) -> bool {
    v.len() >= 2 && v[0] == '"' && v.last() == '"'
}

/// A boolean literal.
pub open spec fn is_bool_lit(v: Seq<char>) -> bool {
    v == "true"@ || v == "false"@
}

/// Classifies a key's value, trying each form in order: a quoted
/// string, an integer, a boolean, a size with suffix.  Anything else is
/// refused.
pub fn parse_value(key: String, value: &str) -> (r: Result<ConfigNode, ()>)
    ensures
        match r {
            Ok(node) => if is_quoted(value@) {
                node matches ConfigNode::Text(k, v2) && k@ == key@ && v2@ == value@.subrange(
                    1,
                    value@.len() - 1,
                )
            } else if spec_parse_i64(value@) is Some {
                node matches ConfigNode::Number(k, v2) && k@ == key@ && v2@ == value@
            } else if is_bool_lit(value@) {
                node matches ConfigNode::Boolean(k, v2) && k@ == key@ && v2@ == value@
            } else if spec_parse_size(value@) is Some {
                node matches ConfigNode::Number(k, v2) && k@ == key@ && v2@
                    == crate::text::dec_int_digits(spec_parse_size(value@)->Some_0)
            } else {
                false
            },
            Err(()) => !is_quoted(value@) && spec_parse_i64(value@) is None && !is_bool_lit(value@)
                && spec_parse_size(value@) is None,
        },
{
    let cs = str_chars(value);
    let n = cs.len();
    if n >= 2 && cs[0] == '"' && cs[n - 1] == '"' {
        let inner = crate::wildcard::chars_range(cs.as_slice(), 1, n - 1);
        let s = crate::text::chars_to_string(inner.as_slice());
        return Ok(ConfigNode::Text(key, s));
    }
    match parse_i64(cs.as_slice()) {
        Some(_) => {
            return Ok(ConfigNode::Number(key, String::from_str(value)));
        },
        None => {},
    }
    if str_eq(&String::from_str(value), "true") || str_eq(&String::from_str(value), "false") {
        return Ok(ConfigNode::Boolean(key, String::from_str(value)));
    }
    match parse_size(value) {
        Ok(size) => Ok(ConfigNode::Number(key, crate::text::i64_to_string(size))),
        Err(()) => Err(()),
    }
}

/// Where the next line break stands, at or after `from`.
pub open spec fn find_nl(s: Seq<char>, from: int) -> Option<int>
    decreases s.len() - from when 0 <= from
{
    if from >= s.len() {
        None
    } else if s[from] == '\n' {
        Some(from)
    } else {
        find_nl(s, from + 1)
    }
}

proof fn lemma_find_nl_bounds(s: Seq<char>, from: int)
    requires
        0 <= from,
    ensures
        match find_nl(s, from) {
            Some(i) => from <= i < s.len() && s[i] == '\n',
            None => true,
        },
    decreases s.len() - from,
{
    if from < s.len() && s[from] != '\n' {
        lemma_find_nl_bounds(s, from + 1);
    }
}

#[via_fn]
proof fn split_nl_decreases(s: Seq<char>, pos: int) {
    lemma_find_nl_bounds(s, pos);
}

/// The text cut into lines at each line break.
pub open spec fn split_nl(s: Seq<char>, pos: int) -> Seq<Seq<char>>
    decreases s.len() - pos when 0 <= pos <= s.len() via split_nl_decreases
{
    match find_nl(s, pos) {
        None => seq![s.subrange(pos, s.len() as int)],
        Some(i) => seq![s.subrange(pos, i)] + split_nl(s, i + 1),
    }
}

/// Cuts the text into lines.
#[verifier::loop_isolation(false)]
pub fn split_lines(conf: &str) -> (r: Vec<String>)
    ensures
        r@.len() == split_nl(conf@, 0).len(),
        forall|k: int| 0 <= k < r@.len() ==> (#[trigger] r@[k])@ == split_nl(conf@, 0)[k],
{
    let cs = str_chars(conf);
    let n = cs.len();
    let ghost gl = split_nl(conf@, 0);
    let mut lines: Vec<String> = Vec::new();
    let mut pos: usize = 0;
    let mut start: usize = 0;
    proof {
        assert(gl =~= lines@.map(|_i: int, l: String| l@) + split_nl(conf@, 0));
    }
    while pos < n
        invariant
            0 <= start <= pos <= n,
            gl == lines@.map(|_i: int, l: String| l@) + split_nl(conf@, start as int),
            forall|k: int| start <= k < pos ==> cs@[k] != '\n',
            find_nl(conf@, start as int) == find_nl(conf@, pos as int),
        decreases n - pos,
    {
        if cs[pos] == '\n' {
            let piece = crate::wildcard::chars_range(cs.as_slice(), start, pos);
            let s = crate::text::chars_to_string(piece.as_slice());
            let ghost pre = lines@;
            lines.push(s);
            proof {
                assert(find_nl(conf@, pos as int) == Some(pos as int));
                assert(split_nl(conf@, start as int) =~= seq![
                    conf@.subrange(start as int, pos as int),
                ] + split_nl(conf@, pos + 1));
                assert(lines@.map(|_i: int, l: String| l@) =~= pre.map(|_i: int, l: String| l@)
                    + seq![conf@.subrange(start as int, pos as int)]);
            }
            start = pos + 1;
        }
        pos += 1;
    }
    let piece = crate::wildcard::chars_range(cs.as_slice(), start, n);
    let s = crate::text::chars_to_string(piece.as_slice());
    let ghost pre = lines@;
    lines.push(s);
    proof {
        assert(find_nl(conf@, start as int) is None);
        assert(split_nl(conf@, start as int) =~= seq![conf@.subrange(start as int, n as int)]);
        assert(lines@.map(|_i: int, l: String| l@) =~= pre.map(|_i: int, l: String| l@) + seq![
            conf@.subrange(start as int, n as int),
        ]);
        assert(gl =~= lines@.map(|_i: int, l: String| l@));
        assert forall|k: int| 0 <= k < lines@.len() implies (#[trigger] lines@[k])@ == split_nl(
            conf@,
            0,
        )[k] by {
            assert(lines@.map(|_i: int, l: String| l@)[k] == lines@[k]@);
        }
    }
    lines
}

/// Whether the cleaned line opens a route section: the word `route`, a
/// space, and a pattern before the brace.
pub fn starts_with_route(header: &String) -> (r: bool)
    ensures
        r == (header@.len() >= 6 && header@.subrange(0, 6) == "route "@),
{
    proof {
        reveal_strlit("route ");
        assert("route "@.len() == 6);
    }
    let cs = str_chars(header.as_str());
    if cs.len() < 6 {
        return false;
    }
    let head = crate::wildcard::chars_range(cs.as_slice(), 0, 6);
    let hs = crate::text::chars_to_string(head.as_slice());
    let r = str_eq(&hs, "route ");
    proof {
        assert(head@ =~= header@.subrange(0, 6));
    }
    r
}

/// The mathematical shape of a configuration node.
#[verifier::ext_equal]
pub enum NodeView {
    Number(Seq<char>, Seq<char>),
    Boolean(Seq<char>, Seq<char>),
    Text(Seq<char>, Seq<char>),
    Section(Seq<char>, Seq<NodeView>),
    Route(Seq<char>, Seq<NodeView>),
}

/// A node as mathematics.
pub open spec fn node_view(n: ConfigNode) -> NodeView
    decreases n,
{
    match n {
        ConfigNode::Number(k, v) => NodeView::Number(k@, v@),
        ConfigNode::Boolean(k, v) => NodeView::Boolean(k@, v@),
        ConfigNode::Text(k, v) => NodeView::Text(k@, v@),
        ConfigNode::Section(k, v) => NodeView::Section(k@, nodes_view(v@)),
        ConfigNode::Route(k, v) => NodeView::Route(k@, nodes_view(v@)),
    }
}

pub open spec fn nodes_view(s: Seq<ConfigNode>) -> Seq<NodeView>
    decreases s,
{
    if s.len() == 0 {
        Seq::empty()
    } else {
        seq![node_view(s[0])] + nodes_view(s.drop_first())
    }
}

/// One more node at the end is one more view at the end.
pub proof fn lemma_nodes_view_push(s: Seq<ConfigNode>, x: ConfigNode)
    ensures
        nodes_view(s.push(x)) == nodes_view(s).push(node_view(x)),
    decreases s,
{
    if s.len() == 0 {
        assert(s.push(x).drop_first() =~= Seq::<ConfigNode>::empty());
        assert(s.push(x)[0] == x);
        assert(nodes_view(Seq::<ConfigNode>::empty()) =~= Seq::<NodeView>::empty());
        assert(nodes_view(s.push(x)) =~= nodes_view(s).push(node_view(x)));
    } else {
        assert(s.push(x)[0] == s[0]);
        assert(s.push(x).drop_first() =~= s.drop_first().push(x));
        lemma_nodes_view_push(s.drop_first(), x);
        assert(nodes_view(s.push(x)) == seq![node_view(s[0])] + nodes_view(s.drop_first()).push(
            node_view(x),
        ));
        assert((seq![node_view(s[0])] + nodes_view(s.drop_first())).push(node_view(x)) =~= seq![
            node_view(s[0]),
        ] + nodes_view(s.drop_first()).push(node_view(x)));
    }
}

/// The lines as character sequences.
pub open spec fn lines_view(ls: Seq<String>) -> Seq<Seq<char>> {
    ls.map(|_i: int, l: String| l@)
}

/// Where `c` first stands in `s`, at or after `from`.
pub open spec fn find_char(s: Seq<char>, c: char, from: int) -> Option<int>
    decreases s.len() - from when 0 <= from
{
    if from >= s.len() {
        None
    } else if s[from] == c {
        Some(from)
    } else {
        find_char(s, c, from + 1)
    }
}

/// The node a key's value names, tried in order: a quoted string, an
/// integer, a boolean, a size.
pub open spec fn spec_entry_node(key: Seq<char>, value: Seq<char>) -> Option<NodeView> {
    if is_quoted(value) {
        Some(NodeView::Text(key, value.subrange(1, value.len() - 1)))
    } else if spec_parse_i64(value) is Some {
        Some(NodeView::Number(key, value))
    } else if is_bool_lit(value) {
        Some(NodeView::Boolean(key, value))
    } else if spec_parse_size(value) is Some {
        Some(NodeView::Number(key, crate::text::dec_int_digits(spec_parse_size(value)->Some_0)))
    } else {
        None
    }
}

/// A cleaned `key value` line read as a leaf: the key before the first
/// space, the value after it, trimmed and classified.
pub open spec fn spec_entry_of_line(line: Seq<char>) -> Result<NodeView, Seq<char>> {
    match find_char(line, ' ', 0) {
        None => Err("Syntax error"@),
        Some(sp) => {
            let key = line.take(sp);
            let value = spec_clean(line.skip(sp + 1));
            match spec_entry_node(key, value) {
                Some(n) => Ok(n),
                None => Err("Could not parse value"@),
            }
        },
    }
}

/// A section header that opens a route: the word `route`, a space, and
/// a pattern.
pub open spec fn is_route_header(h: Seq<char>) -> bool {
    h.len() >= 6 && h.subrange(0, 6) == "route "@ && h != "route {"@
}

pub open spec fn route_name_of(h: Seq<char>) -> Seq<char> {
    spec_clean(h.skip(6))
}

/// A section opened and closed on one line, read whole: its name before
/// the brace, at most one leaf between the braces.
pub open spec fn spec_inline_node(line: Seq<char>) -> Result<NodeView, Seq<char>> {
    match find_char(line, '{', 0) {
        None => Err("Syntax error"@),
        Some(op) => {
            let name = spec_clean(line.take(op));
            let body = spec_clean(line.subrange(op + 1, line.len() - 1));
            let inner: Result<Seq<NodeView>, Seq<char>> = if body.len() == 0 {
                Ok(Seq::empty())
            } else {
                match spec_entry_of_line(body) {
                    Ok(n) => Ok(seq![n]),
                    Err(m) => Err(m),
                }
            };
            match inner {
                Err(m) => Err(m),
                Ok(ins) => if is_route_header(name) {
                    Ok(NodeView::Route(route_name_of(name), ins))
                } else {
                    Ok(NodeView::Section(name, ins))
                },
            }
        },
    }
}

/// The grammar, one cleaned line at a time, over a stack of the open
/// sections: an empty line is skipped; `}` closes the innermost open
/// section, or ends the body being read when none is open; a line
/// ending in `{` opens a section or a route; a line ending in `}` is an
/// inline section; anything else is a leaf.  Errors carry their message
/// and line number; running out of lines leaves a section unclosed.
pub open spec fn spec_parse_lines(
    lines: Seq<Seq<char>>,
    i: int,
    stack: Seq<(Seq<char>, bool, Seq<NodeView>)>,
    acc: Seq<NodeView>,
) -> Result<(Seq<NodeView>, int), (Seq<char>, int)>
    decreases lines.len() - i when 0 <= i
{
    if i >= lines.len() {
        Err(("Unexpected end of file, expected `}`"@, lines.len() as int))
    } else {
        let line = spec_clean(lines[i]);
        if line.len() == 0 {
            spec_parse_lines(lines, i + 1, stack, acc)
        } else if line == "}"@ {
            if stack.len() == 0 {
                Ok((acc, i + 1))
            } else {
                let fr = stack.last();
                let node = if fr.1 {
                    NodeView::Route(fr.0, acc)
                } else {
                    NodeView::Section(fr.0, acc)
                };
                spec_parse_lines(lines, i + 1, stack.drop_last(), fr.2.push(node))
            }
        } else if line.last() == '{' {
            let header = spec_clean(line.drop_last());
            if is_route_header(header) {
                spec_parse_lines(
                    lines,
                    i + 1,
                    stack.push((route_name_of(header), true, acc)),
                    Seq::empty(),
                )
            } else {
                spec_parse_lines(lines, i + 1, stack.push((header, false, acc)), Seq::empty())
            }
        } else if line.last() == '}' {
            match spec_inline_node(line) {
                Ok(node) => spec_parse_lines(lines, i + 1, stack, acc.push(node)),
                Err(m) => Err((m, i + 1)),
            }
        } else {
            match spec_entry_of_line(line) {
                Ok(node) => spec_parse_lines(lines, i + 1, stack, acc.push(node)),
                Err(m) => Err((m, i + 1)),
            }
        }
    }
}

/// The first line that cleans to `server {`.
pub open spec fn find_server_line(lines: Seq<Seq<char>>, j: int) -> Option<int>
    decreases lines.len() - j when 0 <= j
{
    if j >= lines.len() {
        None
    } else if spec_clean(lines[j]) == "server {"@ {
        Some(j)
    } else {
        find_server_line(lines, j + 1)
    }
}

/// A whole configuration text: everything before the `server {` line is
/// ignored, and the section body after it is the tree.
pub open spec fn spec_parse_conf(conf: Seq<char>) -> Result<NodeView, (Seq<char>, int)> {
    let lines = split_nl(conf, 0);
    match find_server_line(lines, 0) {
        None => Err(("Could not find `server` section"@, 0)),
        Some(j) => match spec_parse_lines(lines, j + 1, Seq::empty(), Seq::empty()) {
            Ok((vals, _)) => Ok(NodeView::Section("server"@, vals)),
            Err(e) => Err(e),
        },
    }
}

/// The views of the open-section stack.
pub open spec fn stack_view(st: Seq<(String, bool, Vec<ConfigNode>)>) -> Seq<
    (Seq<char>, bool, Seq<NodeView>),
> {
    st.map(|_i: int, fr: (String, bool, Vec<ConfigNode>)| (fr.0@, fr.1, nodes_view(fr.2@)))
}

/// Reads one `key value` line, exactly as `spec_entry_of_line` says.
fn parse_entry_line(lchars: &Vec<char>, filename: &str, lineno: u64) -> (r: Result<
    ConfigNode,
    ConfigError,
>)
    ensures
        match r {
            Ok(node) => spec_entry_of_line(lchars@) == Ok::<NodeView, Seq<char>>(node_view(node)),
            Err(e) => (spec_entry_of_line(lchars@) matches Err(m) && e.message@ == m) && e.file@
                == filename@ && e.line == lineno,
        },
{
    let llen = lchars.len();
    let mut sp: usize = 0;
    while sp < llen && lchars[sp] != ' '
        invariant
            0 <= sp <= llen,
            llen == lchars@.len(),
            find_char(lchars@, ' ', 0) == find_char(lchars@, ' ', sp as int),
        decreases llen - sp,
    {
        sp += 1;
    }
    if sp == llen {
        return Err(ConfigError::new("Syntax error", filename, lineno));
    }
    proof {
        assert(find_char(lchars@, ' ', sp as int) == Some(sp as int));
    }
    let key_raw = crate::wildcard::chars_range(lchars.as_slice(), 0, sp);
    let key = crate::text::chars_to_string(key_raw.as_slice());
    let val_raw = crate::wildcard::chars_range(lchars.as_slice(), sp + 1, llen);
    let val_str = crate::text::chars_to_string(val_raw.as_slice());
    let val = clean_up(val_str.as_str());
    proof {
        assert(key_raw@ =~= lchars@.take(sp as int));
        assert(val_raw@ =~= lchars@.skip(sp + 1));
    }
    match parse_value(key, val.as_str()) {
        Ok(node) => Ok(node),
        Err(()) => Err(ConfigError::new("Could not parse value", filename, lineno)),
    }
}

/// Recursively parses a section's body, starting on the line after its
/// opening brace, exactly as `spec_parse_lines` says from an empty
/// stack: the values read and the index of the line after the closing
/// brace on success, the grammar's error with its message and line
/// otherwise.  A section opened and closed on one line — `cache { limit
/// 4K }` — is read whole.
#[verifier::loop_isolation(false)]
pub fn parse_section(lines: &Vec<String>, start: usize, filename: &str) -> (r: Result<
    (Vec<ConfigNode>, usize),
    ConfigError,
>)
    requires
        start <= lines@.len(),
    ensures
        match r {
            Ok(p) => spec_parse_lines(lines_view(lines@), start as int, Seq::empty(), Seq::empty())
                == Ok::<(Seq<NodeView>, int), (Seq<char>, int)>((nodes_view(p.0@), p.1 as int))
                && start < p.1 <= lines@.len(),
            Err(e) => (spec_parse_lines(
                lines_view(lines@),
                start as int,
                Seq::empty(),
                Seq::empty(),
            ) matches Err(m) && e.message@ == m.0 && e.line == m.1) && e.file@ == filename@,
        },
{
    let ghost gl = lines_view(lines@);
    let mut stack: Vec<(String, bool, Vec<ConfigNode>)> = Vec::new();
    let mut acc: Vec<ConfigNode> = Vec::new();
    let mut j: usize = start;
    proof {
        assert(stack_view(stack@) =~= Seq::<(Seq<char>, bool, Seq<NodeView>)>::empty());
        assert(nodes_view(acc@) =~= Seq::<NodeView>::empty());
    }
    while j < lines.len()
        invariant
            start <= j <= lines@.len(),
            spec_parse_lines(gl, start as int, Seq::empty(), Seq::empty()) == spec_parse_lines(
                gl,
                j as int,
                stack_view(stack@),
                nodes_view(acc@),
            ),
        decreases lines@.len() - j,
    {
        let line = clean_up(lines[j].as_str());
        proof {
            assert(gl[j as int] == lines@[j as int]@);
            reveal_strlit("}");
            assert("}"@.len() == 1 && "}"@[0] == '}');
        }
        let lineno = (j as u64) + 1;
        let lchars = str_chars(line.as_str());
        let llen = lchars.len();
        if llen == 0 {
            j += 1;
        } else if str_eq(&line, "}") {
            if stack.len() == 0 {
                return Ok((acc, j + 1));
            }
            let ghost sv0 = stack_view(stack@);
            let ghost av0 = nodes_view(acc@);
            let frame = match stack.pop() {
                Some(frame) => frame,
                None => {
                    return Err(ConfigError::new("Syntax error", filename, lineno));
                },
            };
            proof {
                assert(sv0.last() == (frame.0@, frame.1, nodes_view(frame.2@)));
                assert(stack_view(stack@) =~= sv0.drop_last());
            }
            let (name, is_route, mut parent) = frame;
            let node = if is_route {
                ConfigNode::Route(name, acc)
            } else {
                ConfigNode::Section(name, acc)
            };
            proof {
                lemma_nodes_view_push(parent@, node);
                assert(node_view(node) == (if is_route {
                    NodeView::Route(sv0.last().0, av0)
                } else {
                    NodeView::Section(sv0.last().0, av0)
                }));
            }
            parent.push(node);
            acc = parent;
            j += 1;
        } else if lchars[llen - 1] == '{' {
            // A nested section; its name is everything before the brace.
            let head_raw = crate::wildcard::chars_range(lchars.as_slice(), 0, llen - 1);
            let head_str = crate::text::chars_to_string(head_raw.as_slice());
            let header = clean_up(head_str.as_str());
            proof {
                assert(head_raw@ =~= line@.drop_last());
            }
            let ghost hv = header@;
            let is_route = starts_with_route(&header) && !str_eq(&header, "route {");
            proof {
                assert(is_route == is_route_header(hv));
            }
            let name = if is_route {
                let hchars = str_chars(header.as_str());
                let tail = crate::wildcard::chars_range(hchars.as_slice(), 6, hchars.len());
                let tail_str = crate::text::chars_to_string(tail.as_slice());
                proof {
                    assert(tail@ =~= header@.skip(6));
                }
                clean_up(tail_str.as_str())
            } else {
                header
            };
            let ghost namev = name@;
            let ghost sv0 = stack_view(stack@);
            let ghost av0 = nodes_view(acc@);
            stack.push((name, is_route, acc));
            acc = Vec::new();
            proof {
                assert(stack_view(stack@) =~= sv0.push((namev, is_route, av0)));
                assert(nodes_view(acc@) =~= Seq::<NodeView>::empty());
            }
            j += 1;
        } else if lchars[llen - 1] == '}' {
            // A section opened and closed on this very line.
            let mut op: usize = 0;
            while op < llen && lchars[op] != '{'
                invariant
                    0 <= op <= llen,
                    llen == lchars@.len(),
                    find_char(line@, '{', 0) == find_char(line@, '{', op as int),
                decreases llen - op,
            {
                op += 1;
            }
            if op == llen {
                return Err(ConfigError::new("Syntax error", filename, lineno));
            }
            proof {
                assert(find_char(line@, '{', op as int) == Some(op as int));
            }
            let name_raw = crate::wildcard::chars_range(lchars.as_slice(), 0, op);
            let name_str = crate::text::chars_to_string(name_raw.as_slice());
            let name = clean_up(name_str.as_str());
            let body_raw = crate::wildcard::chars_range(lchars.as_slice(), op + 1, llen - 1);
            let body_str = crate::text::chars_to_string(body_raw.as_slice());
            let body = clean_up(body_str.as_str());
            proof {
                assert(name_raw@ =~= line@.take(op as int));
                assert(body_raw@ =~= line@.subrange(op + 1, line@.len() - 1));
            }
            let mut inner: Vec<ConfigNode> = Vec::new();
            let bchars = str_chars(body.as_str());
            proof {
                assert(nodes_view(inner@) =~= Seq::<NodeView>::empty());
            }
            if bchars.len() > 0 {
                match parse_entry_line(&bchars, filename, lineno) {
                    Ok(node) => {
                        proof {
                            lemma_nodes_view_push(inner@, node);
                        }
                        inner.push(node);
                        proof {
                            assert(nodes_view(inner@) =~= seq![node_view(inner@[0])]);
                        }
                    },
                    Err(e) => {
                        return Err(e);
                    },
                }
            }
            let ghost pre_acc = nodes_view(acc@);
            let made = if starts_with_route(&name) && !str_eq(&name, "route {") {
                let nchars = str_chars(name.as_str());
                let tail = crate::wildcard::chars_range(nchars.as_slice(), 6, nchars.len());
                let tail_str = crate::text::chars_to_string(tail.as_slice());
                proof {
                    assert(tail@ =~= name@.skip(6));
                }
                let route_name = clean_up(tail_str.as_str());
                ConfigNode::Route(route_name, inner)
            } else {
                ConfigNode::Section(name, inner)
            };
            proof {
                lemma_nodes_view_push(acc@, made);
                assert(spec_inline_node(line@) == Ok::<NodeView, Seq<char>>(node_view(made)));
            }
            acc.push(made);
            j += 1;
        } else {
            // A key and a value, split on the first space.
            match parse_entry_line(&lchars, filename, lineno) {
                Ok(node) => {
                    proof {
                        lemma_nodes_view_push(acc@, node);
                    }
                    acc.push(node);
                    j += 1;
                },
                Err(e) => {
                    return Err(e);
                },
            }
        }
    }
    Err(ConfigError::new("Unexpected end of file, expected `}`", filename, lines.len() as u64))
}

/// Parses an entire configuration text, exactly as `spec_parse_conf`
/// says: content before the `server {` line is ignored; without that
/// line, or with an unclosed section or a bad value, parsing fails with
/// that error.  A successful parse is always a section named `server`.
#[verifier::loop_isolation(false)]
pub fn parse_conf(conf: &str, filename: &str) -> (r: Result<ConfigNode, ConfigError>)
    ensures
        match r {
            Ok(node) => spec_parse_conf(conf@) == Ok::<NodeView, (Seq<char>, int)>(
                node_view(node),
            ) && (node matches ConfigNode::Section(name, _) && name@ == "server"@),
            Err(e) => (spec_parse_conf(conf@) matches Err(m) && e.message@ == m.0 && e.line == m.1)
                && e.file@ == filename@,
        },
{
    let lines = split_lines(conf);
    let ghost gl = split_nl(conf@, 0);
    proof {
        assert(lines_view(lines@) =~= gl);
    }
    let mut j: usize = 0;
    while j < lines.len()
        invariant
            0 <= j <= lines@.len(),
            find_server_line(gl, 0) == find_server_line(gl, j as int),
        decreases lines@.len() - j,
    {
        let cleaned = clean_up(lines[j].as_str());
        proof {
            assert(gl[j as int] == lines@[j as int]@);
        }
        if str_eq(&cleaned, "server {") {
            proof {
                assert(find_server_line(gl, j as int) == Some(j as int));
            }
            return match parse_section(&lines, j + 1, filename) {
                Ok((vals, _)) => {
                    let node = ConfigNode::Section(String::from_str("server"), vals);
                    proof {
                        assert(node_view(node) == NodeView::Section("server"@, nodes_view(vals@)));
                    }
                    Ok(node)
                },
                Err(e) => Err(e),
            };
        }
        j += 1;
    }
    Err(ConfigError::new("Could not find `server` section", filename, 0))
}

/// The views of a level stack.
pub open spec fn level_view(ls: Seq<String>) -> Seq<Seq<char>> {
    ls.map(|_i: int, s: String| s@)
}

/// A dotted-key map as named nodes.
pub open spec fn cfg_view(m: Seq<(String, ConfigNode)>) -> Seq<(Seq<char>, ConfigNode)> {
    m.map(|_i: int, p: (String, ConfigNode)| (p.0@, p.1))
}

/// The dotted path of a key under its nesting levels.
pub open spec fn dotted(level: Seq<Seq<char>>, key: Seq<char>) -> Seq<char>
    decreases level.len(),
{
    if level.len() == 0 {
        key
    } else {
        level[0] + seq!['.'] + dotted(level.drop_first(), key)
    }
}

/// The map after writing `node` under `key`: the first entry with that
/// key is replaced in place, or a new entry is appended.
pub open spec fn cfg_upsert(
    m: Seq<(Seq<char>, ConfigNode)>,
    key: Seq<char>,
    node: ConfigNode,
) -> Seq<(Seq<char>, ConfigNode)>
    decreases m.len(),
{
    if m.len() == 0 {
        seq![(key, node)]
    } else if m[0].0 == key {
        seq![(key, node)] + m.drop_first()
    } else {
        seq![m[0]] + cfg_upsert(m.drop_first(), key, node)
    }
}

/// The node stored under `key`.
pub open spec fn cfg_lookup(m: Seq<(Seq<char>, ConfigNode)>, key: Seq<char>) -> Option<ConfigNode>
    decreases m.len(),
{
    if m.len() == 0 {
        None
    } else if m[0].0 == key {
        Some(m[0].1)
    } else {
        cfg_lookup(m.drop_first(), key)
    }
}

proof fn lemma_cfg_upsert_found(
    m: Seq<(Seq<char>, ConfigNode)>,
    key: Seq<char>,
    node: ConfigNode,
    i: int,
)
    requires
        0 <= i < m.len(),
        m[i].0 == key,
        forall|k: int| 0 <= k < i ==> (#[trigger] m[k]).0 != key,
    ensures
        cfg_upsert(m, key, node) =~= m.update(i, (key, node)),
    decreases i,
{
    if i == 0 {
        assert(cfg_upsert(m, key, node) =~= m.update(0, (key, node)));
    } else {
        assert(m[0].0 != key);
        assert forall|k: int| 0 <= k < i - 1 implies (#[trigger] m.drop_first()[k]).0 != key by {
            assert(m.drop_first()[k] == m[k + 1]);
        }
        assert(m.drop_first()[i - 1] == m[i]);
        lemma_cfg_upsert_found(m.drop_first(), key, node, i - 1);
        assert(cfg_upsert(m, key, node) =~= m.update(i, (key, node)));
    }
}

proof fn lemma_cfg_upsert_absent(m: Seq<(Seq<char>, ConfigNode)>, key: Seq<char>, node: ConfigNode)
    requires
        forall|k: int| 0 <= k < m.len() ==> (#[trigger] m[k]).0 != key,
    ensures
        cfg_upsert(m, key, node) =~= m.push((key, node)),
    decreases m.len(),
{
    if m.len() > 0 {
        assert forall|k: int| 0 <= k < m.drop_first().len() implies (
        #[trigger] m.drop_first()[k]).0 != key by {
            assert(m.drop_first()[k] == m[k + 1]);
        }
        lemma_cfg_upsert_absent(m.drop_first(), key, node);
        assert(cfg_upsert(m, key, node) =~= m.push((key, node)));
    }
}

/// Writes `node` under `key` into the map: replaces the first entry
/// with the same key in place, or appends.
pub fn set_cfg_entry(map: &mut Vec<(String, ConfigNode)>, key: String, node: ConfigNode)
    ensures
        cfg_view(final(map)@) == cfg_upsert(cfg_view(old(map)@), key@, node),
{
    let mut i: usize = 0;
    while i < map.len()
        invariant
            map@ == old(map)@,
            0 <= i <= map@.len(),
            forall|k: int| 0 <= k < i ==> (#[trigger] map@[k]).0@ != key@,
        decreases map@.len() - i,
    {
        let same = str_eq(&map[i].0, key.as_str());
        if same {
            let ghost pre = map@;
            map[i] = (key, node);
            proof {
                let mv = cfg_view(pre);
                assert forall|k: int| 0 <= k < i implies (#[trigger] mv[k]).0 != key@ by {
                    assert(mv[k].0 == pre[k].0@);
                }
                assert(mv[i as int].0 == key@);
                lemma_cfg_upsert_found(mv, key@, node, i as int);
                assert(cfg_view(map@) =~= mv.update(i as int, (key@, node)));
            }
            return ;
        }
        i += 1;
    }
    map.push((key, node));
    proof {
        let mv = cfg_view(old(map)@);
        assert forall|k: int| 0 <= k < mv.len() implies (#[trigger] mv[k]).0 != key@ by {
            assert(mv[k].0 == old(map)@[k].0@);
        }
        lemma_cfg_upsert_absent(mv, key@, node);
        assert(cfg_view(map@) =~= mv.push((key@, node)));
    }
}

/// Builds the dotted path of `key` under `level`.
pub fn dotted_key(level: &Vec<String>, key: &String) -> (r: String)
    ensures
        r@ == dotted(level_view(level@), key@),
{
    let ghost lv = level_view(level@);
    let mut out = String::new();
    let mut i: usize = 0;
    proof {
        assert(lv.skip(0) =~= lv);
    }
    while i < level.len()
        invariant
            0 <= i <= level@.len(),
            lv == level_view(level@),
            dotted(lv, key@) == out@ + dotted(lv.skip(i as int), key@),
        decreases level@.len() - i,
    {
        proof {
            assert(lv.skip(i as int)[0] == lv[i as int]);
            assert(lv[i as int] == level@[i as int]@);
            assert(lv.skip(i as int).drop_first() =~= lv.skip(i + 1));
        }
        out.append(level[i].as_str());
        out.push('.');
        i += 1;
    }
    proof {
        assert(lv.skip(level@.len() as int) =~= Seq::<Seq<char>>::empty());
    }
    out.append(key.as_str());
    out
}

/// One node flattened into a dotted-key map under `level`: leaves are
/// written under their dotted path; sections recurse, except the one
/// named `plugins`; route sections are left out.
pub open spec fn spec_flatten(
    n: ConfigNode,
    level: Seq<Seq<char>>,
    acc: Seq<(Seq<char>, ConfigNode)>,
) -> Seq<(Seq<char>, ConfigNode)>
    decreases n, 0int,
{
    match n {
        ConfigNode::Section(k, v) => if k@ != "plugins"@ {
            spec_flatten_vec(v, 0, level.push(k@), acc)
        } else {
            acc
        },
        ConfigNode::Route(_, _) => acc,
        ConfigNode::Number(k, _) => cfg_upsert(acc, dotted(level, k@), n),
        ConfigNode::Boolean(k, _) => cfg_upsert(acc, dotted(level, k@), n),
        ConfigNode::Text(k, _) => cfg_upsert(acc, dotted(level, k@), n),
    }
}

/// The nodes `v[i..]` flattened in order on top of `acc`.
pub open spec fn spec_flatten_vec(
    v: Vec<ConfigNode>,
    i: int,
    level: Seq<Seq<char>>,
    acc: Seq<(Seq<char>, ConfigNode)>,
) -> Seq<(Seq<char>, ConfigNode)>
    decreases v, v@.len() - i when 0 <= i
{
    if i >= v@.len() {
        acc
    } else {
        spec_flatten_vec(v, i + 1, level, spec_flatten(v@[i], level, acc))
    }
}

/// Copies a level stack, one more name on top.
fn push_level(level: &Vec<String>, name: &String) -> (r: Vec<String>)
    ensures
        level_view(r@) =~= level_view(level@).push(name@),
{
    let mut out: Vec<String> = Vec::new();
    let mut i: usize = 0;
    while i < level.len()
        invariant
            0 <= i <= level@.len(),
            out@.len() == i,
            forall|k: int| 0 <= k < i ==> (#[trigger] out@[k])@ == level@[k]@,
        decreases level@.len() - i,
    {
        out.push(level[i].clone());
        i += 1;
    }
    out.push(name.clone());
    proof {
        assert forall|k: int|
            0 <= k < level_view(out@).len() implies #[trigger] level_view(out@)[k] == level_view(
            level@,
        ).push(name@)[k] by {
            assert(level_view(out@)[k] == out@[k]@);
            if k < level@.len() {
                assert(level_view(level@).push(name@)[k] == level@[k]@);
            }
        }
    }
    out
}

impl ConfigNode {
    /// Flattens this node into the dotted-key map under the given
    /// nesting levels, exactly as `spec_flatten` says.
    #[verifier::loop_isolation(false)]
    pub fn flatten(&self, map: &mut Vec<(String, ConfigNode)>, level: &Vec<String>)
        ensures
            cfg_view(final(map)@) == spec_flatten(*self, level_view(level@), cfg_view(old(map)@)),
        decreases *self,
    {
        match self {
            ConfigNode::Section(k, v) => {
                if !str_eq(k, "plugins") {
                    let new_level = push_level(level, k);
                    let ghost nl = level_view(level@).push(k@);
                    let ghost acc0 = cfg_view(map@);
                    let mut i: usize = 0;
                    while i < v.len()
                        invariant
                            level_view(new_level@) == nl,
                            0 <= i <= v@.len(),
                            spec_flatten_vec(*v, 0, nl, acc0) == spec_flatten_vec(
                                *v,
                                i as int,
                                nl,
                                cfg_view(map@),
                            ),
                        decreases v@.len() - i,
                    {
                        proof {
                            let n0 = *self;
                            match n0 {
                                ConfigNode::Section(gk, gv) => {
                                    assert(decreases_to!(n0 => gv));
                                    assert(decreases_to!(gv => gv@[i as int]));
                                },
                                _ => {},
                            }
                        }
                        v[i].flatten(map, &new_level);
                        i += 1;
                    }
                }
            },
            ConfigNode::Route(_, _) => {},
            ConfigNode::Number(k, val) => {
                let key = dotted_key(level, k);
                set_cfg_entry(map, key, ConfigNode::Number(k.clone(), val.clone()));
            },
            ConfigNode::Boolean(k, val) => {
                let key = dotted_key(level, k);
                set_cfg_entry(map, key, ConfigNode::Boolean(k.clone(), val.clone()));
            },
            ConfigNode::Text(k, val) => {
                let key = dotted_key(level, k);
                set_cfg_entry(map, key, ConfigNode::Text(k.clone(), val.clone()));
            },
        }
    }

    /// The string a leaf holds; a section or route holds none.
    pub fn get_string(&self) -> (r: Option<String>)
        ensures
            match r {
                Some(s) => match *self {
                    ConfigNode::Number(_, v) => v@ == s@,
                    ConfigNode::Boolean(_, v) => v@ == s@,
                    ConfigNode::Text(_, v) => v@ == s@,
                    _ => false,
                },
                None => self is Section || self is Route,
            },
    {
        match self {
            ConfigNode::Number(_, v) => Some(v.clone()),
            ConfigNode::Boolean(_, v) => Some(v.clone()),
            ConfigNode::Text(_, v) => Some(v.clone()),
            ConfigNode::Section(_, _) => None,
            ConfigNode::Route(_, _) => None,
        }
    }
}

/// The routes under a section: each route child, with its children
/// flattened into a fresh map.
pub open spec fn spec_routes_vec(v: Vec<ConfigNode>, i: int) -> Seq<
    (Seq<char>, Seq<(Seq<char>, ConfigNode)>),
>
    decreases v@.len() - i when 0 <= i
{
    if i >= v@.len() {
        Seq::empty()
    } else {
        match v@[i] {
            ConfigNode::Route(w, inner) => seq![
                (w@, spec_flatten_vec(inner, 0, Seq::empty(), Seq::empty())),
            ] + spec_routes_vec(v, i + 1),
            _ => spec_routes_vec(v, i + 1),
        }
    }
}

pub open spec fn spec_routes(n: ConfigNode) -> Seq<(Seq<char>, Seq<(Seq<char>, ConfigNode)>)> {
    match n {
        ConfigNode::Section(_, v) => spec_routes_vec(v, 0),
        _ => Seq::empty(),
    }
}

/// The plugin sections under the `plugins` section: each with its
/// children flattened into a fresh map.
pub open spec fn spec_plugin_entries(v: Vec<ConfigNode>, i: int) -> Seq<
    (Seq<char>, Seq<(Seq<char>, ConfigNode)>),
>
    decreases v@.len() - i when 0 <= i
{
    if i >= v@.len() {
        Seq::empty()
    } else {
        match v@[i] {
            ConfigNode::Section(nm, inner) => seq![
                (nm@, spec_flatten_vec(inner, 0, Seq::empty(), Seq::empty())),
            ] + spec_plugin_entries(v, i + 1),
            _ => spec_plugin_entries(v, i + 1),
        }
    }
}

pub open spec fn spec_plugins_vec(v: Vec<ConfigNode>, i: int) -> Seq<
    (Seq<char>, Seq<(Seq<char>, ConfigNode)>),
>
    decreases v@.len() - i when 0 <= i
{
    if i >= v@.len() {
        Seq::empty()
    } else {
        match v@[i] {
            ConfigNode::Section(nm, inner) => if nm@ == "plugins"@ {
                spec_plugin_entries(inner, 0) + spec_plugins_vec(v, i + 1)
            } else {
                spec_plugins_vec(v, i + 1)
            },
            _ => spec_plugins_vec(v, i + 1),
        }
    }
}

pub open spec fn spec_plugins(n: ConfigNode) -> Seq<(Seq<char>, Seq<(Seq<char>, ConfigNode)>)> {
    match n {
        ConfigNode::Section(_, v) => spec_plugins_vec(v, 0),
        _ => Seq::empty(),
    }
}

/// The view of a route or plugin listing.
pub open spec fn listing_view(r: Seq<(String, Vec<(String, ConfigNode)>)>) -> Seq<
    (Seq<char>, Seq<(Seq<char>, ConfigNode)>),
> {
    r.map(|_i: int, p: (String, Vec<(String, ConfigNode)>)| (p.0@, cfg_view(p.1@)))
}

/// Flattens each node of `v` into a fresh map with no level prefix.
pub fn flatten_all(v: &Vec<ConfigNode>) -> (r: Vec<(String, ConfigNode)>)
    ensures
        cfg_view(r@) == spec_flatten_vec(*v, 0, Seq::empty(), Seq::empty()),
{
    let mut m: Vec<(String, ConfigNode)> = Vec::new();
    let empty_level: Vec<String> = Vec::new();
    let mut j: usize = 0;
    proof {
        assert(cfg_view(m@) =~= Seq::<(Seq<char>, ConfigNode)>::empty());
        assert(level_view(empty_level@) =~= Seq::<Seq<char>>::empty());
    }
    while j < v.len()
        invariant
            level_view(empty_level@) == Seq::<Seq<char>>::empty(),
            0 <= j <= v@.len(),
            spec_flatten_vec(*v, 0, Seq::empty(), Seq::empty()) == spec_flatten_vec(
                *v,
                j as int,
                Seq::empty(),
                cfg_view(m@),
            ),
        decreases v@.len() - j,
    {
        v[j].flatten(&mut m, &empty_level);
        j += 1;
    }
    m
}

impl ConfigNode {
    /// The route sections under this node, each with its flattened
    /// settings, in order.
    pub fn get_routes(&self) -> (r: Vec<(String, Vec<(String, ConfigNode)>)>)
        ensures
            listing_view(r@) == spec_routes(*self),
    {
        let mut routes: Vec<(String, Vec<(String, ConfigNode)>)> = Vec::new();
        match self {
            ConfigNode::Section(_, children) => {
                let mut i: usize = 0;
                proof {
                    assert(listing_view(routes@) =~= Seq::<
                        (Seq<char>, Seq<(Seq<char>, ConfigNode)>),
                    >::empty());
                }
                while i < children.len()
                    invariant
                        0 <= i <= children@.len(),
                        spec_routes_vec(*children, 0) =~= listing_view(routes@)
                            + spec_routes_vec(*children, i as int),
                    decreases children@.len() - i,
                {
                    let ghost pre = listing_view(routes@);
                    match &children[i] {
                        ConfigNode::Route(w, inner) => {
                            let m = flatten_all(inner);
                            routes.push((w.clone(), m));
                            proof {
                                assert(listing_view(routes@) =~= pre.push(
                                    (w@, spec_flatten_vec(*inner, 0, Seq::empty(), Seq::empty())),
                                ));
                            }
                        },
                        _ => {},
                    }
                    i += 1;
                }
                proof {
                    assert(spec_routes_vec(*children, children@.len() as int) =~= Seq::<
                        (Seq<char>, Seq<(Seq<char>, ConfigNode)>),
                    >::empty());
                    assert(listing_view(routes@) + Seq::<
                        (Seq<char>, Seq<(Seq<char>, ConfigNode)>),
                    >::empty() =~= listing_view(routes@));
                }
            },
            _ => {
                proof {
                    assert(listing_view(routes@) =~= Seq::<
                        (Seq<char>, Seq<(Seq<char>, ConfigNode)>),
                    >::empty());
                }
            },
        }
        routes
    }

    /// The plugin sections under this node's `plugins` section, each
    /// with its flattened settings, in order.
    pub fn get_plugins(&self) -> (r: Vec<(String, Vec<(String, ConfigNode)>)>)
        ensures
            listing_view(r@) == spec_plugins(*self),
    {
        let mut plugins: Vec<(String, Vec<(String, ConfigNode)>)> = Vec::new();
        match self {
            ConfigNode::Section(_, children) => {
                let mut i: usize = 0;
                proof {
                    assert(listing_view(plugins@) =~= Seq::<
                        (Seq<char>, Seq<(Seq<char>, ConfigNode)>),
                    >::empty());
                }
                while i < children.len()
                    invariant
                        0 <= i <= children@.len(),
                        spec_plugins_vec(*children, 0) =~= listing_view(plugins@)
                            + spec_plugins_vec(*children, i as int),
                    decreases children@.len() - i,
                {
                    match &children[i] {
                        ConfigNode::Section(name, inner) => {
                            if str_eq(name, "plugins") {
                                let mut j: usize = 0;
                                while j < inner.len()
                                    invariant
                                        0 <= i < children@.len(),
                                        0 <= j <= inner@.len(),
                                        children@[i as int] matches ConfigNode::Section(nm, v2)
                                            && nm@ == "plugins"@ && v2 == *inner,
                                        spec_plugins_vec(*children, 0) =~= listing_view(plugins@)
                                            + spec_plugin_entries(*inner, j as int)
                                            + spec_plugins_vec(*children, i + 1),
                                    decreases inner@.len() - j,
                                {
                                    let ghost pre = listing_view(plugins@);
                                    match &inner[j] {
                                        ConfigNode::Section(nm2, inner2) => {
                                            let m = flatten_all(inner2);
                                            plugins.push((nm2.clone(), m));
                                            proof {
                                                assert(listing_view(plugins@) =~= pre.push(
                                                    (
                                                        nm2@,
                                                        spec_flatten_vec(
                                                            *inner2,
                                                            0,
                                                            Seq::empty(),
                                                            Seq::empty(),
                                                        ),
                                                    ),
                                                ));
                                            }
                                        },
                                        _ => {},
                                    }
                                    j += 1;
                                }
                                proof {
                                    assert(spec_plugin_entries(*inner, inner@.len() as int) =~= Seq::<
                                        (Seq<char>, Seq<(Seq<char>, ConfigNode)>),
                                    >::empty());
                                }
                            }
                        },
                        _ => {},
                    }
                    i += 1;
                }
                proof {
                    assert(spec_plugins_vec(*children, children@.len() as int) =~= Seq::<
                        (Seq<char>, Seq<(Seq<char>, ConfigNode)>),
                    >::empty());
                    assert(listing_view(plugins@) + Seq::<
                        (Seq<char>, Seq<(Seq<char>, ConfigNode)>),
                    >::empty() =~= listing_view(plugins@));
                }
            },
            _ => {
                proof {
                    assert(listing_view(plugins@) =~= Seq::<
                        (Seq<char>, Seq<(Seq<char>, ConfigNode)>),
                    >::empty());
                }
            },
        }
        plugins
    }
}

} // verus!
