//! The edge-list text format: one directed edge per line, as two vertex
//! identifiers separated by white space. A line whose first character is
//! `#` is a comment. Any other line must hold at least two tokens, of which
//! the first two are read as the source and the destination of the edge.

use crate::graph::{adjacency_of, has_edge};
use std::collections::HashMap;
use vstd::prelude::*;
use vstd::slice::slice_subrange;

verus! {

/// White space, as Unicode defines it.
pub open spec fn is_space(c: char) -> bool {
    ||| '\u{9}' <= c <= '\u{d}'
    ||| c == ' '
    ||| c == '\u{85}'
    ||| c == '\u{a0}'
    ||| c == '\u{1680}'
    ||| '\u{2000}' <= c <= '\u{200a}'
    ||| c == '\u{2028}'
    ||| c == '\u{2029}'
    ||| c == '\u{202f}'
    ||| c == '\u{205f}'
    ||| c == '\u{3000}'
}

/// A decimal digit.
pub open spec fn is_digit(c: char) -> bool {
    '0' <= c <= '9'
}

/// The value of a decimal digit.
pub open spec fn digit_value(c: char) -> nat {
    if is_digit(c) {
        (c as nat - '0' as nat) as nat
    } else {
        0
    }
}

/// What a scan looks for: the end of a line, white space, or anything but
/// white space.
#[derive(Clone, Copy, Debug, PartialEq, Eq)]
pub enum CharClass {
    LineFeed,
    Space,
    Word,
}

impl CharClass {
    /// `c` belongs to the class.
    pub open spec fn holds(self, c: char) -> bool {
        match self {
            CharClass::LineFeed => c == '\n',
            CharClass::Space => is_space(c),
            CharClass::Word => !is_space(c),
        }
    }

    /// Tells whether `c` belongs to the class.
    pub fn test(self, c: char) -> (r: bool)
        ensures
            r == self.holds(c),
    {
        let space = (c >= '\u{9}' && c <= '\u{d}') || c == ' ' || c == '\u{85}' || c == '\u{a0}'
            || c == '\u{1680}' || (c >= '\u{2000}' && c <= '\u{200a}') || c == '\u{2028}' || c
            == '\u{2029}' || c == '\u{202f}' || c == '\u{205f}' || c == '\u{3000}';
        match self {
            CharClass::LineFeed => c == '\n',
            CharClass::Space => space,
            CharClass::Word => !space,
        }
    }
}

/// The first position at or after `from` that holds a character of the
/// class, or the length of `s` where there is none.
pub open spec fn next_of(s: Seq<char>, from: int, class: CharClass) -> int
    decreases s.len() - from,
{
    if from >= s.len() {
        s.len() as int
    } else if class.holds(s[from]) {
        from
    } else {
        next_of(s, from + 1, class)
    }
}

/// `next_of` finds the first character of the class: it lies at or after
/// `from`, and no character before it, from `from` on, is of the class.
pub proof fn lemma_next_of(s: Seq<char>, from: int, class: CharClass)
    requires
        from <= s.len(),
    ensures
        from <= next_of(s, from, class) <= s.len(),
        next_of(s, from, class) < s.len() ==> class.holds(s[next_of(s, from, class)]),
        forall|i: int| from <= i < next_of(s, from, class) ==> !class.holds(#[trigger] s[i]),
    decreases s.len() - from,
{
    if from < s.len() && !class.holds(s[from]) {
        lemma_next_of(s, from + 1, class);
    }
}

/// The lines of the text from position `from` on. A line ends before a line
/// feed or at the end of the text; no line follows a final line feed.
pub open spec fn lines_from(text: Seq<char>, from: int) -> Seq<Seq<char>>
    decreases text.len() - from,
{
    if from >= text.len() {
        Seq::empty()
    } else {
        let end = next_of(text, from, CharClass::LineFeed);
        let line = text.subrange(from, end);
        if end < text.len() {
            proof {
                lemma_next_of(text, from, CharClass::LineFeed);
            }
            seq![line] + lines_from(text, end + 1)
        } else {
            seq![line]
        }
    }
}

/// The lines of the text.
pub open spec fn lines(text: Seq<char>) -> Seq<Seq<char>> {
    lines_from(text, 0)
}

/// The number that a sequence of decimal digits writes.
pub open spec fn decimal_value(digits: Seq<char>) -> nat
    decreases digits.len(),
{
    if digits.len() == 0 {
        0
    } else {
        decimal_value(digits.drop_last()) * 10 + digit_value(digits.last())
    }
}

/// A token without its leading plus sign, where it has one.
pub open spec fn unsigned_part(token: Seq<char>) -> Seq<char> {
    if token.len() > 0 && token[0] == '+' {
        token.subrange(1, token.len() as int)
    } else {
        token
    }
}

/// The vertex identifier that a token writes: one or more decimal digits,
/// after an optional plus sign, whose value fits in 32 bits.
pub open spec fn vertex_of(token: Seq<char>) -> Option<u32> {
    let digits = unsigned_part(token);
    if digits.len() > 0 && (forall|i: int| 0 <= i < digits.len() ==> is_digit(#[trigger] digits[i]))
        && decimal_value(digits) <= u32::MAX {
        Some(decimal_value(digits) as u32)
    } else {
        None
    }
}

/// Why a line is not an edge.
#[derive(Clone, Copy, Debug, PartialEq, Eq)]
pub enum ParseErrorKind {
    /// The line holds fewer than two tokens.
    MissingVertex,
    /// A token is not a vertex identifier.
    InvalidVertex,
}

/// The first line of a text that is not an edge, counted from zero, and why.
#[derive(Clone, Copy, Debug, PartialEq, Eq)]
pub struct ParseError {
    pub line: usize,
    pub kind: ParseErrorKind,
}

/// What a line means: nothing for a comment, else the edge that its first
/// two tokens write. The first token is read before the second is looked
/// for.
pub open spec fn parsed_line(line: Seq<char>) -> Result<Option<(u32, u32)>, ParseErrorKind> {
    if line.len() > 0 && line[0] == '#' {
        Ok(None)
    } else {
        let a = next_of(line, 0, CharClass::Word);
        let b = next_of(line, a, CharClass::Space);
        let c = next_of(line, b, CharClass::Word);
        let d = next_of(line, c, CharClass::Space);
        if a >= line.len() {
            Err(ParseErrorKind::MissingVertex)
        } else {
            match vertex_of(line.subrange(a, b)) {
                None => Err(ParseErrorKind::InvalidVertex),
                Some(u) => if c >= line.len() {
                    Err(ParseErrorKind::MissingVertex)
                } else {
                    match vertex_of(line.subrange(c, d)) {
                        None => Err(ParseErrorKind::InvalidVertex),
                        Some(v) => Ok(Some((u, v))),
                    }
                },
            }
        }
    }
}

/// The edges that the lines write, in order, or the first line that is not
/// an edge.
pub open spec fn parsed_lines(ls: Seq<Seq<char>>) -> Result<Seq<(u32, u32)>, ParseError>
    decreases ls.len(),
{
    if ls.len() == 0 {
        Ok(Seq::empty())
    } else {
        match parsed_lines(ls.drop_last()) {
            Err(e) => Err(e),
            Ok(edges) => match parsed_line(ls.last()) {
                Err(kind) => Err(ParseError { line: (ls.len() - 1) as usize, kind }),
                Ok(None) => Ok(edges),
                Ok(Some(e)) => Ok(edges.push(e)),
            },
        }
    }
}

/// The graph `g` with the edge `u -> v` added after the edges that `u` has.
pub open spec fn with_edge(g: Map<u32, Seq<u32>>, u: u32, v: u32) -> Map<u32, Seq<u32>> {
    g.insert(
        u,
        if g.contains_key(u) {
            g[u].push(v)
        } else {
            seq![v]
        },
    )
}

/// The graph of a list of edges: the keys are the sources, and each key has
/// its destinations in the order of the list.
pub open spec fn graph_of(edges: Seq<(u32, u32)>) -> Map<u32, Seq<u32>>
    decreases edges.len(),
{
    if edges.len() == 0 {
        Map::empty()
    } else {
        with_edge(graph_of(edges.drop_last()), edges.last().0, edges.last().1)
    }
}

/// The graph that the text writes, or its first line that is not an edge.
pub open spec fn parsed_graph(text: Seq<char>) -> Result<Map<u32, Seq<u32>>, ParseError> {
    match parsed_lines(lines(text)) {
        Ok(edges) => Ok(graph_of(edges)),
        Err(e) => Err(e),
    }
}

/// Finds the first character of the class at or after `from`.
pub fn scan(chars: &[char], from: usize, class: CharClass) -> (to: usize)
    requires
        from <= chars@.len(),
    ensures
        to == next_of(chars@, from as int, class),
        from <= to <= chars@.len(),
{
    let mut i = from;
    while i < chars.len() && !class.test(chars[i])
        invariant
            from <= i <= chars@.len(),
            next_of(chars@, from as int, class) == next_of(chars@, i as int, class),
        decreases chars@.len() - i,
    {
        i += 1;
    }
    i
}

/// The digits read so far never write more than all the digits do.
proof fn lemma_decimal_value_prefix(digits: Seq<char>, k: int)
    requires
        0 <= k <= digits.len(),
    ensures
        decimal_value(digits.take(k)) <= decimal_value(digits),
    decreases digits.len() - k,
{
    if k < digits.len() {
        lemma_decimal_value_prefix(digits.drop_last(), k);
        assert(digits.drop_last().take(k) =~= digits.take(k));
    } else {
        assert(digits.take(k) =~= digits);
    }
}

/// Reads a token as a vertex identifier.
pub fn parse_vertex(token: &[char]) -> (r: Option<u32>)
    ensures
        r == vertex_of(token@),
{
    let n = token.len();
    let first: usize = if n > 0 && token[0] == '+' {
        1
    } else {
        0
    };
    if first == n {
        return None;
    }
    let ghost digits = unsigned_part(token@);
    let mut value: u64 = 0;
    let mut i: usize = first;
    while i < n
        invariant
            first <= i <= n,
            n == token@.len(),
            digits == unsigned_part(token@),
            digits == token@.subrange(first as int, n as int),
            forall|j: int| 0 <= j < i - first ==> is_digit(#[trigger] digits[j]),
            value as nat == decimal_value(digits.take(i - first)),
            value <= u32::MAX,
        decreases n - i,
    {
        let c = token[i];
        assert(digits[i - first] == c);
        if !(c >= '0' && c <= '9') {
            return None;
        }
        value = value * 10 + (c as u32 - 48) as u64;
        proof {
            let read = digits.take(i - first + 1);
            assert(read.drop_last() =~= digits.take(i - first));
            lemma_decimal_value_prefix(digits, i - first + 1);
        }
        if value > u32::MAX as u64 {
            return None;
        }
        i += 1;
    }
    assert(digits.take(n - first) =~= digits);
    Some(value as u32)
}

/// Reads a line: a comment, an edge, or why it is neither.
pub fn parse_line(line: &[char]) -> (r: Result<Option<(u32, u32)>, ParseErrorKind>)
    ensures
        r == parsed_line(line@),
{
    let n = line.len();
    if n > 0 && line[0] == '#' {
        return Ok(None);
    }
    let a = scan(line, 0, CharClass::Word);
    let b = scan(line, a, CharClass::Space);
    let c = scan(line, b, CharClass::Word);
    let d = scan(line, c, CharClass::Space);
    if a >= n {
        return Err(ParseErrorKind::MissingVertex);
    }
    let u = match parse_vertex(slice_subrange(line, a, b)) {
        Some(u) => u,
        None => {
            return Err(ParseErrorKind::InvalidVertex);
        },
    };
    if c >= n {
        return Err(ParseErrorKind::MissingVertex);
    }
    match parse_vertex(slice_subrange(line, c, d)) {
        Some(v) => Ok(Some((u, v))),
        None => Err(ParseErrorKind::InvalidVertex),
    }
}

/// Adds the edge `u -> v` to the graph, after the edges that `u` has.
pub fn add_edge(graph: &mut HashMap<u32, Vec<u32>>, u: u32, v: u32)
    ensures
        adjacency_of(final(graph)@) == with_edge(adjacency_of(old(graph)@), u, v),
{
    let neighbors = graph.entry(u).or_insert(Vec::new());
    neighbors.push(v);
}

/// The characters of a text.
fn chars_of(text: &str) -> (chars: Vec<char>)
    ensures
        chars@ == text@,
{
    let mut chars: Vec<char> = Vec::new();
    for c in iter: text.chars()
        invariant
            iter.seq() == text@,
            chars@ == iter.seq().take(iter.index()),
    {
        chars.push(c);
    }
    chars
}

/// Once a line is not an edge, the lines after it change nothing.
proof fn lemma_parsed_lines_error(ls: Seq<Seq<char>>, k: int)
    requires
        0 <= k <= ls.len(),
        parsed_lines(ls.take(k)) is Err,
    ensures
        parsed_lines(ls) == parsed_lines(ls.take(k)),
    decreases ls.len() - k,
{
    if k < ls.len() {
        assert(ls.drop_last().take(k) =~= ls.take(k));
        lemma_parsed_lines_error(ls.drop_last(), k);
    } else {
        assert(ls.take(k) =~= ls);
    }
}

/// Reads a text in the edge-list format into an adjacency map.
///
/// Returns the graph of the edges in the order of their lines, or the first
/// line that is neither a comment nor an edge.
pub fn parse_edge_list(text: &str) -> (r: Result<HashMap<u32, Vec<u32>>, ParseError>)
    ensures
        match r {
            Ok(graph) => parsed_graph(text@) == Ok::<Map<u32, Seq<u32>>, ParseError>(
                adjacency_of(graph@),
            ),
            Err(e) => parsed_graph(text@) == Err::<Map<u32, Seq<u32>>, ParseError>(e),
        },
{
    let chars = chars_of(text);
    let mut graph: HashMap<u32, Vec<u32>> = HashMap::new();
    let ghost mut done: Seq<Seq<char>> = Seq::empty();
    let ghost mut edges: Seq<(u32, u32)> = Seq::empty();
    let mut start: usize = 0;
    let mut line_no: usize = 0;
    while start < chars.len()
        invariant
            chars@ == text@,
            start <= chars@.len(),
            line_no <= start,
            done.len() == line_no,
            lines(text@) == done + lines_from(text@, start as int),
            parsed_lines(done) == Ok::<Seq<(u32, u32)>, ParseError>(edges),
            adjacency_of(graph@) == graph_of(edges),
        decreases chars@.len() - start,
    {
        let end = scan(chars.as_slice(), start, CharClass::LineFeed);
        let line = slice_subrange(chars.as_slice(), start, end);
        proof {
            assert(done.push(line@).drop_last() =~= done);
            assert(lines(text@).take(line_no + 1) =~= done.push(line@));
        }
        match parse_line(line) {
            Err(kind) => {
                proof {
                    lemma_parsed_lines_error(lines(text@), line_no + 1);
                }
                return Err(ParseError { line: line_no, kind });
            },
            Ok(None) => {},
            Ok(Some((u, v))) => {
                add_edge(&mut graph, u, v);
                proof {
                    assert(edges.push((u, v)).drop_last() =~= edges);
                    edges = edges.push((u, v));
                }
            },
        }
        proof {
            done = done.push(line@);
        }
        line_no += 1;
        start = if end < chars.len() {
            end + 1
        } else {
            end
        };
    }
    Ok(graph)
}

/// A text is read to the end exactly where each of its lines is a comment or
/// an edge; else the error names the first line that is neither.
pub proof fn lemma_parsed_lines_first_error(ls: Seq<Seq<char>>)
    requires
        ls.len() <= usize::MAX,
    ensures
        match parsed_lines(ls) {
            Ok(_) => forall|i: int| 0 <= i < ls.len() ==> parsed_line(#[trigger] ls[i]) is Ok,
            Err(e) => {
                &&& 0 <= e.line < ls.len()
                &&& parsed_line(ls[e.line as int]) == Err::<Option<(u32, u32)>, ParseErrorKind>(
                    e.kind,
                )
                &&& forall|i: int| 0 <= i < e.line ==> parsed_line(#[trigger] ls[i]) is Ok
            },
        },
    decreases ls.len(),
{
    if ls.len() > 0 {
        let front = ls.drop_last();
        lemma_parsed_lines_first_error(front);
        assert forall|i: int| 0 <= i < front.len() implies front[i] == ls[i] by {}
    }
}

/// The graph of a list of edges has the edges of the list and no others.
pub proof fn lemma_graph_of_edges(edges: Seq<(u32, u32)>, u: u32, v: u32)
    ensures
        has_edge(graph_of(edges), u, v) <==> edges.contains((u, v)),
    decreases edges.len(),
{
    if edges.len() > 0 {
        let front = edges.drop_last();
        let last = edges.last();
        let g = graph_of(front);
        lemma_graph_of_edges(front, u, v);
        if edges.contains((u, v)) {
            let i = choose|i: int| 0 <= i < edges.len() && edges[i] == (u, v);
            if i < front.len() {
                assert(front[i] == (u, v));
                let k = choose|k: int| 0 <= k < g[u].len() && g[u][k] == v;
                if last.0 == u {
                    assert(g[u].push(last.1)[k] == v);
                }
            } else {
                if g.contains_key(u) {
                    assert(g[u].push(v)[g[u].len() as int] == v);
                } else {
                    assert(seq![v][0] == v);
                }
            }
        }
        if has_edge(graph_of(edges), u, v) {
            let ns = graph_of(edges)[u];
            let k = choose|k: int| 0 <= k < ns.len() && ns[k] == v;
        }
    }
}

} // verus!
