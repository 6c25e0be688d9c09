//! The text format of graph files.
//!
//! A file starts with comments, the number of cost dimensions, in the
//! minimal layout the names of the metrics, and the numbers of nodes and
//! edges. Then follow the nodes, one on a line, and the edges, one on a
//! line. The costs of an edge are handed on as they are written.

use super::node::Node;
use crate::utils::text::{decimal_digits, lemma_decimal_digits, value_of};
use vstd::prelude::*;

verus! {

/// The two layouts of graph files.
#[derive(Debug, Clone, Copy, PartialEq, Eq)]
pub enum Layout {
    /// Nodes as `id` and four more fields, then `level`; edges as `source
    /// target costs.. part part`.
    Full,
    /// Nodes as `id level`; edges as `id source target costs.. part part`.
    Minimal,
}

/// What is wrong with a graph file.
#[derive(Debug, Clone, Copy, PartialEq, Eq)]
pub enum GraphFileError {
    /// The file ends before its head is complete.
    MissingHeader,
    /// The names of the metrics are not as many as the cost dimensions.
    WrongMetricCount,
    /// The line with this index holds something else where a number is due.
    BadNumber(usize),
    /// The line with this index has too few or too many fields.
    WrongTokenCount(usize),
    /// There are more or fewer lines than nodes and edges were announced.
    LineCountMismatch,
}

/// An edge as a file describes it, its costs as they are written.
#[derive(Debug, Clone, PartialEq, Eq)]
pub struct EdgeRecord {
    pub source_id: u32,
    pub target_id: u32,
    pub costs: Vec<Vec<u8>>,
    pub replaced_edges: Option<(u32, u32)>,
}

/// What a graph file holds.
#[derive(Debug, Clone)]
pub struct GraphFile {
    pub dim: usize,
    pub nodes: Vec<Node>,
    pub edges: Vec<EdgeRecord>,
}

/// Space, tab, line feed, vertical tab, form feed and carriage return
/// separate fields.
pub open spec fn is_space(b: u8) -> bool {
    b == 32 || (9 <= b <= 13)
}

/// Where the field that starts at `i` ends.
pub open spec fn token_end(line: Seq<u8>, i: int) -> int
    decreases line.len() - i,
{
    if i < 0 || i >= line.len() || is_space(line[i]) {
        i
    } else {
        token_end(line, i + 1)
    }
}

/// The fields of `line` from position `i` on: the longest runs of bytes
/// that are no separators.
pub open spec fn tokens_from(line: Seq<u8>, i: int) -> Seq<Seq<u8>>
    decreases line.len() - i,
{
    if i < 0 || i >= line.len() {
        Seq::empty()
    } else if is_space(line[i]) {
        tokens_from(line, i + 1)
    } else {
        let j = token_end(line, i);
        if i < j <= line.len() {
            seq![line.subrange(i, j)] + tokens_from(line, j)
        } else {
            Seq::empty()
        }
    }
}

/// The fields of `line`.
pub open spec fn tokens_of(line: Seq<u8>) -> Seq<Seq<u8>> {
    tokens_from(line, 0)
}

/// A field ends within the line, behind its start, and at a separator.
pub proof fn lemma_token_end(line: Seq<u8>, i: int)
    requires
        0 <= i <= line.len(),
    ensures
        i <= token_end(line, i) <= line.len(),
        forall|k: int| i <= k < token_end(line, i) ==> !is_space(#[trigger] line[k]),
        token_end(line, i) < line.len() ==> is_space(line[token_end(line, i)]),
        i < line.len() && !is_space(line[i]) ==> token_end(line, i) > i,
    decreases line.len() - i,
{
    if i < line.len() && !is_space(line[i]) {
        lemma_token_end(line, i + 1);
    }
}

/// All bytes are decimal digits.
pub open spec fn all_digits(digits: Seq<u8>) -> bool {
    forall|i: int| 0 <= i < digits.len() ==> 48 <= #[trigger] digits[i] <= 57
}

/// The number a field stands for: decimal digits, at least one, with or
/// without a plus sign before them.
pub open spec fn number_of(token: Seq<u8>) -> Option<nat> {
    let digits = if token.len() > 0 && token[0] == 43 {
        token.skip(1)
    } else {
        token
    };
    if digits.len() > 0 && all_digits(digits) {
        Some(value_of(digits))
    } else {
        None
    }
}

/// The number a field stands for, if it is at most `max`.
pub open spec fn bounded_number(token: Seq<u8>, max: u64) -> Option<u64> {
    match number_of(token) {
        Some(v) => if v <= max {
            Some(v as u64)
        } else {
            None
        },
        None => None,
    }
}

/// A number written in decimal digits is read back as itself.
pub proof fn lemma_number_round_trip(n: nat)
    ensures
        number_of(decimal_digits(n)) == Some(n),
{
    lemma_decimal_digits(n);
}

/// More digits make no smaller number.
pub proof fn lemma_digits_grow(digits: Seq<u8>, k: int)
    requires
        0 <= k <= digits.len(),
    ensures
        value_of(digits.take(k)) <= value_of(digits),
    decreases digits.len() - k,
{
    if k < digits.len() {
        lemma_digits_grow(digits, k + 1);
        assert(digits.take(k + 1).drop_last() =~= digits.take(k));
    } else {
        assert(digits.take(k) =~= digits);
    }
}

/// Reads a field as a number of at most `max`.
pub fn parse_number(token: &Vec<u8>, max: u64) -> (number: Option<u64>)
    ensures
        number == bounded_number(token@, max),
{
    let len: usize = token.len();
    let start: usize = if len > 0 && token[0] == 43 {
        1
    } else {
        0
    };
    if start == len {
        return None;
    }
    let ghost digits = if start == 1 {
        token@.skip(1)
    } else {
        token@
    };
    let mut value: u64 = 0;
    let mut i: usize = start;
    while i < len
        invariant
            start <= i <= len,
            len == token@.len(),
            digits == (if token@.len() > 0 && token@[0] == 43 {
                token@.skip(1)
            } else {
                token@
            }),
            digits.len() == len - start,
            forall|k: int| 0 <= k < digits.len() ==> digits[k] == token@[start + k],
            forall|k: int| 0 <= k < i - start ==> 48 <= #[trigger] digits[k] <= 57,
            value == value_of(digits.take(i - start)),
            value <= max,
        decreases len - i,
    {
        let b: u8 = token[i];
        if b < 48 || b > 57 {
            proof {
                assert(digits[i - start] == b);
                assert(!all_digits(digits));
            }
            return None;
        }
        let digit: u64 = (b - 48) as u64;
        proof {
            assert(digits.take(i - start + 1).drop_last() =~= digits.take(i - start));
            assert(digits.take(i - start + 1).last() == b);
            lemma_digits_grow(digits, i - start + 1);
            assert(value_of(digits.take(i - start + 1)) == 10 * value + digit);
        }
        if digit > max {
            return None;
        }
        if value > (max - digit) / 10 {
            proof {
                assert(10 * value + digit > max) by (nonlinear_arith)
                    requires
                        value > (max - digit) / 10,
                        digit <= max,
                ;
            }
            return None;
        }
        assert(10 * value + digit <= max) by (nonlinear_arith)
            requires
                value <= (max - digit) / 10,
                digit <= max,
        ;
        value = 10 * value + digit;
        i += 1;
    }
    proof {
        assert(digits.take(len - start) =~= digits);
    }
    Some(value)
}

/// The sequences that the fields hold.
pub open spec fn views(tokens: Seq<Vec<u8>>) -> Seq<Seq<u8>> {
    Seq::new(tokens.len(), |k: int| tokens[k]@)
}

/// Splits a line into its fields.
pub fn split_whitespace(line: &Vec<u8>) -> (tokens: Vec<Vec<u8>>)
    ensures
        views(tokens@) == tokens_of(line@),
{
    let len: usize = line.len();
    let mut tokens: Vec<Vec<u8>> = Vec::new();
    let mut i: usize = 0;
    proof {
        assert(views(tokens@) + tokens_from(line@, 0) =~= tokens_of(line@));
    }
    while i < len
        invariant
            i <= len,
            len == line@.len(),
            views(tokens@) + tokens_from(line@, i as int) == tokens_of(line@),
        decreases len - i,
    {
        if is_separator(line[i]) {
            i += 1;
        } else {
            let mut token: Vec<u8> = Vec::new();
            let mut j: usize = i;
            proof {
                lemma_token_end(line@, i as int);
            }
            while j < len && !is_separator(line[j])
                invariant
                    i <= j <= len,
                    len == line@.len(),
                    token@ == line@.subrange(i as int, j as int),
                    token_end(line@, j as int) == token_end(line@, i as int),
                decreases len - j,
            {
                token.push(line[j]);
                assert(token@ =~= line@.subrange(i as int, j as int + 1));
                j += 1;
            }
            proof {
                assert(token_end(line@, j as int) == j);
                let before = views(tokens@);
                assert(views(tokens@.push(token)) =~= before + seq![token@]);
                assert(before + (seq![token@] + tokens_from(line@, j as int)) =~= (before + seq![
                    token@,
                ]) + tokens_from(line@, j as int));
            }
            tokens.push(token);
            i = j;
        }
    }
    proof {
        assert(views(tokens@) + Seq::<Seq<u8>>::empty() =~= views(tokens@));
    }
    tokens
}

/// Whether a byte separates fields.
pub fn is_separator(b: u8) -> (r: bool)
    ensures
        r == is_space(b),
{
    b == 32 || (9 <= b && b <= 13)
}

/// Whether a field reads `#`, which makes a line a comment.
pub open spec fn is_comment_mark(token: Seq<u8>) -> bool {
    token == seq![35u8]
}

/// Whether a field reads `-1`, which stands for no edge.
pub open spec fn is_no_edge(token: Seq<u8>) -> bool {
    token == seq![45u8, 49u8]
}

/// The parts of an edge as a file gives them: `-1` first for an edge that
/// is no shortcut, else two edges.
pub open spec fn parts_of(first: Seq<u8>, second: Seq<u8>) -> Option<Option<(u32, u32)>> {
    if is_no_edge(first) {
        Some(None)
    } else {
        match (bounded_number(first, u32::MAX as u64), bounded_number(second, u32::MAX as u64)) {
            (Some(a), Some(b)) => Some(Some((a as u32, b as u32))),
            _ => None,
        }
    }
}

/// Reads the two fields that name the parts of an edge.
pub fn parse_parts(first: &Vec<u8>, second: &Vec<u8>) -> (parts: Option<Option<(u32, u32)>>)
    ensures
        parts == parts_of(first@, second@),
{
    if first.len() == 2 && first[0] == 45 && first[1] == 49 {
        assert(first@ =~= seq![45u8, 49u8]);
        return Some(None);
    }
    proof {
        if is_no_edge(first@) {
            assert(first@[0] == 45 && first@[1] == 49);
        }
    }
    let a = parse_number(first, u32::MAX as u64);
    let b = parse_number(second, u32::MAX as u64);
    match (a, b) {
        (Some(a), Some(b)) => Some(Some((a as u32, b as u32))),
        _ => None,
    }
}

/// The node a line describes.
pub open spec fn node_of(layout: Layout, tokens: Seq<Seq<u8>>, at: usize) -> Result<
    Node,
    GraphFileError,
> {
    match layout {
        Layout::Minimal => {
            if tokens.len() != 2 {
                Err(GraphFileError::WrongTokenCount(at))
            } else {
                match bounded_number(tokens[0], u32::MAX as u64) {
                    None => Err(GraphFileError::BadNumber(at)),
                    Some(id) => Ok(
                        Node {
                            id: id as u32,
                            ch_level: match bounded_number(tokens[1], u32::MAX as u64) {
                                Some(level) => level as u32,
                                None => 0,
                            },
                        },
                    ),
                }
            }
        },
        Layout::Full => {
            if tokens.len() < 6 {
                Err(GraphFileError::WrongTokenCount(at))
            } else {
                match (bounded_number(tokens[0], u32::MAX as u64), bounded_number(tokens[5], u32::MAX as u64)) {
                    (Some(id), Some(level)) => Ok(Node { id: id as u32, ch_level: level as u32 }),
                    _ => Err(GraphFileError::BadNumber(at)),
                }
            }
        },
    }
}

/// The number of fields before the costs of an edge.
pub open spec fn edge_lead(layout: Layout) -> int {
    match layout {
        Layout::Minimal => 3,
        Layout::Full => 2,
    }
}

/// An edge as a line describes it: its ends, its costs as written, and
/// its parts.
pub struct EdgeView {
    pub source_id: u32,
    pub target_id: u32,
    pub costs: Seq<Seq<u8>>,
    pub replaced_edges: Option<(u32, u32)>,
}

/// The edge a line describes.
pub open spec fn edge_of(layout: Layout, dim: usize, tokens: Seq<Seq<u8>>, at: usize) -> Result<
    EdgeView,
    GraphFileError,
> {
    let lead = edge_lead(layout);
    if tokens.len() != lead + dim + 2 {
        Err(GraphFileError::WrongTokenCount(at))
    } else {
        let n = tokens.len() as int;
        match (
            parts_of(tokens[n - 2], tokens[n - 1]),
            bounded_number(tokens[lead - 2], u32::MAX as u64),
            bounded_number(tokens[lead - 1], u32::MAX as u64),
        ) {
            (Some(parts), Some(source), Some(target)) => Ok(
                EdgeView {
                    source_id: source as u32,
                    target_id: target as u32,
                    costs: tokens.subrange(lead, n - 2),
                    replaced_edges: parts,
                },
            ),
            _ => Err(GraphFileError::BadNumber(at)),
        }
    }
}

/// The edge that a record stands for.
pub open spec fn record_view(record: EdgeRecord) -> EdgeView {
    EdgeView {
        source_id: record.source_id,
        target_id: record.target_id,
        costs: views(record.costs@),
        replaced_edges: record.replaced_edges,
    }
}

/// The edges that records stand for.
pub open spec fn record_views(records: Seq<EdgeRecord>) -> Seq<EdgeView> {
    Seq::new(records.len(), |k: int| record_view(records[k]))
}

/// The numbers at the head of a file.
pub struct Head {
    pub dim: usize,
    pub node_count: usize,
    pub edge_count: u32,
    /// Index of the first line behind the head.
    pub body: usize,
}

/// The index of the first line from `i` on that does not start with `#`.
pub open spec fn comments_end(lines: Seq<Seq<u8>>, i: int) -> int
    decreases lines.len() - i,
{
    if i < 0 || i >= lines.len() || lines[i].len() == 0 || lines[i][0] != 35 {
        i
    } else {
        comments_end(lines, i + 1)
    }
}

/// Number of pieces into which single spaces split a line.
pub open spec fn pieces(line: Seq<u8>) -> nat
    decreases line.len(),
{
    if line.len() == 0 {
        1
    } else {
        pieces(line.drop_last()) + if line.last() == 32 {
            1nat
        } else {
            0nat
        }
    }
}

/// Where the numbers of the head stand.
pub open spec fn head_start(layout: Layout, lines: Seq<Seq<u8>>) -> int {
    match layout {
        Layout::Full => 4,
        Layout::Minimal => comments_end(lines, 0) + 1,
    }
}

/// The head of a file.
///
/// In the full layout four lines are skipped. In the minimal layout the
/// comment lines are skipped and the line after them, and a line with the
/// names of the metrics, separated by single spaces, follows the number of
/// dimensions.
pub open spec fn head_of(layout: Layout, lines: Seq<Seq<u8>>) -> Result<Head, GraphFileError> {
    let first = head_start(layout, lines);
    let names: int = match layout {
        Layout::Full => 0,
        Layout::Minimal => 1,
    };
    if first + names + 3 > lines.len() {
        Err(GraphFileError::MissingHeader)
    } else {
        match bounded_number(lines[first], usize::MAX as u64) {
            None => Err(GraphFileError::BadNumber(first as usize)),
            Some(dim) => {
                if layout is Minimal && pieces(lines[first + 1]) != dim {
                    Err(GraphFileError::WrongMetricCount)
                } else {
                    match bounded_number(lines[first + names + 1], usize::MAX as u64) {
                        None => Err(GraphFileError::BadNumber((first + names + 1) as usize)),
                        Some(node_count) => match bounded_number(
                            lines[first + names + 2],
                            u32::MAX as u64,
                        ) {
                            None => Err(GraphFileError::BadNumber((first + names + 2) as usize)),
                            Some(edge_count) => Ok(
                                Head {
                                    dim: dim as usize,
                                    node_count: node_count as usize,
                                    edge_count: edge_count as u32,
                                    body: (first + names + 3) as usize,
                                },
                            ),
                        },
                    }
                }
            },
        }
    }
}

/// What a line of the body holds.
pub enum EntryView {
    Comment,
    Node(Node),
    Edge(EdgeView),
}

/// What the line with index `at` holds, where `nodes` nodes and `edges`
/// edges have been read before it.
///
/// A line whose first field is `#` is a comment. As long as nodes are
/// missing a line is a node, then as long as edges are missing an edge; any
/// further line is one too many. A line without fields has too few.
pub open spec fn entry_of(
    layout: Layout,
    head: Head,
    line: Seq<u8>,
    at: usize,
    nodes: nat,
    edges: nat,
) -> Result<EntryView, GraphFileError> {
    let tokens = tokens_of(line);
    if tokens.len() == 0 {
        Err(GraphFileError::WrongTokenCount(at))
    } else if is_comment_mark(tokens[0]) {
        Ok(EntryView::Comment)
    } else if nodes < head.node_count {
        match node_of(layout, tokens, at) {
            Ok(node) => Ok(EntryView::Node(node)),
            Err(e) => Err(e),
        }
    } else if edges < head.edge_count {
        match edge_of(layout, head.dim, tokens, at) {
            Ok(edge) => Ok(EntryView::Edge(edge)),
            Err(e) => Err(e),
        }
    } else {
        Err(GraphFileError::LineCountMismatch)
    }
}

/// What the lines from `i` on add to the nodes and edges read so far. The
/// end of the file while nodes or edges are missing is an error.
pub open spec fn body_from(
    layout: Layout,
    head: Head,
    lines: Seq<Seq<u8>>,
    i: int,
    nodes: Seq<Node>,
    edges: Seq<EdgeView>,
) -> Result<(Seq<Node>, Seq<EdgeView>), GraphFileError>
    decreases lines.len() - i,
{
    if i < 0 || i >= lines.len() {
        if nodes.len() == head.node_count && edges.len() == head.edge_count {
            Ok((nodes, edges))
        } else {
            Err(GraphFileError::LineCountMismatch)
        }
    } else {
        match entry_of(layout, head, lines[i], i as usize, nodes.len(), edges.len()) {
            Err(e) => Err(e),
            Ok(EntryView::Comment) => body_from(layout, head, lines, i + 1, nodes, edges),
            Ok(EntryView::Node(node)) => body_from(layout, head, lines, i + 1, nodes.push(node), edges),
            Ok(EntryView::Edge(edge)) => body_from(layout, head, lines, i + 1, nodes, edges.push(edge)),
        }
    }
}

/// What a file in the given layout holds.
pub open spec fn graph_of(layout: Layout, lines: Seq<Seq<u8>>) -> Result<
    (Head, Seq<Node>, Seq<EdgeView>),
    GraphFileError,
> {
    match head_of(layout, lines) {
        Err(e) => Err(e),
        Ok(head) => match body_from(layout, head, lines, head.body as int, Seq::empty(), Seq::empty()) {
            Err(e) => Err(e),
            Ok((nodes, edges)) => Ok((head, nodes, edges)),
        },
    }
}

/// A copy of a field.
fn copy_token(token: &Vec<u8>) -> (copy: Vec<u8>)
    ensures
        copy@ == token@,
{
    let mut copy: Vec<u8> = Vec::new();
    let mut i: usize = 0;
    while i < token.len()
        invariant
            i <= token@.len(),
            copy@ == token@.subrange(0, i as int),
        decreases token@.len() - i,
    {
        copy.push(token[i]);
        assert(copy@ =~= token@.subrange(0, i as int + 1));
        i += 1;
    }
    assert(token@.subrange(0, token@.len() as int) =~= token@);
    copy
}

/// Reads the fields of a line as a node.
pub fn parse_node(layout: Layout, tokens: &Vec<Vec<u8>>, at: usize) -> (node: Result<
    Node,
    GraphFileError,
>)
    ensures
        node == node_of(layout, views(tokens@), at),
{
    match layout {
        Layout::Minimal => {
            if tokens.len() != 2 {
                return Err(GraphFileError::WrongTokenCount(at));
            }
            assert(views(tokens@)[0] == tokens@[0]@ && views(tokens@)[1] == tokens@[1]@);
            match parse_number(&tokens[0], u32::MAX as u64) {
                None => Err(GraphFileError::BadNumber(at)),
                Some(id) => {
                    let ch_level: u32 = match parse_number(&tokens[1], u32::MAX as u64) {
                        Some(level) => level as u32,
                        None => 0,
                    };
                    Ok(Node { id: id as u32, ch_level })
                },
            }
        },
        Layout::Full => {
            if tokens.len() < 6 {
                return Err(GraphFileError::WrongTokenCount(at));
            }
            assert(views(tokens@)[0] == tokens@[0]@ && views(tokens@)[5] == tokens@[5]@);
            match (parse_number(&tokens[0], u32::MAX as u64), parse_number(&tokens[5], u32::MAX as u64)) {
                (Some(id), Some(level)) => Ok(Node { id: id as u32, ch_level: level as u32 }),
                _ => Err(GraphFileError::BadNumber(at)),
            }
        },
    }
}

/// Reads the fields of a line as an edge.
pub fn parse_edge(layout: Layout, dim: usize, tokens: &Vec<Vec<u8>>, at: usize) -> (edge: Result<
    EdgeRecord,
    GraphFileError,
>)
    ensures
        match edge {
            Ok(record) => edge_of(layout, dim, views(tokens@), at) == Ok::<EdgeView, GraphFileError>(
                record_view(record),
            ),
            Err(e) => edge_of(layout, dim, views(tokens@), at) == Err::<EdgeView, GraphFileError>(e),
        },
{
    let lead: usize = match layout {
        Layout::Minimal => 3,
        Layout::Full => 2,
    };
    let n: usize = tokens.len();
    if n < lead + 2 || n - lead - 2 != dim {
        return Err(GraphFileError::WrongTokenCount(at));
    }
    proof {
        assert(views(tokens@)[n - 2] == tokens@[n - 2]@);
        assert(views(tokens@)[n - 1] == tokens@[n - 1]@);
        assert(views(tokens@)[lead - 2] == tokens@[lead - 2]@);
        assert(views(tokens@)[lead - 1] == tokens@[lead - 1]@);
    }
    let parts = parse_parts(&tokens[n - 2], &tokens[n - 1]);
    let source = parse_number(&tokens[lead - 2], u32::MAX as u64);
    let target = parse_number(&tokens[lead - 1], u32::MAX as u64);
    match (parts, source, target) {
        (Some(replaced_edges), Some(source), Some(target)) => {
            let mut costs: Vec<Vec<u8>> = Vec::new();
            let mut k: usize = lead;
            while k < n - 2
                invariant
                    lead <= k <= n - 2,
                    n == tokens@.len(),
                    costs@.len() == k - lead,
                    forall|j: int| 0 <= j < k - lead ==> (#[trigger] costs@[j])@ == tokens@[lead + j]@,
                decreases n - 2 - k,
            {
                costs.push(copy_token(&tokens[k]));
                k += 1;
            }
            let record = EdgeRecord {
                source_id: source as u32,
                target_id: target as u32,
                costs,
                replaced_edges,
            };
            proof {
                assert(views(record.costs@) =~= views(tokens@).subrange(lead as int, n - 2));
            }
            Ok(record)
        },
        _ => Err(GraphFileError::BadNumber(at)),
    }
}

/// The sequences that the lines hold.
pub open spec fn line_views(lines: Seq<Vec<u8>>) -> Seq<Seq<u8>> {
    Seq::new(lines.len(), |k: int| lines[k]@)
}

/// Whether single spaces split a line into `count` pieces.
fn has_pieces(line: &Vec<u8>, count: u64) -> (r: bool)
    ensures
        r == (pieces(line@) == count),
{
    let mut spaces: u64 = 0;
    let mut i: usize = 0;
    while i < line.len()
        invariant
            i <= line@.len(),
            spaces + 1 == pieces(line@.subrange(0, i as int)),
            spaces <= i,
        decreases line@.len() - i,
    {
        proof {
            assert(line@.subrange(0, i as int + 1).drop_last() =~= line@.subrange(0, i as int));
            assert(line@.subrange(0, i as int + 1).last() == line@[i as int]);
        }
        if line[i] == 32 {
            spaces += 1;
        }
        i += 1;
    }
    assert(line@.subrange(0, line@.len() as int) =~= line@);
    count >= 1 && spaces == count - 1
}

/// Reads the head of a file.
pub fn parse_head(layout: Layout, lines: &Vec<Vec<u8>>) -> (head: Result<Head, GraphFileError>)
    ensures
        head == head_of(layout, line_views(lines@)),
        head matches Ok(h) ==> h.body <= lines@.len(),
{
    let ghost all = line_views(lines@);
    let count: usize = lines.len();
    let first: usize = match layout {
        Layout::Full => 4,
        Layout::Minimal => {
            let mut i: usize = 0;
            while i < count && lines[i].len() > 0 && lines[i][0] == 35
                invariant
                    i <= count,
                    count == lines@.len(),
                    all == line_views(lines@),
                    comments_end(all, 0) == comments_end(all, i as int),
                decreases count - i,
            {
                assert(all[i as int] == lines@[i as int]@);
                i += 1;
            }
            proof {
                if i < count {
                    assert(all[i as int] == lines@[i as int]@);
                }
            }
            if i == count {
                return Err(GraphFileError::MissingHeader);
            }
            i + 1
        },
    };
    let names: usize = match layout {
        Layout::Full => 0,
        Layout::Minimal => 1,
    };
    if count < 4 || first > count - names - 3 {
        return Err(GraphFileError::MissingHeader);
    }
    proof {
        assert(all[first as int] == lines@[first as int]@);
        assert(all[first + 1] == lines@[first + 1]@);
        assert(all[first + names + 1] == lines@[first + names + 1]@);
        assert(all[first + names + 2] == lines@[first + names + 2]@);
    }
    let dim: u64 = match parse_number(&lines[first], usize::MAX as u64) {
        None => {
            return Err(GraphFileError::BadNumber(first));
        },
        Some(dim) => dim,
    };
    match layout {
        Layout::Minimal => {
            if !has_pieces(&lines[first + 1], dim) {
                return Err(GraphFileError::WrongMetricCount);
            }
        },
        Layout::Full => {},
    }
    let node_count: u64 = match parse_number(&lines[first + names + 1], usize::MAX as u64) {
        None => {
            return Err(GraphFileError::BadNumber(first + names + 1));
        },
        Some(n) => n,
    };
    let edge_count: u64 = match parse_number(&lines[first + names + 2], u32::MAX as u64) {
        None => {
            return Err(GraphFileError::BadNumber(first + names + 2));
        },
        Some(n) => n,
    };
    Ok(
        Head {
            dim: dim as usize,
            node_count: node_count as usize,
            edge_count: edge_count as u32,
            body: first + names + 3,
        },
    )
}

/// What a line of the body holds.
pub enum Entry {
    Comment,
    Node(Node),
    Edge(EdgeRecord),
}

/// What an entry stands for.
pub open spec fn entry_view(entry: Entry) -> EntryView {
    match entry {
        Entry::Comment => EntryView::Comment,
        Entry::Node(node) => EntryView::Node(node),
        Entry::Edge(record) => EntryView::Edge(record_view(record)),
    }
}

/// Reads the line with index `at` of the body, where `nodes` nodes and
/// `edges` edges have been read before it.
pub fn parse_entry(layout: Layout, head: &Head, line: &Vec<u8>, at: usize, nodes: usize, edges: usize) -> (entry: Result<
    Entry,
    GraphFileError,
>)
    ensures
        match entry {
            Ok(entry) => entry_of(layout, *head, line@, at, nodes as nat, edges as nat) == Ok::<
                EntryView,
                GraphFileError,
            >(entry_view(entry)),
            Err(e) => entry_of(layout, *head, line@, at, nodes as nat, edges as nat) == Err::<
                EntryView,
                GraphFileError,
            >(e),
        },
{
    let tokens = split_whitespace(line);
    if tokens.len() == 0 {
        return Err(GraphFileError::WrongTokenCount(at));
    }
    proof {
        assert(views(tokens@)[0] == tokens@[0]@);
    }
    if tokens[0].len() == 1 && tokens[0][0] == 35 {
        assert(tokens@[0]@ =~= seq![35u8]);
        return Ok(Entry::Comment);
    }
    proof {
        if is_comment_mark(tokens@[0]@) {
            assert(tokens@[0]@[0] == 35);
        }
    }
    if nodes < head.node_count {
        match parse_node(layout, &tokens, at) {
            Ok(node) => Ok(Entry::Node(node)),
            Err(e) => Err(e),
        }
    } else if edges < head.edge_count as usize {
        match parse_edge(layout, head.dim, &tokens, at) {
            Ok(record) => Ok(Entry::Edge(record)),
            Err(e) => Err(e),
        }
    } else {
        Err(GraphFileError::LineCountMismatch)
    }
}

/// Reads a graph file, given line by line.
pub fn parse_lines(layout: Layout, lines: &Vec<Vec<u8>>) -> (file: Result<GraphFile, GraphFileError>)
    ensures
        match file {
            Ok(file) => match graph_of(layout, line_views(lines@)) {
                Ok((head, nodes, edges)) => {
                    &&& head.dim == file.dim
                    &&& nodes == file.nodes@
                    &&& edges == record_views(file.edges@)
                },
                Err(_) => false,
            },
            Err(e) => graph_of(layout, line_views(lines@)) == Err::<
                (Head, Seq<Node>, Seq<EdgeView>),
                GraphFileError,
            >(e),
        },
{
    let ghost all = line_views(lines@);
    let head = match parse_head(layout, lines) {
        Err(e) => {
            return Err(e);
        },
        Ok(head) => head,
    };
    let ghost whole = body_from(layout, head, all, head.body as int, Seq::empty(), Seq::empty());
    let count: usize = lines.len();
    let mut nodes: Vec<Node> = Vec::new();
    let mut edges: Vec<EdgeRecord> = Vec::new();
    let mut i: usize = head.body;
    proof {
        assert(record_views(edges@) =~= Seq::<EdgeView>::empty());
        assert(nodes@ =~= Seq::<Node>::empty());
    }
    while i < count
        invariant
            i <= count,
            count == lines@.len(),
            all == line_views(lines@),
            head_of(layout, all) == Ok::<Head, GraphFileError>(head),
            whole == body_from(layout, head, all, head.body as int, Seq::empty(), Seq::empty()),
            whole == body_from(layout, head, all, i as int, nodes@, record_views(edges@)),
        ensures
            i == count,
            whole == body_from(layout, head, all, i as int, nodes@, record_views(edges@)),
        decreases count - i,
    {
        proof {
            assert(all[i as int] == lines@[i as int]@);
        }
        match parse_entry(layout, &head, &lines[i], i, nodes.len(), edges.len()) {
            Err(e) => {
                return Err(e);
            },
            Ok(Entry::Comment) => {},
            Ok(Entry::Node(node)) => {
                nodes.push(node);
            },
            Ok(Entry::Edge(record)) => {
                let ghost before = record_views(edges@);
                edges.push(record);
                proof {
                    assert(record_views(edges@) =~= before.push(record_view(record)));
                }
            },
        }
        i += 1;
    }
    if nodes.len() != head.node_count || edges.len() != head.edge_count as usize {
        return Err(GraphFileError::LineCountMismatch);
    }
    Ok(GraphFile { dim: head.dim, nodes, edges })
}

/// Reads a graph file in the full layout, given line by line.
pub fn parse_graph_file(lines: &Vec<Vec<u8>>) -> (file: Result<GraphFile, GraphFileError>)
    ensures
        match file {
            Ok(file) => match graph_of(Layout::Full, line_views(lines@)) {
                Ok((head, nodes, edges)) => {
                    &&& head.dim == file.dim
                    &&& nodes == file.nodes@
                    &&& edges == record_views(file.edges@)
                },
                Err(_) => false,
            },
            Err(e) => graph_of(Layout::Full, line_views(lines@)) == Err::<
                (Head, Seq<Node>, Seq<EdgeView>),
                GraphFileError,
            >(e),
        },
{
    parse_lines(Layout::Full, lines)
}

/// Reads a graph file in the minimal layout, given line by line.
pub fn parse_minimal_graph_file(lines: &Vec<Vec<u8>>) -> (file: Result<GraphFile, GraphFileError>)
    ensures
        match file {
            Ok(file) => match graph_of(Layout::Minimal, line_views(lines@)) {
                Ok((head, nodes, edges)) => {
                    &&& head.dim == file.dim
                    &&& nodes == file.nodes@
                    &&& edges == record_views(file.edges@)
                },
                Err(_) => false,
            },
            Err(e) => graph_of(Layout::Minimal, line_views(lines@)) == Err::<
                (Head, Seq<Node>, Seq<EdgeView>),
                GraphFileError,
            >(e),
        },
{
    parse_lines(Layout::Minimal, lines)
}

} // verus!
