//! The indentation-sensitive parser: tokenizer, block parser, and the
//! builder that maps the generic node tree onto the typed place entity.

use vstd::prelude::*;
use vstd::string::StrSliceExecFns;
use vstd::string::StringExecFns;

use crate::text::{
    find_char, first_index_of, indent_level, indent_of, is_number_str, lemma_first_index_of_bounds,
    number_text, trim_spec, trim_str,
};

verus! {

/// Error taxonomy of the stricter, validating entry points. The default
/// `parse` is total and never reports one of these.
#[derive(Debug, Clone, PartialEq)]
pub enum GeonError {
    /// A scalar that should have been numeric was not.
    ParseFloat(String),
    /// A structural anomaly in the indentation layout.
    InvalidStructure(String),
}

/// Untyped parse-tree node: a scalar, an ordered list, or an ordered
/// key-to-node table, exactly as read off the indentation structure.
#[derive(Debug, PartialEq)]
pub enum Node {
    Value(String),
    List(Vec<Node>),
    Dict(Vec<(String, Node)>),
}

/// Mathematical shape of a `Node`, over sequences of characters.
#[verifier::ext_equal]
pub ghost enum NodeV {
    Value(Seq<char>),
    List(Seq<NodeV>),
    Dict(Seq<(Seq<char>, NodeV)>),
}

pub open spec fn view_node_seq(s: Seq<Node>) -> Seq<NodeV>
    decreases s,
{
    if s.len() == 0 {
        Seq::empty()
    } else {
        view_node_seq(s.drop_last()).push(s.last()@)
    }
}

pub open spec fn view_pair_seq(s: Seq<(String, Node)>) -> Seq<(Seq<char>, NodeV)>
    decreases s,
{
    if s.len() == 0 {
        Seq::empty()
    } else {
        view_pair_seq(s.drop_last()).push((s.last().0@, s.last().1@))
    }
}

impl View for Node {
    type V = NodeV;

    open spec fn view(&self) -> NodeV
        decreases self,
    {
        match self {
            Node::Value(s) => NodeV::Value(s@),
            Node::List(v) => NodeV::List(view_node_seq(v@)),
            Node::Dict(v) => NodeV::Dict(view_pair_seq(v@)),
        }
    }
}

impl DeepView for Node {
    type V = NodeV;

    open spec fn deep_view(&self) -> NodeV {
        self.view()
    }
}

pub proof fn lemma_view_node_seq(s: Seq<Node>)
    ensures
        view_node_seq(s).len() == s.len(),
        forall|i: int| 0 <= i < s.len() ==> view_node_seq(s)[i] == #[trigger] s[i]@,
    decreases s,
{
    if s.len() > 0 {
        lemma_view_node_seq(s.drop_last());
        assert(view_node_seq(s) == view_node_seq(s.drop_last()).push(s.last()@));
        assert forall|i: int| 0 <= i < s.len() implies view_node_seq(s)[i] == #[trigger] s[i]@ by {
            if i < s.len() - 1 {
                assert(s.drop_last()[i] == s[i]);
            } else {
                assert(s[i] == s.last());
            }
        }
    }
}

pub proof fn lemma_view_pair_seq(s: Seq<(String, Node)>)
    ensures
        view_pair_seq(s).len() == s.len(),
        forall|i: int|
            0 <= i < s.len() ==> view_pair_seq(s)[i] == (#[trigger] s[i].0@, s[i].1@),
    decreases s,
{
    if s.len() > 0 {
        lemma_view_pair_seq(s.drop_last());
        assert(view_pair_seq(s) == view_pair_seq(s.drop_last()).push((s.last().0@, s.last().1@)));
        assert forall|i: int|
            0 <= i < s.len() implies view_pair_seq(s)[i] == (#[trigger] s[i].0@, s[i].1@) by {
            if i < s.len() - 1 {
                assert(s.drop_last()[i] == s[i]);
            } else {
                assert(s[i] == s.last());
            }
        }
    }
}

/// One non-blank input line: its indentation width and trimmed content.
pub struct Line<'a> {
    pub indent: usize,
    pub content: &'a str,
}

/// Mathematical shape of a [`Line`].
#[verifier::ext_equal]
pub ghost struct LineV {
    pub indent: int,
    pub content: Seq<char>,
}

impl<'a> View for Line<'a> {
    type V = LineV;

    open spec fn view(&self) -> LineV {
        LineV { indent: self.indent as int, content: self.content@ }
    }
}

impl<'a> DeepView for Line<'a> {
    type V = LineV;

    open spec fn deep_view(&self) -> LineV {
        self.view()
    }
}

/// The raw lines of `s`, split at every newline character.
pub open spec fn split_lines(s: Seq<char>) -> Seq<Seq<char>>
    decreases s.len(),
    via split_lines_dec
{
    let i = first_index_of(s, '\n');
    if i == s.len() {
        seq![s]
    } else {
        seq![s.subrange(0, i)] + split_lines(s.subrange(i + 1, s.len() as int))
    }
}

#[via_fn]
proof fn split_lines_dec(s: Seq<char>) {
    lemma_first_index_of_bounds(s, '\n');
}

/// The record of one raw line: indentation width and trimmed content.
pub open spec fn line_rec(l: Seq<char>) -> LineV {
    LineV { indent: indent_of(l), content: trim_spec(l) }
}

/// The token records of a run of raw lines, blank lines dropped.
pub open spec fn tokenize_lines_of(ls: Seq<Seq<char>>) -> Seq<LineV>
    decreases ls,
{
    if ls.len() == 0 {
        Seq::empty()
    } else {
        let rest = tokenize_lines_of(ls.drop_first());
        if trim_spec(ls.first()).len() == 0 {
            rest
        } else {
            seq![line_rec(ls.first())] + rest
        }
    }
}

/// The token sequence of a document.
pub open spec fn tokenize_spec(s: Seq<char>) -> Seq<LineV> {
    tokenize_lines_of(split_lines(s))
}

/// Tokens of the document from character position `p` on.
fn tokenize_from<'a>(text: &'a str, p: usize) -> (r: Vec<Line<'a>>)
    requires
        p <= text@.len(),
    ensures
        r.deep_view() == tokenize_lines_of(split_lines(text@.subrange(p as int, text@.len() as int))),
    decreases text@.len() - p,
{
    let n = text.unicode_len();
    let mut i: usize = p;
    while i < n && text.get_char(i) != '\n'
        invariant
            p <= i <= n,
            n == text@.len(),
            forall|j: int| p <= j < i ==> text@[j] != '\n',
        decreases n - i,
    {
        i = i + 1;
    }
    let ghost sfx = text@.subrange(p as int, n as int);
    proof {
        assert forall|j: int| 0 <= j < i - p implies sfx[j] != '\n' by {
            assert(sfx[j] == text@[p + j]);
        }
        if i < n {
            assert(sfx[i - p] == text@[i as int]);
        }
        crate::text::lemma_first_index_of_is(sfx, '\n', i - p);
    }
    let raw = text.substring_char(p, i);
    proof {
        assert(raw@ =~= sfx.subrange(0, i - p));
        if i == n {
            assert(sfx.subrange(0, i - p) =~= sfx);
        }
    }
    let ind = indent_level(raw);
    let content = trim_str(raw);
    if i == n {
        let mut out: Vec<Line<'a>> = Vec::new();
        if content.unicode_len() > 0 {
            out.push(Line { indent: ind, content });
        }
        proof {
            reveal_with_fuel(tokenize_lines_of, 3);
            assert(split_lines(sfx) =~= seq![sfx]);
            assert(seq![sfx].drop_first() =~= Seq::<Seq<char>>::empty());
            assert(tokenize_lines_of(Seq::<Seq<char>>::empty()) =~= Seq::<LineV>::empty());
            if trim_spec(sfx).len() == 0 {
                assert(out.deep_view() =~= tokenize_lines_of(split_lines(sfx)));
            } else {
                assert(out.deep_view() =~= seq![line_rec(sfx)]);
                assert(out.deep_view() =~= tokenize_lines_of(split_lines(sfx)));
            }
        }
        out
    } else {
        let mut out = tokenize_from(text, i + 1);
        let ghost rest_dv = out.deep_view();
        let ghost pre_at = out@;
        if content.unicode_len() > 0 {
            out.insert(0, Line { indent: ind, content });
            proof {
                assert forall|j: int| 0 <= j < pre_at.len() + 1 implies #[trigger] out.deep_view()[j]
                    == (seq![line_rec(raw@)] + rest_dv)[j] by {
                    if j > 0 {
                        assert(out@[j] == pre_at[j - 1]);
                        assert(rest_dv[j - 1] == pre_at[j - 1]@);
                    }
                }
                assert(out.deep_view() =~= seq![line_rec(raw@)] + rest_dv);
            }
        }
        proof {
            let tail = sfx.subrange(i - p + 1, sfx.len() as int);
            assert(tail =~= text@.subrange(i + 1, n as int));
            assert(split_lines(sfx) == seq![sfx.subrange(0, i - p)] + split_lines(tail));
            let ls = split_lines(sfx);
            assert(ls.first() == raw@);
            assert(ls.drop_first() =~= split_lines(tail));
            assert(out.deep_view() == tokenize_lines_of(ls));
        }
        out
    }
}

/// The ordered token sequence of a document: one record per non-blank
/// line, blank lines dropped.
pub fn tokenize_lines<'a>(text: &'a str) -> (r: Vec<Line<'a>>)
    ensures
        r.deep_view() == tokenize_spec(text@),
{
    let r = tokenize_from(text, 0);
    proof {
        assert(text@.subrange(0, text@.len() as int) =~= text@);
    }
    r
}

/// Key and value of a `KEY: value` line, both trimmed; nothing when the
/// line has no colon.
pub open spec fn split_kv(s: Seq<char>) -> Option<(Seq<char>, Seq<char>)> {
    let t = trim_spec(s);
    let i = first_index_of(t, ':');
    if i == t.len() {
        None
    } else {
        Some((trim_spec(t.subrange(0, i)), trim_spec(t.subrange(i + 1, t.len() as int))))
    }
}

/// Splits a line on its first colon into trimmed key and value.
pub fn split_key_value(line: &str) -> (r: Option<(String, String)>)
    ensures
        r is Some <==> split_kv(line@) is Some,
        r matches Some(kv) ==> split_kv(line@) == Some((kv.0@, kv.1@)),
{
    let stripped = trim_str(line);
    let idx = find_char(stripped, ':');
    proof {
        lemma_first_index_of_bounds(stripped@, ':');
    }
    if idx == stripped.unicode_len() {
        None
    } else {
        let key = trim_str(stripped.substring_char(0, idx));
        let value = trim_str(stripped.substring_char(idx + 1, stripped.unicode_len()));
        Some((String::from_str(key), String::from_str(value)))
    }
}

/// The pieces of `s` split at every comma.
pub open spec fn split_commas(s: Seq<char>) -> Seq<Seq<char>>
    decreases s.len(),
    via split_commas_dec
{
    let i = first_index_of(s, ',');
    if i == s.len() {
        seq![s]
    } else {
        seq![s.subrange(0, i)] + split_commas(s.subrange(i + 1, s.len() as int))
    }
}

#[via_fn]
proof fn split_commas_dec(s: Seq<char>) {
    lemma_first_index_of_bounds(s, ',');
}

/// Comma-separated pieces of the text from position `p` on.
fn split_commas_from<'a>(text: &'a str, p: usize) -> (r: Vec<&'a str>)
    requires
        p <= text@.len(),
    ensures
        r.deep_view() == split_commas(text@.subrange(p as int, text@.len() as int)),
    decreases text@.len() - p,
{
    let n = text.unicode_len();
    let mut i: usize = p;
    while i < n && text.get_char(i) != ','
        invariant
            p <= i <= n,
            n == text@.len(),
            forall|j: int| p <= j < i ==> text@[j] != ',',
        decreases n - i,
    {
        i = i + 1;
    }
    let ghost sfx = text@.subrange(p as int, n as int);
    proof {
        assert forall|j: int| 0 <= j < i - p implies sfx[j] != ',' by {
            assert(sfx[j] == text@[p + j]);
        }
        if i < n {
            assert(sfx[i - p] == text@[i as int]);
        }
        crate::text::lemma_first_index_of_is(sfx, ',', i - p);
    }
    let piece = text.substring_char(p, i);
    proof {
        assert(piece@ =~= sfx.subrange(0, i - p));
    }
    if i == n {
        let mut out: Vec<&'a str> = Vec::new();
        out.push(piece);
        proof {
            assert(sfx.subrange(0, i - p) =~= sfx);
            assert(out.deep_view() =~= seq![sfx]);
            assert(split_commas(sfx) =~= seq![sfx]);
        }
        out
    } else {
        let mut out = split_commas_from(text, i + 1);
        let ghost rest_dv = out.deep_view();
        let ghost pre_at = out@;
        out.insert(0, piece);
        proof {
            assert forall|j: int| 0 <= j < pre_at.len() + 1 implies #[trigger] out.deep_view()[j]
                == (seq![piece@] + rest_dv)[j] by {
                if j > 0 {
                    assert(out@[j] == pre_at[j - 1]);
                    assert(rest_dv[j - 1] == pre_at[j - 1]@);
                }
            }
            let tail = sfx.subrange(i - p + 1, sfx.len() as int);
            assert(tail =~= text@.subrange(i + 1, n as int));
            assert(split_commas(sfx) == seq![sfx.subrange(0, i - p)] + split_commas(tail));
            assert(out.deep_view() =~= seq![piece@] + rest_dv);
            assert(out.deep_view() =~= split_commas(sfx));
        }
        out
    }
}

/// The coordinate a scalar text denotes, when it is two comma-separated
/// numbers; nothing otherwise.
pub open spec fn coordinate_of(v: Seq<char>) -> Option<crate::models::CoordinateV> {
    let ps = split_commas(v);
    if ps.len() == 2 && number_text(trim_spec(ps[0])) && number_text(trim_spec(ps[1])) {
        Some(crate::models::CoordinateV { lat: trim_spec(ps[0]), lon: trim_spec(ps[1]) })
    } else {
        None
    }
}

/// The extent a scalar text denotes, when it is four comma-separated
/// numbers, all or nothing.
pub open spec fn extent_of(v: Seq<char>) -> Option<crate::models::ExtentV> {
    let ps = split_commas(v);
    if ps.len() == 4 && number_text(trim_spec(ps[0])) && number_text(trim_spec(ps[1]))
        && number_text(trim_spec(ps[2])) && number_text(trim_spec(ps[3])) {
        Some(crate::models::ExtentV {
            north: trim_spec(ps[0]),
            south: trim_spec(ps[1]),
            east: trim_spec(ps[2]),
            west: trim_spec(ps[3]),
        })
    } else {
        None
    }
}

/// Reads a coordinate from a scalar text; a failed numeric conversion
/// leaves nothing, never an error.
pub fn parse_coordinate(text: &str) -> (r: Option<crate::models::Coordinate>)
    ensures
        r is Some <==> coordinate_of(text@) is Some,
        r matches Some(c) ==> coordinate_of(text@) == Some(c@),
{
    let parts = split_commas_from(text, 0);
    proof {
        assert(text@.subrange(0, text@.len() as int) =~= text@);
    }
    if parts.len() == 2 {
        let lat = trim_str(parts[0]);
        let lon = trim_str(parts[1]);
        proof {
            assert(parts.deep_view()[0] == parts@[0]@);
            assert(parts.deep_view()[1] == parts@[1]@);
        }
        if is_number_str(lat) && is_number_str(lon) {
            Some(crate::models::Coordinate {
                lat: String::from_str(lat),
                lon: String::from_str(lon),
            })
        } else {
            None
        }
    } else {
        None
    }
}

/// Reads an extent from a scalar text, all four numbers or nothing.
pub fn parse_extent(text: &str) -> (r: Option<crate::models::Extent>)
    ensures
        r is Some <==> extent_of(text@) is Some,
        r matches Some(e) ==> extent_of(text@) == Some(e@),
{
    let parts = split_commas_from(text, 0);
    proof {
        assert(text@.subrange(0, text@.len() as int) =~= text@);
    }
    if parts.len() == 4 {
        let north = trim_str(parts[0]);
        let south = trim_str(parts[1]);
        let east = trim_str(parts[2]);
        let west = trim_str(parts[3]);
        proof {
            assert(parts.deep_view()[0] == parts@[0]@);
            assert(parts.deep_view()[1] == parts@[1]@);
            assert(parts.deep_view()[2] == parts@[2]@);
            assert(parts.deep_view()[3] == parts@[3]@);
        }
        if is_number_str(north) && is_number_str(south) && is_number_str(east) && is_number_str(
            west,
        ) {
            Some(crate::models::Extent {
                north: String::from_str(north),
                south: String::from_str(south),
                east: String::from_str(east),
                west: String::from_str(west),
            })
        } else {
            None
        }
    } else {
        None
    }
}

/// Whether a line's content opens a list item.
pub open spec fn starts_with_dash(s: Seq<char>) -> bool {
    s.len() >= 2 && s[0] == '-' && s[1] == ' '
}

fn starts_with_dash_exec(s: &str) -> (r: bool)
    ensures
        r == starts_with_dash(s@),
{
    s.unicode_len() >= 2 && s.get_char(0) == '-' && s.get_char(1) == ' '
}

/// First index at or after `j` whose line is not deeper than `ci`.
pub open spec fn skip_deeper(lines: Seq<LineV>, j: int, ci: int) -> int
    decreases lines.len() - j,
{
    if j < 0 || j >= lines.len() || lines[j].indent <= ci {
        j
    } else {
        skip_deeper(lines, j + 1, ci)
    }
}

proof fn lemma_skip_deeper_is(lines: Seq<LineV>, j: int, ci: int, k: int)
    requires
        0 <= j <= k <= lines.len(),
        forall|m: int| j <= m < k ==> #[trigger] lines[m].indent > ci,
        k < lines.len() ==> lines[k].indent <= ci,
    ensures
        skip_deeper(lines, j, ci) == k,
    decreases k - j,
{
    if j < k {
        lemma_skip_deeper_is(lines, j + 1, ci, k);
    }
}

/// First index at or after `j` whose line is not deeper than `ci`.
fn skip_deeper_exec(lines: &Vec<Line>, j: usize, ci: usize) -> (r: usize)
    requires
        j <= lines@.len(),
    ensures
        r == skip_deeper(lines.deep_view(), j as int, ci as int),
        j <= r <= lines@.len(),
{
    let n = lines.len();
    let mut k: usize = j;
    while k < n && lines[k].indent > ci
        invariant
            j <= k <= n,
            n == lines@.len(),
            forall|m: int| j <= m < k ==> #[trigger] lines.deep_view()[m].indent > ci,
        decreases n - k,
    {
        k = k + 1;
    }
    proof {
        lemma_skip_deeper_is(lines.deep_view(), j as int, ci as int, k as int);
    }
    k
}

/// The ordered key-to-node table read off a run of lines at one
/// indentation level, and the cursor where the run ends: scalar values
/// inline, empty values opening a nested block whose own indentation is
/// taken from the following line, deeper stray lines skipped, and the
/// run ending as soon as a line is shallower than `base`.
pub open spec fn spec_parse_block(lines: Seq<LineV>, i: int, base: int) -> (Seq<
    (Seq<char>, NodeV),
>, int)
    decreases lines.len() - i, 0int,
{
    if i < 0 || i >= lines.len() || lines[i].indent < base {
        (Seq::empty(), i)
    } else if lines[i].indent > base {
        spec_parse_block(lines, i + 1, base)
    } else {
        match split_kv(lines[i].content) {
            None => spec_parse_block(lines, i + 1, base),
            Some(kv) => {
                if kv.1.len() > 0 {
                    let rest = spec_parse_block(lines, i + 1, base);
                    (seq![(kv.0, NodeV::Value(kv.1))] + rest.0, rest.1)
                } else {
                    if i + 1 < lines.len() && lines[i + 1].indent > base {
                        let ci = lines[i + 1].indent;
                        let sub = spec_collect_children(lines, i + 1, ci);
                        let next = if sub.1 <= i {
                            i + 1
                        } else if sub.1 > lines.len() {
                            lines.len() as int
                        } else {
                            sub.1
                        };
                        let rest = spec_parse_block(lines, next, base);
                        (seq![(kv.0, sub.0)] + rest.0, rest.1)
                    } else {
                        let rest = spec_parse_block(lines, i + 1, base);
                        (seq![(kv.0, NodeV::List(Seq::empty()))] + rest.0, rest.1)
                    }
                }
            },
        }
    }
}

/// The node of a nested block beginning at `start`: a list when the
/// first line at the level carries the item marker, otherwise a table;
/// an exhausted or shallower line yields an empty list.
pub open spec fn spec_collect_children(lines: Seq<LineV>, start: int, ci: int) -> (NodeV, int)
    decreases lines.len() - start, 2int,
{
    if start < 0 || start >= lines.len() || lines[start].indent < ci {
        (NodeV::List(Seq::empty()), start)
    } else if starts_with_dash(lines[start].content) {
        let l = spec_collect_list(lines, start, ci);
        (NodeV::List(l.0), l.1)
    } else {
        let m = spec_parse_block(lines, start, ci);
        (NodeV::Dict(m.0), m.1)
    }
}

/// The items of a list block: a nested place when the item's inline key
/// is the identity key, an attributed entry when other descendants
/// follow, a bare scalar otherwise.
pub open spec fn spec_collect_list(lines: Seq<LineV>, i: int, ci: int) -> (Seq<NodeV>, int)
    decreases lines.len() - i, 1int,
{
    if i < 0 || i >= lines.len() || lines[i].indent < ci {
        (Seq::empty(), i)
    } else if lines[i].indent == ci && starts_with_dash(lines[i].content) {
        let item_text = trim_spec(
            lines[i].content.subrange(2, lines[i].content.len() as int),
        );
        let j0 = skip_deeper(lines, i + 1, ci);
        let j = if j0 <= i {
            i + 1
        } else if j0 > lines.len() {
            lines.len() as int
        } else {
            j0
        };
        match split_kv(item_text) {
            Some(kv) => {
                if kv.0 == "PLACE"@ {
                    let fi = if j > i + 1 {
                        lines[i + 1].indent
                    } else {
                        ci + 2
                    };
                    let sub = spec_parse_block(lines, i + 1, fi);
                    let item = NodeV::Dict(sub.0 + seq![(kv.0, NodeV::Value(kv.1))]);
                    let rest = spec_collect_list(lines, j, ci);
                    (seq![item] + rest.0, rest.1)
                } else if j > i + 1 {
                    let fi = lines[i + 1].indent;
                    let sub = spec_parse_block(lines, i + 1, fi);
                    let item = NodeV::Dict(sub.0 + seq![(kv.0, NodeV::Value(kv.1))]);
                    let rest = spec_collect_list(lines, j, ci);
                    (seq![item] + rest.0, rest.1)
                } else {
                    let rest = spec_collect_list(lines, i + 1, ci);
                    (seq![NodeV::Value(item_text)] + rest.0, rest.1)
                }
            },
            None => {
                if j > i + 1 {
                    let fi = lines[i + 1].indent;
                    let sub = spec_parse_block(lines, i + 1, fi);
                    let item = NodeV::Dict(sub.0 + seq![("_value"@, NodeV::Value(item_text))]);
                    let rest = spec_collect_list(lines, j, ci);
                    (seq![item] + rest.0, rest.1)
                } else {
                    let rest = spec_collect_list(lines, i + 1, ci);
                    (seq![NodeV::Value(item_text)] + rest.0, rest.1)
                }
            },
        }
    } else {
        spec_collect_list(lines, i + 1, ci)
    }
}

proof fn lemma_pair_seq_insert_front(
    pre: Seq<(String, Node)>,
    post: Seq<(String, Node)>,
    k: Seq<char>,
    nv: NodeV,
)
    requires
        post.len() == pre.len() + 1,
        post[0].0@ == k,
        post[0].1@ == nv,
        forall|i: int| 1 <= i < post.len() ==> post[i] == pre[i - 1],
    ensures
        view_pair_seq(post) == seq![(k, nv)] + view_pair_seq(pre),
{
    lemma_view_pair_seq(pre);
    lemma_view_pair_seq(post);
    assert forall|i: int|
        0 <= i < post.len() implies view_pair_seq(post)[i] == (seq![(k, nv)] + view_pair_seq(
        pre,
    ))[i] by {
        assert(view_pair_seq(post)[i] == (post[i].0@, post[i].1@));
        if i >= 1 {
            assert(post[i] == pre[i - 1]);
            assert(view_pair_seq(pre)[i - 1] == (pre[i - 1].0@, pre[i - 1].1@));
        }
    }
    assert(view_pair_seq(post) =~= seq![(k, nv)] + view_pair_seq(pre));
}

proof fn lemma_node_seq_insert_front(pre: Seq<Node>, post: Seq<Node>, nv: NodeV)
    requires
        post.len() == pre.len() + 1,
        post[0]@ == nv,
        forall|i: int| 1 <= i < post.len() ==> post[i] == pre[i - 1],
    ensures
        view_node_seq(post) == seq![nv] + view_node_seq(pre),
{
    lemma_view_node_seq(pre);
    lemma_view_node_seq(post);
    assert forall|i: int|
        0 <= i < post.len() implies view_node_seq(post)[i] == (seq![nv] + view_node_seq(pre))[i] by {
        assert(view_node_seq(post)[i] == post[i]@);
        if i >= 1 {
            assert(post[i] == pre[i - 1]);
            assert(view_node_seq(pre)[i - 1] == pre[i - 1]@);
        }
    }
    assert(view_node_seq(post) =~= seq![nv] + view_node_seq(pre));
}

proof fn lemma_pair_seq_push(pre: Seq<(String, Node)>, post: Seq<(String, Node)>, k: Seq<char>, nv: NodeV)
    requires
        post.len() == pre.len() + 1,
        post.last().0@ == k,
        post.last().1@ == nv,
        forall|i: int| 0 <= i < pre.len() ==> post[i] == pre[i],
    ensures
        view_pair_seq(post) == view_pair_seq(pre) + seq![(k, nv)],
{
    assert(post.drop_last() =~= pre);
    assert(view_pair_seq(post) == view_pair_seq(post.drop_last()).push(
        (post.last().0@, post.last().1@),
    ));
    assert(view_pair_seq(pre).push((k, nv)) =~= view_pair_seq(pre) + seq![(k, nv)]);
}

proof fn lemma_skip_deeper_lb(lines: Seq<LineV>, j: int, ci: int)
    requires
        0 <= j,
    ensures
        skip_deeper(lines, j, ci) >= j,
    decreases lines.len() - j,
{
    if !(j >= lines.len() || lines[j].indent <= ci) {
        lemma_skip_deeper_lb(lines, j + 1, ci);
    }
}

/// Parses one run of `KEY: value` lines at indentation `base_indent`
/// into an ordered key-to-node table, returning the table and the
/// cursor of the first line past the run.
pub fn parse_block<'a>(lines: &Vec<Line<'a>>, start: usize, base_indent: usize) -> (r: (
    Vec<(String, Node)>,
    usize,
))
    requires
        start <= lines@.len(),
    ensures
        ({
            let s = spec_parse_block(lines.deep_view(), start as int, base_indent as int);
            view_pair_seq(r.0@) == s.0 && r.1 as int == s.1 && start <= r.1 <= lines@.len()
        }),
    decreases lines@.len() - start, 0int,
{
    let n = lines.len();
    proof {
        assert(lines.deep_view().len() == lines@.len());
        if start < n {
            assert(lines.deep_view()[start as int] == lines@[start as int]@);
        }
    }
    if start >= n || lines[start].indent < base_indent {
        (Vec::new(), start)
    } else if lines[start].indent > base_indent {
        let r = parse_block(lines, start + 1, base_indent);
        r
    } else {
        let kv = split_key_value(lines[start].content);
        proof {
            assert(lines.deep_view()[start as int].content == lines@[start as int].content@);
        }
        match kv {
            None => {
                let r = parse_block(lines, start + 1, base_indent);
                r
            },
            Some((k, v)) => {
                let ghost kk = k@;
                let ghost vv = v@;
                if v.as_str().unicode_len() > 0 {
                    let (mut rest, c) = parse_block(lines, start + 1, base_indent);
                    let ghost pre = rest@;
                    rest.insert(0, (k, Node::Value(v)));
                    proof {
                        lemma_pair_seq_insert_front(pre, rest@, kk, NodeV::Value(vv));
                    }
                    (rest, c)
                } else {
                    if start + 1 < n && lines[start + 1].indent > base_indent {
                        let ci = lines[start + 1].indent;
                        proof {
                            assert(lines.deep_view()[start + 1] == lines@[start + 1 as int]@);
                        }
                        let (child, c1) = collect_children(lines, start + 1, ci);
                        let ghost childv = child@;
                        let next = if c1 <= start {
                            start + 1
                        } else if c1 > n {
                            n
                        } else {
                            c1
                        };
                        let (mut rest, c) = parse_block(lines, next, base_indent);
                        let ghost pre = rest@;
                        rest.insert(0, (k, child));
                        proof {
                            lemma_pair_seq_insert_front(pre, rest@, kk, childv);
                        }
                        (rest, c)
                    } else {
                        let (mut rest, c) = parse_block(lines, start + 1, base_indent);
                        let ghost pre = rest@;
                        rest.insert(0, (k, Node::List(Vec::new())));
                        proof {
                            assert(view_node_seq(Seq::<Node>::empty()) =~= Seq::<NodeV>::empty());
                            lemma_pair_seq_insert_front(
                                pre,
                                rest@,
                                kk,
                                NodeV::List(Seq::empty()),
                            );
                        }
                        (rest, c)
                    }
                }
            },
        }
    }
}

/// Reads the nested block that a header line opened: a list when the
/// first line at the level carries the item marker, otherwise a table.
pub fn collect_children<'a>(lines: &Vec<Line<'a>>, start: usize, child_indent: usize) -> (r: (
    Node,
    usize,
))
    requires
        start <= lines@.len(),
    ensures
        ({
            let s = spec_collect_children(lines.deep_view(), start as int, child_indent as int);
            r.0@ == s.0 && r.1 as int == s.1 && start <= r.1 <= lines@.len()
        }),
    decreases lines@.len() - start, 2int,
{
    let n = lines.len();
    proof {
        assert(lines.deep_view().len() == lines@.len());
        if start < n {
            assert(lines.deep_view()[start as int] == lines@[start as int]@);
        }
    }
    if start >= n || lines[start].indent < child_indent {
        (Node::List(Vec::new()), start)
    } else if starts_with_dash_exec(lines[start].content) {
        let (items, c) = collect_list(lines, start, child_indent);
        (Node::List(items), c)
    } else {
        let (m, c) = parse_block(lines, start, child_indent);
        (Node::Dict(m), c)
    }
}

/// Reads the items of a list block, one per marker line at the level.
fn collect_list<'a>(lines: &Vec<Line<'a>>, start: usize, child_indent: usize) -> (r: (
    Vec<Node>,
    usize,
))
    requires
        start <= lines@.len(),
    ensures
        ({
            let s = spec_collect_list(lines.deep_view(), start as int, child_indent as int);
            view_node_seq(r.0@) == s.0 && r.1 as int == s.1 && start <= r.1 <= lines@.len()
        }),
    decreases lines@.len() - start, 1int,
{
    let n = lines.len();
    let ghost dv = lines.deep_view();
    proof {
        assert(dv.len() == lines@.len());
        if start < n {
            assert(dv[start as int] == lines@[start as int]@);
        }
    }
    if start >= n || lines[start].indent < child_indent {
        (Vec::new(), start)
    } else if lines[start].indent == child_indent && starts_with_dash_exec(lines[start].content) {
        let c = lines[start].content;
        let item_text = trim_str(c.substring_char(2, c.unicode_len()));
        proof {
            assert(item_text@ == trim_spec(dv[start as int].content.subrange(
                2,
                dv[start as int].content.len() as int,
            )));
        }
        let j = skip_deeper_exec(lines, start + 1, child_indent);
        proof {
            if start + 1 < n {
                assert(dv[start + 1] == lines@[start + 1 as int]@);
            }
        }
        let kv = split_key_value(item_text);
        let is_place = match &kv {
            Some(p) => crate::text::str_eq(p.0.as_str(), "PLACE"),
            None => false,
        };
        match kv {
            Some((k, v)) => {
                let ghost kk = k@;
                let ghost vv = v@;
                if is_place {
                    let mut sub: Vec<(String, Node)>;
                    if j > start + 1 {
                        let fi = lines[start + 1].indent;
                        let (s0, _c0) = parse_block(lines, start + 1, fi);
                        sub = s0;
                    } else {
                        sub = Vec::new();
                        proof {
                            lemma_skip_deeper_lb(dv, start + 2, child_indent as int);
                            if start + 1 < dv.len() {
                                assert(dv[start + 1].indent <= child_indent as int);
                            }
                            assert(spec_parse_block(dv, start + 1, child_indent as int + 2)
                                == (Seq::<(Seq<char>, NodeV)>::empty(), start + 1 as int));
                        }
                    }
                    let ghost subv = view_pair_seq(sub@);
                    let ghost pre_sub = sub@;
                    sub.push((k, Node::Value(v)));
                    proof {
                        lemma_pair_seq_push(pre_sub, sub@, kk, NodeV::Value(vv));
                    }
                    let item = Node::Dict(sub);
                    let ghost itemv = item@;
                    let (mut rest, cend) = collect_list(lines, j, child_indent);
                    let ghost pre = rest@;
                    rest.insert(0, item);
                    proof {
                        lemma_node_seq_insert_front(pre, rest@, itemv);
                    }
                    (rest, cend)
                } else if j > start + 1 {
                    let fi = lines[start + 1].indent;
                    let (mut sub, _c0) = parse_block(lines, start + 1, fi);
                    let ghost subv = view_pair_seq(sub@);
                    let ghost pre_sub = sub@;
                    sub.push((k, Node::Value(v)));
                    proof {
                        lemma_pair_seq_push(pre_sub, sub@, kk, NodeV::Value(vv));
                    }
                    let item = Node::Dict(sub);
                    let ghost itemv = item@;
                    let (mut rest, cend) = collect_list(lines, j, child_indent);
                    let ghost pre = rest@;
                    rest.insert(0, item);
                    proof {
                        lemma_node_seq_insert_front(pre, rest@, itemv);
                    }
                    (rest, cend)
                } else {
                    let item = Node::Value(String::from_str(item_text));
                    let ghost itemv = item@;
                    let (mut rest, cend) = collect_list(lines, start + 1, child_indent);
                    let ghost pre = rest@;
                    rest.insert(0, item);
                    proof {
                        lemma_node_seq_insert_front(pre, rest@, itemv);
                    }
                    (rest, cend)
                }
            },
            None => {
                if j > start + 1 {
                    let fi = lines[start + 1].indent;
                    let (mut sub, _c0) = parse_block(lines, start + 1, fi);
                    let ghost subv = view_pair_seq(sub@);
                    let ghost pre_sub = sub@;
                    sub.push((String::from_str("_value"), Node::Value(String::from_str(item_text))));
                    proof {
                        lemma_pair_seq_push(pre_sub, sub@, "_value"@, NodeV::Value(item_text@));
                    }
                    let item = Node::Dict(sub);
                    let ghost itemv = item@;
                    let (mut rest, cend) = collect_list(lines, j, child_indent);
                    let ghost pre = rest@;
                    rest.insert(0, item);
                    proof {
                        lemma_node_seq_insert_front(pre, rest@, itemv);
                    }
                    (rest, cend)
                } else {
                    let item = Node::Value(String::from_str(item_text));
                    let ghost itemv = item@;
                    let (mut rest, cend) = collect_list(lines, start + 1, child_indent);
                    let ghost pre = rest@;
                    rest.insert(0, item);
                    proof {
                        lemma_node_seq_insert_front(pre, rest@, itemv);
                    }
                    (rest, cend)
                }
            },
        }
    } else {
        let r = collect_list(lines, start + 1, child_indent);
        r
    }
}

/// The scalar text a node carries; empty for lists and tables.
pub open spec fn node_text(n: NodeV) -> Seq<char> {
    match n {
        NodeV::Value(s) => s,
        _ => Seq::empty(),
    }
}

/// The string list a node denotes: the items of a list, a lone scalar
/// as a one-element list, nothing for a table.
pub open spec fn node_texts(n: NodeV) -> Seq<Seq<char>> {
    match n {
        NodeV::List(items) => Seq::new(items.len(), |i: int| node_text(items[i])),
        NodeV::Value(s) => seq![s],
        NodeV::Dict(_) => Seq::empty(),
    }
}

/// `m` with the binding for `k` replaced, or appended when absent.
pub open spec fn dict_set(
    m: Seq<(Seq<char>, Seq<char>)>,
    k: Seq<char>,
    v: Seq<char>,
) -> Seq<(Seq<char>, Seq<char>)>
    decreases m.len(),
{
    if m.len() == 0 {
        seq![(k, v)]
    } else if m.first().0 == k {
        seq![(k, v)] + m.drop_first()
    } else {
        seq![m.first()] + dict_set(m.drop_first(), k, v)
    }
}

/// The string map a node denotes: each table entry's scalar text, a
/// later binding replacing an earlier one; nothing for other shapes.
pub open spec fn node_entries_fold(es: Seq<(Seq<char>, NodeV)>) -> Seq<(Seq<char>, Seq<char>)>
    decreases es,
{
    if es.len() == 0 {
        Seq::empty()
    } else {
        dict_set(node_entries_fold(es.drop_last()), es.last().0, node_text(es.last().1))
    }
}

/// The string map a node denotes.
pub open spec fn node_entries(n: NodeV) -> Seq<(Seq<char>, Seq<char>)> {
    match n {
        NodeV::Dict(es) => node_entries_fold(es),
        _ => Seq::empty(),
    }
}

proof fn lemma_dict_set_found(m: Seq<(Seq<char>, Seq<char>)>, k: Seq<char>, v: Seq<char>, i: int)
    requires
        0 <= i < m.len(),
        m[i].0 == k,
        forall|j: int| 0 <= j < i ==> m[j].0 != k,
    ensures
        dict_set(m, k, v) == m.update(i, (k, v)),
    decreases i,
{
    if i == 0 {
        assert(dict_set(m, k, v) == seq![(k, v)] + m.drop_first());
        assert(seq![(k, v)] + m.drop_first() =~= m.update(0, (k, v)));
    } else {
        assert(m.drop_first()[i - 1].0 == k);
        assert forall|j: int| 0 <= j < i - 1 implies m.drop_first()[j].0 != k by {
            assert(m.drop_first()[j] == m[j + 1]);
        }
        lemma_dict_set_found(m.drop_first(), k, v, i - 1);
        assert(dict_set(m, k, v) == seq![m.first()] + m.drop_first().update(i - 1, (k, v)));
        assert(seq![m.first()] + m.drop_first().update(i - 1, (k, v)) =~= m.update(i, (k, v)));
    }
}

proof fn lemma_dict_set_missing(m: Seq<(Seq<char>, Seq<char>)>, k: Seq<char>, v: Seq<char>)
    requires
        forall|j: int| 0 <= j < m.len() ==> m[j].0 != k,
    ensures
        dict_set(m, k, v) == m.push((k, v)),
    decreases m.len(),
{
    if m.len() == 0 {
        assert(dict_set(m, k, v) =~= m.push((k, v)));
    } else {
        assert forall|j: int| 0 <= j < m.drop_first().len() implies m.drop_first()[j].0 != k by {
            assert(m.drop_first()[j] == m[j + 1]);
        }
        lemma_dict_set_missing(m.drop_first(), k, v);
        assert(dict_set(m, k, v) == seq![m.first()] + m.drop_first().push((k, v)));
        assert(seq![m.first()] + m.drop_first().push((k, v)) =~= m.push((k, v)));
    }
}

/// The scalar text of a node, cloned out; empty for lists and tables.
pub fn node_to_string(n: &Node) -> (r: String)
    ensures
        r@ == node_text(n@),
{
    match n {
        Node::Value(s) => s.clone(),
        _ => String::new(),
    }
}

/// The optional scalar a node carries.
fn node_opt_string(n: &Node) -> (r: Option<String>)
    ensures
        r.deep_view() == (match n@ {
            NodeV::Value(s) => Some(s),
            _ => None::<Seq<char>>,
        }),
{
    match n {
        Node::Value(s) => Some(s.clone()),
        _ => None,
    }
}

/// The string list a node denotes.
pub fn node_to_vec_string(n: &Node) -> (r: Vec<String>)
    ensures
        r.deep_view() == node_texts(n@),
{
    match n {
        Node::List(items) => {
            let mut out: Vec<String> = Vec::new();
            let ghost vns = view_node_seq(items@);
            proof {
                lemma_view_node_seq(items@);
            }
            let mut j: usize = 0;
            while j < items.len()
                invariant
                    0 <= j <= items@.len(),
                    vns == view_node_seq(items@),
                    vns.len() == items@.len(),
                    out@.len() == j,
                    forall|i: int| 0 <= i < items@.len() ==> vns[i] == #[trigger] items@[i]@,
                    forall|i: int|
                        0 <= i < j ==> #[trigger] out.deep_view()[i] == node_text(vns[i]),
                decreases items@.len() - j,
            {
                let ghost pre_at = out@;
                let ghost pre_dv = out.deep_view();
                let s = node_to_string(&items[j]);
                out.push(s);
                proof {
                    assert forall|i: int| 0 <= i < j + 1 implies #[trigger] out.deep_view()[i]
                        == node_text(vns[i]) by {
                        if i < j {
                            assert(out@[i] == pre_at[i]);
                            assert(pre_dv[i] == node_text(vns[i]));
                            assert(pre_dv[i] == pre_at[i]@);
                        }
                    }
                }
                j = j + 1;
            }
            proof {
                assert(out.deep_view() =~= node_texts(n@));
            }
            out
        },
        Node::Value(s) => {
            let mut out: Vec<String> = Vec::new();
            out.push(s.clone());
            proof {
                assert(out.deep_view() =~= seq![s@]);
            }
            out
        },
        Node::Dict(_) => {
            let out: Vec<String> = Vec::new();
            proof {
                assert(out.deep_view() =~= Seq::<Seq<char>>::empty());
            }
            out
        },
    }
}

/// Replaces the binding for `k` in `m`, or appends it when absent.
fn dict_set_exec(m: &mut Vec<(String, String)>, k: String, v: String)
    ensures
        final(m).deep_view() == dict_set(old(m).deep_view(), k@, v@),
{
    let ghost orig = m.deep_view();
    let n = m.len();
    let mut i: usize = 0;
    while i < n && !crate::text::str_eq(m[i].0.as_str(), k.as_str())
        invariant
            0 <= i <= n,
            n == m@.len(),
            m.deep_view() == orig,
            forall|j: int| 0 <= j < i ==> #[trigger] orig[j].0 != k@,
        decreases n - i,
    {
        proof {
            assert(orig[i as int] == (m@[i as int].0@, m@[i as int].1@));
        }
        i = i + 1;
    }
    if i < n {
        proof {
            assert(orig[i as int] == (m@[i as int].0@, m@[i as int].1@));
            lemma_dict_set_found(orig, k@, v@, i as int);
        }
        let ghost pre_at = m@;
        m.remove(i);
        m.insert(i, (k, v));
        proof {
            assert(m@ =~= pre_at.update(i as int, (m@[i as int].0, m@[i as int].1)));
            assert forall|j: int| 0 <= j < m@.len() implies #[trigger] m.deep_view()[j]
                == orig.update(i as int, (k@, v@))[j] by {
                if j != i {
                    assert(m@[j] == pre_at[j]);
                    assert(orig[j] == (pre_at[j].0@, pre_at[j].1@));
                }
            }
            assert(m.deep_view() =~= orig.update(i as int, (k@, v@)));
        }
    } else {
        proof {
            lemma_dict_set_missing(orig, k@, v@);
        }
        let ghost pre_at = m@;
        m.push((k, v));
        proof {
            assert forall|j: int| 0 <= j < m@.len() implies #[trigger] m.deep_view()[j]
                == orig.push((k@, v@))[j] by {
                if j < pre_at.len() {
                    assert(m@[j] == pre_at[j]);
                    assert(orig[j] == (pre_at[j].0@, pre_at[j].1@));
                }
            }
            assert(m.deep_view() =~= orig.push((k@, v@)));
        }
    }
}

/// The string map a node denotes, later bindings replacing earlier.
pub fn node_to_map_string(n: &Node) -> (r: Vec<(String, String)>)
    ensures
        r.deep_view() == node_entries(n@),
{
    match n {
        Node::Dict(es) => {
            let mut out: Vec<(String, String)> = Vec::new();
            let ghost vps = view_pair_seq(es@);
            proof {
                lemma_view_pair_seq(es@);
                assert(vps.subrange(0, 0) =~= Seq::<(Seq<char>, NodeV)>::empty());
            }
            let mut j: usize = 0;
            while j < es.len()
                invariant
                    0 <= j <= es@.len(),
                    vps == view_pair_seq(es@),
                    vps.len() == es@.len(),
                    forall|i: int|
                        0 <= i < es@.len() ==> vps[i] == (#[trigger] es@[i].0@, es@[i].1@),
                    out.deep_view() == node_entries_fold(vps.subrange(0, j as int)),
                decreases es@.len() - j,
            {
                let kk = es[j].0.clone();
                let vv = node_to_string(&es[j].1);
                dict_set_exec(&mut out, kk, vv);
                proof {
                    let pre = vps.subrange(0, j as int);
                    let cur = vps.subrange(0, j + 1 as int);
                    assert(cur.drop_last() =~= pre);
                    assert(cur.last() == vps[j as int]);
                    assert(node_entries_fold(cur) == dict_set(
                        node_entries_fold(pre),
                        vps[j as int].0,
                        node_text(vps[j as int].1),
                    ));
                    assert(es@[j as int].1@ == vps[j as int].1);
                }
                j = j + 1;
            }
            proof {
                assert(vps.subrange(0, es@.len() as int) =~= vps);
            }
            out
        },
        _ => {
            let out: Vec<(String, String)> = Vec::new();
            proof {
                assert(out.deep_view() =~= Seq::<(Seq<char>, Seq<char>)>::empty());
            }
            out
        },
    }
}

/// A structural copy of a node.
#[verifier::loop_isolation(false)]
fn clone_node(n: &Node) -> (r: Node)
    ensures
        r@ == n@,
    decreases n,
{
    match n {
        Node::Value(s) => Node::Value(s.clone()),
        Node::List(items) => {
            let mut out: Vec<Node> = Vec::new();
            let ghost vns = view_node_seq(items@);
            proof {
                lemma_view_node_seq(items@);
            }
            let mut j: usize = 0;
            while j < items.len()
                invariant
                    0 <= j <= items@.len(),
                    vns == view_node_seq(items@),
                    vns.len() == items@.len(),
                    out@.len() == j,
                    forall|i: int| 0 <= i < items@.len() ==> vns[i] == #[trigger] items@[i]@,
                    forall|i: int| 0 <= i < j ==> #[trigger] out@[i]@ == vns[i],
                decreases items@.len() - j,
            {
                let ghost pre_at = out@;
                let c = clone_node(&items[j]);
                out.push(c);
                proof {
                    assert forall|i: int| 0 <= i < j + 1 implies #[trigger] out@[i]@ == vns[i] by {
                        if i < j {
                            assert(out@[i] == pre_at[i]);
                        }
                    }
                }
                j = j + 1;
            }
            proof {
                lemma_view_node_seq(out@);
                assert forall|i: int| 0 <= i < out@.len() implies view_node_seq(out@)[i]
                    == vns[i] by {
                    assert(view_node_seq(out@)[i] == out@[i]@);
                }
                assert(view_node_seq(out@) =~= vns);
            }
            Node::List(out)
        },
        Node::Dict(es) => {
            let mut out: Vec<(String, Node)> = Vec::new();
            let ghost vps = view_pair_seq(es@);
            proof {
                lemma_view_pair_seq(es@);
            }
            let mut j: usize = 0;
            while j < es.len()
                invariant
                    0 <= j <= es@.len(),
                    vps == view_pair_seq(es@),
                    vps.len() == es@.len(),
                    out@.len() == j,
                    forall|i: int|
                        0 <= i < es@.len() ==> vps[i] == (#[trigger] es@[i].0@, es@[i].1@),
                    forall|i: int|
                        0 <= i < j ==> (#[trigger] out@[i].0@, out@[i].1@) == vps[i],
                decreases es@.len() - j,
            {
                let ghost pre_at = out@;
                let kk = es[j].0.clone();
                let c = clone_node(&es[j].1);
                out.push((kk, c));
                proof {
                    assert forall|i: int|
                        0 <= i < j + 1 implies (#[trigger] out@[i].0@, out@[i].1@) == vps[i] by {
                        if i < j {
                            assert(out@[i] == pre_at[i]);
                        }
                    }
                }
                j = j + 1;
            }
            proof {
                lemma_view_pair_seq(out@);
                assert forall|i: int| 0 <= i < out@.len() implies view_pair_seq(out@)[i]
                    == vps[i] by {
                    assert(view_pair_seq(out@)[i] == (out@[i].0@, out@[i].1@));
                }
                assert(view_pair_seq(out@) =~= vps);
            }
            Node::Dict(out)
        },
    }
}

/// The optional scalar a node carries.
pub open spec fn opt_of_node(n: NodeV) -> Option<Seq<char>> {
    match n {
        NodeV::Value(s) => Some(s),
        _ => None,
    }
}

/// Coordinates of a boundary list: entries that fail coordinate
/// parsing are dropped one by one.
pub open spec fn boundary_of(items: Seq<NodeV>) -> Seq<crate::models::CoordinateV>
    decreases items,
{
    if items.len() == 0 {
        Seq::empty()
    } else {
        let pre = boundary_of(items.drop_last());
        match items.last() {
            NodeV::Value(v) => match coordinate_of(v) {
                Some(c) => pre.push(c),
                None => pre,
            },
            _ => pre,
        }
    }
}

/// The history records of a list: a table item in full, a bare
/// `key: value` item as a one-entry record, anything else dropped.
pub open spec fn history_of(items: Seq<NodeV>) -> Seq<Seq<(Seq<char>, Seq<char>)>>
    decreases items,
{
    if items.len() == 0 {
        Seq::empty()
    } else {
        let pre = history_of(items.drop_last());
        match items.last() {
            NodeV::Dict(es) => pre.push(node_entries_fold(es)),
            NodeV::Value(v) => match split_kv(v) {
                Some(kv) => pre.push(seq![kv]),
                None => pre,
            },
            _ => pre,
        }
    }
}

/// The viewsheds field a node denotes: items for a list or lone
/// scalar, entries for a table.
pub open spec fn viewsheds_of(n: NodeV) -> crate::models::ViewshedsV {
    match n {
        NodeV::Dict(_) => crate::models::ViewshedsV::Entries(node_entries(n)),
        _ => crate::models::ViewshedsV::Items(node_texts(n)),
    }
}

/// The open table with the binding for `k` replaced, or appended.
pub open spec fn extra_set(
    m: Seq<(Seq<char>, NodeV)>,
    k: Seq<char>,
    n: NodeV,
) -> Seq<(Seq<char>, NodeV)>
    decreases m.len(),
{
    if m.len() == 0 {
        seq![(k, n)]
    } else if m.first().0 == k {
        seq![(k, n)] + m.drop_first()
    } else {
        seq![m.first()] + extra_set(m.drop_first(), k, n)
    }
}

/// One raw field applied to a place under construction: a known key
/// sets its typed field from the node's shape, any other key is kept
/// verbatim in the open `extra` table.
pub open spec fn apply_entry(acc: crate::models::PlaceV, k: Seq<char>, n: NodeV)
    -> crate::models::PlaceV
    decreases n,
{
    if k == "PLACE"@ {
        crate::models::PlaceV { place: node_text(n), ..acc }
    } else if k == "TYPE"@ {
        crate::models::PlaceV { type_: node_text(n), ..acc }
    } else if k == "ID"@ {
        crate::models::PlaceV { id: opt_of_node(n), ..acc }
    } else if k == "LOCATION"@ {
        crate::models::PlaceV {
            location: match n {
                NodeV::Value(v) => coordinate_of(v),
                _ => None,
            },
            ..acc
        }
    } else if k == "BOUNDARY"@ {
        crate::models::PlaceV {
            boundary: match n {
                NodeV::List(items) => boundary_of(items),
                _ => Seq::empty(),
            },
            ..acc
        }
    } else if k == "EXTENT"@ {
        crate::models::PlaceV {
            extent: match n {
                NodeV::Value(v) => extent_of(v),
                _ => None,
            },
            ..acc
        }
    } else if k == "ELEVATION"@ {
        crate::models::PlaceV { elevation: opt_of_node(n), ..acc }
    } else if k == "AREA"@ {
        crate::models::PlaceV { area: opt_of_node(n), ..acc }
    } else if k == "PURPOSE"@ {
        crate::models::PlaceV { purpose: node_texts(n), ..acc }
    } else if k == "EXPERIENCE"@ {
        crate::models::PlaceV { experience: node_entries(n), ..acc }
    } else if k == "CHARACTER"@ {
        crate::models::PlaceV { character: node_texts(n), ..acc }
    } else if k == "ADJACENCIES"@ {
        crate::models::PlaceV { adjacencies: node_texts(n), ..acc }
    } else if k == "CONNECTIVITY"@ {
        crate::models::PlaceV { connectivity: node_entries(n), ..acc }
    } else if k == "CONTAINS"@ {
        crate::models::PlaceV {
            contains: match n {
                NodeV::List(items) => build_children(items),
                _ => Seq::empty(),
            },
            ..acc
        }
    } else if k == "PART_OF"@ {
        crate::models::PlaceV { part_of: opt_of_node(n), ..acc }
    } else if k == "VIEWSHEDS"@ {
        crate::models::PlaceV { viewsheds: viewsheds_of(n), ..acc }
    } else if k == "TEMPORAL"@ {
        crate::models::PlaceV { temporal: node_entries(n), ..acc }
    } else if k == "LIFESPAN"@ {
        crate::models::PlaceV { lifespan: node_entries(n), ..acc }
    } else if k == "SOURCE"@ {
        crate::models::PlaceV { source: node_texts(n), ..acc }
    } else if k == "CONFIDENCE"@ {
        crate::models::PlaceV { confidence: node_entries(n), ..acc }
    } else if k == "UPDATED"@ {
        crate::models::PlaceV { updated: opt_of_node(n), ..acc }
    } else if k == "BUILT_FORM"@ {
        crate::models::PlaceV { built_form: node_entries(n), ..acc }
    } else if k == "ECOLOGY"@ {
        crate::models::PlaceV { ecology: node_entries(n), ..acc }
    } else if k == "INFRASTRUCTURE"@ {
        crate::models::PlaceV { infrastructure: node_entries(n), ..acc }
    } else if k == "DEMOGRAPHICS"@ {
        crate::models::PlaceV { demographics: node_entries(n), ..acc }
    } else if k == "ECONOMY"@ {
        crate::models::PlaceV { economy: node_entries(n), ..acc }
    } else if k == "VISUAL"@ {
        crate::models::PlaceV { visual: node_entries(n), ..acc }
    } else if k == "HISTORY"@ {
        crate::models::PlaceV {
            history: match n {
                NodeV::List(items) => history_of(items),
                _ => Seq::empty(),
            },
            ..acc
        }
    } else if k == "VERTICAL_PROFILE"@ {
        crate::models::PlaceV { vertical_profile: node_entries(n), ..acc }
    } else {
        crate::models::PlaceV { extra: extra_set(acc.extra, k, n), ..acc }
    }
}

/// The typed place a raw table denotes, its fields applied in line
/// order, later occurrences of a key replacing earlier ones.
pub open spec fn build_place(raw: Seq<(Seq<char>, NodeV)>) -> crate::models::PlaceV
    decreases raw, 1int,
{
    if raw.len() == 0 {
        crate::models::empty_place_v()
    } else {
        apply_entry(build_place(raw.drop_last()), raw.last().0, raw.last().1)
    }
}

/// The child places of a containment list: a table item is rebuilt
/// recursively, a bare scalar becomes a placeholder child with only
/// the name set.
pub open spec fn build_children(items: Seq<NodeV>) -> Seq<crate::models::PlaceV>
    decreases items, 1int,
{
    if items.len() == 0 {
        Seq::empty()
    } else {
        let pre = build_children(items.drop_last());
        match items.last() {
            NodeV::Dict(es) => pre.push(build_place(es)),
            NodeV::Value(s) => pre.push(
                crate::models::PlaceV { place: s, ..crate::models::empty_place_v() },
            ),
            _ => pre,
        }
    }
}

/// The place a whole document denotes.
pub open spec fn spec_parse(t: Seq<char>) -> crate::models::PlaceV {
    let toks = tokenize_spec(t);
    if toks.len() == 0 {
        crate::models::empty_place_v()
    } else {
        build_place(spec_parse_block(toks, 0, 0).0)
    }
}

/// Replaces the binding for `k` in the open table, or appends it.
fn extra_set_exec(m: &mut Vec<(String, Node)>, k: String, n: Node)
    ensures
        view_pair_seq(final(m)@) == extra_set(view_pair_seq(old(m)@), k@, n@),
{
    let ghost orig = view_pair_seq(old(m)@);
    proof {
        lemma_view_pair_seq(m@);
    }
    let cnt = m.len();
    let mut i: usize = 0;
    while i < cnt && !crate::text::str_eq(m[i].0.as_str(), k.as_str())
        invariant
            0 <= i <= cnt,
            cnt == m@.len(),
            m@ == old(m)@,
            orig == view_pair_seq(m@),
            orig.len() == m@.len(),
            forall|j: int| 0 <= j < m@.len() ==> orig[j] == (#[trigger] m@[j].0@, m@[j].1@),
            forall|j: int| 0 <= j < i ==> #[trigger] orig[j].0 != k@,
        decreases cnt - i,
    {
        i = i + 1;
    }
    let ghost kk = k@;
    let ghost nv = n@;
    if i < cnt {
        proof {
            lemma_extra_set_found(orig, kk, nv, i as int);
        }
        let ghost pre_at = m@;
        m.remove(i);
        m.insert(i, (k, n));
        proof {
            lemma_view_pair_seq(m@);
            assert forall|j: int| 0 <= j < m@.len() implies #[trigger] view_pair_seq(m@)[j]
                == orig.update(i as int, (kk, nv))[j] by {
                assert(view_pair_seq(m@)[j] == (m@[j].0@, m@[j].1@));
                if j != i {
                    assert(m@[j] == pre_at[j]);
                }
            }
            assert(view_pair_seq(m@) =~= orig.update(i as int, (kk, nv)));
        }
    } else {
        proof {
            lemma_extra_set_missing(orig, kk, nv);
        }
        let ghost pre_at = m@;
        m.push((k, n));
        proof {
            lemma_view_pair_seq(m@);
            assert forall|j: int| 0 <= j < m@.len() implies #[trigger] view_pair_seq(m@)[j]
                == orig.push((kk, nv))[j] by {
                assert(view_pair_seq(m@)[j] == (m@[j].0@, m@[j].1@));
                if j < pre_at.len() {
                    assert(m@[j] == pre_at[j]);
                }
            }
            assert(view_pair_seq(m@) =~= orig.push((kk, nv)));
        }
    }
}

proof fn lemma_extra_set_found(m: Seq<(Seq<char>, NodeV)>, k: Seq<char>, n: NodeV, i: int)
    requires
        0 <= i < m.len(),
        m[i].0 == k,
        forall|j: int| 0 <= j < i ==> m[j].0 != k,
    ensures
        extra_set(m, k, n) == m.update(i, (k, n)),
    decreases i,
{
    if i == 0 {
        assert(extra_set(m, k, n) == seq![(k, n)] + m.drop_first());
        assert(seq![(k, n)] + m.drop_first() =~= m.update(0, (k, n)));
    } else {
        assert(m.drop_first()[i - 1].0 == k);
        assert forall|j: int| 0 <= j < i - 1 implies m.drop_first()[j].0 != k by {
            assert(m.drop_first()[j] == m[j + 1]);
        }
        lemma_extra_set_found(m.drop_first(), k, n, i - 1);
        assert(extra_set(m, k, n) == seq![m.first()] + m.drop_first().update(i - 1, (k, n)));
        assert(seq![m.first()] + m.drop_first().update(i - 1, (k, n)) =~= m.update(i, (k, n)));
    }
}

proof fn lemma_extra_set_missing(m: Seq<(Seq<char>, NodeV)>, k: Seq<char>, n: NodeV)
    requires
        forall|j: int| 0 <= j < m.len() ==> m[j].0 != k,
    ensures
        extra_set(m, k, n) == m.push((k, n)),
    decreases m.len(),
{
    if m.len() == 0 {
        assert(extra_set(m, k, n) =~= m.push((k, n)));
    } else {
        assert forall|j: int| 0 <= j < m.drop_first().len() implies m.drop_first()[j].0 != k by {
            assert(m.drop_first()[j] == m[j + 1]);
        }
        lemma_extra_set_missing(m.drop_first(), k, n);
        assert(extra_set(m, k, n) == seq![m.first()] + m.drop_first().push((k, n)));
        assert(seq![m.first()] + m.drop_first().push((k, n)) =~= m.push((k, n)));
    }
}

/// The boundary coordinates of a list node's items.
fn boundary_exec(items: &Vec<Node>) -> (r: Vec<crate::models::Coordinate>)
    ensures
        r.deep_view() == boundary_of(view_node_seq(items@)),
{
    let ghost vns = view_node_seq(items@);
    proof {
        lemma_view_node_seq(items@);
        assert(vns.subrange(0, 0) =~= Seq::<NodeV>::empty());
    }
    let mut out: Vec<crate::models::Coordinate> = Vec::new();
    let mut j: usize = 0;
    while j < items.len()
        invariant
            0 <= j <= items@.len(),
            vns == view_node_seq(items@),
            vns.len() == items@.len(),
            forall|i: int| 0 <= i < items@.len() ==> vns[i] == #[trigger] items@[i]@,
            out.deep_view() == boundary_of(vns.subrange(0, j as int)),
        decreases items@.len() - j,
    {
        let ghost pre_at = out@;
        let ghost pre_dv = out.deep_view();
        match &items[j] {
            Node::Value(v) => {
                match parse_coordinate(v.as_str()) {
                    Some(c) => {
                        out.push(c);
                        proof {
                            assert forall|i: int|
                                0 <= i < out@.len() implies #[trigger] out.deep_view()[i]
                                == pre_dv.push(coordinate_of(v@).unwrap())[i] by {
                                if i < pre_at.len() {
                                    assert(out@[i] == pre_at[i]);
                                    assert(pre_dv[i] == pre_at[i]@);
                                }
                            }
                            assert(out.deep_view() =~= pre_dv.push(coordinate_of(v@).unwrap()));
                        }
                    },
                    None => {},
                }
            },
            _ => {},
        }
        proof {
            let pre = vns.subrange(0, j as int);
            let cur = vns.subrange(0, j + 1 as int);
            assert(cur.drop_last() =~= pre);
            assert(cur.last() == vns[j as int]);
            assert(vns[j as int] == items@[j as int]@);
            assert(out.deep_view() == boundary_of(cur));
        }
        j = j + 1;
    }
    proof {
        assert(vns.subrange(0, items@.len() as int) =~= vns);
    }
    out
}

/// The history records of a list node's items.
fn history_exec(items: &Vec<Node>) -> (r: Vec<Vec<(String, String)>>)
    ensures
        r.deep_view() == history_of(view_node_seq(items@)),
{
    let ghost vns = view_node_seq(items@);
    proof {
        lemma_view_node_seq(items@);
        assert(vns.subrange(0, 0) =~= Seq::<NodeV>::empty());
    }
    let mut out: Vec<Vec<(String, String)>> = Vec::new();
    let mut j: usize = 0;
    while j < items.len()
        invariant
            0 <= j <= items@.len(),
            vns == view_node_seq(items@),
            vns.len() == items@.len(),
            forall|i: int| 0 <= i < items@.len() ==> vns[i] == #[trigger] items@[i]@,
            out.deep_view() == history_of(vns.subrange(0, j as int)),
        decreases items@.len() - j,
    {
        let ghost pre_at = out@;
        let ghost pre_dv = out.deep_view();
        match &items[j] {
            Node::Dict(_) => {
                let rec = node_to_map_string(&items[j]);
                let ghost recv = rec.deep_view();
                out.push(rec);
                proof {
                    assert forall|i: int| 0 <= i < out@.len() implies #[trigger] out.deep_view()[i]
                        == pre_dv.push(recv)[i] by {
                        if i < pre_at.len() {
                            assert(out@[i] == pre_at[i]);
                            assert(pre_dv[i] == pre_at[i].deep_view());
                        }
                    }
                    assert(out.deep_view() =~= pre_dv.push(recv));
                }
            },
            Node::Value(v) => {
                match split_key_value(v.as_str()) {
                    Some((k, w)) => {
                        let ghost kk = k@;
                        let ghost ww = w@;
                        let mut rec: Vec<(String, String)> = Vec::new();
                        rec.push((k, w));
                        let ghost recv = rec.deep_view();
                        out.push(rec);
                        proof {
                            assert(recv =~= seq![(kk, ww)]);
                            assert forall|i: int|
                                0 <= i < out@.len() implies #[trigger] out.deep_view()[i]
                                == pre_dv.push(recv)[i] by {
                                if i < pre_at.len() {
                                    assert(out@[i] == pre_at[i]);
                                    assert(pre_dv[i] == pre_at[i].deep_view());
                                }
                            }
                            assert(out.deep_view() =~= pre_dv.push(recv));
                        }
                    },
                    None => {},
                }
            },
            _ => {},
        }
        proof {
            let pre = vns.subrange(0, j as int);
            let cur = vns.subrange(0, j + 1 as int);
            assert(cur.drop_last() =~= pre);
            assert(cur.last() == vns[j as int]);
            assert(vns[j as int] == items@[j as int]@);
            assert(out.deep_view() == history_of(cur));
        }
        j = j + 1;
    }
    proof {
        assert(vns.subrange(0, items@.len() as int) =~= vns);
    }
    out
}

/// One raw field applied to the place under construction.
#[verifier::loop_isolation(false)]
#[verifier::rlimit(100)]
fn apply_entry_exec(acc: crate::models::GeonPlace, k: &String, n: &Node) -> (r:
    crate::models::GeonPlace)
    ensures
        r@ == apply_entry(acc@, k@, n@),
    decreases n,
{
    let mut acc = acc;
    if crate::text::str_eq(k.as_str(), "PLACE") {
        acc.place = node_to_string(n);
    } else if crate::text::str_eq(k.as_str(), "TYPE") {
        acc.type_ = node_to_string(n);
    } else if crate::text::str_eq(k.as_str(), "ID") {
        acc.id = node_opt_string(n);
    } else if crate::text::str_eq(k.as_str(), "LOCATION") {
        acc.location = match n {
            Node::Value(v) => parse_coordinate(v.as_str()),
            _ => None,
        };
    } else if crate::text::str_eq(k.as_str(), "BOUNDARY") {
        acc.boundary = match n {
            Node::List(items) => boundary_exec(items),
            _ => Vec::new(),
        };
        proof {
            if !(n@ matches NodeV::List(_)) {
                assert(acc.boundary.deep_view() =~= Seq::<crate::models::CoordinateV>::empty());
            }
        }
    } else if crate::text::str_eq(k.as_str(), "EXTENT") {
        acc.extent = match n {
            Node::Value(v) => parse_extent(v.as_str()),
            _ => None,
        };
    } else if crate::text::str_eq(k.as_str(), "ELEVATION") {
        acc.elevation = node_opt_string(n);
    } else if crate::text::str_eq(k.as_str(), "AREA") {
        acc.area = node_opt_string(n);
    } else if crate::text::str_eq(k.as_str(), "PURPOSE") {
        acc.purpose = node_to_vec_string(n);
    } else if crate::text::str_eq(k.as_str(), "EXPERIENCE") {
        acc.experience = node_to_map_string(n);
    } else if crate::text::str_eq(k.as_str(), "CHARACTER") {
        acc.character = node_to_vec_string(n);
    } else if crate::text::str_eq(k.as_str(), "ADJACENCIES") {
        acc.adjacencies = node_to_vec_string(n);
    } else if crate::text::str_eq(k.as_str(), "CONNECTIVITY") {
        acc.connectivity = node_to_map_string(n);
    } else if crate::text::str_eq(k.as_str(), "CONTAINS") {
        acc.contains = match n {
            Node::List(items) => build_children_exec(items),
            _ => Vec::new(),
        };
        proof {
            if !(n@ matches NodeV::List(_)) {
                assert(crate::models::view_place_seq(acc.contains@)
                    =~= Seq::<crate::models::PlaceV>::empty());
            }
        }
    } else if crate::text::str_eq(k.as_str(), "PART_OF") {
        acc.part_of = node_opt_string(n);
    } else if crate::text::str_eq(k.as_str(), "VIEWSHEDS") {
        acc.viewsheds = match n {
            Node::Dict(_) => crate::models::Viewsheds::Entries(node_to_map_string(n)),
            _ => crate::models::Viewsheds::Items(node_to_vec_string(n)),
        };
    } else if crate::text::str_eq(k.as_str(), "TEMPORAL") {
        acc.temporal = node_to_map_string(n);
    } else if crate::text::str_eq(k.as_str(), "LIFESPAN") {
        acc.lifespan = node_to_map_string(n);
    } else if crate::text::str_eq(k.as_str(), "SOURCE") {
        acc.source = node_to_vec_string(n);
    } else if crate::text::str_eq(k.as_str(), "CONFIDENCE") {
        acc.confidence = node_to_map_string(n);
    } else if crate::text::str_eq(k.as_str(), "UPDATED") {
        acc.updated = node_opt_string(n);
    } else if crate::text::str_eq(k.as_str(), "BUILT_FORM") {
        acc.built_form = node_to_map_string(n);
    } else if crate::text::str_eq(k.as_str(), "ECOLOGY") {
        acc.ecology = node_to_map_string(n);
    } else if crate::text::str_eq(k.as_str(), "INFRASTRUCTURE") {
        acc.infrastructure = node_to_map_string(n);
    } else if crate::text::str_eq(k.as_str(), "DEMOGRAPHICS") {
        acc.demographics = node_to_map_string(n);
    } else if crate::text::str_eq(k.as_str(), "ECONOMY") {
        acc.economy = node_to_map_string(n);
    } else if crate::text::str_eq(k.as_str(), "VISUAL") {
        acc.visual = node_to_map_string(n);
    } else if crate::text::str_eq(k.as_str(), "HISTORY") {
        acc.history = match n {
            Node::List(items) => history_exec(items),
            _ => Vec::new(),
        };
        proof {
            if !(n@ matches NodeV::List(_)) {
                assert(acc.history.deep_view()
                    =~= Seq::<Seq<(Seq<char>, Seq<char>)>>::empty());
            }
        }
    } else if crate::text::str_eq(k.as_str(), "VERTICAL_PROFILE") {
        acc.vertical_profile = node_to_map_string(n);
    } else {
        let copy = clone_node(n);
        extra_set_exec(&mut acc.extra, k.clone(), copy);
    }
    acc
}

/// The child places of a containment list.
fn build_children_exec(items: &Vec<Node>) -> (r: Vec<crate::models::GeonPlace>)
    ensures
        crate::models::view_place_seq(r@) == build_children(view_node_seq(items@)),
    decreases items,
{
    let ghost vns = view_node_seq(items@);
    proof {
        lemma_view_node_seq(items@);
        assert(vns.subrange(0, 0) =~= Seq::<NodeV>::empty());
    }
    let mut out: Vec<crate::models::GeonPlace> = Vec::new();
    let mut j: usize = 0;
    while j < items.len()
        invariant
            0 <= j <= items@.len(),
            vns == view_node_seq(items@),
            vns.len() == items@.len(),
            forall|i: int| 0 <= i < items@.len() ==> vns[i] == #[trigger] items@[i]@,
            crate::models::view_place_seq(out@) == build_children(vns.subrange(0, j as int)),
        decreases items@.len() - j,
    {
        let ghost pre_at = out@;
        let ghost pre_pv = crate::models::view_place_seq(out@);
        match &items[j] {
            Node::Dict(es) => {
                let child = raw_to_place(es);
                let ghost cv = child@;
                out.push(child);
                proof {
                    crate::models::lemma_view_place_seq(out@);
                    crate::models::lemma_view_place_seq(pre_at);
                    assert forall|i: int|
                        0 <= i < out@.len() implies #[trigger] crate::models::view_place_seq(
                        out@,
                    )[i] == pre_pv.push(cv)[i] by {
                        assert(crate::models::view_place_seq(out@)[i] == out@[i]@);
                        if i < pre_at.len() {
                            assert(out@[i] == pre_at[i]);
                            assert(pre_pv[i] == pre_at[i]@);
                        }
                    }
                    assert(crate::models::view_place_seq(out@) =~= pre_pv.push(cv));
                }
            },
            Node::Value(s) => {
                let mut child = crate::models::GeonPlace::default();
                child.place = s.clone();
                let ghost cv = child@;
                out.push(child);
                proof {
                    assert(cv =~= (crate::models::PlaceV {
                        place: s@,
                        ..crate::models::empty_place_v()
                    }));
                    crate::models::lemma_view_place_seq(out@);
                    crate::models::lemma_view_place_seq(pre_at);
                    assert forall|i: int|
                        0 <= i < out@.len() implies #[trigger] crate::models::view_place_seq(
                        out@,
                    )[i] == pre_pv.push(cv)[i] by {
                        assert(crate::models::view_place_seq(out@)[i] == out@[i]@);
                        if i < pre_at.len() {
                            assert(out@[i] == pre_at[i]);
                            assert(pre_pv[i] == pre_at[i]@);
                        }
                    }
                    assert(crate::models::view_place_seq(out@) =~= pre_pv.push(cv));
                }
            },
            _ => {},
        }
        proof {
            let pre = vns.subrange(0, j as int);
            let cur = vns.subrange(0, j + 1 as int);
            assert(cur.drop_last() =~= pre);
            assert(cur.last() == vns[j as int]);
            assert(vns[j as int] == items@[j as int]@);
            assert(crate::models::view_place_seq(out@) == build_children(cur));
        }
        j = j + 1;
    }
    proof {
        assert(vns.subrange(0, items@.len() as int) =~= vns);
    }
    out
}

/// Rebuilds the typed place from one raw field table.
pub fn raw_to_place(raw: &Vec<(String, Node)>) -> (r: crate::models::GeonPlace)
    ensures
        r@ == build_place(view_pair_seq(raw@)),
    decreases raw,
{
    let ghost vps = view_pair_seq(raw@);
    proof {
        lemma_view_pair_seq(raw@);
        assert(vps.subrange(0, 0) =~= Seq::<(Seq<char>, NodeV)>::empty());
    }
    let mut acc = crate::models::GeonPlace::default();
    let mut i: usize = 0;
    while i < raw.len()
        invariant
            0 <= i <= raw@.len(),
            vps == view_pair_seq(raw@),
            vps.len() == raw@.len(),
            forall|j: int| 0 <= j < raw@.len() ==> vps[j] == (#[trigger] raw@[j].0@, raw@[j].1@),
            acc@ == build_place(vps.subrange(0, i as int)),
        decreases raw@.len() - i,
    {
        acc = apply_entry_exec(acc, &raw[i].0, &raw[i].1);
        proof {
            let pre = vps.subrange(0, i as int);
            let cur = vps.subrange(0, i + 1 as int);
            assert(cur.drop_last() =~= pre);
            assert(cur.last() == vps[i as int]);
            let e = vps[i as int];
            assert(build_place(cur) == apply_entry(build_place(pre), e.0, e.1));
        }
        i = i + 1;
    }
    proof {
        assert(vps.subrange(0, raw@.len() as int) =~= vps);
    }
    acc
}

/// Parses a whole document into a place. Total: any text yields a
/// place, malformed pieces degrading to unset fields or skipped lines.
pub fn parse(text: &str) -> (r: crate::models::GeonPlace)
    ensures
        r@ == spec_parse(text@),
{
    let tokens = tokenize_lines(text);
    if tokens.len() == 0 {
        crate::models::GeonPlace::default()
    } else {
        proof {
            assert(tokens.deep_view().len() == tokens@.len());
        }
        let (raw, _rest) = parse_block(&tokens, 0, 0);
        raw_to_place(&raw)
    }
}

} // verus!
