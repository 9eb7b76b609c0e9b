//! The load-bearing guarantees of the format, stated once and proved:
//! canonical ordering of map sections, collapse of one-element lists,
//! silence of empty fields, retention of unknown keys, and the
//! round-trip between the generator and the parser.

use vstd::prelude::*;
use vstd::seq_lib::lemma_sorted_unique;

use crate::generator::{
    dict_field_text, entry_leq, entry_leq_fn, lemma_entry_leq_total_ordering, lex_lt,
    line_text, list_field_text, opt_line_text, sort_entries,
};
use crate::models::PlaceV;
use crate::parser::{apply_entry, extra_set, LineV, NodeV};

verus! {

broadcast use
    vstd::seq_lib::group_to_multiset_ensures,
    vstd::multiset::group_multiset_axioms,
;

/// A well-formed map section binds each key once.
pub open spec fn keys_unique(m: Seq<(Seq<char>, Seq<char>)>) -> bool {
    forall|i: int, j: int| 0 <= i < j < m.len() ==> m[i].0 != m[j].0
}

proof fn lemma_contains_index(s: Seq<(Seq<char>, Seq<char>)>, x: (Seq<char>, Seq<char>)) -> (i:
    int)
    requires
        s.to_multiset().count(x) > 0,
    ensures
        0 <= i < s.len(),
        s[i] == x,
{
    assert(s.to_multiset().contains(x));
    assert(s.contains(x));
    choose|i: int| 0 <= i < s.len() && s[i] == x
}

/// Entries with one key twice in the source cannot both survive a
/// key-unique requirement; so the sorted copy has pairwise distinct
/// keys too.
proof fn lemma_sorted_keys_unique(m: Seq<(Seq<char>, Seq<char>)>)
    requires
        keys_unique(m),
    ensures
        keys_unique(sort_entries(m)),
{
    lemma_entry_leq_total_ordering();
    m.lemma_sort_by_ensures(entry_leq_fn());
    let s = sort_entries(m);
    assert forall|i: int, j: int| 0 <= i < j < s.len() implies s[i].0 != s[j].0 by {
        if s[i].0 == s[j].0 {
            let x = s[i];
            let y = s[j];
            if x == y {
                assert(s.remove(j).to_multiset() =~= s.to_multiset().remove(s[j]));
                assert(s.remove(j)[i] == s[i]);
                assert(s.remove(j).contains(x));
                assert(s.remove(j).to_multiset().count(x) > 0);
                assert(s.to_multiset().count(x) >= 2);
                assert(m.to_multiset().count(x) >= 2);
                let a = lemma_contains_index(m, x);
                assert(m.remove(a).to_multiset() =~= m.to_multiset().remove(m[a]));
                assert(m.remove(a).to_multiset().count(x) > 0);
                let b = lemma_contains_index(m.remove(a), x);
                if b < a {
                    assert(m.remove(a)[b] == m[b]);
                    assert(m[b].0 != m[a].0);
                } else {
                    assert(m.remove(a)[b] == m[b + 1]);
                    assert(m[a].0 != m[b + 1].0);
                }
            } else {
                assert(s.to_multiset().count(x) > 0);
                assert(s.to_multiset().count(y) > 0);
                let a = lemma_contains_index(m, x);
                let b = lemma_contains_index(m, y);
                assert(a != b);
                if a < b {
                    assert(m[a].0 != m[b].0);
                } else {
                    assert(m[b].0 != m[a].0);
                }
            }
        }
    }
}

/// A generated map section lists its entries in strictly increasing
/// key order: every earlier emitted key is lexicographically below
/// every later one.
pub proof fn lemma_map_section_strictly_sorted(m: Seq<(Seq<char>, Seq<char>)>)
    requires
        keys_unique(m),
    ensures
        forall|i: int, j: int|
            0 <= i < j < sort_entries(m).len() ==> lex_lt(
                #[trigger] sort_entries(m)[i].0,
                #[trigger] sort_entries(m)[j].0,
            ),
{
    lemma_entry_leq_total_ordering();
    m.lemma_sort_by_ensures(entry_leq_fn());
    lemma_sorted_keys_unique(m);
    let s = sort_entries(m);
    assert forall|i: int, j: int|
        0 <= i < j < s.len() implies lex_lt(#[trigger] s[i].0, #[trigger] s[j].0) by {
        assert(vstd::relations::sorted_by(s, entry_leq_fn()));
        assert(entry_leq_fn()(s[i], s[j]));
        assert(entry_leq(s[i], s[j]));
        assert(s[i].0 != s[j].0);
    }
}

/// What a map section shows depends only on which entries the map
/// holds, never on the order they were stored in.
pub proof fn lemma_map_section_order_independent(
    m1: Seq<(Seq<char>, Seq<char>)>,
    m2: Seq<(Seq<char>, Seq<char>)>,
    key: Seq<char>,
    depth: nat,
)
    requires
        m1.to_multiset() == m2.to_multiset(),
    ensures
        sort_entries(m1) == sort_entries(m2),
        dict_field_text(key, m1, depth) == dict_field_text(key, m2, depth),
{
    lemma_entry_leq_total_ordering();
    m1.lemma_sort_by_ensures(entry_leq_fn());
    m2.lemma_sort_by_ensures(entry_leq_fn());
    lemma_sorted_unique(sort_entries(m1), sort_entries(m2), entry_leq_fn());
    assert(m1.len() == m1.to_multiset().len());
    assert(m2.len() == m2.to_multiset().len());
}

/// A list field with exactly one element renders as a single inline
/// `KEY: value` line, never as a header plus one bullet.
pub proof fn lemma_single_element_list_inline(key: Seq<char>, items: Seq<Seq<char>>, depth: nat)
    requires
        items.len() == 1,
    ensures
        list_field_text(key, items, depth) == line_text(key, items[0], depth),
{
}

/// An absent optional field or an empty collection contributes zero
/// output characters, hence zero lines.
pub proof fn lemma_empty_fields_contribute_nothing(key: Seq<char>, depth: nat)
    ensures
        opt_line_text(key, None::<Seq<char>>, depth) == Seq::<char>::empty(),
        list_field_text(key, Seq::empty(), depth) == Seq::<char>::empty(),
        dict_field_text(key, Seq::empty(), depth) == Seq::<char>::empty(),
        crate::generator::boundary_field_text(Seq::empty(), depth) == Seq::<char>::empty(),
        crate::generator::contains_field_text(Seq::empty(), depth) == Seq::<char>::empty(),
        crate::generator::history_field_text(Seq::empty(), depth) == Seq::<char>::empty(),
        crate::generator::viewsheds_text(crate::models::ViewshedsV::Unset, depth)
            == Seq::<char>::empty(),
{
}

/// The keys of the fixed field table.
pub open spec fn known_key(k: Seq<char>) -> bool {
    ||| k == "PLACE"@
    ||| k == "TYPE"@
    ||| k == "ID"@
    ||| k == "LOCATION"@
    ||| k == "BOUNDARY"@
    ||| k == "EXTENT"@
    ||| k == "ELEVATION"@
    ||| k == "AREA"@
    ||| k == "PURPOSE"@
    ||| k == "EXPERIENCE"@
    ||| k == "CHARACTER"@
    ||| k == "ADJACENCIES"@
    ||| k == "CONNECTIVITY"@
    ||| k == "CONTAINS"@
    ||| k == "PART_OF"@
    ||| k == "VIEWSHEDS"@
    ||| k == "TEMPORAL"@
    ||| k == "LIFESPAN"@
    ||| k == "SOURCE"@
    ||| k == "CONFIDENCE"@
    ||| k == "UPDATED"@
    ||| k == "BUILT_FORM"@
    ||| k == "ECOLOGY"@
    ||| k == "INFRASTRUCTURE"@
    ||| k == "DEMOGRAPHICS"@
    ||| k == "ECONOMY"@
    ||| k == "VISUAL"@
    ||| k == "HISTORY"@
    ||| k == "VERTICAL_PROFILE"@
}

proof fn lemma_extra_set_binds(m: Seq<(Seq<char>, NodeV)>, k: Seq<char>, n: NodeV)
    ensures
        exists|i: int| 0 <= i < extra_set(m, k, n).len() && extra_set(m, k, n)[i] == (k, n),
    decreases m.len(),
{
    if m.len() == 0 {
        assert(extra_set(m, k, n)[0] == (k, n));
    } else if m.first().0 == k {
        assert(extra_set(m, k, n)[0] == (k, n));
    } else {
        lemma_extra_set_binds(m.drop_first(), k, n);
        let i = choose|i: int|
            0 <= i < extra_set(m.drop_first(), k, n).len() && extra_set(m.drop_first(), k, n)[i]
                == (k, n);
        assert(extra_set(m, k, n)[i + 1] == (k, n));
    }
}

/// A top-level key outside the fixed field table is kept, with its
/// unparsed node, in the open `extra` table: it sets no typed field,
/// and after it is applied the table binds that key to that node.
pub proof fn lemma_unknown_key_retained(acc: PlaceV, k: Seq<char>, n: NodeV)
    requires
        !known_key(k),
    ensures
        apply_entry(acc, k, n) == (PlaceV { extra: extra_set(acc.extra, k, n), ..acc }),
        exists|i: int|
            0 <= i < apply_entry(acc, k, n).extra.len() && apply_entry(acc, k, n).extra[i] == (
            k,
            n,
            ),
{
    lemma_extra_set_binds(acc.extra, k, n);
    assert(apply_entry(acc, k, n).extra == extra_set(acc.extra, k, n));
    let i = choose|i: int|
        0 <= i < extra_set(acc.extra, k, n).len() && extra_set(acc.extra, k, n)[i] == (k, n);
    assert(apply_entry(acc, k, n).extra[i] == (k, n));
}

proof fn lemma_split_commas_whole(x: Seq<char>)
    requires
        !crate::text::contains_char(x, ','),
    ensures
        crate::parser::split_commas(x) == seq![x],
{
    crate::text::lemma_first_index_of_is(x, ',', x.len() as int);
}

proof fn lemma_split_commas_at(a: Seq<char>, b: Seq<char>)
    requires
        !crate::text::contains_char(a, ','),
    ensures
        crate::parser::split_commas(a + seq![','] + b) == seq![a] + crate::parser::split_commas(
            b,
        ),
{
    let s = a + seq![','] + b;
    assert forall|i: int| 0 <= i < a.len() implies s[i] != ',' by {
        assert(s[i] == a[i]);
    }
    assert(s[a.len() as int] == ',');
    crate::text::lemma_first_index_of_is(s, ',', a.len() as int);
    assert(s.subrange(0, a.len() as int) =~= a);
    assert(s.subrange(a.len() as int + 1, s.len() as int) =~= b);
}

/// A number has no comma and no whitespace at its ends.
proof fn lemma_number_value_clean(v: Seq<char>)
    requires
        crate::text::number_text(v),
    ensures
        !crate::text::contains_char(v, ','),
        !crate::text::contains_char(v, '\n'),
        crate::text::trim_spec(v) == v,
        v.len() > 0,
        forall|i: int| 0 <= i < v.len() ==> !crate::text::is_ws(#[trigger] v[i]),
{
    crate::text::lemma_number_text_clean(v);
}

/// The textual form of a well-formed coordinate parses back to it.
pub proof fn lemma_coordinate_round_trip(c: crate::models::CoordinateV)
    requires
        c.wf(),
    ensures
        crate::parser::coordinate_of(crate::generator::coordinate_value(c)) == Some(c),
{
    lemma_number_value_clean(c.lat);
    lemma_number_value_clean(c.lon);
    reveal_strlit(", ");
    let v = crate::generator::coordinate_value(c);
    assert(v =~= c.lat + seq![','] + (seq![' '] + c.lon));
    lemma_split_commas_at(c.lat, seq![' '] + c.lon);
    assert forall|i: int| 0 <= i < (seq![' '] + c.lon).len() implies (seq![' '] + c.lon)[i]
        != ',' by {
        if i > 0 {
            assert((seq![' '] + c.lon)[i] == c.lon[i - 1]);
        }
    }
    lemma_split_commas_whole(seq![' '] + c.lon);
    let ps = crate::parser::split_commas(v);
    assert(ps =~= seq![c.lat, seq![' '] + c.lon]);
    crate::text::lemma_trim_prepend_space(c.lon);
    assert(crate::parser::coordinate_of(v) == Some(
        crate::models::CoordinateV { lat: c.lat, lon: c.lon },
    ));
    assert(crate::models::CoordinateV { lat: c.lat, lon: c.lon } =~= c);
}

/// The textual form of a well-formed extent parses back to it.
pub proof fn lemma_extent_round_trip(e: crate::models::ExtentV)
    requires
        e.wf(),
    ensures
        crate::parser::extent_of(crate::generator::extent_value(e)) == Some(e),
{
    lemma_number_value_clean(e.north);
    lemma_number_value_clean(e.south);
    lemma_number_value_clean(e.east);
    lemma_number_value_clean(e.west);
    reveal_strlit(", ");
    let v = crate::generator::extent_value(e);
    let t1 = seq![' '] + e.south + seq![','] + (seq![' '] + e.east + seq![','] + (seq![' ']
        + e.west));
    assert(v =~= e.north + seq![','] + t1);
    lemma_split_commas_at(e.north, t1);
    let t2 = seq![' '] + e.east + seq![','] + (seq![' '] + e.west);
    assert(t1 =~= (seq![' '] + e.south) + seq![','] + t2);
    assert forall|i: int| 0 <= i < (seq![' '] + e.south).len() implies (seq![' '] + e.south)[i]
        != ',' by {
        if i > 0 {
            assert((seq![' '] + e.south)[i] == e.south[i - 1]);
        }
    }
    lemma_split_commas_at(seq![' '] + e.south, t2);
    let t3 = seq![' '] + e.west;
    assert(t2 =~= (seq![' '] + e.east) + seq![','] + t3);
    assert forall|i: int| 0 <= i < (seq![' '] + e.east).len() implies (seq![' '] + e.east)[i]
        != ',' by {
        if i > 0 {
            assert((seq![' '] + e.east)[i] == e.east[i - 1]);
        }
    }
    lemma_split_commas_at(seq![' '] + e.east, t3);
    assert forall|i: int| 0 <= i < t3.len() implies t3[i] != ',' by {
        if i > 0 {
            assert(t3[i] == e.west[i - 1]);
        }
    }
    lemma_split_commas_whole(t3);
    let ps = crate::parser::split_commas(v);
    assert(ps =~= seq![e.north, seq![' '] + e.south, seq![' '] + e.east, t3]);
    crate::text::lemma_trim_prepend_space(e.south);
    crate::text::lemma_trim_prepend_space(e.east);
    crate::text::lemma_trim_prepend_space(e.west);
    assert(crate::parser::extent_of(v) == Some(
        crate::models::ExtentV { north: e.north, south: e.south, east: e.east, west: e.west },
    ));
    assert(crate::models::ExtentV {
        north: e.north,
        south: e.south,
        east: e.east,
        west: e.west,
    } =~= e);
}

/// A field key as the generator writes one: nonempty, and free of
/// whitespace, colons and newlines.
pub open spec fn clean_key(k: Seq<char>) -> bool {
    k.len() > 0 && forall|i: int|
        0 <= i < k.len() ==> !crate::text::is_ws(#[trigger] k[i]) && k[i] != ':' && k[i] != '\n'
}

/// A scalar value that survives one trip through a line: trimming
/// leaves it unchanged and it spans no line break.
pub open spec fn value_ok(v: Seq<char>) -> bool {
    crate::text::trim_spec(v) == v && !crate::text::contains_char(v, '\n')
}

proof fn lemma_trim_empty()
    ensures
        crate::text::trim_spec(Seq::<char>::empty()) == Seq::<char>::empty(),
{
    let e = Seq::<char>::empty();
    crate::text::lemma_trim_is_subrange(e, 0, 0);
    assert(e.subrange(0, 0) =~= e);
}

proof fn lemma_tokenize_empty()
    ensures
        crate::parser::tokenize_spec(Seq::<char>::empty()) == Seq::<LineV>::empty(),
{
    let e = Seq::<char>::empty();
    crate::text::lemma_first_index_of_is(e, '\n', 0);
    assert(crate::parser::split_lines(e) == seq![e]);
    lemma_trim_empty();
    reveal_with_fuel(crate::parser::tokenize_lines_of, 3);
    assert(seq![e].drop_first() =~= Seq::<Seq<char>>::empty());
    assert(crate::parser::tokenize_lines_of(Seq::<Seq<char>>::empty()) =~= Seq::<LineV>::empty());
    assert(crate::parser::tokenize_spec(e) =~= Seq::<LineV>::empty());
}

/// Peeling one nonblank line off the front of a document.
proof fn lemma_tokenize_prepend_line(body: Seq<char>, rest: Seq<char>)
    requires
        !crate::text::contains_char(body, '\n'),
        crate::text::trim_spec(body).len() > 0,
    ensures
        crate::parser::tokenize_spec(body + seq!['\n'] + rest) == seq![
            LineV {
                indent: crate::text::indent_of(body),
                content: crate::text::trim_spec(body),
            },
        ] + crate::parser::tokenize_spec(rest),
{
    let w = body + seq!['\n'] + rest;
    assert forall|i: int| 0 <= i < body.len() implies w[i] != '\n' by {
        assert(w[i] == body[i]);
    }
    assert(w[body.len() as int] == '\n');
    crate::text::lemma_first_index_of_is(w, '\n', body.len() as int);
    assert(w.subrange(0, body.len() as int) =~= body);
    assert(w.subrange(body.len() as int + 1, w.len() as int) =~= rest);
    let ls = crate::parser::split_lines(w);
    assert(ls == seq![body] + crate::parser::split_lines(rest));
    assert(ls.first() == body);
    assert(ls.drop_first() =~= crate::parser::split_lines(rest));
    assert(crate::parser::tokenize_lines_of(ls) == seq![crate::parser::line_rec(body)]
        + crate::parser::tokenize_lines_of(crate::parser::split_lines(rest)));
    assert(crate::parser::tokenize_spec(w) =~= seq![
        LineV { indent: crate::text::indent_of(body), content: crate::text::trim_spec(body) },
    ] + crate::parser::tokenize_spec(rest));
}

/// What the tokenizer and splitter see of one generated `KEY: value`
/// line: indentation zero, and the trimmed content splits back into
/// exactly that key and value.
proof fn lemma_generated_line_splits(k: Seq<char>, v: Seq<char>)
    requires
        clean_key(k),
        value_ok(v),
    ensures
        !crate::text::contains_char(k + ": "@ + v, '\n'),
        crate::text::indent_of(k + ": "@ + v) == 0,
        crate::text::trim_spec(k + ": "@ + v).len() > 0,
        crate::parser::split_kv(crate::text::trim_spec(k + ": "@ + v)) == Some((k, v)),
{
    reveal_strlit(": ");
    let body = k + ": "@ + v;
    assert(body =~= k + seq![':'] + (seq![' '] + v));
    assert forall|i: int| 0 <= i < body.len() implies body[i] != '\n' by {
        if i < k.len() {
            assert(body[i] == k[i]);
        } else if i == k.len() {
            assert(body[i] == ':');
        } else if i == k.len() + 1 {
            assert(body[i] == ' ');
        } else {
            assert(body[i] == v[i - k.len() - 2]);
        }
    }
    assert(body[0] == k[0]);
    crate::text::lemma_indent_of_is(body, 0);
    let t = crate::text::trim_spec(body);
    if v.len() > 0 {
        crate::text::lemma_trim_stable_ends(v);
        assert(body.last() == v.last());
        crate::text::lemma_trim_noop(body);
        assert(t == body);
    } else {
        assert(body =~= k + seq![':', ' ']);
        assert(body[k.len() as int] == ':');
        assert(body[k.len() as int + 1] == ' ');
        assert forall|i: int|
            k.len() + 1 <= i < body.len() implies crate::text::is_ws(body[i]) by {}
        crate::text::lemma_trim_is_subrange(body, 0, k.len() as int + 1);
        assert(t =~= k + seq![':']);
    }
    // the trimmed content is itself trim-stable
    assert(t.len() > 0);
    assert(t[0] == k[0]);
    if v.len() > 0 {
        assert(t.last() == v.last());
    } else {
        assert(t.last() == ':');
    }
    crate::text::lemma_trim_noop(t);
    // the first colon sits right after the key
    assert forall|i: int| 0 <= i < k.len() implies t[i] != ':' by {
        assert(t[i] == k[i]);
    }
    assert(t[k.len() as int] == ':');
    crate::text::lemma_first_index_of_is(t, ':', k.len() as int);
    assert(t.subrange(0, k.len() as int) =~= k);
    crate::text::lemma_trim_noop(k);
    if v.len() > 0 {
        assert(t.subrange(k.len() as int + 1, t.len() as int) =~= seq![' '] + v);
        crate::text::lemma_trim_prepend_space(v);
    } else {
        assert(t.subrange(k.len() as int + 1, t.len() as int) =~= Seq::<char>::empty());
        lemma_trim_empty();
    }
}

/// One `KEY: value` field per line, from the top.
pub open spec fn flat_doc(fields: Seq<(Seq<char>, Seq<char>)>) -> Seq<char>
    decreases fields.len(),
{
    if fields.len() == 0 {
        Seq::empty()
    } else {
        line_text(fields.first().0, fields.first().1, 0) + flat_doc(fields.drop_first())
    }
}

/// Every field of the document round-trips through a line.
pub open spec fn fields_clean(fields: Seq<(Seq<char>, Seq<char>)>) -> bool {
    forall|i: int|
        0 <= i < fields.len() ==> clean_key(#[trigger] fields[i].0) && value_ok(fields[i].1)
}

/// The node one scalar line yields: its value, or an empty nested
/// block when the value is empty.
pub open spec fn node_of_value(v: Seq<char>) -> NodeV {
    if v.len() > 0 {
        NodeV::Value(v)
    } else {
        NodeV::List(Seq::empty())
    }
}

/// Tokenizing a flat document yields one token per field, at
/// indentation zero, splitting back into exactly that field.
proof fn lemma_flat_doc_tokens(fields: Seq<(Seq<char>, Seq<char>)>)
    requires
        fields_clean(fields),
    ensures
        crate::parser::tokenize_spec(flat_doc(fields)).len() == fields.len(),
        forall|i: int|
            0 <= i < fields.len() ==> {
                let t = #[trigger] crate::parser::tokenize_spec(flat_doc(fields))[i];
                t.indent == 0 && crate::parser::split_kv(t.content) == Some(fields[i])
            },
    decreases fields.len(),
{
    if fields.len() == 0 {
        lemma_tokenize_empty();
    } else {
        let f = fields.first();
        assert(clean_key(f.0) && value_ok(f.1));
        lemma_generated_line_splits(f.0, f.1);
        let body = f.0 + ": "@ + f.1;
        let rest = flat_doc(fields.drop_first());
        assert(flat_doc(fields) == line_text(f.0, f.1, 0) + rest);
        assert(crate::generator::indent_chars(0) =~= Seq::<char>::empty());
        reveal_strlit("\n");
        assert("\n"@ =~= seq!['\n']);
        assert(line_text(f.0, f.1, 0) + rest =~= body + seq!['\n'] + rest);
        lemma_tokenize_prepend_line(body, rest);
        lemma_flat_doc_tokens(fields.drop_first());
        let toks = crate::parser::tokenize_spec(flat_doc(fields));
        let rtoks = crate::parser::tokenize_spec(rest);
        assert(toks == seq![
            LineV { indent: 0, content: crate::text::trim_spec(body) },
        ] + rtoks);
        assert forall|i: int|
            0 <= i < fields.len() implies {
                let t = #[trigger] crate::parser::tokenize_spec(flat_doc(fields))[i];
                t.indent == 0 && crate::parser::split_kv(t.content) == Some(fields[i])
            } by {
            if i == 0 {
                assert(toks[0] == (LineV { indent: 0, content: crate::text::trim_spec(body) }));
            } else {
                assert(toks[i] == rtoks[i - 1]);
                assert(fields.drop_first()[i - 1] == fields[i]);
            }
        }
    }
}

/// Whether every token is a flat `KEY: value` line at the top level.
pub open spec fn flat_toks(toks: Seq<LineV>) -> bool {
    forall|i: int|
        0 <= i < toks.len() ==> (#[trigger] toks[i]).indent == 0 && crate::parser::split_kv(
            toks[i].content,
        ) is Some
}

/// The entries a flat token run denotes, from position `i` on.
pub open spec fn flat_entries(toks: Seq<LineV>, i: int) -> Seq<(Seq<char>, NodeV)>
    decreases toks.len() - i,
{
    if i < 0 || i >= toks.len() {
        Seq::empty()
    } else {
        let kv = crate::parser::split_kv(toks[i].content).unwrap();
        seq![(kv.0, node_of_value(kv.1))] + flat_entries(toks, i + 1)
    }
}

/// On a flat token run the block parser reads exactly one entry per
/// line.
proof fn lemma_parse_flat(toks: Seq<LineV>, i: int)
    requires
        flat_toks(toks),
        0 <= i <= toks.len(),
    ensures
        crate::parser::spec_parse_block(toks, i, 0).0 == flat_entries(toks, i),
    decreases toks.len() - i,
{
    if i < toks.len() {
        lemma_parse_flat(toks, i + 1);
        let kv = crate::parser::split_kv(toks[i].content).unwrap();
        if kv.1.len() == 0 {
            if i + 1 < toks.len() {
                assert(toks[i + 1].indent == 0);
            }
        }
    }
}

/// A right fold of raw entries onto an accumulator place.
pub open spec fn fold_from(acc: PlaceV, es: Seq<(Seq<char>, NodeV)>) -> PlaceV
    decreases es.len(),
{
    if es.len() == 0 {
        acc
    } else {
        apply_entry(fold_from(acc, es.drop_last()), es.last().0, es.last().1)
    }
}

proof fn lemma_build_place_is_fold(es: Seq<(Seq<char>, NodeV)>)
    ensures
        crate::parser::build_place(es) == fold_from(crate::models::empty_place_v(), es),
    decreases es.len(),
{
    if es.len() > 0 {
        lemma_build_place_is_fold(es.drop_last());
    }
}

proof fn lemma_fold_prepend(acc: PlaceV, e: (Seq<char>, NodeV), es: Seq<(Seq<char>, NodeV)>)
    ensures
        fold_from(acc, seq![e] + es) == fold_from(apply_entry(acc, e.0, e.1), es),
    decreases es.len(),
{
    if es.len() == 0 {
        assert(seq![e] + es =~= seq![e]);
        assert((seq![e]).drop_last() =~= Seq::<(Seq<char>, NodeV)>::empty());
        assert(fold_from(acc, Seq::<(Seq<char>, NodeV)>::empty()) == acc);
        assert((seq![e]).last() == e);
        assert(fold_from(acc, seq![e]) == apply_entry(acc, e.0, e.1));
    } else {
        assert((seq![e] + es).drop_last() =~= seq![e] + es.drop_last());
        assert((seq![e] + es).last() == es.last());
        lemma_fold_prepend(acc, e, es.drop_last());
    }
}

/// One field applied per flat line, from the left.
pub open spec fn apply_fields(acc: PlaceV, fields: Seq<(Seq<char>, Seq<char>)>) -> PlaceV
    decreases fields.len(),
{
    if fields.len() == 0 {
        acc
    } else {
        apply_fields(
            apply_entry(acc, fields.first().0, node_of_value(fields.first().1)),
            fields.drop_first(),
        )
    }
}

/// Folding the parsed entries equals applying the fields in order.
proof fn lemma_fold_flat(toks: Seq<LineV>, fields: Seq<(Seq<char>, Seq<char>)>, i: int, acc:
    PlaceV)
    requires
        toks.len() == fields.len(),
        0 <= i <= toks.len(),
        forall|j: int|
            0 <= j < toks.len() ==> crate::parser::split_kv((#[trigger] toks[j]).content)
                == Some(fields[j]),
    ensures
        fold_from(acc, flat_entries(toks, i)) == apply_fields(
            acc,
            fields.subrange(i, fields.len() as int),
        ),
    decreases toks.len() - i,
{
    if i >= toks.len() {
        assert(fields.subrange(i, fields.len() as int) =~= Seq::<(Seq<char>, Seq<char>)>::empty());
    } else {
        let kv = crate::parser::split_kv(toks[i].content).unwrap();
        assert(kv == fields[i]);
        let e = (kv.0, node_of_value(kv.1));
        lemma_fold_prepend(acc, e, flat_entries(toks, i + 1));
        lemma_fold_flat(toks, fields, i + 1, apply_entry(acc, e.0, e.1));
        let sfx = fields.subrange(i, fields.len() as int);
        assert(sfx.first() == fields[i]);
        assert(sfx.drop_first() =~= fields.subrange(i + 1, fields.len() as int));
    }
}

/// The whole engine: a flat document of clean fields parses to the
/// fields applied, in order, to the default place.
pub proof fn lemma_flat_doc_round_trip(fields: Seq<(Seq<char>, Seq<char>)>)
    requires
        fields_clean(fields),
        fields.len() > 0,
    ensures
        crate::parser::spec_parse(flat_doc(fields)) == apply_fields(
            crate::models::empty_place_v(),
            fields,
        ),
{
    lemma_flat_doc_tokens(fields);
    let toks = crate::parser::tokenize_spec(flat_doc(fields));
    assert forall|i: int|
        0 <= i < toks.len() implies (#[trigger] toks[i]).indent == 0 && crate::parser::split_kv(
        toks[i].content,
    ) is Some by {
        assert(crate::parser::split_kv(toks[i].content) == Some(fields[i]));
    }
    lemma_parse_flat(toks, 0);
    lemma_build_place_is_fold(crate::parser::spec_parse_block(toks, 0, 0).0);
    lemma_fold_flat(toks, fields, 0, crate::models::empty_place_v());
    assert(fields.subrange(0, fields.len() as int) =~= fields);
}

/// A place carrying only scalar fields: no lists, maps, children or
/// open entries.
pub open spec fn scalar_only(p: PlaceV) -> bool {
    &&& p.boundary.len() == 0
    &&& p.purpose.len() == 0
    &&& p.experience.len() == 0
    &&& p.character.len() == 0
    &&& p.adjacencies.len() == 0
    &&& p.connectivity.len() == 0
    &&& p.contains.len() == 0
    &&& p.viewsheds is Unset
    &&& p.temporal.len() == 0
    &&& p.lifespan.len() == 0
    &&& p.source.len() == 0
    &&& p.confidence.len() == 0
    &&& p.built_form.len() == 0
    &&& p.ecology.len() == 0
    &&& p.infrastructure.len() == 0
    &&& p.demographics.len() == 0
    &&& p.economy.len() == 0
    &&& p.visual.len() == 0
    &&& p.history.len() == 0
    &&& p.vertical_profile.len() == 0
    &&& p.extra.len() == 0
}

/// Scalar fields that one line carries faithfully: identity strings
/// trim-stable and single-line, populated options nonempty, numeric
/// fields well formed.
pub open spec fn scalar_fields_ok(p: PlaceV) -> bool {
    &&& value_ok(p.place)
    &&& value_ok(p.type_)
    &&& (p.id matches Some(v) ==> value_ok(v) && v.len() > 0)
    &&& (p.location matches Some(c) ==> c.wf())
    &&& (p.extent matches Some(e) ==> e.wf())
    &&& (p.elevation matches Some(v) ==> value_ok(v) && v.len() > 0)
    &&& (p.area matches Some(v) ==> value_ok(v) && v.len() > 0)
    &&& (p.part_of matches Some(v) ==> value_ok(v) && v.len() > 0)
    &&& (p.updated matches Some(v) ==> value_ok(v) && v.len() > 0)
}

/// A present optional field as a one-line document piece.
pub open spec fn opt_field(key: Seq<char>, v: Option<Seq<char>>) -> Seq<(Seq<char>, Seq<char>)> {
    match v {
        Some(s) => seq![(key, s)],
        None => Seq::empty(),
    }
}

/// The fields a scalar-only place puts on the page, in emission order.
pub open spec fn scalar_fields(p: PlaceV) -> Seq<(Seq<char>, Seq<char>)> {
    seq![("PLACE"@, p.place)] + (if p.type_.len() > 0 {
        seq![("TYPE"@, p.type_)]
    } else {
        Seq::empty()
    }) + opt_field("ID"@, p.id) + (match p.location {
        Some(c) => seq![("LOCATION"@, crate::generator::coordinate_value(c))],
        None => Seq::empty(),
    }) + (match p.extent {
        Some(e) => seq![("EXTENT"@, crate::generator::extent_value(e))],
        None => Seq::empty(),
    }) + opt_field("ELEVATION"@, p.elevation) + opt_field("AREA"@, p.area) + opt_field(
        "PART_OF"@,
        p.part_of,
    ) + opt_field("UPDATED"@, p.updated)
}

proof fn lemma_flat_doc_append(a: Seq<(Seq<char>, Seq<char>)>, b: Seq<(Seq<char>, Seq<char>)>)
    ensures
        flat_doc(a + b) == flat_doc(a) + flat_doc(b),
    decreases a.len(),
{
    if a.len() == 0 {
        assert(a + b =~= b);
        assert(flat_doc(a) + flat_doc(b) =~= flat_doc(b));
    } else {
        assert((a + b).first() == a.first());
        assert((a + b).drop_first() =~= a.drop_first() + b);
        lemma_flat_doc_append(a.drop_first(), b);
        assert(line_text(a.first().0, a.first().1, 0) + (flat_doc(a.drop_first()) + flat_doc(b))
            =~= (line_text(a.first().0, a.first().1, 0) + flat_doc(a.drop_first())) + flat_doc(
            b,
        ));
    }
}

proof fn lemma_flat_doc_single(k: Seq<char>, v: Seq<char>)
    ensures
        flat_doc(seq![(k, v)]) == line_text(k, v, 0),
{
    let s = seq![(k, v)];
    assert(s.drop_first() =~= Seq::<(Seq<char>, Seq<char>)>::empty());
    assert(flat_doc(Seq::<(Seq<char>, Seq<char>)>::empty()) == Seq::<char>::empty());
    assert(line_text(k, v, 0) + Seq::<char>::empty() =~= line_text(k, v, 0));
}

proof fn lemma_apply_fields_append(
    acc: PlaceV,
    a: Seq<(Seq<char>, Seq<char>)>,
    b: Seq<(Seq<char>, Seq<char>)>,
)
    ensures
        apply_fields(acc, a + b) == apply_fields(apply_fields(acc, a), b),
    decreases a.len(),
{
    if a.len() == 0 {
        assert(a + b =~= b);
    } else {
        assert((a + b).first() == a.first());
        assert((a + b).drop_first() =~= a.drop_first() + b);
        lemma_apply_fields_append(
            apply_entry(acc, a.first().0, node_of_value(a.first().1)),
            a.drop_first(),
            b,
        );
    }
}

proof fn lemma_apply_fields_single(acc: PlaceV, k: Seq<char>, v: Seq<char>)
    ensures
        apply_fields(acc, seq![(k, v)]) == apply_entry(acc, k, node_of_value(v)),
{
    let s = seq![(k, v)];
    assert(s.drop_first() =~= Seq::<(Seq<char>, Seq<char>)>::empty());
    assert(apply_fields(apply_entry(acc, k, node_of_value(v)), Seq::<(Seq<char>, Seq<char>)>::empty())
        == apply_entry(acc, k, node_of_value(v)));
}

proof fn lemma_scalar_keys_clean()
    ensures
        clean_key("PLACE"@),
        clean_key("TYPE"@),
        clean_key("ID"@),
        clean_key("LOCATION"@),
        clean_key("EXTENT"@),
        clean_key("ELEVATION"@),
        clean_key("AREA"@),
        clean_key("PART_OF"@),
        clean_key("UPDATED"@),
{
    reveal_strlit("PLACE");
    reveal_strlit("TYPE");
    reveal_strlit("ID");
    reveal_strlit("LOCATION");
    reveal_strlit("EXTENT");
    reveal_strlit("ELEVATION");
    reveal_strlit("AREA");
    reveal_strlit("PART_OF");
    reveal_strlit("UPDATED");
}


proof fn lemma_key_facts()
    ensures
        ("PLACE"@).len() == 5,
        ("TYPE"@).len() == 4,
        ("ID"@).len() == 2,
        ("LOCATION"@).len() == 8,
        ("BOUNDARY"@).len() == 8,
        ("EXTENT"@).len() == 6,
        ("ELEVATION"@).len() == 9,
        ("AREA"@).len() == 4,
        ("PURPOSE"@).len() == 7,
        ("EXPERIENCE"@).len() == 10,
        ("CHARACTER"@).len() == 9,
        ("ADJACENCIES"@).len() == 11,
        ("CONNECTIVITY"@).len() == 12,
        ("CONTAINS"@).len() == 8,
        ("PART_OF"@).len() == 7,
        ("VIEWSHEDS"@).len() == 9,
        ("TEMPORAL"@).len() == 8,
        ("LIFESPAN"@).len() == 8,
        ("SOURCE"@).len() == 6,
        ("CONFIDENCE"@).len() == 10,
        ("UPDATED"@).len() == 7,
        ("TYPE"@)[0] == 'T',
        ("AREA"@)[0] == 'A',
        ("PURPOSE"@)[1] == 'U',
        ("PURPOSE"@)[0] == 'P',
        ("PART_OF"@)[1] == 'A',
        ("PART_OF"@)[0] == 'P',
        ("UPDATED"@)[0] == 'U',
        ("LOCATION"@)[0] == 'L',
        ("BOUNDARY"@)[0] == 'B',
        ("TEMPORAL"@)[0] == 'T',
        ("LIFESPAN"@)[0] == 'L',
        ("CONTAINS"@)[0] == 'C',
{
    reveal_strlit("PLACE");
    reveal_strlit("TYPE");
    reveal_strlit("ID");
    reveal_strlit("LOCATION");
    reveal_strlit("BOUNDARY");
    reveal_strlit("EXTENT");
    reveal_strlit("ELEVATION");
    reveal_strlit("AREA");
    reveal_strlit("PURPOSE");
    reveal_strlit("EXPERIENCE");
    reveal_strlit("CHARACTER");
    reveal_strlit("ADJACENCIES");
    reveal_strlit("CONNECTIVITY");
    reveal_strlit("CONTAINS");
    reveal_strlit("PART_OF");
    reveal_strlit("VIEWSHEDS");
    reveal_strlit("TEMPORAL");
    reveal_strlit("LIFESPAN");
    reveal_strlit("SOURCE");
    reveal_strlit("CONFIDENCE");
    reveal_strlit("UPDATED");
}

proof fn lemma_arm_place(acc: PlaceV, v: Seq<char>)
    ensures
        apply_entry(acc, "PLACE"@, node_of_value(v)) == (PlaceV { place: v, ..acc }),
{
    if v.len() == 0 {
        assert(crate::parser::node_text(node_of_value(v)) =~= v);
    }
}

proof fn lemma_arm_type(acc: PlaceV, v: Seq<char>)
    requires
        v.len() > 0,
    ensures
        apply_entry(acc, "TYPE"@, node_of_value(v)) == (PlaceV { type_: v, ..acc }),
{
    lemma_key_facts();
}

proof fn lemma_arm_id(acc: PlaceV, v: Seq<char>)
    requires
        v.len() > 0,
    ensures
        apply_entry(acc, "ID"@, node_of_value(v)) == (PlaceV { id: Some(v), ..acc }),
{
    lemma_key_facts();
}

proof fn lemma_arm_location(acc: PlaceV, c: crate::models::CoordinateV)
    requires
        c.wf(),
    ensures
        apply_entry(acc, "LOCATION"@, node_of_value(crate::generator::coordinate_value(c)))
            == (PlaceV { location: Some(c), ..acc }),
{
    lemma_key_facts();
    lemma_number_value_clean(c.lat);
    reveal_strlit(", ");
    assert(crate::generator::coordinate_value(c).len() > 0);
    lemma_coordinate_round_trip(c);
}

proof fn lemma_arm_extent(acc: PlaceV, e: crate::models::ExtentV)
    requires
        e.wf(),
    ensures
        apply_entry(acc, "EXTENT"@, node_of_value(crate::generator::extent_value(e)))
            == (PlaceV { extent: Some(e), ..acc }),
{
    lemma_key_facts();
    lemma_number_value_clean(e.north);
    reveal_strlit(", ");
    assert(crate::generator::extent_value(e).len() > 0);
    lemma_extent_round_trip(e);
}

proof fn lemma_arm_elevation(acc: PlaceV, v: Seq<char>)
    requires
        v.len() > 0,
    ensures
        apply_entry(acc, "ELEVATION"@, node_of_value(v)) == (PlaceV {
            elevation: Some(v),
            ..acc
        }),
{
    lemma_key_facts();
}

proof fn lemma_arm_area(acc: PlaceV, v: Seq<char>)
    requires
        v.len() > 0,
    ensures
        apply_entry(acc, "AREA"@, node_of_value(v)) == (PlaceV { area: Some(v), ..acc }),
{
    lemma_key_facts();
}

proof fn lemma_arm_part_of(acc: PlaceV, v: Seq<char>)
    requires
        v.len() > 0,
    ensures
        apply_entry(acc, "PART_OF"@, node_of_value(v)) == (PlaceV { part_of: Some(v), ..acc }),
{
    lemma_key_facts();
}

proof fn lemma_arm_updated(acc: PlaceV, v: Seq<char>)
    requires
        v.len() > 0,
    ensures
        apply_entry(acc, "UPDATED"@, node_of_value(v)) == (PlaceV { updated: Some(v), ..acc }),
{
    lemma_key_facts();
}

/// The textual form of a well-formed coordinate survives a line.
proof fn lemma_coordinate_value_clean(c: crate::models::CoordinateV)
    requires
        c.wf(),
    ensures
        value_ok(crate::generator::coordinate_value(c)),
        crate::generator::coordinate_value(c).len() > 0,
{
    lemma_number_value_clean(c.lat);
    lemma_number_value_clean(c.lon);
    reveal_strlit(", ");
    let w = crate::generator::coordinate_value(c);
    assert(w[0] == c.lat[0]);
    assert(w.len() == c.lat.len() + 2 + c.lon.len());
    assert(w.last() == c.lon.last());
    crate::text::lemma_trim_noop(w);
    assert forall|i: int| 0 <= i < w.len() implies w[i] != '\n' by {
        if i < c.lat.len() {
            assert(w[i] == c.lat[i]);
        } else if i == c.lat.len() {
            assert(w[i] == ',');
        } else if i == c.lat.len() + 1 {
            assert(w[i] == ' ');
        } else {
            assert(w[i] == c.lon[i - c.lat.len() - 2]);
        }
    }
}

/// The textual form of a well-formed extent survives a line.
proof fn lemma_extent_value_clean(e: crate::models::ExtentV)
    requires
        e.wf(),
    ensures
        value_ok(crate::generator::extent_value(e)),
        crate::generator::extent_value(e).len() > 0,
{
    lemma_number_value_clean(e.north);
    lemma_number_value_clean(e.south);
    lemma_number_value_clean(e.east);
    lemma_number_value_clean(e.west);
    reveal_strlit(", ");
    let w = crate::generator::extent_value(e);
    assert(w =~= e.north + seq![',', ' '] + e.south + seq![',', ' '] + e.east + seq![
        ',',
        ' ',
    ] + e.west);
    assert(w[0] == e.north[0]);
    assert(w.last() == e.west.last());
    crate::text::lemma_trim_noop(w);
    let n1 = e.north.len() as int;
    let n2 = n1 + 2 + e.south.len();
    let n3 = n2 + 2 + e.east.len();
    assert forall|i: int| 0 <= i < w.len() implies w[i] != '\n' by {
        if i < n1 {
            assert(w[i] == e.north[i]);
        } else if i < n1 + 2 {
        } else if i < n2 {
            assert(w[i] == e.south[i - n1 - 2]);
        } else if i < n2 + 2 {
        } else if i < n3 {
            assert(w[i] == e.east[i - n2 - 2]);
        } else if i < n3 + 2 {
        } else {
            assert(w[i] == e.west[i - n3 - 2]);
        }
    }
}

/// The page of a scalar-only place is the flat document of its
/// scalar fields.
#[verifier::spinoff_prover]
#[verifier::rlimit(100)]
proof fn lemma_scalar_doc_eq(p: PlaceV)
    requires
        scalar_only(p),
        scalar_fields_ok(p),
    ensures
        crate::generator::place_text(p) == flat_doc(scalar_fields(p)),
{
    let fields = scalar_fields(p);
    // the generated page is the flat document of the scalar fields
    let s1 = seq![("PLACE"@, p.place)];
    let s2: Seq<(Seq<char>, Seq<char>)> = if p.type_.len() > 0 {
        seq![("TYPE"@, p.type_)]
    } else {
        Seq::empty()
    };
    let s3 = opt_field("ID"@, p.id);
    let s4: Seq<(Seq<char>, Seq<char>)> = match p.location {
        Some(c) => seq![("LOCATION"@, crate::generator::coordinate_value(c))],
        None => Seq::empty(),
    };
    let s5: Seq<(Seq<char>, Seq<char>)> = match p.extent {
        Some(e) => seq![("EXTENT"@, crate::generator::extent_value(e))],
        None => Seq::empty(),
    };
    let s6 = opt_field("ELEVATION"@, p.elevation);
    let s7 = opt_field("AREA"@, p.area);
    let s8 = opt_field("PART_OF"@, p.part_of);
    let s9 = opt_field("UPDATED"@, p.updated);
    lemma_flat_doc_append(s1, s2);
    lemma_flat_doc_append(s1 + s2, s3);
    lemma_flat_doc_append(s1 + s2 + s3, s4);
    lemma_flat_doc_append(s1 + s2 + s3 + s4, s5);
    lemma_flat_doc_append(s1 + s2 + s3 + s4 + s5, s6);
    lemma_flat_doc_append(s1 + s2 + s3 + s4 + s5 + s6, s7);
    lemma_flat_doc_append(s1 + s2 + s3 + s4 + s5 + s6 + s7, s8);
    lemma_flat_doc_append(s1 + s2 + s3 + s4 + s5 + s6 + s7 + s8, s9);
    lemma_flat_doc_single("PLACE"@, p.place);
    if p.type_.len() > 0 {
        lemma_flat_doc_single("TYPE"@, p.type_);
    }
    match p.id {
        Some(v) => lemma_flat_doc_single("ID"@, v),
        None => {},
    }
    match p.location {
        Some(c) => lemma_flat_doc_single("LOCATION"@, crate::generator::coordinate_value(c)),
        None => {},
    }
    match p.extent {
        Some(e) => lemma_flat_doc_single("EXTENT"@, crate::generator::extent_value(e)),
        None => {},
    }
    match p.elevation {
        Some(v) => lemma_flat_doc_single("ELEVATION"@, v),
        None => {},
    }
    match p.area {
        Some(v) => lemma_flat_doc_single("AREA"@, v),
        None => {},
    }
    match p.part_of {
        Some(v) => lemma_flat_doc_single("PART_OF"@, v),
        None => {},
    }
    match p.updated {
        Some(v) => lemma_flat_doc_single("UPDATED"@, v),
        None => {},
    }
    assert(crate::generator::place_text(p) =~= flat_doc(fields));
}

/// Each scalar field of a well-formed place survives a line.
#[verifier::spinoff_prover]
#[verifier::rlimit(100)]
proof fn lemma_scalar_fields_clean(p: PlaceV)
    requires
        scalar_only(p),
        scalar_fields_ok(p),
    ensures
        fields_clean(scalar_fields(p)),
        scalar_fields(p).len() > 0,
{
    let fields = scalar_fields(p);
    lemma_scalar_keys_clean();
    match p.location {
        Some(c) => lemma_coordinate_value_clean(c),
        None => {},
    }
    match p.extent {
        Some(e) => lemma_extent_value_clean(e),
        None => {},
    }
    assert(fields_clean(fields)) by {
        assert forall|i: int|
            0 <= i < fields.len() implies clean_key(#[trigger] fields[i].0) && value_ok(
            fields[i].1,
        ) by {
            assert(fields.len() <= 9);
        }
    }
    assert(scalar_fields(p).len() > 0);
}

/// Applying the scalar fields, in order, to the default place
/// rebuilds the place exactly.
#[verifier::spinoff_prover]
#[verifier::rlimit(100)]
proof fn lemma_scalar_apply(p: PlaceV)
    requires
        scalar_only(p),
        scalar_fields_ok(p),
    ensures
        apply_fields(crate::models::empty_place_v(), scalar_fields(p)) == p,
{
    let fields = scalar_fields(p);
    let s1 = seq![("PLACE"@, p.place)];
    let s2: Seq<(Seq<char>, Seq<char>)> = if p.type_.len() > 0 {
        seq![("TYPE"@, p.type_)]
    } else {
        Seq::empty()
    };
    let s3 = opt_field("ID"@, p.id);
    let s4: Seq<(Seq<char>, Seq<char>)> = match p.location {
        Some(c) => seq![("LOCATION"@, crate::generator::coordinate_value(c))],
        None => Seq::empty(),
    };
    let s5: Seq<(Seq<char>, Seq<char>)> = match p.extent {
        Some(e) => seq![("EXTENT"@, crate::generator::extent_value(e))],
        None => Seq::empty(),
    };
    let s6 = opt_field("ELEVATION"@, p.elevation);
    let s7 = opt_field("AREA"@, p.area);
    let s8 = opt_field("PART_OF"@, p.part_of);
    let s9 = opt_field("UPDATED"@, p.updated);
    let acc0 = crate::models::empty_place_v();
    lemma_apply_fields_append(acc0, s1, s2);
    lemma_apply_fields_append(acc0, s1 + s2, s3);
    lemma_apply_fields_append(acc0, s1 + s2 + s3, s4);
    lemma_apply_fields_append(acc0, s1 + s2 + s3 + s4, s5);
    lemma_apply_fields_append(acc0, s1 + s2 + s3 + s4 + s5, s6);
    lemma_apply_fields_append(acc0, s1 + s2 + s3 + s4 + s5 + s6, s7);
    lemma_apply_fields_append(acc0, s1 + s2 + s3 + s4 + s5 + s6 + s7, s8);
    lemma_apply_fields_append(acc0, s1 + s2 + s3 + s4 + s5 + s6 + s7 + s8, s9);
    lemma_apply_fields_single(acc0, "PLACE"@, p.place);
    lemma_arm_place(acc0, p.place);
    let acc1 = apply_fields(acc0, s1);
    let acc2 = apply_fields(acc1, s2);
    if p.type_.len() > 0 {
        lemma_apply_fields_single(acc1, "TYPE"@, p.type_);
        lemma_arm_type(acc1, p.type_);
    }
    let acc3 = apply_fields(acc2, s3);
    match p.id {
        Some(v) => {
            lemma_apply_fields_single(acc2, "ID"@, v);
            lemma_arm_id(acc2, v);
        },
        None => {},
    }
    let acc4 = apply_fields(acc3, s4);
    match p.location {
        Some(c) => {
            lemma_apply_fields_single(acc3, "LOCATION"@, crate::generator::coordinate_value(c));
            lemma_arm_location(acc3, c);
        },
        None => {},
    }
    let acc5 = apply_fields(acc4, s5);
    match p.extent {
        Some(e) => {
            lemma_apply_fields_single(acc4, "EXTENT"@, crate::generator::extent_value(e));
            lemma_arm_extent(acc4, e);
        },
        None => {},
    }
    let acc6 = apply_fields(acc5, s6);
    match p.elevation {
        Some(v) => {
            lemma_apply_fields_single(acc5, "ELEVATION"@, v);
            lemma_arm_elevation(acc5, v);
        },
        None => {},
    }
    let acc7 = apply_fields(acc6, s7);
    match p.area {
        Some(v) => {
            lemma_apply_fields_single(acc6, "AREA"@, v);
            lemma_arm_area(acc6, v);
        },
        None => {},
    }
    let acc8 = apply_fields(acc7, s8);
    match p.part_of {
        Some(v) => {
            lemma_apply_fields_single(acc7, "PART_OF"@, v);
            lemma_arm_part_of(acc7, v);
        },
        None => {},
    }
    let acc9 = apply_fields(acc8, s9);
    match p.updated {
        Some(v) => {
            lemma_apply_fields_single(acc8, "UPDATED"@, v);
            lemma_arm_updated(acc8, v);
        },
        None => {},
    }
    assert(acc9 == apply_fields(acc0, fields));
    assert(acc9.place == p.place);
    assert(acc9.type_ == p.type_);
    assert(acc9.id == p.id);
    assert(acc9.location == p.location);
    assert(acc9.extent == p.extent);
    assert(acc9.elevation == p.elevation);
    assert(acc9.area == p.area);
    assert(acc9.part_of == p.part_of);
    assert(acc9.updated == p.updated);
    assert(acc9.boundary =~= p.boundary);
    assert(acc9.purpose =~= p.purpose);
    assert(acc9.experience =~= p.experience);
    assert(acc9.character =~= p.character);
    assert(acc9.adjacencies =~= p.adjacencies);
    assert(acc9.connectivity =~= p.connectivity);
    assert(acc9.contains =~= p.contains);
    assert(acc9.viewsheds == p.viewsheds);
    assert(acc9.temporal =~= p.temporal);
    assert(acc9.lifespan =~= p.lifespan);
    assert(acc9.source =~= p.source);
    assert(acc9.confidence =~= p.confidence);
    assert(acc9.built_form =~= p.built_form);
    assert(acc9.ecology =~= p.ecology);
    assert(acc9.infrastructure =~= p.infrastructure);
    assert(acc9.demographics =~= p.demographics);
    assert(acc9.economy =~= p.economy);
    assert(acc9.visual =~= p.visual);
    assert(acc9.history =~= p.history);
    assert(acc9.vertical_profile =~= p.vertical_profile);
    assert(acc9.extra =~= p.extra);
    assert(acc9 =~= p);
}

/// Round trip for places carrying only scalar fields: generating the
/// canonical text and parsing it back reproduces every populated field
/// exactly. Texts that a line cannot carry (padding that trimming
/// removes, embedded line breaks, an empty text under a populated
/// optional field, a numeric field outside the numeric grammar) are
/// the stated exceptions.
pub proof fn lemma_scalar_round_trip(p: PlaceV)
    ensures
        scalar_only(p) && scalar_fields_ok(p) ==> crate::parser::spec_parse(
            crate::generator::place_text(p),
        ) == p,
{
    if scalar_only(p) && scalar_fields_ok(p) {
        lemma_scalar_doc_eq(p);
        lemma_scalar_fields_clean(p);
        lemma_flat_doc_round_trip(scalar_fields(p));
        lemma_scalar_apply(p);
    }
}

} // verus!
