//! The generator: a deterministic, single-pass, depth-first
//! pretty-printer from the typed place entity to canonical text.
//!
//! Emission order over the fields is fixed; absent fields and empty
//! collections contribute nothing; a string-list field with exactly one
//! element collapses to an inline `KEY: value` line; map-valued sections
//! are emitted in strictly increasing key order whatever their stored
//! order. Fields in the open `extra` table are not re-emitted: that is a
//! documented limitation of the canonical generator, not an oversight.

use vstd::prelude::*;
use vstd::multiset::Multiset;
use vstd::string::StringExecFns;

use crate::models::{Coordinate, CoordinateV, Extent, ExtentV, GeonPlace, PlaceV, Viewsheds, ViewshedsV};

verus! {

broadcast use
    vstd::seq_lib::group_to_multiset_ensures,
    vstd::multiset::group_multiset_axioms,
    vstd::multiset::lemma_multiset_empty_len,
;

/// Two spaces for every depth unit.
pub open spec fn indent_chars(depth: nat) -> Seq<char> {
    Seq::new(2 * depth, |i: int| ' ')
}

/// `KEY: value` line at a depth.
pub open spec fn line_text(key: Seq<char>, value: Seq<char>, depth: nat) -> Seq<char> {
    indent_chars(depth) + key + ": "@ + value + "\n"@
}

/// `KEY:` header line at a depth.
pub open spec fn section_text(key: Seq<char>, depth: nat) -> Seq<char> {
    indent_chars(depth) + key + ":\n"@
}

/// `- item` line at a depth.
pub open spec fn bullet_text(item: Seq<char>, depth: nat) -> Seq<char> {
    indent_chars(depth) + "- "@ + item + "\n"@
}

/// `- KEY: value` line at a depth.
pub open spec fn bullet_kv_text(key: Seq<char>, value: Seq<char>, depth: nat) -> Seq<char> {
    indent_chars(depth) + "- "@ + key + ": "@ + value + "\n"@
}

/// One bullet line per item.
pub open spec fn list_text(items: Seq<Seq<char>>, depth: nat) -> Seq<char>
    decreases items,
{
    if items.len() == 0 {
        Seq::empty()
    } else {
        list_text(items.drop_last(), depth) + bullet_text(items.last(), depth)
    }
}

/// One `key: value` line per entry, in the order given.
pub open spec fn entry_lines_text(entries: Seq<(Seq<char>, Seq<char>)>, depth: nat) -> Seq<char>
    decreases entries,
{
    if entries.len() == 0 {
        Seq::empty()
    } else {
        entry_lines_text(entries.drop_last(), depth) + line_text(
            entries.last().0,
            entries.last().1,
            depth,
        )
    }
}

/// Appends `text` to the buffer, `depth` indentation units of two
/// spaces each.
pub fn write_indent(buf: &mut String, depth: usize)
    ensures
        final(buf)@ == old(buf)@ + indent_chars(depth as nat),
{
    let mut k: usize = 0;
    while k < depth
        invariant
            0 <= k <= depth,
            buf@ == old(buf)@ + indent_chars(k as nat),
        decreases depth - k,
    {
        buf.append("  ");
        proof {
            reveal_strlit("  ");
            assert(indent_chars((k + 1) as nat) =~= indent_chars(k as nat) + "  "@);
        }
        k = k + 1;
    }
}

/// Appends an indented `KEY: value` line.
pub fn write_line(buf: &mut String, key: &str, value: &str, depth: usize)
    ensures
        final(buf)@ == old(buf)@ + line_text(key@, value@, depth as nat),
{
    write_indent(buf, depth);
    buf.append(key);
    buf.append(": ");
    buf.append(value);
    buf.append("\n");
}

/// Appends an indented `KEY:` section header.
pub fn write_section(buf: &mut String, key: &str, depth: usize)
    ensures
        final(buf)@ == old(buf)@ + section_text(key@, depth as nat),
{
    write_indent(buf, depth);
    buf.append(key);
    buf.append(":\n");
}

/// Appends one indented `- item` line per item.
pub fn write_list(buf: &mut String, items: &Vec<String>, depth: usize)
    ensures
        final(buf)@ == old(buf)@ + list_text(items.deep_view(), depth as nat),
{
    let ghost all = items.deep_view();
    let mut k: usize = 0;
    while k < items.len()
        invariant
            0 <= k <= items.len(),
            all == items.deep_view(),
            all.len() == items@.len(),
            buf@ == old(buf)@ + list_text(all.subrange(0, k as int), depth as nat),
        decreases items.len() - k,
    {
        write_indent(buf, depth);
        buf.append("- ");
        buf.append(items[k].as_str());
        buf.append("\n");
        proof {
            let pre = all.subrange(0, k as int);
            let cur = all.subrange(0, k + 1 as int);
            assert(cur.drop_last() =~= pre);
            assert(cur.last() == items@[k as int]@);
            assert(list_text(cur, depth as nat) == list_text(pre, depth as nat) + bullet_text(
                items@[k as int]@,
                depth as nat,
            ));
        }
        k = k + 1;
    }
    proof {
        assert(all.subrange(0, items@.len() as int) =~= all);
    }
}

/// Lexicographic order on character sequences, by code point; on texts
/// of the format this coincides with the byte order of the encoding.
pub open spec fn lex_leq(a: Seq<char>, b: Seq<char>) -> bool
    decreases a.len(),
{
    if a.len() == 0 {
        true
    } else if b.len() == 0 {
        false
    } else if a[0] != b[0] {
        a[0] < b[0]
    } else {
        lex_leq(a.drop_first(), b.drop_first())
    }
}

/// Strictly below in the lexicographic order.
pub open spec fn lex_lt(a: Seq<char>, b: Seq<char>) -> bool {
    lex_leq(a, b) && a != b
}

proof fn lemma_lex_leq_refl(a: Seq<char>)
    ensures
        lex_leq(a, a),
    decreases a.len(),
{
    if a.len() > 0 {
        lemma_lex_leq_refl(a.drop_first());
    }
}

proof fn lemma_lex_leq_connected(a: Seq<char>, b: Seq<char>)
    ensures
        lex_leq(a, b) || lex_leq(b, a),
    decreases a.len(),
{
    if a.len() > 0 && b.len() > 0 && a[0] == b[0] {
        lemma_lex_leq_connected(a.drop_first(), b.drop_first());
    }
}

proof fn lemma_lex_leq_antisym(a: Seq<char>, b: Seq<char>)
    requires
        lex_leq(a, b),
        lex_leq(b, a),
    ensures
        a == b,
    decreases a.len(),
{
    if a.len() == 0 {
        assert(b.len() == 0);
        assert(a =~= b);
    } else {
        assert(b.len() > 0);
        assert(a[0] == b[0]);
        lemma_lex_leq_antisym(a.drop_first(), b.drop_first());
        assert forall|i: int| 0 <= i < a.len() implies a[i] == b[i] by {
            if i > 0 {
                assert(a.drop_first()[i - 1] == b.drop_first()[i - 1]);
            }
        }
        assert(a =~= b);
    }
}

proof fn lemma_lex_leq_trans(a: Seq<char>, b: Seq<char>, c: Seq<char>)
    requires
        lex_leq(a, b),
        lex_leq(b, c),
    ensures
        lex_leq(a, c),
    decreases a.len(),
{
    if a.len() > 0 && b.len() > 0 && c.len() > 0 && a[0] == b[0] && b[0] == c[0] {
        lemma_lex_leq_trans(a.drop_first(), b.drop_first(), c.drop_first());
    }
}

/// Order on map entries: by key, then by value, so that entries with
/// equal views compare equal both ways.
pub open spec fn entry_leq(x: (Seq<char>, Seq<char>), y: (Seq<char>, Seq<char>)) -> bool {
    if x.0 != y.0 {
        lex_leq(x.0, y.0)
    } else {
        lex_leq(x.1, y.1)
    }
}

/// The entry order as a first-class relation.
pub open spec fn entry_leq_fn() -> spec_fn((Seq<char>, Seq<char>), (Seq<char>, Seq<char>)) -> bool {
    |x: (Seq<char>, Seq<char>), y: (Seq<char>, Seq<char>)| entry_leq(x, y)
}

pub proof fn lemma_entry_leq_total_ordering()
    ensures
        vstd::relations::total_ordering(entry_leq_fn()),
{
    let r = entry_leq_fn();
    assert forall|x: (Seq<char>, Seq<char>)| #[trigger] r(x, x) by {
        lemma_lex_leq_refl(x.1);
    }
    assert forall|x: (Seq<char>, Seq<char>), y: (Seq<char>, Seq<char>)|
        #[trigger] r(x, y) && #[trigger] r(y, x) implies x == y by {
        if x.0 != y.0 {
            lemma_lex_leq_antisym(x.0, y.0);
        } else {
            lemma_lex_leq_antisym(x.1, y.1);
        }
    }
    assert forall|x: (Seq<char>, Seq<char>), y: (Seq<char>, Seq<char>), z: (Seq<char>, Seq<char>)|
        #[trigger] r(x, y) && #[trigger] r(y, z) implies r(x, z) by {
        lemma_entry_leq_trans(x, y, z);
    }
    assert forall|x: (Seq<char>, Seq<char>), y: (Seq<char>, Seq<char>)|
        #[trigger] r(x, y) || #[trigger] r(y, x) by {
        if x.0 != y.0 {
            lemma_lex_leq_connected(x.0, y.0);
            if lex_leq(x.0, y.0) && lex_leq(y.0, x.0) {
                lemma_lex_leq_antisym(x.0, y.0);
            }
        } else {
            lemma_lex_leq_connected(x.1, y.1);
        }
    }
}

proof fn lemma_entry_leq_trans(
    x: (Seq<char>, Seq<char>),
    y: (Seq<char>, Seq<char>),
    z: (Seq<char>, Seq<char>),
)
    requires
        entry_leq(x, y),
        entry_leq(y, z),
    ensures
        entry_leq(x, z),
{
    if x.0 != y.0 && y.0 != z.0 {
        lemma_lex_leq_trans(x.0, y.0, z.0);
        if x.0 == z.0 {
            lemma_lex_leq_antisym(x.0, y.0);
        }
    } else if x.0 == y.0 && y.0 == z.0 {
        lemma_lex_leq_trans(x.1, y.1, z.1);
    }
}

proof fn lemma_entry_leq_refl(x: (Seq<char>, Seq<char>))
    ensures
        entry_leq(x, x),
{
    lemma_lex_leq_refl(x.1);
}

proof fn lemma_entry_leq_connected(x: (Seq<char>, Seq<char>), y: (Seq<char>, Seq<char>))
    ensures
        entry_leq(x, y) || entry_leq(y, x),
{
    if x.0 != y.0 {
        lemma_lex_leq_connected(x.0, y.0);
        if lex_leq(x.0, y.0) && lex_leq(y.0, x.0) {
            lemma_lex_leq_antisym(x.0, y.0);
        }
    } else {
        lemma_lex_leq_connected(x.1, y.1);
    }
}

/// The canonical order of a map section: entries sorted by key, then
/// value.
pub open spec fn sort_entries(m: Seq<(Seq<char>, Seq<char>)>) -> Seq<(Seq<char>, Seq<char>)> {
    m.sort_by(entry_leq_fn())
}

/// Whether `a@ <= b@` in the lexicographic order.
fn lex_leq_str(a: &str, b: &str) -> (r: bool)
    ensures
        r == lex_leq(a@, b@),
{
    let na = a.unicode_len();
    let nb = b.unicode_len();
    let mut k: usize = 0;
    while k < na && k < nb && a.get_char(k) == b.get_char(k)
        invariant
            0 <= k <= na,
            0 <= k <= nb,
            na == a@.len(),
            nb == b@.len(),
            forall|i: int| 0 <= i < k ==> a@[i] == b@[i],
        decreases na - k,
    {
        k = k + 1;
    }
    proof {
        lemma_lex_leq_at(a@, b@, k as int);
    }
    if k == na {
        true
    } else if k == nb {
        false
    } else {
        a.get_char(k) < b.get_char(k)
    }
}

proof fn lemma_lex_leq_at(a: Seq<char>, b: Seq<char>, k: int)
    requires
        0 <= k <= a.len(),
        k <= b.len(),
        forall|i: int| 0 <= i < k ==> a[i] == b[i],
        k == a.len() || k == b.len() || a[k] != b[k],
    ensures
        lex_leq(a, b) == (k == a.len() || (k < b.len() && k < a.len() && a[k] < b[k])),
    decreases k,
{
    if k == 0 {
    } else {
        assert(a[0] == b[0]);
        assert forall|i: int| 0 <= i < k - 1 implies a.drop_first()[i] == b.drop_first()[i] by {
            assert(a.drop_first()[i] == a[i + 1]);
            assert(b.drop_first()[i] == b[i + 1]);
        }
        if k - 1 < a.drop_first().len() && k - 1 < b.drop_first().len() {
            assert(a.drop_first()[k - 1] == a[k]);
            assert(b.drop_first()[k - 1] == b[k]);
        }
        lemma_lex_leq_at(a.drop_first(), b.drop_first(), k - 1);
    }
}

/// Whether entry `x` comes no later than `y` in the canonical order.
fn entry_leq_exec(x: &(String, String), y: &(String, String)) -> (r: bool)
    ensures
        r == entry_leq(x.deep_view(), y.deep_view()),
{
    if !crate::text::str_eq(x.0.as_str(), y.0.as_str()) {
        lex_leq_str(x.0.as_str(), y.0.as_str())
    } else {
        lex_leq_str(x.1.as_str(), y.1.as_str())
    }
}

/// The entries of a map section in canonical order: a selection sort,
/// shown equal to the canonical sorted sequence.
fn sort_dict(m: &Vec<(String, String)>) -> (r: Vec<(String, String)>)
    ensures
        r.deep_view() == sort_entries(m.deep_view()),
{
    let mut rest: Vec<(String, String)> = Vec::new();
    let mut k: usize = 0;
    while k < m.len()
        invariant
            0 <= k <= m@.len(),
            rest@.len() == k,
            forall|i: int| 0 <= i < k ==> #[trigger] rest.deep_view()[i] == m.deep_view()[i],
        decreases m@.len() - k,
    {
        let ghost pre_at = rest@;
        let ghost pre_dv = rest.deep_view();
        let e0 = m[k].0.clone();
        let e1 = m[k].1.clone();
        rest.push((e0, e1));
        proof {
            assert forall|i: int| 0 <= i < k + 1 implies #[trigger] rest.deep_view()[i]
                == m.deep_view()[i] by {
                if i < k {
                    assert(rest@[i] == pre_at[i]);
                    assert(pre_dv[i] == m.deep_view()[i]);
                    assert(pre_dv[i] == pre_at[i].deep_view());
                } else {
                    assert(rest@[i].0@ == m@[k as int].0@);
                    assert(rest@[i].1@ == m@[k as int].1@);
                }
            }
        }
        k = k + 1;
    }
    proof {
        assert(rest.deep_view() =~= m.deep_view());
        lemma_entry_leq_total_ordering();
    }
    let ghost all = m.deep_view();
    let mut r: Vec<(String, String)> = Vec::new();
    while rest.len() > 0
        invariant
            vstd::relations::sorted_by(r.deep_view(), entry_leq_fn()),
            r.deep_view().to_multiset().add(rest.deep_view().to_multiset()) =~= all.to_multiset(),
            forall|i: int, j: int|
                0 <= i < r.deep_view().len() && 0 <= j < rest.deep_view().len() ==> entry_leq(
                    #[trigger] r.deep_view()[i],
                    #[trigger] rest.deep_view()[j],
                ),
        decreases rest@.len(),
    {
        proof {
            lemma_entry_leq_refl(rest.deep_view()[0]);
        }
        let mut mi: usize = 0;
        let mut j: usize = 1;
        while j < rest.len()
            invariant
                0 <= mi < j <= rest@.len(),
                rest@.len() > 0,
                forall|i: int|
                    0 <= i < j ==> entry_leq(
                        rest.deep_view()[mi as int],
                        #[trigger] rest.deep_view()[i],
                    ),
            decreases rest@.len() - j,
        {
            let take = !entry_leq_exec(&rest[mi], &rest[j]);
            proof {
                assert(rest@[mi as int].deep_view() == rest.deep_view()[mi as int]);
                assert(rest@[j as int].deep_view() == rest.deep_view()[j as int]);
                lemma_entry_leq_refl(rest.deep_view()[j as int]);
                lemma_entry_leq_connected(
                    rest.deep_view()[mi as int],
                    rest.deep_view()[j as int],
                );
                if take {
                    assert forall|i: int|
                        0 <= i < j + 1 implies entry_leq(
                        rest.deep_view()[j as int],
                        #[trigger] rest.deep_view()[i],
                    ) by {
                        if i < j {
                            lemma_entry_leq_trans(
                                rest.deep_view()[j as int],
                                rest.deep_view()[mi as int],
                                rest.deep_view()[i],
                            );
                        }
                    }
                }
            }
            if take {
                mi = j;
            }
            j = j + 1;
        }
        let ghost old_r = r.deep_view();
        let ghost old_r_at = r@;
        let ghost old_rest = rest.deep_view();
        let ghost old_rest_at = rest@;
        let e = rest.remove(mi);
        let ghost e_at = e;
        let ghost ev = e.deep_view();
        r.push(e);
        proof {
            assert(ev == old_rest[mi as int]);
            assert forall|i: int| 0 <= i < old_rest.len() - 1 implies #[trigger] rest.deep_view()[i]
                == old_rest.remove(mi as int)[i] by {
                assert(rest@[i] == old_rest_at.remove(mi as int)[i]);
                if i < mi {
                    assert(rest@[i] == old_rest_at[i]);
                } else {
                    assert(rest@[i] == old_rest_at[i + 1]);
                }
            }
            assert(rest.deep_view() =~= old_rest.remove(mi as int));
            assert forall|i: int| 0 <= i < old_r.len() + 1 implies #[trigger] r.deep_view()[i]
                == old_r.push(ev)[i] by {
                if i < old_r.len() {
                    assert(r@[i] == old_r_at[i]);
                } else {
                    assert(r@[i] == e_at);
                }
            }
            assert(r.deep_view() =~= old_r.push(ev));
            assert(old_r.push(ev).to_multiset() =~= old_r.to_multiset().insert(ev));
            assert(old_rest.remove(mi as int).to_multiset() =~= old_rest.to_multiset().remove(
                old_rest[mi as int],
            ));
            assert(r.deep_view().to_multiset().add(rest.deep_view().to_multiset())
                =~= all.to_multiset());
            assert forall|i: int, j2: int|
                0 <= i < j2 < r.deep_view().len() implies entry_leq_fn()(
                r.deep_view()[i],
                r.deep_view()[j2],
            ) by {
                if j2 < old_r.len() {
                    assert(vstd::relations::sorted_by(old_r, entry_leq_fn()));
                    assert(entry_leq_fn()(old_r[i], old_r[j2]));
                } else {
                    assert(r.deep_view()[j2] == ev);
                    assert(entry_leq(old_r[i], old_rest[mi as int]));
                }
            }
            assert forall|i: int, j2: int|
                0 <= i < r.deep_view().len() && 0 <= j2 < rest.deep_view().len() implies entry_leq(
                #[trigger] r.deep_view()[i],
                #[trigger] rest.deep_view()[j2],
            ) by {
                let x = if j2 < mi {
                    j2
                } else {
                    j2 + 1
                };
                assert(rest.deep_view()[j2] == old_rest[x]);
                if i < old_r.len() {
                    assert(entry_leq(old_r[i], old_rest[x]));
                } else {
                    assert(r.deep_view()[i] == ev);
                    assert(entry_leq(old_rest[mi as int], old_rest[x]));
                }
            }
        }
    }
    proof {
        assert(rest.deep_view().len() == 0);
        assert(rest.deep_view().to_multiset().len() == 0);
        assert(rest.deep_view().to_multiset() =~= Multiset::<(Seq<char>, Seq<char>)>::empty());
        assert(r.deep_view().to_multiset() =~= all.to_multiset());
        all.lemma_sort_by_ensures(entry_leq_fn());
        vstd::seq_lib::lemma_sorted_unique(r.deep_view(), sort_entries(all), entry_leq_fn());
        assert(r.deep_view() == sort_entries(all));
    }
    r
}

/// Appends one indented `key: value` line per entry, the entries in
/// canonical sorted order whatever the stored order.
pub fn write_dict(buf: &mut String, map: &Vec<(String, String)>, depth: usize)
    ensures
        final(buf)@ == old(buf)@ + entry_lines_text(
            sort_entries(map.deep_view()),
            depth as nat,
        ),
{
    let sorted = sort_dict(map);
    let ghost all = sorted.deep_view();
    let mut k: usize = 0;
    while k < sorted.len()
        invariant
            0 <= k <= sorted@.len(),
            all == sorted.deep_view(),
            all.len() == sorted@.len(),
            buf@ == old(buf)@ + entry_lines_text(all.subrange(0, k as int), depth as nat),
        decreases sorted@.len() - k,
    {
        write_line(buf, sorted[k].0.as_str(), sorted[k].1.as_str(), depth);
        proof {
            let pre = all.subrange(0, k as int);
            let cur = all.subrange(0, k + 1 as int);
            assert(cur.drop_last() =~= pre);
            assert(cur.last() == (sorted@[k as int].0@, sorted@[k as int].1@));
        }
        k = k + 1;
    }
    proof {
        assert(all.subrange(0, sorted@.len() as int) =~= all);
    }
}

/// Textual form of a coordinate: `"<lat>, <lon>"`.
pub open spec fn coordinate_value(c: CoordinateV) -> Seq<char> {
    c.lat + ", "@ + c.lon
}

/// Textual form of an extent: `"<n>, <s>, <e>, <w>"`.
pub open spec fn extent_value(e: ExtentV) -> Seq<char> {
    e.north + ", "@ + e.south + ", "@ + e.east + ", "@ + e.west
}

/// A `KEY: value` line when present, nothing when absent.
pub open spec fn opt_line_text(key: Seq<char>, v: Option<Seq<char>>, depth: nat) -> Seq<char> {
    match v {
        None => Seq::empty(),
        Some(s) => line_text(key, s, depth),
    }
}

/// A string-list field: nothing when empty, one inline `KEY: value`
/// line when it has exactly one element, a header plus bullets
/// otherwise.
pub open spec fn list_field_text(key: Seq<char>, items: Seq<Seq<char>>, depth: nat) -> Seq<char> {
    if items.len() == 0 {
        Seq::empty()
    } else if items.len() == 1 {
        line_text(key, items[0], depth)
    } else {
        section_text(key, depth) + list_text(items, depth + 1)
    }
}

/// A map field: nothing when empty, otherwise a header plus its entries
/// in canonical sorted order.
pub open spec fn dict_field_text(
    key: Seq<char>,
    m: Seq<(Seq<char>, Seq<char>)>,
    depth: nat,
) -> Seq<char> {
    if m.len() == 0 {
        Seq::empty()
    } else {
        section_text(key, depth) + entry_lines_text(sort_entries(m), depth + 1)
    }
}

/// The textual forms of a run of coordinates.
pub open spec fn coord_items(b: Seq<CoordinateV>) -> Seq<Seq<char>> {
    Seq::new(b.len(), |i: int| coordinate_value(b[i]))
}

/// The boundary: a structural list, always a header plus bullets.
pub open spec fn boundary_field_text(b: Seq<CoordinateV>, depth: nat) -> Seq<char> {
    if b.len() == 0 {
        Seq::empty()
    } else {
        section_text("BOUNDARY"@, depth) + list_text(coord_items(b), depth + 1)
    }
}

/// A nested child place: its identity bullet followed by the reduced
/// projection of its fields (type, location, area).
pub open spec fn nested_place_text(p: PlaceV, depth: nat) -> Seq<char> {
    bullet_kv_text("PLACE"@, p.place, depth) + (if p.type_.len() > 0 {
        line_text("TYPE"@, p.type_, depth + 2)
    } else {
        Seq::empty()
    }) + (match p.location {
        Some(c) => line_text("LOCATION"@, coordinate_value(c), depth + 2),
        None => Seq::empty(),
    }) + opt_line_text("AREA"@, p.area, depth + 2)
}

/// The containment children, one nested block each.
pub open spec fn contains_text(children: Seq<PlaceV>, depth: nat) -> Seq<char>
    decreases children,
{
    if children.len() == 0 {
        Seq::empty()
    } else {
        contains_text(children.drop_last(), depth) + nested_place_text(children.last(), depth)
    }
}

/// The containment section: nothing when there are no children.
pub open spec fn contains_field_text(children: Seq<PlaceV>, depth: nat) -> Seq<char> {
    if children.len() == 0 {
        Seq::empty()
    } else {
        section_text("CONTAINS"@, depth) + contains_text(children, depth + 1)
    }
}

/// One history record: its first entry inline on the bullet, the rest
/// as an indented block, all in canonical sorted order.
pub open spec fn history_entry_text(m: Seq<(Seq<char>, Seq<char>)>, depth: nat) -> Seq<char> {
    let sorted = sort_entries(m);
    if sorted.len() == 0 {
        Seq::empty()
    } else {
        bullet_kv_text(sorted[0].0, sorted[0].1, depth) + entry_lines_text(
            sorted.drop_first(),
            depth + 2,
        )
    }
}

/// The history records in order.
pub open spec fn history_text(h: Seq<Seq<(Seq<char>, Seq<char>)>>, depth: nat) -> Seq<char>
    decreases h,
{
    if h.len() == 0 {
        Seq::empty()
    } else {
        history_text(h.drop_last(), depth) + history_entry_text(h.last(), depth)
    }
}

/// The history section: nothing when there are no records.
pub open spec fn history_field_text(h: Seq<Seq<(Seq<char>, Seq<char>)>>, depth: nat) -> Seq<char> {
    if h.len() == 0 {
        Seq::empty()
    } else {
        section_text("HISTORY"@, depth) + history_text(h, depth + 1)
    }
}

/// The viewsheds field in whichever shape it holds.
pub open spec fn viewsheds_text(v: ViewshedsV, depth: nat) -> Seq<char> {
    match v {
        ViewshedsV::Unset => Seq::empty(),
        ViewshedsV::Items(items) => list_field_text("VIEWSHEDS"@, items, depth),
        ViewshedsV::Entries(m) => dict_field_text("VIEWSHEDS"@, m, depth),
    }
}

/// The canonical text of a place: every populated field, in the fixed
/// emission order, at the top level.
pub open spec fn place_text(p: PlaceV) -> Seq<char> {
    line_text("PLACE"@, p.place, 0) + (if p.type_.len() > 0 {
        line_text("TYPE"@, p.type_, 0)
    } else {
        Seq::empty()
    }) + opt_line_text("ID"@, p.id, 0) + (match p.location {
        Some(c) => line_text("LOCATION"@, coordinate_value(c), 0),
        None => Seq::empty(),
    }) + boundary_field_text(p.boundary, 0) + (match p.extent {
        Some(e) => line_text("EXTENT"@, extent_value(e), 0),
        None => Seq::empty(),
    }) + opt_line_text("ELEVATION"@, p.elevation, 0) + opt_line_text("AREA"@, p.area, 0)
        + list_field_text("PURPOSE"@, p.purpose, 0) + dict_field_text("EXPERIENCE"@, p.experience, 0)
        + list_field_text("CHARACTER"@, p.character, 0) + list_field_text(
        "ADJACENCIES"@,
        p.adjacencies,
        0,
    ) + dict_field_text("CONNECTIVITY"@, p.connectivity, 0) + contains_field_text(p.contains, 0)
        + opt_line_text("PART_OF"@, p.part_of, 0) + viewsheds_text(p.viewsheds, 0)
        + dict_field_text("TEMPORAL"@, p.temporal, 0) + dict_field_text("LIFESPAN"@, p.lifespan, 0)
        + list_field_text("SOURCE"@, p.source, 0) + dict_field_text("CONFIDENCE"@, p.confidence, 0)
        + opt_line_text("UPDATED"@, p.updated, 0) + dict_field_text("BUILT_FORM"@, p.built_form, 0)
        + dict_field_text("ECOLOGY"@, p.ecology, 0) + dict_field_text(
        "INFRASTRUCTURE"@,
        p.infrastructure,
        0,
    ) + dict_field_text("DEMOGRAPHICS"@, p.demographics, 0) + dict_field_text(
        "ECONOMY"@,
        p.economy,
        0,
    ) + dict_field_text("VISUAL"@, p.visual, 0) + history_field_text(p.history, 0)
        + dict_field_text("VERTICAL_PROFILE"@, p.vertical_profile, 0)
}

/// Textual form of a coordinate.
pub fn coordinate_string(c: &Coordinate) -> (r: String)
    ensures
        r@ == coordinate_value(c@),
{
    let mut r = String::new();
    r.append(c.lat.as_str());
    r.append(", ");
    r.append(c.lon.as_str());
    r
}

/// Textual form of an extent.
pub fn extent_string(e: &Extent) -> (r: String)
    ensures
        r@ == extent_value(e@),
{
    let mut r = String::new();
    r.append(e.north.as_str());
    r.append(", ");
    r.append(e.south.as_str());
    r.append(", ");
    r.append(e.east.as_str());
    r.append(", ");
    r.append(e.west.as_str());
    r
}

/// Appends an optional scalar field.
fn write_opt_line(buf: &mut String, key: &str, v: &Option<String>, depth: usize)
    ensures
        final(buf)@ == old(buf)@ + opt_line_text(key@, v.deep_view(), depth as nat),
{
    match v {
        Some(s) => write_line(buf, key, s.as_str(), depth),
        None => {},
    }
}

/// Appends a string-list field, collapsing a single element to an
/// inline line.
fn write_list_field(buf: &mut String, key: &str, items: &Vec<String>, depth: usize)
    requires
        depth <= 1000,
    ensures
        final(buf)@ == old(buf)@ + list_field_text(key@, items.deep_view(), depth as nat),
{
    if items.len() == 0 {
    } else if items.len() == 1 {
        write_line(buf, key, items[0].as_str(), depth);
        proof {
            assert(items.deep_view()[0] == items@[0]@);
        }
    } else {
        write_section(buf, key, depth);
        write_list(buf, items, depth + 1);
    }
}

/// Appends a map field: a header, then the entries in canonical order.
fn write_dict_field(buf: &mut String, key: &str, m: &Vec<(String, String)>, depth: usize)
    requires
        depth <= 1000,
    ensures
        final(buf)@ == old(buf)@ + dict_field_text(key@, m.deep_view(), depth as nat),
{
    if m.len() == 0 {
    } else {
        write_section(buf, key, depth);
        write_dict(buf, m, depth + 1);
    }
}

/// Appends the boundary section.
fn write_boundary(buf: &mut String, b: &Vec<Coordinate>, depth: usize)
    requires
        depth <= 1000,
    ensures
        final(buf)@ == old(buf)@ + boundary_field_text(b.deep_view(), depth as nat),
{
    if b.len() == 0 {
        return ;
    }
    let mut items: Vec<String> = Vec::new();
    let mut k: usize = 0;
    while k < b.len()
        invariant
            0 <= k <= b@.len(),
            items@.len() == k,
            forall|i: int| 0 <= i < k ==> #[trigger] items.deep_view()[i] == coordinate_value(
                b.deep_view()[i],
            ),
        decreases b@.len() - k,
    {
        let ghost pre_at = items@;
        let ghost pre_dv = items.deep_view();
        let s = coordinate_string(&b[k]);
        items.push(s);
        proof {
            assert forall|i: int| 0 <= i < k + 1 implies #[trigger] items.deep_view()[i]
                == coordinate_value(b.deep_view()[i]) by {
                if i < k {
                    assert(items@[i] == pre_at[i]);
                    assert(pre_dv[i] == coordinate_value(b.deep_view()[i]));
                    assert(pre_dv[i] == pre_at[i]@);
                } else {
                    assert(b.deep_view()[i] == b@[i]@);
                }
            }
        }
        k = k + 1;
    }
    proof {
        assert(items.deep_view() =~= coord_items(b.deep_view()));
    }
    write_section(buf, "BOUNDARY", depth);
    write_list(buf, &items, depth + 1);
}

/// Appends one `- KEY: value` bullet line.
fn write_bullet_kv(buf: &mut String, key: &str, value: &str, depth: usize)
    ensures
        final(buf)@ == old(buf)@ + bullet_kv_text(key@, value@, depth as nat),
{
    write_indent(buf, depth);
    buf.append("- ");
    buf.append(key);
    buf.append(": ");
    buf.append(value);
    buf.append("\n");
}

/// Appends the history section: each record a bullet with its first
/// entry, the remaining entries as an indented block.
fn write_history(buf: &mut String, h: &Vec<Vec<(String, String)>>, depth: usize)
    requires
        depth <= 1000,
    ensures
        final(buf)@ == old(buf)@ + history_field_text(h.deep_view(), depth as nat),
{
    if h.len() == 0 {
        return ;
    }
    write_section(buf, "HISTORY", depth);
    let ghost all = h.deep_view();
    let inner = depth + 1;
    let mut k: usize = 0;
    while k < h.len()
        invariant
            0 <= k <= h@.len(),
            all == h.deep_view(),
            all.len() == h@.len(),
            inner == depth + 1,
            depth <= 1000,
            buf@ == old(buf)@ + section_text("HISTORY"@, depth as nat) + history_text(
                all.subrange(0, k as int),
                inner as nat,
            ),
        decreases h@.len() - k,
    {
        let sorted = sort_dict(&h[k]);
        proof {
            assert(h[k as int].deep_view() == all[k as int]);
        }
        if sorted.len() > 0 {
            write_bullet_kv(buf, sorted[0].0.as_str(), sorted[0].1.as_str(), inner);
            proof {
                assert(sorted.deep_view()[0] == (sorted@[0].0@, sorted@[0].1@));
            }
            let ghost sdv = sorted.deep_view();
            let mut j: usize = 1;
            while j < sorted.len()
                invariant
                    1 <= j <= sorted@.len(),
                    sdv == sorted.deep_view(),
                    sdv.len() == sorted@.len(),
                    inner <= 1001,
                    buf@ == old(buf)@ + section_text("HISTORY"@, depth as nat) + history_text(
                        all.subrange(0, k as int),
                        inner as nat,
                    ) + bullet_kv_text(sdv[0].0, sdv[0].1, inner as nat) + entry_lines_text(
                        sdv.subrange(1, j as int),
                        (inner + 2) as nat,
                    ),
                decreases sorted@.len() - j,
            {
                write_line(buf, sorted[j].0.as_str(), sorted[j].1.as_str(), inner + 2);
                proof {
                    let pre = sdv.subrange(1, j as int);
                    let cur = sdv.subrange(1, j + 1 as int);
                    assert(cur.drop_last() =~= pre);
                    assert(cur.last() == (sorted@[j as int].0@, sorted@[j as int].1@));
                }
                j = j + 1;
            }
            proof {
                assert(sdv.subrange(1, sorted@.len() as int) =~= sdv.drop_first());
            }
        }
        proof {
            let pre = all.subrange(0, k as int);
            let cur = all.subrange(0, k + 1 as int);
            assert(cur.drop_last() =~= pre);
            assert(cur.last() == all[k as int]);
        }
        k = k + 1;
    }
    proof {
        assert(all.subrange(0, h@.len() as int) =~= all);
    }
}

/// Appends the viewsheds field in whichever shape it holds.
fn write_viewsheds(buf: &mut String, v: &Viewsheds, depth: usize)
    requires
        depth <= 1000,
    ensures
        final(buf)@ == old(buf)@ + viewsheds_text(v@, depth as nat),
{
    match v {
        Viewsheds::Unset => {},
        Viewsheds::Items(items) => write_list_field(buf, "VIEWSHEDS", items, depth),
        Viewsheds::Entries(m) => write_dict_field(buf, "VIEWSHEDS", m, depth),
    }
}

/// Appends one containment child: its identity bullet and the reduced
/// projection of its fields (type, location, area).
pub fn generate_nested(buf: &mut String, place: &GeonPlace, depth: usize)
    requires
        depth <= 2000,
    ensures
        final(buf)@ == old(buf)@ + nested_place_text(place@, depth as nat),
{
    write_bullet_kv(buf, "PLACE", place.place.as_str(), depth);
    let inner = depth + 2;
    if !place.type_.as_str().is_empty() {
        write_line(buf, "TYPE", place.type_.as_str(), inner);
    }
    match &place.location {
        Some(loc) => {
            let v = coordinate_string(loc);
            write_line(buf, "LOCATION", v.as_str(), inner);
        },
        None => {},
    }
    write_opt_line(buf, "AREA", &place.area, inner);
}

/// Appends the containment section: one nested block per child.
fn write_contains(buf: &mut String, children: &Vec<GeonPlace>, depth: usize)
    requires
        depth <= 1000,
    ensures
        final(buf)@ == old(buf)@ + contains_field_text(
            crate::models::view_place_seq(children@),
            depth as nat,
        ),
{
    if children.len() == 0 {
        return ;
    }
    write_section(buf, "CONTAINS", depth);
    let ghost cv = crate::models::view_place_seq(children@);
    let ghost base = buf@;
    let inner = depth + 1;
    proof {
        crate::models::lemma_view_place_seq(children@);
        assert(cv.subrange(0, 0) =~= Seq::<PlaceV>::empty());
    }
    let mut k: usize = 0;
    while k < children.len()
        invariant
            0 <= k <= children@.len(),
            inner == depth + 1,
            depth <= 1000,
            cv == crate::models::view_place_seq(children@),
            cv.len() == children@.len(),
            forall|i: int| 0 <= i < children@.len() ==> cv[i] == #[trigger] children@[i]@,
            buf@ == base + contains_text(cv.subrange(0, k as int), inner as nat),
        decreases children@.len() - k,
    {
        generate_nested(buf, &children[k], inner);
        proof {
            let pre = cv.subrange(0, k as int);
            let cur = cv.subrange(0, k + 1 as int);
            assert(cur.drop_last() =~= pre);
            assert(cur.last() == cv[k as int]);
            assert(children@[k as int]@ == cv[k as int]);
        }
        k = k + 1;
    }
    proof {
        assert(cv.subrange(0, children@.len() as int) =~= cv);
    }
}

/// Serializes a place to its canonical text.
#[verifier::rlimit(100)]
pub fn generate(place: &GeonPlace) -> (r: String)
    ensures
        r@ == place_text(place@),
{
    let mut buf = String::new();
    write_line(&mut buf, "PLACE", place.place.as_str(), 0);
    if !place.type_.as_str().is_empty() {
        write_line(&mut buf, "TYPE", place.type_.as_str(), 0);
    }
    write_opt_line(&mut buf, "ID", &place.id, 0);
    match &place.location {
        Some(loc) => {
            let v = coordinate_string(loc);
            write_line(&mut buf, "LOCATION", v.as_str(), 0);
        },
        None => {},
    }
    write_boundary(&mut buf, &place.boundary, 0);
    match &place.extent {
        Some(e) => {
            let v = extent_string(e);
            write_line(&mut buf, "EXTENT", v.as_str(), 0);
        },
        None => {},
    }
    write_opt_line(&mut buf, "ELEVATION", &place.elevation, 0);
    write_opt_line(&mut buf, "AREA", &place.area, 0);
    write_list_field(&mut buf, "PURPOSE", &place.purpose, 0);
    write_dict_field(&mut buf, "EXPERIENCE", &place.experience, 0);
    write_list_field(&mut buf, "CHARACTER", &place.character, 0);
    write_list_field(&mut buf, "ADJACENCIES", &place.adjacencies, 0);
    write_dict_field(&mut buf, "CONNECTIVITY", &place.connectivity, 0);
    write_contains(&mut buf, &place.contains, 0);
    write_opt_line(&mut buf, "PART_OF", &place.part_of, 0);
    write_viewsheds(&mut buf, &place.viewsheds, 0);
    write_dict_field(&mut buf, "TEMPORAL", &place.temporal, 0);
    write_dict_field(&mut buf, "LIFESPAN", &place.lifespan, 0);
    write_list_field(&mut buf, "SOURCE", &place.source, 0);
    write_dict_field(&mut buf, "CONFIDENCE", &place.confidence, 0);
    write_opt_line(&mut buf, "UPDATED", &place.updated, 0);
    write_dict_field(&mut buf, "BUILT_FORM", &place.built_form, 0);
    write_dict_field(&mut buf, "ECOLOGY", &place.ecology, 0);
    write_dict_field(&mut buf, "INFRASTRUCTURE", &place.infrastructure, 0);
    write_dict_field(&mut buf, "DEMOGRAPHICS", &place.demographics, 0);
    write_dict_field(&mut buf, "ECONOMY", &place.economy, 0);
    write_dict_field(&mut buf, "VISUAL", &place.visual, 0);
    write_history(&mut buf, &place.history, 0);
    write_dict_field(&mut buf, "VERTICAL_PROFILE", &place.vertical_profile, 0);
    buf
}

} // verus!
