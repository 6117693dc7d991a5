//! Reading the SVG markup the way a browser reads attributes: a value runs
//! from `="` to the next raw `"`, and the name is what stands right before
//! the `=`. The markup of every primitive, whatever its task ids, tooltips
//! and texts hold, names only attributes the renderer writes.
use vstd::prelude::*;
use crate::backend::svg::{
    anchor_name, attr, color_of, escaped, group_open_svg, group_tag_svg, group_title_svg, has_color, lemma_escaped_is_inert,
    line_svg, opt_attr, path_svg, points_text, polygon_svg, polyline_svg, prim_svg, prims_svg, rect_svg, text_anchor_part,
    text_baseline_part, text_fill_part, text_head, text_size_part, text_svg, text_weight_part,
};
use crate::display_list::types::{palette_lookup, tier_suffix, ColorId, Primitive, RectSemantic, TextAnchor};
use crate::text::{decimal, digit_char, opt_view};

verus! {

/// `s` holds no double quote.
pub open spec fn no_quote(s: Seq<char>) -> bool {
    forall|i: int| 0 <= i < s.len() ==> #[trigger] s[i] != '"'
}

/// A character that can stand in an attribute name.
pub open spec fn is_name_char(c: char) -> bool {
    let v = c as int;
    (97 <= v <= 122) || (65 <= v <= 90) || (48 <= v <= 57) || v == 45
}

/// A non-empty run of name characters.
pub open spec fn is_name(n: Seq<char>) -> bool {
    n.len() > 0 && forall|i: int| 0 <= i < n.len() ==> #[trigger] is_name_char(n[i])
}

/// The attribute names the renderer writes.
pub open spec fn allowed_attr(n: Seq<char>) -> bool {
    ||| n == "xmlns"@
    ||| n == "width"@
    ||| n == "height"@
    ||| n == "viewBox"@
    ||| n == "role"@
    ||| n == "aria-label"@
    ||| n == "aria-hidden"@
    ||| n == "font-family"@
    ||| n == "font-size"@
    ||| n == "font-weight"@
    ||| n == "class"@
    ||| n == "x"@
    ||| n == "y"@
    ||| n == "rx"@
    ||| n == "x1"@
    ||| n == "y1"@
    ||| n == "x2"@
    ||| n == "y2"@
    ||| n == "d"@
    ||| n == "points"@
    ||| n == "fill"@
    ||| n == "stroke"@
    ||| n == "stroke-width"@
    ||| n == "stroke-dasharray"@
    ||| n == "stroke-linecap"@
    ||| n == "stroke-linejoin"@
    ||| n == "text-anchor"@
    ||| n == "dominant-baseline"@
    ||| n == "data-task-id"@
}

/// One character of the reading. The state is a mode (0 between
/// attributes, 1 right after `=`, 2 inside a quoted value) and the name
/// read so far.
pub open spec fn scan_step(st: (int, Seq<char>), c: char) -> (int, Seq<char>) {
    if st.0 == 2 {
        if c == '"' {
            (0, Seq::empty())
        } else {
            st
        }
    } else if c == '"' {
        (2, Seq::empty())
    } else if c == '=' {
        (1, st.1)
    } else if is_name_char(c) {
        if st.0 == 0 {
            (0, st.1.push(c))
        } else {
            (0, seq![c])
        }
    } else {
        (0, Seq::empty())
    }
}

/// A quote read outside a value must open the value of an allowed attribute.
pub open spec fn scan_check(st: (int, Seq<char>), c: char) -> bool {
    st.0 != 2 && c == '"' ==> st.0 == 1 && allowed_attr(st.1)
}

/// The state after reading `s` from `st`.
pub open spec fn scan_end(s: Seq<char>, st: (int, Seq<char>)) -> (int, Seq<char>)
    decreases s.len(),
{
    if s.len() == 0 {
        st
    } else {
        scan_step(scan_end(s.drop_last(), st), s.last())
    }
}

/// Reading `s` from `st` meets no quote that opens a value of an attribute
/// the renderer does not write.
pub open spec fn scan_ok(s: Seq<char>, st: (int, Seq<char>)) -> bool
    decreases s.len(),
{
    if s.len() == 0 {
        true
    } else {
        scan_ok(s.drop_last(), st) && scan_check(scan_end(s.drop_last(), st), s.last())
    }
}

/// Read from its start, every attribute the markup names is one the
/// renderer writes, and the markup does not end inside a value.
pub open spec fn attrs_allowed(s: Seq<char>) -> bool {
    scan_ok(s, (0, Seq::empty())) && scan_end(s, (0, Seq::empty())).0 != 2
}

/// Read from anywhere between attributes, `s` names only allowed attributes
/// and ends between attributes.
pub open spec fn clean(s: Seq<char>) -> bool {
    forall|st: (int, Seq<char>)| st.0 != 2 ==> #[trigger] scan_ok(s, st) && scan_end(s, st).0 != 2
}

proof fn lemma_scan_concat(a: Seq<char>, b: Seq<char>, st: (int, Seq<char>))
    ensures
        scan_end(a + b, st) == scan_end(b, scan_end(a, st)),
        scan_ok(a + b, st) == (scan_ok(a, st) && scan_ok(b, scan_end(a, st))),
    decreases b.len(),
{
    if b.len() == 0 {
        assert(a + b =~= a);
    } else {
        lemma_scan_concat(a, b.drop_last(), st);
        assert((a + b).drop_last() =~= a + b.drop_last());
        assert((a + b).last() == b.last());
    }
}

proof fn lemma_clean_concat(a: Seq<char>, b: Seq<char>)
    requires
        clean(a),
        clean(b),
    ensures
        clean(a + b),
{
    assert forall|st: (int, Seq<char>)| st.0 != 2 implies #[trigger] scan_ok(a + b, st) && scan_end(a + b, st).0 != 2 by {
        lemma_scan_concat(a, b, st);
        assert(scan_ok(a, st));
        assert(scan_ok(b, scan_end(a, st)));
    }
}

proof fn lemma_no_quote_from(s: Seq<char>, st: (int, Seq<char>))
    requires
        no_quote(s),
        st.0 != 2,
    ensures
        scan_ok(s, st),
        scan_end(s, st).0 != 2,
    decreases s.len(),
{
    if s.len() > 0 {
        lemma_no_quote_from(s.drop_last(), st);
        assert(s.last() == s[s.len() - 1]);
    }
}

#[verifier::spinoff_prover]
proof fn lemma_no_quote_clean(s: Seq<char>)
    requires
        no_quote(s),
    ensures
        clean(s),
{
    assert forall|st: (int, Seq<char>)| st.0 != 2 implies #[trigger] scan_ok(s, st) && scan_end(s, st).0 != 2 by {
        lemma_no_quote_from(s, st);
    }
}

proof fn lemma_no_quote_concat(a: Seq<char>, b: Seq<char>)
    requires
        no_quote(a),
        no_quote(b),
    ensures
        no_quote(a + b),
{
    assert forall|i: int| 0 <= i < (a + b).len() implies #[trigger] (a + b)[i] != '"' by {
        if i < a.len() {
            assert((a + b)[i] == a[i]);
        } else {
            assert((a + b)[i] == b[i - a.len()]);
        }
    }
}

proof fn lemma_single(c: char, st: (int, Seq<char>))
    ensures
        scan_end(seq![c], st) == scan_step(st, c),
        scan_ok(seq![c], st) == scan_check(st, c),
{
    let one = seq![c];
    assert(one.drop_last() =~= Seq::<char>::empty());
    assert(one.last() == c);
    assert(scan_end(one.drop_last(), st) == st);
    assert(scan_ok(one.drop_last(), st));
    assert(scan_end(one, st) == scan_step(scan_end(one.drop_last(), st), one.last()));
}

proof fn lemma_name_run(n: Seq<char>)
    requires
        forall|i: int| 0 <= i < n.len() ==> #[trigger] is_name_char(n[i]),
    ensures
        scan_ok(n, (0, Seq::empty())),
        scan_end(n, (0, Seq::empty())) == (0int, n),
    decreases n.len(),
{
    if n.len() > 0 {
        lemma_name_run(n.drop_last());
        assert(is_name_char(n[n.len() - 1]));
        assert(n.drop_last().push(n.last()) =~= n);
    }
}

proof fn lemma_value_run(v: Seq<char>)
    requires
        no_quote(v),
    ensures
        scan_ok(v, (2, Seq::empty())),
        scan_end(v, (2, Seq::empty())) == (2int, Seq::<char>::empty()),
    decreases v.len(),
{
    if v.len() > 0 {
        lemma_value_run(v.drop_last());
        assert(v.last() == v[v.len() - 1]);
    }
}

/// An attribute the renderer writes, with a value holding no quote, reads
/// as exactly that attribute.
proof fn lemma_attr_clean(name: Seq<char>, value: Seq<char>)
    requires
        allowed_attr(name),
        is_name(name),
        no_quote(value),
    ensures
        clean(attr(name, value)),
{
    reveal_strlit(" ");
    reveal_strlit("=\"");
    reveal_strlit("\"");
    let e = Seq::<char>::empty();
    assert(attr(name, value) =~= seq![' '] + name + seq!['='] + seq!['"'] + value + seq!['"']);
    lemma_name_run(name);
    lemma_value_run(value);
    assert forall|st: (int, Seq<char>)| st.0 != 2 implies #[trigger] scan_ok(attr(name, value), st) && scan_end(
        attr(name, value),
        st,
    ).0 != 2 by {
        let s1 = seq![' '];
        let s2 = s1 + name;
        let s3 = s2 + seq!['='];
        let s4 = s3 + seq!['"'];
        let s5 = s4 + value;
        let s6 = s5 + seq!['"'];
        lemma_single(' ', st);
        assert(scan_end(s1, st) == (0int, e));
        lemma_scan_concat(s1, name, st);
        assert(scan_end(s2, st) == (0int, name));
        lemma_scan_concat(s2, seq!['='], st);
        lemma_single('=', (0int, name));
        assert(scan_end(s3, st) == (1int, name));
        lemma_scan_concat(s3, seq!['"'], st);
        lemma_single('"', (1int, name));
        assert(scan_end(s4, st) == (2int, e));
        lemma_scan_concat(s4, value, st);
        assert(scan_end(s5, st) == (2int, e));
        lemma_scan_concat(s5, seq!['"'], st);
        lemma_single('"', (2int, e));
        assert(scan_end(s6, st) == (0int, e));
        assert(s6 =~= attr(name, value));
    }
}

proof fn lemma_opt_attr_clean(name: Seq<char>, value: Option<Seq<char>>)
    requires
        allowed_attr(name),
        is_name(name),
        value matches Some(v) ==> no_quote(v),
    ensures
        clean(opt_attr(name, value)),
{
    match value {
        Some(v) => lemma_attr_clean(name, v),
        None => lemma_no_quote_clean(Seq::empty()),
    }
}

proof fn lemma_escaped_no_quote(s: Seq<char>)
    ensures
        no_quote(escaped(s)),
{
    lemma_escaped_is_inert(s);
}

proof fn lemma_decimal_no_quote(n: nat)
    ensures
        no_quote(decimal(n)),
    decreases n,
{
    if n >= 10 {
        lemma_decimal_no_quote(n / 10);
        lemma_no_quote_concat(decimal(n / 10), seq![digit_char(n % 10)]);
        assert(decimal(n) =~= decimal(n / 10) + seq![digit_char(n % 10)]);
    }
}

/// Every colour of the palette holds no quote.
pub open spec fn palette_text_ok(pal: Seq<(ColorId, Seq<char>)>) -> bool {
    forall|i: int| 0 <= i < pal.len() ==> no_quote(#[trigger] pal[i].1)
}

proof fn lemma_color_no_quote(pal: Seq<(ColorId, Seq<char>)>, id: ColorId)
    requires
        palette_text_ok(pal),
        has_color(pal, id),
    ensures
        no_quote(color_of(pal, id)),
    decreases pal.len(),
{
    if pal[0].0 != id {
        assert forall|i: int| 0 <= i < pal.drop_first().len() implies no_quote(#[trigger] pal.drop_first()[i].1) by {
            assert(pal.drop_first()[i] == pal[i + 1]);
        }
        lemma_color_no_quote(pal.drop_first(), id);
    } else {
        assert(no_quote(pal[0].1));
    }
}

/// Every coordinate of the points holds no quote.
pub open spec fn points_ok(points: Seq<(String, String)>) -> bool {
    forall|i: int| 0 <= i < points.len() ==> no_quote((#[trigger] points[i]).0@) && no_quote(points[i].1@)
}

proof fn lemma_points_no_quote(points: Seq<(String, String)>)
    requires
        points_ok(points),
    ensures
        no_quote(points_text(points)),
    decreases points.len(),
{
    reveal_strlit(",");
    reveal_strlit(" ");
    if points.len() == 1 {
        assert(points[0] == points[0]);
        lemma_no_quote_concat(points[0].0@, ","@);
        lemma_no_quote_concat(points[0].0@ + ","@, points[0].1@);
    } else if points.len() > 1 {
        assert forall|i: int| 0 <= i < points.drop_last().len() implies no_quote((#[trigger] points.drop_last()[i]).0@) && no_quote(
            points.drop_last()[i].1@,
        ) by {
            assert(points.drop_last()[i] == points[i]);
        }
        lemma_points_no_quote(points.drop_last());
        let last = points.last();
        assert(last == points[points.len() - 1]);
        let a = points_text(points.drop_last());
        lemma_no_quote_concat(a, " "@);
        lemma_no_quote_concat(a + " "@, last.0@);
        lemma_no_quote_concat(a + " "@ + last.0@, ","@);
        lemma_no_quote_concat(a + " "@ + last.0@ + ","@, last.1@);
    } else {
        assert(points_text(points) =~= Seq::<char>::empty());
    }
}

proof fn lemma_opt_no_quote(s: Option<String>)
    requires
        s matches Some(v) ==> no_quote(v@),
    ensures
        opt_view(s) matches Some(v) ==> no_quote(v),
{
}

proof fn lemma_tier_suffix_no_quote(prefix: Seq<char>, t: crate::display_list::types::ProgressTier)
    requires
        no_quote(prefix),
    ensures
        no_quote(prefix + tier_suffix(t)),
{
    reveal_strlit("none");
    reveal_strlit("low");
    reveal_strlit("mid");
    reveal_strlit("high");
    reveal_strlit("done");
    lemma_no_quote_concat(prefix, tier_suffix(t));
}

/// The renderer-made values of a primitive hold no quote, and the palette
/// has every colour it draws with. Task ids, tooltips and texts may hold
/// anything.
pub open spec fn values_ok(p: Primitive<String>, pal: Seq<(ColorId, Seq<char>)>) -> bool
    decreases p, 0nat,
{
    match p {
        Primitive::Rect(r) => no_quote(r.x@) && no_quote(r.y@) && no_quote(r.width@) && no_quote(r.height@) && (r.rx matches Some(
            v,
        ) ==> no_quote(v@)) && has_color(pal, r.fill),
        Primitive::RoundRect(r) => no_quote(r.x@) && no_quote(r.y@) && no_quote(r.width@) && no_quote(r.height@) && no_quote(r.rx@)
            && has_color(pal, r.fill),
        Primitive::Line(l) => no_quote(l.x1@) && no_quote(l.y1@) && no_quote(l.x2@) && no_quote(l.y2@) && no_quote(l.stroke_width@)
            && (l.stroke_dash matches Some(v) ==> no_quote(v@)) && has_color(pal, l.stroke),
        Primitive::Path(q) => no_quote(q.d@) && no_quote(q.stroke_width@) && has_color(pal, q.stroke),
        Primitive::Polyline(q) => points_ok(q.points@) && no_quote(q.stroke_width@) && (q.stroke_dash matches Some(v) ==> no_quote(v@))
            && has_color(pal, q.stroke),
        Primitive::Polygon(q) => points_ok(q.points@) && no_quote(q.stroke_width@) && has_color(pal, q.fill) && has_color(pal, q.stroke),
        Primitive::Text(t) => no_quote(t.x@) && no_quote(t.y@) && (t.font_size matches Some(v) ==> no_quote(v@)) && (t.fill matches Some(
            f,
        ) ==> has_color(pal, f)),
        Primitive::Group(g) => prims_values_ok(g.children@, pal),
    }
}

/// `values_ok` of every primitive of the list.
pub open spec fn prims_values_ok(prims: Seq<Primitive<String>>, pal: Seq<(ColorId, Seq<char>)>) -> bool
    decreases prims, prims.len(),
{
    if prims.len() == 0 {
        true
    } else {
        prims_values_ok(prims.drop_last(), pal) && values_ok(prims.last(), pal)
    }
}

proof fn lemma_rect_clean(
    class: Option<Seq<char>>,
    geom: (Seq<char>, Seq<char>, Seq<char>, Seq<char>),
    rx: Option<Seq<char>>,
    fill: Seq<char>,
)
    requires
        class matches Some(c) ==> no_quote(c),
        no_quote(geom.0),
        no_quote(geom.1),
        no_quote(geom.2),
        no_quote(geom.3),
        rx matches Some(v) ==> no_quote(v),
        no_quote(fill),
    ensures
        clean(rect_svg(class, geom, rx, fill)),
{
    reveal_strlit("<rect");
    reveal_strlit("/>");
    reveal_strlit("class");
    reveal_strlit("x");
    reveal_strlit("y");
    reveal_strlit("width");
    reveal_strlit("height");
    reveal_strlit("rx");
    reveal_strlit("fill");
    let a0 = "<rect"@;
    lemma_no_quote_clean(a0);
    lemma_opt_attr_clean("class"@, class);
    lemma_clean_concat(a0, opt_attr("class"@, class));
    let a1 = a0 + opt_attr("class"@, class);
    lemma_attr_clean("x"@, geom.0);
    lemma_clean_concat(a1, attr("x"@, geom.0));
    let a2 = a1 + attr("x"@, geom.0);
    lemma_attr_clean("y"@, geom.1);
    lemma_clean_concat(a2, attr("y"@, geom.1));
    let a3 = a2 + attr("y"@, geom.1);
    lemma_attr_clean("width"@, geom.2);
    lemma_clean_concat(a3, attr("width"@, geom.2));
    let a4 = a3 + attr("width"@, geom.2);
    lemma_attr_clean("height"@, geom.3);
    lemma_clean_concat(a4, attr("height"@, geom.3));
    let a5 = a4 + attr("height"@, geom.3);
    lemma_opt_attr_clean("rx"@, rx);
    lemma_clean_concat(a5, opt_attr("rx"@, rx));
    let a6 = a5 + opt_attr("rx"@, rx);
    lemma_attr_clean("fill"@, fill);
    lemma_clean_concat(a6, attr("fill"@, fill));
    let a7 = a6 + attr("fill"@, fill);
    lemma_no_quote_clean("/>"@);
    lemma_clean_concat(a7, "/>"@);
}

proof fn lemma_line_clean(l: crate::display_list::types::LinePrim<String>, pal: Seq<(ColorId, Seq<char>)>)
    requires
        palette_text_ok(pal),
        values_ok(Primitive::Line(l), pal),
    ensures
        clean(line_svg(l, pal)),
{
    reveal_strlit("<line");
    reveal_strlit("/>");
    reveal_strlit("x1");
    reveal_strlit("y1");
    reveal_strlit("x2");
    reveal_strlit("y2");
    reveal_strlit("stroke");
    reveal_strlit("stroke-width");
    reveal_strlit("stroke-dasharray");
    lemma_color_no_quote(pal, l.stroke);
    lemma_opt_no_quote(l.stroke_dash);
    let a0 = "<line"@;
    lemma_no_quote_clean(a0);
    lemma_attr_clean("x1"@, l.x1@);
    lemma_clean_concat(a0, attr("x1"@, l.x1@));
    let a1 = a0 + attr("x1"@, l.x1@);
    lemma_attr_clean("y1"@, l.y1@);
    lemma_clean_concat(a1, attr("y1"@, l.y1@));
    let a2 = a1 + attr("y1"@, l.y1@);
    lemma_attr_clean("x2"@, l.x2@);
    lemma_clean_concat(a2, attr("x2"@, l.x2@));
    let a3 = a2 + attr("x2"@, l.x2@);
    lemma_attr_clean("y2"@, l.y2@);
    lemma_clean_concat(a3, attr("y2"@, l.y2@));
    let a4 = a3 + attr("y2"@, l.y2@);
    lemma_attr_clean("stroke"@, color_of(pal, l.stroke));
    lemma_clean_concat(a4, attr("stroke"@, color_of(pal, l.stroke)));
    let a5 = a4 + attr("stroke"@, color_of(pal, l.stroke));
    lemma_attr_clean("stroke-width"@, l.stroke_width@);
    lemma_clean_concat(a5, attr("stroke-width"@, l.stroke_width@));
    let a6 = a5 + attr("stroke-width"@, l.stroke_width@);
    lemma_opt_attr_clean("stroke-dasharray"@, opt_view(l.stroke_dash));
    lemma_clean_concat(a6, opt_attr("stroke-dasharray"@, opt_view(l.stroke_dash)));
    let a7 = a6 + opt_attr("stroke-dasharray"@, opt_view(l.stroke_dash));
    lemma_no_quote_clean("/>"@);
    lemma_clean_concat(a7, "/>"@);
}

proof fn lemma_path_clean(q: crate::display_list::types::PathPrim<String>, pal: Seq<(ColorId, Seq<char>)>)
    requires
        palette_text_ok(pal),
        values_ok(Primitive::Path(q), pal),
    ensures
        clean(path_svg(q, pal)),
{
    reveal_strlit("<path");
    reveal_strlit("/>");
    reveal_strlit("d");
    reveal_strlit("fill");
    reveal_strlit("none");
    reveal_strlit("stroke");
    reveal_strlit("stroke-width");
    reveal_strlit("stroke-linecap");
    reveal_strlit("stroke-linejoin");
    reveal_strlit("round");
    lemma_color_no_quote(pal, q.stroke);
    let a0 = "<path"@;
    lemma_no_quote_clean(a0);
    lemma_attr_clean("d"@, q.d@);
    lemma_clean_concat(a0, attr("d"@, q.d@));
    let a1 = a0 + attr("d"@, q.d@);
    lemma_attr_clean("fill"@, "none"@);
    lemma_clean_concat(a1, attr("fill"@, "none"@));
    let a2 = a1 + attr("fill"@, "none"@);
    lemma_attr_clean("stroke"@, color_of(pal, q.stroke));
    lemma_clean_concat(a2, attr("stroke"@, color_of(pal, q.stroke)));
    let a3 = a2 + attr("stroke"@, color_of(pal, q.stroke));
    lemma_attr_clean("stroke-width"@, q.stroke_width@);
    lemma_clean_concat(a3, attr("stroke-width"@, q.stroke_width@));
    let a4 = a3 + attr("stroke-width"@, q.stroke_width@);
    lemma_attr_clean("stroke-linecap"@, "round"@);
    lemma_clean_concat(a4, attr("stroke-linecap"@, "round"@));
    let a5 = a4 + attr("stroke-linecap"@, "round"@);
    lemma_attr_clean("stroke-linejoin"@, "round"@);
    lemma_clean_concat(a5, attr("stroke-linejoin"@, "round"@));
    let a6 = a5 + attr("stroke-linejoin"@, "round"@);
    lemma_no_quote_clean("/>"@);
    lemma_clean_concat(a6, "/>"@);
}

proof fn lemma_polyline_clean(q: crate::display_list::types::PolylinePrim<String>, pal: Seq<(ColorId, Seq<char>)>)
    requires
        palette_text_ok(pal),
        values_ok(Primitive::Polyline(q), pal),
    ensures
        clean(polyline_svg(q, pal)),
{
    reveal_strlit("<polyline");
    reveal_strlit("/>");
    reveal_strlit("class");
    reveal_strlit("progress-status-line");
    reveal_strlit("points");
    reveal_strlit("fill");
    reveal_strlit("none");
    reveal_strlit("stroke");
    reveal_strlit("stroke-width");
    reveal_strlit("stroke-dasharray");
    lemma_color_no_quote(pal, q.stroke);
    lemma_opt_no_quote(q.stroke_dash);
    lemma_points_no_quote(q.points@);
    let a0 = "<polyline"@;
    lemma_no_quote_clean(a0);
    lemma_attr_clean("class"@, "progress-status-line"@);
    lemma_clean_concat(a0, attr("class"@, "progress-status-line"@));
    let a1 = a0 + attr("class"@, "progress-status-line"@);
    lemma_attr_clean("points"@, points_text(q.points@));
    lemma_clean_concat(a1, attr("points"@, points_text(q.points@)));
    let a2 = a1 + attr("points"@, points_text(q.points@));
    lemma_attr_clean("fill"@, "none"@);
    lemma_clean_concat(a2, attr("fill"@, "none"@));
    let a3 = a2 + attr("fill"@, "none"@);
    lemma_attr_clean("stroke"@, color_of(pal, q.stroke));
    lemma_clean_concat(a3, attr("stroke"@, color_of(pal, q.stroke)));
    let a4 = a3 + attr("stroke"@, color_of(pal, q.stroke));
    lemma_attr_clean("stroke-width"@, q.stroke_width@);
    lemma_clean_concat(a4, attr("stroke-width"@, q.stroke_width@));
    let a5 = a4 + attr("stroke-width"@, q.stroke_width@);
    lemma_opt_attr_clean("stroke-dasharray"@, opt_view(q.stroke_dash));
    lemma_clean_concat(a5, opt_attr("stroke-dasharray"@, opt_view(q.stroke_dash)));
    let a6 = a5 + opt_attr("stroke-dasharray"@, opt_view(q.stroke_dash));
    lemma_no_quote_clean("/>"@);
    lemma_clean_concat(a6, "/>"@);
}

proof fn lemma_polygon_clean(q: crate::display_list::types::PolygonPrim<String>, pal: Seq<(ColorId, Seq<char>)>)
    requires
        palette_text_ok(pal),
        values_ok(Primitive::Polygon(q), pal),
    ensures
        clean(polygon_svg(q, pal)),
{
    reveal_strlit("<polygon");
    reveal_strlit("/>");
    reveal_strlit("class");
    reveal_strlit("bar-milestone bar-tier-");
    reveal_strlit("points");
    reveal_strlit("fill");
    reveal_strlit("stroke");
    reveal_strlit("stroke-width");
    lemma_color_no_quote(pal, q.fill);
    lemma_color_no_quote(pal, q.stroke);
    lemma_points_no_quote(q.points@);
    lemma_tier_suffix_no_quote("bar-milestone bar-tier-"@, q.tier);
    let class = "bar-milestone bar-tier-"@ + tier_suffix(q.tier);
    let a0 = "<polygon"@;
    lemma_no_quote_clean(a0);
    lemma_attr_clean("class"@, class);
    lemma_clean_concat(a0, attr("class"@, class));
    let a1 = a0 + attr("class"@, class);
    lemma_attr_clean("points"@, points_text(q.points@));
    lemma_clean_concat(a1, attr("points"@, points_text(q.points@)));
    let a2 = a1 + attr("points"@, points_text(q.points@));
    lemma_attr_clean("fill"@, color_of(pal, q.fill));
    lemma_clean_concat(a2, attr("fill"@, color_of(pal, q.fill)));
    let a3 = a2 + attr("fill"@, color_of(pal, q.fill));
    lemma_attr_clean("stroke"@, color_of(pal, q.stroke));
    lemma_clean_concat(a3, attr("stroke"@, color_of(pal, q.stroke)));
    let a4 = a3 + attr("stroke"@, color_of(pal, q.stroke));
    lemma_attr_clean("stroke-width"@, q.stroke_width@);
    lemma_clean_concat(a4, attr("stroke-width"@, q.stroke_width@));
    let a5 = a4 + attr("stroke-width"@, q.stroke_width@);
    lemma_no_quote_clean("/>"@);
    lemma_clean_concat(a5, "/>"@);
}

proof fn lemma_text_clean(t: crate::display_list::types::TextPrim<String>, pal: Seq<(ColorId, Seq<char>)>)
    requires
        palette_text_ok(pal),
        values_ok(Primitive::Text(t), pal),
    ensures
        clean(text_svg(t, pal)),
{
    reveal_strlit("<text");
    reveal_strlit(">");
    reveal_strlit("</text>");
    reveal_strlit("x");
    reveal_strlit("y");
    reveal_strlit("text-anchor");
    reveal_strlit("middle");
    reveal_strlit("start");
    reveal_strlit("end");
    reveal_strlit("fill");
    reveal_strlit("font-size");
    reveal_strlit("font-weight");
    reveal_strlit("dominant-baseline");
    let a0 = "<text"@;
    lemma_no_quote_clean(a0);
    lemma_attr_clean("x"@, t.x@);
    lemma_clean_concat(a0, attr("x"@, t.x@));
    lemma_attr_clean("y"@, t.y@);
    lemma_clean_concat(a0 + attr("x"@, t.x@), attr("y"@, t.y@));
    assert(text_head(t) == a0 + attr("x"@, t.x@) + attr("y"@, t.y@));
    match t.anchor {
        Some(a) => lemma_attr_clean("text-anchor"@, anchor_name(a)),
        None => lemma_no_quote_clean(Seq::empty()),
    }
    lemma_clean_concat(text_head(t), text_anchor_part(t));
    let a1 = text_head(t) + text_anchor_part(t);
    match t.fill {
        Some(f) => {
            lemma_color_no_quote(pal, f);
            lemma_attr_clean("fill"@, color_of(pal, f));
        },
        None => lemma_no_quote_clean(Seq::empty()),
    }
    lemma_clean_concat(a1, text_fill_part(t, pal));
    let a2 = a1 + text_fill_part(t, pal);
    match t.font_size {
        Some(v) => lemma_attr_clean("font-size"@, v@),
        None => lemma_no_quote_clean(Seq::empty()),
    }
    lemma_clean_concat(a2, text_size_part(t));
    let a3 = a2 + text_size_part(t);
    match t.font_weight {
        Some(w) => {
            lemma_decimal_no_quote(w as nat);
            lemma_attr_clean("font-weight"@, decimal(w as nat));
        },
        None => lemma_no_quote_clean(Seq::empty()),
    }
    lemma_clean_concat(a3, text_weight_part(t));
    let a4 = a3 + text_weight_part(t);
    match t.baseline {
        crate::display_list::types::TextBaseline::Middle => lemma_attr_clean("dominant-baseline"@, "middle"@),
        crate::display_list::types::TextBaseline::Auto => lemma_no_quote_clean(Seq::empty()),
    }
    lemma_clean_concat(a4, text_baseline_part(t));
    let a5 = a4 + text_baseline_part(t);
    lemma_no_quote_clean(">"@);
    lemma_clean_concat(a5, ">"@);
    let a6 = a5 + ">"@;
    lemma_escaped_no_quote(t.content@);
    lemma_no_quote_clean(escaped(t.content@));
    lemma_clean_concat(a6, escaped(t.content@));
    let a7 = a6 + escaped(t.content@);
    lemma_no_quote_clean("</text>"@);
    lemma_clean_concat(a7, "</text>"@);
}

proof fn lemma_group_open_clean(g: crate::display_list::types::GroupPrim<String>)
    ensures
        clean(group_open_svg(g)),
{
    reveal_strlit("<g");
    reveal_strlit(">");
    reveal_strlit("<g>");
    reveal_strlit("data-task-id");
    reveal_strlit("class");
    reveal_strlit("aria-hidden");
    reveal_strlit("true");
    reveal_strlit("progress-line-legend");
    reveal_strlit("bar-tier-legend");
    reveal_strlit("<title>");
    reveal_strlit("</title>");
    lemma_no_quote_clean("<g"@);
    lemma_no_quote_clean(">"@);
    lemma_no_quote_clean("<g>"@);
    lemma_attr_clean("aria-hidden"@, "true"@);
    match g.task_id {
        Some(id) => {
            lemma_escaped_no_quote(id@);
            lemma_attr_clean("data-task-id"@, escaped(id@));
            lemma_clean_concat("<g"@, attr("data-task-id"@, escaped(id@)));
            lemma_clean_concat("<g"@ + attr("data-task-id"@, escaped(id@)), ">"@);
        },
        None => {
            lemma_attr_clean("class"@, "progress-line-legend"@);
            lemma_attr_clean("class"@, "bar-tier-legend"@);
            lemma_clean_concat("<g"@, attr("class"@, "progress-line-legend"@));
            lemma_clean_concat("<g"@ + attr("class"@, "progress-line-legend"@), attr("aria-hidden"@, "true"@));
            lemma_clean_concat("<g"@ + attr("class"@, "progress-line-legend"@) + attr("aria-hidden"@, "true"@), ">"@);
            lemma_clean_concat("<g"@, attr("class"@, "bar-tier-legend"@));
            lemma_clean_concat("<g"@ + attr("class"@, "bar-tier-legend"@), attr("aria-hidden"@, "true"@));
            lemma_clean_concat("<g"@ + attr("class"@, "bar-tier-legend"@) + attr("aria-hidden"@, "true"@), ">"@);
        },
    }
    assert(clean(group_tag_svg(g)));
    match g.tooltip {
        Some(t) => {
            lemma_escaped_no_quote(t@);
            lemma_no_quote_clean("<title>"@);
            lemma_no_quote_clean(escaped(t@));
            lemma_no_quote_clean("</title>"@);
            lemma_clean_concat("<title>"@, escaped(t@));
            lemma_clean_concat("<title>"@ + escaped(t@), "</title>"@);
        },
        None => lemma_no_quote_clean(Seq::empty()),
    }
    lemma_clean_concat(group_tag_svg(g), group_title_svg(g));
}

proof fn lemma_prim_clean(p: Primitive<String>, pal: Seq<(ColorId, Seq<char>)>)
    requires
        palette_text_ok(pal),
        values_ok(p, pal),
    ensures
        clean(prim_svg(p, pal)),
    decreases p, 0nat,
{
    match p {
        Primitive::Rect(r) => {
            reveal_strlit("bar-bg");
            lemma_color_no_quote(pal, r.fill);
            lemma_opt_no_quote(r.rx);
            lemma_rect_clean(
                if r.semantic == RectSemantic::BarBackground {
                    Some("bar-bg"@)
                } else {
                    None
                },
                (r.x@, r.y@, r.width@, r.height@),
                opt_view(r.rx),
                color_of(pal, r.fill),
            );
        },
        Primitive::RoundRect(r) => {
            reveal_strlit("bar-progress bar-tier-");
            lemma_color_no_quote(pal, r.fill);
            lemma_tier_suffix_no_quote("bar-progress bar-tier-"@, r.tier);
            lemma_rect_clean(
                Some("bar-progress bar-tier-"@ + tier_suffix(r.tier)),
                (r.x@, r.y@, r.width@, r.height@),
                Some(r.rx@),
                color_of(pal, r.fill),
            );
        },
        Primitive::Line(l) => lemma_line_clean(l, pal),
        Primitive::Path(q) => lemma_path_clean(q, pal),
        Primitive::Polyline(q) => lemma_polyline_clean(q, pal),
        Primitive::Polygon(q) => lemma_polygon_clean(q, pal),
        Primitive::Text(t) => lemma_text_clean(t, pal),
        Primitive::Group(g) => {
            assert(decreases_to!(p => p->Group_0));
            assert(decreases_to!(g => g.children));
            assert(decreases_to!(g.children => g.children@));
            lemma_group_open_clean(g);
            lemma_prims_clean(g.children@, pal);
            reveal_strlit("</g>");
            lemma_no_quote_clean("</g>"@);
            lemma_clean_concat(group_open_svg(g), prims_svg(g.children@, pal));
            lemma_clean_concat(group_open_svg(g) + prims_svg(g.children@, pal), "</g>"@);
        },
    }
}

proof fn lemma_prims_clean(prims: Seq<Primitive<String>>, pal: Seq<(ColorId, Seq<char>)>)
    requires
        palette_text_ok(pal),
        prims_values_ok(prims, pal),
    ensures
        clean(prims_svg(prims, pal)),
    decreases prims, prims.len(),
{
    if prims.len() == 0 {
        lemma_no_quote_clean(Seq::empty());
    } else {
        lemma_prims_clean(prims.drop_last(), pal);
        assert(decreases_to!(prims => prims[prims.len() - 1]));
        lemma_prim_clean(prims.last(), pal);
        lemma_clean_concat(prims_svg(prims.drop_last(), pal), prim_svg(prims.last(), pal));
    }
}

/// Read as a browser reads attributes, the markup of a primitive names only
/// attributes the renderer writes: whatever its task ids, tooltips and texts
/// hold, none of them can end a value or open an attribute, as long as the
/// renderer's own values (coordinates, path data, dash patterns, palette
/// colours) hold no quote.
pub proof fn lemma_markup_names_only_written_attributes(p: Primitive<String>, pal: Seq<(ColorId, Seq<char>)>)
    requires
        palette_text_ok(pal),
        values_ok(p, pal),
    ensures
        attrs_allowed(prim_svg(p, pal)),
{
    lemma_prim_clean(p, pal);
    let e = Seq::<char>::empty();
    assert(scan_ok(prim_svg(p, pal), (0int, e)));
}

} // verus!
