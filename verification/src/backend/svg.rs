//! The SVG writer. It reads every coordinate, radius, stroke width and font
//! size off the display list as decimal text, so the display list stays the
//! only place that decides a number; user text is escaped on the way out.
use vstd::prelude::*;
use crate::display_list::constants::DEFAULT_FONT_SIZE_PX;
use crate::display_list::types::{
    palette_entries, palette_lookup, tier_suffix, ColorId, DisplayList, GroupPrim, Layer, LineSemantic, Palette,
    Primitive, RectSemantic, TextAnchor, TextBaseline, TextPrim,
};
use crate::backend::canvas::anchor_tag;
use crate::text::{decimal, opt_view, push_char, push_decimal};

verus! {

/// The SVG backend.
pub struct SvgBackend;

/// What one character becomes in text or in a quoted attribute value.
pub open spec fn escape_char(c: char) -> Seq<char> {
    if c == '&' {
        seq!['&', 'a', 'm', 'p', ';']
    } else if c == '"' {
        seq!['&', 'q', 'u', 'o', 't', ';']
    } else if c == '\'' {
        seq!['&', '#', '3', '9', ';']
    } else if c == '<' {
        seq!['&', 'l', 't', ';']
    } else if c == '>' {
        seq!['&', 'g', 't', ';']
    } else {
        seq![c]
    }
}

/// `s` with each character escaped.
pub open spec fn escaped(s: Seq<char>) -> Seq<char>
    decreases s.len(),
{
    if s.len() == 0 {
        Seq::empty()
    } else {
        escaped(s.drop_last()) + escape_char(s.last())
    }
}

/// Escape `s` for XML text and double- or single-quoted attribute values.
pub fn escape_xml(s: &str) -> (res: String)
    ensures
        res@ == escaped(s@),
{
    let mut out = String::new();
    for c in it: s.chars()
        invariant
            it.seq() == s@,
            out@ == escaped(s@.subrange(0, it.index() as int)),
    {
        let ghost done = s@.subrange(0, it.index() as int);
        proof {
            reveal_strlit("&amp;");
            reveal_strlit("&quot;");
            reveal_strlit("&#39;");
            reveal_strlit("&lt;");
            reveal_strlit("&gt;");
            assert(s@.subrange(0, it.index() + 1).drop_last() =~= done);
            assert(s@.subrange(0, it.index() + 1).last() == c);
        }
        if c == '&' {
            out.append("&amp;");
        } else if c == '"' {
            out.append("&quot;");
        } else if c == '\'' {
            out.append("&#39;");
        } else if c == '<' {
            out.append("&lt;");
        } else if c == '>' {
            out.append("&gt;");
        } else {
            push_char(&mut out, c);
        }
    }
    proof {
        assert(s@.subrange(0, s@.len() as int) =~= s@);
    }
    out
}

/// Escaped text holds no double quote, apostrophe or angle bracket: placed
/// in a quoted attribute value or in element text, it cannot end the value
/// or open a tag.
pub proof fn lemma_escaped_is_inert(s: Seq<char>)
    ensures
        forall|i: int|
            0 <= i < escaped(s).len() ==> #[trigger] escaped(s)[i] != '"' && escaped(s)[i] != '\'' && escaped(s)[i] != '<'
                && escaped(s)[i] != '>',
    decreases s.len(),
{
    if s.len() > 0 {
        lemma_escaped_is_inert(s.drop_last());
        let head = escaped(s.drop_last());
        let tail = escape_char(s.last());
        assert forall|i: int| 0 <= i < escaped(s).len() implies #[trigger] escaped(s)[i] != '"' && escaped(s)[i] != '\''
            && escaped(s)[i] != '<' && escaped(s)[i] != '>' by {
            if i < head.len() {
                assert(escaped(s)[i] == head[i]);
            } else {
                assert(escaped(s)[i] == tail[i - head.len()]);
            }
        }
    }
}

/// Text without any of the five special characters is left as it is.
pub proof fn lemma_escape_plain_text(s: Seq<char>)
    requires
        forall|i: int| 0 <= i < s.len() ==> #[trigger] s[i] != '&' && s[i] != '"' && s[i] != '\'' && s[i] != '<' && s[i] != '>',
    ensures
        escaped(s) == s,
    decreases s.len(),
{
    if s.len() > 0 {
        lemma_escape_plain_text(s.drop_last());
        assert(s.drop_last().push(s.last()) =~= s);
    }
}

/// The escape of the first character, then the escape of the rest.
proof fn lemma_escaped_front(s: Seq<char>)
    requires
        s.len() > 0,
    ensures
        escaped(s) == escape_char(s[0]) + escaped(s.drop_first()),
    decreases s.len(),
{
    if s.len() == 1 {
        assert(s.drop_last() =~= Seq::<char>::empty());
        assert(s.drop_first() =~= Seq::<char>::empty());
        assert(escaped(s) =~= escape_char(s[0]) + escaped(s.drop_first()));
    } else {
        lemma_escaped_front(s.drop_last());
        assert(s.drop_last().drop_first() =~= s.drop_first().drop_last());
        assert(s.drop_first().last() == s.last());
        assert(s.drop_last()[0] == s[0]);
        vstd::seq_lib::lemma_concat_associative(escape_char(s[0]), escaped(s.drop_first().drop_last()), escape_char(s.last()));
    }
}

/// Decode the five entities back into the characters they stand for.
pub open spec fn unescaped(t: Seq<char>) -> Seq<char>
    decreases t.len(),
{
    if t.len() == 0 {
        Seq::empty()
    } else if t.len() >= 5 && t.subrange(0, 5) == seq!['&', 'a', 'm', 'p', ';'] {
        seq!['&'] + unescaped(t.skip(5))
    } else if t.len() >= 6 && t.subrange(0, 6) == seq!['&', 'q', 'u', 'o', 't', ';'] {
        seq!['"'] + unescaped(t.skip(6))
    } else if t.len() >= 5 && t.subrange(0, 5) == seq!['&', '#', '3', '9', ';'] {
        seq!['\''] + unescaped(t.skip(5))
    } else if t.len() >= 4 && t.subrange(0, 4) == seq!['&', 'l', 't', ';'] {
        seq!['<'] + unescaped(t.skip(4))
    } else if t.len() >= 4 && t.subrange(0, 4) == seq!['&', 'g', 't', ';'] {
        seq!['>'] + unescaped(t.skip(4))
    } else {
        seq![t[0]] + unescaped(t.skip(1))
    }
}

/// Escaping loses nothing: decoding the entities gives the same text
/// back, so distinct texts stay distinct once escaped.
pub proof fn lemma_unescape_escaped(s: Seq<char>)
    ensures
        unescaped(escaped(s)) == s,
    decreases s.len(),
{
    if s.len() == 0 {
        assert(escaped(s) =~= Seq::<char>::empty());
    } else {
        lemma_escaped_front(s);
        lemma_unescape_escaped(s.drop_first());
        let c = s[0];
        let code = escape_char(c);
        let rest = escaped(s.drop_first());
        let t = code + rest;
        assert(t.skip(code.len() as int) =~= rest);
        assert(t.subrange(0, code.len() as int) =~= code);
        assert(t[0] == code[0]);
        if code.len() > 1 {
            assert(t[1] == code[1]);
        }
        assert(seq![c] + s.drop_first() =~= s);
    }
}

/// ` name="value"`
pub open spec fn attr(name: Seq<char>, value: Seq<char>) -> Seq<char> {
    " "@ + name + "=\""@ + value + "\""@
}

/// The attribute when there is a value, nothing otherwise.
pub open spec fn opt_attr(name: Seq<char>, value: Option<Seq<char>>) -> Seq<char> {
    match value {
        Some(v) => attr(name, v),
        None => Seq::empty(),
    }
}

fn push_attr(svg: &mut String, name: &str, value: &str)
    ensures
        final(svg)@ == old(svg)@ + attr(name@, value@),
{
    svg.append(" ");
    svg.append(name);
    svg.append("=\"");
    svg.append(value);
    svg.append("\"");
}

/// The `stroke-dasharray` attribute of a dashed stroke.
pub fn push_dash(svg: &mut String, dash: Option<&str>)
    ensures
        final(svg)@ == old(svg)@ + opt_attr("stroke-dasharray"@, match dash {
            Some(d) => Some(d@),
            None => None,
        }),
{
    match dash {
        Some(d) => push_attr(svg, "stroke-dasharray", d),
        None => {},
    }
}

/// A `<rect>` element; `geom` is `(x, y, width, height)`.
pub open spec fn rect_svg(
    class: Option<Seq<char>>,
    geom: (Seq<char>, Seq<char>, Seq<char>, Seq<char>),
    rx: Option<Seq<char>>,
    fill: Seq<char>,
) -> Seq<char> {
    "<rect"@ + opt_attr("class"@, class) + attr("x"@, geom.0) + attr("y"@, geom.1) + attr("width"@, geom.2) + attr("height"@, geom.3)
        + opt_attr("rx"@, rx) + attr("fill"@, fill) + "/>"@
}

/// Write a `<rect>`; `geom` is `(x, y, width, height)`, taken from the primitive as-is.
pub fn push_rect(svg: &mut String, class: Option<&str>, geom: (&str, &str, &str, &str), rx: Option<&str>, fill: &str)
    ensures
        final(svg)@ == old(svg)@ + rect_svg(
            match class {
                Some(c) => Some(c@),
                None => None,
            },
            (geom.0@, geom.1@, geom.2@, geom.3@),
            match rx {
                Some(r) => Some(r@),
                None => None,
            },
            fill@,
        ),
{
    let (x, y, width, height) = geom;
    let ghost start = svg@;
    let ghost class_v = match class {
        Some(c) => Some(c@),
        None => None,
    };
    let ghost rx_v = match rx {
        Some(r) => Some(r@),
        None => None,
    };
    svg.append("<rect");
    match class {
        Some(c) => push_attr(svg, "class", c),
        None => {},
    }
    proof {
        assert(svg@ =~= start + ("<rect"@ + opt_attr("class"@, class_v)));
    }
    let ghost acc = "<rect"@ + opt_attr("class"@, class_v);
    push_attr(svg, "x", x);
    proof {
        lemma_extend(start, acc, attr("x"@, x@), svg@);
    }
    let ghost acc = acc + attr("x"@, x@);
    push_attr(svg, "y", y);
    proof {
        lemma_extend(start, acc, attr("y"@, y@), svg@);
    }
    let ghost acc = acc + attr("y"@, y@);
    push_attr(svg, "width", width);
    proof {
        lemma_extend(start, acc, attr("width"@, width@), svg@);
    }
    let ghost acc = acc + attr("width"@, width@);
    push_attr(svg, "height", height);
    proof {
        lemma_extend(start, acc, attr("height"@, height@), svg@);
    }
    let ghost acc = acc + attr("height"@, height@);
    match rx {
        Some(r) => push_attr(svg, "rx", r),
        None => {},
    }
    proof {
        lemma_extend(start, acc, opt_attr("rx"@, rx_v), svg@);
    }
    let ghost acc = acc + opt_attr("rx"@, rx_v);
    push_attr(svg, "fill", fill);
    proof {
        lemma_extend(start, acc, attr("fill"@, fill@), svg@);
    }
    let ghost acc = acc + attr("fill"@, fill@);
    svg.append("/>");
    proof {
        lemma_extend(start, acc, "/>"@, svg@);
    }
}

/// `x,y` pairs joined by spaces.
pub open spec fn points_text(points: Seq<(String, String)>) -> Seq<char>
    decreases points.len(),
{
    if points.len() == 0 {
        Seq::empty()
    } else if points.len() == 1 {
        points[0].0@ + ","@ + points[0].1@
    } else {
        points_text(points.drop_last()) + " "@ + points.last().0@ + ","@ + points.last().1@
    }
}

pub fn join_points(points: &[(String, String)]) -> (res: String)
    ensures
        res@ == points_text(points@),
{
    let mut out = String::new();
    let mut i: usize = 0;
    while i < points.len()
        invariant
            i <= points@.len(),
            out@ == points_text(points@.subrange(0, i as int)),
        decreases points@.len() - i,
    {
        proof {
            assert(points@.subrange(0, i + 1).drop_last() =~= points@.subrange(0, i as int));
        }
        if i > 0 {
            out.append(" ");
        }
        out.append(points[i].0.as_str());
        out.append(",");
        out.append(points[i].1.as_str());
        proof {
            if i == 0 {
                assert(out@ =~= points@.subrange(0, 1)[0].0@ + ","@ + points@.subrange(0, 1)[0].1@);
            }
        }
        i += 1;
    }
    proof {
        assert(points@.subrange(0, points@.len() as int) =~= points@);
    }
    out
}

/// The palette has a colour for role `id`.
pub open spec fn has_color(entries: Seq<(ColorId, Seq<char>)>, id: ColorId) -> bool {
    palette_lookup(entries, id) is Some
}

/// The palette has a colour for every role the primitive draws with, its
/// children's included.
pub open spec fn prim_colors_ok<C>(p: Primitive<C>, pal: Seq<(ColorId, Seq<char>)>) -> bool
    decreases p, 0nat,
{
    match p {
        Primitive::Rect(r) => has_color(pal, r.fill),
        Primitive::RoundRect(r) => has_color(pal, r.fill),
        Primitive::Line(l) => has_color(pal, l.stroke),
        Primitive::Path(q) => has_color(pal, q.stroke),
        Primitive::Polyline(q) => has_color(pal, q.stroke),
        Primitive::Polygon(q) => has_color(pal, q.fill) && has_color(pal, q.stroke),
        Primitive::Text(t) => t.fill matches Some(f) ==> has_color(pal, f),
        Primitive::Group(g) => prims_colors_ok(g.children@, pal),
    }
}

/// The palette has a colour for every role the primitives draw with.
pub open spec fn prims_colors_ok<C>(prims: Seq<Primitive<C>>, pal: Seq<(ColorId, Seq<char>)>) -> bool
    decreases prims, prims.len(),
{
    if prims.len() == 0 {
        true
    } else {
        prims_colors_ok(prims.drop_last(), pal) && prim_colors_ok(prims.last(), pal)
    }
}

/// A list of primitives has its colours exactly when each primitive does.
proof fn lemma_prims_colors_each<C>(prims: Seq<Primitive<C>>, pal: Seq<(ColorId, Seq<char>)>)
    ensures
        prims_colors_ok(prims, pal) <==> forall|i: int| 0 <= i < prims.len() ==> #[trigger] prim_colors_ok(prims[i], pal),
    decreases prims.len(),
{
    if prims.len() > 0 {
        lemma_prims_colors_each(prims.drop_last(), pal);
        assert forall|i: int| 0 <= i < prims.len() - 1 implies prims.drop_last()[i] == prims[i] by {}
        if forall|i: int| 0 <= i < prims.len() ==> #[trigger] prim_colors_ok(prims[i], pal) {
            assert forall|i: int| 0 <= i < prims.drop_last().len() implies #[trigger] prim_colors_ok(prims.drop_last()[i], pal) by {
                assert(prim_colors_ok(prims[i], pal));
            }
            assert(prim_colors_ok(prims[prims.len() - 1], pal));
        }
        if prims_colors_ok(prims, pal) {
            assert forall|i: int| 0 <= i < prims.len() implies #[trigger] prim_colors_ok(prims[i], pal) by {
                if i < prims.len() - 1 {
                    assert(prim_colors_ok(prims.drop_last()[i], pal));
                }
            }
        }
    }
}

/// The palette has a colour for every role the display list draws with.
pub open spec fn list_colors_ok<C>(list: DisplayList<C>) -> bool {
    forall|k: int, i: int|
        0 <= k < list.layers@.len() && 0 <= i < list.layers@[k].primitives@.len() ==> #[trigger] prim_colors_ok(
            list.layers@[k].primitives@[i],
            palette_entries(list.palette.colors@),
        )
}

/// Whether the palette has a colour for every role the primitive draws with.
pub fn prim_colors_resolve<C>(p: &Primitive<C>, palette: &Palette) -> (b: bool)
    ensures
        b == prim_colors_ok(*p, palette_entries(palette.colors@)),
    decreases p,
{
    let ghost pal = palette_entries(palette.colors@);
    match p {
        Primitive::Rect(r) => palette.has(r.fill),
        Primitive::RoundRect(r) => palette.has(r.fill),
        Primitive::Line(l) => palette.has(l.stroke),
        Primitive::Path(q) => palette.has(q.stroke),
        Primitive::Polyline(q) => palette.has(q.stroke),
        Primitive::Polygon(q) => palette.has(q.fill) && palette.has(q.stroke),
        Primitive::Text(t) => match t.fill {
            Some(f) => palette.has(f),
            None => true,
        },
        Primitive::Group(g) => {
            let mut i: usize = 0;
            while i < g.children.len()
                invariant
                    *p == Primitive::Group(*g),
                    i <= g.children@.len(),
                    pal == palette_entries(palette.colors@),
                    forall|j: int| 0 <= j < i ==> #[trigger] prim_colors_ok(g.children@[j], pal),
                decreases g.children@.len() - i,
            {
                proof {
                    let group = *g;
                    let whole = Primitive::Group(group);
                    assert(decreases_to!(whole => whole->Group_0));
                    assert(decreases_to!(group => group.children));
                    assert(decreases_to!(group.children => group.children@));
                    assert(decreases_to!(group.children@ => group.children@[i as int]));
                    assert(decreases_to!(whole => group.children@[i as int]));
                }
                if !prim_colors_resolve(&g.children[i], palette) {
                    proof {
                        lemma_prims_colors_each(g.children@, pal);
                        assert(!prim_colors_ok(g.children@[i as int], pal));
                    }
                    return false;
                }
                i += 1;
            }
            proof {
                lemma_prims_colors_each(g.children@, pal);
            }
            true
        },
    }
}

/// Whether the palette has a colour for every role the display list draws with.
pub fn list_colors_resolve<C>(list: &DisplayList<C>) -> (b: bool)
    ensures
        b == list_colors_ok(*list),
{
    let mut k: usize = 0;
    while k < list.layers.len()
        invariant
            k <= list.layers@.len(),
            forall|kk: int, i: int|
                0 <= kk < k && 0 <= i < list.layers@[kk].primitives@.len() ==> #[trigger] prim_colors_ok(
                    list.layers@[kk].primitives@[i],
                    palette_entries(list.palette.colors@),
                ),
        decreases list.layers@.len() - k,
    {
        let layer = &list.layers[k];
        let mut i: usize = 0;
        while i < layer.primitives.len()
            invariant
                k < list.layers@.len(),
                *layer == list.layers@[k as int],
                i <= layer.primitives@.len(),
                forall|kk: int, j: int|
                    0 <= kk < k && 0 <= j < list.layers@[kk].primitives@.len() ==> #[trigger] prim_colors_ok(
                        list.layers@[kk].primitives@[j],
                        palette_entries(list.palette.colors@),
                    ),
                forall|j: int| 0 <= j < i ==> #[trigger] prim_colors_ok(layer.primitives@[j], palette_entries(list.palette.colors@)),
            decreases layer.primitives@.len() - i,
        {
            if !prim_colors_resolve(&layer.primitives[i], &list.palette) {
                return false;
            }
            i += 1;
        }
        k += 1;
    }
    true
}

/// The colour of a role.
pub open spec fn color_of(entries: Seq<(ColorId, Seq<char>)>, id: ColorId) -> Seq<char> {
    palette_lookup(entries, id).unwrap()
}

pub open spec fn anchor_name(a: TextAnchor) -> Seq<char> {
    match a {
        TextAnchor::Middle => "middle"@,
        TextAnchor::Start => "start"@,
        TextAnchor::End => "end"@,
    }
}

/// Appending to `start + acc` the piece `piece` is appending `acc + piece` to `start`.
proof fn lemma_extend(start: Seq<char>, acc: Seq<char>, piece: Seq<char>, now: Seq<char>)
    requires
        now == (start + acc) + piece || (piece =~= Seq::<char>::empty() && now == start + acc),
    ensures
        now == start + (acc + piece),
{
    vstd::seq_lib::lemma_concat_associative(start, acc, piece);
    if piece =~= Seq::<char>::empty() {
        assert(acc + piece =~= acc);
    }
}

fn push_attr_decimal(svg: &mut String, name: &str, n: u64)
    ensures
        final(svg)@ == old(svg)@ + attr(name@, decimal(n as nat)),
{
    let ghost start = svg@;
    svg.append(" ");
    svg.append(name);
    svg.append("=\"");
    push_decimal(svg, n);
    svg.append("\"");
    proof {
        assert(svg@ =~= start + attr(name@, decimal(n as nat)));
    }
}

/// The text-anchor keywords name the anchors apart, and name each as the
/// Canvas stream tags it (0 start, 1 middle, 2 end), so both backends align
/// a text the same way; a text without an anchor gets no attribute in SVG,
/// whose default is `start`, and the start tag on Canvas.
pub proof fn lemma_anchor_keyword_matches_canvas_tag(a: TextAnchor, b: TextAnchor)
    ensures
        anchor_name(a) == (if anchor_tag(Some(a)) == 0 {
            "start"@
        } else if anchor_tag(Some(a)) == 1 {
            "middle"@
        } else {
            "end"@
        }),
        anchor_tag(Some(a)) <= 2,
        a != b ==> anchor_name(a) != anchor_name(b),
        a != b ==> anchor_tag(Some(a)) != anchor_tag(Some(b)),
        anchor_tag(None) == anchor_tag(Some(TextAnchor::Start)),
{
    reveal_strlit("start");
    reveal_strlit("middle");
    reveal_strlit("end");
}

pub open spec fn text_head(t: TextPrim<String>) -> Seq<char> {
    "<text"@ + attr("x"@, t.x@) + attr("y"@, t.y@)
}

pub open spec fn text_anchor_part(t: TextPrim<String>) -> Seq<char> {
    match t.anchor {
        Some(a) => attr("text-anchor"@, anchor_name(a)),
        None => Seq::empty(),
    }
}

pub open spec fn text_fill_part(t: TextPrim<String>, pal: Seq<(ColorId, Seq<char>)>) -> Seq<char> {
    match t.fill {
        Some(f) => attr("fill"@, color_of(pal, f)),
        None => Seq::empty(),
    }
}

pub open spec fn text_size_part(t: TextPrim<String>) -> Seq<char> {
    match t.font_size {
        Some(s) => attr("font-size"@, s@),
        None => Seq::empty(),
    }
}

pub open spec fn text_weight_part(t: TextPrim<String>) -> Seq<char> {
    match t.font_weight {
        Some(w) => attr("font-weight"@, decimal(w as nat)),
        None => Seq::empty(),
    }
}

pub open spec fn text_baseline_part(t: TextPrim<String>) -> Seq<char> {
    match t.baseline {
        TextBaseline::Middle => attr("dominant-baseline"@, "middle"@),
        TextBaseline::Auto => Seq::empty(),
    }
}

/// A `<text>` element; its content is escaped.
pub open spec fn text_svg(t: TextPrim<String>, pal: Seq<(ColorId, Seq<char>)>) -> Seq<char> {
    text_head(t) + text_anchor_part(t) + text_fill_part(t, pal) + text_size_part(t) + text_weight_part(t) + text_baseline_part(t)
        + ">"@ + escaped(t.content@) + "</text>"@
}

/// One writer for every kind of text; which attributes it gets follows from
/// the fields the display list filled in.
fn render_text(svg: &mut String, t: &TextPrim<String>, palette: &Palette)
    requires
        prim_colors_ok(Primitive::Text(*t), palette_entries(palette.colors@)),
    ensures
        final(svg)@ == old(svg)@ + text_svg(*t, palette_entries(palette.colors@)),
{
    let ghost pal = palette_entries(palette.colors@);
    let ghost start = svg@;
    svg.append("<text");
    push_attr(svg, "x", t.x.as_str());
    push_attr(svg, "y", t.y.as_str());
    proof {
        assert(svg@ =~= start + text_head(*t));
    }
    let ghost acc = text_head(*t);
    match t.anchor {
        Some(anchor) => {
            let name = match anchor {
                TextAnchor::Middle => "middle",
                TextAnchor::Start => "start",
                TextAnchor::End => "end",
            };
            push_attr(svg, "text-anchor", name);
        },
        None => {},
    }
    proof {
        lemma_extend(start, acc, text_anchor_part(*t), svg@);
    }
    let ghost acc = acc + text_anchor_part(*t);
    match t.fill {
        Some(fill) => {
            let color = palette.resolve(fill);
            push_attr(svg, "fill", color);
        },
        None => {},
    }
    proof {
        lemma_extend(start, acc, text_fill_part(*t, pal), svg@);
    }
    let ghost acc = acc + text_fill_part(*t, pal);
    match &t.font_size {
        Some(size) => push_attr(svg, "font-size", size.as_str()),
        None => {},
    }
    proof {
        lemma_extend(start, acc, text_size_part(*t), svg@);
    }
    let ghost acc = acc + text_size_part(*t);
    match t.font_weight {
        Some(weight) => push_attr_decimal(svg, "font-weight", weight as u64),
        None => {},
    }
    proof {
        lemma_extend(start, acc, text_weight_part(*t), svg@);
    }
    let ghost acc = acc + text_weight_part(*t);
    match t.baseline {
        TextBaseline::Middle => push_attr(svg, "dominant-baseline", "middle"),
        TextBaseline::Auto => {},
    }
    proof {
        lemma_extend(start, acc, text_baseline_part(*t), svg@);
    }
    let ghost acc = acc + text_baseline_part(*t);
    svg.append(">");
    proof {
        lemma_extend(start, acc, ">"@, svg@);
    }
    let ghost acc = acc + ">"@;
    let content = escape_xml(t.content.as_str());
    svg.append(content.as_str());
    proof {
        lemma_extend(start, acc, escaped(t.content@), svg@);
    }
    let ghost acc = acc + escaped(t.content@);
    svg.append("</text>");
    proof {
        lemma_extend(start, acc, "</text>"@, svg@);
    }
}

/// The children draw the legend of the progress line.
pub open spec fn is_progress_legend(children: Seq<Primitive<String>>) -> bool {
    exists|i: int|
        0 <= i < children.len() && (#[trigger] children[i] matches Primitive::Line(l) && l.semantic == LineSemantic::LegendProgressLine)
}

/// The children draw the legend of the progress tiers.
pub open spec fn is_tier_legend(children: Seq<Primitive<String>>) -> bool {
    exists|i: int|
        0 <= i < children.len() && (#[trigger] children[i] matches Primitive::Rect(r) && r.semantic == RectSemantic::LegendSwatch)
}

/// The opening tag of a group.
pub open spec fn group_tag_svg(g: GroupPrim<String>) -> Seq<char> {
    match g.task_id {
        Some(id) => "<g"@ + attr("data-task-id"@, escaped(id@)) + ">"@,
        None => if is_progress_legend(g.children@) {
            "<g"@ + attr("class"@, "progress-line-legend"@) + attr("aria-hidden"@, "true"@) + ">"@
        } else if is_tier_legend(g.children@) {
            "<g"@ + attr("class"@, "bar-tier-legend"@) + attr("aria-hidden"@, "true"@) + ">"@
        } else {
            "<g>"@
        },
    }
}

/// The tooltip of a group.
pub open spec fn group_title_svg(g: GroupPrim<String>) -> Seq<char> {
    match g.tooltip {
        Some(t) => "<title>"@ + escaped(t@) + "</title>"@,
        None => Seq::empty(),
    }
}

/// The opening tag of a group and its tooltip.
pub open spec fn group_open_svg(g: GroupPrim<String>) -> Seq<char> {
    group_tag_svg(g) + group_title_svg(g)
}

pub open spec fn line_svg(l: crate::display_list::types::LinePrim<String>, pal: Seq<(ColorId, Seq<char>)>) -> Seq<char> {
    "<line"@ + attr("x1"@, l.x1@) + attr("y1"@, l.y1@) + attr("x2"@, l.x2@) + attr("y2"@, l.y2@) + attr("stroke"@, color_of(pal, l.stroke))
        + attr("stroke-width"@, l.stroke_width@) + opt_attr("stroke-dasharray"@, opt_view(l.stroke_dash)) + "/>"@
}

pub open spec fn path_svg(p: crate::display_list::types::PathPrim<String>, pal: Seq<(ColorId, Seq<char>)>) -> Seq<char> {
    "<path"@ + attr("d"@, p.d@) + attr("fill"@, "none"@) + attr("stroke"@, color_of(pal, p.stroke)) + attr("stroke-width"@, p.stroke_width@)
        + attr("stroke-linecap"@, "round"@) + attr("stroke-linejoin"@, "round"@) + "/>"@
}

pub open spec fn polyline_svg(p: crate::display_list::types::PolylinePrim<String>, pal: Seq<(ColorId, Seq<char>)>) -> Seq<char> {
    "<polyline"@ + attr("class"@, "progress-status-line"@) + attr("points"@, points_text(p.points@)) + attr("fill"@, "none"@) + attr(
        "stroke"@,
        color_of(pal, p.stroke),
    ) + attr("stroke-width"@, p.stroke_width@) + opt_attr("stroke-dasharray"@, opt_view(p.stroke_dash)) + "/>"@
}

pub open spec fn polygon_svg(p: crate::display_list::types::PolygonPrim<String>, pal: Seq<(ColorId, Seq<char>)>) -> Seq<char> {
    "<polygon"@ + attr("class"@, "bar-milestone bar-tier-"@ + tier_suffix(p.tier)) + attr("points"@, points_text(p.points@)) + attr(
        "fill"@,
        color_of(pal, p.fill),
    ) + attr("stroke"@, color_of(pal, p.stroke)) + attr("stroke-width"@, p.stroke_width@) + "/>"@
}

/// The markup of a primitive that is not a group.
pub open spec fn leaf_svg(p: Primitive<String>, pal: Seq<(ColorId, Seq<char>)>) -> Seq<char> {
    match p {
        Primitive::Rect(r) => rect_svg(
            if r.semantic == RectSemantic::BarBackground {
                Some("bar-bg"@)
            } else {
                None
            },
            (r.x@, r.y@, r.width@, r.height@),
            opt_view(r.rx),
            color_of(pal, r.fill),
        ),
        Primitive::RoundRect(r) => rect_svg(
            Some("bar-progress bar-tier-"@ + tier_suffix(r.tier)),
            (r.x@, r.y@, r.width@, r.height@),
            Some(r.rx@),
            color_of(pal, r.fill),
        ),
        Primitive::Line(l) => line_svg(l, pal),
        Primitive::Path(p) => path_svg(p, pal),
        Primitive::Polyline(p) => polyline_svg(p, pal),
        Primitive::Polygon(p) => polygon_svg(p, pal),
        Primitive::Text(t) => text_svg(t, pal),
        Primitive::Group(_) => Seq::empty(),
    }
}

/// The markup of one primitive, a group written around its children.
pub open spec fn prim_svg(p: Primitive<String>, pal: Seq<(ColorId, Seq<char>)>) -> Seq<char>
    decreases p, 0nat,
{
    match p {
        Primitive::Group(g) => group_open_svg(g) + prims_svg(g.children@, pal) + "</g>"@,
        other => leaf_svg(other, pal),
    }
}

/// The markup of a sequence of primitives.
pub open spec fn prims_svg(prims: Seq<Primitive<String>>, pal: Seq<(ColorId, Seq<char>)>) -> Seq<char>
    decreases prims, prims.len(),
{
    if prims.len() == 0 {
        Seq::empty()
    } else {
        prims_svg(prims.drop_last(), pal) + prim_svg(prims.last(), pal)
    }
}

proof fn lemma_prims_svg_push(prims: Seq<Primitive<String>>, i: int, pal: Seq<(ColorId, Seq<char>)>)
    requires
        0 <= i < prims.len(),
    ensures
        prims_svg(prims.subrange(0, i + 1), pal) == prims_svg(prims.subrange(0, i), pal) + prim_svg(prims[i], pal),
{
    assert(prims.subrange(0, i + 1).drop_last() =~= prims.subrange(0, i));
    assert(prims.subrange(0, i + 1).last() == prims[i]);
}

fn has_progress_legend_line(children: &Vec<Primitive<String>>) -> (res: bool)
    ensures
        res == is_progress_legend(children@),
{
    let mut i: usize = 0;
    while i < children.len()
        invariant
            i <= children@.len(),
            forall|k: int| 0 <= k < i ==> !(#[trigger] children@[k] matches Primitive::Line(l) && l.semantic == LineSemantic::LegendProgressLine),
        decreases children@.len() - i,
    {
        match &children[i] {
            Primitive::Line(l) => {
                if l.semantic == LineSemantic::LegendProgressLine {
                    return true;
                }
            },
            _ => {},
        }
        i += 1;
    }
    false
}

fn has_legend_swatch(children: &Vec<Primitive<String>>) -> (res: bool)
    ensures
        res == is_tier_legend(children@),
{
    let mut i: usize = 0;
    while i < children.len()
        invariant
            i <= children@.len(),
            forall|k: int| 0 <= k < i ==> !(#[trigger] children@[k] matches Primitive::Rect(r) && r.semantic == RectSemantic::LegendSwatch),
        decreases children@.len() - i,
    {
        match &children[i] {
            Primitive::Rect(r) => {
                if r.semantic == RectSemantic::LegendSwatch {
                    return true;
                }
            },
            _ => {},
        }
        i += 1;
    }
    false
}

fn render_line(svg: &mut String, l: &crate::display_list::types::LinePrim<String>, palette: &Palette)
    requires
        prim_colors_ok(Primitive::Line(*l), palette_entries(palette.colors@)),
    ensures
        final(svg)@ == old(svg)@ + line_svg(*l, palette_entries(palette.colors@)),
{
    let ghost pal = palette_entries(palette.colors@);
    let ghost start = svg@;
    svg.append("<line");
    push_attr(svg, "x1", l.x1.as_str());
    push_attr(svg, "y1", l.y1.as_str());
    push_attr(svg, "x2", l.x2.as_str());
    push_attr(svg, "y2", l.y2.as_str());
    proof {
        assert(svg@ =~= start + ("<line"@ + attr("x1"@, l.x1@) + attr("y1"@, l.y1@) + attr("x2"@, l.x2@) + attr("y2"@, l.y2@)));
    }
    let ghost acc = "<line"@ + attr("x1"@, l.x1@) + attr("y1"@, l.y1@) + attr("x2"@, l.x2@) + attr("y2"@, l.y2@);
    push_attr(svg, "stroke", palette.resolve(l.stroke));
    proof {
        lemma_extend(start, acc, attr("stroke"@, color_of(pal, l.stroke)), svg@);
    }
    let ghost acc = acc + attr("stroke"@, color_of(pal, l.stroke));
    push_attr(svg, "stroke-width", l.stroke_width.as_str());
    proof {
        lemma_extend(start, acc, attr("stroke-width"@, l.stroke_width@), svg@);
    }
    let ghost acc = acc + attr("stroke-width"@, l.stroke_width@);
    let dash = match &l.stroke_dash {
        Some(d) => Some(d.as_str()),
        None => None,
    };
    push_dash(svg, dash);
    proof {
        lemma_extend(start, acc, opt_attr("stroke-dasharray"@, opt_view(l.stroke_dash)), svg@);
    }
    let ghost acc = acc + opt_attr("stroke-dasharray"@, opt_view(l.stroke_dash));
    svg.append("/>");
    proof {
        lemma_extend(start, acc, "/>"@, svg@);
    }
}

fn render_path(svg: &mut String, p: &crate::display_list::types::PathPrim<String>, palette: &Palette)
    requires
        prim_colors_ok(Primitive::Path(*p), palette_entries(palette.colors@)),
    ensures
        final(svg)@ == old(svg)@ + path_svg(*p, palette_entries(palette.colors@)),
{
    let ghost pal = palette_entries(palette.colors@);
    let ghost start = svg@;
    svg.append("<path");
    push_attr(svg, "d", p.d.as_str());
    push_attr(svg, "fill", "none");
    proof {
        assert(svg@ =~= start + ("<path"@ + attr("d"@, p.d@) + attr("fill"@, "none"@)));
    }
    let ghost acc = "<path"@ + attr("d"@, p.d@) + attr("fill"@, "none"@);
    push_attr(svg, "stroke", palette.resolve(p.stroke));
    proof {
        lemma_extend(start, acc, attr("stroke"@, color_of(pal, p.stroke)), svg@);
    }
    let ghost acc = acc + attr("stroke"@, color_of(pal, p.stroke));
    push_attr(svg, "stroke-width", p.stroke_width.as_str());
    proof {
        lemma_extend(start, acc, attr("stroke-width"@, p.stroke_width@), svg@);
    }
    let ghost acc = acc + attr("stroke-width"@, p.stroke_width@);
    push_attr(svg, "stroke-linecap", "round");
    proof {
        lemma_extend(start, acc, attr("stroke-linecap"@, "round"@), svg@);
    }
    let ghost acc = acc + attr("stroke-linecap"@, "round"@);
    push_attr(svg, "stroke-linejoin", "round");
    proof {
        lemma_extend(start, acc, attr("stroke-linejoin"@, "round"@), svg@);
    }
    let ghost acc = acc + attr("stroke-linejoin"@, "round"@);
    svg.append("/>");
    proof {
        lemma_extend(start, acc, "/>"@, svg@);
    }
}

fn render_polyline(svg: &mut String, p: &crate::display_list::types::PolylinePrim<String>, palette: &Palette)
    requires
        prim_colors_ok(Primitive::Polyline(*p), palette_entries(palette.colors@)),
    ensures
        final(svg)@ == old(svg)@ + polyline_svg(*p, palette_entries(palette.colors@)),
{
    let ghost pal = palette_entries(palette.colors@);
    let ghost start = svg@;
    svg.append("<polyline");
    push_attr(svg, "class", "progress-status-line");
    proof {
        assert(svg@ =~= start + ("<polyline"@ + attr("class"@, "progress-status-line"@)));
    }
    let ghost acc = "<polyline"@ + attr("class"@, "progress-status-line"@);
    let points = join_points(p.points.as_slice());
    push_attr(svg, "points", points.as_str());
    proof {
        lemma_extend(start, acc, attr("points"@, points_text(p.points@)), svg@);
    }
    let ghost acc = acc + attr("points"@, points_text(p.points@));
    push_attr(svg, "fill", "none");
    proof {
        lemma_extend(start, acc, attr("fill"@, "none"@), svg@);
    }
    let ghost acc = acc + attr("fill"@, "none"@);
    push_attr(svg, "stroke", palette.resolve(p.stroke));
    proof {
        lemma_extend(start, acc, attr("stroke"@, color_of(pal, p.stroke)), svg@);
    }
    let ghost acc = acc + attr("stroke"@, color_of(pal, p.stroke));
    push_attr(svg, "stroke-width", p.stroke_width.as_str());
    proof {
        lemma_extend(start, acc, attr("stroke-width"@, p.stroke_width@), svg@);
    }
    let ghost acc = acc + attr("stroke-width"@, p.stroke_width@);
    let dash = match &p.stroke_dash {
        Some(d) => Some(d.as_str()),
        None => None,
    };
    push_dash(svg, dash);
    proof {
        lemma_extend(start, acc, opt_attr("stroke-dasharray"@, opt_view(p.stroke_dash)), svg@);
    }
    let ghost acc = acc + opt_attr("stroke-dasharray"@, opt_view(p.stroke_dash));
    svg.append("/>");
    proof {
        lemma_extend(start, acc, "/>"@, svg@);
    }
}

fn render_polygon(svg: &mut String, p: &crate::display_list::types::PolygonPrim<String>, palette: &Palette)
    requires
        prim_colors_ok(Primitive::Polygon(*p), palette_entries(palette.colors@)),
    ensures
        final(svg)@ == old(svg)@ + polygon_svg(*p, palette_entries(palette.colors@)),
{
    let ghost pal = palette_entries(palette.colors@);
    let ghost start = svg@;
    svg.append("<polygon");
    let mut class = String::from_str("bar-milestone bar-tier-");
    class.append(p.tier.css_suffix());
    push_attr(svg, "class", class.as_str());
    proof {
        assert(svg@ =~= start + ("<polygon"@ + attr("class"@, "bar-milestone bar-tier-"@ + tier_suffix(p.tier))));
    }
    let ghost acc = "<polygon"@ + attr("class"@, "bar-milestone bar-tier-"@ + tier_suffix(p.tier));
    let points = join_points(p.points.as_slice());
    push_attr(svg, "points", points.as_str());
    proof {
        lemma_extend(start, acc, attr("points"@, points_text(p.points@)), svg@);
    }
    let ghost acc = acc + attr("points"@, points_text(p.points@));
    push_attr(svg, "fill", palette.resolve(p.fill));
    proof {
        lemma_extend(start, acc, attr("fill"@, color_of(pal, p.fill)), svg@);
    }
    let ghost acc = acc + attr("fill"@, color_of(pal, p.fill));
    push_attr(svg, "stroke", palette.resolve(p.stroke));
    proof {
        lemma_extend(start, acc, attr("stroke"@, color_of(pal, p.stroke)), svg@);
    }
    let ghost acc = acc + attr("stroke"@, color_of(pal, p.stroke));
    push_attr(svg, "stroke-width", p.stroke_width.as_str());
    proof {
        lemma_extend(start, acc, attr("stroke-width"@, p.stroke_width@), svg@);
    }
    let ghost acc = acc + attr("stroke-width"@, p.stroke_width@);
    svg.append("/>");
    proof {
        lemma_extend(start, acc, "/>"@, svg@);
    }
}

fn render_group_open(svg: &mut String, g: &GroupPrim<String>)
    ensures
        final(svg)@ == old(svg)@ + group_open_svg(*g),
{
    let ghost start = svg@;
    let is_progress = has_progress_legend_line(&g.children);
    let is_tier = has_legend_swatch(&g.children);
    match &g.task_id {
        Some(id) => {
            svg.append("<g");
            let escaped_id = escape_xml(id.as_str());
            push_attr(svg, "data-task-id", escaped_id.as_str());
            svg.append(">");
        },
        None => {
            if is_progress {
                svg.append("<g");
                push_attr(svg, "class", "progress-line-legend");
                push_attr(svg, "aria-hidden", "true");
                svg.append(">");
            } else if is_tier {
                svg.append("<g");
                push_attr(svg, "class", "bar-tier-legend");
                push_attr(svg, "aria-hidden", "true");
                svg.append(">");
            } else {
                svg.append("<g>");
            }
        },
    }
    proof {
        assert(svg@ =~= start + group_tag_svg(*g));
    }
    match &g.tooltip {
        Some(tooltip) => {
            svg.append("<title>");
            let escaped_tip = escape_xml(tooltip.as_str());
            svg.append(escaped_tip.as_str());
            svg.append("</title>");
            proof {
                assert(svg@ =~= (start + group_tag_svg(*g)) + group_title_svg(*g));
            }
        },
        None => {},
    }
    proof {
        lemma_extend(start, group_tag_svg(*g), group_title_svg(*g), svg@);
    }
}

/// Write one primitive; a group is written around its children. Every
/// geometry attribute is read off the primitive.
pub fn render_primitive(svg: &mut String, prim: &Primitive<String>, palette: &Palette)
    requires
        prim_colors_ok(*prim, palette_entries(palette.colors@)),
    ensures
        final(svg)@ == old(svg)@ + prim_svg(*prim, palette_entries(palette.colors@)),
    decreases prim,
{
    let ghost pal = palette_entries(palette.colors@);
    match prim {
        Primitive::Rect(r) => {
            let class = if r.semantic == RectSemantic::BarBackground {
                Some("bar-bg")
            } else {
                None
            };
            let rx = match &r.rx {
                Some(v) => Some(v.as_str()),
                None => None,
            };
            push_rect(svg, class, (r.x.as_str(), r.y.as_str(), r.width.as_str(), r.height.as_str()), rx, palette.resolve(r.fill));
        },
        Primitive::RoundRect(r) => {
            let mut class = String::from_str("bar-progress bar-tier-");
            class.append(r.tier.css_suffix());
            push_rect(
                svg,
                Some(class.as_str()),
                (r.x.as_str(), r.y.as_str(), r.width.as_str(), r.height.as_str()),
                Some(r.rx.as_str()),
                palette.resolve(r.fill),
            );
        },
        Primitive::Line(l) => render_line(svg, l, palette),
        Primitive::Path(p) => render_path(svg, p, palette),
        Primitive::Polyline(p) => render_polyline(svg, p, palette),
        Primitive::Polygon(p) => render_polygon(svg, p, palette),
        Primitive::Text(t) => render_text(svg, t, palette),
        Primitive::Group(g) => {
            let ghost start = svg@;
            render_group_open(svg, g);
            let ghost opened = svg@;
            let mut i: usize = 0;
            while i < g.children.len()
                invariant
                    *prim == Primitive::Group(*g),
                    i <= g.children@.len(),
                    prim_colors_ok(*prim, pal),
                    pal == palette_entries(palette.colors@),
                    svg@ == opened + prims_svg(g.children@.subrange(0, i as int), pal),
                decreases g.children@.len() - i,
            {
                proof {
                    lemma_prims_svg_push(g.children@, i as int, pal);
                    let group = *g;
                    let whole = Primitive::Group(group);
                    assert(decreases_to!(whole => whole->Group_0));
                    assert(decreases_to!(group => group.children));
                    assert(decreases_to!(group.children => group.children@));
                    assert(decreases_to!(group.children@ => group.children@[i as int]));
                    assert(decreases_to!(whole => group.children@[i as int]));
                }
                let ghost before = svg@;
                assert(prim_colors_ok(g.children@[i as int], pal)) by {
                    lemma_prims_colors_each(g.children@, pal);
                }
                render_primitive(svg, &g.children[i], palette);
                proof {
                    vstd::seq_lib::lemma_concat_associative(
                        opened,
                        prims_svg(g.children@.subrange(0, i as int), pal),
                        prim_svg(g.children@[i as int], pal),
                    );
                }
                i += 1;
            }
            proof {
                assert(g.children@.subrange(0, g.children@.len() as int) =~= g.children@);
            }
            svg.append("</g>");
            proof {
                assert(svg@ =~= start + prim_svg(*prim, pal));
            }
        },
    }
}

/// The opening of the SVG document for a chart of the given size.
pub open spec fn svg_header(width: Seq<char>, height: Seq<char>) -> Seq<char> {
    "<svg"@ + attr("xmlns"@, "http://www.w3.org/2000/svg"@) + attr("width"@, width) + attr("height"@, height) + attr(
        "viewBox"@,
        "0 0 "@ + width + " "@ + height,
    ) + attr("role"@, "img"@) + attr("aria-label"@, "Gantt chart"@) + attr("font-family"@, "sans-serif"@) + attr(
        "font-size"@,
        decimal(DEFAULT_FONT_SIZE_PX as nat),
    ) + ">"@ + "<title>Gantt chart</title>"@ + "<desc>Task schedule with progress bars and dependency arrows</desc>"@
}

/// The markup of all layers, in order.
pub open spec fn layers_svg(layers: Seq<Layer<String>>, pal: Seq<(ColorId, Seq<char>)>) -> Seq<char>
    decreases layers.len(),
{
    if layers.len() == 0 {
        Seq::empty()
    } else {
        layers_svg(layers.drop_last(), pal) + prims_svg(layers.last().primitives@, pal)
    }
}

/// The SVG document of a chart.
pub open spec fn svg_document(list: DisplayList<String>) -> Seq<char> {
    svg_header(list.viewport.width@, list.viewport.height@) + layers_svg(list.layers@, palette_entries(list.palette.colors@))
        + "</svg>"@
}

/// Write the whole chart as one SVG document.
pub fn render_svg_from_list(list: &DisplayList<String>) -> (res: String)
    requires
        list_colors_ok(*list),
    ensures
        res@ == svg_document(*list),
{
    let ghost pal = palette_entries(list.palette.colors@);
    let chart_w = list.viewport.width.as_str();
    let chart_h = list.viewport.height.as_str();
    let mut svg = String::from_str("<svg");
    push_attr(&mut svg, "xmlns", "http://www.w3.org/2000/svg");
    push_attr(&mut svg, "width", chart_w);
    push_attr(&mut svg, "height", chart_h);
    let mut view_box = String::from_str("0 0 ");
    view_box.append(chart_w);
    view_box.append(" ");
    view_box.append(chart_h);
    push_attr(&mut svg, "viewBox", view_box.as_str());
    push_attr(&mut svg, "role", "img");
    push_attr(&mut svg, "aria-label", "Gantt chart");
    push_attr(&mut svg, "font-family", "sans-serif");
    svg.append(" ");
    svg.append("font-size");
    svg.append("=\"");
    push_decimal(&mut svg, DEFAULT_FONT_SIZE_PX as u64);
    svg.append("\"");
    svg.append(">");
    svg.append("<title>Gantt chart</title>");
    svg.append("<desc>Task schedule with progress bars and dependency arrows</desc>");
    proof {
        assert(svg@ =~= svg_header(list.viewport.width@, list.viewport.height@));
    }
    let ghost header = svg@;
    let mut k: usize = 0;
    while k < list.layers.len()
        invariant
            k <= list.layers@.len(),
            list_colors_ok(*list),
            pal == palette_entries(list.palette.colors@),
            svg@ == header + layers_svg(list.layers@.subrange(0, k as int), pal),
        decreases list.layers@.len() - k,
    {
        proof {
            assert(list.layers@.subrange(0, k + 1).drop_last() =~= list.layers@.subrange(0, k as int));
        }
        let layer = &list.layers[k];
        let ghost before = svg@;
        let mut i: usize = 0;
        while i < layer.primitives.len()
            invariant
                i <= layer.primitives@.len(),
                list_colors_ok(*list),
                k < list.layers@.len(),
                *layer == list.layers@[k as int],
                pal == palette_entries(list.palette.colors@),
                svg@ == before + prims_svg(layer.primitives@.subrange(0, i as int), pal),
            decreases layer.primitives@.len() - i,
        {
            proof {
                lemma_prims_svg_push(layer.primitives@, i as int, pal);
            }
            render_primitive(&mut svg, &layer.primitives[i], &list.palette);
            proof {
                vstd::seq_lib::lemma_concat_associative(
                    before,
                    prims_svg(layer.primitives@.subrange(0, i as int), pal),
                    prim_svg(layer.primitives@[i as int], pal),
                );
            }
            i += 1;
        }
        proof {
            assert(layer.primitives@.subrange(0, layer.primitives@.len() as int) =~= layer.primitives@);
        }
        k += 1;
    }
    proof {
        assert(list.layers@.subrange(0, list.layers@.len() as int) =~= list.layers@);
    }
    svg.append("</svg>");
    svg
}

/// The document drawn when there is nothing to draw.
pub open spec fn empty_svg_text() -> Seq<char> {
    "<svg xmlns=\"http://www.w3.org/2000/svg\" width=\"0\" height=\"0\" viewBox=\"0 0 0 0\" role=\"img\" aria-label=\"Empty Gantt chart\" font-family=\"sans-serif\" font-size=\"12\"><title>Empty Gantt chart</title><desc>No tasks to display</desc></svg>"@
}

pub fn empty_svg() -> (res: String)
    ensures
        res@ == empty_svg_text(),
{
    String::from_str(
        "<svg xmlns=\"http://www.w3.org/2000/svg\" width=\"0\" height=\"0\" viewBox=\"0 0 0 0\" role=\"img\" aria-label=\"Empty Gantt chart\" font-family=\"sans-serif\" font-size=\"12\"><title>Empty Gantt chart</title><desc>No tasks to display</desc></svg>",
    )
}

} // verus!
