//! The Canvas writer: a display list flattened into draw commands, colours
//! as tags, groups bracketed by start and end commands.
use vstd::prelude::*;
use crate::backend::command_buffer::{CommandBuffer, DrawOp};
use crate::display_list::constants::DEFAULT_FONT_WEIGHT;
use crate::display_list::types::{palette_entries, prims_count, standard_roles, ColorId, DisplayList, Layer, Palette, Primitive, TextAnchor};
use crate::text::{clone_opt, opt_view};

verus! {

/// The Canvas backend.
pub struct CanvasBackend;

/// The tag of a colour role: its place in the standard palette.
pub open spec fn color_tag(id: ColorId) -> u8 {
    match id {
        ColorId::BarBg => 0,
        ColorId::TierLow => 1,
        ColorId::TierMid => 2,
        ColorId::TierHigh => 3,
        ColorId::TierDone => 4,
        ColorId::Dep => 5,
        ColorId::Progress => 6,
        ColorId::Grid => 7,
        ColorId::Today => 8,
        ColorId::HeaderBg => 9,
        ColorId::GridLabel => 10,
        ColorId::ProgressTextOnFg => 11,
        ColorId::ProgressTextOnBg => 12,
    }
}

/// A tag names one role, and it is where the standard palette lists that role.
pub proof fn lemma_color_tag_indexes_standard_palette(id: ColorId)
    ensures
        color_tag(id) < 13,
        standard_roles()[color_tag(id) as int] == id,
        forall|other: ColorId| color_tag(other) == color_tag(id) ==> other == id,
{
}

pub fn color_id_tag(id: ColorId) -> (tag: u8)
    ensures
        tag == color_tag(id),
{
    match id {
        ColorId::BarBg => 0,
        ColorId::TierLow => 1,
        ColorId::TierMid => 2,
        ColorId::TierHigh => 3,
        ColorId::TierDone => 4,
        ColorId::Dep => 5,
        ColorId::Progress => 6,
        ColorId::Grid => 7,
        ColorId::Today => 8,
        ColorId::HeaderBg => 9,
        ColorId::GridLabel => 10,
        ColorId::ProgressTextOnFg => 11,
        ColorId::ProgressTextOnBg => 12,
    }
}

/// The tag of a text anchor; start when there is none.
pub open spec fn anchor_tag(a: Option<TextAnchor>) -> u8 {
    match a {
        Some(TextAnchor::Start) => 0,
        Some(TextAnchor::Middle) => 1,
        Some(TextAnchor::End) => 2,
        None => 0,
    }
}

/// Tag of text that names no colour of its own.
pub const NO_COLOR_TAG: u8 = 255;

/// `op` is the one command a primitive other than a group becomes;
/// `zero` stands in for a missing radius and `font_size` for a missing size.
pub open spec fn leaf_op_ok<C>(op: DrawOp<C>, p: Primitive<C>, zero: C, font_size: C) -> bool {
    match p {
        Primitive::Rect(r) => op == DrawOp::FillRect {
            x: r.x,
            y: r.y,
            w: r.width,
            h: r.height,
            color_id: color_tag(r.fill),
            radius: match r.rx {
                Some(v) => v,
                None => zero,
            },
        },
        Primitive::RoundRect(r) => op == DrawOp::FillRect {
            x: r.x,
            y: r.y,
            w: r.width,
            h: r.height,
            color_id: color_tag(r.fill),
            radius: r.rx,
        },
        Primitive::Line(l) => op matches DrawOp::StrokePolyline { points, color_id, width, dash } && points@ == seq![
            (l.x1, l.y1),
            (l.x2, l.y2),
        ] && color_id == color_tag(l.stroke) && width == l.stroke_width && opt_view(dash) == opt_view(l.stroke_dash),
        Primitive::Path(p) => op matches DrawOp::StrokePath { d, color_id, width } && d@ == p.d@ && color_id == color_tag(p.stroke)
            && width == p.stroke_width,
        Primitive::Polyline(p) => op matches DrawOp::StrokePolyline { points, color_id, width, dash } && points@ == p.points@
            && color_id == color_tag(p.stroke) && width == p.stroke_width && opt_view(dash) == opt_view(p.stroke_dash),
        Primitive::Polygon(p) => op matches DrawOp::FillPolygon { points, color_id } && points@ == p.points@ && color_id == color_tag(
            p.fill,
        ),
        Primitive::Text(t) => op matches DrawOp::DrawText { x, y, text, color_id, anchor, size, weight } && x == t.x && y == t.y
            && text@ == t.content@ && color_id == (match t.fill {
            Some(f) => color_tag(f),
            None => NO_COLOR_TAG,
        }) && anchor == anchor_tag(t.anchor) && size == (match t.font_size {
            Some(s) => s,
            None => font_size,
        }) && weight == (match t.font_weight {
            Some(w) => w,
            None => DEFAULT_FONT_WEIGHT,
        }),
        Primitive::Group(_) => false,
    }
}

/// How many commands a primitive becomes: one, or for a group its children's
/// commands between a start and an end.
pub open spec fn prim_op_count<C>(p: Primitive<C>) -> nat
    decreases p, 0nat,
{
    match p {
        Primitive::Group(g) => 2 + prims_op_count(g.children@),
        _ => 1,
    }
}

pub open spec fn prims_op_count<C>(prims: Seq<Primitive<C>>) -> nat
    decreases prims, prims.len(),
{
    if prims.len() == 0 {
        0
    } else {
        prims_op_count(prims.drop_last()) + prim_op_count(prims.last())
    }
}

/// `ops` are the commands primitive `p` becomes.
pub open spec fn prim_ops_ok<C>(ops: Seq<DrawOp<C>>, p: Primitive<C>, zero: C, font_size: C) -> bool
    decreases p, 0nat,
{
    &&& ops.len() == prim_op_count(p)
    &&& match p {
        Primitive::Group(g) => {
            &&& ops[0] matches DrawOp::GroupStart { task_id } && opt_view(task_id) == opt_view(g.task_id)
            &&& ops[ops.len() - 1] is GroupEnd
            &&& prims_ops_ok(ops.subrange(1, ops.len() - 1), g.children@, zero, font_size)
        },
        other => leaf_op_ok(ops[0], other, zero, font_size),
    }
}

/// `ops` are the commands the primitives `prims` become, in order.
pub open spec fn prims_ops_ok<C>(ops: Seq<DrawOp<C>>, prims: Seq<Primitive<C>>, zero: C, font_size: C) -> bool
    decreases prims, prims.len(),
{
    &&& ops.len() == prims_op_count(prims)
    &&& prims.len() > 0 ==> {
        let k = prims_op_count(prims.drop_last()) as int;
        &&& prims_ops_ok(ops.subrange(0, k), prims.drop_last(), zero, font_size)
        &&& prim_ops_ok(ops.subrange(k, ops.len() as int), prims.last(), zero, font_size)
    }
}

/// Commands for `prims` followed by commands for `p` are commands for `prims` then `p`.
pub proof fn lemma_prims_ops_push<C>(a: Seq<DrawOp<C>>, b: Seq<DrawOp<C>>, prims: Seq<Primitive<C>>, p: Primitive<C>, zero: C, font_size: C)
    requires
        prims_ops_ok(a, prims, zero, font_size),
        prim_ops_ok(b, p, zero, font_size),
    ensures
        prims_ops_ok(a + b, prims.push(p), zero, font_size),
{
    assert(prims.push(p).drop_last() =~= prims);
    assert(prims.push(p).last() == p);
    assert((a + b).subrange(0, a.len() as int) =~= a);
    assert((a + b).subrange(a.len() as int, (a + b).len() as int) =~= b);
}

/// How many groups the primitives hold, nested ones included.
pub open spec fn prims_group_count<C>(prims: Seq<Primitive<C>>) -> nat
    decreases prims, prims.len(),
{
    if prims.len() == 0 {
        0
    } else {
        prims_group_count(prims.drop_last()) + match prims.last() {
            Primitive::Group(g) => 1 + prims_group_count(g.children@),
            _ => 0,
        }
    }
}

/// The commands of a list of primitives number one per primitive (nested
/// ones included) plus one more per group: its start and end bracket it.
pub proof fn lemma_op_count_is_prims_plus_groups<C>(prims: Seq<Primitive<C>>)
    ensures
        prims_op_count(prims) == prims_count(prims) + prims_group_count(prims),
    decreases prims, prims.len(),
{
    if prims.len() > 0 {
        lemma_op_count_is_prims_plus_groups(prims.drop_last());
        let last = prims.last();
        match last {
            Primitive::Group(g) => {
                assert(decreases_to!(prims => prims[prims.len() - 1]));
                assert(decreases_to!(last => last->Group_0));
                assert(decreases_to!(g => g.children));
                assert(decreases_to!(g.children => g.children@));
                lemma_op_count_is_prims_plus_groups(g.children@);
                assert(prim_op_count(last) == 2 + prims_op_count(g.children@));
            },
            _ => {
                assert(prim_op_count(last) == 1);
            },
        }
        assert(prims_op_count(prims) == prims_op_count(prims.drop_last()) + prim_op_count(last));
        assert(prims_count(prims) == prims_count(prims.drop_last()) + match last {
            Primitive::Group(g) => 1 + prims_count(g.children@),
            _ => 1,
        });
    }
}

/// How many group-start commands `ops` holds.
pub open spec fn group_starts<C>(ops: Seq<DrawOp<C>>) -> nat
    decreases ops.len(),
{
    if ops.len() == 0 {
        0
    } else {
        group_starts(ops.drop_last()) + if ops.last() is GroupStart {
            1nat
        } else {
            0nat
        }
    }
}

/// How many group-end commands `ops` holds.
pub open spec fn group_ends<C>(ops: Seq<DrawOp<C>>) -> nat
    decreases ops.len(),
{
    if ops.len() == 0 {
        0
    } else {
        group_ends(ops.drop_last()) + if ops.last() is GroupEnd {
            1nat
        } else {
            0nat
        }
    }
}

proof fn lemma_group_marks_concat<C>(a: Seq<DrawOp<C>>, b: Seq<DrawOp<C>>)
    ensures
        group_starts(a + b) == group_starts(a) + group_starts(b),
        group_ends(a + b) == group_ends(a) + group_ends(b),
    decreases b.len(),
{
    if b.len() == 0 {
        assert(a + b =~= a);
    } else {
        lemma_group_marks_concat(a, b.drop_last());
        assert((a + b).drop_last() =~= a + b.drop_last());
        assert((a + b).last() == b.last());
    }
}

/// Group starts and ends balance: the commands of a list of primitives hold
/// one start and one end for each group, nested ones included.
pub proof fn lemma_group_marks_balance<C>(ops: Seq<DrawOp<C>>, prims: Seq<Primitive<C>>, zero: C, font_size: C)
    requires
        prims_ops_ok(ops, prims, zero, font_size),
    ensures
        group_starts(ops) == prims_group_count(prims),
        group_ends(ops) == prims_group_count(prims),
    decreases prims, prims.len(),
{
    if prims.len() == 0 {
        assert(ops =~= Seq::<DrawOp<C>>::empty());
    } else {
        let rest = prims.drop_last();
        let k = prims_op_count(rest) as int;
        let head = ops.subrange(0, k);
        let tail = ops.subrange(k, ops.len() as int);
        lemma_group_marks_balance(head, rest, zero, font_size);
        assert(ops =~= head + tail);
        lemma_group_marks_concat(head, tail);
        let last = prims.last();
        assert(prim_ops_ok(tail, last, zero, font_size));
        match last {
            Primitive::Group(g) => {
                assert(decreases_to!(prims => prims[prims.len() - 1]));
                assert(decreases_to!(last => last->Group_0));
                assert(decreases_to!(g => g.children));
                assert(decreases_to!(g.children => g.children@));
                assert(tail.len() == 2 + prims_op_count(g.children@));
                let mid = tail.subrange(1, tail.len() - 1);
                assert(prims_ops_ok(mid, g.children@, zero, font_size));
                lemma_group_marks_balance(mid, g.children@, zero, font_size);
                let first = tail.subrange(0, 1);
                let end = tail.subrange(tail.len() - 1, tail.len() as int);
                assert(tail =~= first + mid + end);
                lemma_group_marks_concat(first, mid);
                lemma_group_marks_concat(first + mid, end);
                assert(first.drop_last() =~= Seq::<DrawOp<C>>::empty());
                assert(end.drop_last() =~= Seq::<DrawOp<C>>::empty());
                assert(first.last() == tail[0]);
                assert(end.last() == tail[tail.len() - 1]);
                assert(tail[0] is GroupStart);
                assert(tail[tail.len() - 1] is GroupEnd);
                assert(first.len() == 1);
                assert(group_starts(first.drop_last()) == 0);
                assert(group_ends(first.drop_last()) == 0);
                assert(first.last() is GroupStart);
                assert(group_starts(first) == 1);
                assert(group_ends(first) == 0);
                assert(group_starts(end) == 0);
                assert(group_ends(end) == 1);
                assert(group_starts(tail) == 1 + prims_group_count(g.children@));
                assert(group_ends(tail) == 1 + prims_group_count(g.children@));
            },
            _ => {
                assert(tail.len() == 1);
                assert(tail.drop_last() =~= Seq::<DrawOp<C>>::empty());
                assert(tail.last() == tail[0]);
                assert(leaf_op_ok(tail[0], last, zero, font_size));
                assert(group_starts(tail) == 0);
                assert(group_ends(tail) == 0);
            },
        }
        assert(prims_group_count(prims) == prims_group_count(rest) + match last {
            Primitive::Group(g) => 1 + prims_group_count(g.children@),
            _ => 0,
        });
    }
}

/// Two commands draw the same thing: same kind and equal fields, texts and
/// point lists compared by their contents.
pub open spec fn same_command<C>(a: DrawOp<C>, b: DrawOp<C>) -> bool {
    match (a, b) {
        (DrawOp::FillRect { .. }, DrawOp::FillRect { .. }) => a == b,
        (DrawOp::StrokePath { d: d1, color_id: c1, width: w1 }, DrawOp::StrokePath { d: d2, color_id: c2, width: w2 }) => d1@
            == d2@ && c1 == c2 && w1 == w2,
        (
            DrawOp::StrokePolyline { points: p1, color_id: c1, width: w1, dash: s1 },
            DrawOp::StrokePolyline { points: p2, color_id: c2, width: w2, dash: s2 },
        ) => p1@ == p2@ && c1 == c2 && w1 == w2 && opt_view(s1) == opt_view(s2),
        (DrawOp::FillPolygon { points: p1, color_id: c1 }, DrawOp::FillPolygon { points: p2, color_id: c2 }) => p1@ == p2@ && c1
            == c2,
        (
            DrawOp::DrawText { x: x1, y: y1, text: t1, color_id: c1, anchor: a1, size: s1, weight: w1 },
            DrawOp::DrawText { x: x2, y: y2, text: t2, color_id: c2, anchor: a2, size: s2, weight: w2 },
        ) => x1 == x2 && y1 == y2 && t1@ == t2@ && c1 == c2 && a1 == a2 && s1 == s2 && w1 == w2,
        (DrawOp::GroupStart { task_id: t1 }, DrawOp::GroupStart { task_id: t2 }) => opt_view(t1) == opt_view(t2),
        (DrawOp::GroupEnd, DrawOp::GroupEnd) => true,
        _ => false,
    }
}

/// The commands of a list of primitives are determined: any two command
/// lists for the same primitives draw the same thing, command by command.
pub proof fn lemma_prims_ops_determined<C>(
    a: Seq<DrawOp<C>>,
    b: Seq<DrawOp<C>>,
    prims: Seq<Primitive<C>>,
    zero: C,
    font_size: C,
)
    requires
        prims_ops_ok(a, prims, zero, font_size),
        prims_ops_ok(b, prims, zero, font_size),
    ensures
        a.len() == b.len(),
        forall|i: int| 0 <= i < a.len() ==> same_command(#[trigger] a[i], b[i]),
    decreases prims, prims.len(),
{
    if prims.len() > 0 {
        let rest = prims.drop_last();
        let k = prims_op_count(rest) as int;
        let ah = a.subrange(0, k);
        let at = a.subrange(k, a.len() as int);
        let bh = b.subrange(0, k);
        let bt = b.subrange(k, b.len() as int);
        lemma_prims_ops_determined(ah, bh, rest, zero, font_size);
        let last = prims.last();
        assert(prim_ops_ok(at, last, zero, font_size));
        assert(prim_ops_ok(bt, last, zero, font_size));
        match last {
            Primitive::Group(g) => {
                assert(decreases_to!(prims => prims[prims.len() - 1]));
                assert(decreases_to!(last => last->Group_0));
                assert(decreases_to!(g => g.children));
                assert(decreases_to!(g.children => g.children@));
                let n = at.len();
                assert(n == 2 + prims_op_count(g.children@));
                let am = at.subrange(1, n - 1);
                let bm = bt.subrange(1, n - 1);
                assert(prims_ops_ok(am, g.children@, zero, font_size));
                assert(prims_ops_ok(bm, g.children@, zero, font_size));
                lemma_prims_ops_determined(am, bm, g.children@, zero, font_size);
                assert forall|j: int| 0 <= j < n implies same_command(#[trigger] at[j], bt[j]) by {
                    if 0 < j < n - 1 {
                        assert(at[j] == am[j - 1]);
                        assert(bt[j] == bm[j - 1]);
                    }
                }
            },
            _ => {
                assert(leaf_op_ok(at[0], last, zero, font_size));
                assert(leaf_op_ok(bt[0], last, zero, font_size));
                assert(same_command(at[0], bt[0]));
            },
        }
        assert forall|i: int| 0 <= i < a.len() implies same_command(#[trigger] a[i], b[i]) by {
            if i < k {
                assert(a[i] == ah[i]);
                assert(b[i] == bh[i]);
            } else {
                assert(a[i] == at[i - k]);
                assert(b[i] == bt[i - k]);
            }
        }
    }
}

/// Commands for `p1` followed by commands for `p2` are the commands for `p1`
/// followed by `p2`: a list's commands are its primitives' commands, joined
/// in order.
pub proof fn lemma_prims_ops_concat<C>(
    a: Seq<DrawOp<C>>,
    b: Seq<DrawOp<C>>,
    p1: Seq<Primitive<C>>,
    p2: Seq<Primitive<C>>,
    zero: C,
    font_size: C,
)
    requires
        prims_ops_ok(a, p1, zero, font_size),
        prims_ops_ok(b, p2, zero, font_size),
    ensures
        prims_ops_ok(a + b, p1 + p2, zero, font_size),
    decreases p2.len(),
{
    if p2.len() == 0 {
        assert(b =~= Seq::<DrawOp<C>>::empty());
        assert(p1 + p2 =~= p1);
        assert(a + b =~= a);
    } else {
        let rest = p2.drop_last();
        let k = prims_op_count(rest) as int;
        let b1 = b.subrange(0, k);
        let b2 = b.subrange(k, b.len() as int);
        lemma_prims_ops_concat(a, b1, p1, rest, zero, font_size);
        lemma_prims_ops_push(a + b1, b2, p1 + rest, p2.last(), zero, font_size);
        assert((p1 + rest).push(p2.last()) =~= p1 + p2);
        assert((a + b1) + b2 =~= a + b);
    }
}

/// A copy of a list of points.
fn copy_points<C: Copy>(points: &Vec<(C, C)>) -> (res: Vec<(C, C)>)
    ensures
        res@ == points@,
{
    let mut out: Vec<(C, C)> = Vec::new();
    let mut i: usize = 0;
    while i < points.len()
        invariant
            i <= points@.len(),
            out@ == points@.subrange(0, i as int),
        decreases points@.len() - i,
    {
        out.push(points[i]);
        i += 1;
        proof {
            assert(out@ =~= points@.subrange(0, i as int));
        }
    }
    proof {
        assert(points@.subrange(0, points@.len() as int) =~= points@);
    }
    out
}

/// Append the commands primitive `prim` becomes; `zero` stands in for a
/// missing radius and `font_size` for a missing size.
pub fn collect_draw_ops<C: Copy>(prim: &Primitive<C>, ops: &mut Vec<DrawOp<C>>, zero: C, font_size: C)
    ensures
        final(ops)@.len() == old(ops)@.len() + prim_op_count(*prim),
        final(ops)@.subrange(0, old(ops)@.len() as int) == old(ops)@,
        prim_ops_ok(final(ops)@.subrange(old(ops)@.len() as int, final(ops)@.len() as int), *prim, zero, font_size),
    decreases prim,
{
    let ghost base: int = ops@.len() as int;
    let ghost before = ops@;
    match prim {
        Primitive::Rect(r) => {
            let radius = match r.rx {
                Some(v) => v,
                None => zero,
            };
            ops.push(DrawOp::FillRect { x: r.x, y: r.y, w: r.width, h: r.height, color_id: color_id_tag(r.fill), radius });
        },
        Primitive::RoundRect(r) => {
            ops.push(DrawOp::FillRect { x: r.x, y: r.y, w: r.width, h: r.height, color_id: color_id_tag(r.fill), radius: r.rx });
        },
        Primitive::Line(l) => {
            let points = vec![(l.x1, l.y1), (l.x2, l.y2)];
            ops.push(DrawOp::StrokePolyline { points, color_id: color_id_tag(l.stroke), width: l.stroke_width, dash: clone_opt(&l.stroke_dash) });
        },
        Primitive::Path(p) => {
            ops.push(DrawOp::StrokePath { d: p.d.clone(), color_id: color_id_tag(p.stroke), width: p.stroke_width });
        },
        Primitive::Polyline(p) => {
            ops.push(
                DrawOp::StrokePolyline {
                    points: copy_points(&p.points),
                    color_id: color_id_tag(p.stroke),
                    width: p.stroke_width,
                    dash: clone_opt(&p.stroke_dash),
                },
            );
        },
        Primitive::Polygon(p) => {
            ops.push(DrawOp::FillPolygon { points: copy_points(&p.points), color_id: color_id_tag(p.fill) });
        },
        Primitive::Text(t) => {
            let anchor: u8 = match t.anchor {
                Some(TextAnchor::Start) => 0,
                Some(TextAnchor::Middle) => 1,
                Some(TextAnchor::End) => 2,
                None => 0,
            };
            let color_id = match t.fill {
                Some(f) => color_id_tag(f),
                None => NO_COLOR_TAG,
            };
            let size = match t.font_size {
                Some(s) => s,
                None => font_size,
            };
            let weight = match t.font_weight {
                Some(w) => w,
                None => DEFAULT_FONT_WEIGHT,
            };
            ops.push(DrawOp::DrawText { x: t.x, y: t.y, text: t.content.clone(), color_id, anchor, size, weight });
        },
        Primitive::Group(g) => {
            ops.push(DrawOp::GroupStart { task_id: clone_opt(&g.task_id) });
            proof {
                assert(ops@.subrange(base + 1, ops@.len() as int) =~= Seq::<DrawOp<C>>::empty());
                assert(g.children@.subrange(0, 0) =~= Seq::<Primitive<C>>::empty());
                assert(ops@.subrange(0, base) =~= before);
            }
            let mut i: usize = 0;
            while i < g.children.len()
                invariant
                    *prim == Primitive::Group(*g),
                    0 <= base,
                    i <= g.children@.len(),
                    ops@.len() == base + 1 + prims_op_count(g.children@.subrange(0, i as int)),
                    ops@.subrange(0, base) == before,
                    ops@[base] matches DrawOp::GroupStart { task_id } && opt_view(task_id) == opt_view(g.task_id),
                    prims_ops_ok(ops@.subrange(base + 1, ops@.len() as int), g.children@.subrange(0, i as int), zero, font_size),
                decreases g.children@.len() - i,
            {
                proof {
                    let group = *g;
                    let whole = Primitive::Group(group);
                    assert(decreases_to!(whole => whole->Group_0));
                    assert(decreases_to!(group => group.children));
                    assert(decreases_to!(group.children => group.children@));
                    assert(decreases_to!(group.children@ => group.children@[i as int]));
                    assert(decreases_to!(whole => group.children@[i as int]));
                }
                let ghost mid = ops@;
                collect_draw_ops(&g.children[i], ops, zero, font_size);
                proof {
                    assert(base + 1 <= mid.len());
                    assert(ops@.len() == mid.len() + prim_op_count(g.children@[i as int]));
                    assert forall|k: int| 0 <= k < mid.len() implies #[trigger] ops@[k] == mid[k] by {
                        assert(ops@.subrange(0, mid.len() as int)[k] == ops@[k]);
                    }
                    let a = mid.subrange(base + 1, mid.len() as int);
                    let b = ops@.subrange(mid.len() as int, ops@.len() as int);
                    lemma_prims_ops_push(a, b, g.children@.subrange(0, i as int), g.children@[i as int], zero, font_size);
                    assert(g.children@.subrange(0, i as int).push(g.children@[i as int]) =~= g.children@.subrange(0, i + 1));
                    assert forall|j: int| 0 <= j < ops@.len() - (base + 1) implies #[trigger] ops@.subrange(base + 1, ops@.len() as int)[j]
                        == (a + b)[j] by {
                        if base + 1 + j < mid.len() {
                            assert(ops@[base + 1 + j] == mid[base + 1 + j]);
                        }
                    }
                    assert(ops@.subrange(base + 1, ops@.len() as int) =~= a + b);
                    assert(g.children@.subrange(0, i + 1).drop_last() =~= g.children@.subrange(0, i as int));
                    assert forall|j: int| 0 <= j < base implies #[trigger] ops@.subrange(0, base)[j] == mid.subrange(0, base)[j] by {
                        assert(ops@[j] == mid[j]);
                    }
                    assert(ops@.subrange(0, base) =~= mid.subrange(0, base));
                    assert(ops@[base] == mid[base]);
                }
                i += 1;
            }
            let ghost inner = ops@.subrange(base + 1, ops@.len() as int);
            ops.push(DrawOp::GroupEnd);
            proof {
                assert(g.children@.subrange(0, g.children@.len() as int) =~= g.children@);
                let mine = ops@.subrange(base, ops@.len() as int);
                assert(mine.subrange(1, mine.len() - 1) =~= inner);
            }
        },
    }
    proof {
        assert(ops@.subrange(0, base) =~= before);
    }
}

/// All primitives of the layers, layer after layer.
pub open spec fn layers_prims<C>(layers: Seq<Layer<C>>) -> Seq<Primitive<C>>
    decreases layers.len(),
{
    if layers.len() == 0 {
        Seq::empty()
    } else {
        layers_prims(layers.drop_last()) + layers.last().primitives@
    }
}

/// A copy of a palette.
fn copy_palette(palette: &Palette) -> (res: Palette)
    ensures
        palette_entries(res.colors@) == palette_entries(palette.colors@),
{
    let mut colors: Vec<(ColorId, String)> = Vec::new();
    let mut i: usize = 0;
    while i < palette.colors.len()
        invariant
            i <= palette.colors@.len(),
            colors@.len() == i,
            palette_entries(colors@) == palette_entries(palette.colors@.subrange(0, i as int)),
        decreases palette.colors@.len() - i,
    {
        let ghost old_colors = colors@;
        let entry = (palette.colors[i].0, palette.colors[i].1.clone());
        colors.push(entry);
        proof {
            let want = palette_entries(palette.colors@.subrange(0, i + 1));
            assert forall|j: int| 0 <= j < colors@.len() implies #[trigger] palette_entries(colors@)[j] == want[j] by {
                if j < i {
                    assert(palette_entries(old_colors)[j] == palette_entries(palette.colors@.subrange(0, i as int))[j]);
                    assert(colors@[j] == old_colors[j]);
                }
            }
            assert(palette_entries(colors@) =~= want);
        }
        i += 1;
    }
    proof {
        assert(palette.colors@.subrange(0, palette.colors@.len() as int) =~= palette.colors@);
    }
    Palette { colors }
}

/// The commands of a whole chart: every layer's primitives in order, with
/// the chart's size and palette.
pub fn build_command_buffer<C: Copy>(list: &DisplayList<C>, zero: C, font_size: C) -> (res: CommandBuffer<C>)
    ensures
        res.viewport_width == list.viewport.width,
        res.viewport_height == list.viewport.height,
        palette_entries(res.palette.colors@) == palette_entries(list.palette.colors@),
        prims_ops_ok(res.ops@, layers_prims(list.layers@), zero, font_size),
{
    let mut ops: Vec<DrawOp<C>> = Vec::new();
    let mut k: usize = 0;
    proof {
        assert(layers_prims(list.layers@.subrange(0, 0)) =~= Seq::<Primitive<C>>::empty());
    }
    while k < list.layers.len()
        invariant
            k <= list.layers@.len(),
            prims_ops_ok(ops@, layers_prims(list.layers@.subrange(0, k as int)), zero, font_size),
        decreases list.layers@.len() - k,
    {
        let layer = &list.layers[k];
        let ghost done = layers_prims(list.layers@.subrange(0, k as int));
        let mut i: usize = 0;
        proof {
            assert(done + layer.primitives@.subrange(0, 0) =~= done);
        }
        while i < layer.primitives.len()
            invariant
                i <= layer.primitives@.len(),
                prims_ops_ok(ops@, done + layer.primitives@.subrange(0, i as int), zero, font_size),
            decreases layer.primitives@.len() - i,
        {
            let ghost mid = ops@;
            collect_draw_ops(&layer.primitives[i], &mut ops, zero, font_size);
            proof {
                let b = ops@.subrange(mid.len() as int, ops@.len() as int);
                lemma_prims_ops_push(mid, b, done + layer.primitives@.subrange(0, i as int), layer.primitives@[i as int], zero, font_size);
                assert(mid + b =~= ops@);
                assert((done + layer.primitives@.subrange(0, i as int)).push(layer.primitives@[i as int]) =~= done
                    + layer.primitives@.subrange(0, i + 1));
            }
            i += 1;
        }
        proof {
            assert(list.layers@.subrange(0, k + 1).drop_last() =~= list.layers@.subrange(0, k as int));
            assert(list.layers@.subrange(0, k + 1).last() == *layer);
            assert(layer.primitives@.subrange(0, layer.primitives@.len() as int) =~= layer.primitives@);
        }
        k += 1;
    }
    proof {
        assert(list.layers@.subrange(0, list.layers@.len() as int) =~= list.layers@);
    }
    CommandBuffer {
        viewport_width: list.viewport.width,
        viewport_height: list.viewport.height,
        ops,
        palette: copy_palette(&list.palette),
    }
}

} // verus!
