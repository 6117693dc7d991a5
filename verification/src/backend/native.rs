//! The native writer: the same flat command stream as the Canvas writer, as
//! an in-process list, with the palette referenced by position.
use vstd::prelude::*;
use crate::backend::canvas::{
    color_tag, lemma_prims_ops_determined, lemma_prims_ops_push, layers_prims, prim_op_count, prim_ops_ok, prims_op_count, prims_ops_ok, same_command, NO_COLOR_TAG,
};
use crate::backend::command_buffer::DrawOp;
use crate::display_list::constants::DEFAULT_FONT_WEIGHT;
use crate::display_list::types::{ColorId, DisplayList, Primitive, TextAnchor};
use crate::text::clone_opt;

verus! {

/// The native backend.
pub struct NativeBackend;

/// The commands of one chart, and the palette's colours by position.
#[derive(Debug, Clone, PartialEq)]
pub struct NativeDrawList<C> {
    pub viewport_width: C,
    pub viewport_height: C,
    pub ops: Vec<NativeDrawOp<C>>,
    pub palette_refs: Vec<(u8, String)>,
}

/// One draw command; the same commands as the Canvas stream.
#[derive(Debug, Clone, PartialEq)]
pub enum NativeDrawOp<C> {
    FillRect { x: C, y: C, w: C, h: C, color_id: u8, radius: C },
    StrokePath { d: String, color_id: u8, width: C },
    StrokePolyline { points: Vec<(C, C)>, color_id: u8, width: C, dash: Option<String> },
    FillPolygon { points: Vec<(C, C)>, color_id: u8 },
    DrawText { x: C, y: C, text: String, color_id: u8, anchor: u8, size: C, weight: u16 },
    GroupStart { task_id: Option<String> },
    GroupEnd,
}

/// The Canvas command a native command is.
pub open spec fn as_draw_op<C>(op: NativeDrawOp<C>) -> DrawOp<C> {
    match op {
        NativeDrawOp::FillRect { x, y, w, h, color_id, radius } => DrawOp::FillRect { x, y, w, h, color_id, radius },
        NativeDrawOp::StrokePath { d, color_id, width } => DrawOp::StrokePath { d, color_id, width },
        NativeDrawOp::StrokePolyline { points, color_id, width, dash } => DrawOp::StrokePolyline { points, color_id, width, dash },
        NativeDrawOp::FillPolygon { points, color_id } => DrawOp::FillPolygon { points, color_id },
        NativeDrawOp::DrawText { x, y, text, color_id, anchor, size, weight } => DrawOp::DrawText {
            x,
            y,
            text,
            color_id,
            anchor,
            size,
            weight,
        },
        NativeDrawOp::GroupStart { task_id } => DrawOp::GroupStart { task_id },
        NativeDrawOp::GroupEnd => DrawOp::GroupEnd,
    }
}

/// A native command stream read as Canvas commands.
pub open spec fn as_draw_ops<C>(ops: Seq<NativeDrawOp<C>>) -> Seq<DrawOp<C>> {
    ops.map_values(|op: NativeDrawOp<C>| as_draw_op(op))
}

pub fn color_id_tag(id: ColorId) -> (tag: u8)
    ensures
        tag == color_tag(id),
{
    match id {
        ColorId::BarBg => 0,
        ColorId::TierLow => 1,
        ColorId::TierMid => 2,
        ColorId::TierHigh => 3,
        ColorId::TierDone => 4,
        ColorId::Dep => 5,
        ColorId::Progress => 6,
        ColorId::Grid => 7,
        ColorId::Today => 8,
        ColorId::HeaderBg => 9,
        ColorId::GridLabel => 10,
        ColorId::ProgressTextOnFg => 11,
        ColorId::ProgressTextOnBg => 12,
    }
}

fn copy_points<C: Copy>(points: &Vec<(C, C)>) -> (res: Vec<(C, C)>)
    ensures
        res@ == points@,
{
    let mut out: Vec<(C, C)> = Vec::new();
    let mut i: usize = 0;
    while i < points.len()
        invariant
            i <= points@.len(),
            out@ == points@.subrange(0, i as int),
        decreases points@.len() - i,
    {
        out.push(points[i]);
        i += 1;
        proof {
            assert(out@ =~= points@.subrange(0, i as int));
        }
    }
    proof {
        assert(points@.subrange(0, points@.len() as int) =~= points@);
    }
    out
}

/// Reading a stream as Canvas commands commutes with cutting and joining it.
proof fn lemma_as_draw_ops_split<C>(a: Seq<NativeDrawOp<C>>, b: Seq<NativeDrawOp<C>>)
    ensures
        as_draw_ops(a + b) == as_draw_ops(a) + as_draw_ops(b),
{
    assert(as_draw_ops(a + b) =~= as_draw_ops(a) + as_draw_ops(b));
}

proof fn lemma_as_draw_ops_subrange<C>(s: Seq<NativeDrawOp<C>>, lo: int, hi: int)
    requires
        0 <= lo <= hi <= s.len(),
    ensures
        as_draw_ops(s.subrange(lo, hi)) == as_draw_ops(s).subrange(lo, hi),
{
    assert(as_draw_ops(s.subrange(lo, hi)) =~= as_draw_ops(s).subrange(lo, hi));
}

/// Append the commands primitive `prim` becomes, as the Canvas writer does.
pub fn collect_native_ops<C: Copy>(prim: &Primitive<C>, ops: &mut Vec<NativeDrawOp<C>>, zero: C, font_size: C)
    ensures
        final(ops)@.len() == old(ops)@.len() + prim_op_count(*prim),
        final(ops)@.subrange(0, old(ops)@.len() as int) == old(ops)@,
        prim_ops_ok(as_draw_ops(final(ops)@.subrange(old(ops)@.len() as int, final(ops)@.len() as int)), *prim, zero, font_size),
    decreases prim,
{
    let ghost base: int = ops@.len() as int;
    let ghost before = ops@;
    match prim {
        Primitive::Rect(r) => {
            let radius = match r.rx {
                Some(v) => v,
                None => zero,
            };
            ops.push(NativeDrawOp::FillRect { x: r.x, y: r.y, w: r.width, h: r.height, color_id: color_id_tag(r.fill), radius });
        },
        Primitive::RoundRect(r) => {
            ops.push(NativeDrawOp::FillRect { x: r.x, y: r.y, w: r.width, h: r.height, color_id: color_id_tag(r.fill), radius: r.rx });
        },
        Primitive::Line(l) => {
            let points = vec![(l.x1, l.y1), (l.x2, l.y2)];
            ops.push(
                NativeDrawOp::StrokePolyline { points, color_id: color_id_tag(l.stroke), width: l.stroke_width, dash: clone_opt(&l.stroke_dash) },
            );
        },
        Primitive::Path(p) => {
            ops.push(NativeDrawOp::StrokePath { d: p.d.clone(), color_id: color_id_tag(p.stroke), width: p.stroke_width });
        },
        Primitive::Polyline(p) => {
            ops.push(
                NativeDrawOp::StrokePolyline {
                    points: copy_points(&p.points),
                    color_id: color_id_tag(p.stroke),
                    width: p.stroke_width,
                    dash: clone_opt(&p.stroke_dash),
                },
            );
        },
        Primitive::Polygon(p) => {
            ops.push(NativeDrawOp::FillPolygon { points: copy_points(&p.points), color_id: color_id_tag(p.fill) });
        },
        Primitive::Text(t) => {
            let anchor: u8 = match t.anchor {
                Some(TextAnchor::Start) => 0,
                Some(TextAnchor::Middle) => 1,
                Some(TextAnchor::End) => 2,
                None => 0,
            };
            let color_id = match t.fill {
                Some(f) => color_id_tag(f),
                None => NO_COLOR_TAG,
            };
            let size = match t.font_size {
                Some(s) => s,
                None => font_size,
            };
            let weight = match t.font_weight {
                Some(w) => w,
                None => DEFAULT_FONT_WEIGHT,
            };
            ops.push(NativeDrawOp::DrawText { x: t.x, y: t.y, text: t.content.clone(), color_id, anchor, size, weight });
        },
        Primitive::Group(g) => {
            ops.push(NativeDrawOp::GroupStart { task_id: clone_opt(&g.task_id) });
            proof {
                assert(ops@.subrange(base + 1, ops@.len() as int) =~= Seq::<NativeDrawOp<C>>::empty());
                assert(as_draw_ops(ops@.subrange(base + 1, ops@.len() as int)) =~= Seq::<DrawOp<C>>::empty());
                assert(g.children@.subrange(0, 0) =~= Seq::<Primitive<C>>::empty());
                assert(ops@.subrange(0, base) =~= before);
            }
            let mut i: usize = 0;
            while i < g.children.len()
                invariant
                    *prim == Primitive::Group(*g),
                    0 <= base,
                    i <= g.children@.len(),
                    ops@.len() == base + 1 + prims_op_count(g.children@.subrange(0, i as int)),
                    ops@.subrange(0, base) == before,
                    ops@[base] matches NativeDrawOp::GroupStart { task_id } && crate::text::opt_view(task_id) == crate::text::opt_view(
                        g.task_id,
                    ),
                    prims_ops_ok(as_draw_ops(ops@.subrange(base + 1, ops@.len() as int)), g.children@.subrange(0, i as int), zero, font_size),
                decreases g.children@.len() - i,
            {
                proof {
                    let group = *g;
                    let whole = Primitive::Group(group);
                    assert(decreases_to!(whole => whole->Group_0));
                    assert(decreases_to!(group => group.children));
                    assert(decreases_to!(group.children => group.children@));
                    assert(decreases_to!(group.children@ => group.children@[i as int]));
                    assert(decreases_to!(whole => group.children@[i as int]));
                }
                let ghost mid = ops@;
                collect_native_ops(&g.children[i], ops, zero, font_size);
                proof {
                    assert forall|k: int| 0 <= k < mid.len() implies #[trigger] ops@[k] == mid[k] by {
                        assert(ops@.subrange(0, mid.len() as int)[k] == ops@[k]);
                    }
                    let a = mid.subrange(base + 1, mid.len() as int);
                    let b = ops@.subrange(mid.len() as int, ops@.len() as int);
                    lemma_prims_ops_push(
                        as_draw_ops(a),
                        as_draw_ops(b),
                        g.children@.subrange(0, i as int),
                        g.children@[i as int],
                        zero,
                        font_size,
                    );
                    assert(g.children@.subrange(0, i as int).push(g.children@[i as int]) =~= g.children@.subrange(0, i + 1));
                    assert forall|j: int| 0 <= j < ops@.len() - (base + 1) implies #[trigger] ops@.subrange(base + 1, ops@.len() as int)[j]
                        == (a + b)[j] by {
                        if base + 1 + j < mid.len() {
                            assert(ops@[base + 1 + j] == mid[base + 1 + j]);
                        }
                    }
                    assert(ops@.subrange(base + 1, ops@.len() as int) =~= a + b);
                    lemma_as_draw_ops_split(a, b);
                    assert forall|j: int| 0 <= j < base implies #[trigger] ops@.subrange(0, base)[j] == mid.subrange(0, base)[j] by {
                        assert(ops@[j] == mid[j]);
                    }
                    assert(ops@.subrange(0, base) =~= mid.subrange(0, base));
                    assert(ops@[base] == mid[base]);
                }
                i += 1;
            }
            let ghost inner = ops@.subrange(base + 1, ops@.len() as int);
            ops.push(NativeDrawOp::GroupEnd);
            proof {
                assert(g.children@.subrange(0, g.children@.len() as int) =~= g.children@);
                let mine = ops@.subrange(base, ops@.len() as int);
                assert(mine.subrange(1, mine.len() - 1) =~= inner);
                lemma_as_draw_ops_subrange(mine, 1, mine.len() - 1);
            }
        },
    }
    proof {
        assert(ops@.subrange(0, base) =~= before);
    }
}

/// The palette's colours, each with its position as a byte.
pub open spec fn palette_refs_ok(refs: Seq<(u8, String)>, colors: Seq<(ColorId, String)>) -> bool {
    &&& refs.len() == colors.len()
    &&& forall|i: int| 0 <= i < refs.len() ==> (#[trigger] refs[i]).0 == i as u8 && refs[i].1@ == colors[i].1@
}

/// The native list of a whole chart: the same commands the Canvas writer
/// produces, with the chart's size and the palette by position.
pub fn build_native_draw_list<C: Copy>(list: &DisplayList<C>, zero: C, font_size: C) -> (res: NativeDrawList<C>)
    ensures
        res.viewport_width == list.viewport.width,
        res.viewport_height == list.viewport.height,
        palette_refs_ok(res.palette_refs@, list.palette.colors@),
        prims_ops_ok(as_draw_ops(res.ops@), layers_prims(list.layers@), zero, font_size),
{
    let mut ops: Vec<NativeDrawOp<C>> = Vec::new();
    let mut k: usize = 0;
    proof {
        assert(layers_prims(list.layers@.subrange(0, 0)) =~= Seq::<Primitive<C>>::empty());
        assert(as_draw_ops(ops@) =~= Seq::<DrawOp<C>>::empty());
    }
    while k < list.layers.len()
        invariant
            k <= list.layers@.len(),
            prims_ops_ok(as_draw_ops(ops@), layers_prims(list.layers@.subrange(0, k as int)), zero, font_size),
        decreases list.layers@.len() - k,
    {
        let layer = &list.layers[k];
        let ghost done = layers_prims(list.layers@.subrange(0, k as int));
        let mut i: usize = 0;
        proof {
            assert(done + layer.primitives@.subrange(0, 0) =~= done);
        }
        while i < layer.primitives.len()
            invariant
                i <= layer.primitives@.len(),
                prims_ops_ok(as_draw_ops(ops@), done + layer.primitives@.subrange(0, i as int), zero, font_size),
            decreases layer.primitives@.len() - i,
        {
            let ghost mid = ops@;
            collect_native_ops(&layer.primitives[i], &mut ops, zero, font_size);
            proof {
                let b = ops@.subrange(mid.len() as int, ops@.len() as int);
                lemma_prims_ops_push(
                    as_draw_ops(mid),
                    as_draw_ops(b),
                    done + layer.primitives@.subrange(0, i as int),
                    layer.primitives@[i as int],
                    zero,
                    font_size,
                );
                assert(mid + b =~= ops@);
                lemma_as_draw_ops_split(mid, b);
                assert((done + layer.primitives@.subrange(0, i as int)).push(layer.primitives@[i as int]) =~= done
                    + layer.primitives@.subrange(0, i + 1));
            }
            i += 1;
        }
        proof {
            assert(list.layers@.subrange(0, k + 1).drop_last() =~= list.layers@.subrange(0, k as int));
            assert(list.layers@.subrange(0, k + 1).last() == *layer);
            assert(layer.primitives@.subrange(0, layer.primitives@.len() as int) =~= layer.primitives@);
        }
        k += 1;
    }
    proof {
        assert(list.layers@.subrange(0, list.layers@.len() as int) =~= list.layers@);
    }
    let mut palette_refs: Vec<(u8, String)> = Vec::new();
    let mut i: usize = 0;
    while i < list.palette.colors.len()
        invariant
            i <= list.palette.colors@.len(),
            palette_refs@.len() == i,
            forall|j: int| 0 <= j < i ==> (#[trigger] palette_refs@[j]).0 == j as u8 && palette_refs@[j].1@ == list.palette.colors@[j].1@,
        decreases list.palette.colors@.len() - i,
    {
        palette_refs.push((i as u8, list.palette.colors[i].1.clone()));
        i += 1;
    }
    NativeDrawList { viewport_width: list.viewport.width, viewport_height: list.viewport.height, ops, palette_refs }
}

/// How many commands the native writer emits for a chart.
pub fn count_draw_ops<C: Copy>(list: &DisplayList<C>, zero: C, font_size: C) -> (n: usize)
    ensures
        n == prims_op_count(layers_prims(list.layers@)),
{
    build_native_draw_list(list, zero, font_size).ops.len()
}

/// The native draw list mirrors the Canvas command buffer of the same
/// display list: as many commands, each the Canvas command of the same kind
/// with the same fields.
pub proof fn lemma_native_mirrors_canvas<C>(
    native_ops: Seq<NativeDrawOp<C>>,
    canvas_ops: Seq<DrawOp<C>>,
    prims: Seq<Primitive<C>>,
    zero: C,
    font_size: C,
)
    requires
        prims_ops_ok(as_draw_ops(native_ops), prims, zero, font_size),
        prims_ops_ok(canvas_ops, prims, zero, font_size),
    ensures
        native_ops.len() == canvas_ops.len(),
        forall|i: int| 0 <= i < native_ops.len() ==> same_command(as_draw_op(#[trigger] native_ops[i]), canvas_ops[i]),
{
    lemma_prims_ops_determined(as_draw_ops(native_ops), canvas_ops, prims, zero, font_size);
    assert forall|i: int| 0 <= i < native_ops.len() implies same_command(as_draw_op(#[trigger] native_ops[i]), canvas_ops[i]) by {
        assert(as_draw_ops(native_ops)[i] == as_draw_op(native_ops[i]));
    }
}

} // verus!
