use koyori_arc_core::backend::canvas::{build_command_buffer, collect_draw_ops, color_id_tag};
use koyori_arc_core::backend::native::{build_native_draw_list, collect_native_ops, count_draw_ops};
use koyori_arc_core::{
    BBox, ChartMetadata, ColorId, DisplayList, DrawOp, GroupPrim, Layer, LayerKind, LinePrim, LineSemantic, NativeDrawOp,
    Palette, Primitive, RectPrim, RectSemantic, TextAnchor, TextBaseline, TextPrim, TextSemantic, Viewport,
};

fn bbox() -> BBox<f64> {
    BBox { x: 0.0, y: 0.0, width: 0.0, height: 0.0 }
}

fn sample_group() -> Primitive<f64> {
    Primitive::Group(GroupPrim {
        task_id: Some("task-1".to_string()),
        tooltip: Some("tip".to_string()),
        bbox: bbox(),
        children: vec![
            Primitive::Rect(RectPrim { x: 1.0, y: 2.0, width: 3.0, height: 4.0, fill: ColorId::BarBg, rx: None, semantic: RectSemantic::BarBackground }),
            Primitive::Text(TextPrim {
                x: 5.0,
                y: 6.0,
                content: "50%".to_string(),
                fill: None,
                font_size: None,
                font_weight: None,
                anchor: Some(TextAnchor::End),
                baseline: TextBaseline::Auto,
                semantic: TextSemantic::ProgressPercent,
            }),
        ],
    })
}

#[test]
fn color_tags_follow_the_standard_palette_order() {
    let palette = Palette::standard();
    for (i, (id, _)) in palette.colors.iter().enumerate() {
        assert_eq!(color_id_tag(*id) as usize, i);
        assert_eq!(koyori_arc_core::backend::native::color_id_tag(*id) as usize, i);
    }
}

#[test]
fn group_becomes_start_children_end_with_defaults_filled_in() {
    let mut ops = Vec::new();
    collect_draw_ops(&sample_group(), &mut ops, 0.0, 12.0);
    assert_eq!(
        ops,
        vec![
            DrawOp::GroupStart { task_id: Some("task-1".to_string()) },
            DrawOp::FillRect { x: 1.0, y: 2.0, w: 3.0, h: 4.0, color_id: 0, radius: 0.0 },
            DrawOp::DrawText { x: 5.0, y: 6.0, text: "50%".to_string(), color_id: 255, anchor: 2, size: 12.0, weight: 400 },
            DrawOp::GroupEnd,
        ]
    );
}

#[test]
fn line_becomes_a_two_point_polyline() {
    let line = Primitive::Line(LinePrim {
        x1: 1.0,
        y1: 2.0,
        x2: 3.0,
        y2: 4.0,
        stroke: ColorId::Today,
        stroke_width: 2.0,
        stroke_dash: Some("4,3".to_string()),
        semantic: LineSemantic::TodayMarker,
    });
    let mut ops = Vec::new();
    collect_native_ops(&line, &mut ops, 0.0, 12.0);
    assert_eq!(
        ops,
        vec![NativeDrawOp::StrokePolyline { points: vec![(1.0, 2.0), (3.0, 4.0)], color_id: 8, width: 2.0, dash: Some("4,3".to_string()) }]
    );
}

fn sample_list() -> DisplayList<f64> {
    DisplayList {
        viewport: Viewport { width: 300.0, height: 200.0, label_width: 120.0, header_height: 30.0, row_height: 40.0 },
        palette: Palette::standard(),
        layers: vec![
            Layer { kind: LayerKind::Background, primitives: vec![] },
            Layer { kind: LayerKind::Bars, primitives: vec![sample_group(), sample_group()] },
        ],
        metadata: ChartMetadata {
            title: "Gantt chart".to_string(),
            description: "d".to_string(),
            task_bboxes: vec![],
            primitive_count: 6,
            element_count_estimate: 6,
        },
    }
}

#[test]
fn command_buffer_and_native_list_carry_the_same_commands() {
    let list = sample_list();
    let buffer = build_command_buffer(&list, 0.0, 12.0);
    let native = build_native_draw_list(&list, 0.0, 12.0);
    assert_eq!(buffer.viewport_width, 300.0);
    assert_eq!(native.viewport_height, 200.0);
    assert_eq!(buffer.ops.len(), 8);
    assert_eq!(native.ops.len(), 8);
    assert_eq!(count_draw_ops(&list, 0.0, 12.0), 8);
    assert_eq!(buffer.palette, Palette::standard());
    assert_eq!(native.palette_refs[4], (4, "#22c55e".to_string()));
    assert_eq!(native.palette_refs.len(), 13);
    assert_eq!(list.count_primitives(), 6);
}

#[test]
fn native_commands_mirror_canvas_commands_and_groups_balance() {
    let list = sample_list();
    let buffer = build_command_buffer(&list, 0.0, 12.0);
    let native = build_native_draw_list(&list, 0.0, 12.0);
    assert_eq!(native.ops.len(), buffer.ops.len());
    for (n, c) in native.ops.iter().zip(buffer.ops.iter()) {
        assert_eq!(format!("{n:?}"), format!("{c:?}"));
    }
    let starts = buffer.ops.iter().filter(|op| matches!(op, DrawOp::GroupStart { .. })).count();
    let ends = buffer.ops.iter().filter(|op| matches!(op, DrawOp::GroupEnd)).count();
    assert_eq!(starts, ends);
    // One command per primitive plus one more per group.
    assert_eq!(buffer.ops.len(), list.count_primitives() as usize + starts);
}
