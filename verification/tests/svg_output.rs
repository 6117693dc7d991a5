use koyori_arc_core::backend::svg::{escape_xml, join_points, push_dash, push_rect, list_colors_resolve, prim_colors_resolve, render_primitive};
use koyori_arc_core::{
    empty_svg, render_svg_from_list, BBox, ChartMetadata, ColorId, DisplayList, GroupPrim, Layer, LayerKind, LinePrim,
    LineSemantic, Palette, PathPrim, PathSemantic, PolygonPrim, PolygonSemantic, PolylinePrim, PolylineSemantic, Primitive,
    ProgressTier, RectPrim, RectSemantic, RoundRectPrim, RoundRectSemantic, TextAnchor, TextBaseline, TextPrim, TextSemantic,
    Viewport,
};

fn s(v: &str) -> String {
    v.to_string()
}

/// Collect every `name="value"` attribute name in the markup, the way a browser
/// would: an attribute value ends at the first raw `"`, so an unescaped quote in
/// a value makes whatever follows a new attribute.
fn attribute_names(markup: &str) -> Vec<String> {
    let bytes: Vec<char> = markup.chars().collect();
    let mut names = Vec::new();
    let mut i = 0;
    while i < bytes.len() {
        if bytes[i] != '<' {
            i += 1;
            continue;
        }
        i += 1;
        while i < bytes.len() && !bytes[i].is_whitespace() && bytes[i] != '>' {
            i += 1;
        }
        while i < bytes.len() && bytes[i] != '>' {
            while i < bytes.len() && bytes[i].is_whitespace() {
                i += 1;
            }
            let start = i;
            while i < bytes.len() && bytes[i] != '=' && bytes[i] != '>' && !bytes[i].is_whitespace() {
                i += 1;
            }
            if i > start {
                let name: String = bytes[start..i].iter().collect();
                let name = name.trim_end_matches('/').to_string();
                if !name.is_empty() {
                    names.push(name);
                }
            }
            if i < bytes.len() && bytes[i] == '=' {
                i += 1;
                if i < bytes.len() && bytes[i] == '"' {
                    i += 1;
                    while i < bytes.len() && bytes[i] != '"' {
                        i += 1;
                    }
                    i += 1;
                }
            } else if i < bytes.len() && bytes[i] != '>' && !bytes[i].is_whitespace() {
                i += 1;
            }
        }
    }
    names
}

#[test]
fn escape_xml_quotes_in_attribute_context() {
    let malicious = "x\" onmouseover=\"alert(1)\"";
    let escaped = escape_xml(malicious);
    assert!(!escaped.contains('"'));
    assert!(escaped.contains("&quot;"));
    assert_eq!(escaped, "x&quot; onmouseover=&quot;alert(1)&quot;");
}

#[test]
fn data_task_id_attribute_is_safe() {
    let id = "x\" onmouseover=\"alert(1)\"";
    let fragment = format!(r#"<g data-task-id="{}">"#, escape_xml(id));
    assert!(fragment.contains("data-task-id=\"x&quot; onmouseover=&quot;alert(1)&quot;\""));
    assert!(!fragment.contains(r#"onmouseover="alert"#));
}

#[test]
fn structural_scan_reports_an_attribute_outside_the_allowlist() {
    let names = attribute_names(r#"<g data-task-id="x" onmouseover="alert(1)"></g>"#);
    assert!(names.contains(&"onmouseover".to_string()), "got {names:?}");
}

#[test]
fn escape_xml_covers_every_special_character() {
    assert_eq!(escape_xml("a&b\"c'd<e>f"), "a&amp;b&quot;c&#39;d&lt;e&gt;f");
    assert_eq!(escape_xml("plain text, ünïcode ✓"), "plain text, ünïcode ✓");
    assert_eq!(escape_xml(""), "");
}

#[test]
fn push_dash_writes_the_attribute_only_when_dashed() {
    let mut out = String::from("<line");
    push_dash(&mut out, None);
    assert_eq!(out, "<line");
    push_dash(&mut out, Some("6,3"));
    assert_eq!(out, r#"<line stroke-dasharray="6,3""#);
}

#[test]
fn push_rect_writes_class_geometry_radius_and_fill() {
    let mut out = String::new();
    push_rect(&mut out, Some("bar-bg"), ("1", "2", "3", "4"), Some("5"), "#fff");
    assert_eq!(out, r##"<rect class="bar-bg" x="1" y="2" width="3" height="4" rx="5" fill="#fff"/>"##);
    let mut bare = String::new();
    push_rect(&mut bare, None, ("0", "0", "10", "20"), None, "#000");
    assert_eq!(bare, r##"<rect x="0" y="0" width="10" height="20" fill="#000"/>"##);
}

#[test]
fn join_points_separates_pairs_by_spaces() {
    assert_eq!(join_points(&[]), "");
    assert_eq!(join_points(&[(s("1"), s("2"))]), "1,2");
    assert_eq!(join_points(&[(s("1"), s("2")), (s("3.5"), s("4")), (s("5"), s("6"))]), "1,2 3.5,4 5,6");
}

fn bbox() -> BBox<String> {
    BBox { x: s("0"), y: s("0"), width: s("0"), height: s("0") }
}

fn text(content: &str) -> TextPrim<String> {
    TextPrim {
        x: s("10"),
        y: s("20"),
        content: content.to_string(),
        fill: Some(ColorId::GridLabel),
        font_size: Some(s("11")),
        font_weight: Some(600),
        anchor: Some(TextAnchor::Middle),
        baseline: TextBaseline::Middle,
        semantic: TextSemantic::ProgressPercent,
    }
}

#[test]
fn text_is_written_with_its_own_attributes_and_escaped_content() {
    let mut out = String::new();
    render_primitive(&mut out, &Primitive::Text(text("A & B < C")), &Palette::standard());
    assert_eq!(
        out,
        r##"<text x="10" y="20" text-anchor="middle" fill="#6b7280" font-size="11" font-weight="600" dominant-baseline="middle">A &amp; B &lt; C</text>"##
    );
    let plain = TextPrim {
        fill: None,
        font_size: None,
        font_weight: None,
        anchor: None,
        baseline: TextBaseline::Auto,
        ..text("x")
    };
    let mut out = String::new();
    render_primitive(&mut out, &Primitive::Text(plain), &Palette::standard());
    assert_eq!(out, r#"<text x="10" y="20">x</text>"#);
}

#[test]
fn group_with_hostile_task_id_keeps_its_value_quoted() {
    let group = GroupPrim {
        task_id: Some(s(r#"x" onmouseover="alert(1)"#)),
        tooltip: Some(s("Design: <b>'x'</b>")),
        bbox: bbox(),
        children: vec![Primitive::Text(text("t"))],
    };
    let mut out = String::new();
    render_primitive(&mut out, &Primitive::Group(group), &Palette::standard());
    assert!(out.starts_with(r#"<g data-task-id="x&quot; onmouseover=&quot;alert(1)"><title>Design: &lt;b&gt;&#39;x&#39;&lt;/b&gt;</title><text"#));
    assert!(out.ends_with("</text></g>"));
    for name in attribute_names(&out) {
        assert!(
            ["data-task-id", "x", "y", "text-anchor", "fill", "font-size", "font-weight", "dominant-baseline"].contains(&name.as_str()),
            "unexpected attribute {name}"
        );
    }
}

#[test]
fn legend_groups_are_marked_by_their_children() {
    let line_legend = GroupPrim {
        task_id: None,
        tooltip: None,
        bbox: bbox(),
        children: vec![Primitive::Line(LinePrim {
            x1: s("0"),
            y1: s("1"),
            x2: s("2"),
            y2: s("3"),
            stroke: ColorId::Progress,
            stroke_width: s("2"),
            stroke_dash: Some(s("6,3")),
            semantic: LineSemantic::LegendProgressLine,
        })],
    };
    let mut out = String::new();
    render_primitive(&mut out, &Primitive::Group(line_legend), &Palette::standard());
    assert_eq!(
        out,
        r##"<g class="progress-line-legend" aria-hidden="true"><line x1="0" y1="1" x2="2" y2="3" stroke="#ef4444" stroke-width="2" stroke-dasharray="6,3"/></g>"##
    );
    let tier_legend = GroupPrim {
        task_id: None,
        tooltip: None,
        bbox: bbox(),
        children: vec![Primitive::Rect(RectPrim {
            x: s("1"),
            y: s("2"),
            width: s("3"),
            height: s("4"),
            fill: ColorId::TierLow,
            rx: None,
            semantic: RectSemantic::LegendSwatch,
        })],
    };
    let mut out = String::new();
    render_primitive(&mut out, &Primitive::Group(tier_legend), &Palette::standard());
    assert_eq!(
        out,
        r##"<g class="bar-tier-legend" aria-hidden="true"><rect x="1" y="2" width="3" height="4" fill="#f59e0b"/></g>"##
    );
    let plain = GroupPrim { task_id: None, tooltip: None, bbox: bbox(), children: vec![] };
    let mut out = String::new();
    render_primitive(&mut out, &Primitive::Group(plain), &Palette::standard());
    assert_eq!(out, "<g></g>");
}

#[test]
fn every_leaf_primitive_has_its_element() {
    let palette = Palette::standard();
    let prims = vec![
        Primitive::RoundRect(RoundRectPrim {
            x: s("1"),
            y: s("2"),
            width: s("3"),
            height: s("4"),
            fill: ColorId::TierMid,
            rx: s("4"),
            tier: ProgressTier::Mid,
            semantic: RoundRectSemantic::BarProgress,
        }),
        Primitive::Path(PathPrim { d: s("M 0 0 L 1 1"), stroke: ColorId::Dep, stroke_width: s("1.5"), semantic: PathSemantic::DependencyArrow }),
        Primitive::Polyline(PolylinePrim {
            points: vec![(s("210"), s("50")), (s("180"), s("90"))],
            stroke: ColorId::Progress,
            stroke_width: s("2"),
            stroke_dash: None,
            semantic: PolylineSemantic::ProgressStatusLine,
        }),
        Primitive::Polygon(PolygonPrim {
            points: vec![(s("0"), s("5")), (s("5"), s("0"))],
            fill: ColorId::BarBg,
            stroke: ColorId::Dep,
            stroke_width: s("1"),
            tier: ProgressTier::NotStarted,
            semantic: PolygonSemantic::Milestone,
        }),
        Primitive::Rect(RectPrim {
            x: s("0"),
            y: s("0"),
            width: s("9"),
            height: s("9"),
            fill: ColorId::BarBg,
            rx: Some(s("4")),
            semantic: RectSemantic::BarBackground,
        }),
    ];
    let mut out = String::new();
    for p in &prims {
        render_primitive(&mut out, p, &palette);
    }
    let expected = [
        r##"<rect class="bar-progress bar-tier-mid" x="1" y="2" width="3" height="4" rx="4" fill="#6366f1"/>"##,
        r##"<path d="M 0 0 L 1 1" fill="none" stroke="#9ca3af" stroke-width="1.5" stroke-linecap="round" stroke-linejoin="round"/>"##,
        r##"<polyline class="progress-status-line" points="210,50 180,90" fill="none" stroke="#ef4444" stroke-width="2"/>"##,
        r##"<polygon class="bar-milestone bar-tier-none" points="0,5 5,0" fill="#d1d5db" stroke="#9ca3af" stroke-width="1"/>"##,
        r##"<rect class="bar-bg" x="0" y="0" width="9" height="9" rx="4" fill="#d1d5db"/>"##,
    ]
    .join("");
    assert_eq!(out, expected);
}

#[test]
fn document_wraps_all_layers_in_order() {
    let list = DisplayList {
        viewport: Viewport { width: s("260"), height: s("160"), label_width: s("120"), header_height: s("30"), row_height: s("40") },
        palette: Palette::standard(),
        layers: vec![
            Layer { kind: LayerKind::Background, primitives: vec![Primitive::Text(TextPrim { anchor: None, ..text("one") })] },
            Layer { kind: LayerKind::Grid, primitives: vec![] },
            Layer { kind: LayerKind::Legend, primitives: vec![Primitive::Text(TextPrim { anchor: None, ..text("two") })] },
        ],
        metadata: ChartMetadata {
            title: s("Gantt chart"),
            description: s("d"),
            task_bboxes: vec![],
            primitive_count: 2,
            element_count_estimate: 2,
        },
    };
    let svg = render_svg_from_list(&list);
    assert!(svg.starts_with(
        r#"<svg xmlns="http://www.w3.org/2000/svg" width="260" height="160" viewBox="0 0 260 160" role="img" aria-label="Gantt chart" font-family="sans-serif" font-size="12"><title>Gantt chart</title><desc>Task schedule with progress bars and dependency arrows</desc><text"#
    ));
    assert!(svg.ends_with("</svg>"));
    assert!(svg.find(">one<").unwrap() < svg.find(">two<").unwrap());
}

#[test]
fn empty_svg_is_the_blank_chart() {
    let svg = empty_svg();
    assert!(svg.contains("width=\"0\""));
    assert!(svg.contains("viewBox=\"0 0 0 0\""));
    assert!(svg.contains(r#"role="img""#));
    assert!(svg.ends_with("</svg>"));
    assert_eq!(
        svg,
        r#"<svg xmlns="http://www.w3.org/2000/svg" width="0" height="0" viewBox="0 0 0 0" role="img" aria-label="Empty Gantt chart" font-family="sans-serif" font-size="12"><title>Empty Gantt chart</title><desc>No tasks to display</desc></svg>"#
    );
}

#[test]
fn a_palette_needs_only_the_roles_a_primitive_draws_with() {
    let only_bar = Palette { colors: vec![(ColorId::BarBg, s("#d1d5db"))] };
    let rect = Primitive::Rect(RectPrim {
        x: s("1"),
        y: s("2"),
        width: s("3"),
        height: s("4"),
        fill: ColorId::BarBg,
        rx: None,
        semantic: RectSemantic::BarBackground,
    });
    assert!(prim_colors_resolve(&rect, &only_bar));
    let mut out = String::new();
    render_primitive(&mut out, &rect, &only_bar);
    assert_eq!(out, r##"<rect class="bar-bg" x="1" y="2" width="3" height="4" fill="#d1d5db"/>"##);
    let unfilled_text = Primitive::Text(TextPrim { fill: None, ..text("plain") });
    assert!(prim_colors_resolve(&unfilled_text, &Palette { colors: vec![] }));
    let line = Primitive::Line(LinePrim {
        x1: s("0"),
        y1: s("0"),
        x2: s("1"),
        y2: s("1"),
        stroke: ColorId::Grid,
        stroke_width: s("1"),
        stroke_dash: None,
        semantic: LineSemantic::Grid,
    });
    assert!(!prim_colors_resolve(&line, &only_bar));
    let group = Primitive::Group(GroupPrim { task_id: None, tooltip: None, bbox: bbox(), children: vec![rect, line] });
    assert!(!prim_colors_resolve(&group, &only_bar));
    let list = DisplayList {
        viewport: Viewport { width: s("10"), height: s("10"), label_width: s("1"), header_height: s("1"), row_height: s("1") },
        layers: vec![Layer { kind: LayerKind::Bars, primitives: vec![group] }],
        palette: only_bar,
        metadata: ChartMetadata { title: s("t"), description: s("d"), task_bboxes: vec![], primitive_count: 3, element_count_estimate: 3 },
    };
    assert!(!list_colors_resolve(&list));
}
