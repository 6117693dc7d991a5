use koyori_arc_core::display_list::builder::{
    dep_incident_to_window, is_zero_duration, row_in_window, tier_fill_color, truncate_title,
};
use koyori_arc_core::display_list::types::count_primitive_vec;
use koyori_arc_core::{BBox, ColorId, GanttTask, GroupPrim, Palette, Primitive, ProgressTier};

#[test]
fn tiers_split_progress_into_five_bands() {
    assert_eq!(ProgressTier::from_pct(0), ProgressTier::NotStarted);
    assert_eq!(ProgressTier::from_pct(1), ProgressTier::Low);
    assert_eq!(ProgressTier::from_pct(33), ProgressTier::Low);
    assert_eq!(ProgressTier::from_pct(34), ProgressTier::Mid);
    assert_eq!(ProgressTier::from_pct(66), ProgressTier::Mid);
    assert_eq!(ProgressTier::from_pct(67), ProgressTier::High);
    assert_eq!(ProgressTier::from_pct(99), ProgressTier::High);
    assert_eq!(ProgressTier::from_pct(100), ProgressTier::Done);
    assert_eq!(ProgressTier::from_pct(-5), ProgressTier::Done);
    assert_eq!(ProgressTier::from_pct(250), ProgressTier::Done);
    assert_eq!(ProgressTier::Mid.css_suffix(), "mid");
    assert_eq!(ProgressTier::NotStarted.css_suffix(), "none");
    assert_eq!(tier_fill_color(ProgressTier::NotStarted), ColorId::BarBg);
    assert_eq!(tier_fill_color(ProgressTier::Done), ColorId::TierDone);
}

#[test]
fn standard_palette_resolves_every_role() {
    let palette = Palette::standard();
    assert_eq!(palette.colors.len(), 13);
    assert_eq!(palette.resolve(ColorId::BarBg), "#d1d5db");
    assert_eq!(palette.resolve(ColorId::Today), "#f59e0b");
    assert_eq!(palette.resolve(ColorId::ProgressTextOnBg), "#374151");
    let first_wins = Palette { colors: vec![(ColorId::Dep, "#111111".to_string()), (ColorId::Dep, "#222222".to_string())] };
    assert_eq!(first_wins.resolve(ColorId::Dep), "#111111");
}

#[test]
fn long_titles_are_cut_with_an_ellipsis() {
    assert_eq!(truncate_title("Very Long Task Title That Should Be Truncated", 16), "Very Long Task …");
    assert_eq!(truncate_title("Short", 16), "Short");
    assert_eq!(truncate_title("exactly sixteen!", 16), "exactly sixteen!");
    assert_eq!(truncate_title("日本語のタイトルです", 4), "日本語…");
    assert_eq!(truncate_title("abc", 0), "…");
}

#[test]
fn milestones_and_windows() {
    let t = GanttTask { id: "m".to_string(), title: "M".to_string(), progress_pct: 0, start: 5, end: Some(5) };
    assert!(is_zero_duration(&t));
    assert!(!is_zero_duration(&GanttTask { end: Some(6), ..t.clone() }));
    assert!(!is_zero_duration(&GanttTask { end: None, ..t }));
    assert!(row_in_window(7, None));
    assert!(row_in_window(3, Some((3, 9))));
    assert!(!row_in_window(10, Some((3, 9))));
    assert!(dep_incident_to_window(0, 5, Some((4, 6))));
    assert!(!dep_incident_to_window(0, 9, Some((4, 6))));
}

#[test]
fn groups_count_with_their_children() {
    let bbox = BBox { x: 0u8, y: 0, width: 0, height: 0 };
    let inner = Primitive::Group(GroupPrim { task_id: None, tooltip: None, bbox: bbox.clone(), children: vec![] });
    let outer = Primitive::Group(GroupPrim { task_id: None, tooltip: None, bbox, children: vec![inner] });
    assert_eq!(count_primitive_vec(&[outer]), 2);
}
