//! The display-list vocabulary: colours, tiers, layers and drawing
//! primitives. Geometry is generic over the coordinate type `C`; the chart
//! builder fills it with pixel positions and the SVG writer reads it as text.
use vstd::prelude::*;

verus! {

/// A colour role; the palette maps each role to a concrete colour.
#[derive(Debug, Clone, Copy, PartialEq, Eq, Structural)]
pub enum ColorId {
    BarBg,
    TierLow,
    TierMid,
    TierHigh,
    TierDone,
    Dep,
    Progress,
    Grid,
    Today,
    HeaderBg,
    GridLabel,
    ProgressTextOnFg,
    ProgressTextOnBg,
}

/// The colour of each role, as `#rrggbb` text.
#[derive(Debug, Clone, PartialEq)]
pub struct Palette {
    pub colors: Vec<(ColorId, String)>,
}

/// The entries of a palette, colours as character sequences.
pub open spec fn palette_entries(colors: Seq<(ColorId, String)>) -> Seq<(ColorId, Seq<char>)> {
    colors.map_values(|e: (ColorId, String)| (e.0, e.1@))
}

/// The colour the first entry for `id` names, if there is one.
pub open spec fn palette_lookup(entries: Seq<(ColorId, Seq<char>)>, id: ColorId) -> Option<Seq<char>>
    decreases entries.len(),
{
    if entries.len() == 0 {
        None
    } else if entries[0].0 == id {
        Some(entries[0].1)
    } else {
        palette_lookup(entries.drop_first(), id)
    }
}

/// The standard colour of each role.
pub open spec fn standard_color(id: ColorId) -> Seq<char> {
    match id {
        ColorId::BarBg => "#d1d5db"@,
        ColorId::TierLow => "#f59e0b"@,
        ColorId::TierMid => "#6366f1"@,
        ColorId::TierHigh => "#0ea5e9"@,
        ColorId::TierDone => "#22c55e"@,
        ColorId::Dep => "#9ca3af"@,
        ColorId::Progress => "#ef4444"@,
        ColorId::Grid => "#e5e7eb"@,
        ColorId::Today => "#f59e0b"@,
        ColorId::HeaderBg => "#f3f4f6"@,
        ColorId::GridLabel => "#6b7280"@,
        ColorId::ProgressTextOnFg => "#ffffff"@,
        ColorId::ProgressTextOnBg => "#374151"@,
    }
}

/// The roles in the order the standard palette lists them.
pub open spec fn standard_roles() -> Seq<ColorId> {
    seq![
        ColorId::BarBg,
        ColorId::TierLow,
        ColorId::TierMid,
        ColorId::TierHigh,
        ColorId::TierDone,
        ColorId::Dep,
        ColorId::Progress,
        ColorId::Grid,
        ColorId::Today,
        ColorId::HeaderBg,
        ColorId::GridLabel,
        ColorId::ProgressTextOnFg,
        ColorId::ProgressTextOnBg,
    ]
}

/// The standard palette: every role once, in role order, with its standard colour.
pub open spec fn standard_entries() -> Seq<(ColorId, Seq<char>)> {
    standard_roles().map_values(|id: ColorId| (id, standard_color(id)))
}

impl Palette {
    pub fn standard() -> (res: Self)
        ensures
            palette_entries(res.colors@) == standard_entries(),
    {
        let colors = vec![
            (ColorId::BarBg, String::from_str("#d1d5db")),
            (ColorId::TierLow, String::from_str("#f59e0b")),
            (ColorId::TierMid, String::from_str("#6366f1")),
            (ColorId::TierHigh, String::from_str("#0ea5e9")),
            (ColorId::TierDone, String::from_str("#22c55e")),
            (ColorId::Dep, String::from_str("#9ca3af")),
            (ColorId::Progress, String::from_str("#ef4444")),
            (ColorId::Grid, String::from_str("#e5e7eb")),
            (ColorId::Today, String::from_str("#f59e0b")),
            (ColorId::HeaderBg, String::from_str("#f3f4f6")),
            (ColorId::GridLabel, String::from_str("#6b7280")),
            (ColorId::ProgressTextOnFg, String::from_str("#ffffff")),
            (ColorId::ProgressTextOnBg, String::from_str("#374151")),
        ];
        let res = Palette { colors };
        proof {
            assert(palette_entries(res.colors@) =~= standard_entries());
        }
        res
    }

    /// Whether the palette has an entry for role `id`.
    pub fn has(&self, id: ColorId) -> (res: bool)
        ensures
            res == (palette_lookup(palette_entries(self.colors@), id) is Some),
    {
        let mut i: usize = 0;
        proof {
            assert(palette_entries(self.colors@).skip(0) =~= palette_entries(self.colors@));
        }
        while i < self.colors.len()
            invariant
                i <= self.colors@.len(),
                palette_lookup(palette_entries(self.colors@), id) == palette_lookup(palette_entries(self.colors@).skip(i as int), id),
            decreases self.colors@.len() - i,
        {
            let ghost rest = palette_entries(self.colors@).skip(i as int);
            proof {
                assert(rest[0] == (self.colors@[i as int].0, self.colors@[i as int].1@));
            }
            if self.colors[i].0 == id {
                return true;
            }
            proof {
                assert(rest.drop_first() =~= palette_entries(self.colors@).skip(i + 1));
            }
            i += 1;
        }
        proof {
            assert(palette_entries(self.colors@).skip(i as int).len() == 0);
        }
        false
    }

    /// The colour of role `id`: the first entry that names it.
    pub fn resolve(&self, id: ColorId) -> (res: &str)
        requires
            palette_lookup(palette_entries(self.colors@), id) is Some,
        ensures
            palette_lookup(palette_entries(self.colors@), id) == Some(res@),
    {
        let mut i: usize = 0;
        proof {
            assert(palette_entries(self.colors@).skip(0) =~= palette_entries(self.colors@));
        }
        while i < self.colors.len()
            invariant
                i <= self.colors@.len(),
                palette_lookup(palette_entries(self.colors@), id) == palette_lookup(palette_entries(self.colors@).skip(i as int), id),
            decreases self.colors@.len() - i,
        {
            let ghost rest = palette_entries(self.colors@).skip(i as int);
            proof {
                assert(rest[0] == (self.colors@[i as int].0, self.colors@[i as int].1@));
            }
            if self.colors[i].0 == id {
                return self.colors[i].1.as_str();
            }
            proof {
                assert(rest.drop_first() =~= palette_entries(self.colors@).skip(i + 1));
            }
            i += 1;
        }
        proof {
            assert(palette_entries(self.colors@).skip(i as int).len() == 0);
        }
        ""
    }
}

/// Every role has an entry in the standard palette, and it names the
/// role's standard colour.
pub proof fn lemma_standard_palette_resolves(id: ColorId)
    ensures
        palette_lookup(standard_entries(), id) == Some(standard_color(id)),
{
    let e = standard_entries();
    reveal_with_fuel(palette_lookup, 14);
    assert(e.drop_first() =~= standard_roles().drop_first().map_values(|id: ColorId| (id, standard_color(id))));
}

/// How far a task has come, in five bands.
#[derive(Debug, Clone, Copy, PartialEq, Eq, Structural)]
pub enum ProgressTier {
    NotStarted,
    Low,
    Mid,
    High,
    Done,
}

/// The band of a progress percentage: 0, 1 to 33, 34 to 66, 67 to 99, and
/// everything else.
pub open spec fn tier_of(pct: int) -> ProgressTier {
    if pct == 0 {
        ProgressTier::NotStarted
    } else if 1 <= pct <= 33 {
        ProgressTier::Low
    } else if 34 <= pct <= 66 {
        ProgressTier::Mid
    } else if 67 <= pct <= 99 {
        ProgressTier::High
    } else {
        ProgressTier::Done
    }
}

/// The CSS class suffix of a band.
pub open spec fn tier_suffix(tier: ProgressTier) -> Seq<char> {
    match tier {
        ProgressTier::NotStarted => "none"@,
        ProgressTier::Low => "low"@,
        ProgressTier::Mid => "mid"@,
        ProgressTier::High => "high"@,
        ProgressTier::Done => "done"@,
    }
}

impl ProgressTier {
    pub fn from_pct(pct: i16) -> (res: Self)
        ensures
            res == tier_of(pct as int),
    {
        if pct == 0 {
            ProgressTier::NotStarted
        } else if 1 <= pct && pct <= 33 {
            ProgressTier::Low
        } else if 34 <= pct && pct <= 66 {
            ProgressTier::Mid
        } else if 67 <= pct && pct <= 99 {
            ProgressTier::High
        } else {
            ProgressTier::Done
        }
    }

    pub fn css_suffix(self) -> (res: &'static str)
        ensures
            res@ == tier_suffix(self),
    {
        match self {
            ProgressTier::NotStarted => "none",
            ProgressTier::Low => "low",
            ProgressTier::Mid => "mid",
            ProgressTier::High => "high",
            ProgressTier::Done => "done",
        }
    }
}

/// The chart's size and the sizes of its fixed parts.
#[derive(Debug, Clone, PartialEq)]
pub struct Viewport<C> {
    pub width: C,
    pub height: C,
    pub label_width: C,
    pub header_height: C,
    pub row_height: C,
}

/// An axis-aligned box.
#[derive(Debug, Clone, PartialEq)]
pub struct BBox<C> {
    pub x: C,
    pub y: C,
    pub width: C,
    pub height: C,
}

/// Where a task's row and bar lie.
#[derive(Debug, Clone, PartialEq)]
pub struct TaskBBox<C> {
    pub task_id: String,
    pub row: u32,
    pub bbox: BBox<C>,
    pub bar_bbox: BBox<C>,
}

/// What a chart is about, and how large it came out.
#[derive(Debug, Clone, PartialEq)]
pub struct ChartMetadata<C> {
    pub title: String,
    pub description: String,
    pub task_bboxes: Vec<TaskBBox<C>>,
    pub primitive_count: u32,
    pub element_count_estimate: u32,
}

/// The layers of a chart, drawn in this order.
#[derive(Debug, Clone, Copy, PartialEq, Eq, Structural)]
pub enum LayerKind {
    Background,
    Grid,
    Dependencies,
    Bars,
    ProgressLine,
    TodayMarker,
    Legend,
    OverlayHints,
}

/// Horizontal alignment of text at its anchor point.
#[derive(Debug, Clone, Copy, PartialEq, Eq, Structural)]
pub enum TextAnchor {
    Start,
    Middle,
    End,
}

/// Vertical alignment of text at its anchor point.
#[derive(Debug, Clone, Copy, PartialEq, Eq, Structural)]
pub enum TextBaseline {
    Auto,
    Middle,
}

#[derive(Debug, Clone, PartialEq)]
pub struct RectPrim<C> {
    pub x: C,
    pub y: C,
    pub width: C,
    pub height: C,
    pub fill: ColorId,
    pub rx: Option<C>,
    pub semantic: RectSemantic,
}

#[derive(Debug, Clone, Copy, PartialEq, Eq, Structural)]
pub enum RectSemantic {
    HeaderBackground,
    BarBackground,
    LegendSwatch,
}

#[derive(Debug, Clone, PartialEq)]
pub struct RoundRectPrim<C> {
    pub x: C,
    pub y: C,
    pub width: C,
    pub height: C,
    pub fill: ColorId,
    pub rx: C,
    pub tier: ProgressTier,
    pub semantic: RoundRectSemantic,
}

#[derive(Debug, Clone, Copy, PartialEq, Eq, Structural)]
pub enum RoundRectSemantic {
    BarProgress,
}

#[derive(Debug, Clone, PartialEq)]
pub struct LinePrim<C> {
    pub x1: C,
    pub y1: C,
    pub x2: C,
    pub y2: C,
    pub stroke: ColorId,
    pub stroke_width: C,
    pub stroke_dash: Option<String>,
    pub semantic: LineSemantic,
}

#[derive(Debug, Clone, Copy, PartialEq, Eq, Structural)]
pub enum LineSemantic {
    Grid,
    TodayMarker,
    LegendProgressLine,
}

#[derive(Debug, Clone, PartialEq)]
pub struct PathPrim<C> {
    pub d: String,
    pub stroke: ColorId,
    pub stroke_width: C,
    pub semantic: PathSemantic,
}

#[derive(Debug, Clone, Copy, PartialEq, Eq, Structural)]
pub enum PathSemantic {
    DependencyArrow,
}

#[derive(Debug, Clone, PartialEq)]
pub struct PolylinePrim<C> {
    pub points: Vec<(C, C)>,
    pub stroke: ColorId,
    pub stroke_width: C,
    pub stroke_dash: Option<String>,
    pub semantic: PolylineSemantic,
}

#[derive(Debug, Clone, Copy, PartialEq, Eq, Structural)]
pub enum PolylineSemantic {
    ProgressStatusLine,
}

#[derive(Debug, Clone, PartialEq)]
pub struct PolygonPrim<C> {
    pub points: Vec<(C, C)>,
    pub fill: ColorId,
    pub stroke: ColorId,
    pub stroke_width: C,
    pub tier: ProgressTier,
    pub semantic: PolygonSemantic,
}

#[derive(Debug, Clone, Copy, PartialEq, Eq, Structural)]
pub enum PolygonSemantic {
    Milestone,
}

#[derive(Debug, Clone, PartialEq)]
pub struct TextPrim<C> {
    pub x: C,
    pub y: C,
    pub content: String,
    pub fill: Option<ColorId>,
    pub font_size: Option<C>,
    pub font_weight: Option<u16>,
    pub anchor: Option<TextAnchor>,
    pub baseline: TextBaseline,
    pub semantic: TextSemantic,
}

#[derive(Debug, Clone, Copy, PartialEq, Eq, Structural)]
pub enum TextSemantic {
    GridLabel,
    ProgressPercent,
    RowLabel,
    LegendProgress,
    LegendTier,
}

/// A group of primitives, optionally standing for one task.
#[derive(Debug)]
pub struct GroupPrim<C> {
    pub task_id: Option<String>,
    pub tooltip: Option<String>,
    pub bbox: BBox<C>,
    pub children: Vec<Primitive<C>>,
}

/// One drawing primitive.
#[derive(Debug)]
pub enum Primitive<C> {
    Rect(RectPrim<C>),
    RoundRect(RoundRectPrim<C>),
    Line(LinePrim<C>),
    Path(PathPrim<C>),
    Polyline(PolylinePrim<C>),
    Polygon(PolygonPrim<C>),
    Text(TextPrim<C>),
    Group(GroupPrim<C>),
}

/// The primitives of one layer, in drawing order.
#[derive(Debug)]
pub struct Layer<C> {
    pub kind: LayerKind,
    pub primitives: Vec<Primitive<C>>,
}

/// A whole chart.
#[derive(Debug)]
pub struct DisplayList<C> {
    pub viewport: Viewport<C>,
    pub palette: Palette,
    pub layers: Vec<Layer<C>>,
    pub metadata: ChartMetadata<C>,
}


/// How many primitives `prims` holds, counting each group and, recursively,
/// its children.
pub open spec fn prims_count<C>(prims: Seq<Primitive<C>>) -> nat
    decreases prims,
{
    if prims.len() == 0 {
        0
    } else {
        prims_count(prims.drop_last()) + match prims.last() {
            Primitive::Group(g) => 1 + prims_count(g.children@),
            _ => 1,
        }
    }
}

/// The primitives of all layers.
pub open spec fn layers_count<C>(layers: Seq<Layer<C>>) -> nat
    decreases layers.len(),
{
    if layers.len() == 0 {
        0
    } else {
        layers_count(layers.drop_last()) + prims_count(layers.last().primitives@)
    }
}

/// A prefix counts no more than the whole.
proof fn lemma_prims_count_prefix<C>(prims: Seq<Primitive<C>>, i: int)
    requires
        0 <= i <= prims.len(),
    ensures
        prims_count(prims.subrange(0, i)) <= prims_count(prims),
    decreases prims.len() - i,
{
    if i < prims.len() {
        lemma_prims_count_prefix(prims, i + 1);
        assert(prims.subrange(0, i + 1).drop_last() =~= prims.subrange(0, i));
    } else {
        assert(prims.subrange(0, i) =~= prims);
    }
}

proof fn lemma_layers_count_prefix<C>(layers: Seq<Layer<C>>, i: int)
    requires
        0 <= i <= layers.len(),
    ensures
        layers_count(layers.subrange(0, i)) <= layers_count(layers),
    decreases layers.len() - i,
{
    if i < layers.len() {
        lemma_layers_count_prefix(layers, i + 1);
        assert(layers.subrange(0, i + 1).drop_last() =~= layers.subrange(0, i));
    } else {
        assert(layers.subrange(0, i) =~= layers);
    }
}

/// The number of primitives in `prims`, groups and their children included.
pub fn count_primitive_vec<C>(prims: &[Primitive<C>]) -> (n: u32)
    requires
        prims_count(prims@) <= u32::MAX,
    ensures
        n == prims_count(prims@),
    decreases prims@,
{
    let mut total: u32 = 0;
    let mut i: usize = 0;
    while i < prims.len()
        invariant
            i <= prims@.len(),
            total == prims_count(prims@.subrange(0, i as int)),
            prims_count(prims@) <= u32::MAX,
        decreases prims@.len() - i,
    {
        proof {
            assert(prims@.subrange(0, i + 1).drop_last() =~= prims@.subrange(0, i as int));
            lemma_prims_count_prefix(prims@, i + 1);
        }
        match &prims[i] {
            Primitive::Group(g) => {
                let sub = count_primitive_vec(g.children.as_slice());
                total = total + 1 + sub;
            },
            _ => {
                total = total + 1;
            },
        }
        i += 1;
    }
    proof {
        assert(prims@.subrange(0, prims@.len() as int) =~= prims@);
    }
    total
}

impl<C> DisplayList<C> {
    /// The number of primitives over all layers.
    pub fn count_primitives(&self) -> (n: u32)
        requires
            layers_count(self.layers@) <= u32::MAX,
        ensures
            n == layers_count(self.layers@),
    {
        let mut total: u32 = 0;
        let mut i: usize = 0;
        while i < self.layers.len()
            invariant
                i <= self.layers@.len(),
                total == layers_count(self.layers@.subrange(0, i as int)),
                layers_count(self.layers@) <= u32::MAX,
            decreases self.layers@.len() - i,
        {
            proof {
                assert(self.layers@.subrange(0, i + 1).drop_last() =~= self.layers@.subrange(0, i as int));
                lemma_layers_count_prefix(self.layers@, i + 1);
            }
            let c = count_primitive_vec(self.layers[i].primitives.as_slice());
            total = total + c;
            i += 1;
        }
        proof {
            assert(self.layers@.subrange(0, self.layers@.len() as int) =~= self.layers@);
        }
        total
    }
}

} // verus!
