//! The route of a dependency arrow, from below the blocker's bar to the left
//! end of the blocked bar. Every coordinate on the route is a whole number of
//! pixels, so the route is computed here exactly and handed to the geometry
//! as the finished SVG path text.
use vstd::prelude::*;
use crate::display_list::constants::{
    ARROW_CURVE_PX, ARROW_HEAD_PX, ARROW_LEAD_PX, BAR_H_PX, BAR_PAD_PX, DEP_BACKOFF_STEP_PX, HEADER_H_PX, LABEL_W_PX,
    PX_PER_DAY_PX, ROW_H_PX, ROW_PADDING_PX,
};
use crate::graph::GanttTask;
use crate::text::{push_words, signed_decimal, token_text, words, Token};

verus! {

/// Days from `epoch` to the task's end; a task without an end lasts one day.
pub open spec fn end_offset(t: GanttTask, epoch: int) -> int {
    match t.end {
        Some(d) => d - epoch,
        None => t.start - epoch + 1,
    }
}

/// Left edge of the task's bar.
pub open spec fn bar_left_px(t: GanttTask, epoch: int) -> int {
    LABEL_W_PX + (t.start - epoch) * PX_PER_DAY_PX
}

/// Width of the task's bar; a task that ends before it starts has none.
pub open spec fn bar_width_px(t: GanttTask, epoch: int) -> int {
    let days = end_offset(t, epoch) - (t.start - epoch);
    (if days > 0 { days } else { 0 }) * PX_PER_DAY_PX
}

/// Where the arrow leaves the blocker: starting at `x`, step left while the
/// blocked bar begins within a row padding of it and there is still room
/// left of it on the blocker.
pub open spec fn backed_off(x: int, from_x: int, to_x: int) -> int
    decreases x - from_x,
{
    if to_x < x + ROW_PADDING_PX && x > from_x + ROW_PADDING_PX {
        backed_off(x - DEP_BACKOFF_STEP_PX, from_x, to_x)
    } else {
        x
    }
}

/// The arrow head drawn at the end of every route.
pub open spec fn arrow_head_words() -> Seq<Seq<char>> {
    let h: int = ARROW_HEAD_PX as int;
    seq![
        "m"@, signed_decimal(-h), signed_decimal(-h),
        "l"@, signed_decimal(h), signed_decimal(h),
        "l"@, signed_decimal(-h), signed_decimal(h),
    ]
}

/// The words of the route from a blocker bar (left edge `from_x`, width
/// `from_w`, in row `from_row`) to a blocked bar (left edge `to_x`, in row
/// `to_row`). When the blocked bar starts left of the blocker (within a row
/// padding) the route drops below the blocker, runs left and turns back in;
/// otherwise it drops straight down and bends right into the blocked bar.
pub open spec fn arrow_words(from_x: int, from_w: int, to_x: int, from_row: int, to_row: int) -> Seq<Seq<char>> {
    let n = |v: int| signed_decimal(v);
    let start_x = backed_off(from_x + from_w / 2, from_x, to_x) - DEP_BACKOFF_STEP_PX;
    let start_y = HEADER_H_PX + from_row * ROW_H_PX + BAR_PAD_PX + BAR_H_PX;
    let end_x = to_x - ARROW_LEAD_PX;
    let end_y = HEADER_H_PX + to_row * ROW_H_PX + ROW_H_PX / 2;
    let below = from_row > to_row;
    let clockwise: int = if below { 1 } else { 0 };
    let curve: int = ARROW_CURVE_PX as int;
    let curve_y = if below { -curve } else { curve };
    if to_x <= from_x + ROW_PADDING_PX {
        let drop: int = ROW_PADDING_PX / 2 - curve;
        let down_1: int = if drop < 0 { 0 } else { drop };
        let c: int = if drop < 0 { (ROW_PADDING_PX / 2) as int } else { curve };
        let c_y = if below { -c } else { c };
        let down_2 = end_y - c_y;
        let left = to_x - ROW_PADDING_PX;
        seq![
            "M"@, n(start_x), n(start_y),
            "v"@, n(down_1),
            "a"@, n(c), n(c), "0"@, "0"@, "1"@, n(-c), n(c),
            "H"@, n(left),
            "a"@, n(c), n(c), "0"@, "0"@, n(clockwise), n(-c), n(c_y),
            "V"@, n(down_2),
            "a"@, n(c), n(c), "0"@, "0"@, n(clockwise), n(c), n(c_y),
            "L"@, n(end_x), n(end_y),
        ] + arrow_head_words()
    } else {
        let c: int = if end_x < start_x + curve { end_x - start_x } else { curve };
        let offset = if below { end_y + c } else { end_y - c };
        seq![
            "M"@, n(start_x), n(start_y),
            "V"@, n(offset),
            "a"@, n(c), n(c), "0"@, "0"@, n(clockwise), n(c), n(curve_y),
            "L"@, n(end_x), n(end_y),
        ] + arrow_head_words()
    }
}

/// The SVG path of the arrow from `blocker` (drawn in row `blocker_row`) to
/// `blocked` (in row `blocked_row`), on a chart whose day 0 is `epoch`.
pub fn dependency_arrow_path(blocker: &GanttTask, blocked: &GanttTask, blocker_row: usize, blocked_row: usize, epoch: i32) -> (d: String)
    ensures
        d@ == words(
            arrow_words(
                bar_left_px(*blocker, epoch as int),
                bar_width_px(*blocker, epoch as int),
                bar_left_px(*blocked, epoch as int),
                blocker_row as int,
                blocked_row as int,
            ),
        ),
{
    let day: i128 = PX_PER_DAY_PX as i128;
    let pad: i128 = ROW_PADDING_PX as i128;
    let step: i128 = DEP_BACKOFF_STEP_PX as i128;
    let from_x: i128 = LABEL_W_PX as i128 + (blocker.start as i128 - epoch as i128) * day;
    let from_days: i128 = match blocker.end {
        Some(e) => e as i128 - blocker.start as i128,
        None => 1,
    };
    let from_w: i128 = (if from_days > 0 { from_days } else { 0 }) * day;
    let to_x: i128 = LABEL_W_PX as i128 + (blocked.start as i128 - epoch as i128) * day;
    assert(from_x == bar_left_px(*blocker, epoch as int));
    assert(from_w == bar_width_px(*blocker, epoch as int));
    assert(to_x == bar_left_px(*blocked, epoch as int));

    let mut start_x: i128 = from_x + from_w / 2;
    while to_x < start_x + pad && start_x > from_x + pad
        invariant
            from_x - 2 * pad <= start_x <= from_x + from_w / 2,
            -0x1_0000_0000_0000_0000 < from_x < 0x1_0000_0000_0000_0000,
            0 <= from_w < 0x1_0000_0000_0000_0000,
            -0x1_0000_0000_0000_0000 < to_x < 0x1_0000_0000_0000_0000,
            pad == ROW_PADDING_PX,
            step == DEP_BACKOFF_STEP_PX,
            backed_off(start_x as int, from_x as int, to_x as int) == backed_off(from_x + from_w / 2, from_x as int, to_x as int),
        decreases start_x - from_x,
    {
        start_x = start_x - step;
    }
    start_x = start_x - step;

    let start_y: i128 = HEADER_H_PX as i128 + blocker_row as i128 * ROW_H_PX as i128 + BAR_PAD_PX as i128 + BAR_H_PX as i128;
    let end_x: i128 = to_x - ARROW_LEAD_PX as i128;
    let end_y: i128 = HEADER_H_PX as i128 + blocked_row as i128 * ROW_H_PX as i128 + ROW_H_PX as i128 / 2;
    let below = blocker_row > blocked_row;
    let clockwise: i128 = if below { 1 } else { 0 };
    let mut curve: i128 = ARROW_CURVE_PX as i128;
    let mut curve_y: i128 = if below { -curve } else { curve };
    let head: i128 = ARROW_HEAD_PX as i128;
    let neg_head: i128 = -head;

    let mut tokens: Vec<Token> = if to_x <= from_x + pad {
        let mut down_1: i128 = pad / 2 - curve;
        if down_1 < 0 {
            down_1 = 0;
            curve = pad / 2;
            curve_y = if below { -curve } else { curve };
        }
        let down_2: i128 = end_y - curve_y;
        let left: i128 = to_x - pad;
        let neg_curve: i128 = -curve;
        vec![
            Token::Word("M"), Token::Int(start_x), Token::Int(start_y),
            Token::Word("v"), Token::Int(down_1),
            Token::Word("a"), Token::Int(curve), Token::Int(curve), Token::Word("0"), Token::Word("0"), Token::Word("1"),
            Token::Int(neg_curve), Token::Int(curve),
            Token::Word("H"), Token::Int(left),
            Token::Word("a"), Token::Int(curve), Token::Int(curve), Token::Word("0"), Token::Word("0"), Token::Int(clockwise),
            Token::Int(neg_curve), Token::Int(curve_y),
            Token::Word("V"), Token::Int(down_2),
            Token::Word("a"), Token::Int(curve), Token::Int(curve), Token::Word("0"), Token::Word("0"), Token::Int(clockwise),
            Token::Int(curve), Token::Int(curve_y),
            Token::Word("L"), Token::Int(end_x), Token::Int(end_y),
        ]
    } else {
        if end_x < start_x + curve {
            curve = end_x - start_x;
        }
        let offset: i128 = if below { end_y + curve } else { end_y - curve };
        vec![
            Token::Word("M"), Token::Int(start_x), Token::Int(start_y),
            Token::Word("V"), Token::Int(offset),
            Token::Word("a"), Token::Int(curve), Token::Int(curve), Token::Word("0"), Token::Word("0"), Token::Int(clockwise),
            Token::Int(curve), Token::Int(curve_y),
            Token::Word("L"), Token::Int(end_x), Token::Int(end_y),
        ]
    };
    let mut tail: Vec<Token> = vec![
        Token::Word("m"), Token::Int(neg_head), Token::Int(neg_head),
        Token::Word("l"), Token::Int(head), Token::Int(head),
        Token::Word("l"), Token::Int(neg_head), Token::Int(head),
    ];
    tokens.append(&mut tail);
    proof {
        let ws = tokens@.map_values(|t: Token| token_text(t));
        let expected = arrow_words(from_x as int, from_w as int, to_x as int, blocker_row as int, blocked_row as int);
        assert(ws.len() == expected.len());
        assert(ws =~= expected);
    }
    let mut d = String::new();
    push_words(&mut d, &tokens);
    proof {
        assert(d@ =~= words(tokens@.map_values(|t: Token| token_text(t))));
    }
    d
}

/// Backing off never moves right, and stops only once the blocked bar
/// starts a row padding right of the point or the point is within a row
/// padding of the blocker's left edge.
proof fn lemma_backed_off_bounds(x: int, from_x: int, to_x: int)
    ensures
        backed_off(x, from_x, to_x) <= x,
        to_x >= backed_off(x, from_x, to_x) + ROW_PADDING_PX || backed_off(x, from_x, to_x) <= from_x + ROW_PADDING_PX,
        x >= from_x ==> backed_off(x, from_x, to_x) >= from_x,
    decreases x - from_x,
{
    if to_x < x + ROW_PADDING_PX && x > from_x + ROW_PADDING_PX {
        lemma_backed_off_bounds(x - DEP_BACKOFF_STEP_PX, from_x, to_x);
    }
}

/// `ws[k]` opens an arc whose two radii are the same positive number.
pub open spec fn positive_arc_at(ws: Seq<Seq<char>>, k: int) -> bool {
    &&& 0 <= k && k + 2 < ws.len()
    &&& ws[k] == "a"@
    &&& exists|r: int| r > 0 && ws[k + 1] == signed_decimal(r) && #[trigger] ws[k + 2] == signed_decimal(r)
}

/// The top edge of row `row`.
pub open spec fn row_top_px(row: int) -> int {
    HEADER_H_PX + row * ROW_H_PX
}

/// How a dependency arrow runs, on a chart whose day 0 is `epoch`.
/// - It starts at the bottom edge of the blocker's bar and ends, after its
///   arrow head, at the centre line of the blocked task's row just left of the
///   blocked bar.
/// - When the blocked task starts no later than the blocker (its bar's left
///   edge within a row padding of the blocker's), the arrow drops below the
///   blocker, runs left past the blocked bar with `H`, and turns back into it
///   (`v`, three rounded corners); otherwise it drops straight to the blocked
///   row (`V`) and bends right into the bar with one rounded corner, never
///   leaving the band between the two rows.
/// - Every corner is a quarter circle of positive radius.
pub proof fn lemma_arrow_route(blocker: GanttTask, blocked: GanttTask, blocker_row: nat, blocked_row: nat, epoch: int)
    requires
        blocker_row != blocked_row,
    ensures
        ({
            let ws = arrow_words(
                bar_left_px(blocker, epoch),
                bar_width_px(blocker, epoch),
                bar_left_px(blocked, epoch),
                blocker_row as int,
                blocked_row as int,
            );
            let start_y = row_top_px(blocker_row as int) + BAR_PAD_PX + BAR_H_PX;
            let end_y = row_top_px(blocked_row as int) + ROW_H_PX / 2;
            let n = ws.len() as int;
            &&& ws[0] == "M"@
            &&& ws[2] == signed_decimal(start_y)
            &&& n >= 12
            &&& ws[n - 12] == "L"@
            &&& ws[n - 11] == signed_decimal(bar_left_px(blocked, epoch) - ARROW_LEAD_PX)
            &&& ws[n - 10] == signed_decimal(end_y)
            &&& positive_arc_at(ws, 5)
            &&& blocked.start <= blocker.start ==> {
                &&& n == 45
                &&& ws[3] == "v"@
                &&& ws[13] == "H"@
                &&& ws[14] == signed_decimal(bar_left_px(blocked, epoch) - ROW_PADDING_PX)
                &&& positive_arc_at(ws, 15)
                &&& ws[23] == "V"@
                &&& positive_arc_at(ws, 25)
            }
            &&& blocked.start > blocker.start ==> {
                &&& n == 25
                &&& ws[3] == "V"@
                &&& exists|y: int|
                    #![trigger signed_decimal(y)]
                    ws[4] == signed_decimal(y) && (if start_y <= end_y {
                        start_y <= y <= end_y
                    } else {
                        end_y <= y <= start_y
                    })
            }
        }),
{
    let from_x = bar_left_px(blocker, epoch);
    let from_w = bar_width_px(blocker, epoch);
    let to_x = bar_left_px(blocked, epoch);
    let ws = arrow_words(from_x, from_w, to_x, blocker_row as int, blocked_row as int);
    let x0 = from_x + from_w / 2;
    assert(from_w >= 0);
    lemma_backed_off_bounds(x0, from_x, to_x);
    let b = backed_off(x0, from_x, to_x);
    let start_x = b - DEP_BACKOFF_STEP_PX;
    let start_y = row_top_px(blocker_row as int) + BAR_PAD_PX + BAR_H_PX;
    let end_y = row_top_px(blocked_row as int) + ROW_H_PX / 2;
    let below = blocker_row > blocked_row;
    assert(to_x - from_x == (blocked.start - blocker.start) * 30);
    if blocked.start <= blocker.start {
        assert(to_x <= from_x + ROW_PADDING_PX);
        assert(ws[6] == signed_decimal(4) && ws[7] == signed_decimal(4));
        assert(ws[16] == signed_decimal(4) && ws[17] == signed_decimal(4));
        assert(ws[26] == signed_decimal(4) && ws[27] == signed_decimal(4));
    } else {
        assert(to_x >= from_x + 30);
        assert(to_x > from_x + ROW_PADDING_PX);
        let end_x = to_x - ARROW_LEAD_PX;
        assert(end_x >= start_x + ARROW_CURVE_PX);
        assert(ws[6] == signed_decimal(4) && ws[7] == signed_decimal(4));
        let offset = if below { end_y + 4 } else { end_y - 4 };
        if below {
            assert(blocker_row >= blocked_row + 1);
            assert(start_y - end_y == (blocker_row - blocked_row) * 40 + 10) by (nonlinear_arith)
                requires
                    start_y == 30 + blocker_row * 40 + 30,
                    end_y == 30 + blocked_row * 40 + 20,
            ;
        } else {
            assert(blocked_row >= blocker_row + 1);
            assert(end_y - start_y == (blocked_row - blocker_row) * 40 - 10) by (nonlinear_arith)
                requires
                    start_y == 30 + blocker_row * 40 + 30,
                    end_y == 30 + blocked_row * 40 + 20,
            ;
        }
        assert(ws[4] == signed_decimal(offset));
    }
}

} // verus!
