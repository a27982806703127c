//! The bottom layer: the two files side by side, and the keys that move
//! through the diffs and decide on them.
use std::ops::Range;
use vstd::prelude::*;

use crate::app_ctx::{center_pos, max_pos, next_index, prev_index, sat_sub, AppCtx, Decision};
use crate::layers::{Key, Layer, LayerChange, LayerCtx};
use crate::popup::{PopupKind, PopupYesNo};
use crate::range_tree::{holds, seq_holds, RangeTree};

verus! {

/// The viewport offset after moving down by `by` bytes.
pub open spec fn pos_down(c: AppCtx, by: int) -> int {
    if c.pos + by <= max_pos(c.len, c.shown_data_height) {
        c.pos + by
    } else {
        max_pos(c.len, c.shown_data_height)
    }
}

/// `c` with the diff `sel` selected and the viewport pointed at it.
pub open spec fn selected(c: AppCtx, sel: Option<usize>) -> AppCtx {
    AppCtx {
        current_diff_index: sel,
        pos: match sel {
            Some(i) => center_pos(c.diffs@[i as int].start as int, c.diffs@[i as int].end as int, c.len, c.shown_data_height) as u64,
            None => c.pos,
        },
        ..c
    }
}

/// No diff carries a decision.
pub open spec fn nothing_decided(c: AppCtx) -> bool {
    c.merges_1_into_2@.len() == 0 && c.merges_2_into_1@.len() == 0 && c.leave_unmerged@.len() == 0
}

/// The question asked before leaving with decisions taken.
pub open spec fn quit_popup(c: AppCtx) -> PopupYesNo {
    PopupYesNo {
        kind: PopupKind::Quit { unapplied: (c.merges_1_into_2@.len() + c.merges_2_into_1@.len()) as usize },
        yes_selected: false,
    }
}

/// The question asked before writing the merges.
pub open spec fn apply_popup(c: AppCtx) -> PopupYesNo {
    let decided = c.merges_1_into_2@.len() + c.merges_2_into_1@.len() + c.leave_unmerged@.len();
    PopupYesNo {
        kind: PopupKind::ApplyChanges {
            merged_left: c.merges_2_into_1@.len() as usize,
            merged_right: c.merges_1_into_2@.len() as usize,
            unchanged: c.leave_unmerged@.len() as usize,
            unmerged: (c.diffs@.len() - decided) as usize,
            total: c.diffs@.len() as usize,
            complete: c.all_diffs_loaded,
        },
        yes_selected: false,
    }
}

/// The decision a key names.
pub open spec fn decision_key(key: Key) -> Option<Decision> {
    match key {
        Key::Char('>') => Some(Decision::MergeRight),
        Key::Char('<') => Some(Decision::MergeLeft),
        Key::Char('=') => Some(Decision::LeaveUnmerged),
        Key::Char('!') => Some(Decision::Reset),
        _ => None,
    }
}

/// The side-by-side view of both files.
#[derive(PartialEq, Eq, Structural, Debug, Copy, Clone)]
pub struct DiffView {}

impl DiffView {
    pub fn new() -> (v: DiffView)
        ensures
            v == (DiffView {}),
    {
        DiffView {}
    }

    /// `c` and `changes` are what the key `key` leaves of `c0`.
    pub open spec fn handled(c0: AppCtx, key: Key, c: AppCtx, changes: Seq<LayerChange>) -> bool {
        let row = 16int;
        let page = c0.shown_data_height * 16;
        match key {
            Key::Char('q') => if nothing_decided(c0) {
                c == (AppCtx { exit: true, ..c0 }) && changes.len() == 0
            } else {
                c == c0 && changes == seq![LayerChange::Push(Layer::Popup(quit_popup(c0)))]
            },
            Key::Down => c == (AppCtx { pos: pos_down(c0, row) as u64, ..c0 }) && changes.len() == 0,
            Key::Up => c == (AppCtx { pos: sat_sub(c0.pos as int, row) as u64, ..c0 }) && changes.len() == 0,
            Key::PageDown => c == (AppCtx { pos: pos_down(c0, page) as u64, ..c0 }) && changes.len() == 0,
            Key::PageUp => c == (AppCtx { pos: sat_sub(c0.pos as int, page) as u64, ..c0 }) && changes.len() == 0,
            Key::Char('n') => c == selected(c0, next_index(c0.current_diff_index, c0.diffs@.len()))
                && changes.len() == 0,
            Key::Char('N') => c == selected(c0, prev_index(c0.current_diff_index, c0.diffs@.len()))
                && changes.len() == 0,
            Key::Char('a') | Key::Char('w') => c == c0 && changes == seq![LayerChange::Push(Layer::Popup(apply_popup(c0)))],
            _ => match decision_key(key) {
                Some(d) => c0.classified(&c, d) && changes.len() == 0,
                None => c == c0 && changes.len() == 0,
            },
        }
    }

    pub fn handle_key_event(&self, ctx: &mut AppCtx, layers: &mut LayerCtx, evt: Key)
        requires
            old(ctx).wf(),
        ensures
            final(ctx).wf(),
            DiffView::handled(*old(ctx), evt, *final(ctx), final(layers)@.subrange(
                old(layers)@.len() as int,
                final(layers)@.len() as int,
            )),
            final(layers)@.subrange(0, old(layers)@.len() as int) == old(layers)@,
            old(layers)@.len() <= final(layers)@.len(),
    {
        let ghost l0 = layers@;
        match evt {
            Key::Char('q') => {
                if ctx.merges_1_into_2.is_empty() && ctx.merges_2_into_1.is_empty() && ctx.leave_unmerged.is_empty() {
                    ctx.exit = true;
                } else {
                    layers.push_layer(Layer::Popup(QuitPopup::new(ctx)));
                }
            },
            Key::Down => ctx.increase_pos(16),
            Key::Up => ctx.decrease_pos(16),
            Key::PageDown => ctx.increase_pos(ctx.shown_data_height as u64 * 16),
            Key::PageUp => ctx.decrease_pos(ctx.shown_data_height as u64 * 16),
            Key::Char('N') => ctx.prev_diff(),
            Key::Char('n') => ctx.next_diff(),
            Key::Char('>') => ctx.classify(Decision::MergeRight),
            Key::Char('<') => ctx.classify(Decision::MergeLeft),
            Key::Char('=') => ctx.classify(Decision::LeaveUnmerged),
            Key::Char('!') => ctx.classify(Decision::Reset),
            Key::Char('a') | Key::Char('w') => layers.push_layer(Layer::Popup(ApplyChangesPopup::new(ctx))),
            _ => {},
        }
        proof {
            assert(layers@.subrange(0, l0.len() as int) =~= l0);
            if layers@.len() == l0.len() {
                assert(layers@.subrange(l0.len() as int, layers@.len() as int) =~= Seq::<LayerChange>::empty());
            } else {
                assert(layers@.subrange(l0.len() as int, layers@.len() as int) =~= seq![layers@.last()]);
            }
        }
    }
}

/// Builds the question asked before leaving with decisions taken.
pub struct QuitPopup {}

impl QuitPopup {
    pub fn new(ctx: &AppCtx) -> (p: PopupYesNo)
        requires
            ctx.wf(),
        ensures
            p == quit_popup(*ctx),
    {
        let diffs_len = ctx.diffs.len();
        proof {
            ctx.lemma_decided_count();
            assert(ctx.merges_1_into_2@.len() + ctx.merges_2_into_1@.len() <= diffs_len);
        }
        PopupYesNo::new(PopupKind::Quit { unapplied: ctx.merges_1_into_2.len() + ctx.merges_2_into_1.len() })
    }
}

/// Builds the question asked before writing the merges.
pub struct ApplyChangesPopup {}

impl ApplyChangesPopup {
    pub fn new(ctx: &AppCtx) -> (p: PopupYesNo)
        requires
            ctx.wf(),
        ensures
            p == apply_popup(*ctx),
    {
        PopupYesNo::new(
            PopupKind::ApplyChanges {
                merged_left: ctx.merges_2_into_1.len(),
                merged_right: ctx.merges_1_into_2.len(),
                unchanged: ctx.leave_unmerged.len(),
                unmerged: ctx.undecided_count(),
                total: ctx.diffs.len(),
                complete: ctx.all_diffs_loaded,
            },
        )
    }
}


/// How a byte of one file's pane is coloured.
#[derive(PartialEq, Eq, Structural, Debug, Copy, Clone)]
pub enum ByteStyle {
    /// To be overwritten with the other file's byte.
    MergedIntoThis,
    /// To be copied over the other file's byte.
    MergedFromThis,
    /// A diff to be left as it is.
    LeaveUnmerged,
    /// A diff with no decision yet.
    Diff,
    /// Equal in both files.
    Equal,
}

/// The colour of the byte at `pos`: the first of the decision sets that
/// holds it, in the order of `ByteStyle`, else whether it is in a diff.
pub open spec fn style_of(
    pos: int,
    diffs: Seq<Range<u64>>,
    merged_into_this: Seq<Range<u64>>,
    merged_from_this: Seq<Range<u64>>,
    leave_unmerged: Seq<Range<u64>>,
) -> ByteStyle {
    if seq_holds(merged_into_this, pos) {
        ByteStyle::MergedIntoThis
    } else if seq_holds(merged_from_this, pos) {
        ByteStyle::MergedFromThis
    } else if seq_holds(leave_unmerged, pos) {
        ByteStyle::LeaveUnmerged
    } else if seq_holds(diffs, pos) {
        ByteStyle::Diff
    } else {
        ByteStyle::Equal
    }
}

/// The colour of the byte at `pos`, and whether it lies in the selected diff
/// `current` (which is drawn highlighted on top of the colour).
pub fn byte_style(
    pos: u64,
    current: &Range<u64>,
    diffs: &RangeTree,
    merged_into_this: &RangeTree,
    merged_from_this: &RangeTree,
    leave_unmerged: &RangeTree,
) -> (r: (ByteStyle, bool))
    requires
        diffs.wf(),
        merged_into_this.wf(),
        merged_from_this.wf(),
        leave_unmerged.wf(),
    ensures
        r.0 == style_of(pos as int, diffs@, merged_into_this@, merged_from_this@, leave_unmerged@),
        r.1 == holds(*current, pos as int),
{
    let style = if merged_into_this.contains(pos) {
        ByteStyle::MergedIntoThis
    } else if merged_from_this.contains(pos) {
        ByteStyle::MergedFromThis
    } else if leave_unmerged.contains(pos) {
        ByteStyle::LeaveUnmerged
    } else if diffs.contains(pos) {
        ByteStyle::Diff
    } else {
        ByteStyle::Equal
    };
    (style, current.start <= pos && pos < current.end)
}

/// A byte that stands for itself in the text pane: printable ASCII that
/// needs no escape.
pub open spec fn shows_as_itself(b: u8) -> bool {
    0x20 <= b <= 0x7e && b != 0x22 && b != 0x27 && b != 0x5c
}

/// The character shown for a byte in the text pane: the byte itself where it
/// shows as itself, else a dot.
pub fn shown_char(b: u8) -> (c: char)
    ensures
        c == if shows_as_itself(b) { b as char } else { '.' },
{
    if 0x20 <= b && b <= 0x7e && b != 0x22 && b != 0x27 && b != 0x5c {
        b as char
    } else {
        '.'
    }
}

/// The number of hexadecimal digits of `n`.
pub open spec fn hex_digits(n: nat) -> nat
    decreases n,
{
    if n < 16 {
        1
    } else {
        1 + hex_digits(n / 16)
    }
}

/// `16` to the power `k`.
pub open spec fn pow16(k: nat) -> nat
    decreases k,
{
    if k == 0 {
        1
    } else {
        16 * pow16((k - 1) as nat)
    }
}

/// A number below `16` to the power `k` has at most `k` hexadecimal digits.
proof fn lemma_hex_digits_bound(n: nat, k: nat)
    requires
        k >= 1,
        n < pow16(k),
    ensures
        hex_digits(n) <= k,
    decreases k,
{
    if n >= 16 {
        if k == 1 {
            assert(pow16(1) == 16) by {
                reveal_with_fuel(pow16, 2);
            }
        } else {
            let p = pow16((k - 1) as nat);
            assert(n / 16 < p) by (nonlinear_arith)
                requires
                    n < 16 * p,
            ;
            lemma_hex_digits_bound(n / 16, (k - 1) as nat);
        }
    }
}

/// The width of the offset gutter: as many hexadecimal digits as `len` has.
pub fn hex_width(len: u64) -> (w: usize)
    ensures
        w == hex_digits(len as nat),
{
    proof {
        assert(pow16(16) == 0x1_0000_0000_0000_0000) by {
            reveal_with_fuel(pow16, 17);
        }
        lemma_hex_digits_bound(len as nat, 16);
    }
    let mut n = len;
    let mut w: usize = 1;
    while n >= 16
        invariant
            w + hex_digits(n as nat) == 1 + hex_digits(len as nat),
            hex_digits(len as nat) <= 16,
        decreases n,
    {
        n = n / 16;
        w = w + 1;
    }
    w
}

} // verus!
