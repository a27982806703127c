//! A modal yes/no question.
use vstd::prelude::*;

use crate::app_ctx::AppCtx;
use crate::layers::{Key, LayerChange, LayerCtx};

verus! {

/// What a popup asks, with the figures it shows.
#[derive(PartialEq, Eq, Structural, Debug, Copy, Clone)]
pub enum PopupKind {
    /// Leave without applying; the number of merges not yet applied.
    Quit { unapplied: usize },
    /// Write the merges to the files; how many diffs carry each decision.
    ApplyChanges {
        merged_left: usize,
        merged_right: usize,
        unchanged: usize,
        unmerged: usize,
        total: usize,
        complete: bool,
    },
}

/// A question answered by YES or NO; NO is selected at first.
#[derive(PartialEq, Eq, Structural, Debug, Copy, Clone)]
pub struct PopupYesNo {
    pub kind: PopupKind,
    pub yes_selected: bool,
}

/// `new` is `c` after the answer YES to `kind`.
pub open spec fn answered_yes(kind: PopupKind, c: AppCtx, new: AppCtx) -> bool {
    match kind {
        PopupKind::Quit { .. } => new == (AppCtx { exit: true, ..c }),
        PopupKind::ApplyChanges { .. } => new == (AppCtx { apply_requested: true, ..c }),
    }
}

impl PopupYesNo {
    pub fn new(kind: PopupKind) -> (p: PopupYesNo)
        ensures
            p == (PopupYesNo { kind, yes_selected: false }),
    {
        PopupYesNo { kind, yes_selected: false }
    }

    /// `p`, `c` and `changes` are what the key `key` leaves of `self` and `c0`:
    /// left and right toggle the selection; Esc and `q` close the popup;
    /// Enter closes it and, on YES, carries out its question.
    pub open spec fn handled(&self, c0: AppCtx, key: Key, p: PopupYesNo, c: AppCtx, changes: Seq<LayerChange>) -> bool {
        match key {
            Key::Left | Key::Right => p == (PopupYesNo { yes_selected: !self.yes_selected, ..*self }) && c == c0
                && changes.len() == 0,
            Key::Esc | Key::Char('q') => p == *self && c == c0 && changes == seq![LayerChange::Pop],
            Key::Enter => p == *self && changes == seq![LayerChange::Pop] && if self.yes_selected {
                answered_yes(self.kind, c0, c)
            } else {
                c == c0
            },
            _ => p == *self && c == c0 && changes.len() == 0,
        }
    }

    pub fn handle_key_event(&mut self, ctx: &mut AppCtx, layers: &mut LayerCtx, evt: Key)
        requires
            old(ctx).wf(),
        ensures
            final(ctx).wf(),
            old(self).handled(*old(ctx), evt, *final(self), *final(ctx), final(layers)@.subrange(
                old(layers)@.len() as int,
                final(layers)@.len() as int,
            )),
            final(layers)@.subrange(0, old(layers)@.len() as int) == old(layers)@,
            old(layers)@.len() <= final(layers)@.len(),
    {
        let ghost l0 = layers@;
        match evt {
            Key::Left | Key::Right => self.yes_selected = !self.yes_selected,
            Key::Esc | Key::Char('q') => layers.pop_layer(),
            Key::Enter => {
                layers.pop_layer();
                if self.yes_selected {
                    match self.kind {
                        PopupKind::Quit { .. } => ctx.exit = true,
                        PopupKind::ApplyChanges { .. } => ctx.apply_requested = true,
                    }
                }
            },
            _ => {},
        }
        proof {
            assert(layers@.subrange(0, l0.len() as int) =~= l0);
            if layers@.len() == l0.len() {
                assert(layers@.subrange(l0.len() as int, layers@.len() as int) =~= Seq::<LayerChange>::empty());
            } else {
                assert(layers@.subrange(l0.len() as int, layers@.len() as int) =~= seq![LayerChange::Pop]);
            }
        }
    }
}

} // verus!
