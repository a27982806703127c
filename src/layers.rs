//! A stack of modal layers over the shared state. Only the topmost layer
//! gets keys; a layer asks for pushes and pops, which the stack carries out
//! once the layer has returned.
use std::ops::Range;
use vstd::prelude::*;

use crate::app_ctx::{decisions_disjoint, max_pos, AppCtx};
use crate::diff_view::DiffView;
use crate::popup::PopupYesNo;

verus! {

/// A key press, as the layers read it.
#[derive(PartialEq, Eq, Structural, Debug, Copy, Clone)]
pub enum Key {
    Char(char),
    Up,
    Down,
    Left,
    Right,
    PageUp,
    PageDown,
    Enter,
    Esc,
    Other,
}

/// What the main loop waits for.
pub enum AppEvent {
    /// The differ found a diff.
    Diff(Range<u64>),
    /// The differ is done.
    DiffsDone,
    /// A key was pressed.
    Key(Key),
}

/// One layer of the stack.
#[derive(PartialEq, Eq, Structural, Debug, Copy, Clone)]
pub enum Layer {
    Diff(DiffView),
    Popup(PopupYesNo),
}

/// A change to the stack that a layer asks for.
#[derive(PartialEq, Eq, Structural, Debug, Copy, Clone)]
pub enum LayerChange {
    Push(Layer),
    Pop,
}

/// The stack after carrying out `changes` in order; a pop on an empty stack
/// does nothing.
pub open spec fn after_changes(stack: Seq<Layer>, changes: Seq<LayerChange>) -> Seq<Layer>
    decreases changes.len(),
{
    if changes.len() == 0 {
        stack
    } else {
        let next = match changes[0] {
            LayerChange::Push(l) => stack.push(l),
            LayerChange::Pop => if stack.len() == 0 {
                stack
            } else {
                stack.drop_last()
            },
        };
        after_changes(next, changes.drop_first())
    }
}

/// The diff view at the bottom, and only popups above it.
pub open spec fn well_layered(stack: Seq<Layer>) -> bool {
    &&& stack.len() >= 1
    &&& stack[0] is Diff
    &&& forall|i: int| 1 <= i < stack.len() ==> #[trigger] stack[i] is Popup
}

/// The changes a layer asks for while it handles a key.
pub struct LayerCtx {
    layer_changes: Vec<LayerChange>,
}

impl View for LayerCtx {
    type V = Seq<LayerChange>;

    closed spec fn view(&self) -> Seq<LayerChange> {
        self.layer_changes@
    }
}

impl LayerCtx {
    pub fn new() -> (l: LayerCtx)
        ensures
            l@ == Seq::<LayerChange>::empty(),
    {
        LayerCtx { layer_changes: Vec::new() }
    }

    /// Ask for `layer` to be pushed.
    pub fn push_layer(&mut self, layer: Layer)
        ensures
            final(self)@ == old(self)@.push(LayerChange::Push(layer)),
    {
        self.layer_changes.push(LayerChange::Push(layer));
    }

    /// Ask for the topmost layer to be popped.
    pub fn pop_layer(&mut self)
        ensures
            final(self)@ == old(self)@.push(LayerChange::Pop),
    {
        self.layer_changes.push(LayerChange::Pop);
    }
}


/// `l` and `c` are what the layer `l0` leaves of itself and of `c0` on the
/// key `key`, asking for `changes`.
pub open spec fn layer_handled(l0: Layer, c0: AppCtx, key: Key, l: Layer, c: AppCtx, changes: Seq<LayerChange>) -> bool {
    match l0 {
        Layer::Diff(_) => l == l0 && DiffView::handled(c0, key, c, changes),
        Layer::Popup(p0) => match l {
            Layer::Popup(p) => p0.handled(c0, key, p, c, changes),
            Layer::Diff(_) => false,
        },
    }
}

/// The stack of layers and the state they share.
pub struct Layers {
    layers: Vec<Layer>,
    ctx: AppCtx,
}

impl Layers {
    /// The layers, bottom first.
    pub closed spec fn stack(&self) -> Seq<Layer> {
        self.layers@
    }

    /// The shared state.
    pub closed spec fn state(&self) -> AppCtx {
        self.ctx
    }

    pub fn new(ctx: AppCtx) -> (l: Layers)
        ensures
            l.stack() == Seq::<Layer>::empty(),
            l.state() == ctx,
    {
        Layers { layers: Vec::new(), ctx }
    }

    /// Hand `evt` to the topmost layer, then carry out the changes it asked for.
    pub fn handle_key_event(&mut self, evt: Key)
        requires
            old(self).state().wf(),
        ensures
            final(self).state().wf(),
            decisions_disjoint(
                final(self).state().merges_1_into_2@,
                final(self).state().merges_2_into_1@,
                final(self).state().leave_unmerged@,
            ),
            final(self).state().pos % 16 == 0,
            final(self).state().pos <= max_pos(final(self).state().len, final(self).state().shown_data_height),
            well_layered(old(self).stack()) ==> well_layered(final(self).stack()),
            old(self).stack().len() == 0 ==> final(self).stack() == old(self).stack() && final(self).state() == old(self).state(),
            old(self).stack().len() > 0 ==> exists|top: Layer, changes: Seq<LayerChange>|
                #[trigger] layer_handled(old(self).stack().last(), old(self).state(), evt, top, final(self).state(), changes)
                    && final(self).stack() == after_changes(old(self).stack().drop_last().push(top), changes),
    {
        let last = match self.layers.pop() {
            Some(l) => l,
            None => return
        };
        let mut ctx = LayerCtx::new();
        let top = match last {
            Layer::Diff(v) => {
                v.handle_key_event(&mut self.ctx, &mut ctx, evt);
                Layer::Diff(v)
            },
            Layer::Popup(p) => {
                let mut p = p;
                p.handle_key_event(&mut self.ctx, &mut ctx, evt);
                Layer::Popup(p)
            },
        };
        self.layers.push(top);
        let ghost asked = ctx@;
        proof {
            assert(ctx@.subrange(0, ctx@.len() as int) =~= ctx@);
            assert(ctx@.subrange(0, 0) =~= Seq::<LayerChange>::empty());
            assert(layer_handled(last, old(self).state(), evt, top, self.ctx, asked));
        }
        let changes = ctx.layer_changes;
        self.apply_layer_changes(changes);
        proof {
            let mid = old(self).stack().drop_last().push(top);
            if well_layered(old(self).stack()) {
                let before = old(self).stack();
                assert(asked.len() <= 1);
                assert(last is Diff ==> top is Diff);
                assert(last is Popup ==> top is Popup);
                assert(mid[0] is Diff) by {
                    if before.len() > 1 {
                        assert(mid[0] == before[0]);
                    }
                }
                assert forall|i: int| 1 <= i < mid.len() implies #[trigger] mid[i] is Popup by {
                    if i < mid.len() - 1 {
                        assert(mid[i] == before[i]);
                    }
                }
                assert(well_layered(mid));
                if asked.len() == 0 {
                    assert(after_changes(mid, asked) == mid);
                } else {
                    assert(asked.drop_first() =~= Seq::<LayerChange>::empty());
                    let next = match asked[0] {
                        LayerChange::Push(l) => mid.push(l),
                        LayerChange::Pop => mid.drop_last(),
                    };
                    assert(after_changes(next, asked.drop_first()) == next);
                    if asked[0] is Pop {
                        assert(last is Popup);
                        assert(mid.drop_last() =~= old(self).stack().drop_last());
                    }
                }
            }
            assert(layer_handled(old(self).stack().last(), old(self).state(), evt, top, self.state(), asked));
        }
    }

    /// The shared state, for changes from outside the layers.
    pub fn ctx(&mut self) -> (c: &mut AppCtx)
        ensures
            *c == old(self).state(),
            final(self).state() == *final(c),
            final(self).stack() == old(self).stack(),
    {
        &mut self.ctx
    }

    /// The layers, bottom first, for rendering.
    pub fn layers(&self) -> (l: &Vec<Layer>)
        ensures
            l@ == self.stack(),
    {
        &self.layers
    }

    pub fn push_layer(&mut self, layer: Layer)
        ensures
            final(self).stack() == old(self).stack().push(layer),
            final(self).state() == old(self).state(),
    {
        self.layers.push(layer);
    }

    /// Pop the topmost layer, if any.
    pub fn pop_layer(&mut self)
        ensures
            final(self).stack() == after_changes(old(self).stack(), seq![LayerChange::Pop]),
            final(self).state() == old(self).state(),
    {
        let ghost before = self.layers@;
        self.layers.pop();
        proof {
            assert(seq![LayerChange::Pop].drop_first() =~= Seq::<LayerChange>::empty());
            assert(after_changes(self.layers@, Seq::<LayerChange>::empty()) == self.layers@);
            assert(after_changes(before, seq![LayerChange::Pop]) == after_changes(self.layers@, Seq::<LayerChange>::empty()));
        }
    }

    /// Carry out `changes` in order.
    pub fn apply_layer_changes(&mut self, changes: Vec<LayerChange>)
        ensures
            final(self).stack() == after_changes(old(self).stack(), changes@),
            final(self).state() == old(self).state(),
    {
        let ghost goal = after_changes(self.layers@, changes@);
        let mut i: usize = 0;
        assert(changes@.subrange(0, changes@.len() as int) =~= changes@);
        while i < changes.len()
            invariant
                i <= changes@.len(),
                goal == after_changes(self.layers@, changes@.subrange(i as int, changes@.len() as int)),
                self.ctx == old(self).ctx,
            decreases changes@.len() - i,
        {
            let ghost rest = changes@.subrange(i as int, changes@.len() as int);
            assert(rest.drop_first() =~= changes@.subrange(i + 1, changes@.len() as int));
            match changes[i] {
                LayerChange::Push(layer) => self.layers.push(layer),
                LayerChange::Pop => {
                    self.layers.pop();
                },
            }
            i = i + 1;
        }
        proof {
            assert(changes@.subrange(i as int, changes@.len() as int) =~= Seq::<LayerChange>::empty());
        }
    }
}


impl Layers {
    /// React to one event of the main loop: record a diff, note that all
    /// diffs are in, or hand a key to the layers.
    pub fn handle_event(&mut self, evt: AppEvent)
        requires
            old(self).state().wf(),
            evt matches AppEvent::Diff(r) ==> r.start < r.end && (old(self).state().diffs@.len() > 0
                ==> old(self).state().diffs@.last().end <= r.start),
        ensures
            final(self).state().wf(),
            well_layered(old(self).stack()) ==> well_layered(final(self).stack()),
            match evt {
                AppEvent::Diff(r) => {
                    &&& final(self).state().diffs@ == old(self).state().diffs@.push(r)
                    &&& final(self).state() == (AppCtx { diffs: final(self).state().diffs, ..old(self).state() })
                    &&& final(self).stack() == old(self).stack()
                },
                AppEvent::DiffsDone => {
                    &&& final(self).state() == (AppCtx { all_diffs_loaded: true, ..old(self).state() })
                    &&& final(self).stack() == old(self).stack()
                },
                AppEvent::Key(k) => {
                    &&& old(self).stack().len() == 0 ==> final(self).stack() == old(self).stack() && final(self).state()
                        == old(self).state()
                    &&& old(self).stack().len() > 0 ==> exists|top: Layer, changes: Seq<LayerChange>|
                        #[trigger] layer_handled(old(self).stack().last(), old(self).state(), k, top, final(self).state(), changes)
                            && final(self).stack() == after_changes(old(self).stack().drop_last().push(top), changes)
                },
            },
    {
        match evt {
            AppEvent::Diff(r) => self.ctx.add_diff(r),
            AppEvent::DiffsDone => self.ctx.all_diffs_loaded = true,
            AppEvent::Key(k) => self.handle_key_event(k),
        }
    }
}

} // verus!
