//! The order in which the viewer carries out the actions that its control
//! panel requested during a frame.
use vstd::prelude::*;

verus! {

/// The requests that the control panel has recorded and not yet served.
#[derive(Clone, Copy, Debug, PartialEq, Eq, Structural)]
pub struct UiFlags {
    pub clear_wire_clicked: bool,
    pub generate_parametric_clicked: bool,
    pub add_wire_point_clicked: bool,
    pub set_probe_clicked: bool,
    /// The wire, probe or current changed since the field was last computed.
    pub dirty: bool,
}

/// One step of serving the requests.
#[derive(Clone, Copy, Debug, PartialEq, Eq, Structural)]
pub enum UiAction {
    /// Drop every wire point and the last result.
    ClearWire,
    /// Sample the parametric curve into wire points.
    GenerateParametric,
    /// Append the point in the wire-point fields.
    AddWirePoint,
    /// Compute the field at the probe again.
    Recompute,
}

/// The next step: clearing, then generating, then adding a point, then
/// recomputing when something changed or the probe was set.
pub open spec fn next_action_spec(f: UiFlags) -> Option<UiAction> {
    if f.clear_wire_clicked {
        Some(UiAction::ClearWire)
    } else if f.generate_parametric_clicked {
        Some(UiAction::GenerateParametric)
    } else if f.add_wire_point_clicked {
        Some(UiAction::AddWirePoint)
    } else if f.set_probe_clicked || f.dirty {
        Some(UiAction::Recompute)
    } else {
        None
    }
}

/// The requests left after carrying out `a`; `generated` tells whether a
/// parametric generation produced points.
pub open spec fn after_spec(f: UiFlags, a: UiAction, generated: bool) -> UiFlags {
    match a {
        UiAction::ClearWire => UiFlags { clear_wire_clicked: false, dirty: true, ..f },
        UiAction::GenerateParametric => UiFlags {
            generate_parametric_clicked: false,
            dirty: f.dirty || generated,
            ..f
        },
        UiAction::AddWirePoint => UiFlags { add_wire_point_clicked: false, dirty: true, ..f },
        UiAction::Recompute => UiFlags { set_probe_clicked: false, dirty: false, ..f },
    }
}

/// Nothing is requested.
pub open spec fn idle(f: UiFlags) -> bool {
    !f.clear_wire_clicked && !f.generate_parametric_clicked && !f.add_wire_point_clicked
        && !f.set_probe_clicked && !f.dirty
}

/// How much work is left: two for each click to serve, one for a pending
/// recomputation.
pub open spec fn pending(f: UiFlags) -> nat {
    (if f.clear_wire_clicked { 2nat } else { 0nat }) + (if f.generate_parametric_clicked {
        2nat
    } else {
        0nat
    }) + (if f.add_wire_point_clicked { 2nat } else { 0nat }) + (if f.set_probe_clicked
        || f.dirty {
        1nat
    } else {
        0nat
    })
}

impl UiFlags {
    /// No request recorded.
    pub fn new() -> (f: UiFlags)
        ensures
            idle(f),
    {
        UiFlags {
            clear_wire_clicked: false,
            generate_parametric_clicked: false,
            add_wire_point_clicked: false,
            set_probe_clicked: false,
            dirty: false,
        }
    }

    /// The next step to carry out, or `None` when every request is served.
    pub fn next_action(&self) -> (r: Option<UiAction>)
        ensures
            r == next_action_spec(*self),
    {
        if self.clear_wire_clicked {
            Some(UiAction::ClearWire)
        } else if self.generate_parametric_clicked {
            Some(UiAction::GenerateParametric)
        } else if self.add_wire_point_clicked {
            Some(UiAction::AddWirePoint)
        } else if self.set_probe_clicked || self.dirty {
            Some(UiAction::Recompute)
        } else {
            None
        }
    }

    /// Records that `a` was carried out; `generated` tells whether a
    /// parametric generation produced points.
    pub fn complete(&mut self, a: UiAction, generated: bool)
        ensures
            *final(self) == after_spec(*old(self), a, generated),
    {
        match a {
            UiAction::ClearWire => {
                self.clear_wire_clicked = false;
                self.dirty = true;
            },
            UiAction::GenerateParametric => {
                self.generate_parametric_clicked = false;
                self.dirty = self.dirty || generated;
            },
            UiAction::AddWirePoint => {
                self.add_wire_point_clicked = false;
                self.dirty = true;
            },
            UiAction::Recompute => {
                self.set_probe_clicked = false;
                self.dirty = false;
            },
        }
    }
}

/// Serving requests stops exactly when nothing is requested.
pub proof fn lemma_done_iff_idle(f: UiFlags)
    ensures
        next_action_spec(f) is None <==> idle(f),
{
}

/// Each step served leaves strictly less work, so a frame serves its
/// requests in at most seven steps.
pub proof fn lemma_step_makes_progress(f: UiFlags, generated: bool)
    requires
        next_action_spec(f) is Some,
    ensures
        pending(after_spec(f, next_action_spec(f)->0, generated)) < pending(f),
        pending(f) <= 7,
{
}

/// A change to the wire is always followed by a recomputation: only
/// `Recompute` clears the change mark, and it stays set until then.
pub proof fn lemma_only_recompute_clears_dirty(f: UiFlags, a: UiAction, generated: bool)
    requires
        f.dirty,
        !after_spec(f, a, generated).dirty,
    ensures
        a == UiAction::Recompute,
{
}

/// Clearing the wire, adding a point and a generation that produced points
/// each leave a recomputation pending.
pub proof fn lemma_changes_mark_dirty(f: UiFlags, a: UiAction)
    requires
        a != UiAction::Recompute,
        a != UiAction::GenerateParametric,
    ensures
        after_spec(f, a, false).dirty,
        after_spec(f, UiAction::GenerateParametric, true).dirty,
{
}

} // verus!
