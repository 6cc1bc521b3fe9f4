use vstd::prelude::*;

use crate::boundary::SceneNewHypeEvent;

verus! {

/// The number of buffers in a scene that an output queue is sized for.
pub const SCENE_BUFFER_SIZE: u32 = 20;

/// The worker that scene `scene_index` goes to, out of `outputs` workers.
pub open spec fn route(scene_index: u32, outputs: nat) -> nat
    recommends
        outputs > 0,
{
    (scene_index as nat) % outputs
}

/// The switch that a scene boundary causes: the output that becomes active,
/// and the one that was active before, which must close its current unit.
#[derive(Debug, Clone, Copy, PartialEq, Eq, Structural)]
pub struct SceneSwitch {
    pub active_index: usize,
    pub previous_index: Option<usize>,
}

/// The selector as the contracts see it.
pub struct SelectorModel {
    /// The number of outputs, one per worker.
    pub outputs: nat,
    /// The output that data goes to, once a boundary has chosen one.
    pub active: Option<nat>,
}

/// The dispatcher: owns one output per worker and sends each scene, from
/// its boundary on, to the worker that its index selects round-robin.
pub struct HypeOutputSelector {
    srcpad_counter: usize,
    active_index: Option<usize>,
}

impl View for HypeOutputSelector {
    type V = SelectorModel;

    closed spec fn view(&self) -> SelectorModel {
        SelectorModel {
            outputs: self.srcpad_counter as nat,
            active: match self.active_index {
                Some(a) => Some(a as nat),
                None => None,
            },
        }
    }
}

impl HypeOutputSelector {
    pub open spec fn wf(&self) -> bool {
        match self@.active {
            Some(a) => a < self@.outputs,
            None => true,
        }
    }

    /// A selector with no output and none active.
    pub fn new() -> (r: Self)
        ensures
            r.wf(),
            r@ == (SelectorModel { outputs: 0, active: None }),
    {
        HypeOutputSelector { srcpad_counter: 0, active_index: None }
    }

    /// The number of buffers that each output's queue holds at most: room
    /// for two scenes.
    pub fn queue_max_size_buffers() -> (r: u32)
        ensures
            r == 2 * SCENE_BUFFER_SIZE,
    {
        SCENE_BUFFER_SIZE * 2
    }

    /// Adds an output and returns its index; `None`, with nothing changed,
    /// where no further index can be counted.
    pub fn request_new_pad(&mut self) -> (r: Option<usize>)
        requires
            old(self).wf(),
        ensures
            final(self).wf(),
            r is None <==> old(self)@.outputs == usize::MAX,
            r is None ==> final(self)@ == old(self)@,
            r is Some ==> r->Some_0 == old(self)@.outputs && final(self)@ == (SelectorModel {
                outputs: old(self)@.outputs + 1,
                active: old(self)@.active,
            }),
    {
        if self.srcpad_counter == usize::MAX {
            return None;
        }
        let id = self.srcpad_counter;
        self.srcpad_counter = self.srcpad_counter + 1;
        Some(id)
    }

    /// The number of outputs.
    pub fn output_count(&self) -> (r: usize)
        ensures
            r == self@.outputs,
    {
        self.srcpad_counter
    }

    /// The output that data goes to now, if a boundary has chosen one.
    pub fn active_output(&self) -> (r: Option<usize>)
        ensures
            r matches Some(a) ==> self@.active == Some(a as nat),
            r is None <==> self@.active is None,
    {
        self.active_index
    }

    /// A scene boundary passes: scene `ev.gop_index` goes to output
    /// `ev.gop_index mod N`, N the number of outputs now, and the output
    /// active until now is reported so that its worker closes its unit.
    /// With no output there is nothing to select, and nothing changes.
    pub fn new_scene_event(&mut self, ev: SceneNewHypeEvent) -> (r: Option<SceneSwitch>)
        requires
            old(self).wf(),
        ensures
            final(self).wf(),
            r is None <==> old(self)@.outputs == 0,
            r is None ==> final(self)@ == old(self)@,
            r matches Some(sw) ==> {
                &&& sw.active_index == route(ev.gop_index, old(self)@.outputs)
                &&& match sw.previous_index {
                    Some(p) => old(self)@.active == Some(p as nat),
                    None => old(self)@.active is None,
                }
                &&& final(self)@ == (SelectorModel {
                    outputs: old(self)@.outputs,
                    active: Some(route(ev.gop_index, old(self)@.outputs)),
                })
            },
    {
        if self.srcpad_counter == 0 {
            return None;
        }
        let active = (ev.gop_index as usize) % self.srcpad_counter;
        let previous = self.active_index;
        self.active_index = Some(active);
        Some(SceneSwitch { active_index: active, previous_index: previous })
    }
}

} // verus!
