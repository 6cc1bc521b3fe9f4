use vstd::prelude::*;

use crate::boundary::same_text;

verus! {

/// The number of worker slots of the stage.
pub const NUM_ENC: usize = 5;

/// The prefix of the configuration name of each worker slot.
pub const ENC_PREFIX: &'static str = "encoder-";

/// The one kind of element that may stand in a worker slot without being a
/// video encoder: the pass-through element.
pub const PASS_THROUGH: &'static str = "identity";

/// What the stage knows of an element offered as a worker: whether its
/// factory is a video encoder, and the factory's name.
#[derive(Debug)]
pub struct WorkerInfo {
    pub is_video_encoder: bool,
    pub factory_name: String,
}

/// A worker may stand in a slot where it is a video encoder or the
/// pass-through element.
pub open spec fn compatible(w: WorkerInfo) -> bool {
    w.is_video_encoder || w.factory_name@ == PASS_THROUGH@
}

/// Why a worker was refused.
#[derive(Debug, Clone, Copy, PartialEq, Eq, Structural)]
pub enum ConfigError {
    /// The stage has no slot of that number.
    NoSuchSlot,
    /// The element is neither a video encoder nor the pass-through element.
    NotAVideoEncoder,
    /// The pipeline is already wired: workers can no longer be assigned.
    AlreadyWired,
}

/// What became of an accepted assignment.
#[derive(Debug, Clone, Copy, PartialEq, Eq, Structural)]
pub enum Assignment {
    /// The worker now stands in the slot.
    Bound,
    /// The slot already had a worker; it keeps it, and the new one is not
    /// added.
    AlreadyBound,
}

/// A child of the stage, as enumerated by index.
#[derive(Debug, Clone, Copy, PartialEq, Eq, Structural)]
pub enum Child {
    SceneDetector,
    OutputSelector,
    SceneCollector,
    CapsFilter,
    Encoder(usize),
}

/// `w` lists the occupied slots of `slots`, each once, in ascending order.
pub open spec fn wired_exactly(w: Seq<usize>, slots: Seq<Option<WorkerInfo>>) -> bool {
    &&& forall|i: int, j: int| 0 <= i < j < w.len() ==> w[i] < w[j]
    &&& forall|s: usize| (w.contains(s) <==> s < NUM_ENC && slots[s as int] is Some)
}

/// The stage as the contracts see it.
pub struct HypeModel {
    /// For each slot, the worker standing in it, if any.
    pub slots: Seq<Option<WorkerInfo>>,
    /// The slots whose workers were wired into the pipeline, ascending;
    /// `None` until the pipeline is wired.
    pub wired: Option<Seq<usize>>,
}

/// The stage: a segmenter, a dispatcher, up to `NUM_ENC` workers, and a
/// reassembler, wired together when it leaves the idle state.
pub struct Hype {
    slots: Vec<Option<WorkerInfo>>,
    wired: Option<Vec<usize>>,
}

impl View for Hype {
    type V = HypeModel;

    closed spec fn view(&self) -> HypeModel {
        HypeModel {
            slots: self.slots@,
            wired: match self.wired {
                Some(w) => Some(w@),
                None => None,
            },
        }
    }
}

impl Hype {
    /// Every worker in a slot is compatible, there are `NUM_ENC` slots, and
    /// a wired pipeline holds exactly the occupied slots, in order.
    pub open spec fn wf(&self) -> bool {
        &&& self@.slots.len() == NUM_ENC
        &&& forall|s: int| 0 <= s < NUM_ENC ==> (#[trigger] self@.slots[s] matches Some(w) ==> compatible(w))
        &&& match self@.wired {
            Some(w) => wired_exactly(w, self@.slots),
            None => true,
        }
    }

    /// A stage with every slot empty and nothing wired.
    pub fn new() -> (r: Self)
        ensures
            r.wf(),
            r@.slots == Seq::new(NUM_ENC as nat, |s: int| None::<WorkerInfo>),
            r@.wired is None,
    {
        let mut slots: Vec<Option<WorkerInfo>> = Vec::new();
        let mut s: usize = 0;
        while s < NUM_ENC
            invariant
                s <= NUM_ENC,
                slots@ == Seq::new(s as nat, |i: int| None::<WorkerInfo>),
            decreases NUM_ENC - s,
        {
            slots.push(None);
            s = s + 1;
            assert(slots@ =~= Seq::new(s as nat, |i: int| None::<WorkerInfo>));
        }
        Hype { slots, wired: None }
    }

    /// Offers `worker` for slot `slot`. A slot that has a worker keeps it;
    /// an incompatible worker is refused at once, so that the stage never
    /// starts with it.
    pub fn set_encoder(&mut self, slot: usize, worker: WorkerInfo) -> (r: Result<Assignment, ConfigError>)
        requires
            old(self).wf(),
        ensures
            final(self).wf(),
            slot >= NUM_ENC ==> r == Err::<Assignment, ConfigError>(ConfigError::NoSuchSlot),
            slot < NUM_ENC && old(self)@.wired is Some ==> r == Err::<Assignment, ConfigError>(
                ConfigError::AlreadyWired,
            ),
            slot < NUM_ENC && old(self)@.wired is None && old(self)@.slots[slot as int] is Some ==> r
                == Ok::<Assignment, ConfigError>(Assignment::AlreadyBound),
            slot < NUM_ENC && old(self)@.wired is None && old(self)@.slots[slot as int] is None ==> {
                if compatible(worker) {
                    &&& r == Ok::<Assignment, ConfigError>(Assignment::Bound)
                    &&& final(self)@ == (HypeModel {
                        slots: old(self)@.slots.update(slot as int, Some(worker)),
                        wired: None,
                    })
                } else {
                    r == Err::<Assignment, ConfigError>(ConfigError::NotAVideoEncoder)
                }
            },
            r != Ok::<Assignment, ConfigError>(Assignment::Bound) ==> final(self)@ == old(self)@,
    {
        if slot >= NUM_ENC {
            return Err(ConfigError::NoSuchSlot);
        }
        if self.wired.is_some() {
            return Err(ConfigError::AlreadyWired);
        }
        if self.slots[slot].is_some() {
            return Ok(Assignment::AlreadyBound);
        }
        if !worker.is_video_encoder && !same_text(&worker.factory_name, PASS_THROUGH) {
            return Err(ConfigError::NotAVideoEncoder);
        }
        self.slots.set(slot, Some(worker));
        Ok(Assignment::Bound)
    }

    /// Whether slot `slot` has a worker.
    pub fn has_encoder(&self, slot: usize) -> (r: bool)
        requires
            self.wf(),
        ensures
            r == (slot < NUM_ENC && self@.slots[slot as int] is Some),
    {
        slot < NUM_ENC && self.slots[slot].is_some()
    }

    /// Wires the pipeline: returns the occupied slots in ascending order,
    /// each of which is to be connected between the dispatcher and the
    /// reassembler. A pipeline already wired is not wired again: the result
    /// is then empty.
    pub fn create_pipeline(&mut self) -> (r: Vec<usize>)
        requires
            old(self).wf(),
        ensures
            final(self).wf(),
            final(self)@.slots == old(self)@.slots,
            old(self)@.wired is Some ==> r@.len() == 0 && final(self)@ == old(self)@,
            old(self)@.wired is None ==> final(self)@.wired == Some(r@),
            old(self)@.wired is None ==> wired_exactly(r@, old(self)@.slots),
    {
        if self.wired.is_some() {
            return Vec::new();
        }
        let mut linked: Vec<usize> = Vec::new();
        let mut s: usize = 0;
        while s < NUM_ENC
            invariant
                s <= NUM_ENC,
                self.wf(),
                self.wired is None,
                self@.slots == old(self)@.slots,
                forall|i: int, j: int| 0 <= i < j < linked@.len() ==> linked@[i] < linked@[j],
                forall|i: int| 0 <= i < linked@.len() ==> linked@[i] < s,
                forall|t: usize| (linked@.contains(t) <==> t < s && self@.slots[t as int] is Some),
            decreases NUM_ENC - s,
        {
            let ghost before = linked@;
            if self.slots[s].is_some() {
                linked.push(s);
            }
            proof {
                assert forall|t: usize| (linked@.contains(t) <==> t < s + 1 && self@.slots[t as int] is Some) by {
                    if t < s && self@.slots[t as int] is Some {
                        assert(before.contains(t));
                        let k = choose|k: int| 0 <= k < before.len() && before[k] == t;
                        assert(linked@[k] == t);
                    }
                    if t == s && self@.slots[t as int] is Some {
                        assert(linked@[linked@.len() - 1] == t);
                    }
                    if linked@.contains(t) {
                        let k = choose|k: int| 0 <= k < linked@.len() && linked@[k] == t;
                        if k < before.len() {
                            assert(before[k] == t);
                            assert(before.contains(t));
                        }
                    }
                }
            }
            s = s + 1;
        }
        let r = linked.clone();
        self.wired = Some(linked);
        r
    }

    /// The number of children: the four fixed ones, and the wired workers.
    pub fn children_count(&self) -> (r: u32)
        requires
            self.wf(),
        ensures
            r == 4 + match self@.wired {
                Some(w) => w.len(),
                None => 0,
            },
    {
        match &self.wired {
            Some(w) => {
                proof {
                    assert(self@.wired == Some(w@));
                    assert forall|i: int| 0 <= i < w@.len() implies w@[i] < NUM_ENC by {
                        assert(w@.contains(w@[i]));
                    }
                    lemma_wired_len(w@);
                }
                4 + w.len() as u32
            },
            None => 4,
        }
    }

    /// The child at `index`: the segmenter, dispatcher, reassembler and
    /// capability filter at 0 to 3; above them, the worker of the slot with
    /// that number, where that slot is occupied.
    pub fn child_by_index(&self, index: u32) -> (r: Option<Child>)
        requires
            self.wf(),
        ensures
            index == 0 ==> r == Some(Child::SceneDetector),
            index == 1 ==> r == Some(Child::OutputSelector),
            index == 2 ==> r == Some(Child::SceneCollector),
            index == 3 ==> r == Some(Child::CapsFilter),
            index >= 4 ==> r == if index < NUM_ENC && self@.slots[index as int] is Some {
                Some(Child::Encoder(index as usize))
            } else {
                None::<Child>
            },
    {
        match index {
            0 => Some(Child::SceneDetector),
            1 => Some(Child::OutputSelector),
            2 => Some(Child::SceneCollector),
            3 => Some(Child::CapsFilter),
            i => {
                if (i as usize) < NUM_ENC && self.slots[i as usize].is_some() {
                    Some(Child::Encoder(i as usize))
                } else {
                    None
                }
            },
        }
    }
}

/// A wired stage holds only compatible workers: an incompatible one was
/// refused when it was offered, before the pipeline was wired.
pub proof fn lemma_wired_workers_compatible(h: &Hype)
    requires
        h.wf(),
        h@.wired is Some,
    ensures
        forall|i: int|
            0 <= i < h@.wired->Some_0.len() ==> {
                let s = #[trigger] h@.wired->Some_0[i];
                &&& s < NUM_ENC
                &&& h@.slots[s as int] is Some
                &&& compatible(h@.slots[s as int]->Some_0)
            },
{
    let w = h@.wired->Some_0;
    assert forall|i: int| 0 <= i < w.len() implies {
        let s = #[trigger] w[i];
        &&& s < NUM_ENC
        &&& h@.slots[s as int] is Some
        &&& compatible(h@.slots[s as int]->Some_0)
    } by {
        assert(w.contains(w[i]));
    }
}

/// A strictly ascending sequence of slot numbers has at most `NUM_ENC`
/// entries.
proof fn lemma_wired_len(w: Seq<usize>)
    requires
        forall|i: int, j: int| 0 <= i < j < w.len() ==> w[i] < w[j],
        forall|i: int| 0 <= i < w.len() ==> w[i] < NUM_ENC,
    ensures
        w.len() <= NUM_ENC,
{
    if w.len() > NUM_ENC {
        assert forall|i: int| 0 <= i < w.len() implies w[i] >= i by {
            lemma_ascending_at_least(w, i);
        }
        assert(w[w.len() - 1] >= w.len() - 1);
    }
}

proof fn lemma_ascending_at_least(w: Seq<usize>, i: int)
    requires
        forall|a: int, b: int| 0 <= a < b < w.len() ==> w[a] < w[b],
        0 <= i < w.len(),
    ensures
        w[i] >= i,
    decreases i,
{
    if i > 0 {
        lemma_ascending_at_least(w, i - 1);
    }
}

} // verus!
