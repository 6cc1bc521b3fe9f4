use vstd::prelude::*;

use crate::boundary::{boundary_of, HostEvent, SceneNewHypeEvent};

verus! {

/// Why the collector refused an operation on one of its channels.
#[derive(Debug, Clone, Copy, PartialEq, Eq, Structural)]
pub enum CollectError {
    /// No channel with this identity was allocated.
    UnknownChannel,
    /// The channel has already reached end-of-stream.
    ChannelEnded,
    /// Data arrived on a channel on which no scene is open.
    NoOpenScene,
    /// The scene was already emitted downstream.
    SceneAlreadySent,
}

/// What the host does with an event once the collector has seen it.
#[derive(Debug, Clone, Copy, PartialEq, Eq, Structural)]
pub enum EventVerdict {
    /// The collector consumed the event.
    Handled,
    /// The event goes on, unchanged, to the collector's output.
    PushDownstream,
    /// The host's default handling applies (for end-of-stream: it is passed on).
    Default,
}

/// The result of handling an event: the scenes it let out, in index order,
/// and what becomes of the event itself.
pub struct EventOutcome<B> {
    pub emitted: Vec<Vec<B>>,
    pub verdict: EventVerdict,
}

/// One arrival on an input channel, as the contracts see it: a buffer, a
/// scene boundary, or end-of-stream.
pub enum Arrival<B> {
    Data(nat, B),
    Boundary(nat, u32),
    End(nat),
}

/// The arrival that event `ev` on channel `ch` is, if it is one.
pub open spec fn arrival_of<B>(ch: nat, ev: HostEvent) -> Option<Arrival<B>> {
    match boundary_of(ev) {
        Some(b) => Some(Arrival::Boundary(ch, b.gop_index)),
        None => match ev {
            HostEvent::Eos => Some(Arrival::End(ch)),
            _ => None,
        },
    }
}

impl<B> CollectorModel<B> {
    /// The collector after arrival `a`; a refused arrival changes nothing.
    pub open spec fn step(self, a: Arrival<B>) -> Self {
        match a {
            Arrival::Data(ch, b) => if self.push_refusal(ch) is Some {
                self
            } else {
                self.after_push(ch, b).flushed()
            },
            Arrival::Boundary(ch, k) => if self.boundary_refusal(ch, k) is Some {
                self
            } else {
                self.after_boundary(ch, k).flushed()
            },
            Arrival::End(ch) => if ch >= self.channels() {
                self
            } else {
                self.end_of_stream(ch)
            },
        }
    }

    /// Arrival `a` passes end-of-stream on.
    pub open spec fn step_forwards(self, a: Arrival<B>) -> bool {
        match a {
            Arrival::End(ch) => ch < self.channels() && self.end_of_stream_forwarded(ch),
            _ => false,
        }
    }
}

/// The collector after the arrivals `s`, in order.
pub open spec fn run<B>(m: CollectorModel<B>, s: Seq<Arrival<B>>) -> CollectorModel<B>
    decreases s.len(),
{
    if s.len() == 0 {
        m
    } else {
        run(m, s.drop_last()).step(s.last())
    }
}

/// How many of the arrivals `s` pass end-of-stream on.
pub open spec fn forwards<B>(m: CollectorModel<B>, s: Seq<Arrival<B>>) -> nat
    decreases s.len(),
{
    if s.len() == 0 {
        0
    } else {
        forwards(m, s.drop_last()) + if run(m, s.drop_last()).step_forwards(s.last()) {
            1nat
        } else {
            0nat
        }
    }
}

proof fn lemma_step_frame<B>(m: CollectorModel<B>, a: Arrival<B>)
    requires
        m.cursors.len() == m.ended.len(),
    ensures
        m.step(a).cursors.len() == m.cursors.len(),
        m.step(a).ended.len() == m.ended.len(),
        forall|c: int| 0 <= c < m.ended.len() && m.ended[c] ==> #[trigger] m.step(a).ended[c],
        a matches Arrival::End(c) ==> (c < m.channels() ==> m.step(a).ended[c as int]),
        m.eos_sent ==> m.step(a).eos_sent,
        m.step_forwards(a) <==> (!m.eos_sent && m.step(a).eos_sent),
        m.step(a).all_ended() ==> m.step(a).eos_sent || m.all_ended(),
{
    if let Arrival::End(ch) = a {
        if ch < m.channels() {
            let e = m.after_end(ch).flushed();
            assert forall|c: int| 0 <= c < m.ended.len() && m.ended[c] implies #[trigger] m.step(a).ended[c] by {
                assert(e.ended[c]);
            }
        }
    }
    if m.step(a).all_ended() && !m.step(a).eos_sent {
        assert forall|c: int| 0 <= c < m.ended.len() implies #[trigger] m.ended[c] by {
            assert(m.step(a).ended[c]);
        }
    }
}

/// Over any run of arrivals on a collector whose channels have not all
/// ended, end-of-stream is passed on at most once, and it has been passed on
/// exactly when every channel has ended; so a run in which each channel ends
/// passes it on exactly once.
pub proof fn lemma_run_end_of_stream_once<B>(m: CollectorModel<B>, s: Seq<Arrival<B>>)
    requires
        m.cursors.len() == m.ended.len(),
        !m.eos_sent,
        !m.all_ended(),
    ensures
        run(m, s).channels() == m.channels(),
        forwards(m, s) == if run(m, s).eos_sent {
            1nat
        } else {
            0nat
        },
        run(m, s).all_ended() ==> run(m, s).eos_sent,
        (forall|c: nat| c < m.channels() ==> s.contains(Arrival::End(c))) ==> forwards(m, s) == 1,
    decreases s.len(),
{
    if s.len() > 0 {
        let p = s.drop_last();
        lemma_run_end_of_stream_once(m, p);
        lemma_run_frame(m, p);
        lemma_step_frame(run(m, p), s.last());
    }
    if forall|c: nat| c < m.channels() ==> s.contains(Arrival::End(c)) {
        lemma_run_frame(m, s);
        assert forall|c: int| 0 <= c < run(m, s).ended.len() implies #[trigger] run(m, s).ended[c] by {
            assert(s.contains(Arrival::End(c as nat)));
            lemma_run_ends(m, s, c as nat);
        }
    }
}

proof fn lemma_run_frame<B>(m: CollectorModel<B>, s: Seq<Arrival<B>>)
    requires
        m.cursors.len() == m.ended.len(),
    ensures
        run(m, s).cursors.len() == m.cursors.len(),
        run(m, s).ended.len() == m.ended.len(),
    decreases s.len(),
{
    if s.len() > 0 {
        lemma_run_frame(m, s.drop_last());
        lemma_step_frame(run(m, s.drop_last()), s.last());
    }
}

/// A channel that ended somewhere in a run has ended at its close.
proof fn lemma_run_ends<B>(m: CollectorModel<B>, s: Seq<Arrival<B>>, c: nat)
    requires
        m.cursors.len() == m.ended.len(),
        c < m.channels(),
        s.contains(Arrival::End(c)),
    ensures
        run(m, s).ended[c as int],
    decreases s.len(),
{
    let p = s.drop_last();
    lemma_run_frame(m, p);
    lemma_step_frame(run(m, p), s.last());
    if s.last() != Arrival::<B>::End(c) {
        let w = choose|w: int| 0 <= w < s.len() && s[w] == Arrival::<B>::End(c);
        assert(p[w] == s[w]);
        lemma_run_ends(m, p, c);
    }
}

/// A scene record as the contracts see it: its index, the buffers gathered
/// for it in arrival order, and whether it is complete.
pub struct SceneState<B> {
    pub index: u32,
    pub buffers: Seq<B>,
    pub completed: bool,
}

/// The collector as the contracts see it.
pub struct CollectorModel<B> {
    /// For each input channel, the scene open on it, if any.
    pub cursors: Seq<Option<u32>>,
    /// For each input channel, whether it has reached end-of-stream.
    pub ended: Seq<bool>,
    /// The scene records not yet emitted, in ascending index order.
    pub scenes: Seq<SceneState<B>>,
    /// The smallest scene index not yet emitted.
    pub next: nat,
    /// Whether end-of-stream has been passed downstream.
    pub eos_sent: bool,
    /// The indices of the scenes emitted so far, in emission order.
    pub sent: Seq<u32>,
    /// For each scene ever opened, every buffer it received, in arrival order.
    pub received: Map<u32, Seq<B>>,
    /// The buffer lists emitted so far, in emission order.
    pub emitted: Seq<Seq<B>>,
}

pub open spec fn fresh_scene<B>(index: u32) -> SceneState<B> {
    SceneState { index, buffers: Seq::empty(), completed: false }
}

/// Scene indices strictly ascend along the sequence.
pub open spec fn ascending<B>(s: Seq<SceneState<B>>) -> bool {
    forall|i: int, j: int| 0 <= i < j < s.len() ==> s[i].index < s[j].index
}

pub open spec fn has_scene<B>(s: Seq<SceneState<B>>, k: u32) -> bool {
    exists|i: int| 0 <= i < s.len() && s[i].index == k
}

/// The records with scene `k` marked complete.
pub open spec fn complete<B>(s: Seq<SceneState<B>>, k: u32) -> Seq<SceneState<B>> {
    s.map_values(
        |r: SceneState<B>|
            if r.index == k {
                SceneState { index: r.index, buffers: r.buffers, completed: true }
            } else {
                r
            },
    )
}

/// The records with buffer `b` appended to scene `k`.
pub open spec fn append_to<B>(s: Seq<SceneState<B>>, k: u32, b: B) -> Seq<SceneState<B>> {
    s.map_values(
        |r: SceneState<B>|
            if r.index == k {
                SceneState { index: r.index, buffers: r.buffers.push(b), completed: r.completed }
            } else {
                r
            },
    )
}

/// The records with `r` placed before the first record of a larger index.
pub open spec fn insert_sorted<B>(s: Seq<SceneState<B>>, r: SceneState<B>) -> Seq<SceneState<B>>
    decreases s.len(),
{
    if s.len() == 0 {
        seq![r]
    } else if s[0].index > r.index {
        seq![r] + s
    } else {
        seq![s[0]] + insert_sorted(s.drop_first(), r)
    }
}

/// The records with scene `k` present: unchanged where it already was,
/// else with a fresh record in its place in the order.
pub open spec fn open_scene<B>(s: Seq<SceneState<B>>, k: u32) -> Seq<SceneState<B>> {
    if has_scene(s, k) {
        s
    } else {
        insert_sorted(s, fresh_scene(k))
    }
}

/// How many records at the front of `s` are complete and carry the indices
/// `next`, `next + 1`, ... without a gap: the scenes that can be emitted.
pub open spec fn ready_len<B>(s: Seq<SceneState<B>>, next: int) -> nat
    decreases s.len(),
{
    if s.len() > 0 && s[0].index == next && s[0].completed {
        1 + ready_len(s.drop_first(), next + 1)
    } else {
        0
    }
}

pub open spec fn indices<B>(s: Seq<SceneState<B>>) -> Seq<u32> {
    s.map_values(|r: SceneState<B>| r.index)
}

/// The buffers of each record, in record order.
pub open spec fn buffers_of<B>(s: Seq<SceneState<B>>) -> Seq<Seq<B>> {
    s.map_values(|r: SceneState<B>| r.buffers)
}

/// What a list of emitted buffer lists holds.
pub open spec fn lists<B>(v: Seq<Vec<B>>) -> Seq<Seq<B>> {
    v.map_values(|l: Vec<B>| l@)
}

impl<B> CollectorModel<B> {
    pub open spec fn inv(self) -> bool {
        &&& self.cursors.len() == self.ended.len()
        &&& forall|c: int| 0 <= c < self.ended.len() && #[trigger] self.ended[c] ==> self.cursors[c] is None
        &&& ascending(self.scenes)
        &&& forall|i: int| 0 <= i < self.scenes.len() ==> #[trigger] self.scenes[i].index >= self.next
        &&& self.next <= u32::MAX + 1
        &&& forall|i: int, j: int| 0 <= i < j < self.sent.len() ==> self.sent[i] < self.sent[j]
        &&& forall|i: int| 0 <= i < self.sent.len() ==> #[trigger] self.sent[i] < self.next
        &&& forall|i: int|
            0 <= i < self.scenes.len() ==> self.received.contains_key(#[trigger] self.scenes[i].index)
                && self.received[self.scenes[i].index] == self.scenes[i].buffers
        &&& self.emitted.len() == self.sent.len()
        &&& forall|i: int|
            0 <= i < self.sent.len() ==> self.received.contains_key(#[trigger] self.sent[i])
                && self.emitted[i] == self.received[self.sent[i]]
        &&& forall|k: u32| #[trigger]
            self.received.contains_key(k) ==> k < self.next || has_scene(self.scenes, k)
        &&& forall|k: u32| #[trigger]
            self.received.contains_key(k) ==> self.sent.contains(k) || has_scene(self.scenes, k)
        &&& forall|i: int|
            0 <= i < self.scenes.len() && !#[trigger] self.scenes[i].completed ==> self.is_open(
                self.scenes[i].index,
            )
    }

    /// Scene `k` is open on some channel.
    pub open spec fn is_open(self, k: u32) -> bool {
        exists|c: int| 0 <= c < self.cursors.len() && self.cursors[c] == Some(k)
    }

    pub open spec fn channels(self) -> nat {
        self.cursors.len()
    }

    /// Every channel has reached end-of-stream.
    pub open spec fn all_ended(self) -> bool {
        forall|c: int| 0 <= c < self.ended.len() ==> #[trigger] self.ended[c]
    }

    /// Why a buffer on channel `ch` would be refused, if it would.
    pub open spec fn push_refusal(self, ch: nat) -> Option<CollectError> {
        if ch >= self.channels() {
            Some(CollectError::UnknownChannel)
        } else if self.ended[ch as int] {
            Some(CollectError::ChannelEnded)
        } else {
            match self.cursors[ch as int] {
                None => Some(CollectError::NoOpenScene),
                Some(k) => if has_scene(self.scenes, k) {
                    None
                } else {
                    Some(CollectError::SceneAlreadySent)
                },
            }
        }
    }

    /// Why a boundary for scene `k` on channel `ch` would be refused, if it
    /// would.
    pub open spec fn boundary_refusal(self, ch: nat, k: u32) -> Option<CollectError> {
        if ch >= self.channels() {
            Some(CollectError::UnknownChannel)
        } else if self.ended[ch as int] {
            Some(CollectError::ChannelEnded)
        } else if k < self.next {
            Some(CollectError::SceneAlreadySent)
        } else {
            None
        }
    }

    /// The records after channel `ch` moves from its open scene to scene `k`:
    /// the scene it leaves is complete, scene `k` is open.
    pub open spec fn scenes_after_boundary(self, ch: nat, k: u32) -> Seq<SceneState<B>> {
        let left = match self.cursors[ch as int] {
            Some(p) => if p != k {
                complete(self.scenes, p)
            } else {
                self.scenes
            },
            None => self.scenes,
        };
        open_scene(left, k)
    }

    /// The records after channel `ch` ends: the scene it leaves is complete.
    pub open spec fn scenes_after_end(self, ch: nat) -> Seq<SceneState<B>> {
        match self.cursors[ch as int] {
            Some(p) => complete(self.scenes, p),
            None => self.scenes,
        }
    }

    /// The collector after a buffer `b` is appended on channel `ch`.
    pub open spec fn after_push(self, ch: nat, b: B) -> Self {
        let k = self.cursors[ch as int]->Some_0;
        CollectorModel {
            scenes: append_to(self.scenes, k, b),
            received: self.received.insert(k, self.received[k].push(b)),
            ..self
        }
    }

    /// The collector after channel `ch` announces scene `k`.
    pub open spec fn after_boundary(self, ch: nat, k: u32) -> Self {
        CollectorModel {
            cursors: self.cursors.update(ch as int, Some(k)),
            scenes: self.scenes_after_boundary(ch, k),
            received: if has_scene(self.scenes, k) {
                self.received
            } else {
                self.received.insert(k, Seq::empty())
            },
            ..self
        }
    }

    /// The collector after channel `ch` reaches end-of-stream.
    pub open spec fn after_end(self, ch: nat) -> Self {
        CollectorModel {
            cursors: self.cursors.update(ch as int, None),
            ended: self.ended.update(ch as int, true),
            scenes: self.scenes_after_end(ch),
            ..self
        }
    }

    /// The number of scenes that a flush emits.
    pub open spec fn ready(self) -> nat {
        ready_len(self.scenes, self.next as int)
    }

    /// The collector after a flush: the ready scenes are gone, and the next
    /// scene to send follows them.
    pub open spec fn flushed(self) -> Self {
        CollectorModel {
            scenes: self.scenes.skip(self.ready() as int),
            next: self.next + self.ready(),
            sent: self.sent + indices(self.scenes.take(self.ready() as int)),
            emitted: self.emitted + buffers_of(self.scenes.take(self.ready() as int)),
            ..self
        }
    }

    /// The buffer lists that a flush emits, one per scene, in index order.
    pub open spec fn flushed_lists(self) -> Seq<Seq<B>> {
        buffers_of(self.scenes.take(self.ready() as int))
    }

    /// The collector after every remaining record is emitted in index order.
    pub open spec fn drained(self) -> Self {
        CollectorModel {
            scenes: Seq::empty(),
            next: if self.scenes.len() > 0 {
                (self.scenes.last().index + 1) as nat
            } else {
                self.next
            },
            sent: self.sent + indices(self.scenes),
            emitted: self.emitted + buffers_of(self.scenes),
            ..self
        }
    }

    /// The collector after end-of-stream on channel `ch`: the channel's scene
    /// is complete and the ready scenes are flushed; once every channel has
    /// ended, what remains is drained and end-of-stream is passed on.
    pub open spec fn end_of_stream(self, ch: nat) -> Self {
        let m = self.after_end(ch).flushed();
        if m.all_ended() {
            CollectorModel { eos_sent: true, ..m.drained() }
        } else {
            m
        }
    }

    /// The buffer lists emitted on end-of-stream on channel `ch`.
    pub open spec fn end_of_stream_lists(self, ch: nat) -> Seq<Seq<B>> {
        let m = self.after_end(ch).flushed();
        if m.all_ended() {
            self.after_end(ch).flushed_lists() + buffers_of(m.scenes)
        } else {
            self.after_end(ch).flushed_lists()
        }
    }

    /// End-of-stream on channel `ch` is the one that passes end-of-stream on.
    pub open spec fn end_of_stream_forwarded(self, ch: nat) -> bool {
        self.after_end(ch).flushed().all_ended() && !self.eos_sent
    }
}

struct SceneBuffers<B> {
    index: u32,
    buffers: Vec<B>,
    scene_completed: bool,
}

impl<B> SceneBuffers<B> {
    closed spec fn state(&self) -> SceneState<B> {
        SceneState { index: self.index, buffers: self.buffers@, completed: self.scene_completed }
    }

    fn new(index: u32) -> (r: Self)
        ensures
            r.state() == fresh_scene::<B>(index),
    {
        SceneBuffers { index, buffers: Vec::new(), scene_completed: false }
    }
}

/// The reassembler: gathers the buffers that arrive on its input channels
/// into scenes, and hands scenes downstream strictly in ascending index
/// order, each once.
pub struct SceneCollector<B> {
    pad_scenes: Vec<Option<u32>>,
    pad_ended: Vec<bool>,
    scene_buffers: Vec<SceneBuffers<B>>,
    next_scene_to_send: u64,
    eos_sent: bool,
    sent: Ghost<Seq<u32>>,
    received: Ghost<Map<u32, Seq<B>>>,
    emitted: Ghost<Seq<Seq<B>>>,
}

impl<B> View for SceneCollector<B> {
    type V = CollectorModel<B>;

    closed spec fn view(&self) -> CollectorModel<B> {
        CollectorModel {
            cursors: self.pad_scenes@,
            ended: self.pad_ended@,
            scenes: self.scene_buffers@.map_values(|r: SceneBuffers<B>| r.state()),
            next: self.next_scene_to_send as nat,
            eos_sent: self.eos_sent,
            sent: self.sent@,
            received: self.received@,
            emitted: self.emitted@,
        }
    }
}

proof fn lemma_complete_at<B>(s: Seq<SceneState<B>>, i: int, k: u32)
    requires
        ascending(s),
        0 <= i < s.len(),
        s[i].index == k,
    ensures
        complete(s, k) =~= s.update(
            i,
            SceneState { index: s[i].index, buffers: s[i].buffers, completed: true },
        ),
{
}

proof fn lemma_complete_absent<B>(s: Seq<SceneState<B>>, k: u32)
    requires
        !has_scene(s, k),
    ensures
        complete(s, k) =~= s,
{
    assert forall|j: int| 0 <= j < s.len() implies s[j].index != k by {
        if s[j].index == k {
            assert(has_scene(s, k));
        }
    }
}

proof fn lemma_complete_keeps_indices<B>(s: Seq<SceneState<B>>, k: u32)
    ensures
        forall|p: u32| has_scene(complete(s, p), k) == has_scene(s, k),
{
    assert forall|p: u32| has_scene(complete(s, p), k) == has_scene(s, k) by {
        if has_scene(s, k) {
            let w = choose|w: int| 0 <= w < s.len() && s[w].index == k;
            assert(complete(s, p)[w].index == k);
        }
        if has_scene(complete(s, p), k) {
            let w = choose|w: int| 0 <= w < complete(s, p).len() && complete(s, p)[w].index == k;
            assert(s[w].index == k);
        }
    }
}

proof fn lemma_append_at<B>(s: Seq<SceneState<B>>, i: int, k: u32, b: B)
    requires
        ascending(s),
        0 <= i < s.len(),
        s[i].index == k,
    ensures
        append_to(s, k, b) =~= s.update(
            i,
            SceneState { index: s[i].index, buffers: s[i].buffers.push(b), completed: s[i].completed },
        ),
{
}

proof fn lemma_insert_sorted_at<B>(s: Seq<SceneState<B>>, i: int, r: SceneState<B>)
    requires
        0 <= i <= s.len(),
        forall|j: int| 0 <= j < i ==> #[trigger] s[j].index < r.index,
        forall|j: int| i <= j < s.len() ==> #[trigger] s[j].index > r.index,
    ensures
        insert_sorted(s, r) =~= s.insert(i, r),
    decreases i,
{
    if s.len() == 0 {
    } else if i == 0 {
        assert(s[0].index > r.index);
    } else {
        let t = s.drop_first();
        assert forall|j: int| 0 <= j < i - 1 implies #[trigger] t[j].index < r.index by {
            assert(t[j] == s[j + 1]);
        }
        assert forall|j: int| i - 1 <= j < t.len() implies #[trigger] t[j].index > r.index by {
            assert(t[j] == s[j + 1]);
        }
        lemma_insert_sorted_at(t, i - 1, r);
    }
}

/// Replacing the records by records with the same indices, in the same
/// order, together with what each scene received, keeps the invariant.
proof fn lemma_same_indices<B>(m: CollectorModel<B>, s: Seq<SceneState<B>>, received: Map<u32, Seq<B>>)
    requires
        m.inv(),
        s.len() == m.scenes.len(),
        forall|i: int| 0 <= i < s.len() ==> #[trigger] s[i].index == m.scenes[i].index,
        forall|i: int|
            0 <= i < s.len() ==> received.contains_key(#[trigger] s[i].index) && received[s[i].index]
                == s[i].buffers,
        received.dom() == m.received.dom(),
        forall|i: int| 0 <= i < m.sent.len() ==> received[#[trigger] m.sent[i]] == m.received[m.sent[i]],
        forall|i: int| 0 <= i < s.len() && !#[trigger] s[i].completed ==> !m.scenes[i].completed,
    ensures
        (CollectorModel { scenes: s, received, ..m }).inv(),
{
    assert forall|i: int| 0 <= i < s.len() && !#[trigger] s[i].completed implies m.is_open(s[i].index) by {
        assert(!m.scenes[i].completed);
    }
    assert forall|i: int, j: int| 0 <= i < j < s.len() implies s[i].index < s[j].index by {
        assert(s[i].index == m.scenes[i].index);
        assert(s[j].index == m.scenes[j].index);
    }
    assert forall|i: int| 0 <= i < s.len() implies #[trigger] s[i].index >= m.next by {
        assert(s[i].index == m.scenes[i].index);
    }
    assert forall|k: u32| #[trigger] received.contains_key(k) implies (k < m.next || has_scene(s, k))
        && (m.sent.contains(k) || has_scene(s, k)) by {
        assert(m.received.contains_key(k));
        if has_scene(m.scenes, k) {
            let w = choose|w: int| 0 <= w < m.scenes.len() && m.scenes[w].index == k;
            assert(s[w].index == k);
        }
    }
    assert forall|i: int| 0 <= i < m.sent.len() implies received.contains_key(#[trigger] m.sent[i])
        && m.emitted[i] == received[m.sent[i]] by {
        assert(m.received.contains_key(m.sent[i]));
    }
}

/// Opening a fresh record for a scene that is open on a channel and has
/// none yet, at its place in the order, keeps the invariant.
proof fn lemma_insert_fresh<B>(m: CollectorModel<B>, i: int, k: u32)
    requires
        m.inv(),
        k >= m.next,
        m.is_open(k),
        !m.received.contains_key(k),
        0 <= i <= m.scenes.len(),
        forall|j: int| 0 <= j < i ==> #[trigger] m.scenes[j].index < k,
        forall|j: int| i <= j < m.scenes.len() ==> #[trigger] m.scenes[j].index > k,
    ensures
        (CollectorModel {
            scenes: m.scenes.insert(i, fresh_scene(k)),
            received: m.received.insert(k, Seq::empty()),
            ..m
        }).inv(),
{
    let n = CollectorModel {
        scenes: m.scenes.insert(i, fresh_scene(k)),
        received: m.received.insert(k, Seq::empty()),
        ..m
    };
    assert forall|a: int, b: int| 0 <= a < b < n.scenes.len() implies n.scenes[a].index
        < n.scenes[b].index by {
        if a < i && b > i {
            assert(n.scenes[b] == m.scenes[b - 1]);
        } else if a > i {
            assert(n.scenes[a] == m.scenes[a - 1]);
            assert(n.scenes[b] == m.scenes[b - 1]);
        } else if b > i {
            assert(n.scenes[b] == m.scenes[b - 1]);
        }
    }
    assert forall|a: int| 0 <= a < n.scenes.len() implies #[trigger] n.scenes[a].index >= n.next
        && n.received.contains_key(n.scenes[a].index) && n.received[n.scenes[a].index]
        == n.scenes[a].buffers by {
        if a > i {
            assert(n.scenes[a] == m.scenes[a - 1]);
        } else if a < i {
            assert(n.scenes[a] == m.scenes[a]);
        }
    }
    assert forall|j: int| 0 <= j < n.sent.len() implies n.received.contains_key(#[trigger] n.sent[j])
        && n.emitted[j] == n.received[n.sent[j]] by {
        assert(m.sent[j] < m.next);
    }
    assert forall|q: u32| #[trigger] n.received.contains_key(q) implies (q < n.next || has_scene(
        n.scenes,
        q,
    )) && (n.sent.contains(q) || has_scene(n.scenes, q)) by {
        if q == k {
            assert(n.scenes[i].index == k);
        } else {
            assert(m.received.contains_key(q));
            if has_scene(m.scenes, q) {
                let w = choose|w: int| 0 <= w < m.scenes.len() && m.scenes[w].index == q;
                if w < i {
                    assert(n.scenes[w] == m.scenes[w]);
                } else {
                    assert(n.scenes[w + 1] == m.scenes[w]);
                }
            }
        }
    }
    assert forall|a: int| 0 <= a < n.scenes.len() && !#[trigger] n.scenes[a].completed implies n.is_open(
    n.scenes[a].index,
    ) by {
    if a > i {
        assert(n.scenes[a] == m.scenes[a - 1]);
    } else if a < i {
        assert(n.scenes[a] == m.scenes[a]);
    }
    }
}

/// Moving channel `ch` to `to` (and, with `end`, closing it) keeps the
/// invariant, provided the scene it leaves is complete.
proof fn lemma_move_cursor<B>(m: CollectorModel<B>, ch: int, to: Option<u32>, end: bool)
    requires
        m.inv(),
        0 <= ch < m.cursors.len(),
        end ==> to is None,
        !end ==> !m.ended[ch],
        forall|i: int|
            0 <= i < m.scenes.len() && !#[trigger] m.scenes[i].completed && m.cursors[ch] == Some(
                m.scenes[i].index,
            ) ==> to == Some(m.scenes[i].index),
    ensures
        (CollectorModel {
            cursors: m.cursors.update(ch, to),
            ended: if end {
                m.ended.update(ch, true)
            } else {
                m.ended
            },
            ..m
        }).inv(),
{
    let n = CollectorModel {
        cursors: m.cursors.update(ch, to),
        ended: if end {
            m.ended.update(ch, true)
        } else {
            m.ended
        },
        ..m
    };
    assert forall|c: int| 0 <= c < n.ended.len() && #[trigger] n.ended[c] implies n.cursors[c] is None by {
        if c != ch {
            assert(m.ended[c]);
        }
    }
    assert forall|i: int| 0 <= i < n.scenes.len() && !#[trigger] n.scenes[i].completed implies n.is_open(
        n.scenes[i].index,
    ) by {
        let c = choose|c: int| 0 <= c < m.cursors.len() && m.cursors[c] == Some(m.scenes[i].index);
        if c != ch {
            assert(n.cursors[c] == m.cursors[c]);
        } else {
            assert(n.cursors[ch] == to);
        }
    }
}

/// The scenes that complete and stand without a gap at the front of the
/// records are exactly those that carry the indices `next`, `next + 1`, ...
proof fn lemma_ready_front<B>(s: Seq<SceneState<B>>, next: int)
    ensures
        ready_len(s, next) <= s.len(),
        forall|i: int|
            0 <= i < ready_len(s, next) ==> #[trigger] s[i].index == next + i && s[i].completed,
    decreases s.len(),
{
    if s.len() > 0 && s[0].index == next && s[0].completed {
        let t = s.drop_first();
        lemma_ready_front(t, next + 1);
        assert forall|i: int| 0 <= i < ready_len(s, next) implies #[trigger] s[i].index == next + i
            && s[i].completed by {
            if i > 0 {
                assert(s[i] == t[i - 1]);
            }
        }
    }
}

/// A flush never skips ahead: the scenes it emits are complete and carry
/// exactly the indices `next`, `next + 1`, ... in that order, so no scene
/// leaves before every lower index that exists has left.
pub proof fn lemma_flush_in_order<B>(m: CollectorModel<B>)
    requires
        m.inv(),
    ensures
        forall|i: int| 0 <= i < m.ready() ==> #[trigger] m.scenes[i].completed,
        m.flushed().sent == m.sent + Seq::new(m.ready(), |i: int| (m.next + i) as u32),
        m.flushed().next == m.next + m.ready(),
{
    lemma_ready_front(m.scenes, m.next as int);
    assert(indices(m.scenes.take(m.ready() as int)) =~= Seq::new(m.ready(), |i: int| (m.next + i) as u32));
}

/// Whatever the order in which the channels deliver, scenes leave in
/// strictly ascending index order, each once, and each as one list that
/// holds exactly the buffers the scene received, in arrival order. Every
/// scene opened so far has either left or still waits in a record.
pub proof fn lemma_output_is_received_in_order<B>(c: &SceneCollector<B>)
    requires
        c.wf(),
    ensures
        forall|i: int, j: int| 0 <= i < j < c@.sent.len() ==> c@.sent[i] < c@.sent[j],
        c@.emitted.len() == c@.sent.len(),
        forall|i: int| 0 <= i < c@.sent.len() ==> #[trigger] c@.emitted[i] == c@.received[c@.sent[i]],
        forall|k: u32| #[trigger]
            c@.received.contains_key(k) ==> c@.sent.contains(k) || has_scene(c@.scenes, k),
        forall|k: u32| c@.sent.contains(k) ==> #[trigger] c@.received.contains_key(k),
{
    assert forall|k: u32| c@.sent.contains(k) implies #[trigger] c@.received.contains_key(k) by {
        let w = choose|w: int| 0 <= w < c@.sent.len() && c@.sent[w] == k;
    }
}

/// Once no record waits, the output holds every scene that was ever opened,
/// and nothing else: the scenes emitted are exactly the scenes received.
pub proof fn lemma_drained_output_complete<B>(m: CollectorModel<B>)
    requires
        m.inv(),
        m.scenes.len() == 0,
    ensures
        forall|k: u32| #[trigger] m.received.contains_key(k) <==> m.sent.contains(k),
{
    assert forall|k: u32| #[trigger] m.received.contains_key(k) <==> m.sent.contains(k) by {
        if m.sent.contains(k) {
            let w = choose|w: int| 0 <= w < m.sent.len() && m.sent[w] == k;
        }
    }
}

/// End-of-stream on the last open channel drains the collector: no scene
/// record remains, end-of-stream is marked passed on, and it is passed on
/// by this event exactly when it had not been before.
pub proof fn lemma_end_of_stream_drains<B>(m: CollectorModel<B>, ch: nat)
    requires
        m.inv(),
        ch < m.channels(),
        forall|c: int| 0 <= c < m.channels() && c != ch ==> #[trigger] m.ended[c],
    ensures
        m.end_of_stream(ch).scenes.len() == 0,
        m.end_of_stream(ch).eos_sent,
        m.end_of_stream_forwarded(ch) == !m.eos_sent,
{
    let e = m.after_end(ch).flushed();
    assert forall|c: int| 0 <= c < e.ended.len() implies #[trigger] e.ended[c] by {
        if c != ch {
            assert(m.ended[c]);
        }
    }
}

/// Once every channel has ended, every record that still waits is
/// complete: the final drain emits complete scenes only.
pub proof fn lemma_all_ended_all_complete<B>(m: CollectorModel<B>)
    requires
        m.inv(),
        m.all_ended(),
    ensures
        forall|i: int| 0 <= i < m.scenes.len() ==> #[trigger] m.scenes[i].completed,
{
    assert forall|i: int| 0 <= i < m.scenes.len() implies #[trigger] m.scenes[i].completed by {
        if !m.scenes[i].completed {
            let c = choose|c: int| 0 <= c < m.cursors.len() && m.cursors[c] == Some(m.scenes[i].index);
            assert(m.ended[c]);
        }
    }
}

/// Once end-of-stream has been passed on, no later end-of-stream passes it
/// on again.
pub proof fn lemma_end_of_stream_once<B>(m: CollectorModel<B>, ch: nat)
    requires
        m.eos_sent,
    ensures
        !m.end_of_stream_forwarded(ch),
        m.end_of_stream(ch).eos_sent,
{
}

impl<B> SceneCollector<B> {
    pub open spec fn wf(&self) -> bool {
        self@.inv()
    }

    /// A collector with no input channel, which will emit scene 0 first.
    pub fn new() -> (r: Self)
        ensures
            r.wf(),
            r@.cursors == Seq::<Option<u32>>::empty(),
            r@.ended == Seq::<bool>::empty(),
            r@.scenes == Seq::<SceneState<B>>::empty(),
            r@.next == 0,
            !r@.eos_sent,
            r@.sent == Seq::<u32>::empty(),
            r@.received == Map::<u32, Seq<B>>::empty(),
            r@.emitted == Seq::<Seq<B>>::empty(),
    {
        let r = SceneCollector {
            pad_scenes: Vec::new(),
            pad_ended: Vec::new(),
            scene_buffers: Vec::new(),
            next_scene_to_send: 0,
            eos_sent: false,
            sent: Ghost(Seq::empty()),
            received: Ghost(Map::empty()),
            emitted: Ghost(Seq::empty()),
        };
        assert(r@.scenes =~= Seq::<SceneState<B>>::empty());
        r
    }

    /// Adds an input channel, with no scene open on it, and returns its
    /// identity.
    pub fn request_new_pad(&mut self) -> (r: usize)
        requires
            old(self).wf(),
        ensures
            final(self).wf(),
            r == old(self)@.channels(),
            final(self)@ == (CollectorModel {
                cursors: old(self)@.cursors.push(None),
                ended: old(self)@.ended.push(false),
                ..old(self)@
            }),
    {
        let ghost m = self@;
        let id = self.pad_scenes.len();
        self.pad_scenes.push(None);
        self.pad_ended.push(false);
        proof {
            assert forall|i: int| 0 <= i < m.scenes.len() && !#[trigger] m.scenes[i].completed implies self@.is_open(
                m.scenes[i].index,
            ) by {
                let c = choose|c: int| 0 <= c < m.cursors.len() && m.cursors[c] == Some(m.scenes[i].index);
                assert(self@.cursors[c] == m.cursors[c]);
            }
            assert forall|c: int| 0 <= c < self@.ended.len() && #[trigger] self@.ended[c] implies
                self@.cursors[c] is None by {
                if c < m.ended.len() {
                    assert(m.ended[c]);
                }
            }
        }
        id
    }


    /// The position of the first record whose index is not below `k`.
    fn locate(&self, k: u32) -> (r: usize)
        requires
            self.wf(),
        ensures
            r <= self@.scenes.len(),
            forall|j: int| 0 <= j < r ==> #[trigger] self@.scenes[j].index < k,
            forall|j: int| r <= j < self@.scenes.len() ==> #[trigger] self@.scenes[j].index >= k,
            has_scene(self@.scenes, k) <==> (r < self@.scenes.len() && self@.scenes[r as int].index == k),
    {
        let ghost s = self@.scenes;
        let mut i: usize = 0;
        while i < self.scene_buffers.len()
            invariant
                i <= s.len(),
                s == self@.scenes,
                self.wf(),
                forall|j: int| 0 <= j < i ==> #[trigger] s[j].index < k,
            ensures
                i <= s.len(),
                forall|j: int| 0 <= j < i ==> #[trigger] s[j].index < k,
                i < s.len() ==> s[i as int].index >= k,
            decreases s.len() - i,
        {
            assert(s[i as int] == self.scene_buffers@[i as int].state());
            if self.scene_buffers[i].index >= k {
                break;
            }
            i = i + 1;
        }
        proof {
            assert forall|j: int| i <= j < s.len() implies #[trigger] s[j].index >= k by {
                if j > i {
                    assert(s[i as int].index < s[j].index);
                }
            }
            if has_scene(s, k) {
                let w = choose|w: int| 0 <= w < s.len() && s[w].index == k;
                if w < i {
                } else if w > i {
                    assert(s[i as int].index < s[w].index);
                }
            }
        }
        i
    }

    /// Marks scene `k` complete, where it has a record.
    fn mark_completed(&mut self, k: u32)
        requires
            old(self).wf(),
        ensures
            final(self).wf(),
            final(self)@ == (CollectorModel { scenes: complete(old(self)@.scenes, k), ..old(self)@ }),
    {
        let i = self.locate(k);
        if i < self.scene_buffers.len() && self.scene_buffers[i].index == k {
            proof {
                assert(self@.scenes[i as int] == self.scene_buffers@[i as int].state());
                lemma_complete_at(self@.scenes, i as int, k);
            }
            let ghost before = self.scene_buffers@;
            let mut rec = self.scene_buffers.remove(i);
            rec.scene_completed = true;
            self.scene_buffers.insert(i, rec);
            proof {
                assert(self.scene_buffers@ =~= before.update(i as int, rec));
                assert(self@.scenes =~= complete(old(self)@.scenes, k));
                lemma_same_indices(old(self)@, self@.scenes, self@.received);
            }
        } else {
            proof {
                lemma_complete_absent(self@.scenes, k);
            }
        }
    }



    /// Appends `buffer` to the scene open on channel `ch`.
    pub fn push_buffer(&mut self, ch: usize, buffer: B) -> (r: Result<(), CollectError>)
        requires
            old(self).wf(),
        ensures
            final(self).wf(),
            r == (match old(self)@.push_refusal(ch as nat) {
                Some(e) => Err(e),
                None => Ok(()),
            }),
            r is Err ==> final(self)@ == old(self)@,
            r is Ok ==> final(self)@ == old(self)@.after_push(ch as nat, buffer),
    {
        if ch >= self.pad_scenes.len() {
            return Err(CollectError::UnknownChannel);
        }
        if self.pad_ended[ch] {
            return Err(CollectError::ChannelEnded);
        }
        let k = match self.pad_scenes[ch] {
            None => {
                return Err(CollectError::NoOpenScene);
            },
            Some(k) => k,
        };
        let i = self.locate(k);
        if i < self.scene_buffers.len() && self.scene_buffers[i].index == k {
            let ghost before = self.scene_buffers@;
            proof {
                assert(self@.scenes[i as int] == before[i as int].state());
                lemma_append_at(self@.scenes, i as int, k, buffer);
            }
            let ghost b = buffer;
            let mut rec = self.scene_buffers.remove(i);
            rec.buffers.push(buffer);
            self.scene_buffers.insert(i, rec);
            self.received = Ghost(self.received@.insert(k, self.received@[k].push(b)));
            proof {
                let m = old(self)@;
                assert(self.scene_buffers@ =~= before.update(i as int, rec));
                assert(self@.scenes =~= append_to(m.scenes, k, buffer));
                assert(m.received.contains_key(m.scenes[i as int].index));
                assert(self@.received.dom() =~= m.received.dom());
                assert forall|j: int| 0 <= j < m.sent.len() implies self@.received[#[trigger] m.sent[j]]
                    == m.received[m.sent[j]] by {
                    assert(m.sent[j] < m.next);
                }
                assert forall|j: int| 0 <= j < self@.scenes.len() implies self@.received.contains_key(
                    #[trigger] self@.scenes[j].index,
                ) && self@.received[self@.scenes[j].index] == self@.scenes[j].buffers by {
                    if j != i {
                        assert(self@.scenes[j] == m.scenes[j]);
                        assert(m.scenes[j].index != k);
                    }
                }
                lemma_same_indices(m, self@.scenes, self@.received);
            }
            Ok(())
        } else {
            Err(CollectError::SceneAlreadySent)
        }
    }

    /// Opens a record for scene `k` where there is none.
    fn open_record(&mut self, k: u32)
        requires
            old(self).wf(),
            k >= old(self)@.next,
            old(self)@.is_open(k),
        ensures
            final(self).wf(),
            final(self)@ == (CollectorModel {
                scenes: open_scene(old(self)@.scenes, k),
                received: if has_scene(old(self)@.scenes, k) {
                    old(self)@.received
                } else {
                    old(self)@.received.insert(k, Seq::empty())
                },
                ..old(self)@
            }),
    {
        let ghost m = self@;
        let i = self.locate(k);
        if i < self.scene_buffers.len() && self.scene_buffers[i].index == k {
            return;
        }
        proof {
            if i < m.scenes.len() {
                assert(m.scenes[i as int] == self.scene_buffers@[i as int].state());
            }
            lemma_insert_sorted_at(m.scenes, i as int, fresh_scene(k));
            assert(!m.received.contains_key(k));
            assert forall|j: int| i <= j < m.scenes.len() implies #[trigger] m.scenes[j].index > k by {
                if j > i {
                    assert(m.scenes[i as int].index < m.scenes[j].index);
                }
            }
        }
        let rec = SceneBuffers::new(k);
        self.scene_buffers.insert(i, rec);
        self.received = Ghost(self.received@.insert(k, Seq::empty()));
        proof {
            assert(self@.scenes =~= m.scenes.insert(i as int, fresh_scene(k)));
            lemma_insert_fresh(m, i as int, k);
        }
    }

    /// Channel `ch` announces the start of scene `k`: the scene it leaves is
    /// complete, and scene `k` is open on it, with its record kept where
    /// one exists.
    pub fn new_scene(&mut self, ch: usize, k: u32) -> (r: Result<(), CollectError>)
        requires
            old(self).wf(),
        ensures
            final(self).wf(),
            r == (match old(self)@.boundary_refusal(ch as nat, k) {
                Some(e) => Err(e),
                None => Ok(()),
            }),
            r is Err ==> final(self)@ == old(self)@,
            r is Ok ==> final(self)@ == old(self)@.after_boundary(ch as nat, k),
    {
        if ch >= self.pad_scenes.len() {
            return Err(CollectError::UnknownChannel);
        }
        if self.pad_ended[ch] {
            return Err(CollectError::ChannelEnded);
        }
        if (k as u64) < self.next_scene_to_send {
            return Err(CollectError::SceneAlreadySent);
        }
        if let Some(p) = self.pad_scenes[ch] {
            if p != k {
                self.mark_completed(p);
            }
        }
        proof {
            lemma_complete_keeps_indices(old(self)@.scenes, k);
            lemma_move_cursor(self@, ch as int, Some(k), false);
        }
        self.pad_scenes.set(ch, Some(k));
        proof {
            assert(self@.cursors[ch as int] == Some(k));
        }
        self.open_record(k);
        Ok(())
    }

    /// Channel `ch` reaches end-of-stream: the scene open on it is complete,
    /// and no scene is open on it any more.
    pub fn finish_scene(&mut self, ch: usize) -> (r: Result<(), CollectError>)
        requires
            old(self).wf(),
        ensures
            final(self).wf(),
            r is Err <==> ch >= old(self)@.channels(),
            r is Err ==> r == Err::<(), CollectError>(CollectError::UnknownChannel) && final(self)@
                == old(self)@,
            r is Ok ==> final(self)@ == old(self)@.after_end(ch as nat),
    {
        if ch >= self.pad_scenes.len() {
            return Err(CollectError::UnknownChannel);
        }
        if let Some(p) = self.pad_scenes[ch] {
            self.mark_completed(p);
        }
        proof {
            lemma_move_cursor(self@, ch as int, None, true);
        }
        self.pad_scenes.set(ch, None);
        self.pad_ended.set(ch, true);
        Ok(())
    }

    /// Whether the first record is complete and is the next one to emit.
    fn front_ready(&self) -> (r: bool)
        requires
            self.wf(),
        ensures
            r == (self@.scenes.len() > 0 && self@.scenes[0].index == self@.next
                && self@.scenes[0].completed),
    {
        if self.scene_buffers.len() == 0 {
            return false;
        }
        assert(self@.scenes[0] == self.scene_buffers@[0].state());
        self.scene_buffers[0].index as u64 == self.next_scene_to_send
            && self.scene_buffers[0].scene_completed
    }

    /// Emits the first record: its buffers go to `out`, and the next scene to
    /// send is the one after it.
    fn emit_front(&mut self, out: &mut Vec<Vec<B>>)
        requires
            old(self).wf(),
            old(self)@.scenes.len() > 0,
        ensures
            final(self).wf(),
            final(self)@ == (CollectorModel {
                scenes: old(self)@.scenes.drop_first(),
                next: (old(self)@.scenes[0].index + 1) as nat,
                sent: old(self)@.sent.push(old(self)@.scenes[0].index),
                emitted: old(self)@.emitted.push(old(self)@.scenes[0].buffers),
                ..old(self)@
            }),
            lists(final(out)@) == lists(old(out)@).push(old(self)@.scenes[0].buffers),
    {
        let ghost s0 = self@;
        let rec = self.scene_buffers.remove(0);
        assert(rec.state() == s0.scenes[0]);
        self.next_scene_to_send = rec.index as u64 + 1;
        self.sent = Ghost(self.sent@.push(rec.index));
        self.emitted = Ghost(self.emitted@.push(rec.buffers@));
        out.push(rec.buffers);
        proof {
            assert(self@.scenes =~= s0.scenes.drop_first());
            assert(lists(out@) =~= lists(old(out)@).push(s0.scenes[0].buffers));
            assert forall|i: int| 0 <= i < self@.scenes.len() implies #[trigger] self@.scenes[i].index
                >= self@.next by {
                assert(self@.scenes[i] == s0.scenes[i + 1]);
            }
            assert forall|i: int| 0 <= i < self@.sent.len() implies #[trigger] self@.sent[i]
                < self@.next by {
                if i < s0.sent.len() {
                    assert(self@.sent[i] == s0.sent[i]);
                }
            }
            assert forall|i: int| 0 <= i < self@.scenes.len() implies self@.received.contains_key(
                #[trigger] self@.scenes[i].index,
            ) && self@.received[self@.scenes[i].index] == self@.scenes[i].buffers by {
                assert(self@.scenes[i] == s0.scenes[i + 1]);
            }
            assert(s0.received.contains_key(s0.scenes[0].index));
            assert forall|i: int| 0 <= i < self@.sent.len() implies self@.received.contains_key(
                #[trigger] self@.sent[i],
            ) && self@.emitted[i] == self@.received[self@.sent[i]] by {
                if i < s0.sent.len() {
                    assert(self@.sent[i] == s0.sent[i]);
                }
            }
            assert forall|k: u32| #[trigger] self@.received.contains_key(k) implies (k < self@.next
                || has_scene(self@.scenes, k)) && (self@.sent.contains(k) || has_scene(self@.scenes, k)) by {
                if s0.sent.contains(k) {
                    let w = choose|w: int| 0 <= w < s0.sent.len() && s0.sent[w] == k;
                    assert(self@.sent[w] == k);
                }
                if k == s0.scenes[0].index {
                    assert(self@.sent[self@.sent.len() - 1] == k);
                } else if has_scene(s0.scenes, k) {
                    let w = choose|w: int| 0 <= w < s0.scenes.len() && s0.scenes[w].index == k;
                    assert(w != 0);
                    assert(self@.scenes[w - 1] == s0.scenes[w]);
                }
            }
        }
    }

    /// Emits, in index order, every complete scene that follows the last one
    /// emitted without a gap, and returns their buffer lists.
    pub fn pop_buffers(&mut self) -> (r: Vec<Vec<B>>)
        requires
            old(self).wf(),
        ensures
            final(self).wf(),
            lists(r@) == old(self)@.flushed_lists(),
            final(self)@ == old(self)@.flushed(),
    {
        let ghost s0 = self@;
        let ghost n = ready_len(s0.scenes, s0.next as int);
        proof {
            lemma_ready_front(s0.scenes, s0.next as int);
        }
        let mut out: Vec<Vec<B>> = Vec::new();
        assert(s0.scenes.skip(0) =~= s0.scenes);
        assert(s0.sent + indices(s0.scenes.take(0)) =~= s0.sent);
        assert(s0.emitted + buffers_of(s0.scenes.take(0)) =~= s0.emitted);
        assert(lists(out@) =~= buffers_of(s0.scenes.take(0)));
        while self.front_ready()
            invariant
                self.wf(),
                out@.len() <= n,
                n <= s0.scenes.len(),
                forall|i: int|
                    0 <= i < n ==> #[trigger] s0.scenes[i].index == s0.next + i && s0.scenes[i].completed,
                ready_len(self@.scenes, self@.next as int) == n - out@.len(),
                self@ == (CollectorModel {
                    scenes: s0.scenes.skip(out@.len() as int),
                    next: s0.next + out@.len(),
                    sent: s0.sent + indices(s0.scenes.take(out@.len() as int)),
                    emitted: s0.emitted + buffers_of(s0.scenes.take(out@.len() as int)),
                    ..s0
                }),
                lists(out@) == buffers_of(s0.scenes.take(out@.len() as int)),
            decreases self@.scenes.len(),
        {
            let ghost k = out@.len() as int;
            let ghost cur = self@.scenes;
            assert(cur[0] == s0.scenes[k]);
            assert(cur.drop_first() =~= s0.scenes.skip(k + 1));
            self.emit_front(&mut out);
            assert(s0.scenes.take(k + 1) =~= s0.scenes.take(k).push(s0.scenes[k]));
            assert(indices(s0.scenes.take(k + 1)) =~= indices(s0.scenes.take(k)).push(s0.scenes[k].index));
            assert(buffers_of(s0.scenes.take(k + 1)) =~= buffers_of(s0.scenes.take(k)).push(s0.scenes[k].buffers));
            assert(s0.sent + indices(s0.scenes.take(k + 1)) =~= (s0.sent + indices(s0.scenes.take(k))).push(s0.scenes[k].index));
            assert(s0.emitted + buffers_of(s0.scenes.take(k + 1)) =~= (s0.emitted + buffers_of(s0.scenes.take(k))).push(s0.scenes[k].buffers));
        }
        proof {
            if out@.len() < n {
                let k = out@.len() as int;
                assert(self@.scenes[0] == s0.scenes[k]);
            }
        }
        out
    }


    /// Whether every input channel has reached end-of-stream.
    pub fn all_ended(&self) -> (r: bool)
        ensures
            r == self@.all_ended(),
    {
        let mut c: usize = 0;
        while c < self.pad_ended.len()
            invariant
                c <= self.pad_ended@.len(),
                forall|j: int| 0 <= j < c ==> #[trigger] self.pad_ended@[j],
            decreases self.pad_ended@.len() - c,
        {
            if !self.pad_ended[c] {
                assert(!self@.ended[c as int]);
                return false;
            }
            c = c + 1;
        }
        assert(self@.ended == self.pad_ended@);
        true
    }

    /// Emits every remaining record, in index order, whatever lies between
    /// them.
    fn drain(&mut self) -> (r: Vec<Vec<B>>)
        requires
            old(self).wf(),
        ensures
            final(self).wf(),
            final(self)@ == old(self)@.drained(),
            lists(r@) == buffers_of(old(self)@.scenes),
    {
        let ghost s0 = self@;
        let mut out: Vec<Vec<B>> = Vec::new();
        assert(s0.scenes.skip(0) =~= s0.scenes);
        assert(s0.sent + indices(s0.scenes.take(0)) =~= s0.sent);
        assert(s0.emitted + buffers_of(s0.scenes.take(0)) =~= s0.emitted);
        assert(lists(out@) =~= buffers_of(s0.scenes.take(0)));
        while self.scene_buffers.len() > 0
            invariant
                self.wf(),
                out@.len() <= s0.scenes.len(),
                self@ == (CollectorModel {
                    scenes: s0.scenes.skip(out@.len() as int),
                    next: if out@.len() > 0 {
                        (s0.scenes[out@.len() - 1].index + 1) as nat
                    } else {
                        s0.next
                    },
                    sent: s0.sent + indices(s0.scenes.take(out@.len() as int)),
                    emitted: s0.emitted + buffers_of(s0.scenes.take(out@.len() as int)),
                    ..s0
                }),
                lists(out@) == buffers_of(s0.scenes.take(out@.len() as int)),
            decreases self@.scenes.len(),
        {
            let ghost k = out@.len() as int;
            let ghost cur = self@.scenes;
            assert(self@.scenes.len() == self.scene_buffers@.len());
            assert(cur[0] == s0.scenes[k]);
            assert(cur.drop_first() =~= s0.scenes.skip(k + 1));
            self.emit_front(&mut out);
            assert(s0.scenes.take(k + 1) =~= s0.scenes.take(k).push(s0.scenes[k]));
            assert(indices(s0.scenes.take(k + 1)) =~= indices(s0.scenes.take(k)).push(s0.scenes[k].index));
            assert(buffers_of(s0.scenes.take(k + 1)) =~= buffers_of(s0.scenes.take(k)).push(s0.scenes[k].buffers));
            assert(s0.sent + indices(s0.scenes.take(k + 1)) =~= (s0.sent + indices(s0.scenes.take(k))).push(s0.scenes[k].index));
            assert(s0.emitted + buffers_of(s0.scenes.take(k + 1)) =~= (s0.emitted + buffers_of(s0.scenes.take(k))).push(s0.scenes[k].buffers));
        }
        proof {
            assert(self@.scenes.len() == self.scene_buffers@.len());
            assert(out@.len() == s0.scenes.len());
            assert(s0.scenes.take(s0.scenes.len() as int) =~= s0.scenes);
            assert(self@.scenes =~= Seq::<SceneState<B>>::empty());
        }
        out
    }

    /// A buffer arrives on channel `ch`: it joins the scene open there, and
    /// the scenes that are ready go out.
    pub fn sink_chain(&mut self, ch: usize, buffer: B) -> (r: Result<Vec<Vec<B>>, CollectError>)
        requires
            old(self).wf(),
        ensures
            final(self).wf(),
            r is Err <==> old(self)@.push_refusal(ch as nat) is Some,
            r is Err ==> r->Err_0 == old(self)@.push_refusal(ch as nat)->Some_0 && final(self)@
                == old(self)@,
            final(self)@ == old(self)@.step(Arrival::Data(ch as nat, buffer)),
            r is Ok ==> final(self)@ == old(self)@.after_push(ch as nat, buffer).flushed() && lists(
                r->Ok_0@,
            ) == old(self)@.after_push(ch as nat, buffer).flushed_lists(),
    {
        match self.push_buffer(ch, buffer) {
            Err(e) => Err(e),
            Ok(()) => Ok(self.pop_buffers()),
        }
    }

    /// An event arrives on channel `ch`. A scene boundary opens its scene
    /// there; end-of-stream closes the channel, and once every channel has
    /// closed, the remaining scenes are drained and end-of-stream goes on,
    /// once; a capability announcement goes on to the output; anything else
    /// is left to the host.
    pub fn sink_event(&mut self, ch: usize, ev: &HostEvent) -> (r: Result<EventOutcome<B>, CollectError>)
        requires
            old(self).wf(),
        ensures
            final(self).wf(),
            r is Err ==> final(self)@ == old(self)@,
            arrival_of::<B>(ch as nat, *ev) matches Some(a) ==> final(self)@ == old(self)@.step(a) && ((r
                matches Ok(o) && o.verdict == EventVerdict::Default) <==> old(self)@.step_forwards(a)),
            match boundary_of(*ev) {
                Some(b) => {
                    &&& (r is Err <==> old(self)@.boundary_refusal(ch as nat, b.gop_index) is Some)
                    &&& r is Err ==> r->Err_0 == old(self)@.boundary_refusal(ch as nat, b.gop_index)->Some_0
                    &&& r is Ok ==> {
                        let m = old(self)@.after_boundary(ch as nat, b.gop_index);
                        &&& r->Ok_0.verdict == EventVerdict::Handled
                        &&& final(self)@ == m.flushed()
                        &&& lists(r->Ok_0.emitted@) == m.flushed_lists()
                    }
                },
                None => match *ev {
                    HostEvent::Eos => {
                        &&& (r is Err <==> ch >= old(self)@.channels())
                        &&& r is Err ==> r->Err_0 == CollectError::UnknownChannel
                        &&& r is Ok ==> {
                            &&& final(self)@ == old(self)@.end_of_stream(ch as nat)
                            &&& lists(r->Ok_0.emitted@) == old(self)@.end_of_stream_lists(ch as nat)
                            &&& r->Ok_0.verdict == if old(self)@.end_of_stream_forwarded(ch as nat) {
                                EventVerdict::Default
                            } else {
                                EventVerdict::Handled
                            }
                        }
                    },
                    HostEvent::Caps => {
                        &&& r is Ok
                        &&& r->Ok_0.verdict == EventVerdict::PushDownstream
                        &&& r->Ok_0.emitted@.len() == 0
                        &&& final(self)@ == old(self)@
                    },
                    _ => {
                        &&& r is Ok
                        &&& r->Ok_0.verdict == EventVerdict::Default
                        &&& r->Ok_0.emitted@.len() == 0
                        &&& final(self)@ == old(self)@
                    },
                },
            },
    {
        if let Some(b) = SceneNewHypeEvent::parse(ev) {
            return match self.new_scene(ch, b.gop_index) {
                Err(e) => Err(e),
                Ok(()) => {
                    let emitted = self.pop_buffers();
                    Ok(EventOutcome { emitted, verdict: EventVerdict::Handled })
                },
            };
        }
        match ev {
            HostEvent::Eos => {
                if let Err(e) = self.finish_scene(ch) {
                    return Err(e);
                }
                let ghost ended = self@;
                let mut emitted = self.pop_buffers();
                let ghost first = emitted@;
                let mut verdict = EventVerdict::Handled;
                if self.all_ended() {
                    let ghost flushed = self@;
                    let mut rest = self.drain();
                    emitted.append(&mut rest);
                    proof {
                        assert(lists(emitted@) =~= lists(first) + buffers_of(flushed.scenes));
                    }
                    if !self.eos_sent {
                        verdict = EventVerdict::Default;
                    }
                    self.eos_sent = true;
                }
                Ok(EventOutcome { emitted, verdict })
            },
            HostEvent::Caps => Ok(EventOutcome { emitted: Vec::new(), verdict: EventVerdict::PushDownstream }),
            _ => Ok(EventOutcome { emitted: Vec::new(), verdict: EventVerdict::Default }),
        }
    }

    /// The number of input channels.
    pub fn channel_count(&self) -> (r: usize)
        ensures
            r == self@.channels(),
    {
        self.pad_scenes.len()
    }

    /// The number of scene records not yet emitted.
    pub fn pending_scene_len(&self) -> (r: usize)
        ensures
            r == self@.scenes.len(),
    {
        self.scene_buffers.len()
    }

    /// The smallest scene index not yet emitted.
    pub fn next_scene_to_send(&self) -> (r: u64)
        ensures
            r == self@.next,
    {
        self.next_scene_to_send
    }
}

} // verus!
