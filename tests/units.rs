use hype::boundary::{EventStructure, FieldValue, HostEvent, SceneNewHypeEvent};
use hype::collector::{CollectError, EventVerdict, SceneCollector};
use hype::detector::{SceneDetector, SegmentError, Settings, DEFAULT_GOP_SIZE};
use hype::selector::{HypeOutputSelector, SceneSwitch};
use hype::stage::{Assignment, Child, ConfigError, Hype, WorkerInfo, NUM_ENC};

fn structure(name: &str, fields: Vec<(&str, FieldValue)>) -> HostEvent {
    HostEvent::CustomDownstream(Some(EventStructure {
        name: name.to_string(),
        fields: fields.into_iter().map(|(n, v)| (n.to_string(), v)).collect(),
    }))
}

fn worker(is_video_encoder: bool, name: &str) -> WorkerInfo {
    WorkerInfo { is_video_encoder, factory_name: name.to_string() }
}

#[test]
fn boundary_round_trip() {
    for (i, g) in [(0u32, 1u32), (7, 10), (u32::MAX, u32::MAX), (123456, 0)] {
        let ev = SceneNewHypeEvent::new(i, g);
        assert_eq!(SceneNewHypeEvent::parse(&ev), Some(SceneNewHypeEvent { gop_index: i, gop_size: g }));
    }
}

#[test]
fn boundary_encoding_layout() {
    let ev = SceneNewHypeEvent::new(3, 5);
    let HostEvent::CustomDownstream(Some(s)) = ev else {
        panic!("not a custom event");
    };
    assert_eq!(s.name, "scene-new-hype-event");
    assert_eq!(s.fields.len(), 2);
    assert_eq!(s.fields[0], ("gop_index".to_string(), FieldValue::U32(3)));
    assert_eq!(s.fields[1], ("gop_size".to_string(), FieldValue::U32(5)));
}

#[test]
fn foreign_name_is_not_a_boundary() {
    let ev = structure("other-event", vec![("gop_index", FieldValue::U32(1)), ("gop_size", FieldValue::U32(2))]);
    assert_eq!(SceneNewHypeEvent::parse(&ev), None);
}

#[test]
fn missing_or_mistyped_field_is_not_a_boundary() {
    let missing = structure("scene-new-hype-event", vec![("gop_index", FieldValue::U32(1))]);
    assert_eq!(SceneNewHypeEvent::parse(&missing), None);
    let mistyped = structure(
        "scene-new-hype-event",
        vec![("gop_index", FieldValue::Other), ("gop_size", FieldValue::U32(2))],
    );
    assert_eq!(SceneNewHypeEvent::parse(&mistyped), None);
    assert_eq!(SceneNewHypeEvent::parse(&HostEvent::CustomDownstream(None)), None);
    assert_eq!(SceneNewHypeEvent::parse(&HostEvent::Eos), None);
    assert_eq!(SceneNewHypeEvent::parse(&HostEvent::Caps), None);
}

#[test]
fn boundary_fields_in_any_order() {
    let ev = structure(
        "scene-new-hype-event",
        vec![("extra", FieldValue::Other), ("gop_size", FieldValue::U32(4)), ("gop_index", FieldValue::U32(9))],
    );
    assert_eq!(SceneNewHypeEvent::parse(&ev), Some(SceneNewHypeEvent { gop_index: 9, gop_size: 4 }));
}

#[test]
fn detector_defaults_and_boundaries() {
    assert_eq!(Settings::default().gop_size, 10);
    let mut d = SceneDetector::new();
    assert_eq!(d.gop_size(), DEFAULT_GOP_SIZE);
    let ev = d.transform_frame_ip_passthrough(0).unwrap().unwrap();
    assert_eq!(SceneNewHypeEvent::parse(&ev), Some(SceneNewHypeEvent { gop_index: 0, gop_size: 10 }));
    let ev = d.transform_frame_ip_passthrough(30).unwrap().unwrap();
    assert_eq!(SceneNewHypeEvent::parse(&ev), Some(SceneNewHypeEvent { gop_index: 3, gop_size: 10 }));
    assert!(matches!(d.transform_frame_ip_passthrough(31), Ok(None)));
    d.set_gop_size(2);
    assert_eq!(d.gop_size(), 2);
    let ev = d.transform_frame_ip_passthrough(6).unwrap().unwrap();
    assert_eq!(SceneNewHypeEvent::parse(&ev), Some(SceneNewHypeEvent { gop_index: 3, gop_size: 2 }));
    assert!(matches!(d.transform_frame_ip_passthrough(7), Ok(None)));
}

#[test]
fn detector_reads_whole_offset() {
    let mut d = SceneDetector::new();
    d.set_gop_size(2);
    let ev = d.transform_frame_ip_passthrough((1u64 << 32) + 4).unwrap().unwrap();
    assert_eq!(
        SceneNewHypeEvent::parse(&ev),
        Some(SceneNewHypeEvent { gop_index: (1u32 << 31) + 2, gop_size: 2 })
    );
    d.set_gop_size(3);
    // 2^32 mod 3 == 1: no boundary there.
    assert!(matches!(d.transform_frame_ip_passthrough(1u64 << 32), Ok(None)));
    let ev = d.transform_frame_ip_passthrough((1u64 << 32) + 2).unwrap().unwrap();
    assert_eq!(
        SceneNewHypeEvent::parse(&ev),
        Some(SceneNewHypeEvent { gop_index: 1_431_655_766, gop_size: 3 })
    );
}

#[test]
fn detector_refuses_scene_index_beyond_u32() {
    let mut d = SceneDetector::new();
    d.set_gop_size(1);
    assert_eq!(d.transform_frame_ip_passthrough(u32::MAX as u64).unwrap().is_some(), true);
    assert!(matches!(
        d.transform_frame_ip_passthrough(1u64 << 32),
        Err(SegmentError::SceneIndexTooLarge)
    ));
    d.set_gop_size(2);
    assert!(matches!(d.transform_frame_ip_passthrough((1u64 << 33) + 1), Ok(None)));
    assert!(matches!(
        d.transform_frame_ip_passthrough(1u64 << 33),
        Err(SegmentError::SceneIndexTooLarge)
    ));
}

#[test]
fn round_robin_routes_by_index() {
    let mut s = HypeOutputSelector::new();
    assert_eq!(s.new_scene_event(SceneNewHypeEvent { gop_index: 0, gop_size: 1 }), None);
    for w in 0..3 {
        assert_eq!(s.request_new_pad(), Some(w));
    }
    assert_eq!(s.output_count(), 3);
    let mut previous = None;
    for k in 0..12u32 {
        let sw = s.new_scene_event(SceneNewHypeEvent { gop_index: k, gop_size: 1 }).unwrap();
        assert_eq!(sw, SceneSwitch { active_index: (k % 3) as usize, previous_index: previous });
        assert_eq!(s.active_output(), Some((k % 3) as usize));
        previous = Some((k % 3) as usize);
    }
}

#[test]
fn round_robin_same_on_repeated_runs() {
    let trace = || {
        let mut s = HypeOutputSelector::new();
        for _ in 0..4 {
            s.request_new_pad();
        }
        (0..20u32)
            .map(|k| s.new_scene_event(SceneNewHypeEvent { gop_index: k * 7, gop_size: 1 }).unwrap().active_index)
            .collect::<Vec<_>>()
    };
    let first = trace();
    assert_eq!(first, trace());
    assert_eq!(first[3], 1);
}

#[test]
fn new_output_changes_modulus_from_next_boundary() {
    let mut s = HypeOutputSelector::new();
    s.request_new_pad();
    s.request_new_pad();
    assert_eq!(s.new_scene_event(SceneNewHypeEvent { gop_index: 5, gop_size: 1 }).unwrap().active_index, 1);
    s.request_new_pad();
    assert_eq!(s.active_output(), Some(1));
    assert_eq!(s.new_scene_event(SceneNewHypeEvent { gop_index: 5, gop_size: 1 }).unwrap().active_index, 2);
}

#[test]
fn queue_holds_two_scenes() {
    assert_eq!(HypeOutputSelector::queue_max_size_buffers(), 40);
}

fn boundary(k: u32) -> HostEvent {
    SceneNewHypeEvent::new(k, 2)
}

#[test]
fn collector_holds_back_higher_scene() {
    let mut c: SceneCollector<u32> = SceneCollector::new();
    let a = c.request_new_pad();
    let b = c.request_new_pad();
    assert_eq!(c.channel_count(), 2);
    assert!(c.sink_event(a, &boundary(0)).unwrap().emitted.is_empty());
    assert!(c.sink_event(b, &boundary(1)).unwrap().emitted.is_empty());
    assert_eq!(c.sink_chain(b, 10).unwrap(), Vec::<Vec<u32>>::new());
    assert_eq!(c.sink_chain(b, 11).unwrap(), Vec::<Vec<u32>>::new());
    // Scene 1 completes first, on the fast channel: it must wait for scene 0.
    assert!(c.sink_event(b, &boundary(3)).unwrap().emitted.is_empty());
    assert_eq!(c.sink_chain(a, 0).unwrap(), Vec::<Vec<u32>>::new());
    assert_eq!(c.sink_chain(a, 1).unwrap(), Vec::<Vec<u32>>::new());
    assert_eq!(c.pending_scene_len(), 3);
    let out = c.sink_event(a, &boundary(2)).unwrap();
    assert_eq!(out.verdict, EventVerdict::Handled);
    assert_eq!(out.emitted, vec![vec![0, 1], vec![10, 11]]);
    assert_eq!(c.next_scene_to_send(), 2);
}

#[test]
fn end_of_stream_passes_once_after_draining() {
    let mut c: SceneCollector<u32> = SceneCollector::new();
    let a = c.request_new_pad();
    let b = c.request_new_pad();
    c.sink_event(a, &boundary(0)).unwrap();
    c.sink_chain(a, 1).unwrap();
    c.sink_event(b, &boundary(1)).unwrap();
    c.sink_chain(b, 2).unwrap();
    let first = c.sink_event(b, &HostEvent::Eos).unwrap();
    assert_eq!(first.verdict, EventVerdict::Handled);
    assert!(first.emitted.is_empty());
    assert!(!c.all_ended());
    let last = c.sink_event(a, &HostEvent::Eos).unwrap();
    assert_eq!(last.verdict, EventVerdict::Default);
    assert_eq!(last.emitted, vec![vec![1], vec![2]]);
    assert!(c.all_ended());
    assert_eq!(c.pending_scene_len(), 0);
    let again = c.sink_event(a, &HostEvent::Eos).unwrap();
    assert_eq!(again.verdict, EventVerdict::Handled);
    assert!(again.emitted.is_empty());
}

#[test]
fn end_of_stream_drains_past_a_missing_scene() {
    let mut c: SceneCollector<u32> = SceneCollector::new();
    let a = c.request_new_pad();
    c.sink_event(a, &boundary(1)).unwrap();
    c.sink_chain(a, 5).unwrap();
    c.sink_event(a, &boundary(4)).unwrap();
    c.sink_chain(a, 6).unwrap();
    let out = c.sink_event(a, &HostEvent::Eos).unwrap();
    assert_eq!(out.emitted, vec![vec![5], vec![6]]);
    assert_eq!(out.verdict, EventVerdict::Default);
    assert_eq!(c.next_scene_to_send(), 5);
}

#[test]
fn same_scene_opened_twice_keeps_its_buffers() {
    let mut c: SceneCollector<u32> = SceneCollector::new();
    let a = c.request_new_pad();
    let b = c.request_new_pad();
    c.sink_event(a, &boundary(0)).unwrap();
    c.sink_chain(a, 1).unwrap();
    c.sink_event(b, &boundary(0)).unwrap();
    c.sink_chain(b, 2).unwrap();
    c.sink_event(a, &boundary(0)).unwrap();
    c.sink_chain(a, 3).unwrap();
    assert_eq!(c.pending_scene_len(), 1);
    let out = c.sink_event(a, &boundary(1)).unwrap();
    assert_eq!(out.emitted, vec![vec![1, 2, 3]]);
}

#[test]
fn collector_errors() {
    let mut c: SceneCollector<u32> = SceneCollector::new();
    assert_eq!(c.sink_chain(0, 1), Err(CollectError::UnknownChannel));
    assert_eq!(c.sink_event(0, &boundary(0)).err(), Some(CollectError::UnknownChannel));
    assert_eq!(c.sink_event(3, &HostEvent::Eos).err(), Some(CollectError::UnknownChannel));
    let a = c.request_new_pad();
    let b = c.request_new_pad();
    assert_eq!(c.sink_chain(a, 1), Err(CollectError::NoOpenScene));
    c.sink_event(a, &boundary(0)).unwrap();
    c.sink_event(b, &boundary(0)).unwrap();
    c.sink_event(a, &boundary(1)).unwrap();
    // Scene 0 left on channel a while still open on b.
    assert_eq!(c.sink_chain(b, 9), Err(CollectError::SceneAlreadySent));
    assert_eq!(c.sink_event(a, &boundary(0)).err(), Some(CollectError::SceneAlreadySent));
    c.sink_event(a, &HostEvent::Eos).unwrap();
    assert_eq!(c.sink_chain(a, 1), Err(CollectError::ChannelEnded));
    assert_eq!(c.sink_event(a, &boundary(5)).err(), Some(CollectError::ChannelEnded));
}

#[test]
fn collector_passes_other_events_on() {
    let mut c: SceneCollector<u32> = SceneCollector::new();
    let a = c.request_new_pad();
    assert_eq!(c.sink_event(a, &HostEvent::Caps).unwrap().verdict, EventVerdict::PushDownstream);
    assert_eq!(c.sink_event(a, &HostEvent::Other).unwrap().verdict, EventVerdict::Default);
    let foreign = structure("other-event", vec![]);
    assert_eq!(c.sink_event(a, &foreign).unwrap().verdict, EventVerdict::Default);
    assert_eq!(c.pending_scene_len(), 0);
}

#[test]
fn incompatible_worker_is_refused() {
    let mut h = Hype::new();
    assert_eq!(h.set_encoder(0, worker(false, "videoscale")), Err(ConfigError::NotAVideoEncoder));
    assert!(!h.has_encoder(0));
    assert_eq!(h.set_encoder(0, worker(true, "x264enc")), Ok(Assignment::Bound));
    assert_eq!(h.set_encoder(1, worker(false, "identity")), Ok(Assignment::Bound));
    assert_eq!(h.set_encoder(0, worker(false, "identity")), Ok(Assignment::AlreadyBound));
    assert_eq!(h.set_encoder(NUM_ENC, worker(true, "x265enc")), Err(ConfigError::NoSuchSlot));
    assert_eq!(h.create_pipeline(), vec![0, 1]);
    assert_eq!(h.set_encoder(2, worker(true, "x265enc")), Err(ConfigError::AlreadyWired));
    assert_eq!(h.create_pipeline(), Vec::<usize>::new());
}

#[test]
fn stage_children() {
    let mut h = Hype::new();
    assert_eq!(h.children_count(), 4);
    h.set_encoder(4, worker(true, "x264enc")).unwrap();
    h.set_encoder(2, worker(true, "x264enc")).unwrap();
    assert_eq!(h.children_count(), 4);
    assert_eq!(h.create_pipeline(), vec![2, 4]);
    assert_eq!(h.children_count(), 6);
    assert_eq!(h.child_by_index(0), Some(Child::SceneDetector));
    assert_eq!(h.child_by_index(1), Some(Child::OutputSelector));
    assert_eq!(h.child_by_index(2), Some(Child::SceneCollector));
    assert_eq!(h.child_by_index(3), Some(Child::CapsFilter));
    assert_eq!(h.child_by_index(4), Some(Child::Encoder(4)));
    assert_eq!(h.child_by_index(5), None);
}
