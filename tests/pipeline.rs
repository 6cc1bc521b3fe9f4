use std::collections::VecDeque;

use hype::boundary::{HostEvent, SceneNewHypeEvent};
use hype::collector::{EventVerdict, SceneCollector};
use hype::detector::SceneDetector;
use hype::selector::HypeOutputSelector;
use hype::stage::{Hype, WorkerInfo};

const NUM_BUFFERS: u64 = 20;
const MSECOND: u64 = 1_000_000;

/// A buffer as it travels through the simulated pipeline: its offset and
/// its presentation timestamp.
#[derive(Debug, Clone, Copy, PartialEq, Eq)]
struct Buf {
    offset: u64,
    pts: u64,
}

enum Item {
    Event(HostEvent),
    Data(Buf),
}

/// Runs `NUM_BUFFERS` buffers through segmenter, dispatcher, one identity
/// worker per entry of `delays` (a worker hands on one item every
/// `delays[w]` ticks) and reassembler, and returns what comes out, with the
/// number of times end-of-stream was passed on.
fn run(gop_size: u32, delays: &[u64]) -> (Vec<Buf>, usize) {
    let mut detector = SceneDetector::new();
    detector.set_gop_size(gop_size);
    let mut selector = HypeOutputSelector::new();
    let mut collector: SceneCollector<Buf> = SceneCollector::new();
    let mut queues: Vec<VecDeque<Item>> = Vec::new();
    for w in 0..delays.len() {
        assert_eq!(selector.request_new_pad(), Some(w));
        assert_eq!(collector.request_new_pad(), w);
        queues.push(VecDeque::new());
    }

    for i in 0..NUM_BUFFERS {
        let buf = Buf { offset: i, pts: i * MSECOND };
        if let Some(ev) = detector.transform_frame_ip_passthrough(buf.offset).unwrap() {
            let scene = SceneNewHypeEvent::parse(&ev).unwrap();
            let switch = selector.new_scene_event(scene).unwrap();
            queues[switch.active_index].push_back(Item::Event(ev));
        }
        let active = selector.active_output().unwrap();
        queues[active].push_back(Item::Data(buf));
    }
    for q in queues.iter_mut() {
        q.push_back(Item::Event(HostEvent::Eos));
    }

    let mut out: Vec<Buf> = Vec::new();
    let mut eos_forwarded = 0;
    let mut tick: u64 = 0;
    while queues.iter().any(|q| !q.is_empty()) {
        tick += 1;
        for (w, q) in queues.iter_mut().enumerate() {
            if tick % delays[w] != 0 {
                continue;
            }
            let Some(item) = q.pop_front() else {
                continue;
            };
            match item {
                Item::Data(buf) => {
                    let lists = collector.sink_chain(w, buf).unwrap();
                    for list in lists {
                        out.extend(list);
                    }
                }
                Item::Event(ev) => {
                    let outcome = collector.sink_event(w, &ev).unwrap();
                    for list in outcome.emitted {
                        out.extend(list);
                    }
                    if matches!(ev, HostEvent::Eos) && outcome.verdict == EventVerdict::Default {
                        eos_forwarded += 1;
                    }
                }
            }
        }
    }
    assert_eq!(collector.pending_scene_len(), 0);
    (out, eos_forwarded)
}

fn test_order(gop_size: u32, delays: &[u64]) {
    let (out, eos_forwarded) = run(gop_size, delays);
    assert_eq!(out.len() as u64, NUM_BUFFERS);
    for i in 0..NUM_BUFFERS {
        assert_eq!(out[i as usize].pts, i * MSECOND);
    }
    assert_eq!(eos_forwarded, 1);
}

/// The workers that the stage wires when the given slots hold the
/// pass-through element.
fn wired_workers(slots: &[usize]) -> usize {
    let mut hype = Hype::new();
    for &s in slots {
        let identity = WorkerInfo { is_video_encoder: false, factory_name: "identity".to_string() };
        assert!(hype.set_encoder(s, identity).is_ok());
    }
    let wired = hype.create_pipeline();
    assert_eq!(wired, slots.to_vec());
    wired.len()
}

#[test]
fn test_one_identity() {
    test_order(2, &[1]);
}

#[test]
fn test_identity() {
    test_order(2, &[1, 1]);
}

#[test]
fn test_identity_sleep() {
    test_order(5, &[100, 1]);
}

#[test]
fn test_identity1() {
    let n = wired_workers(&[1]);
    test_order(5, &vec![1; n]);
}

#[test]
fn test_identity3() {
    let n = wired_workers(&[1, 2, 3]);
    test_order(5, &vec![1; n]);
}

#[test]
fn delayed_second_worker_keeps_order() {
    test_order(2, &[1, 10]);
}

#[test]
fn delayed_first_worker_keeps_order() {
    test_order(2, &[10, 1]);
}

#[test]
fn three_skewed_workers_keep_order() {
    test_order(3, &[7, 1, 3]);
}

#[test]
fn group_larger_than_stream_keeps_order() {
    test_order(25, &[1, 4]);
}

#[test]
fn group_of_one_keeps_order() {
    test_order(1, &[2, 1, 5, 3]);
}
