//! An executor at the point where dispatches are submitted.

use std::collections::HashMap;

use candle_metal_kernels::buffer::Buffer;
use candle_metal_kernels::encoder::{ComputeCommandEncoder, HazardKey};
use candle_metal_kernels::executor::{
    Classical, DispatchAction, DispatchRecord, Disposition, Executor, ExecutorSlot, Grid, Size3,
};

const COS: &str = "cos_f32";

/// Writes down what it sees, and forwards everything.
#[derive(Default)]
struct Recorder {
    dispatches: Vec<(Option<String>, Grid)>,
    binds: Vec<(usize, usize, bool)>,
    pipelines: Vec<usize>,
}

impl Executor for Recorder {
    fn dispatch(&mut self, record: &DispatchRecord) -> bool {
        self.dispatches.push((record.kernel.clone(), record.grid));
        true
    }

    fn will_bind_buffer(&mut self, index: usize, _buffer: &Buffer, offset: usize, out: bool) {
        self.binds.push((index, offset, out));
    }

    fn will_set_pipeline(&mut self, pipeline: usize) {
        self.pipelines.push(pipeline);
    }
}

/// Holds every dispatch back.
struct Suppress;

impl Executor for Suppress {
    fn dispatch(&mut self, _record: &DispatchRecord) -> bool {
        false
    }
}

/// Takes the cosine of a buffer, where the dispatch is encoded.
fn run_cos<E: Executor>(slot: &mut ExecutorSlot<E>, input: &[f32]) -> Vec<f32> {
    let writers = HashMap::new();
    let bytes = input.len() * 4;
    let src = Buffer::new(1, bytes, 0x1000);
    let dst = Buffer::new(2, bytes, 0x2000);
    let mut out = vec![0.0; input.len()];
    let mut e = ComputeCommandEncoder::new(HazardKey::Pointer);
    e.note_pipeline(slot, 40, Some(COS.to_string()), false);
    e.set_input_buffer(&writers, slot, 0, Some(&src), 0);
    e.set_output_buffer(&writers, slot, 1, Some(&dst), 0);
    let size = Size3 { width: 1, height: 1, depth: 1 };
    if e.dispatch_thread_groups(slot, size, size).action.encodes() {
        for (o, i) in out.iter_mut().zip(input) {
            *o = i.cos();
        }
    }
    out
}

#[test]
fn executor_observes_dispatches_without_changing_results() {
    let input: Vec<f32> = (0..64).map(|i| i as f32 / 8.0).collect();

    let mut classical: ExecutorSlot<Recorder> = ExecutorSlot::Classical;
    let baseline = run_cos(&mut classical, &input);
    let mut slot = ExecutorSlot::Custom(Recorder::default());
    let observed = run_cos(&mut slot, &input);

    assert_eq!(baseline, observed);

    let recorder = match slot {
        ExecutorSlot::Custom(r) => r,
        ExecutorSlot::Classical => panic!("the executor was taken out"),
    };
    assert_eq!(recorder.dispatches.len(), 1);
    assert_eq!(recorder.dispatches[0].0.as_deref(), Some(COS));
    assert!(matches!(recorder.dispatches[0].1, Grid::Threadgroups(_)));
    assert_eq!(recorder.binds, [(0, 0, false), (1, 0, true)]);
    assert_eq!(recorder.pipelines, [40]);
}

#[test]
fn executor_can_suppress_a_dispatch() {
    let input: Vec<f32> = (0..64).map(|i| i as f32 / 8.0).collect();
    let mut slot = ExecutorSlot::Custom(Suppress);
    let out = run_cos(&mut slot, &input);
    let mut classical: ExecutorSlot<Suppress> = ExecutorSlot::Classical;
    let computed = run_cos(&mut classical, &input);

    assert_ne!(out, computed);
    assert!(out.iter().all(|&v| v == 0.0));
}

#[test]
fn default_executor_is_classical() {
    let slot: ExecutorSlot<Classical> = ExecutorSlot::default();
    assert!(slot.is_classical());
    assert_eq!(slot.disposition(), Disposition::Unknown);
    assert_eq!(Disposition::default(), Disposition::Unknown);
}

/// Every method has a default, and the defaults forward.
#[test]
fn the_defaults_forward_everything() {
    let size = Size3 { width: 8, height: 1, depth: 1 };
    let record = DispatchRecord {
        kernel: None,
        grid: Grid::Threads(size),
        threads_per_threadgroup: size,
    };
    for mut slot in [ExecutorSlot::Classical, ExecutorSlot::Custom(Classical)] {
        assert!(slot.dispatch(&record));
        assert_eq!(slot.dispatch_action(&record), DispatchAction::Encode);
        assert_eq!(slot.disposition(), Disposition::Unknown);
        slot.will_bind_buffer(0, &Buffer::new(1, 8, 0x1000), 0, true);
        slot.will_set_pipeline(3);
    }
    let mut held = ExecutorSlot::Custom(Suppress);
    assert!(!held.is_classical());
    assert!(!held.dispatch(&record));
    assert_eq!(held.dispatch_action(&record), DispatchAction::Suppress);
}

#[test]
fn only_encoding_encodes() {
    assert!(DispatchAction::forwarding(true).encodes());
    assert!(!DispatchAction::forwarding(false).encodes());
    assert!(!DispatchAction::ExecuteIcb { location: 0, length: 4 }.encodes());
}
