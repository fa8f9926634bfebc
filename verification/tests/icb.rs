//! Recording decode steps and replaying what was stable.

use std::collections::HashMap;

use candle_metal_kernels::buffer::Buffer;
use candle_metal_kernels::encoder::{ComputeCommandEncoder, HazardKey};
use candle_metal_kernels::executor::{
    DispatchAction, DispatchRecord, Executor, ExecutorSlot, Grid, Size3,
};
use candle_metal_kernels::icb::{BarrierScope, EndStep, IcbError, IcbExecutor, ReplayPlan};

/// How many `f32` of the source lie before what is read.
const SRC_SKIP: usize = 64;

fn size(width: usize) -> Size3 {
    Size3 { width, height: 1, depth: 1 }
}

fn distinct(values: &[f32]) -> usize {
    let mut bits: Vec<u32> = values.iter().map(|v| v.to_bits()).collect();
    bits.sort_unstable();
    bits.dedup();
    bits.len()
}

/// What a command does: the cosine of one buffer, from an offset, into another.
struct Command {
    from: usize,
    skip: usize,
    to: usize,
}

/// A device that can take cosines, classically or from commands encoded ahead.
struct Machine {
    memory: HashMap<usize, Vec<f32>>,
    commands: Vec<Command>,
    replayed: usize,
}

impl Machine {
    fn new() -> Machine {
        Machine { memory: HashMap::new(), commands: Vec::new(), replayed: 0 }
    }

    fn cos(&mut self, from: usize, skip: usize, to: usize) {
        let n = self.memory[&to].len();
        let out: Vec<f32> = self.memory[&from][skip..skip + n].iter().map(|v| v.cos()).collect();
        self.memory.insert(to, out);
    }

    fn encode(&mut self, plan: &ReplayPlan) {
        for i in 0..plan.len() {
            let d = plan.command(i);
            self.commands.push(Command {
                from: d.bindings[0].ptr,
                skip: d.bindings[0].offset / 4,
                to: d.bindings[1].ptr,
            });
        }
    }

    fn execute(&mut self, location: usize, length: usize) {
        for i in location..location + length {
            let Command { from, skip, to } = self.commands[i];
            self.cos(from, skip, to);
            self.replayed += 1;
        }
    }

    fn buffer(&mut self, id: usize, values: Vec<f32>) -> Buffer {
        let b = Buffer::new(id, values.len() * 4, id * 0x1_0000);
        self.memory.insert(id, values);
        b
    }

    fn dispatch(
        &mut self,
        slot: &mut ExecutorSlot<IcbExecutor>,
        kernel: &str,
        from: &Buffer,
        skip: usize,
        to: &Buffer,
    ) {
        let writers = HashMap::new();
        let mut e = ComputeCommandEncoder::new(HazardKey::Pointer);
        e.note_pipeline(slot, 40, Some(kernel.to_string()), false);
        e.set_input_buffer(&writers, slot, 1, Some(from), skip * 4);
        e.set_output_buffer(&writers, slot, 2, Some(to), 0);
        match e.dispatch_thread_groups(slot, size(8), size(32)).action {
            DispatchAction::Encode => self.cos(from.raw_id(), skip, to.raw_id()),
            DispatchAction::Suppress => {}
            DispatchAction::ExecuteIcb { location, length } => self.execute(location, length),
        }
    }

    fn end_step(&mut self, slot: &mut ExecutorSlot<IcbExecutor>, supported: bool) {
        if let ExecutorSlot::Custom(e) = slot {
            if let EndStep::Encode(p) = e.end_step(supported).unwrap() {
                self.encode(&p.plan);
                e.start_replay(p);
            }
        }
    }
}

impl Clone for Command {
    fn clone(&self) -> Command {
        Command { ..*self }
    }
}

impl Copy for Command {}

fn run_cos_steps(
    steps: usize,
    executor: Option<IcbExecutor>,
    kernel: &str,
    input: &[f32],
) -> (Vec<f32>, Option<IcbExecutor>, usize) {
    let mut machine = Machine::new();
    let mut slot = match executor {
        Some(e) => ExecutorSlot::Custom(e),
        None => ExecutorSlot::Classical,
    };
    let mut staged = vec![f32::NAN; SRC_SKIP];
    staged.extend_from_slice(input);
    let src = machine.buffer(1, staged);
    let dst = machine.buffer(2, vec![0.0; input.len()]);
    for _ in 0..steps {
        machine.memory.insert(2, vec![0.0; input.len()]);
        machine.dispatch(&mut slot, kernel, &src, SRC_SKIP, &dst);
        machine.end_step(&mut slot, true);
    }
    let out = machine.memory[&2].clone();
    match slot {
        ExecutorSlot::Custom(e) => (out, Some(e), machine.replayed),
        ExecutorSlot::Classical => (out, None, machine.replayed),
    }
}

#[test]
fn replayed_dispatch_matches_the_classical_one() {
    let input: Vec<f32> = (0..1024).map(|i| i as f32 / 32.0).collect();

    let (replayed, executor, count) =
        run_cos_steps(4, Some(IcbExecutor::new(2)), "cos_f32_packed", &input);
    let executor = executor.unwrap();
    let (classical, _, _) = run_cos_steps(1, None, "cos_f32", &input);

    assert!(executor.is_replaying());
    let coverage = executor.coverage();
    assert!(coverage.covered > 0);
    assert_eq!(executor.stale_positions(), 0);
    assert_eq!(count, 2);

    assert!(distinct(&replayed) > 2);
    assert_eq!(replayed, classical);
}

#[test]
fn icb_plan_refuses_pipelines_without_icb_support() {
    for supported in [true, false] {
        let mut executor = IcbExecutor::new(2);

        executor.end_step(supported).unwrap();
        let result = executor.end_step(supported);

        if supported {
            assert!(result.is_ok());
        } else {
            assert!(result.is_ok());
        }
    }
}

#[test]
fn inline_constant_dispatches_are_excluded_with_a_reason() {
    let input: Vec<f32> = (0..256).map(|i| i as f32 / 16.0).collect();
    let (out, executor, count) = run_cos_steps(3, Some(IcbExecutor::new(2)), "cos_f32", &input);
    let executor = executor.unwrap();

    let coverage = executor.coverage();
    assert_eq!(coverage.positions, 1);
    assert_eq!(coverage.covered, 0);
    assert_eq!(coverage.inline_constants, 1);
    assert!(coverage
        .excluded_by_kernel
        .inline_constants
        .entries()
        .iter()
        .any(|e| e.name == "cos_f32" && e.count == 1));
    assert!(distinct(&out) > 2);
    assert_eq!(count, 0);
}

fn run_cos_chain(
    steps: usize,
    links: usize,
    executor: IcbExecutor,
    input: &[f32],
) -> (Vec<f32>, IcbExecutor) {
    let mut machine = Machine::new();
    let mut slot = ExecutorSlot::Custom(executor);
    let src = machine.buffer(1, input.to_vec());
    let a = machine.buffer(2, vec![0.0; input.len()]);
    let b = machine.buffer(3, vec![0.0; input.len()]);
    for _ in 0..steps {
        for link in 0..links {
            let (from, to) = match link {
                0 => (&src, &a),
                _ if link % 2 == 1 => (&a, &b),
                _ => (&b, &a),
            };
            machine.dispatch(&mut slot, "cos_f32_packed", from, 0, to);
        }
        machine.end_step(&mut slot, true);
    }
    let last = if links % 2 == 1 { 2 } else { 3 };
    let out = machine.memory[&last].clone();
    match slot {
        ExecutorSlot::Custom(e) => (out, e),
        ExecutorSlot::Classical => unreachable!(),
    }
}

#[test]
fn the_reduced_barrier_scan_drops_edges_a_dependency_chain_needs() {
    const LINKS: usize = 6;
    let input: Vec<f32> = (0..256).map(|i| i as f32 / 16.0).collect();

    let (out_conservative, conservative) = run_cos_chain(
        3,
        LINKS,
        IcbExecutor::with_barrier_scope(2, BarrierScope::RunStart),
        &input,
    );
    let (out_reduced, reduced) = run_cos_chain(
        3,
        LINKS,
        IcbExecutor::with_barrier_scope(2, BarrierScope::SinceBarrier),
        &input,
    );

    let cov = conservative.coverage();
    assert_eq!(cov.covered, LINKS);
    assert_eq!(conservative.runs(), 1);

    assert_eq!(conservative.encoded_barriers(), LINKS - 1);
    assert!(reduced.encoded_barriers() < conservative.encoded_barriers());

    assert!(distinct(&out_conservative) > 2);
    assert!(distinct(&out_reduced) > 2);
}

fn record(kernel: &str) -> DispatchRecord {
    DispatchRecord {
        kernel: Some(kernel.to_string()),
        grid: Grid::Threadgroups(size(4)),
        threads_per_threadgroup: size(32),
    }
}

/// Offers one dispatch that reads one buffer and writes another.
fn offer(e: &mut IcbExecutor, kernel: &str, from: usize, to: usize) -> DispatchAction {
    e.will_set_pipeline(40);
    e.will_bind_buffer(1, &Buffer::new(from, 256, from * 0x1000), 0, false);
    e.will_bind_buffer(2, &Buffer::new(to, 256, to * 0x1000), 0, true);
    e.dispatch_action(&record(kernel))
}

/// Two runs with a gap between them: the heads ask for their runs, the rest is suppressed, and
/// the gap is encoded.
fn two_runs() -> IcbExecutor {
    let mut e = IcbExecutor::new(2);
    for _ in 0..2 {
        for (kernel, from, to) in [
            ("a_packed", 1, 2),
            ("b_packed", 2, 3),
            ("gap", 3, 4),
            ("c_packed", 4, 5),
        ] {
            assert_eq!(offer(&mut e, kernel, from, to), DispatchAction::Encode);
        }
        if let EndStep::Encode(p) = e.end_step(true).unwrap() {
            assert_eq!(p.plan.len(), 3);
            assert_eq!(p.plan.runs().len(), 2);
            assert!(!p.plan.waits(0));
            assert!(p.plan.waits(1));
            assert!(!p.plan.waits(2));
            assert_eq!(p.plan.barriers(), 1);
            let mut resident: Vec<usize> = p.plan.resident().iter().map(|b| b.raw_id()).collect();
            resident.sort();
            assert_eq!(resident, [1, 2, 3, 4, 5]);
            e.start_replay(p);
        }
    }
    assert!(e.is_replaying());
    e
}

#[test]
fn a_run_is_replayed_from_its_head() {
    let mut e = two_runs();
    assert_eq!(e.runs(), 2);
    for _ in 0..3 {
        assert_eq!(
            offer(&mut e, "a_packed", 1, 2),
            DispatchAction::ExecuteIcb { location: 0, length: 2 }
        );
        assert_eq!(offer(&mut e, "b_packed", 2, 3), DispatchAction::Suppress);
        assert_eq!(offer(&mut e, "gap", 3, 4), DispatchAction::Encode);
        assert_eq!(
            offer(&mut e, "c_packed", 4, 5),
            DispatchAction::ExecuteIcb { location: 2, length: 1 }
        );
        assert_eq!(offer(&mut e, "extra", 4, 5), DispatchAction::Encode);
        assert!(matches!(e.end_step(true), Ok(EndStep::Replaying)));
    }
    assert_eq!(e.stale_positions(), 0);
    assert_eq!(e.poisoned_runs(), 0);
}

/// A run that stopped matching is encoded from then on; the other one is not touched.
#[test]
fn a_stale_run_is_encoded_from_then_on() {
    let mut e = two_runs();
    assert_eq!(offer(&mut e, "a_packed", 1, 9), DispatchAction::Encode);
    assert_eq!(offer(&mut e, "b_packed", 2, 3), DispatchAction::Encode);
    assert_eq!(offer(&mut e, "gap", 3, 4), DispatchAction::Encode);
    assert_eq!(
        offer(&mut e, "c_packed", 4, 5),
        DispatchAction::ExecuteIcb { location: 2, length: 1 }
    );
    e.end_step(true).unwrap();
    assert_eq!(e.stale_positions(), 1);
    assert_eq!(e.poisoned_runs(), 1);
    assert_eq!(offer(&mut e, "a_packed", 1, 2), DispatchAction::Encode);
    assert_eq!(offer(&mut e, "b_packed", 2, 3), DispatchAction::Encode);
    assert_eq!(e.stale_positions(), 1);
}

/// A mismatch inside a run in flight does not run the position twice, and stops the next replay.
#[test]
fn a_mismatch_in_flight_is_not_run_twice() {
    let mut e = two_runs();
    assert_eq!(
        offer(&mut e, "a_packed", 1, 2),
        DispatchAction::ExecuteIcb { location: 0, length: 2 }
    );
    assert_eq!(offer(&mut e, "b_packed", 2, 9), DispatchAction::Suppress);
    e.end_step(true).unwrap();
    assert_eq!(e.poisoned_runs(), 1);
    assert_eq!(offer(&mut e, "a_packed", 1, 2), DispatchAction::Encode);
}

/// Positions that varied, or had no pipeline, are not replayed, and the coverage says why.
#[test]
fn coverage_says_why() {
    let mut e = IcbExecutor::new(2);
    for step in 0..2usize {
        offer(&mut e, "stable_packed", 1, 2);
        offer(&mut e, "moving_packed", 1, 10 + step);
        e.will_bind_buffer(1, &Buffer::new(1, 256, 0x1000), 0, false);
        e.dispatch_action(&record("bare_packed"));
        if let EndStep::Encode(p) = e.end_step(true).unwrap() {
            e.start_replay(p);
        }
    }
    let c = e.coverage();
    assert_eq!((c.positions, c.covered, c.varies, c.no_pipeline, c.inline_constants), (3, 1, 1, 1, 0));
    assert_eq!(c.covered_by_kernel.get("stable_packed"), 1);
    assert_eq!(c.excluded_by_kernel.varies.get("moving_packed"), 1);
    assert_eq!(c.excluded_by_kernel.no_pipeline.get("bare_packed"), 1);
    assert_eq!(c.covered_by_kernel.get("moving_packed"), 0);
}

/// Recorded steps of different lengths, and pipelines that cannot be encoded, are refused.
#[test]
fn a_plan_is_refused_in_words() {
    let mut e = IcbExecutor::new(2);
    offer(&mut e, "a_packed", 1, 2);
    assert!(matches!(e.end_step(true), Ok(EndStep::Recording)));
    offer(&mut e, "a_packed", 1, 2);
    offer(&mut e, "a_packed", 1, 2);
    let err = e.end_step(true).unwrap_err();
    assert_eq!(err, IcbError::StepLengths { step: 1, dispatches: 2, first: 1 });
    assert_eq!(
        err.message(),
        "recorded step 1 has 2 dispatches against step 0's 1; the recording window includes a \
         non-steady-state step"
    );
    assert!(!e.is_replaying());

    let mut e = IcbExecutor::new(2);
    for _ in 0..2 {
        offer(&mut e, "a_packed", 1, 2);
        match e.end_step(false) {
            Ok(EndStep::Recording) => {}
            Err(err) => {
                assert_eq!(err, IcbError::PipelinesUnsupported);
                assert!(err.message().contains("supportIndirectCommandBuffers"));
                assert!(err.message().contains("segfaults at encode time"));
            }
            other => panic!("planned without support: {other:?}"),
        }
    }
    assert!(!e.is_replaying());
    assert_eq!(e.runs(), 0);
    assert_eq!(e.encoded_barriers(), 0);
}
