//! The books of a command queue: epochs, fences and last writers.

use candle_metal_kernels::buffer::Buffer;
use candle_metal_kernels::commands::{
    compute_per_buffer, failure_text, release_fence, CommandBufferStatus, Commands,
    Completion, LiveFence, Submission, DEFAULT_CANDLE_METAL_COMPUTE_PER_BUFFER,
};
use candle_metal_kernels::encoder::BlitCommandEncoder;

#[test]
fn the_environment_sets_how_many_encoders_share_a_buffer() {
    assert_eq!(DEFAULT_CANDLE_METAL_COMPUTE_PER_BUFFER, 50);
    assert_eq!(compute_per_buffer(None), 50);
    assert_eq!(compute_per_buffer(Some("7")), 7);
    assert_eq!(compute_per_buffer(Some("+7")), 7);
    assert_eq!(compute_per_buffer(Some("seven")), 50);
    assert_eq!(compute_per_buffer(Some("")), 50);
    assert_eq!(compute_per_buffer(Some("99999999999999999999999")), 50);
}

/// A buffer is full after as many encoders as are set, and starts over.
#[test]
fn a_full_buffer_is_flushed() {
    let mut c = Commands::new(Some("2"), 1);
    assert!(!c.has_work());
    assert!(!c.count_encoder());
    assert!(c.has_work());
    assert!(!c.count_encoder());
    assert!(c.count_encoder());
}

/// An epoch finishes with its command buffer, or at once where the buffer was committed before.
#[test]
fn epochs_close_and_finish() {
    let mut c = Commands::new(None, 10);
    assert_eq!(c.close_epoch(CommandBufferStatus::NotEnqueued), Submission::Commit(0));
    assert_eq!(c.clock().current_epoch(), 1);
    assert!(!c.clock().is_complete(0));
    c.swap_in(11, 0);
    assert_eq!(c.current(), 11);
    assert_eq!(c.in_flight(), [10]);
    c.epoch_completed(0);
    assert!(c.clock().is_complete(0));
    assert_eq!(c.close_epoch(CommandBufferStatus::Committed), Submission::Retired(1));
    assert!(c.clock().is_complete(1));
}

/// What an encoder wrote is known under its fence until that fence has completed.
#[test]
fn an_encoder_keeps_its_fence_while_it_is_the_last_writer() {
    let mut c = Commands::new(None, 1);
    assert!(c.open_encoder(70));
    assert!(!c.open_encoder(71));
    assert_eq!(c.end_encoding(&[5, 6]), Some(70));
    assert_eq!(c.end_encoding(&[5, 6]), None);
    assert_eq!(c.writers()[&5], 70);
    assert_eq!(c.writers()[&6], 70);
    assert_eq!(c.blit_waits(), [70]);

    assert!(c.open_encoder(71));
    c.end_encoding(&[6]);
    assert_eq!(c.writers()[&6], 71);
    let mut waits = c.blit_waits();
    waits.sort();
    assert_eq!(waits, [70, 71]);

    c.encoder_completed(70, &[5, 6]);
    assert!(!c.writers().contains_key(&5));
    assert_eq!(c.writers()[&6], 71);
    assert_eq!(c.blit_waits(), [71]);
    c.encoder_completed(71, &[6]);
    assert!(c.writers().is_empty());
    assert!(c.blit_waits().is_empty());
}

/// A blit is the last writer of what it wrote; compute fences stay to be waited on.
#[test]
fn a_blit_takes_over_as_last_writer() {
    let mut c = Commands::new(None, 1);
    c.open_encoder(70);
    c.end_encoding(&[5, 6]);
    let mut blit = BlitCommandEncoder::new();
    let waits = blit.copy_from_buffer(
        c.writers(),
        &Buffer::new(5, 64, 0x1000),
        &Buffer::new(6, 64, 0x2000),
    );
    assert_eq!(waits, [70]);
    c.end_blit(&blit, 80);
    assert_eq!(c.writers()[&5], 70);
    assert_eq!(c.writers()[&6], 80);
    assert_eq!(c.waited_on_all(&[CommandBufferStatus::Error]), Err(0));
    assert_eq!(c.blit_waits(), [70]);
    assert_eq!(c.waited_on_all(&[CommandBufferStatus::Completed]), Ok(()));
    assert!(c.writers().is_empty());
    assert!(c.blit_waits().is_empty());
}

#[test]
fn a_fence_is_live_while_a_buffer_needs_it() {
    let mut live = vec![LiveFence { ptr: 7, buffers: 2 }, LiveFence { ptr: 8, buffers: 1 }];
    release_fence(&mut live, 7);
    assert_eq!(live[0], LiveFence { ptr: 7, buffers: 1 });
    release_fence(&mut live, 8);
    assert_eq!(live, [LiveFence { ptr: 7, buffers: 1 }]);
    release_fence(&mut live, 9);
    release_fence(&mut live, 7);
    assert!(live.is_empty());
}

#[test]
fn buffers_are_kept_while_they_run() {
    let mut c = Commands::new(None, 1);
    c.swap_in(2, 0);
    c.swap_in(3, 0);
    c.swap_in(4, 0);
    assert_eq!(c.in_flight(), [1, 2, 3]);
    let statuses = [
        CommandBufferStatus::Completed,
        CommandBufferStatus::Scheduled,
        CommandBufferStatus::Error,
    ];
    assert!(!c.waited_on_current(CommandBufferStatus::Error, &statuses));
    assert_eq!(c.in_flight(), [1, 2, 3]);
    assert!(c.waited_on_current(CommandBufferStatus::Completed, &statuses));
    assert_eq!(c.in_flight(), [2, 3]);
    assert_eq!(c.take_in_flight(), [2, 3]);
    assert!(c.in_flight().is_empty());
}

#[test]
fn a_failure_is_found_and_named() {
    let ok = CommandBufferStatus::Completed;
    let failed = CommandBufferStatus::Error;
    let mut c = Commands::new(None, 1);
    assert_eq!(c.waited_on_all(&[ok, failed, failed, ok]), Err(1));
    assert_eq!(c.waited_on_all(&[ok, failed, failed]), Err(2));
    assert_eq!(c.waited_on_all(&[ok, ok]), Ok(()));
    assert_eq!(c.waited_on_all(&[]), Ok(()));
    assert_eq!(failure_text(Some("page fault".to_string())), "page fault");
    assert_eq!(failure_text(None), "unknown error");
}

#[test]
fn a_status_says_what_is_left_to_do() {
    assert_eq!(CommandBufferStatus::NotEnqueued.completion(), Completion::CommitAndWait);
    assert_eq!(CommandBufferStatus::Enqueued.completion(), Completion::CommitAndWait);
    assert_eq!(CommandBufferStatus::Committed.completion(), Completion::Wait);
    assert_eq!(CommandBufferStatus::Scheduled.completion(), Completion::Wait);
    assert_eq!(CommandBufferStatus::Completed.completion(), Completion::Done);
    assert_eq!(CommandBufferStatus::Error.completion(), Completion::Failed);
    assert!(!CommandBufferStatus::Completed.in_flight());
    assert!(CommandBufferStatus::Scheduled.in_flight());
}
