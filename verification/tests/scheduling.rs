//! Continuous batching: admission, batches, restores and endings.
use tr_infer::engine::{continuous_pages, Reason};
use tr_infer::role::{Role, Span};
use tr_infer::scheduler::{count_rows, Admission, Hot, Next, RestoreError, Scheduler, Ticket};

fn ticket(id: u64, n: usize, ids: &[u32], max_tokens: usize) -> Ticket {
    Ticket { id, n, ids: ids.to_vec(), spans: vec![Span::new(0, ids.len(), Role::User)], max_tokens }
}

/// A request of `n` outputs that runs in sequence `root`.
fn started(s: &mut Scheduler, t: Ticket, root: u64, restoring: bool) {
    s.enqueue(t);
    assert!(matches!(s.admission(), Admission::Run(_)));
    let (t, _) = s.take_front();
    s.start_group(t, root, 0, false, restoring);
}

#[test]
fn requests_are_admitted_in_the_order_they_came() {
    let mut s = Scheduler::new(8, 4);
    assert_eq!(s.next(false, false), Next::Block);
    assert_eq!(s.next(false, true), Next::Quit);
    assert!(matches!(s.admission(), Admission::Idle));
    // 64 prompt tokens, 64 output tokens: a page of the prompt, and one for each output
    assert_eq!(continuous_pages(64, 64, 3), Some(4));
    s.enqueue(ticket(1, 3, &[7; 64], 64));
    s.enqueue(ticket(2, 2, &[8; 64], 64));
    s.enqueue(ticket(3, 1, &[9; 1], 1));
    match s.admission() {
        Admission::Run(pages) => assert_eq!(pages, 4),
        _ => panic!("the first request fits"),
    }
    let (t, hot) = s.take_front();
    assert_eq!(t.id, 1);
    assert!(matches!(hot, Hot::Cold));
    s.start_group(t, 100, 0, false, false);
    assert_eq!(s.used(), (4, 3));
    // the second needs two sequences of which one is left; the third has to wait behind it
    assert!(matches!(s.admission(), Admission::Wait));
    assert_eq!(s.next(false, false), Next::Poll);
    assert_eq!(s.waiting.len(), 2);
    assert_eq!(s.next(true, true), Next::Run);
}

#[test]
fn requests_beyond_the_capacity_are_refused() {
    let mut s = Scheduler::new(4, 2);
    s.enqueue(ticket(1, 3, &[1], 1));
    assert!(matches!(s.admission(), Admission::Refuse));
    assert_eq!(s.refuse_front().id, 1);
    s.enqueue(ticket(2, 1, &[1; 320], 1));
    assert!(matches!(s.admission(), Admission::Refuse));
    s.refuse_front();
    // a count of pages that no number holds
    s.enqueue(ticket(3, 1, &[1], usize::MAX));
    assert!(matches!(s.admission(), Admission::Refuse));
}

#[test]
fn decoded_tokens_come_before_prompt_rows() {
    let mut s = Scheduler::new(64, 8);
    started(&mut s, ticket(1, 2, &[1, 2, 3], 10), 10, false);
    started(&mut s, ticket(2, 1, &[4; 50], 10), 20, false);
    assert!(s.ready(0, 3) && !s.ready(0, 2));
    s.prefilled(0);
    s.share_out(0, &vec![10, 11]);
    s.set_pending(0, 0, 77);
    s.set_pending(0, 1, 78);
    // two tokens are decoded, and of the prompt no more than a chunk is taken
    let batch = s.plan(&vec![0, 5], &vec![None, None], 64, 16);
    assert_eq!(batch.len(), 3);
    assert_eq!((batch[0].group, batch[0].choice, batch[0].seq, &batch[0].tokens), (0, Some(0), 10, &vec![77]));
    assert_eq!((batch[1].group, batch[1].choice, batch[1].seq, &batch[1].tokens), (0, Some(1), 11, &vec![78]));
    assert_eq!((batch[2].group, batch[2].choice, batch[2].tokens.len(), batch[2].logits), (1, None, 16, false));
    assert_eq!(count_rows(&batch), (2, 16));
    // the turn has passed on; a snapshot point ends the prompt's part, and its logits are wanted
    assert_eq!(s.cursor, 1);
    let batch = s.plan(&vec![0, 21], &vec![None, Some(30)], 64, 16);
    assert_eq!((batch[2].tokens.len(), batch[2].logits), (9, true));
    // what is left of the batch bounds the prompt too
    let batch = s.plan(&vec![0, 30], &vec![None, None], 5, 16);
    assert_eq!(batch[2].tokens.len(), 3);
    // the end of the prompt asks for logits
    let batch = s.plan(&vec![0, 40], &vec![None, None], 64, 16);
    assert_eq!((batch[2].tokens.len(), batch[2].logits), (10, true));
}

#[test]
fn a_prompt_alone_fills_the_batch() {
    let mut s = Scheduler::new(64, 8);
    started(&mut s, ticket(1, 1, &[4; 50], 10), 20, false);
    let batch = s.plan(&vec![0], &vec![None], 40, 16);
    assert_eq!((batch.len(), batch[0].tokens.len()), (1, 40));
    // one that waits for the cache is passed over
    let mut s = Scheduler::new(64, 8);
    started(&mut s, ticket(1, 1, &[4; 50], 10), 20, true);
    assert!(s.plan(&vec![0], &vec![None], 40, 16).is_empty());
}

#[test]
fn a_finished_output_stays_for_the_request_that_goes_on() {
    let mut s = Scheduler::new(64, 8);
    started(&mut s, ticket(1, 1, &[1, 2], 10), 10, false);
    s.prefilled(0);
    s.share_out(0, &vec![10]);
    s.set_pending(0, 0, 3);
    s.stepped(0, 0, &vec![3]);
    assert_eq!(s.finish(0, 0, Reason::Stop, true), None);
    s.recredit();
    s.sweep();
    assert_eq!(s.groups.len(), 0);
    assert_eq!(s.used(), (0, 0));
    assert_eq!(s.idle_pages(), 1);
    s.enqueue(ticket(2, 1, &[1, 2, 3, 4], 10));
    match s.take_front().1 {
        Hot::Reuse(i) => assert_eq!((i.seq, i.ids), (10, vec![1, 2, 3])),
        _ => panic!("the idle sequence is a prefix"),
    }
    assert!(s.idle.is_none());
    assert_eq!(s.idle_pages(), 0);
}

#[test]
fn an_idle_sequence_of_other_tokens_is_released() {
    let mut s = Scheduler::new(64, 8);
    started(&mut s, ticket(1, 2, &[1, 2], 10), 10, false);
    s.prefilled(0);
    s.share_out(0, &vec![10, 11]);
    assert_eq!(s.finish(0, 0, Reason::Length, true), None);
    // the second output takes the place of the first, whose sequence is free
    assert_eq!(s.finish(0, 1, Reason::Length, true), Some(10));
    s.sweep();
    s.enqueue(ticket(2, 1, &[1, 9], 10));
    match s.take_front().1 {
        Hot::Release(seq) => assert_eq!(seq, 11),
        _ => panic!("the idle sequence holds other tokens"),
    }
    // a cancelled output gives its own sequence back and leaves nothing behind
    started(&mut s, ticket(3, 1, &[1], 10), 12, false);
    s.prefilled(0);
    s.share_out(0, &vec![12]);
    assert_eq!(s.finish(0, 0, Reason::Cancelled, true), Some(12));
    assert!(s.idle.is_none());
}

#[test]
fn cancelled_and_failed_requests_hold_nothing() {
    let mut s = Scheduler::new(64, 8);
    s.enqueue(ticket(1, 1, &[1], 1));
    s.enqueue(ticket(2, 1, &[1], 1));
    s.enqueue(ticket(3, 1, &[1], 1));
    let gone = s.drop_waiting(&vec![true, false, true]);
    assert_eq!(gone.iter().map(|t| t.id).collect::<Vec<_>>(), vec![1, 3]);
    assert_eq!(s.waiting.len(), 1);
    s.refuse_front();
    started(&mut s, ticket(4, 2, &[1], 1), 40, true);
    assert_eq!(s.cancel(0), Some(40));
    assert_eq!(s.cancel(0), None);
    s.sweep();
    assert_eq!(s.groups.len(), 0);
    started(&mut s, ticket(5, 2, &[1], 1), 50, false);
    assert_eq!(s.fail(0), vec![50]);
    s.sweep();
    started(&mut s, ticket(6, 2, &[1], 1), 60, false);
    s.prefilled(0);
    s.share_out(0, &vec![60, 61]);
    s.finish(0, 0, Reason::Stop, false);
    assert_eq!(s.fail(0), vec![61]);
    s.sweep();
    assert_eq!(s.groups.len(), 0);
}

#[test]
fn credits_shrink_with_the_outputs_that_still_run() {
    let mut s = Scheduler::new(64, 8);
    started(&mut s, ticket(1, 3, &[1; 64], 64), 10, false);
    assert_eq!(s.used(), (4, 3));
    s.prefilled(0);
    s.share_out(0, &vec![10, 11, 12]);
    s.finish(0, 1, Reason::Stop, true);
    s.recredit();
    assert_eq!(s.used(), (3, 2));
    assert_eq!(s.groups[0].credits, 3);
}

#[test]
fn restores_go_on_without_gaps() {
    let mut s = Scheduler::new(64, 8);
    started(&mut s, ticket(1, 1, &[1, 2, 3, 4], 10), 10, true);
    assert!(!s.ready(0, 4));
    assert_eq!(s.check_rows(0, 0, 5), Err(RestoreError::Exceeds));
    assert_eq!(s.check_rows(0, 1, 2), Err(RestoreError::Gap));
    assert_eq!(s.check_rows(0, 0, 2), Ok(()));
    s.rows_imported(0, 2);
    assert_eq!(s.check_rows(0, 2, 4), Ok(()));
    assert_eq!(s.restore_snapshot(0, 5, 2, 9, 9), Err(RestoreError::Exceeds));
    assert_eq!(s.restore_snapshot(0, 2, 1, 9, 9), Err(RestoreError::Position));
    assert_eq!(s.restore_snapshot(0, 2, 2, 0, 9), Err(RestoreError::Logits));
    assert_eq!(s.restore_ended(0), Err(RestoreError::Incomplete));
    assert_eq!(s.restore_snapshot(0, 2, 2, 9, 9), Ok(()));
    assert_eq!((s.groups[0].restored, s.groups[0].reused, s.groups[0].restoring, s.groups[0].logits), (2, 2, false, true));
    s.restore_failed(0);
    assert_eq!((s.groups[0].restored, s.groups[0].reused, s.groups[0].imported, s.groups[0].logits), (0, 0, 0, false));
    assert_eq!(s.restore_ended(0), Ok(()));
    assert_eq!(RestoreError::Gap.text(), "non-contiguous restore rows");
    assert_eq!(RestoreError::Exceeds.text(), "cached object exceeds prompt");
    assert_eq!(RestoreError::Size.text(), "invalid cached row size");
    assert_eq!(RestoreError::Position.text(), "snapshot position differs from restored rows");
    assert_eq!(RestoreError::Logits.text(), "cached snapshot has no usable logits");
    assert_eq!(RestoreError::Incomplete.text(), "incomplete cache restore");
}
