use vhost_user_nvrm::waiters::{
    timeout, Fired, Operation, Outcome, Poller, RegistrationId, Watch, POLLNVAL,
};

const POLLIN: u16 = libc::POLLIN as u16;

fn watch(guest_proc: u32, id: u32, generation: u64, fd: i32) -> Watch {
    Watch {
        fired: Fired { guest_proc, registration: RegistrationId { event_id: id, generation } },
        fd,
    }
}

fn arm(p: &mut Poller, w: Watch) -> Outcome {
    p.apply(Operation::Watch(w))
}

/// One round: polls everybody who may be polled; these descriptors are readable.
fn round(p: &mut Poller, readable: &[i32], now: u64) -> Option<bool> {
    let r = p.plan(now);
    let revents: Vec<u16> =
        r.snapshot.iter().map(|w| if readable.contains(&w.fd) { POLLIN } else { 0 }).collect();
    p.complete(&r.snapshot, &revents, now)
}

#[test]
fn a_readable_waiter_is_reported_once() {
    let mut p = Poller::new(None);
    let w = watch(42, 7, 1, 10);
    assert_eq!(arm(&mut p, w), Outcome::Done);
    assert_eq!(round(&mut p, &[10], 0), Some(true));
    assert_eq!(p.take_fired(), vec![w.fired]);
    // The still-readable FD is no longer watched.
    p.apply(Operation::CancelSlots { guest_proc: 42, ids: vec![99] });
    assert_eq!(round(&mut p, &[10], 0), Some(false));
    assert!(p.take_fired().is_empty());
}

#[test]
fn an_active_slot_cannot_be_replaced() {
    let mut p = Poller::new(None);
    let old = watch(1, 10, 1, 5);
    assert_eq!(arm(&mut p, old), Outcome::Done);
    assert_eq!(arm(&mut p, watch(1, 10, 2, 5)), Outcome::AlreadyArmed);
    assert_eq!(arm(&mut p, watch(1, 10, 2, 6)), Outcome::AlreadyArmed, "the slot");
    assert_eq!(arm(&mut p, watch(2, 11, 1, 5)), Outcome::AlreadyArmed, "the descriptor");
    assert_eq!(round(&mut p, &[5], 0), Some(true));
    assert_eq!(p.take_fired(), vec![old.fired]);
}

#[test]
fn cancellation_discards_a_queued_completion() {
    let mut p = Poller::new(None);
    arm(&mut p, watch(3, 1, 1, 5));
    assert_eq!(round(&mut p, &[5], 0), Some(true));
    assert_eq!(
        p.apply(Operation::CancelSlots { guest_proc: 3, ids: vec![1] }),
        Outcome::Done
    );
    assert!(p.take_fired().is_empty());
}

#[test]
fn cancellation_waits_for_the_consuming_poll_before_rearm() {
    let mut p = Poller::new(None);
    arm(&mut p, watch(3, 1, 1, 5));
    let r = p.plan(0);
    // Old readiness arrives while the cancellation waits for the poll to end.
    assert_eq!(p.complete(&r.snapshot, &[POLLIN], 0), Some(true));
    p.apply(Operation::CancelSlots { guest_proc: 3, ids: vec![1] });
    assert!(p.take_fired().is_empty());

    let new = watch(3, 1, 2, 5);
    assert_eq!(arm(&mut p, new), Outcome::Done);
    assert_eq!(round(&mut p, &[5], 0), Some(true));
    assert_eq!(p.take_fired(), vec![new.fired]);
}

#[test]
fn completion_is_published_only_after_its_snapshot_is_retired() {
    let mut p = Poller::new(None);
    let old = watch(3, 1, 1, 5);
    arm(&mut p, old);
    let r = p.plan(0);
    assert!(p.take_fired().is_empty());
    assert_eq!(p.complete(&r.snapshot, &[POLLIN], 0), Some(true));
    assert_eq!(p.take_fired(), vec![old.fired]);
    assert!(p.plan(0).snapshot.is_empty(), "nothing watches the descriptor any more");

    let new = watch(3, 1, 2, 5);
    assert_eq!(arm(&mut p, new), Outcome::Done);
    assert_eq!(round(&mut p, &[5], 0), Some(true));
    assert_eq!(p.take_fired(), vec![new.fired]);
}

#[test]
fn process_cancellation_preserves_other_processes() {
    let mut p = Poller::new(None);
    arm(&mut p, watch(5, 1, 1, 10));
    let survivor = watch(6, 1, 1, 11);
    arm(&mut p, survivor);
    assert_eq!(p.apply(Operation::CancelProcess(5)), Outcome::Done);
    assert_eq!(round(&mut p, &[10, 11], 0), Some(true));
    assert_eq!(p.take_fired(), vec![survivor.fired]);
}

#[test]
fn a_descriptor_that_is_not_open_ends_the_poller() {
    let mut p = Poller::new(None);
    let (a, b) = (watch(1, 1, 1, 10), watch(1, 2, 1, 11));
    arm(&mut p, a);
    arm(&mut p, b);
    let r = p.plan(0);
    assert_eq!(p.complete(&r.snapshot, &[POLLIN, POLLNVAL], 0), None);
    assert!(p.take_fired().is_empty(), "nothing of that poll is believed");
    assert_eq!(POLLNVAL, libc::POLLNVAL as u16);
    assert_eq!(p.apply(Operation::Shutdown), Outcome::Stop);
}

#[test]
fn a_paced_process_is_not_polled_before_its_time() {
    let ms = 1_000_000;
    let mut p = Poller::new(Some(16 * ms));
    arm(&mut p, watch(1, 1, 1, 10));
    assert_eq!(round(&mut p, &[10], 100), Some(true));
    arm(&mut p, watch(1, 1, 2, 10));
    arm(&mut p, watch(2, 1, 1, 11));
    let r = p.plan(100 + ms);
    assert_eq!(r.snapshot.len(), 1, "the other process goes on");
    assert_eq!(r.soonest, Some(100 + 16 * ms));
    assert_eq!(timeout(r.soonest, 100 + ms), 15);
    assert_eq!(timeout(None, 5), -1);
    assert_eq!(timeout(Some(5), 5), 1, "rounded up, and never a busy loop");
    assert_eq!(timeout(Some(16_666_666), 0), 17);
    assert_eq!(p.plan(100 + 16 * ms).snapshot.len(), 2);
}

/// Cancelling a slot keeps all others, and nothing but arming it again brings it back.
#[test]
fn a_cancelled_slot_stays_away_until_it_is_armed_again() {
    let mut p = Poller::new(None);
    let (gone, kept, other) = (watch(3, 1, 1, 5), watch(3, 2, 1, 6), watch(4, 1, 1, 7));
    for w in [gone, kept, other] {
        assert_eq!(arm(&mut p, w), Outcome::Done);
    }
    assert_eq!(round(&mut p, &[7], 0), Some(true));
    p.apply(Operation::CancelSlots { guest_proc: 3, ids: vec![1] });
    assert_eq!(p.take_fired(), vec![other.fired], "the completion of another slot is kept");
    p.apply(Operation::CancelProcess(9));
    assert_eq!(round(&mut p, &[5, 6, 7], 0), Some(true));
    assert_eq!(p.take_fired(), vec![kept.fired]);
    assert_eq!(round(&mut p, &[5], 0), Some(false));
    let again = watch(3, 1, 2, 5);
    assert_eq!(arm(&mut p, again), Outcome::Done);
    assert_eq!(round(&mut p, &[5], 0), Some(true));
    assert_eq!(p.take_fired(), vec![again.fired]);
}
