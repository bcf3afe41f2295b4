use vhost_user_nvrm::abi::Dev;
use vhost_user_nvrm::events::{
    EventAnswer, EventReg, Fired, Pollable, Waiter, WaiterSlot, WaiterTarget,
};
use vhost_user_nvrm::nvrm::{
    fitted, on_get_tables, outside_sessions, refused_length, tally, task_of, wakeup, Mapped,
    NvrmDevice, Poll, Route, Task, Wakeup, FEATURES, MAX_SESSIONS, VIRTIO_ID_NVRM,
};
use vhost_user_nvrm::polls::{
    on_ready, Delivery, EventChannel, PollBook, PollKey, PollSrc, Ready, Watching,
};
use vhost_user_nvrm::session::Session;
use vhost_user_nvrm::waiters::{Fired as WaiterFired, RegistrationId};
use vhost_user_nvrm::window::{cache_for, Unmap, Window, WindowMap, HOST_VISIBLE_SIZE};
use vhost_user_nvrm::wire::{Kind, Limits, Reply, Req, Rsp};

fn limits() -> Limits {
    Limits {
        proto_version: 7,
        req_len: 256,
        rsp_len: 32,
        proc_info_len: 24,
        max_payload: 64 << 10,
        max_aux: 1 << 20,
        max_msg: 2 << 20,
    }
}

fn map(len: u64, guest_proc: u32) -> WindowMap {
    WindowMap { len, guest_proc, fd: 3 }
}

fn win(entries: &[(u64, u64)]) -> Window {
    let mut w = Window::new();
    for &(off, len) in entries {
        w.insert(off, map(len, 0));
    }
    w
}

fn win_owned(entries: &[(u64, u64, u32)]) -> Window {
    let mut w = Window::new();
    for &(off, len, guest_proc) in entries {
        w.insert(off, map(len, guest_proc));
    }
    w
}

#[test]
fn proc_gone_takes_only_that_processes_window_mappings() {
    let mut w = win_owned(&[
        (0x0000, 0x1000, 7),
        (0x1000, 0x1000, 9),
        (0x2000, 0x1000, 7),
        (0x3000, 0x1000, 0),
    ]);
    let mine = w.window_of_proc(7);
    assert_eq!(mine, vec![0x0000, 0x2000], "both of process 7's, in offset order");
    for off in mine {
        assert!(w.finish_release(off).is_some(), "and each one is really there");
    }
    assert_eq!(w.len(), 2, "the other two processes keep theirs");
    assert!(w.contains(0x1000) && w.contains(0x3000));

    // A process that mapped nothing costs nothing -- PROC_GONE is a hot
    // path and most processes never place a window mapping at all.
    assert!(w.window_of_proc(12345).is_empty());
    // And guest_proc 0 is a real owner here, not a wildcard: device-wide
    // requests carry it, and matching it loosely would unmap the world.
    assert_eq!(w.window_of_proc(0), vec![0x3000]);
}

#[test]
fn an_empty_window_refuses_nothing() {
    assert!(!win(&[]).window_overlaps(0, 0x1000));
    assert!(!win(&[]).window_overlaps(0x4000_0000, 0x1000));
}

#[test]
fn end_to_end_mappings_do_not_collide() {
    let w = win(&[(0, 0x1000), (0x2000, 0x1000)]);
    assert!(!w.window_overlaps(0x1000, 0x1000), "the gap between the two");
    assert!(!w.window_overlaps(0x3000, 0x1000), "immediately after the last");
}

#[test]
fn the_four_shapes_of_an_overlap_are_all_caught() {
    let w = win(&[(0x2000, 0x2000)]); // [0x2000, 0x4000)
    assert!(w.window_overlaps(0x2000, 0x1000), "same start");
    assert!(w.window_overlaps(0x3000, 0x2000), "starts inside, ends after");
    assert!(w.window_overlaps(0x1000, 0x2000), "starts before, ends inside");
    assert!(w.window_overlaps(0x1000, 0x4000), "swallows it whole");
    assert!(!w.window_overlaps(0x1000, 0x1000), "ends exactly at its start");
    assert!(!w.window_overlaps(0x4000, 0x1000), "starts exactly at its end");
}

#[test]
fn a_hit_far_down_the_map_is_still_found() {
    let w = win(&[(0, 0x1000), (0x2000, 0x1000), (0x8000, 0x4000)]);
    assert!(w.window_overlaps(0x9000, 0x1000), "inside the last one");
    assert!(!w.window_overlaps(0x4000, 0x4000), "the hole between the second and third");
}

/// Releases a mapping, with a VMM that takes it out or refuses, or with none at all.
fn release(d: &mut NvrmDevice, req: &Req, vmm: Option<bool>) -> Rsp {
    match d.begin_release(req, vmm.is_some()) {
        Err(rsp) => rsp,
        Ok(_) => d.on_map_release(req, vmm == Some(true)).0,
    }
}

/// Tells the device that a process ended.
fn gone(d: &mut NvrmDevice, req: &Req, vmm: Option<bool>) -> Rsp {
    let places = match d.begin_gone(req, true) {
        Err(rsp) => return rsp,
        Ok((_, places)) => places,
    };
    let mut unmapped = true;
    for off in places {
        match d.window.begin_release(vmm.is_some(), off) {
            Unmap::Bytes(_) if vmm == Some(true) => {
                d.window.finish_release(off);
            }
            Unmap::Nothing => {}
            _ => unmapped = false,
        }
    }
    match d.finish_gone(req, unmapped) {
        Err(rsp) => rsp,
        Ok(_) => Rsp::ok(req.seq, 0),
    }
}

#[test]
fn failed_unmap_keeps_slot_until_a_successful_retry() {
    let mut d = NvrmDevice::new();
    d.window.insert(0x1000, map(0x1000, 7));
    let req = Req { kind: Kind::MapRelease, addr: 0x1000, ..Req::default() };
    assert!(matches!(d.route(Some(&req)), Route::MapRelease));
    assert_eq!(release(&mut d, &req, Some(false)).ret, -libc::EIO);
    assert!(d.window.window_overlaps(0x1000, 0x1000));

    assert_eq!(release(&mut d, &req, Some(true)).ret, 0);
    assert!(d.window.is_empty());
}

#[test]
fn process_cleanup_keeps_mappings_when_vmm_refuses_unmap() {
    let mut d = NvrmDevice::new();
    let req = Req { kind: Kind::ProcGone, guest_proc: 7, ..Req::default() };
    let s = d.session_for(&req).ok().unwrap();
    d.put(s);
    d.window.insert(0x1000, map(0x1000, 7));
    assert_eq!(gone(&mut d, &req, Some(false)).ret, -libc::EIO);
    assert!(d.window.contains(0x1000));
    assert!(d.sessions.contains_key(7));

    assert_eq!(gone(&mut d, &req, Some(true)).ret, 0);
    assert!(d.window.is_empty());
    assert!(!d.sessions.contains_key(7));
}

fn stream(len: usize) -> Vec<u8> {
    (0..len).map(|i| (i % 251) as u8).collect()
}

fn get_tables(tables: &[u8], addr: u64, map_len: u64) -> (Rsp, Vec<u8>) {
    let req = Req { seq: 3, kind: Kind::GetTables, addr, map_len, ..Req::default() };
    assert!(matches!(NvrmDevice::new().route(Some(&req)), Route::Tables));
    let reply = on_get_tables(tables, &limits(), &req);
    assert_eq!(reply.rsp.seq, 3, "the answer echoes the sequence number");
    assert_eq!(
        reply.bytes.len(),
        reply.rsp.inline_len as usize,
        "inline_len must describe exactly the bytes that follow the header"
    );
    (reply.rsp, reply.bytes)
}

#[test]
fn get_tables_refuses_an_offset_past_the_end_of_the_stream() {
    let tables = stream(5432);
    let total = tables.len() as u64;
    for addr in [total + 1, total + 4096, u64::MAX] {
        let (rsp, body) = get_tables(&tables, addr, 4096);
        assert_eq!(rsp.ret, -libc::EINVAL, "addr {addr} of {total} accepted");
        assert!(body.is_empty());
    }
    let (rsp, body) = get_tables(&tables, total, 4096);
    assert_eq!(rsp.ret, 0, "the empty tail is a legal read");
    assert_eq!((rsp.inline_len, body.len()), (0, 0));
}

#[test]
fn get_tables_never_answers_with_zero_bytes_and_shortens_the_last_chunk() {
    let tables = stream(5432);
    let total = tables.len() as u64;
    assert!(total > 10);

    let (rsp, body) = get_tables(&tables, 0, 0);
    assert_eq!((rsp.ret, rsp.inline_len), (0, 1), "map_len 0 still makes progress");
    assert_eq!(body, tables[..1]);

    let (rsp, body) = get_tables(&tables, total - 10, 4096);
    assert_eq!(
        (rsp.ret, body.len()),
        (0, 10),
        "the last chunk is what is left, not what was asked"
    );
    assert_eq!(body, tables[total as usize - 10..]);
}

#[test]
fn get_tables_pages_reassemble_into_the_checksummed_stream() {
    let want = stream(5432);
    let total = want.len() as u64;
    const CHUNK: u64 = 1000;
    assert!(total > 3 * CHUNK && total % CHUNK != 0, "stream of {total} bytes");

    let mut got: Vec<u8> = Vec::new();
    let mut lens: Vec<usize> = Vec::new();
    while (got.len() as u64) < total {
        let (rsp, chunk) = get_tables(&want, got.len() as u64, CHUNK);
        assert_eq!(rsp.ret, 0);
        assert_eq!(rsp.token, total, "token is the total length, in every chunk");
        assert!(!chunk.is_empty(), "a zero-length chunk never terminates the loop");
        got.extend_from_slice(&chunk);
        lens.push(chunk.len());
        assert!(lens.len() < 4096, "not converging");
    }
    let last = lens.pop().unwrap();
    assert!(lens.len() >= 3, "the stream took only {} full chunks", lens.len());
    assert!(lens.iter().all(|&n| n == CHUNK as usize), "a middle chunk was not full");
    assert_eq!(last, total as usize - lens.len() * CHUNK as usize);
    assert!(last < CHUNK as usize, "the last chunk is short");
    assert_eq!(got, want, "the pages do not reassemble the stream");
}

#[test]
fn get_tables_caps_one_chunk_at_max_payload() {
    let max = limits().max_payload;
    let grown = 2 * max + 1234;
    let want = stream(grown);

    for map_len in [u64::MAX, max as u64 + 1, 1 << 40] {
        let (rsp, body) = get_tables(&want, 0, map_len);
        assert_eq!(body.len(), max, "map_len {map_len} was not capped");
        assert_eq!(rsp.inline_len as usize, max);
        assert_eq!(rsp.token, grown as u64);
    }

    // And the guest's loop still terminates on it, in three chunks.
    let mut got: Vec<u8> = Vec::new();
    let mut lens: Vec<usize> = Vec::new();
    while got.len() < grown {
        let (_, chunk) = get_tables(&want, got.len() as u64, u64::MAX);
        assert!(!chunk.is_empty());
        got.extend_from_slice(&chunk);
        lens.push(chunk.len());
        assert!(lens.len() < 16, "not converging");
    }
    assert_eq!(lens, vec![max, max, 1234]);
    assert_eq!(got, want);
}

#[test]
fn a_message_shorter_than_a_request_is_eproto() {
    let mut d = NvrmDevice::new();
    let Route::Refused(rsp) = d.route(None) else {
        panic!("a message without a header was routed");
    };
    assert_eq!(rsp.ret, -libc::EPROTO);
    assert_eq!(rsp.seq, 0, "no sequence number arrived, so none is echoed");
    // The exact length is enough; nothing beyond the header is needed.
    let full = Req { seq: 77, kind: Kind::ProcGone, guest_proc: 5, ..Req::default() };
    assert!(matches!(d.route(Some(&full)), Route::ProcGone));
    let rsp = gone(&mut d, &full, None);
    assert_eq!((rsp.ret, rsp.seq), (0, 77));
}

#[test]
fn map_release_without_a_vmm_channel_is_eio_and_keeps_the_entry() {
    let mut d = NvrmDevice::new();
    d.window.insert(0x1000, map(0x2000, 5));
    let req = Req { seq: 4, kind: Kind::MapRelease, addr: 0x1000, ..Req::default() };
    let rsp = release(&mut d, &req, None);
    assert_eq!(rsp.ret, -libc::EIO);
    assert_eq!(rsp.seq, 4);
    assert!(
        d.window.contains(0x1000),
        "a release the device could not carry out must not forget the mapping"
    );
}

#[test]
fn proc_gone_refuses_process_zero_but_not_an_unknown_process() {
    let mut d = NvrmDevice::new();
    let req = Req { seq: 11, kind: Kind::ProcGone, guest_proc: 0, ..Req::default() };
    let rsp = gone(&mut d, &req, None);
    assert_eq!(rsp.ret, -libc::EINVAL, "guest_proc 0 is 'not stated', not a process");
    assert_eq!(rsp.seq, 11);

    let req = Req { seq: 12, kind: Kind::ProcGone, guest_proc: 4242, ..Req::default() };
    let rsp = gone(&mut d, &req, None);
    assert_eq!(rsp.ret, 0, "an absent session is not an error");
    assert_eq!(rsp.seq, 12);
    assert!(d.sessions.is_empty(), "and nothing was created on the way");
}

#[test]
fn err_rsp_negates_the_errno_and_echoes_the_sequence() {
    for (seq, errno) in [
        (0u32, libc::EINVAL),
        (7, libc::EPROTO),
        (u32::MAX, libc::EIO),
        (3, libc::ENOMEM),
    ] {
        let reply = Reply::bare(Rsp::err(seq, errno));
        assert!(reply.bytes.is_empty(), "an error answer carries no payload");
        let rsp = reply.rsp;
        assert_eq!(rsp.seq, seq);
        assert_eq!(rsp.ret, -errno, "errno {errno} must arrive negated");
        assert!(rsp.ret < 0);
        assert_eq!((rsp.token, rsp.inline_len, rsp.aux_len, rsp.scm_fd_count), (0, 0, 0, 0));
    }
}

#[test]
fn a_slot_has_to_be_aligned_inside_and_free() {
    let w = win(&[(0x2000, 0x2000)]);
    assert_eq!(w.check_slot(0x1001, 0x1000), Some(libc::EINVAL));
    assert_eq!(w.check_slot(0x1000, 0x1001), Some(libc::EINVAL));
    assert_eq!(w.check_slot(HOST_VISIBLE_SIZE, 0x1000), Some(libc::EINVAL));
    assert_eq!(w.check_slot(u64::MAX - 0xfff, 0x1000), Some(libc::EINVAL));
    assert_eq!(w.check_slot(0x3000, 0x1000), Some(libc::EBUSY));
    assert_eq!(w.check_slot(HOST_VISIBLE_SIZE - 0x1000, 0x1000), None);
    assert_eq!(cache_for(Dev::Gpu), 2);
    assert_eq!(cache_for(Dev::Ctl), 1);
    assert_eq!(cache_for(Dev::Uvm), 1);
}

#[test]
fn a_mapping_goes_into_the_window_only_once_the_vmm_has_it() {
    let mut d = NvrmDevice::new();
    let mut s = Session::detached_proc(7);
    let open = Req { seq: 1, dev: Some(Dev::Gpu), ..Req::default() };
    let token = s.finish_open(&open, Dev::Gpu, 55).token;
    let req = Req {
        seq: 9,
        kind: Kind::MapPrepare,
        dev: Some(Dev::Gpu),
        target_token: token,
        map_len: 0x2000,
        addr: 0x4000,
        guest_proc: 7,
        ..Req::default()
    };
    assert!(matches!(d.route(Some(&req)), Route::MapPrepare));
    let none = d.begin_map(&mut s, &req, false).err().unwrap();
    assert_eq!((none.seq, none.ret), (9, -libc::EIO));
    let m = d.begin_map(&mut s, &req, true).ok().unwrap();
    assert_eq!((m.off, m.len, m.fd), (0x4000, 0x2000, 55));
    assert_eq!(d.on_map_prepare(&req, m, Mapped::Unmappable(libc::EINVAL)).ret, -libc::EINVAL);
    assert_eq!(d.on_map_prepare(&req, m, Mapped::Refused).ret, -libc::EIO);
    assert!(d.window.is_empty());
    let rsp = d.on_map_prepare(&req, m, Mapped::Done);
    assert_eq!((rsp.ret, rsp.token), (0, 2), "memory of a card is mapped uncached");
    assert!(d.window.contains(0x4000));
    let again = d.begin_map(&mut s, &req, true).err().unwrap();
    assert_eq!(again.ret, -libc::EBUSY);
    let stray = Req { target_token: token + 1, ..req };
    assert_eq!(d.begin_map(&mut s, &stray, true).err().unwrap().ret, -libc::EBADF);
}

#[test]
fn too_many_processes_are_refused() {
    let mut d = NvrmDevice::new();
    for p in 0..MAX_SESSIONS as u32 {
        let req = Req { guest_proc: p, ..Req::default() };
        let s = d.session_for(&req).ok().unwrap();
        d.put(s);
    }
    let one_more = Req { seq: 2, guest_proc: MAX_SESSIONS as u32, ..Req::default() };
    let rsp = d.session_for(&one_more).err().unwrap();
    assert_eq!((rsp.seq, rsp.ret), (2, -libc::ENOMEM));
    let known = Req { guest_proc: 5, ..Req::default() };
    assert!(d.session_for(&known).is_ok(), "a process that is there goes on");
}

fn with_token(proc: u32, fd: i32) -> Session {
    let mut s = Session::detached_proc(proc);
    s.finish_open(&Req::default(), Dev::Ctl, fd);
    s
}

#[test]
fn descriptors_are_looked_up_where_their_owner_is() {
    let mut d = NvrmDevice::new();
    d.put(with_token(3, 30));
    d.put(with_token(4, 40));
    let req = Req {
        guest_proc: 9,
        fd_field_off: Some(0),
        fd_field_token: Some(1),
        fd_field_proc: Some(4),
        aux_fd_field_off: Some(0),
        aux_fd_field_token: Some(1),
        aux_fd_field_proc: Some(3),
        ..Req::default()
    };
    let (hosts, miss) = d.find_hosts(&req);
    assert_eq!((hosts.fd_field, hosts.aux_fd), (Some(40), Some(30)));
    assert!(miss.is_none());
    assert!(!d.sessions.contains_key(9), "looking up creates nothing");

    // A named owner has to have the token, whoever else does.
    let wrong = Req { fd_field_proc: Some(8), ..req };
    let (hosts, miss) = d.find_hosts(&wrong);
    assert_eq!(hosts.fd_field, None);
    let miss = miss.unwrap();
    assert_eq!((miss.count, miss.owner, miss.logged), (1, Some(3), true));

    // Without an owner the caller's own mirror is looked at, later.
    let own = Req { guest_proc: 3, fd_field_proc: None, ..wrong };
    assert!(d.find_hosts(&own).1.is_none());
    let stale = Req { guest_proc: 3, fd_field_token: Some(77), fd_field_proc: None, ..own };
    let miss = d.find_hosts(&stale).1.unwrap();
    assert_eq!((miss.count, miss.owner), (2, None));
    for _ in 0..18 {
        d.find_hosts(&stale);
    }
    assert!(!d.find_hosts(&stale).1.unwrap().logged, "the twenty-first is not worth a line");
}

#[test]
fn a_watched_descriptor_has_one_number_that_is_never_reused() {
    let mut b = PollBook::new();
    let ctl = Pollable::EventCtl { h_client: 5, fd: 11 };
    let Watching::Add { id, fd, edge, src } = b.register(7, ctl) else {
        panic!("not watched");
    };
    assert_eq!((id, fd, edge), (1, 11, false));
    b.added(id, src);
    assert!(matches!(b.register(7, ctl), Watching::Known));
    let token = Pollable::Client { token: 2, fd: 12, owner: Some(9) };
    let Watching::Add { id, edge, src, .. } = b.register(7, token) else {
        panic!("not watched");
    };
    assert_eq!((id, edge), (2, true));
    assert_eq!(src, PollSrc::Client { guest_proc: 9, token: 2, fd: 12 });
    b.added(id, src);
    assert_eq!(b.of_proc(9), vec![2]);
    assert_eq!(b.find(PollKey::EventCtl { guest_proc: 7, h_client: 5 }), Some(1));

    let (_, gone) = b.unregister_id(1, None).unwrap();
    assert_eq!(gone, Some(11));
    assert_eq!(b.unregister_id(2, Some(99)).unwrap().1, Some(99), "what the token has now");
    let Watching::Add { id, .. } = b.register(7, ctl) else {
        panic!("not watched again");
    };
    assert_eq!(id, 3);
    let waiter = Pollable::Waiter {
        registration: RegistrationId { event_id: 4, generation: 1 },
        fd: 13,
    };
    let Watching::Waiter(w) = b.register(7, waiter) else {
        panic!("waiters have their own poller");
    };
    assert_eq!((w.fd, w.fired.guest_proc, w.fired.registration.event_id), (13, 7, 4));
}

#[test]
fn a_number_that_fires_is_drained_woken_or_dropped() {
    let mut b = PollBook::new();
    let notify = b.begin_notify();
    b.added(notify, PollSrc::WaiterNotify);
    let Watching::Add { id, src, .. } = b.register(7, Pollable::EventCtl { h_client: 5, fd: 11 })
    else {
        panic!("not watched");
    };
    b.added(id, src);
    assert_eq!(on_ready(&b, notify, false), Ready::Waiters);
    assert_eq!(on_ready(&b, notify, true), Ready::Fatal);
    assert_eq!(on_ready(&b, id, false), Ready::Drain { guest_proc: 7, h_client: 5 });
    assert_eq!(on_ready(&b, id, true), Ready::HungUp);
    assert_eq!(on_ready(&b, 99, false), Ready::Stale);
}

#[test]
fn a_process_leaves_the_watch_with_everything_it_had() {
    let mut d = NvrmDevice::new();
    d.put(with_token(7, 70));
    for (proc, p) in [
        (7, Pollable::EventCtl { h_client: 5, fd: 11 }),
        (7, Pollable::Client { token: 1, fd: 12, owner: None }),
        (8, Pollable::EventCtl { h_client: 5, fd: 13 }),
        (8, Pollable::Client { token: 1, fd: 14, owner: None }),
    ] {
        let Watching::Add { id, src, .. } = d.polls.register(proc, p) else {
            panic!("not watched");
        };
        d.polls.added(id, src);
    }
    assert_eq!(d.unregister_token(8, 1), Some((4, 14)), "an unknown process has no newer one");
    assert_eq!(d.unregister_token(8, 1), None);
    assert_eq!(d.unregister_event_ctl(8, 6), None);
    assert_eq!(d.unregister_proc(7), vec![(1, 11), (2, 70)]);
    assert_eq!(d.unregister_event_ctl(8, 5), Some((3, 13)));
}

/// What the system has to forget of a process comes in rising order, each number with the
/// descriptor that it stands for; the others stay watched.
#[test]
fn a_process_that_ended_hands_back_its_watches_in_order() {
    let mut d = NvrmDevice::new();
    d.put(with_token(7, 70));
    for (proc, p) in [
        (7, Pollable::EventCtl { h_client: 5, fd: 11 }),
        (8, Pollable::EventCtl { h_client: 5, fd: 13 }),
        (7, Pollable::Client { token: 1, fd: 12, owner: None }),
    ] {
        let Watching::Add { id, src, .. } = d.polls.register(proc, p) else {
            panic!("not watched");
        };
        d.polls.added(id, src);
    }
    let req = Req { kind: Kind::ProcGone, guest_proc: 7, ..Req::default() };
    let (watches, places) = d.begin_gone(&req, true).ok().unwrap();
    assert_eq!(watches, vec![(1, 11), (3, 70)]);
    assert!(places.is_empty());
    assert_eq!(d.unregister_event_ctl(8, 5), Some((2, 13)));
}

/// A process that was not there before gets a session that nothing has happened to.
#[test]
fn a_new_process_starts_with_a_fresh_session() {
    let mut d = NvrmDevice::new();
    let req = Req { guest_proc: 7, ..Req::default() };
    let s = d.session_for(&req).ok().unwrap();
    assert_eq!(s.sub_id, 7);
    assert_eq!(s.next_blob_id, 0x7_0000_0001);
    assert!(s.maps.is_empty());
    assert_eq!(s.census(), Session::detached_proc(7).census());
    assert_eq!((s.proc.pid, s.proc.comm), (0, [0u8; 16]));
    assert_eq!(s.osdesc_gpu, None);
    assert_eq!(s.fail_logs, 0);
}

#[test]
fn failed_cancellation_stops_the_device() {
    let mut d = NvrmDevice::new();
    let req = Req { seq: 5, kind: Kind::ProcGone, guest_proc: 7, ..Req::default() };
    assert_eq!(d.begin_gone(&req, false).err().unwrap().ret, -libc::EIO);
    let Route::Refused(rsp) = d.route(Some(&req)) else {
        panic!("a device whose event path failed went on");
    };
    assert_eq!((rsp.seq, rsp.ret), (5, -libc::EIO));
}

#[test]
fn events_say_what_fired_and_are_counted() {
    let mut c = EventChannel::new();
    let w = c.wake(7, 3);
    assert_eq!((w.seq, w.class, w.token, w.guest_proc), (1, 0x79, 3, 7));
    assert!(w.detail.is_none());
    let reg = EventReg {
        id: 4,
        token: 3,
        h_client: 5,
        h_event: 6,
        notify_index: 8,
        class: 0x7e,
        guest_data: 0xabcd,
    };
    let f = c.fired(7, &Fired { reg, info32: 9 });
    assert_eq!((f.seq, f.class, f.token), (2, 0x7e, 3));
    let d = f.detail.unwrap();
    assert_eq!((d.info32, d.h_client, d.id, d.h_event), (9, 5, 4, 6));
    assert_eq!((d.notify_index, d.data), (8, 0xabcd));
    let r = RegistrationId { event_id: 12, generation: 1 };
    let s = c.waiter(7, r, (5, 0xbeef, 3));
    let d = s.detail.unwrap();
    assert_eq!((s.class, s.token, d.h_event, d.data, d.id), (0x7e, 3, 0, 0xbeef, 12));
    assert_eq!(c.push_event(Delivery::NoQueue), (false, false));
    assert_eq!(c.push_event(Delivery::NoSlot), (false, false));
    assert_eq!(c.push_event(Delivery::Delivered), (true, true));
    assert_eq!(c.push_event(Delivery::Delivered), (true, false));
    assert_eq!((c.delivered, c.wakes), (2, 2));
    assert_eq!((c.dropped_noslot, c.dropped_noqueue), (1, 1));
}

#[test]
fn messages_have_bounds_and_answers_have_room() {
    let l = limits();
    assert!(refused_length(&l, 256).is_none());
    assert!(refused_length(&l, 2 << 20).is_none());
    for avail in [0, 255, (2 << 20) + 1] {
        let rsp = refused_length(&l, avail).unwrap();
        assert_eq!((rsp.seq, rsp.ret), (0, -libc::EMSGSIZE));
    }
    let reply = || Reply { rsp: Rsp::ok(6, 1), bytes: vec![1, 2, 3] };
    assert_eq!(fitted(&l, reply(), 35).bytes, vec![1, 2, 3]);
    for room in [0, 31, 34] {
        let r = fitted(&l, reply(), room);
        assert_eq!((r.rsp.seq, r.rsp.ret, r.bytes.len()), (6, -libc::EMSGSIZE, 0));
    }
}

#[test]
fn every_kind_has_its_part_of_the_session() {
    let kind = |kind: Kind| task_of(&Req { seq: 4, kind, ..Req::default() });
    assert_eq!(kind(Kind::Hello), Task::Hello);
    assert_eq!(kind(Kind::Open), Task::Open);
    assert_eq!(kind(Kind::Close), Task::Close);
    assert_eq!(kind(Kind::Ioctl), Task::Ioctl);
    assert_eq!(kind(Kind::MapPrepare), Task::MapPrepare);
    assert_eq!(kind(Kind::UvmPoolBack), Task::PoolBack);
    assert_eq!(kind(Kind::Unknown), Task::Refused(Rsp::err(4, libc::EPROTO)));
}

#[test]
fn the_device_says_what_it_is() {
    assert_eq!(VIRTIO_ID_NVRM, 60);
    assert_eq!(FEATURES, (1 << 32) | (1 << 30) | (1 << 28));
    assert_eq!(wakeup(0, true, true), Wakeup::Requests);
    assert_eq!(wakeup(1, true, true), Wakeup::Nothing);
    assert_eq!(wakeup(3, true, true), Wakeup::Events);
    assert_eq!(wakeup(3, true, false), Wakeup::Nothing);
    assert_eq!(wakeup(0, false, true), Wakeup::Nothing);
}

#[test]
fn the_census_adds_up_the_sessions() {
    let t = tally(&vec![[1, 10, 2, 3, 4, 5, 1], [2, 20, 0, 0, 1, u64::MAX, 0]]);
    assert_eq!(t, [3, 30, 2, 3, 5, u64::MAX, 1]);
    assert_eq!(outside_sessions(100, &[3, 30, 2, 3, 5, 6, 1]), 80);
    assert_eq!(outside_sessions(0, &[3, 30, 2, 3, 5, 6, 1]), -20);
}

fn watched(d: &mut NvrmDevice, proc: u32, p: Pollable) -> u64 {
    let Watching::Add { id, src, .. } = d.polls.register(proc, p) else {
        panic!("not watched");
    };
    d.polls.added(id, src);
    id
}

fn registered(h_event: u32) -> EventReg {
    EventReg {
        id: 4,
        token: 1,
        h_client: 5,
        h_event,
        notify_index: 8,
        class: 0x7e,
        guest_data: 0xabcd,
    }
}

#[test]
fn a_control_descriptor_is_drained_until_it_is_gone() {
    let mut d = NvrmDevice::new();
    let mut s = Session::detached_proc(7);
    s.events.adopt_ctl(5, 11);
    s.events.file(registered(6));
    d.put(s);
    let id = watched(&mut d, 7, Pollable::EventCtl { h_client: 5, fd: 11 });

    let Poll::Drain { guest_proc, fd, mut drain } = d.on_poll(id, false) else {
        panic!("not drained");
    };
    assert_eq!((guest_proc, fd, drain.h_client), (7, 11, 5));
    let req = Req { guest_proc: 7, ..Req::default() };
    let mut s = d.session_for(&req).ok().unwrap();
    let answer = EventAnswer {
        ret: 0,
        status: 0,
        more: 1,
        h_object: 6,
        notify_index: 8,
        info32: 3,
    };
    assert!(s.events.drain_os_events(&mut drain, answer), "there is more");
    assert!(!s.events.drain_os_events(&mut drain, EventAnswer { ret: -1, ..answer }));
    assert_eq!(drain.close, Some(11));
    d.put(s);
    let (messages, gone) = d.drained(id, 7, 5, &drain.out);
    assert_eq!(messages.len(), 1);
    assert_eq!((messages[0].seq, messages[0].token), (1, 1));
    assert_eq!(messages[0].detail.unwrap().info32, 3);
    assert!(matches!(gone, Poll::Forget(Some(11))), "it closed with the failure");
    assert!(matches!(d.on_poll(id, false), Poll::Nothing), "an unknown number");
}

#[test]
fn a_watch_without_its_session_is_forgotten() {
    let mut d = NvrmDevice::new();
    let ctl = watched(&mut d, 7, Pollable::EventCtl { h_client: 5, fd: 11 });
    let own = watched(&mut d, 7, Pollable::Client { token: 3, fd: 12, owner: None });
    assert!(matches!(d.on_poll(ctl, false), Poll::Forget(Some(11))));
    let Poll::Send(m) = d.on_poll(own, false) else {
        panic!("the guest is not woken");
    };
    assert_eq!((m.seq, m.token, m.guest_proc), (1, 3, 7));
    assert!(matches!(d.on_poll(own, true), Poll::Forget(Some(12))));
    assert!(matches!(d.on_poll(own, true), Poll::Forget(None)));
    let notify = d.polls.begin_notify();
    d.polls.added(notify, PollSrc::WaiterNotify);
    assert!(matches!(d.on_poll(notify, false), Poll::Waiters));
    assert!(matches!(d.on_poll(notify, true), Poll::Fatal));
    assert!(d.polls.can_add());
}

#[test]
fn waiters_that_fired_are_heard_of_once() {
    let mut d = NvrmDevice::new();
    let mut s = Session::detached_proc(7);
    s.events.arm(Waiter {
        slot: WaiterSlot { ctl: 20, id: 2 },
        generation: 9,
        target: WaiterTarget { surface: 1, index: 2, wait_value: 3 },
        h_client: 5,
        guest_kc: 0xbeef,
        token: 1,
    });
    d.put(s);
    let fired = |guest_proc, generation| WaiterFired {
        guest_proc,
        registration: RegistrationId { event_id: 2, generation },
    };
    let out = d.waiters_fired(&[fired(8, 9), fired(7, 8), fired(7, 9), fired(7, 9)]);
    assert_eq!(out.len(), 1, "no session, a stale use, the waiter, and nothing again");
    let detail = out[0].detail.unwrap();
    assert_eq!((out[0].guest_proc, detail.data, detail.id), (7, 0xbeef, 2));
    assert_eq!(d.channel.wakes, 1);
}
