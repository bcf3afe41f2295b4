use vhost_user_nvrm::abi::{
    Abi, AnswerFields, Controls, Escapes, Field, HeapFunctions, InfoIndices, OsdescNumbers,
    UvmNumbers, NV_ERR_NO_MEMORY, NV_OK,
};
use vhost_user_nvrm::mediate::{
    guest_card_name, rewrite_fb_info, rewrite_fb_info_list, rewrite_get_pid_info, rewrite_get_pids,
    rewrite_gpu_name, rewrite_vidheap_info, FBINFO_ENTRY, FBINFO_LIST_OFF, FBINFO_MAX, NAME_MAX,
    NAME_OFF, PIDINFO_COUNT_OFF, PIDINFO_ENTRY, PIDINFO_LEN, PIDINFO_LIST_OFF, PIDINFO_MAX,
    PIDINFO_MEM_PRIVATE, PIDS_COUNT_OFF, PIDS_LEN, PIDS_MAX, PIDS_TBL_OFF,
};
use vhost_user_nvrm::profile::{
    decide, encoder_capacity, profile_of, Note, ProfileError, RawEnv, Setting,
    DEFAULT_RESERVATION_MIB,
};
use vhost_user_nvrm::vram::{
    request_bytes, vidheap_attr_out, vidheap_function, vidheap_handle, vidheap_request_bytes, Ask,
    Books, Charge, Door, Ledger, Policy, ProcRow, Profile, ALLOC_FLAGS_VIRTUAL, LOCATION_ANY,
    LOCATION_PCI, LOCATION_VIDMEM, P_ATTR, P_FLAGS, P_LEN, P_SIZE, VA_ATTR, VA_FLAGS, VA_SIZE,
    V_FREE, V_FUNCTION, V_LEN, V_TOTAL,
};

fn abi() -> Abi {
    Abi {
        escapes: Escapes {
            rm_alloc: 0x2b,
            rm_alloc_object: 0x28,
            rm_alloc_memory: 0x27,
            rm_free: 0x29,
            rm_control: 0x2a,
            rm_dup_object: 0x34,
            rm_share: 0x35,
            rm_map_memory: 0x4e,
            rm_unmap_memory: 0x4f,
            rm_vid_heap_control: 0x4a,
            rm_bind_context_dma: 0x49,
            rm_map_memory_dma: 0x57,
            rm_unmap_memory_dma: 0x58,
            alloc_os_event: 206,
            free_os_event: 207,
            attach_gpus_to_fd: 212,
        },
        heap: HeapFunctions {
            alloc_size: 2,
            free: 3,
            info: 5,
            hw_alloc: 20,
            alloc_os_descriptor: 27,
        },
        controls: Controls {
            gpu_get_pids: 0x2080018d,
            gpu_get_pid_info: 0x2080018e,
            fb_get_info: 0x20801301,
            fb_get_info_v2: 0x20801303,
            gpu_get_name_string: 0x20800110,
            gpu_get_virtualization_mode: 0x800289,
            gpu_get_encoder_capacity: 0x2080016c,
            semsurf_register_waiter: 0xda0005,
            semsurf_unregister_waiter: 0xda0006,
            gpu_get_gid_info: 0x2080014a,
            gpu_get_uuid_info: 0x274,
            gpu_get_uuid_from_gpu_id: 0x275,
        },
        info: InfoIndices {
            ram_size: 7,
            total_ram_size: 8,
            heap_size: 9,
            heap_free: 0x14,
            usable_ram_size: 0x25,
            video_memory_usage: 0,
        },
        answers: AnswerFields {
            virtmode_len: 8,
            virtmode_gridbuild: 4,
            enccap_len: 8,
            enccap_off: 4,
        },
        nvos54_serialized: 1,
        nvos64_serialized: 2,
        class_root_client: 0x41,
        uvm: UvmNumbers {
            register_gpu_vaspace: 25,
            register_channel: 27,
            unregister_channel: 28,
            map_external_allocation: 33,
            register_gpu: 37,
            free: 34,
            unregister_channel_client: 16,
            free_len: 24,
            free_status: 16,
            free_base: 0,
            free_length: 8,
        },
        osdesc: OsdescNumbers {
            len: 128,
            attr_off: 20,
            attr2_off: 24,
            limit_off: 64,
            coherency: Field { lo: 29, mask: 0x7 },
            uncached: 0,
            cached: 1,
            write_combine: 2,
            write_through: 3,
            write_protect: 4,
            write_back: 5,
            gpu_cacheable: Field { lo: 2, mask: 0x3 },
            gpu_cacheable_yes: 1,
            flags_physicality: Field { lo: 4, mask: 0xf },
            flags_noncontiguous: 1,
            flags_location: Field { lo: 8, mask: 0xf },
            flags_pci: 0,
            flags_coherency: Field { lo: 12, mask: 0xf },
            flags_write_back: 5,
            flags_gpu_cacheable: Field { lo: 18, mask: 0x1 },
            flags_gpu_cacheable_yes: 1,
            flags_gpu_cacheable_no: 0,
            flags_mapping: Field { lo: 30, mask: 0x3 },
            flags_no_map: 1,
        },
    }
}

const MIB: u64 = 1 << 20;

fn at_location(v: u32) -> u32 {
    v << 25
}

fn vidmem_attr() -> u32 {
    at_location(LOCATION_VIDMEM)
}

/// The exact `NV_MEMORY_ALLOCATION_PARAMS` bytes of a measured request.
fn params(flags: u32, attr: u32, size: u64) -> Vec<u8> {
    let mut v = vec![0u8; P_LEN];
    v[P_FLAGS..P_FLAGS + 4].copy_from_slice(&flags.to_le_bytes());
    v[P_ATTR..P_ATTR + 4].copy_from_slice(&attr.to_le_bytes());
    v[P_SIZE..P_SIZE + 8].copy_from_slice(&size.to_le_bytes());
    v
}

fn charge(token: u64, root: u32, handle: u32, bytes: u64) -> Charge {
    Charge { token, root, parent: 0x5c000002, handle, bytes }
}

#[test]
fn the_measured_requests_are_classified_as_measured() {
    // 512 MiB VRAM block, torch (hClass 0x40).
    assert_eq!(
        request_bytes(0x40, &params(0x1c101, 0x18000000, 0x2000_0000)),
        Some(0x2000_0000)
    );
    // Sysmem staging buffer (hClass 0x3e, LOCATION_PCI).
    assert_eq!(request_bytes(0x3e, &params(0xc001, 0x3a000000, 0x1000)), None);
    // A 4.2 GB virtual reservation consumes no physical framebuffer.
    assert_eq!(request_bytes(0x50a0, &params(0x8c415, 0x16000000, 0xfb00_0000)), None);
    // 0x71 carries a 40-byte struct; it must never be decoded here.
    assert_eq!(request_bytes(0x71, &params(0, 0, 0x2000_0000)), None);
    // Short aux is not this struct.
    assert_eq!(request_bytes(0x40, &params(0x1c101, 0x18000000, 1)[..64]), None);
}

#[test]
fn only_vidmem_on_the_video_memory_class_is_charged() {
    let (vid, pci, any) =
        (at_location(LOCATION_VIDMEM), at_location(LOCATION_PCI), at_location(LOCATION_ANY));
    assert_eq!(request_bytes(0x40, &params(0, vid, 4096)), Some(4096));
    assert_eq!(request_bytes(0x40, &params(0, any, 4096)), None, "RM refuses ANY on 0x40");
    assert_eq!(request_bytes(0x40, &params(0, pci, 4096)), None, "and PCI");
    for attr in [vid, pci, any] {
        assert_eq!(request_bytes(0x3e, &params(0, attr, 4096)), None, "0x3e is system memory");
        assert_eq!(request_bytes(0x50a0, &params(0, attr, 4096)), None, "0x50a0 is address space");
    }
    // PROTECTED 0x3e comes BACK as VIDMEM and is still sysmem: it must
    // not be charged on the way in, because settle would keep it.
    const ALLOC_FLAGS_PROTECTED: u32 = 0x0100_0000;
    assert_eq!(request_bytes(0x3e, &params(ALLOC_FLAGS_PROTECTED, any, 4096)), None);

    // The other door: RM picks the class from the same two fields.
    let ask = |flags, attr| {
        vidheap_request_bytes(&abi(), &nvos32(abi().heap.alloc_size, flags, attr, 4096))
    };
    assert_eq!(ask(0, vid), Some(4096), "VIDMEM -> 0x40");
    assert_eq!(ask(0, any), None, "ANY -> 0x3e, system memory");
    assert_eq!(ask(0, pci), None, "PCI -> 0x3e");
    assert_eq!(ask(ALLOC_FLAGS_VIRTUAL, vid), None, "VIRTUAL -> 0x50a0");
}

#[test]
fn a_charge_whose_attr_comes_back_elsewhere_is_given_back() {
    let mut led = Ledger::for_test(1 << 20);
    let mut b = Books::new(7);
    assert!(b.reserve(&mut led, 4096));
    assert_eq!(led.used(), 4096);
    // RM wrote something other than VIDMEM back -> the charge goes back.
    b.settle(&mut led, true, at_location(LOCATION_PCI), charge(1, 0xc1d8, 0x5c0000ab, 4096));
    assert_eq!(led.used(), 0);
}

#[test]
fn a_refused_alloc_gives_its_reservation_back() {
    let mut led = Ledger::for_test(1 << 20);
    let mut b = Books::new(7);
    assert!(b.reserve(&mut led, 4096));
    b.settle(&mut led, false, 0, charge(1, 0xc1d8, 0x5c0000ab, 4096));
    assert_eq!(led.used(), 0);
    assert_eq!(b.owed(), 0);
}

#[test]
fn the_cap_refuses_and_lets_go_again() {
    let mut led = Ledger::for_test(8192);
    let mut b = Books::new(7);

    assert!(b.reserve(&mut led, 4096));
    b.settle(&mut led, true, vidmem_attr(), charge(1, 0xc1d8, 0xaa, 4096));
    assert!(b.reserve(&mut led, 4096));
    b.settle(&mut led, true, vidmem_attr(), charge(1, 0xc1d8, 0xbb, 4096));
    assert_eq!(led.used(), 8192);

    // Full.
    assert!(!b.reserve(&mut led, 1));

    // One handle freed -> room again.
    b.free_object(&mut led, 0xc1d8, 0xaa);
    assert_eq!(led.used(), 4096);
    assert!(b.reserve(&mut led, 4096));
}

#[test]
fn freeing_a_parent_or_a_client_takes_the_children() {
    for victim in [0x5c000002u32, 0xc1d8u32] {
        let mut led = Ledger::for_test(1 << 30);
        let mut b = Books::new(7);
        for h in [0xaau32, 0xbb, 0xcc] {
            assert!(b.reserve(&mut led, 4096));
            b.settle(&mut led, true, vidmem_attr(), charge(1, 0xc1d8, h, 4096));
        }
        assert_eq!(led.used(), 12288);
        b.free_object(&mut led, 0xc1d8, victim);
        assert_eq!(led.used(), 0, "freeing {victim:#x} must take the memory objects");
    }
}

/// Equal handles in separate clients must retain independent charges.
#[test]
fn two_clients_may_use_the_same_handle_number() {
    let mut led = Ledger::for_test(1 << 30);
    let mut b = Books::new(7);

    assert!(b.reserve(&mut led, 4096));
    b.settle(&mut led, true, vidmem_attr(), charge(1, 0xc1d8, 0xaa, 4096));
    assert!(b.reserve(&mut led, 4096));
    b.settle(&mut led, true, vidmem_attr(), charge(1, 0xdddd, 0xaa, 4096));
    assert_eq!(led.used(), 8192, "two clients, two charges");

    b.free_object(&mut led, 0xc1d8, 0xaa);
    assert_eq!(led.used(), 4096, "only the first client's object went");
    b.free_object(&mut led, 0xdddd, 0xaa);
    assert_eq!(led.used(), 0);
}

#[test]
fn an_object_handle_matching_another_client_does_not_release_that_client() {
    let mut ledger = Ledger::for_test(8192);
    let mut books = Books::new(7);
    for (root, handle) in [(1, 2), (2, 3)] {
        assert!(books.reserve(&mut ledger, 4096));
        books.settle(
            &mut ledger,
            true,
            vidmem_attr(),
            Charge { token: 1, root, parent: 4, handle, bytes: 4096 },
        );
    }
    books.free_object(&mut ledger, 1, 2);
    assert_eq!(ledger.used(), 4096);
    assert_eq!(books.owed(), 4096);
    assert!(books.charge_of(2, 3).is_some());
    assert!(books.charge_of(1, 2).is_none());

    books.free_object(&mut ledger, 2, 2);
    assert_eq!(ledger.used(), 0);
}

#[test]
fn closing_the_fd_takes_what_rode_on_it() {
    let mut led = Ledger::for_test(1 << 30);
    let mut b = Books::new(7);
    b.reserve(&mut led, 4096);
    b.settle(&mut led, true, vidmem_attr(), charge(1, 0xc1d8, 0xaa, 4096));
    b.reserve(&mut led, 4096);
    b.settle(&mut led, true, vidmem_attr(), charge(2, 0xdddd, 0xbb, 4096));

    b.close_token(&mut led, 1);
    assert_eq!(led.used(), 4096, "only the charge on token 1 goes");
    b.close_token(&mut led, 2);
    assert_eq!(led.used(), 0);
}

#[test]
fn a_dying_session_pays_its_debt() {
    let mut led = Ledger::for_test(1 << 30);
    let mut b = Books::new(7);
    for h in 0..10u32 {
        assert!(b.reserve(&mut led, 1 << 20));
        b.settle(&mut led, true, vidmem_attr(), charge(1, 0xc1d8, h, 1 << 20));
    }
    assert_eq!(led.used(), 10 << 20);
    b.close(&mut led);
    assert_eq!(led.used(), 0, "closing settles what no message ever announced");
}

#[test]
fn a_guest_word_cannot_wrap_the_counter() {
    let mut led = Ledger::for_test(1 << 20);
    let mut b = Books::new(7);
    assert!(b.reserve(&mut led, 4096));
    // 4096 + (u64::MAX - 4095) must be refused, not wrap to zero.
    assert!(!b.reserve(&mut led, u64::MAX - 4095));
    assert!(!b.reserve(&mut led, u64::MAX));
    assert_eq!(led.used(), 4096);
}

#[test]
fn counter_overflow_is_refused_without_losing_existing_charges() {
    for mut ledger in [Ledger::off(), Ledger::for_test(u64::MAX)] {
        assert!(ledger.charge(u64::MAX - 1));
        assert!(!ledger.charge(2));
        assert_eq!(ledger.used(), u64::MAX - 1);
        assert!(ledger.charge(1));
        assert_eq!(ledger.used(), u64::MAX);
        assert!(!ledger.charge(1));
        ledger.release(u64::MAX);
        assert_eq!(ledger.used(), 0);
    }
}

/// Guest process usage is counted even when no VRAM cap is configured.
#[test]
fn with_no_limit_the_books_still_count() {
    let mut led = Ledger::off();
    assert!(!led.enabled(), "no limit is set");
    let mut b = Books::new(7);

    assert!(b.reserve(&mut led, 8 << 30), "no configured VRAM cap");
    b.settle(&mut led, true, vidmem_attr(), charge(1, 0xc1d8, 0xaa, 8 << 30));
    assert_eq!(led.used(), 8 << 30, "and it is still counted");
    assert_eq!(b.owed(), 8 << 30);

    // Overflow must not accept bytes that the ledger cannot count.
    assert!(!b.reserve(&mut led, u64::MAX));
    assert_eq!(led.used(), 8 << 30);
}

/// The roster is what the process list is built from: it appears with
/// the identity, tracks the bytes, and leaves with the session.
#[test]
fn the_roster_follows_the_session() {
    let mut led = Ledger::off();
    let mut b = Books::new(7);
    assert!(led.roster().is_empty(), "no identity yet, no row");

    b.announce(&mut led, 4711, "python3");
    assert_eq!(led.roster().len(), 1);
    assert_eq!(led.roster()[0].guest_pid, 4711);
    assert_eq!(led.roster()[0].bytes, 0);

    b.reserve(&mut led, 4 << 20);
    b.settle(&mut led, true, vidmem_attr(), charge(1, 0xc1d8, 0xaa, 4 << 20));
    assert_eq!(led.roster()[0].bytes, 4 << 20, "the row tracks the bytes");

    b.free_object(&mut led, 0xc1d8, 0xaa);
    assert_eq!(led.roster()[0].bytes, 0, "and follows them back down");
    b.close(&mut led);
    assert!(led.roster().is_empty(), "the row dies with the session");
}

fn pids_buf() -> Vec<u8> {
    // As RM leaves it: three HOST pids, count 3.
    let mut v = vec![0u8; PIDS_LEN];
    v[PIDS_COUNT_OFF..PIDS_COUNT_OFF + 4].copy_from_slice(&3u32.to_le_bytes());
    for (i, pid) in [1036u32, 276821, 3085239].iter().enumerate() {
        let o = PIDS_TBL_OFF + 4 * i;
        v[o..o + 4].copy_from_slice(&pid.to_le_bytes());
    }
    v
}

fn u32_at(v: &[u8], o: usize) -> u32 {
    u32::from_le_bytes(v[o..o + 4].try_into().unwrap())
}

fn u64_at(v: &[u8], o: usize) -> u64 {
    u64::from_le_bytes(v[o..o + 8].try_into().unwrap())
}

fn pid_at(v: &[u8], i: usize) -> u32 {
    u32_at(v, PIDS_TBL_OFF + 4 * i)
}

fn two_processes() -> Vec<ProcRow> {
    vec![
        ProcRow { guest_pid: 4674, bytes: 380 << 20, name: "python3".into() },
        ProcRow { guest_pid: 4676, bytes: 648 << 20, name: "python3".into() },
    ]
}

#[test]
fn the_host_pids_do_not_survive_the_rewrite() {
    let mut v = pids_buf();
    assert_eq!(pid_at(&v, 0), 1036, "RM really did put a host PID there");
    assert_eq!(rewrite_get_pids(&mut v, &two_processes()), Some(2));
    assert_eq!(u32_at(&v, PIDS_COUNT_OFF), 2);
    assert_eq!(pid_at(&v, 0), 4674);
    assert_eq!(pid_at(&v, 1), 4676);
    assert_eq!(pid_at(&v, 2), 0, "the third host PID was overwritten, not left behind");
    for i in 2..PIDS_MAX {
        assert_eq!(pid_at(&v, i), 0, "no host PID survives anywhere in the table");
    }
}

/// A short PID buffer must not be interpreted or partially rewritten.
#[test]
fn a_short_pids_buffer_is_refused_not_guessed() {
    let mut v = vec![0u8; PIDS_LEN - 1];
    assert_eq!(rewrite_get_pids(&mut v, &[]), None);
}

fn info_buf(entries: &[(u32, u32)], len: usize) -> Vec<u8> {
    let mut v = vec![0u8; len];
    v[PIDINFO_COUNT_OFF..PIDINFO_COUNT_OFF + 4]
        .copy_from_slice(&(entries.len() as u32).to_le_bytes());
    for (i, (pid, index)) in entries.iter().enumerate() {
        let b = PIDINFO_LIST_OFF + PIDINFO_ENTRY * i;
        v[b..b + 4].copy_from_slice(&pid.to_le_bytes());
        v[b + 4..b + 8].copy_from_slice(&index.to_le_bytes());
        // RM's answer about a host process, which must not survive.
        let o = b + PIDINFO_MEM_PRIVATE;
        v[o..o + 8].copy_from_slice(&(999u64 << 20).to_le_bytes());
    }
    v
}

fn priv_at(v: &[u8], i: usize) -> u64 {
    u64_at(v, PIDINFO_LIST_OFF + PIDINFO_ENTRY * i + PIDINFO_MEM_PRIVATE)
}

#[test]
fn pid_info_is_answered_from_our_own_books() {
    let mut v = info_buf(&[(4674, 0), (4676, 0), (9999, 0)], PIDINFO_LEN);
    assert_eq!(rewrite_get_pid_info(&abi(), &mut v, &two_processes()), Some(3));
    assert_eq!(priv_at(&v, 0), 380 << 20);
    assert_eq!(priv_at(&v, 1), 648 << 20);
    assert_eq!(priv_at(&v, 2), 0, "a PID that is not ours holds nothing of ours");
    for i in 0..3 {
        assert_eq!(u32_at(&v, PIDINFO_LIST_OFF + PIDINFO_ENTRY * i + 8), NV_OK);
    }
}

/// A claimed entry count cannot permit writes beyond the received buffer.
#[test]
fn a_lying_count_cannot_write_past_the_buffer() {
    // Room for two entries, but the guest claims the header maximum.
    let len = PIDINFO_LIST_OFF + 2 * PIDINFO_ENTRY;
    let mut v = vec![0u8; len];
    v[PIDINFO_COUNT_OFF..PIDINFO_COUNT_OFF + 4]
        .copy_from_slice(&(PIDINFO_MAX as u32).to_le_bytes());
    assert_eq!(rewrite_get_pid_info(&abi(), &mut v, &[]), Some(2), "clamped to what fits");
    assert_eq!(
        u32_at(&v, PIDINFO_COUNT_OFF),
        2,
        "and the guest is told the truth about how many it got"
    );
}

fn fb_buf(entries: &[(u32, u32)]) -> Vec<u8> {
    let mut v = vec![0u8; FBINFO_LIST_OFF + FBINFO_ENTRY * FBINFO_MAX];
    v[0..4].copy_from_slice(&(entries.len() as u32).to_le_bytes());
    for (i, (index, data)) in entries.iter().enumerate() {
        let o = FBINFO_LIST_OFF + FBINFO_ENTRY * i;
        v[o..o + 4].copy_from_slice(&index.to_le_bytes());
        v[o + 4..o + 8].copy_from_slice(&data.to_le_bytes());
    }
    v
}

fn fb_at(v: &[u8], i: usize) -> u32 {
    u32_at(v, FBINFO_LIST_OFF + FBINFO_ENTRY * i + 4)
}

/// A capped response must report consistent total, heap and free sizes.
#[test]
fn the_capped_card_does_not_contradict_itself() {
    let x = abi().info;
    let mut v =
        fb_buf(&[(x.heap_free, 0x69f000), (x.total_ram_size, 0x800000), (x.heap_size, 0x797240)]);
    let limit = 2048u64 << 20;
    let used = 982u64 << 20;
    assert_eq!(rewrite_fb_info(&abi(), &mut v, limit, used), Some(3));
    assert_eq!(fb_at(&v, 0), ((limit - used) / 1024) as u32, "free = limit - used");
    assert_eq!(fb_at(&v, 1), (limit / 1024) as u32);
    assert_eq!(fb_at(&v, 2), (limit / 1024) as u32);
    assert!(fb_at(&v, 0) < fb_at(&v, 1), "free below total, in every case");
}

/// Indices that are not sizes are RM's business and stay untouched.
#[test]
fn non_size_indices_are_left_alone() {
    let mut v = fb_buf(&[(0x1a, 0xf), (abi().info.heap_size, 0x797240), (0x23, 0x20)]);
    assert_eq!(rewrite_fb_info(&abi(), &mut v, 1 << 30, 0), Some(1));
    assert_eq!(fb_at(&v, 0), 0xf);
    assert_eq!(fb_at(&v, 2), 0x20);
}

/// Without a cap the VM has the whole card, and saying anything else
/// would be the lie.
#[test]
fn without_a_cap_the_card_keeps_its_size() {
    let mut v = fb_buf(&[(abi().info.heap_size, 0x797240)]);
    assert_eq!(rewrite_fb_info(&abi(), &mut v, 0, 0), None);
    assert_eq!(fb_at(&v, 0), 0x797240);
}

/// A bare `NV2080_CTRL_FB_INFO[]`, the way the V1 form delivers it:
/// no count word in front, because that one stays in the params buffer.
fn fb_list(entries: &[(u32, u32)]) -> Vec<u8> {
    let mut v = vec![0u8; FBINFO_ENTRY * entries.len()];
    for (i, &(index, data)) in entries.iter().enumerate() {
        let o = FBINFO_ENTRY * i;
        v[o..o + 4].copy_from_slice(&index.to_le_bytes());
        v[o + 4..o + 8].copy_from_slice(&data.to_le_bytes());
    }
    v
}

fn list_at(v: &[u8], i: usize) -> u32 {
    u32_at(v, FBINFO_ENTRY * i + 4)
}

/// Both doors must answer the same card.
#[test]
fn the_v1_door_answers_the_same_card_as_the_v2_door() {
    let x = abi().info;
    let entries =
        [(x.heap_free, 0x69f000), (x.total_ram_size, 0x800000), (x.heap_size, 0x797240)];
    let (limit, used) = (2048u64 << 20, 982u64 << 20);

    let mut v2 = fb_buf(&entries);
    let mut v1 = fb_list(&entries);
    assert_eq!(rewrite_fb_info(&abi(), &mut v2, limit, used), Some(3));
    assert_eq!(rewrite_fb_info_list(&abi(), &mut v1, 0, entries.len(), limit, used), Some(3));

    for i in 0..entries.len() {
        assert_eq!(
            list_at(&v1, i),
            fb_at(&v2, i),
            "entry {i}: the two doors disagree about the same card"
        );
    }
    assert_eq!(list_at(&v1, 1), (limit / 1024) as u32, "8 GiB card capped to 2 GiB");
}

/// The count comes from the params buffer, the room from the nested
/// block, and a mismatch must clamp rather than read past the end.
#[test]
fn the_v1_list_never_reads_past_its_block() {
    let mut v = fb_list(&[(abi().info.heap_size, 0x797240)]);
    // The guest claims 128 entries and sent room for one.
    assert_eq!(rewrite_fb_info_list(&abi(), &mut v, 0, 128, 1 << 30, 0), Some(1));
    assert_eq!(list_at(&v, 0), (1u64 << 30) as u32 / 1024);
}

/// An NVOS32_PARAMETERS with an ALLOC_SIZE member.
fn nvos32(function: u32, flags: u32, attr: u32, size: u64) -> Vec<u8> {
    let mut v = vec![0u8; V_LEN];
    v[V_FUNCTION..V_FUNCTION + 4].copy_from_slice(&function.to_le_bytes());
    v[VA_FLAGS..VA_FLAGS + 4].copy_from_slice(&flags.to_le_bytes());
    v[VA_ATTR..VA_ATTR + 4].copy_from_slice(&attr.to_le_bytes());
    v[VA_SIZE..VA_SIZE + 8].copy_from_slice(&size.to_le_bytes());
    v
}

#[test]
fn the_vid_heap_door_charges_what_the_alloc_door_charges() {
    let size = 256u64 << 20;
    let attr = vidmem_attr();
    let nvos64 = params(0, attr, size);
    let nvos32 = nvos32(abi().heap.alloc_size, 0, attr, size);
    assert_eq!(request_bytes(0x0040, &nvos64), Some(size));
    assert_eq!(vidheap_request_bytes(&abi(), &nvos32), Some(size), "the other door must agree");
}

/// The three refusals are the same three, in the same order.
#[test]
fn the_vid_heap_door_ignores_what_the_alloc_door_ignores() {
    let size = 64u64 << 20;
    let f = abi().heap.alloc_size;
    let ask = |flags, attr, size| vidheap_request_bytes(&abi(), &nvos32(f, flags, attr, size));
    assert_eq!(
        ask(ALLOC_FLAGS_VIRTUAL, vidmem_attr(), size),
        None,
        "a virtual reservation holds no memory"
    );
    assert_eq!(ask(0, at_location(LOCATION_PCI), size), None, "sysmem is not this cap's business");
    assert_eq!(
        ask(0, at_location(LOCATION_ANY), size),
        None,
        "neither is ANY, which RM allocates as 0x3e"
    );
    assert_eq!(ask(0, vidmem_attr(), 0), None, "a zero-size allocation is RM's problem");
}

/// Other NVOS32 union variants must not be interpreted as AllocSize:
/// FREE, INFO, ALLOC_SIZE_RANGE and HW_FREE.
#[test]
fn only_alloc_size_is_an_allocation() {
    for f in [abi().heap.free, abi().heap.info, 14, 21] {
        let mut v = nvos32(f, 0, vidmem_attr(), 4 << 20);
        // Whatever those bytes mean for THIS function, they are not a
        // size, and nothing may be charged for them.
        v[VA_SIZE..VA_SIZE + 8].copy_from_slice(&u64::MAX.to_le_bytes());
        assert_eq!(vidheap_request_bytes(&abi(), &v), None, "function {f} is not an allocation");
    }
}

/// A buffer too short to be this struct is not this struct, and every
/// reader has to say so rather than index into it.
#[test]
fn a_short_buffer_is_never_an_nvos32() {
    for n in [0usize, 8, 40, V_LEN - 1] {
        let v = vec![0xffu8; n];
        assert_eq!(vidheap_function(&v), None, "len {n}");
        assert_eq!(vidheap_request_bytes(&abi(), &v), None, "len {n}");
        assert_eq!(vidheap_attr_out(&v), 0, "len {n}");
        assert_eq!(vidheap_handle(&v), 0, "len {n}");
        let mut w = v.clone();
        assert!(!rewrite_vidheap_info(&abi(), &mut w, 1 << 30, 0), "len {n}");
        assert_eq!(w, v, "len {n}: a short buffer is never written");
    }
}

/// The start of the union in an NVOS32 block.
const V_DATA: usize = 40;

/// An NVOS32_FUNCTION_INFO answer as the host RM gives it: its own heap
/// in `total`, its own free memory in `free`, both in bytes, and the
/// largest free block in `data.Info`.
fn nvos32_info(total: u64, free: u64) -> Vec<u8> {
    let mut v = nvos32(abi().heap.info, 0, 0, 0);
    v[V_TOTAL..V_TOTAL + 8].copy_from_slice(&total.to_le_bytes());
    v[V_FREE..V_FREE + 8].copy_from_slice(&free.to_le_bytes());
    v[V_DATA + 16..V_DATA + 24].copy_from_slice(&0x1234_5000u64.to_le_bytes());
    v
}

/// NVOS32 INFO must report the same cap as both FB_GET_INFO forms.
#[test]
fn the_nvos32_info_door_answers_the_same_card_as_fb_get_info() {
    let x = abi().info;
    let (limit, used) = (2816u64 << 20, 982u64 << 20);
    let mut info = nvos32_info(7771 << 20, 6100 << 20);
    assert!(rewrite_vidheap_info(&abi(), &mut info, limit, used));

    let mut v2 = fb_buf(&[(x.heap_free, 0x5d4000), (x.heap_size, 0x797240)]);
    assert_eq!(rewrite_fb_info(&abi(), &mut v2, limit, used), Some(2));
    assert_eq!(u64_at(&info, V_FREE), fb_at(&v2, 0) as u64 * 1024, "free agrees");
    assert_eq!(u64_at(&info, V_TOTAL), fb_at(&v2, 1) as u64 * 1024, "total agrees with the heap");
    assert_eq!(u64_at(&info, V_DATA + 16), 0x1234_5000, "data.Info is RM's and stays");
}

/// Past the limit there is nothing free, not a wrapped 16 EiB.
#[test]
fn nvos32_info_free_saturates_at_zero() {
    let mut info = nvos32_info(7771 << 20, 6100 << 20);
    assert!(rewrite_vidheap_info(&abi(), &mut info, 1 << 30, 2 << 30));
    assert_eq!(u64_at(&info, V_FREE), 0);
    assert_eq!(u64_at(&info, V_TOTAL), 1 << 30);
}

/// Only INFO fills `total`/`free`; every other function's bytes there are
/// RM's (zeroed) and must not be turned into a size. And without a cap
/// the VM has the whole card, on this door as on the others.
#[test]
fn nvos32_info_is_rewritten_only_for_info_and_only_under_a_cap() {
    for f in [abi().heap.alloc_size, abi().heap.free, 14, 21] {
        let v = nvos32(f, 0, vidmem_attr(), 4 << 20);
        let mut w = v.clone();
        assert!(!rewrite_vidheap_info(&abi(), &mut w, 1 << 30, 0), "function {f}");
        assert_eq!(w, v, "function {f}: untouched");
    }
    let v = nvos32_info(7771 << 20, 6100 << 20);
    let mut w = v.clone();
    assert!(!rewrite_vidheap_info(&abi(), &mut w, 0, 0));
    assert_eq!(w, v, "no cap: the host's answer stands");
}

/// Without a cap the V1 door stays honest too.
#[test]
fn without_a_cap_the_v1_door_keeps_the_card_size() {
    let mut v = fb_list(&[(abi().info.heap_size, 0x797240)]);
    assert_eq!(rewrite_fb_info_list(&abi(), &mut v, 0, 1, 0, 0), None);
    assert_eq!(list_at(&v, 0), 0x797240);
}

/// The name follows NVIDIA's own vGPU convention: the vendor prefix
/// gives way to the mediation layer, the profile size joins the name.
#[test]
fn the_card_says_what_it_is() {
    let real = "NVIDIA GeForce RTX 2070";
    assert_eq!(guest_card_name(real, Profile::off()), "Leandro RTX 2070");
    assert_eq!(guest_card_name(real, Profile::accounting(2048 << 20)), "Leandro RTX 2070-2G");
    assert_eq!(guest_card_name(real, Profile::accounting(1024 << 20)), "Leandro RTX 2070-1G");
    assert_eq!(guest_card_name(real, Profile::accounting(1536 << 20)), "Leandro RTX 2070-1536M");
    assert_eq!(
        guest_card_name("NVIDIA A100-SXM4-40GB", Profile::accounting(10240 << 20)),
        "Leandro A100-SXM4-40GB-10G"
    );
}

/// Exercise both fallback branches at the name-size boundary.
#[test]
fn a_name_that_does_not_fit_loses_the_suffix_whole() {
    // 8 + 53 + 3 = 64 -> does not fit, so the suffix goes as a unit
    // rather than being truncated into a wrong profile size.
    let b53 = "X".repeat(53);
    assert_eq!(
        guest_card_name(&format!("NVIDIA GeForce {b53}"), Profile::accounting(2048 << 20)),
        format!("Leandro {b53}")
    );
    // 8 + 56 = 64 -> even the bare name does not fit. Say the one thing
    // that matters and stop.
    let b56 = "X".repeat(56);
    assert_eq!(
        guest_card_name(&format!("NVIDIA GeForce {b56}"), Profile::accounting(2048 << 20)),
        "Leandro GPU"
    );
    // and the longest name that DOES fit still fits, to the last byte
    let b55 = "X".repeat(55);
    assert_eq!(guest_card_name(&format!("NVIDIA GeForce {b55}"), Profile::off()).len(), 63);
}

#[test]
fn the_name_is_written_nul_terminated() {
    let mut v = vec![0xffu8; NAME_OFF + NAME_MAX];
    let real = b"NVIDIA GeForce RTX 2070";
    v[NAME_OFF..NAME_OFF + real.len()].copy_from_slice(real);
    v[NAME_OFF + real.len()] = 0;
    assert_eq!(
        rewrite_gpu_name(&mut v, Profile::accounting(2048 << 20)).as_deref(),
        Some("Leandro RTX 2070-2G")
    );
    let end = v[NAME_OFF..].iter().position(|&c| c == 0).unwrap();
    assert_eq!(&v[NAME_OFF..NAME_OFF + end], b"Leandro RTX 2070-2G");
    assert!(v[NAME_OFF + end..].iter().all(|&c| c == 0), "the tail is padded, not left over");
}

/// A name that is no text is replaced where it is not.
#[test]
fn a_name_of_stray_bytes_is_read_with_replacements() {
    let mut v = vec![0u8; NAME_OFF + NAME_MAX];
    v[NAME_OFF..NAME_OFF + 4].copy_from_slice(b"A\xffB\0");
    assert_eq!(rewrite_gpu_name(&mut v, Profile::off()).unwrap(), "Leandro A\u{fffd}B");
}

/// Do not invent a display PID for a session without guest identity.
#[test]
fn a_process_without_an_identity_is_not_listed() {
    let mut led = Ledger::off();
    let b = Books::new(7);
    b.announce(&mut led, 0, "");
    assert!(led.roster().is_empty());
}

fn three<'a>(
    limit: Option<&'a str>,
    profile: Option<&'a str>,
    reserve: Option<&'a str>,
) -> RawEnv<'a> {
    RawEnv { limit, profile, reserve, ..RawEnv::default() }
}

fn grid<'a>(t: &'static str, profile: &'a str, fb: &'a str) -> RawEnv<'a> {
    RawEnv {
        vgpu_type: Some(t),
        vgpu_profile: Some(profile),
        vgpu_fb: Some(fb),
        ..RawEnv::default()
    }
}

/// The profile of the settings, with the encoder's share of a card.
fn chosen(env: &RawEnv, share: Option<u32>) -> Result<(Profile, Vec<Note>), ProfileError> {
    let (choice, notes) = decide(env)?;
    let p = match choice {
        None => Profile::off(),
        Some(c) => profile_of(&c, encoder_capacity(share, env.vgpu_encoder)),
    };
    Ok((p, notes))
}

fn ok(limit: Option<&str>, profile: Option<&str>, reserve: Option<&str>) -> Profile {
    chosen(&three(limit, profile, reserve), None).expect("configuration refused").0
}

/// The reason of a refusal in words, with the hints for sizes that were given with a unit.
fn reason(env: &RawEnv, hint: Option<u64>) -> String {
    let e = decide(env).unwrap_err();
    match e {
        ProfileError::Unusable(faults) => {
            let mut all = String::new();
            for f in faults {
                let raw = match f.setting {
                    Setting::Limit => env.limit,
                    Setting::Profile => env.profile,
                    Setting::Reserve => env.reserve,
                    Setting::VgpuProfile => env.vgpu_profile,
                    Setting::VgpuFb => env.vgpu_fb,
                };
                all.push_str(&f.text(raw.unwrap(), hint));
            }
            all
        }
        other => other.text().unwrap(),
    }
}

#[test]
fn the_default_configuration_has_no_policy() {
    assert_eq!(ok(None, None, None), Profile::off());
    // ... and neither has the shape the rig actually passes.
    let (p, notes) = chosen(&three(Some(""), Some(""), Some("")), None).unwrap();
    assert_eq!(p, Profile::off());
    assert!(notes.is_empty(), "an unset knob is not worth a warning: {notes:?}");
}

#[test]
fn the_old_cap_is_the_guests_number_and_reserves_nothing() {
    let p = ok(Some("3072"), None, None);
    assert_eq!(p.policy, Policy::Accounting);
    assert_eq!(p.size, 3072 * MIB);
    assert_eq!(p.reservation, 0, "accounting reserves nothing, and says so");
    assert_eq!(p.fb_length, 3072 * MIB);
    assert_eq!(p.announce().unwrap(), "VRAM cap 3072 MiB for this VM (LEA_VRAM_LIMIT_MIB)");
}

#[test]
fn a_profile_is_the_cards_number_and_the_reservation_comes_off_it() {
    let p = ok(None, Some("3072"), None);
    assert_eq!(p.policy, Policy::Reserved);
    assert_eq!(p.size, 3072 * MIB, "what the VM may cost the card");
    assert_eq!(p.reservation, DEFAULT_RESERVATION_MIB * MIB);
    assert_eq!(p.fb_length, (3072 - DEFAULT_RESERVATION_MIB) * MIB);
    assert_eq!(
        p.size,
        p.fb_length + p.reservation,
        "the three numbers are one arithmetic, not three settings"
    );
    // The reservation has to be larger than the measured overhead of a
    // backend, or it does not cover what it exists to cover.
    assert!(p.reservation > 175 * MIB);
}

#[test]
fn the_reservation_is_a_knob_because_the_measurement_is_a_measurement() {
    let p = ok(None, Some("3072"), Some("300"));
    assert_eq!(p.reservation, 300 * MIB);
    assert_eq!(p.fb_length, 2772 * MIB);
}

#[test]
fn two_policies_for_one_number_are_refused_rather_than_ranked() {
    let e = reason(&three(Some("3072"), Some("3072"), None), None);
    assert!(e.contains("both set"), "{e}");
    // Neither wins by being first, last or larger.
    assert!(decide(&three(Some("1024"), Some("8192"), None)).is_err());
}

#[test]
fn a_reservation_that_eats_the_profile_is_refused() {
    assert!(decide(&three(None, Some("256"), Some("256"))).is_err());
    assert!(decide(&three(None, Some("128"), None)).is_err(), "the default eats a small profile");
    // One MiB of framebuffer is a policy, not a contradiction.
    assert_eq!(ok(None, Some("257"), Some("256")).fb_length, MIB);
}

/// Unit-suffixed values must fail startup and suggest a numeric MiB value.
#[test]
fn a_value_that_is_not_mib_refuses_to_start() {
    let e = reason(&three(Some("3 GiB"), None, None), Some(3072));
    assert!(e.contains("LEA_VRAM_LIMIT_MIB=\"3 GiB\"") && e.contains("write 3072"), "{e}");
    let e = reason(&grid("RTX2070-4Q", "4G", "3072"), Some(4096));
    assert!(e.contains("LEA_VGPU_PROFILE_MIB") && e.contains("write 4096"), "{e}");
    assert!(
        decide(&three(None, Some("-1"), None)).is_err(),
        "a negative number is no size either"
    );
    // A reservation without a profile reserves from nothing. That is
    // worth a line, because the operator plainly meant something.
    let (p, notes) = chosen(&three(None, None, Some("256")), None).unwrap();
    assert_eq!(p, Profile::off());
    assert_eq!(notes.len(), 1);
    assert!(notes[0].text().contains("does nothing"), "{:?}", notes[0]);
}

#[test]
fn mib_values_must_fit_the_byte_counter() {
    let overflow = "17592186044416"; // 2^44 MiB would wrap to zero bytes.
    let cases = [
        ("LEA_VRAM_LIMIT_MIB", three(Some(overflow), None, None)),
        ("LEA_VRAM_PROFILE_MIB", three(None, Some(overflow), None)),
        ("LEA_VRAM_RESERVE_MIB", three(None, Some("3072"), Some(overflow))),
        ("LEA_VGPU_PROFILE_MIB", grid("test", overflow, "1536")),
        ("LEA_VGPU_FB_MIB", grid("test", "2048", overflow)),
    ];
    for (name, env) in cases {
        let error = reason(&env, None);
        assert!(error.contains(name) && error.contains("byte counter range"), "{error}");
    }

    let largest = (u64::MAX >> 20).to_string();
    let (profile, _) = chosen(&three(Some(&largest), None, None), None).unwrap();
    assert_eq!(profile.fb_length, u64::MAX & !((1 << 20) - 1));
    assert_eq!(profile.policy, Policy::Accounting);
}

/// Report and enforce fbLength; never offer the reserved profile portion.
#[test]
fn the_guest_is_told_exactly_what_it_may_allocate() {
    let x = abi().info;
    let p = ok(None, Some("3072"), None);
    let mut led = Ledger::for_test_profile(p);
    assert_eq!(led.limit(), p.fb_length);
    assert!(led.limit() < p.size, "the reservation is real, or it is nothing");

    // What the guest's nvidia-smi and every Vulkan client are told.
    let mut v =
        fb_buf(&[(x.total_ram_size, 0x800000), (x.heap_size, 0x797240), (x.heap_free, 0x69f000)]);
    assert_eq!(rewrite_fb_info(&abi(), &mut v, led.limit(), led.used()), Some(3));
    assert_eq!(fb_at(&v, 0), (p.fb_length / 1024) as u32, "total is fbLength");
    assert_eq!(fb_at(&v, 1), (p.fb_length / 1024) as u32);
    assert_eq!(fb_at(&v, 2), (p.fb_length / 1024) as u32, "and so is free, empty");

    // ... and the card's name says the same number, not the profile.
    assert_eq!(guest_card_name("NVIDIA GeForce RTX 2070", p), "Leandro RTX 2070-2816M");

    // The enforced number is fbLength: the last byte of it goes in, the
    // next one does not, and the reservation is never available.
    let mut b = Books::new(1);
    assert!(b.reserve(&mut led, p.fb_length));
    assert!(!b.reserve(&mut led, 1), "the reservation is not spare change");
    assert_eq!(led.used(), p.fb_length);
}

/// And the counter-check: under the OLD policy the guest is told the
/// whole cap, because nothing was held back from it.
#[test]
fn the_two_policies_show_the_guest_different_cards() {
    let acct = Ledger::for_test(3072 * MIB);
    let resv = Ledger::for_test_profile(ok(None, Some("3072"), None));
    assert_eq!(acct.limit(), 3072 * MIB);
    assert_eq!(resv.limit(), 2816 * MIB);
    assert_eq!(acct.profile().size, resv.profile().size, "same bill to the card");
    assert!(resv.limit() < acct.limit(), "and a different one to the guest");
}

#[test]
fn a_vgpu_type_carries_its_catalogue_numbers_or_is_refused() {
    // A 2Q row of a catalogue: 2048 MiB profile, 1536 MiB guest FB.
    let p = chosen(&grid("RTX2070-2Q", "2048", "1536"), None).unwrap().0;
    assert_eq!(p.policy, Policy::Grid);
    assert_eq!(p.size, 2048 * MIB);
    assert_eq!(p.fb_length, 1536 * MIB);
    assert_eq!(p.reservation, 512 * MIB);
    assert_eq!(p.vgpu_type, "RTX2070-2Q");

    // A name on its own is a name for something nobody computed.
    let e = reason(&RawEnv { vgpu_type: Some("RTX2070-2Q"), ..RawEnv::default() }, None);
    assert!(e.contains("vgpuprofile"), "{e}");
    // ... and a profile that reserves nothing is not a vGPU profile.
    assert!(decide(&grid("RTX2070-2Q", "2048", "2048")).is_err());
}

#[test]
fn three_policies_for_one_number_are_refused_too() {
    let e = reason(
        &RawEnv {
            limit: Some("3072"),
            vgpu_type: Some("RTX2070-2Q"),
            vgpu_profile: Some("2048"),
            vgpu_fb: Some("1536"),
            ..RawEnv::default()
        },
        None,
    );
    assert!(e.contains("three policies"), "{e}");
}

/// Card names use the guest framebuffer size for every policy.
#[test]
fn the_grid_card_is_named_after_its_framebuffer() {
    let x = abi().info;
    let p = chosen(&grid("RTX2070-2Q", "2048", "1536"), None).unwrap().0;
    assert_eq!(guest_card_name("NVIDIA GeForce RTX 2070", p), "Leandro RTX 2070-1536M");

    // ... and the sizes it is told are the type's, not the card's.
    let led = Ledger::for_test_profile(p);
    let mut v = fb_buf(&[(x.total_ram_size, 0x800000), (x.heap_free, 0x69f000)]);
    assert_eq!(rewrite_fb_info(&abi(), &mut v, led.limit(), led.used()), Some(2));
    assert_eq!(fb_at(&v, 0), (1536 * MIB / 1024) as u32);
    assert_eq!(led.limit(), 1536 * MIB, "and refused at the same number");
}

/// Equal framebuffer sizes produce equal names and encoder shares.
/// Without a card query, use the launcher's encoder share.
#[test]
fn the_same_framebuffer_is_the_same_card_under_every_policy() {
    // 3072 of 8192 MiB.
    let share = Some(37);
    let profiles = [
        chosen(&three(Some("3072"), None, None), share).unwrap().0,
        chosen(&three(None, Some("3328"), None), share).unwrap().0,
        chosen(
            &RawEnv { vgpu_encoder: Some("50"), ..grid("RTX2070-4Q", "3968", "3072") },
            share,
        )
        .unwrap()
        .0,
        chosen(&grid("RTX2070-3G", "3968", "3072"), share).unwrap().0,
    ];
    for p in profiles {
        assert_eq!(p.fb_length, 3072 * MIB);
        assert_eq!(p.encoder_capacity, 37, "{:?}", p.policy);
        assert_eq!(guest_card_name("NVIDIA GeForce RTX 2070", p), "Leandro RTX 2070-3G");
    }
    let launcher = RawEnv { vgpu_encoder: Some("37"), ..grid("RTX2070-3G", "3968", "3072") };
    assert_eq!(
        chosen(&launcher, None).unwrap().0.encoder_capacity,
        37,
        "no card: the launcher's share"
    );
    assert_eq!(
        chosen(&RawEnv::default(), share).unwrap().0.encoder_capacity,
        0,
        "no cap: RM's own answer"
    );
}

/// The other two policies keep the name they had.
#[test]
fn the_older_policies_keep_their_names() {
    assert_eq!(
        guest_card_name("NVIDIA GeForce RTX 2070", Profile::accounting(3072 * MIB)),
        "Leandro RTX 2070-3G"
    );
    assert_eq!(
        guest_card_name("NVIDIA GeForce RTX 2070", ok(None, Some("3072"), None)),
        "Leandro RTX 2070-2816M"
    );
}

/// A refusal has to say what was asked, in the words a trace uses:
/// the door, the class, the flags, the attr with its LOCATION spelled
/// out, and the size.
#[test]
fn a_refusal_names_the_request() {
    let any = at_location(LOCATION_ANY);
    let ask = Ask::of_alloc(Door::Nvos64, 0x40, &params(0x1c101, any, 512 << 20)).unwrap();
    let line = ask.describe();
    assert!(line.starts_with("NVOS64 RM_ALLOC class 0x40 flags 0x1c101"), "{line}");
    assert!(line.contains("(ANY)") && line.ends_with("size 0x20000000"), "{line}");

    let v = nvos32(abi().heap.alloc_size, 0, vidmem_attr(), 4 << 20);
    let line = Ask::of_vidheap(&abi(), &v).unwrap().describe();
    assert!(line.starts_with("NVOS32 VID_HEAP ALLOC_SIZE flags 0x0"), "{line}");
    assert!(line.contains("(VIDMEM)"), "{line}");

    // FREE shares the struct and is not a request.
    assert_eq!(Ask::of_vidheap(&abi(), &nvos32(abi().heap.free, 0, 0, 0)), None);
}

/// One process retrying one kind a thousand times must not use up the
/// lines the first refusal of ANOTHER kind needs.
#[test]
fn the_first_refusal_of_each_kind_is_never_throttled() {
    let mut b = Books::new(7);
    let vid = Ask::of_alloc(Door::Nvos64, 0x40, &params(0, vidmem_attr(), 4096)).unwrap();
    let logged = (0..1000).filter(|_| b.count_refusal(&vid).is_some()).count();
    assert_eq!(logged, 8 + 10, "the first eight, then every hundredth");

    let pci = at_location(LOCATION_PCI);
    let other = Ask::of_alloc(Door::Nvos64, 0x3e, &params(0, pci, 4096)).unwrap();
    assert_eq!(b.count_refusal(&other), Some(1));
    let door =
        Ask::of_vidheap(&abi(), &nvos32(abi().heap.alloc_size, 0, vidmem_attr(), 4096)).unwrap();
    assert_eq!(b.count_refusal(&door), Some(1), "the other door is another kind");
}

/// Where RM put a LOCATION_ANY is said once per VM per outcome, not
/// once per allocation.
#[test]
fn a_placement_is_named_once_per_kind_and_outcome() {
    let mut led = Ledger::for_test(1 << 30);
    let b1 = Books::new(1);
    let b2 = Books::new(2);
    let any = at_location(LOCATION_ANY);
    let ask = Ask::of_alloc(Door::Nvos64, 0x40, &params(0, any, 4096)).unwrap();

    let (head, tail) =
        b1.placement(&mut led, &ask, true, 0, vidmem_attr()).expect("the first is named");
    assert_eq!(head, format!("first of its kind: {}", ask.describe()));
    assert!(tail.contains("RM placed it in VIDMEM") && tail.contains("charged"), "{tail}");
    assert_eq!(
        b2.placement(&mut led, &ask, true, 0, vidmem_attr()),
        None,
        "per VM, not per process"
    );

    let pci = at_location(LOCATION_PCI);
    let (_, tail) = b2.placement(&mut led, &ask, true, 0, pci).expect("a new outcome is named");
    assert!(tail.contains("charge given back"), "{tail}");
    let (_, tail) =
        b2.placement(&mut led, &ask, false, NV_ERR_NO_MEMORY, any).expect("and a failure");
    assert!(tail.contains("status 0x51"), "{tail}");
}

/// The census names who holds the ledger, largest first, and what no
/// named process holds.
#[test]
fn the_census_says_who_holds_the_ledger() {
    let mut led = Ledger::for_test(2816 * MIB);
    let mut game = Books::new(9);
    let mut shell = Books::new(3);
    let mut kernel = Books::new(1);
    game.announce(&mut led, 4711, "ShadowOfTheTomb");
    shell.announce(&mut led, 1201, "gnome-shell");
    for (b, bytes, h) in [
        (&mut game, 2048 * MIB, 1u32),
        (&mut shell, 256 * MIB, 2),
        (&mut kernel, 64 * MIB, 3),
    ] {
        assert!(b.reserve(&mut led, bytes));
        b.settle(&mut led, true, vidmem_attr(), charge(1, 0xc1d8, h, bytes));
    }
    let c = led.census();
    assert_eq!((c.used, c.limit), (2368 * MIB, 2816 * MIB));
    let rows: Vec<(u64, &str, u32, u64)> = c
        .rows
        .iter()
        .map(|r| (r.sub_id, r.row.name.as_str(), r.row.guest_pid, r.row.bytes))
        .collect();
    assert_eq!(
        rows,
        vec![(9, "ShadowOfTheTomb", 4711, 2048 * MIB), (3, "gnome-shell", 1201, 256 * MIB)],
        "largest first"
    );
    assert_eq!(c.unnamed, 64 * MIB);
    assert_eq!(c.empty, 0);
}

/// The ledger counts what all sessions owe and what is reserved, and each row says what its
/// session owes.
#[test]
fn the_accounts_of_two_sessions_balance() {
    let mut led = Ledger::for_test(64 * MIB);
    let (mut a, mut b) = (Books::new(7), Books::new(8));
    a.announce(&mut led, 100, "a");
    b.announce(&mut led, 200, "b");
    let rows = |led: &Ledger| led.roster().iter().map(|r| r.bytes).collect::<Vec<u64>>();

    assert!(a.reserve(&mut led, 8 * MIB));
    assert!(b.reserve(&mut led, 4 * MIB));
    assert_eq!((led.used(), a.owed(), b.owed()), (12 * MIB, 0, 0));
    a.settle(&mut led, true, vidmem_attr(), charge(1, 1, 10, 8 * MIB));
    assert_eq!(led.used(), a.owed() + b.owed() + 4 * MIB);
    b.settle(&mut led, false, 0, charge(1, 1, 10, 4 * MIB));
    assert_eq!(led.used(), a.owed() + b.owed());

    // The same handle again: the old charge is replaced.
    assert!(a.reserve(&mut led, 2 * MIB));
    a.settle(&mut led, true, vidmem_attr(), charge(1, 1, 10, 2 * MIB));
    assert_eq!((led.used(), a.owed()), (2 * MIB, 2 * MIB));
    assert!(b.reserve(&mut led, MIB));
    b.settle(&mut led, true, vidmem_attr(), charge(2, 1, 10, MIB));
    assert_eq!(rows(&led), vec![2 * MIB, MIB]);

    a.free_object(&mut led, 1, 10);
    assert_eq!((led.used(), rows(&led)), (MIB, vec![0, MIB]));
    a.free_object(&mut led, 1, 10);
    assert_eq!((led.used(), rows(&led)), (MIB, vec![0, MIB]), "freed once");
    b.close_token(&mut led, 2);
    assert_eq!((led.used(), b.owed(), rows(&led)), (0, 0, vec![0, 0]));
    assert!(!a.reserve(&mut led, 65 * MIB), "never more than the cap");
}
