use vhost_user_nvrm::abi::{
    Abi, AnswerFields, Controls, Dev, Embedded, Escapes, Field, HeapFunctions, InfoIndices, Layout,
    NestedSpec, OsdescNumbers, Params, UvmNumbers, CLASS_KERNEL_CALLBACK_EX, CLASS_OS_DESCRIPTOR,
    CLASS_OS_EVENT,
};
use vhost_user_nvrm::request_shape::{validate, Error, Shape};
use vhost_user_nvrm::wire::{NestedDesc, Req};

fn abi() -> Abi {
    Abi {
        escapes: Escapes {
            rm_alloc: 0x2b,
            rm_alloc_object: 0x28,
            rm_alloc_memory: 0x27,
            rm_free: 0x29,
            rm_control: 0x2a,
            rm_dup_object: 0x34,
            rm_share: 0x35,
            rm_map_memory: 0x4e,
            rm_unmap_memory: 0x4f,
            rm_vid_heap_control: 0x4a,
            rm_bind_context_dma: 0x49,
            rm_map_memory_dma: 0x57,
            rm_unmap_memory_dma: 0x58,
            alloc_os_event: 206,
            free_os_event: 207,
            attach_gpus_to_fd: 212,
        },
        heap: HeapFunctions {
            alloc_size: 2,
            free: 3,
            info: 5,
            hw_alloc: 20,
            alloc_os_descriptor: 27,
        },
        controls: Controls {
            gpu_get_pids: 0x2080018d,
            gpu_get_pid_info: 0x2080018e,
            fb_get_info: 0x20801301,
            fb_get_info_v2: 0x20801303,
            gpu_get_name_string: 0x20800110,
            gpu_get_virtualization_mode: 0x800289,
            gpu_get_encoder_capacity: 0x2080016c,
            semsurf_register_waiter: 0xda0005,
            semsurf_unregister_waiter: 0xda0006,
            gpu_get_gid_info: 0x2080014a,
            gpu_get_uuid_info: 0x274,
            gpu_get_uuid_from_gpu_id: 0x275,
        },
        info: InfoIndices {
            ram_size: 7,
            total_ram_size: 8,
            heap_size: 9,
            heap_free: 0x14,
            usable_ram_size: 0x25,
            video_memory_usage: 0,
        },
        answers: AnswerFields {
            virtmode_len: 8,
            virtmode_gridbuild: 4,
            enccap_len: 8,
            enccap_off: 4,
        },
        nvos54_serialized: 1,
        nvos64_serialized: 2,
        class_root_client: 0x41,
        uvm: UvmNumbers {
            register_gpu_vaspace: 25,
            register_channel: 27,
            unregister_channel: 28,
            map_external_allocation: 33,
            register_gpu: 37,
            free: 34,
            unregister_channel_client: 16,
            free_len: 24,
            free_status: 16,
            free_base: 0,
            free_length: 8,
        },
        osdesc: OsdescNumbers {
            len: 128,
            attr_off: 20,
            attr2_off: 24,
            limit_off: 64,
            coherency: Field { lo: 29, mask: 0x7 },
            uncached: 0,
            cached: 1,
            write_combine: 2,
            write_through: 3,
            write_protect: 4,
            write_back: 5,
            gpu_cacheable: Field { lo: 2, mask: 0x3 },
            gpu_cacheable_yes: 1,
            flags_physicality: Field { lo: 4, mask: 0xf },
            flags_noncontiguous: 1,
            flags_location: Field { lo: 8, mask: 0xf },
            flags_pci: 0,
            flags_coherency: Field { lo: 12, mask: 0xf },
            flags_write_back: 5,
            flags_gpu_cacheable: Field { lo: 18, mask: 0x1 },
            flags_gpu_cacheable_yes: 1,
            flags_gpu_cacheable_no: 0,
            flags_mapping: Field { lo: 30, mask: 0x3 },
            flags_no_map: 1,
        },
    }
}

/// `NV_ESC_REGISTER_FD`.
const REGISTER_FD: u32 = 201;
/// `NV_ESC_CARD_INFO`, whose block is an array of cards.
const CARD_INFO: u32 = 200;
const CARD_INFO_LEN: u32 = 72;
/// `NV_ESC_CHECK_VERSION_STR`.
const CHECK_VERSION_STR: u32 = 210;
const CHECK_VERSION_STR_LEN: u32 = 72;
/// `NV_ESC_NUMA_INFO`.
const NUMA_INFO: u32 = 215;
const NUMA_INFO_LEN: u32 = 1304;
/// The size of `NVOS32_PARAMETERS`.
const NVOS32_LEN: u32 = 184;
/// `UVM_INITIALIZE`.
const UVM_INITIALIZE: u32 = 0x3000_0001;

fn word(b: &[u8], off: usize) -> u32 {
    match b.get(off..off + 4) {
        Some(w) => u32::from_le_bytes(w.try_into().unwrap()),
        None => 0,
    }
}

fn double(b: &[u8], off: usize) -> u64 {
    match b.get(off..off + 8) {
        Some(w) => u64::from_le_bytes(w.try_into().unwrap()),
        None => 0,
    }
}

/// What the driver's tables say of the requests of these tests.
fn tables(dev: Dev, nr: u32, inline: &[u8], aux: &[u8]) -> Layout {
    let e = abi().escapes;
    let len = inline.len() as u32;
    let uvm = dev.is_uvm();
    let alloc = !uvm && nr == e.rm_alloc;
    let control = !uvm && nr == e.rm_control;
    let uvm_size = match nr {
        UVM_INITIALIZE => Some(16),
        33 => Some(9288),
        34 => Some(24),
        37 => Some(40),
        42 => Some(40),
        51 => Some(80),
        68 => Some(9248),
        70 => Some(24),
        _ => None,
    };
    let frontend_accepts = if nr == e.rm_alloc {
        Some(len == 32 || len == 48)
    } else if nr == e.rm_alloc_object {
        Some(len == 20)
    } else if nr == e.rm_alloc_memory {
        Some(len == 56)
    } else if nr == e.rm_free {
        Some(len == 16)
    } else if nr == e.rm_control {
        Some(len == 32)
    } else if nr == e.rm_dup_object {
        Some(len == 28)
    } else if nr == e.rm_vid_heap_control {
        Some(len == NVOS32_LEN)
    } else if nr == e.alloc_os_event || nr == e.free_os_event {
        Some(len == 16)
    } else if nr == REGISTER_FD {
        Some(len == 4)
    } else if nr == CARD_INFO {
        Some(len != 0 && len % CARD_INFO_LEN == 0)
    } else if nr == CHECK_VERSION_STR {
        Some(len == CHECK_VERSION_STR_LEN)
    } else if nr == NUMA_INFO {
        Some(len == NUMA_INFO_LEN)
    } else {
        None
    };
    let fd_off = if uvm {
        if nr == 37 {
            Some(24)
        } else {
            None
        }
    } else if nr == REGISTER_FD {
        Some(0)
    } else if nr == e.rm_alloc_memory {
        Some(48)
    } else if nr == e.alloc_os_event || nr == e.free_os_event {
        Some(8)
    } else {
        None
    };
    let class = word(inline, 12);
    let class_size = match class {
        0x5 | 0x7e => Some(24),
        0x3e | 0x50a0 => Some(128),
        0x40 => Some(128),
        0x71 => Some(128),
        0x80 => Some(56),
        0x2080 => Some(4),
        _ => None,
    };
    let params = if alloc && double(inline, 16) != 0 {
        match class_size {
            Some(len) => Params::Behind(Embedded { ptr_off: 16, len }),
            None => Params::Unknown,
        }
    } else if control && double(inline, 16) != 0 && word(inline, 24) != 0 {
        Params::Behind(Embedded { ptr_off: 16, len: word(inline, 24) })
    } else {
        Params::Absent
    };
    let cmd = word(inline, 8);
    let nested = if control && cmd == 0x101 {
        let len = if aux.len() >= 4 { Some(word(aux, 0)) } else { None };
        vec![
            NestedSpec { ptr_off: 8, len },
            NestedSpec { ptr_off: 16, len },
            NestedSpec { ptr_off: 24, len },
        ]
    } else if control && cmd == 0x0080_170d {
        let len = if aux.len() >= 4 { Some(4 * word(aux, 0)) } else { None };
        vec![NestedSpec { ptr_off: 8, len }, NestedSpec { ptr_off: 16, len }]
    } else if control && cmd == 0x2080_1802 {
        let len = if aux.len() >= 4 { Some(8 * word(aux, 0)) } else { None };
        vec![NestedSpec { ptr_off: 8, len }]
    } else {
        vec![]
    };
    Layout {
        uvm_size,
        frontend_accepts,
        fd_off,
        class_blocked: [0xc637u32, 0xc638, 0xc639, 0xc640, 0xb0cd, 0xb0ce, 0xcdcd].contains(&class),
        ctrl_blocked: [0x127, 0x130, 0x3d08, 0x3d0a, 0x3d0b, 0x3d0c, 0x83de0315].contains(&cmd),
        params,
        alloc_fd_guard: if class == 0x5 { Some((8, CLASS_OS_EVENT)) } else { None },
        alloc_fd: if class == 0x5 { Some(16) } else { None },
        ctrl_fd: if cmd == 0x3d06 { Some(0) } else { None },
        nested,
        uvm_status: match nr {
            UVM_INITIALIZE => Some(8),
            33 => Some(9280),
            34 => Some(16),
            37 => Some(36),
            42 => Some(36),
            51 => Some(72),
            68 => Some(9240),
            70 => Some(16),
            _ => None,
        },
        uvm_dupes_class: alloc && (class == 0x80 || class == 0x2080),
    }
}

fn control(cmd: u32, params_len: usize, total_aux: usize) -> (Req, Vec<u8>, Vec<u8>) {
    let req = Req {
        ioctl_nr: abi().escapes.rm_control,
        inline_len: 32,
        aux_len: total_aux as u32,
        embedded_ptr_off: Some(16),
        ..Req::default()
    };
    let mut inline = vec![0; 32];
    inline[8..12].copy_from_slice(&cmd.to_le_bytes());
    inline[16..24].copy_from_slice(&0x1234_0000u64.to_le_bytes());
    inline[24..28].copy_from_slice(&(params_len as u32).to_le_bytes());
    (req, inline, vec![0; total_aux])
}

fn check_on(dev: Dev, req: &Req, inline: &[u8], aux: &[u8]) -> Result<Shape, Error> {
    let layout = tables(dev, req.ioctl_nr, inline, aux);
    validate(&abi(), &layout, dev, req, inline, aux)
}

fn check(req: &Req, inline: &[u8], aux: &[u8]) -> Result<Shape, Error> {
    check_on(Dev::Ctl, req, inline, aux)
}

fn refused(req: &Req, inline: &[u8], aux: &[u8]) -> Option<i32> {
    check(req, inline, aux).err().map(|e| e.errno())
}

#[test]
fn nonnull_primary_pointers_require_the_host_descriptor() {
    let (mut req, inline, aux) = control(0x2080_0101, 16, 16);
    assert!(check(&req, &inline, &aux).is_ok());
    req.embedded_ptr_off = None;
    assert!(check(&req, &inline, &aux).is_err());
    req.embedded_ptr_off = Some(8);
    assert!(check(&req, &inline, &aux).is_err());
    req.embedded_ptr_off = Some(16);
    req.aux_len = 8;
    assert!(check(&req, &inline, &aux[..8]).is_err());
}

#[test]
fn optional_null_and_zero_length_pointers_remain_supported() {
    let (mut req, mut inline, mut aux) = control(0x2080_0101, 0, 0);
    req.embedded_ptr_off = None;
    let shape = check(&req, &inline, &aux).ok().unwrap();
    shape.clear_unused_pointers(&mut inline, &mut aux);
    assert_eq!(double(&inline, 16), 0);
    inline[24..28].copy_from_slice(&4096u32.to_le_bytes());
    assert!(
        check(&req, &inline, &aux).is_ok(),
        "NULL with a size is the driver's query/error case"
    );
}

#[test]
fn null_alloc_params_do_not_bypass_the_rights_pointer_guard() {
    let req = Req { ioctl_nr: abi().escapes.rm_alloc, inline_len: 48, ..Req::default() };
    let mut inline = vec![0; 48];
    inline[12..16].copy_from_slice(&0xffffu32.to_le_bytes());
    assert!(check(&req, &inline, &[]).is_ok(), "parameterless classes need no size row");
    inline[24..32].copy_from_slice(&0x1234_0000u64.to_le_bytes());
    assert_eq!(refused(&req, &inline, &[]), Some(libc::ENOTSUP));
}

#[test]
fn native_descriptors_cannot_validate_serialized_parameters() {
    let (req, mut inline, aux) = control(0x2080_0101, 16, 16);
    inline[12..16].copy_from_slice(&abi().nvos54_serialized.to_le_bytes());
    assert_eq!(refused(&req, &inline, &aux), Some(libc::ENOTSUP));

    let req = Req { ioctl_nr: abi().escapes.rm_alloc, inline_len: 48, ..Req::default() };
    let mut inline = vec![0; 48];
    inline[36..40].copy_from_slice(&abi().nvos64_serialized.to_le_bytes());
    assert_eq!(refused(&req, &inline, &[]), Some(libc::ENOTSUP));
}

#[test]
fn capability_fd_classes_are_refused_even_with_null_parameters() {
    let e = abi().escapes;
    for class in [0xc637u32, 0xc638, 0xc639, 0xc640, 0xb0cd, 0xb0ce, 0xcdcd] {
        for (nr, len) in [
            (e.rm_alloc, 32),
            (e.rm_alloc, 48),
            (e.rm_alloc_object, 20),
            (e.rm_alloc_memory, 56),
        ] {
            let mut inline = vec![0; len as usize];
            inline[12..16].copy_from_slice(&class.to_le_bytes());
            if nr == e.rm_alloc_memory {
                // The inline FD is unrelated to the class capability FD.
                inline[48..52].copy_from_slice(&(-1i32).to_le_bytes());
            }
            let req = Req {
                ioctl_nr: nr,
                inline_len: len,
                fd_field_off: tables(Dev::Ctl, nr, &inline, &[]).fd_off,
                ..Req::default()
            };
            assert_eq!(
                refused(&req, &inline, &[]),
                Some(libc::ENOTSUP),
                "class {class:#x}, escape {nr:#x}, inline {len}"
            );
            if nr == e.rm_alloc {
                inline[16..24].copy_from_slice(&0x1234_0000u64.to_le_bytes());
                assert_eq!(refused(&req, &inline, &[]), Some(libc::ENOTSUP));
            }
        }
    }
}

#[test]
fn unimplemented_pointer_and_fd_controls_are_blocked_even_with_valid_primary_metadata() {
    for cmd in [0x127, 0x130, 0x3d08, 0x3d0a, 0x3d0b, 0x3d0c, 0x83de0315] {
        let (req, inline, aux) = control(cmd, 40, 40);
        assert_eq!(refused(&req, &inline, &aux), Some(libc::EPERM));
    }
}

#[test]
fn only_resolved_tokens_or_negative_fd_sentinels_are_forwarded() {
    let mut req = Req { ioctl_nr: REGISTER_FD, inline_len: 4, ..Req::default() };
    assert!(check(&req, &12i32.to_le_bytes(), &[]).is_err());
    req.fd_field_off = Some(0);
    assert!(check(&req, &12i32.to_le_bytes(), &[]).is_err());
    assert!(check(&req, &(-1i32).to_le_bytes(), &[]).is_ok());
    req.fd_field_token = Some(7);
    assert!(check(&req, &12i32.to_le_bytes(), &[]).is_ok());
    assert!(check(&req, &(-1i32).to_le_bytes(), &[]).is_ok());
    req.fd_field_off = Some(1);
    assert!(check(&req, &12i32.to_le_bytes(), &[]).is_err());
}

#[test]
fn an_aux_fd_requires_metadata_and_cannot_overwrite_an_arbitrary_field() {
    let (mut req, inline, aux) = control(0x3d06, 20, 20);
    assert!(check(&req, &inline, &aux).is_err());
    req.aux_fd_field_off = Some(0);
    req.aux_fd_field_token = Some(3);
    assert!(check(&req, &inline, &aux).is_ok());
    req.aux_fd_field_off = Some(4);
    assert!(check(&req, &inline, &aux).is_err());
}

#[test]
fn allocation_fd_guard_distinguishes_callbacks_from_os_events() {
    let mut req = Req {
        ioctl_nr: abi().escapes.rm_alloc,
        inline_len: 48,
        aux_len: 24,
        embedded_ptr_off: Some(16),
        ..Req::default()
    };
    let mut inline = vec![0; 48];
    inline[12..16].copy_from_slice(&5u32.to_le_bytes());
    inline[16..24].copy_from_slice(&1u64.to_le_bytes());
    let mut aux = vec![0; 24];
    aux[8..12].copy_from_slice(&CLASS_KERNEL_CALLBACK_EX.to_le_bytes());
    assert!(check(&req, &inline, &aux).is_ok());
    aux[8..12].copy_from_slice(&CLASS_OS_EVENT.to_le_bytes());
    assert!(check(&req, &inline, &aux).is_err());
    req.aux_fd_field_off = Some(16);
    req.aux_fd_field_token = Some(4);
    assert!(check(&req, &inline, &aux).is_ok());
    req.aux_fd_field_token = None;
    aux[16..24].copy_from_slice(&(-1i64).to_le_bytes());
    assert!(check(&req, &inline, &aux).is_ok());
    aux[16..24].copy_from_slice(&0xffff_ffff_0000_0010u64.to_le_bytes());
    assert!(check(&req, &inline, &aux).is_err());
}

fn nested(ptr_off: u32, aux_off: u32, len: u32) -> NestedDesc {
    NestedDesc { ptr_off, aux_off, len }
}

#[test]
fn nested_metadata_is_required_only_for_nonnull_nonempty_targets() {
    let (mut req, mut inline, mut aux) = control(0x101, 40, 44);
    aux[..4].copy_from_slice(&4u32.to_le_bytes());
    aux[16..24].copy_from_slice(&0x1234_0000u64.to_le_bytes());
    assert!(check(&req, &inline, &aux).is_err());
    req.nested_count = 1;
    req.nested = vec![nested(16, 40, 4)];
    assert!(check(&req, &inline, &aux).is_ok(), "two NULL pointers are omitted");
    aux[..4].copy_from_slice(&0u32.to_le_bytes());
    req.nested_count = 0;
    let shape = check(&req, &inline, &aux).ok().unwrap();
    shape.clear_unused_pointers(&mut inline, &mut aux);
    assert_eq!(double(&aux, 16), 0);
}

#[test]
fn nested_buffers_cannot_alias_parameters_or_each_other() {
    let (mut req, inline, mut aux) = control(0x101, 40, 48);
    aux[..4].copy_from_slice(&4u32.to_le_bytes());
    aux[8..16].copy_from_slice(&1u64.to_le_bytes());
    aux[16..24].copy_from_slice(&2u64.to_le_bytes());
    req.nested_count = 2;
    req.nested = vec![nested(8, 40, 4), nested(16, 44, 4)];
    assert!(check(&req, &inline, &aux).is_ok());
    req.nested[0].aux_off = 8;
    assert!(check(&req, &inline, &aux).is_err());
    req.nested[0].aux_off = 40;
    req.nested[1].aux_off = 42;
    assert!(check(&req, &inline, &aux).is_err());
    req.nested[1].aux_off = 46;
    assert!(check(&req, &inline, &aux).is_err());
    req.nested[1].aux_off = 44;
    req.nested[1].len = 3;
    assert!(check(&req, &inline, &aux).is_err());
}

#[test]
fn osdesc_allocations_require_gpa_backing_and_exact_run_bytes() {
    let mut req = Req {
        ioctl_nr: abi().escapes.rm_alloc_memory,
        inline_len: 56,
        fd_field_off: Some(48),
        ..Req::default()
    };
    let mut inline = vec![0; 56];
    inline[12..16].copy_from_slice(&CLASS_OS_DESCRIPTOR.to_le_bytes());
    inline[48..52].copy_from_slice(&(-1i32).to_le_bytes());
    assert!(check(&req, &inline, &[]).is_err());
    req.gpa_run_count = 1;
    req.aux_len = 16;
    assert!(check(&req, &inline, &[0; 16]).is_ok());
    req.gpa_run_count = 2;
    assert!(check(&req, &inline, &[0; 16]).is_err());
    req.gpa_run_count = 1;
    inline[12..16].copy_from_slice(&0x3eu32.to_le_bytes());
    assert!(check(&req, &inline, &[0; 16]).is_err());
}

#[test]
fn unsupported_pointer_bearing_escapes_are_refused() {
    // NV_ESC_IOCTL_XFER_CMD, NV_ESC_RM_IDLE_CHANNELS and NV_ESC_RM_ACCESS_REGISTRY.
    for nr in [0xff, 211, 0x41, 0x4d] {
        let req = Req { ioctl_nr: nr, inline_len: 32, ..Req::default() };
        assert_eq!(refused(&req, &[0; 32], &[]), Some(libc::ENOTSUP));
    }
    let req = Req {
        ioctl_nr: abi().escapes.rm_vid_heap_control,
        inline_len: NVOS32_LEN,
        ..Req::default()
    };
    let mut inline = vec![0; NVOS32_LEN as usize];
    for function in [abi().heap.hw_alloc, abi().heap.alloc_os_descriptor] {
        inline[8..12].copy_from_slice(&function.to_le_bytes());
        assert_eq!(refused(&req, &inline, &[]), Some(libc::ENOTSUP));
    }
}

#[test]
fn known_flat_requests_and_variable_card_arrays_are_supported() {
    for (nr, size) in [
        (abi().escapes.rm_free, 16),
        (abi().escapes.rm_dup_object, 28),
        (CARD_INFO, 2 * CARD_INFO_LEN),
        (CHECK_VERSION_STR, CHECK_VERSION_STR_LEN),
        (NUMA_INFO, NUMA_INFO_LEN),
    ] {
        let req = Req { ioctl_nr: nr, inline_len: size, ..Req::default() };
        assert!(check(&req, &vec![0; size as usize], &[]).is_ok(), "nr {nr:#x}");
        let bad = Req { inline_len: size - 1, ..req };
        assert!(check(&bad, &vec![0; size as usize - 1], &[]).is_err(), "nr {nr:#x}");
    }
}

#[test]
fn uvm_envelopes_use_each_selected_compiled_abi() {
    for nr in (0..=2047).chain([UVM_INITIALIZE]) {
        let Some(size) = tables(Dev::Uvm, nr, &[], &[]).uvm_size else {
            continue;
        };
        let mut req = Req { ioctl_nr: nr, inline_len: size, ..Req::default() };
        if let Some(off) = tables(Dev::Uvm, nr, &[], &[]).fd_off {
            req.fd_field_off = Some(off);
            req.fd_field_token = Some(1);
        }
        assert!(check_on(Dev::Uvm, &req, &vec![0; size as usize], &[]).is_ok());
        req.inline_len += 1;
        assert!(check_on(Dev::Uvm, &req, &vec![0; size as usize + 1], &[]).is_err());
    }
    let unknown = Req { ioctl_nr: 0x12345678, ..Req::default() };
    assert_eq!(
        check_on(Dev::Uvm, &unknown, &[], &[]).err().map(|e| e.errno()),
        Some(libc::ENOTSUP)
    );
    assert_eq!(
        check_on(Dev::UvmTools, &unknown, &[], &[]).err().map(|e| e.errno()),
        Some(libc::ENOTSUP)
    );
}

#[test]
fn buffers_of_another_length_than_announced_are_refused() {
    let (req, inline, aux) = control(0x2080_0101, 16, 16);
    let e = check(&req, &inline[..31], &aux).err().unwrap();
    assert_eq!(e.errno(), libc::EINVAL);
    assert_eq!(e.why(), "request lengths do not match its buffers");
    assert!(check(&req, &inline, &aux[..15]).is_err());
}

#[test]
fn a_frontend_block_has_to_fit_the_ioctl_size() {
    let req = Req { ioctl_nr: CARD_INFO, inline_len: 1 << 14, ..Req::default() };
    assert_eq!(refused(&req, &vec![0; 1 << 14], &[]), Some(libc::EMSGSIZE));
}

#[test]
fn an_owner_without_a_token_is_no_sentinel() {
    let req = Req {
        ioctl_nr: REGISTER_FD,
        inline_len: 4,
        fd_field_off: Some(0),
        fd_field_proc: Some(3),
        ..Req::default()
    };
    let e = check(&req, &(-1i32).to_le_bytes(), &[]).err().unwrap();
    assert_eq!(e.why(), "nonnegative FD requires a resolved guest token");
}
