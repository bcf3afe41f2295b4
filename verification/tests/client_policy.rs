use vhost_user_nvrm::abi::{
    Abi, AnswerFields, Controls, Dev, Escapes, Field, HeapFunctions, InfoIndices, OsdescNumbers,
    UvmNumbers,
};
use vhost_user_nvrm::client_policy::private_client;

fn abi() -> Abi {
    Abi {
        escapes: Escapes {
            rm_alloc: 0x2b,
            rm_alloc_object: 0x28,
            rm_alloc_memory: 0x27,
            rm_free: 0x29,
            rm_control: 0x2a,
            rm_dup_object: 0x34,
            rm_share: 0x35,
            rm_map_memory: 0x4e,
            rm_unmap_memory: 0x4f,
            rm_vid_heap_control: 0x4a,
            rm_bind_context_dma: 0x49,
            rm_map_memory_dma: 0x57,
            rm_unmap_memory_dma: 0x58,
            alloc_os_event: 206,
            free_os_event: 207,
            attach_gpus_to_fd: 212,
        },
        heap: HeapFunctions {
            alloc_size: 2,
            free: 3,
            info: 5,
            hw_alloc: 20,
            alloc_os_descriptor: 27,
        },
        controls: Controls {
            gpu_get_pids: 0x2080018d,
            gpu_get_pid_info: 0x2080018e,
            fb_get_info: 0x20801301,
            fb_get_info_v2: 0x20801303,
            gpu_get_name_string: 0x20800110,
            gpu_get_virtualization_mode: 0x800289,
            gpu_get_encoder_capacity: 0x2080016c,
            semsurf_register_waiter: 0xda0005,
            semsurf_unregister_waiter: 0xda0006,
            gpu_get_gid_info: 0x2080014a,
            gpu_get_uuid_info: 0x274,
            gpu_get_uuid_from_gpu_id: 0x275,
        },
        info: InfoIndices {
            ram_size: 7,
            total_ram_size: 8,
            heap_size: 9,
            heap_free: 0x14,
            usable_ram_size: 0x25,
            video_memory_usage: 0,
        },
        answers: AnswerFields {
            virtmode_len: 8,
            virtmode_gridbuild: 4,
            enccap_len: 8,
            enccap_off: 4,
        },
        nvos54_serialized: 1,
        nvos64_serialized: 2,
        class_root_client: 0x41,
        uvm: UvmNumbers {
            register_gpu_vaspace: 25,
            register_channel: 27,
            unregister_channel: 28,
            map_external_allocation: 33,
            register_gpu: 37,
            free: 34,
            unregister_channel_client: 16,
            free_len: 24,
            free_status: 16,
            free_base: 0,
            free_length: 8,
        },
        osdesc: OsdescNumbers {
            len: 128,
            attr_off: 20,
            attr2_off: 24,
            limit_off: 64,
            coherency: Field { lo: 29, mask: 0x7 },
            uncached: 0,
            cached: 1,
            write_combine: 2,
            write_through: 3,
            write_protect: 4,
            write_back: 5,
            gpu_cacheable: Field { lo: 2, mask: 0x3 },
            gpu_cacheable_yes: 1,
            flags_physicality: Field { lo: 4, mask: 0xf },
            flags_noncontiguous: 1,
            flags_location: Field { lo: 8, mask: 0xf },
            flags_pci: 0,
            flags_coherency: Field { lo: 12, mask: 0xf },
            flags_write_back: 5,
            flags_gpu_cacheable: Field { lo: 18, mask: 0x1 },
            flags_gpu_cacheable_yes: 1,
            flags_gpu_cacheable_no: 0,
            flags_mapping: Field { lo: 30, mask: 0x3 },
            flags_no_map: 1,
        },
    }
}

const PRIVATE: u32 = 0x12345678;

#[test]
fn source_and_destination_clients_are_checked_independently() {
    for offset in [0, 12] {
        let mut inline = [0; 28];
        inline[offset..offset + 4].copy_from_slice(&PRIVATE.to_le_bytes());
        let nr = abi().escapes.rm_dup_object;
        assert_eq!(
            private_client(&abi(), Dev::Ctl, nr, &inline, &[], &[PRIVATE]),
            Some(PRIVATE)
        );
        assert_eq!(private_client(&abi(), Dev::Ctl, nr, &inline, &[], &[]), None);
    }
}

#[test]
fn private_clients_cannot_be_modified_through_frontend_envelopes() {
    let e = abi().escapes;
    for nr in [
        e.rm_alloc,
        e.rm_alloc_object,
        e.rm_alloc_memory,
        e.rm_free,
        e.rm_control,
        e.rm_share,
        e.rm_map_memory,
        e.rm_unmap_memory,
        e.rm_vid_heap_control,
        e.rm_bind_context_dma,
        e.rm_map_memory_dma,
        e.rm_unmap_memory_dma,
        e.alloc_os_event,
        e.free_os_event,
    ] {
        let mut inline = [0; 64];
        inline[..4].copy_from_slice(&PRIVATE.to_le_bytes());
        assert_eq!(
            private_client(&abi(), Dev::Ctl, nr, &inline, &[], &[PRIVATE]),
            Some(PRIVATE),
            "frontend {nr:#x}"
        );
        assert_eq!(private_client(&abi(), Dev::Ctl, nr, &inline, &[], &[]), None);
    }
}

#[test]
fn every_supported_uvm_client_field_is_checked() {
    let u = abi().uvm;
    for (nr, offset, len) in [
        (u.register_gpu_vaspace, 20, 32),
        (u.register_channel, 20, 48),
        (u.map_external_allocation, 9252, 9264),
        (u.register_gpu, 28, 40),
        (u.unregister_channel, u.unregister_channel_client, 32),
    ] {
        let mut inline = vec![0; len];
        inline[offset..offset + 4].copy_from_slice(&PRIVATE.to_le_bytes());
        assert_eq!(
            private_client(&abi(), Dev::Uvm, nr, &inline, &[], &[PRIVATE]),
            Some(PRIVATE),
            "UVM {nr}"
        );
    }
}

#[test]
fn allocation_parameters_cannot_share_private_clients() {
    for (class, offset) in [
        (0x80_u32, 4),
        (0x80, 8),
        (0xcb33, 0),
        (0x83de, 4),
        (0xc574, 0),
        (0xb2cc, 0),
    ] {
        let mut inline = [0; 48];
        inline[12..16].copy_from_slice(&class.to_le_bytes());
        let mut aux = [0; 64];
        aux[offset..offset + 4].copy_from_slice(&PRIVATE.to_le_bytes());
        assert_eq!(
            private_client(&abi(), Dev::Ctl, abi().escapes.rm_alloc, &inline, &aux, &[PRIVATE]),
            Some(PRIVATE),
            "class {class:#x}"
        );
    }
}

#[test]
fn a_request_that_names_no_private_client_passes() {
    let inline = [0xffu8; 64];
    for nr in 0..=255 {
        for dev in [Dev::Ctl, Dev::Gpu, Dev::Uvm] {
            assert_eq!(private_client(&abi(), dev, nr, &inline, &inline, &[PRIVATE, 0]), None);
        }
    }
    assert_eq!(private_client(&abi(), Dev::Ctl, abi().escapes.rm_free, &[], &[], &[0]), None);
}
