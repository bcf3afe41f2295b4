use vhost_user_nvrm::abi::{
    Abi, AnswerFields, Controls, Escapes, Field, HeapFunctions, InfoIndices, OsdescNumbers,
    UvmNumbers,
};
use vhost_user_nvrm::grid::{
    fnv1a, format_uuid, mediate_enc, mediate_mode, mediate_uuid, name_from_socket,
    rewrite_encoder_capacity, rewrite_virtualization_mode, switches, vm_name, vm_uuid, Card,
};

const VIRTMODE_LEN: usize = 8;
const VIRTMODE_GRIDBUILD_OFF: usize = 4;
const ENCCAP_LEN: usize = 8;
const ENCCAP_QUERY_OFF: usize = 0;
const ENCCAP_OFF: usize = 4;

fn abi() -> Abi {
    Abi {
        escapes: Escapes {
            rm_alloc: 0x2b,
            rm_alloc_object: 0x28,
            rm_alloc_memory: 0x27,
            rm_free: 0x29,
            rm_control: 0x2a,
            rm_dup_object: 0x34,
            rm_share: 0x35,
            rm_map_memory: 0x4e,
            rm_unmap_memory: 0x4f,
            rm_vid_heap_control: 0x4a,
            rm_bind_context_dma: 0x49,
            rm_map_memory_dma: 0x57,
            rm_unmap_memory_dma: 0x58,
            alloc_os_event: 206,
            free_os_event: 207,
            attach_gpus_to_fd: 212,
        },
        heap: HeapFunctions {
            alloc_size: 2,
            free: 3,
            info: 5,
            hw_alloc: 20,
            alloc_os_descriptor: 27,
        },
        controls: Controls {
            gpu_get_pids: 0x2080018d,
            gpu_get_pid_info: 0x2080018e,
            fb_get_info: 0x20801301,
            fb_get_info_v2: 0x20801303,
            gpu_get_name_string: 0x20800110,
            gpu_get_virtualization_mode: 0x800289,
            gpu_get_encoder_capacity: 0x2080016c,
            semsurf_register_waiter: 0xda0005,
            semsurf_unregister_waiter: 0xda0006,
            gpu_get_gid_info: 0x2080014a,
            gpu_get_uuid_info: 0x274,
            gpu_get_uuid_from_gpu_id: 0x275,
        },
        info: InfoIndices {
            ram_size: 7,
            total_ram_size: 8,
            heap_size: 9,
            heap_free: 0x14,
            usable_ram_size: 0x25,
            video_memory_usage: 0,
        },
        answers: AnswerFields {
            virtmode_len: 8,
            virtmode_gridbuild: 4,
            enccap_len: 8,
            enccap_off: 4,
        },
        nvos54_serialized: 1,
        nvos64_serialized: 2,
        class_root_client: 0x41,
        uvm: UvmNumbers {
            register_gpu_vaspace: 25,
            register_channel: 27,
            unregister_channel: 28,
            map_external_allocation: 33,
            register_gpu: 37,
            free: 34,
            unregister_channel_client: 16,
            free_len: 24,
            free_status: 16,
            free_base: 0,
            free_length: 8,
        },
        osdesc: OsdescNumbers {
            len: 128,
            attr_off: 20,
            attr2_off: 24,
            limit_off: 64,
            coherency: Field { lo: 29, mask: 0x7 },
            uncached: 0,
            cached: 1,
            write_combine: 2,
            write_through: 3,
            write_protect: 4,
            write_back: 5,
            gpu_cacheable: Field { lo: 2, mask: 0x3 },
            gpu_cacheable_yes: 1,
            flags_physicality: Field { lo: 4, mask: 0xf },
            flags_noncontiguous: 1,
            flags_location: Field { lo: 8, mask: 0xf },
            flags_pci: 0,
            flags_coherency: Field { lo: 12, mask: 0xf },
            flags_write_back: 5,
            flags_gpu_cacheable: Field { lo: 18, mask: 0x1 },
            flags_gpu_cacheable_yes: 1,
            flags_gpu_cacheable_no: 0,
            flags_mapping: Field { lo: 30, mask: 0x3 },
            flags_no_map: 1,
        },
    }
}

fn word(b: &[u8], off: usize) -> u32 {
    u32::from_le_bytes([b[off], b[off + 1], b[off + 2], b[off + 3]])
}

#[test]
fn the_mode_and_the_boolean_are_one_statement() {
    let mut v = vec![0u8; VIRTMODE_LEN];
    assert_eq!(rewrite_virtualization_mode(&abi(), &mut v), Some(2));
    assert_eq!(word(&v, 0), 2, "VGX");
    assert_eq!(v[VIRTMODE_GRIDBUILD_OFF], 1, "and a GRID build");
}

#[test]
fn a_buffer_that_is_not_the_structure_is_left_alone() {
    let mut short = vec![0u8; VIRTMODE_LEN - 1];
    assert_eq!(rewrite_virtualization_mode(&abi(), &mut short), None);
    assert!(short.iter().all(|&b| b == 0), "nothing written");

    let mut small = vec![0u8; ENCCAP_LEN - 1];
    assert_eq!(rewrite_encoder_capacity(&abi(), &mut small, 25), None);
}

#[test]
fn the_encoder_share_replaces_the_answer_and_not_the_question() {
    let mut v = vec![0u8; ENCCAP_LEN];
    v[ENCCAP_QUERY_OFF..ENCCAP_QUERY_OFF + 4].copy_from_slice(&1u32.to_le_bytes());
    v[ENCCAP_OFF..ENCCAP_OFF + 4].copy_from_slice(&100u32.to_le_bytes());
    assert_eq!(rewrite_encoder_capacity(&abi(), &mut v, 25), Some(25));
    assert_eq!(word(&v, ENCCAP_QUERY_OFF), 1, "the question is carried unchanged");
    assert_eq!(word(&v, ENCCAP_OFF), 25);
}

/// A share of zero is "no policy", not "no encoder", and 100 is what
/// the card says anyway. Neither is worth a rewrite.
#[test]
fn a_nonsense_share_is_not_written() {
    let mut v = vec![0u8; ENCCAP_LEN];
    assert_eq!(rewrite_encoder_capacity(&abi(), &mut v, 0), None);
    assert_eq!(rewrite_encoder_capacity(&abi(), &mut v, 101), None);
    assert_eq!(rewrite_encoder_capacity(&abi(), &mut v, 100), None);
    assert!(v.iter().all(|&b| b == 0), "nothing written");
    assert_eq!(rewrite_encoder_capacity(&abi(), &mut v, 99), Some(99));
}

#[test]
fn two_vms_on_one_card_get_two_uuids() {
    let a = vm_uuid("vm0");
    let b = vm_uuid("vm1");
    assert_ne!(a, b, "four guests sharing one UUID is the bug this fixes");
    assert_eq!(a, vm_uuid("vm0"), "and it is the same one after a restart");
}

#[test]
fn it_is_shaped_like_a_uuid() {
    let s = format_uuid(&vm_uuid("desktop"));
    assert!(s.starts_with("GPU-"), "{s}");
    let hex: Vec<&str> = s.trim_start_matches("GPU-").split('-').collect();
    assert_eq!(
        hex.iter().map(|p| p.len()).collect::<Vec<_>>(),
        vec![8, 4, 4, 4, 12]
    );
    assert!(hex.iter().all(|p| p.chars().all(|c| c.is_ascii_hexdigit())), "{s}");
    let u = vm_uuid("desktop");
    assert_eq!(u[6] >> 4, 4);
    assert_eq!(u[8] >> 6, 0b10);
}

#[test]
fn the_uuid_swaps_both_ways_in_both_spellings() {
    let card = Card::new("vm/desktop2/nvrm.sock", [0x41; 16], 8192 << 20);
    let (host, guest) = (format_uuid(&card.host), format_uuid(&card.guest));
    let mut answer = vec![0u8; 12];
    answer.extend_from_slice(&card.host);
    answer.extend_from_slice(&[0u8; 4]);
    answer.extend_from_slice(host.as_bytes());
    answer.extend_from_slice(&[0u8; 4]);
    let asked = answer.clone();
    card.to_guest(&mut answer);
    assert_eq!(&answer[12..28], &card.guest);
    assert_eq!(&answer[32..72], guest.as_bytes());
    card.to_host(&mut answer);
    assert_eq!(answer, asked, "and back");
    let mut foreign = [0x5au8; 64];
    card.to_host(&mut foreign);
    card.to_guest(&mut foreign);
    assert_eq!(foreign, [0x5au8; 64]);
}

#[test]
fn every_vm_is_named_apart_in_both_layouts() {
    assert_eq!(
        name_from_socket("/mnt/vmstore/leandro/vm/desktop2/nvrm.sock"),
        "desktop2/nvrm"
    );
    let (a, b) = (
        name_from_socket("/run/ms/nvrm/0f3a.sock"),
        name_from_socket("/run/ms/nvrm/77c1.sock"),
    );
    assert_ne!(vm_uuid(&a), vm_uuid(&b), "one directory, two VMs, two UUIDs");
    assert_eq!(
        vm_uuid(&a),
        vm_uuid(&name_from_socket("/run/ms/nvrm/0f3a.sock")),
        "a restart keeps it"
    );
    assert_eq!(name_from_socket("nvrm.sock"), "/nvrm");
}

#[test]
fn a_socket_without_parts_has_an_empty_name() {
    assert_eq!(name_from_socket("/"), "/");
    assert_eq!(name_from_socket("/nvrm.sock"), "/nvrm");
    assert_eq!(name_from_socket("a/b.c.sock"), "a/b.c");
    assert_eq!(name_from_socket("a/.sock"), "a/.sock");
    assert_eq!(name_from_socket("a/plain"), "a/plain");
    assert_eq!(vm_name(None, None), "/");
    assert_eq!(vm_name(Some("d".to_string()), Some("s".to_string())), "d/s");
}

#[test]
fn the_hash_is_fnv1a() {
    assert_eq!(fnv1a(b""), 0xcbf2_9ce4_8422_2325);
    assert_eq!(fnv1a(b"a"), 0xaf63_dc4c_8601_ec8c);
    assert_eq!(fnv1a(b"foobar"), 0x8594_4171_f739_67e8);
}

#[test]
fn switches_pick_single_mediations() {
    let pick = |raw: &str| {
        let s = switches(raw);
        (mediate_mode(&s), mediate_uuid(&s), mediate_enc(&s))
    };
    assert_eq!(pick(""), (false, true, true), "the mode is off by default");
    assert_eq!(pick("  "), (false, true, true));
    assert_eq!(pick("NONE"), (false, false, false));
    assert_eq!(pick(" mode , Uuid"), (true, true, false));
    assert_eq!(pick("enc"), (false, false, true));
    assert_eq!(pick("x,all"), (true, true, true));
    assert_eq!(pick("none,enc"), (false, false, true));
    assert_eq!(pick("modes"), (false, false, false));
}

#[test]
fn a_swapped_value_is_found_at_any_place_and_often() {
    let card = Card::new("vm/a/b.sock", [0x41; 16], 1 << 30);
    let mut buf = vec![7u8; 4];
    buf.extend_from_slice(&card.host);
    buf.extend_from_slice(&card.host);
    buf.push(9);
    let asked = buf.clone();
    card.to_guest(&mut buf);
    assert_eq!(&buf[4..20], &card.guest);
    assert_eq!(&buf[20..36], &card.guest);
    assert_eq!((buf[3], buf[36]), (7, 9));
    card.to_host(&mut buf);
    assert_eq!(buf, asked);
}

/// A setting is read between its commas, whatever white space is around them.
#[test]
fn switches_are_read_part_by_part() {
    let mode = |raw: &str| mediate_mode(&switches(raw));
    assert!(mode("\t ,Mode ,\n"));
    assert!(mode(" x , ALL "));
    assert!(!mode(" , , "));
    assert!(!mode(" none "));
    assert!(!mode("mode x"));
    let s = switches(" , ");
    assert!(!mediate_uuid(&s) && !mediate_enc(&s), "a comma is not nothing");
}

/// What passes to the guest comes back as it was, also where the card's UUID could start
/// inside itself; what holds no UUID passes as it is.
#[test]
fn an_answer_comes_back_as_it_was() {
    let card = Card::new("vm/a/b.sock", [0x41; 16], 1 << 30);
    let mut buf = vec![0x41u8; 20];
    buf.extend_from_slice(format_uuid(&card.host).as_bytes());
    buf.extend_from_slice(&[0x41; 17]);
    let asked = buf.clone();
    card.to_guest(&mut buf);
    assert_eq!(&buf[..16], &card.guest);
    assert_eq!(&buf[16..20], &[0x41; 4]);
    assert_eq!(&buf[20..60], format_uuid(&card.guest).as_bytes());
    assert_eq!(&buf[60..76], &card.guest);
    card.to_host(&mut buf);
    assert_eq!(buf, asked);
    card.to_host(&mut buf);
    assert_eq!(buf, asked, "nothing of the guest's in it");
}
