use vhost_user_nvrm::abi::{
    Abi, AnswerFields, Controls, Dev, Embedded, Escapes, Field, HeapFunctions, InfoIndices, Layout,
    NestedSpec, OsdescNumbers, Params, UvmNumbers, CLASS_KERNEL_CALLBACK_EX, CLASS_OS_DESCRIPTOR,
    CLASS_OS_EVENT, NV_ERR_NO_MEMORY, NV_ERR_OPERATING_SYSTEM, NV_OK,
};
use vhost_user_nvrm::events::{
    EventAnswer, EventBook, EventReg, Pollable, WaiterSlot, WaiterTarget,
};
use vhost_user_nvrm::execute::{complete, launch, too_short, Deed, Launch, Rules};
use vhost_user_nvrm::grid::Card;
use vhost_user_nvrm::host_pool::{Arena, PinBudget, Variable};
use vhost_user_nvrm::nvrm::{task_of, Task};
use vhost_user_nvrm::plan::{
    iowr, nvos02_flags_for_osdesc, os_event_outcome, Action, Plan, Refusal, Stage, Want,
};
use vhost_user_nvrm::prepare::{
    abandon, begin, bind, can_serve, ctl_opened, os_event_made, place_arena, reserve, retarget,
    substitute, Context, Hosts, UVM_MIGRATE, UVM_SET_PREFERRED_LOCATION,
};
use vhost_user_nvrm::session::{
    ctrl_dump_wanted, debug_level, object_line, switch_on, ProcInfo, Session,
};
use vhost_user_nvrm::vram::{Ledger, Policy, Profile, V_STATUS_OFF};
use vhost_user_nvrm::waiters::RegistrationId;
use vhost_user_nvrm::wire::{Kind, Limits, NestedDesc, Reply, Req, Rsp};

const NO_HOSTS: Hosts = Hosts { fd_field: None, aux_fd: None };

fn abi() -> Abi {
    Abi {
        escapes: Escapes {
            rm_alloc: 0x2b,
            rm_alloc_object: 0x28,
            rm_alloc_memory: 0x27,
            rm_free: 0x29,
            rm_control: 0x2a,
            rm_dup_object: 0x34,
            rm_share: 0x35,
            rm_map_memory: 0x4e,
            rm_unmap_memory: 0x4f,
            rm_vid_heap_control: 0x4a,
            rm_bind_context_dma: 0x49,
            rm_map_memory_dma: 0x57,
            rm_unmap_memory_dma: 0x58,
            alloc_os_event: 206,
            free_os_event: 207,
            attach_gpus_to_fd: 212,
        },
        heap: HeapFunctions {
            alloc_size: 2,
            free: 3,
            info: 5,
            hw_alloc: 20,
            alloc_os_descriptor: 27,
        },
        controls: Controls {
            gpu_get_pids: 0x2080018d,
            gpu_get_pid_info: 0x2080018e,
            fb_get_info: 0x20801301,
            fb_get_info_v2: 0x20801303,
            gpu_get_name_string: 0x20800110,
            gpu_get_virtualization_mode: 0x800289,
            gpu_get_encoder_capacity: 0x2080016c,
            semsurf_register_waiter: 0xda0005,
            semsurf_unregister_waiter: 0xda0006,
            gpu_get_gid_info: 0x2080014a,
            gpu_get_uuid_info: 0x274,
            gpu_get_uuid_from_gpu_id: 0x275,
        },
        info: InfoIndices {
            ram_size: 7,
            total_ram_size: 8,
            heap_size: 9,
            heap_free: 0x14,
            usable_ram_size: 0x25,
            video_memory_usage: 0,
        },
        answers: AnswerFields {
            virtmode_len: 8,
            virtmode_gridbuild: 4,
            enccap_len: 8,
            enccap_off: 4,
        },
        nvos54_serialized: 1,
        nvos64_serialized: 2,
        class_root_client: 0x41,
        uvm: UvmNumbers {
            register_gpu_vaspace: 25,
            register_channel: 27,
            unregister_channel: 28,
            map_external_allocation: 33,
            register_gpu: 37,
            free: 34,
            unregister_channel_client: 16,
            free_len: 24,
            free_status: 16,
            free_base: 0,
            free_length: 8,
        },
        osdesc: OsdescNumbers {
            len: 128,
            attr_off: 20,
            attr2_off: 24,
            limit_off: 64,
            coherency: Field { lo: 29, mask: 0x7 },
            uncached: 0,
            cached: 1,
            write_combine: 2,
            write_through: 3,
            write_protect: 4,
            write_back: 5,
            gpu_cacheable: Field { lo: 2, mask: 0x3 },
            gpu_cacheable_yes: 1,
            flags_physicality: Field { lo: 4, mask: 0xf },
            flags_noncontiguous: 1,
            flags_location: Field { lo: 8, mask: 0xf },
            flags_pci: 0,
            flags_coherency: Field { lo: 12, mask: 0xf },
            flags_write_back: 5,
            flags_gpu_cacheable: Field { lo: 18, mask: 0x1 },
            flags_gpu_cacheable_yes: 1,
            flags_gpu_cacheable_no: 0,
            flags_mapping: Field { lo: 30, mask: 0x3 },
            flags_no_map: 1,
        },
    }
}

/// `NV_ESC_REGISTER_FD`.
const REGISTER_FD: u32 = 201;
/// `NV_ESC_CARD_INFO`, whose block is an array of cards.
const CARD_INFO: u32 = 200;
const CARD_INFO_LEN: u32 = 72;
/// `NV_ESC_CHECK_VERSION_STR`.
const CHECK_VERSION_STR: u32 = 210;
const CHECK_VERSION_STR_LEN: u32 = 72;
/// `NV_ESC_NUMA_INFO`.
const NUMA_INFO: u32 = 215;
const NUMA_INFO_LEN: u32 = 1304;
/// The size of `NVOS32_PARAMETERS`.
const NVOS32_LEN: u32 = 184;
/// `UVM_INITIALIZE`.
const UVM_INITIALIZE: u32 = 0x3000_0001;

fn word(b: &[u8], off: usize) -> u32 {
    match b.get(off..off + 4) {
        Some(w) => u32::from_le_bytes(w.try_into().unwrap()),
        None => 0,
    }
}

fn double(b: &[u8], off: usize) -> u64 {
    match b.get(off..off + 8) {
        Some(w) => u64::from_le_bytes(w.try_into().unwrap()),
        None => 0,
    }
}

/// What the driver's tables say of the requests of these tests.
fn tables(dev: Dev, nr: u32, inline: &[u8], aux: &[u8]) -> Layout {
    let e = abi().escapes;
    let len = inline.len() as u32;
    let uvm = dev.is_uvm();
    let alloc = !uvm && nr == e.rm_alloc;
    let control = !uvm && nr == e.rm_control;
    let uvm_size = match nr {
        UVM_INITIALIZE => Some(16),
        33 => Some(9288),
        34 => Some(24),
        37 => Some(40),
        42 => Some(40),
        51 => Some(80),
        68 => Some(9248),
        70 => Some(24),
        _ => None,
    };
    let frontend_accepts = if nr == e.rm_alloc {
        Some(len == 32 || len == 48)
    } else if nr == e.rm_alloc_object {
        Some(len == 20)
    } else if nr == e.rm_alloc_memory {
        Some(len == 56)
    } else if nr == e.rm_free {
        Some(len == 16)
    } else if nr == e.rm_control {
        Some(len == 32)
    } else if nr == e.rm_dup_object {
        Some(len == 28)
    } else if nr == e.rm_vid_heap_control {
        Some(len == NVOS32_LEN)
    } else if nr == e.alloc_os_event || nr == e.free_os_event {
        Some(len == 16)
    } else if nr == REGISTER_FD {
        Some(len == 4)
    } else if nr == CARD_INFO {
        Some(len != 0 && len % CARD_INFO_LEN == 0)
    } else if nr == CHECK_VERSION_STR {
        Some(len == CHECK_VERSION_STR_LEN)
    } else if nr == NUMA_INFO {
        Some(len == NUMA_INFO_LEN)
    } else {
        None
    };
    let fd_off = if uvm {
        if nr == 37 {
            Some(24)
        } else {
            None
        }
    } else if nr == REGISTER_FD {
        Some(0)
    } else if nr == e.rm_alloc_memory {
        Some(48)
    } else if nr == e.alloc_os_event || nr == e.free_os_event {
        Some(8)
    } else {
        None
    };
    let class = word(inline, 12);
    let class_size = match class {
        0x5 | 0x7e => Some(24),
        0x3e | 0x50a0 => Some(128),
        0x40 => Some(128),
        0x71 => Some(128),
        0x80 => Some(56),
        0x2080 => Some(4),
        _ => None,
    };
    let params = if alloc && double(inline, 16) != 0 {
        match class_size {
            Some(len) => Params::Behind(Embedded { ptr_off: 16, len }),
            None => Params::Unknown,
        }
    } else if control && double(inline, 16) != 0 && word(inline, 24) != 0 {
        Params::Behind(Embedded { ptr_off: 16, len: word(inline, 24) })
    } else {
        Params::Absent
    };
    let cmd = word(inline, 8);
    let nested = if control && cmd == 0x101 {
        let len = if aux.len() >= 4 { Some(word(aux, 0)) } else { None };
        vec![
            NestedSpec { ptr_off: 8, len },
            NestedSpec { ptr_off: 16, len },
            NestedSpec { ptr_off: 24, len },
        ]
    } else if control && cmd == 0x0080_170d {
        let len = if aux.len() >= 4 { Some(4 * word(aux, 0)) } else { None };
        vec![NestedSpec { ptr_off: 8, len }, NestedSpec { ptr_off: 16, len }]
    } else if control && cmd == 0x2080_1802 {
        let len = if aux.len() >= 4 { Some(8 * word(aux, 0)) } else { None };
        vec![NestedSpec { ptr_off: 8, len }]
    } else {
        vec![]
    };
    Layout {
        uvm_size,
        frontend_accepts,
        fd_off,
        class_blocked: [0xc637u32, 0xc638, 0xc639, 0xc640, 0xb0cd, 0xb0ce, 0xcdcd].contains(&class),
        ctrl_blocked: [0x127, 0x130, 0x3d08, 0x3d0a, 0x3d0b, 0x3d0c, 0x83de0315].contains(&cmd),
        params,
        alloc_fd_guard: if class == 0x5 { Some((8, CLASS_OS_EVENT)) } else { None },
        alloc_fd: if class == 0x5 { Some(16) } else { None },
        ctrl_fd: if cmd == 0x3d06 { Some(0) } else { None },
        nested,
        uvm_status: match nr {
            UVM_INITIALIZE => Some(8),
            33 => Some(9280),
            34 => Some(16),
            37 => Some(36),
            42 => Some(36),
            51 => Some(72),
            68 => Some(9240),
            70 => Some(16),
            _ => None,
        },
        uvm_dupes_class: alloc && (class == 0x80 || class == 0x2080),
    }
}

/// A call that would have reached the driver.
#[derive(Debug, Clone, PartialEq)]
enum Call {
    Ioctl { fd: i32, request: u64, inline: Vec<u8> },
    SetSubProcessId { h_client: u32, sub_id: u32, name: String },
}

/// A driver that writes down what it is asked, and answers as it was told to.
struct Fake {
    calls: Vec<Call>,
    /// What it answers next, with the error; then `ret`.
    rets: Vec<(i32, i32)>,
    ret: i32,
    writes_back: Vec<(usize, Vec<u8>)>,
}

impl Fake {
    fn new() -> Fake {
        Fake { calls: vec![], rets: vec![], ret: 0, writes_back: vec![] }
    }

    fn ioctl(&mut self, fd: i32, request: u64, block: &mut [u8]) -> (i32, i32) {
        self.calls.push(Call::Ioctl { fd, request, inline: block.to_vec() });
        for (off, bytes) in &self.writes_back {
            if off + bytes.len() <= block.len() {
                block[*off..off + bytes.len()].copy_from_slice(bytes);
            }
        }
        if self.rets.is_empty() {
            (self.ret, libc::EIO)
        } else {
            self.rets.remove(0)
        }
    }

    fn ioctl_count(&self) -> usize {
        self.calls.iter().filter(|c| matches!(c, Call::Ioctl { .. })).count()
    }

    /// The numbers of the calls, without the size and the letter.
    fn numbers(&self) -> Vec<u32> {
        self.calls
            .iter()
            .filter_map(|c| match c {
                Call::Ioctl { request, .. } => Some((*request & 0xff) as u32),
                _ => None,
            })
            .collect()
    }

    fn last_inline(&self) -> Vec<u8> {
        match self.calls.last() {
            Some(Call::Ioctl { inline, .. }) => inline.clone(),
            _ => panic!("no ioctl"),
        }
    }
}

/// A session on a driver that is none.
struct Rig {
    s: Session,
    led: Ledger,
    budget: PinBudget,
    fake: Fake,
    card: Option<Card>,
    next_fd: i32,
    /// Where the buffer of the last request was.
    base: u64,
}

const OWN_FD: i32 = 33;

fn limits() -> Limits {
    Limits {
        proto_version: 7,
        req_len: 256,
        rsp_len: 32,
        proc_info_len: 24,
        max_payload: 64 << 10,
        max_aux: 1 << 20,
        max_msg: 2 << 20,
    }
}

impl Rig {
    fn new(led: Ledger, kind: Dev) -> (Rig, u64) {
        let mut s = Session::detached_proc(7);
        let token = s.finish_open(&Req::default(), kind, OWN_FD).token;
        let budget = PinBudget::new(1024 << 20).ok().unwrap();
        let rig = Rig { s, led, budget, fake: Fake::new(), card: None, next_fd: 100, base: 0x7000 };
        (rig, token)
    }

    fn refuse(&mut self, plan: &Plan, e: Refusal) -> Refusal {
        abandon(&mut self.budget, plan);
        e
    }

    /// Everything up to the call itself.
    fn prepare(&mut self, req: &Req, payload: &[u8], hosts: Hosts) -> Result<Plan, Refusal> {
        let abi = abi();
        let split = (req.inline_len as usize).min(payload.len());
        let dev = req.dev.unwrap_or(Dev::Ctl);
        let layout = tables(dev, req.ioctl_nr, &payload[..split], &payload[split..]);
        let private = self.budget.private_clients();
        let cx = Context { abi: &abi, layout: &layout, limits: limits(), private: &private };
        let mut plan =
            begin(&cx, &self.s.mirror, &mut self.s.events, req, payload, hosts, false)?;
        loop {
            match plan.stage {
                Stage::MapArena | Stage::OpenGpu => return Err(self.refuse(&plan, Refusal::Arena)),
                Stage::Bind => {
                    let (base, capped) = (self.base, self.led.enabled());
                    bind(&cx, &mut self.s.events, &mut plan, req, hosts, base, capped)?
                }
                Stage::Substitute => substitute(&abi, &mut self.s.events, &mut plan)?,
                Stage::OpenCtl => {
                    self.next_fd += 1;
                    ctl_opened(&abi, &mut self.s.events, &mut plan, self.next_fd);
                }
                Stage::AllocOsEvent => {
                    let (client, id, fd) = match plan.want {
                        Want::Event { h_client, id, ctl } => (h_client, id, ctl.unwrap()),
                        Want::Slot { h_client, id, ctl, .. } => (h_client, id, ctl.unwrap()),
                        Want::Nothing => panic!("nothing to allocate"),
                    };
                    let mut block = vec![0u8; 16];
                    block[0..4].copy_from_slice(&client.to_le_bytes());
                    block[8..12].copy_from_slice(&id.to_le_bytes());
                    let (ret, _) =
                        self.fake.ioctl(fd, iowr(abi.escapes.alloc_os_event, 16), &mut block);
                    if let Some(refusal) = os_event_outcome(ret, word(&block, 12)) {
                        return Err(self.refuse(&plan, refusal));
                    }
                    os_event_made(&abi, &mut self.s.events, &mut plan);
                }
                Stage::Reserve => {
                    reserve(&abi, &mut self.s.books, &mut self.led, &mut plan, false)
                }
                Stage::Ready => return Ok(plan),
            }
        }
    }

    /// The call, and what follows it.
    fn execute(&mut self, mut plan: Plan) -> Reply {
        let abi = abi();
        let layout = tables(plan.dev, plan.nr, &plan.inline, &plan.aux);
        let rules = Rules {
            abi: &abi,
            layout: &layout,
            card: self.card.as_ref(),
            mode: true,
            enc: true,
            name_raw: false,
        };
        let (ret, errno) = match launch(&rules, &self.s.pool, &mut self.s.books, &mut plan) {
            Launch::Forward => {
                let (fd, request) = (plan.target_fd, plan.request);
                self.fake.ioctl(fd, request, &mut plan.inline)
            }
            Launch::Answered { .. } => (0, libc::EIO),
            Launch::TooShort => return too_short(&plan),
        };
        let out = complete(
            &rules,
            self.s.sub_id,
            &mut self.s.pool,
            &mut self.budget,
            &mut self.s.books,
            &mut self.led,
            &mut self.s.events,
            plan,
            ret,
            errno.max(1),
        );
        for deed in &out.deeds {
            match *deed {
                Deed::FreeOsEvent { fd, h_client, id } => {
                    let mut block = vec![0u8; 16];
                    block[0..4].copy_from_slice(&h_client.to_le_bytes());
                    block[8..12].copy_from_slice(&id.to_le_bytes());
                    self.fake.ioctl(fd, iowr(abi.escapes.free_os_event, 16), &mut block);
                }
                Deed::SetSubProcessId { h_client, .. } => {
                    let (sub_id, name) = (self.s.sub_id, self.s.sub_name());
                    self.fake.calls.push(Call::SetSubProcessId { h_client, sub_id, name });
                }
                _ => {}
            }
        }
        out.reply
    }

    fn send_with(&mut self, m: &Msg, hosts: Hosts) -> Reply {
        match task_of(&m.req) {
            Task::Hello => Reply::bare(Session::on_hello(&limits(), &m.req)),
            Task::Open => {
                let node = self.s.begin_open(&limits(), &mut self.led, &m.req, m.said).0;
                Reply::bare(match node {
                    Err(rsp) => rsp,
                    Ok(dev) => self.s.finish_open(&m.req, dev, OWN_FD),
                })
            }
            Task::Close => {
                let token = m.req.target_token;
                self.s.close_token(&mut self.led, &mut self.budget, token);
                Reply::bare(Rsp::ok(m.req.seq, 0))
            }
            Task::Ioctl => match self.prepare(&m.req, &m.payload, hosts) {
                Ok(plan) => self.execute(plan),
                Err(e) => Reply::bare(Rsp::err(m.req.seq, e.errno())),
            },
            Task::MapPrepare => Reply::bare(self.s.on_map_prepare(&m.req)),
            Task::PoolBack => panic!("no guest memory"),
            Task::Refused(rsp) => Reply::bare(rsp),
        }
    }

    fn send(&mut self, m: &Msg) -> Reply {
        self.send_with(m, Hosts { fd_field: None, aux_fd: None })
    }
}

/// A message: the header, and what follows it.
struct Msg {
    req: Req,
    payload: Vec<u8>,
    said: Option<ProcInfo>,
}

fn msg(req: Req, inline: &[u8], aux: &[u8]) -> Msg {
    let mut payload = inline.to_vec();
    payload.extend_from_slice(aux);
    Msg { req, payload, said: None }
}

fn session() -> (Rig, u64) {
    Rig::new(Ledger::off(), Dev::Ctl)
}

fn session_with_kind(kind: Dev) -> (Rig, u64) {
    Rig::new(Ledger::off(), kind)
}

fn capped_session(limit: u64) -> (Rig, u64) {
    Rig::new(Ledger::for_test(limit), Dev::Ctl)
}

fn close_msg(token: u64) -> Msg {
    let req = Req {
        seq: 1,
        kind: Kind::Close,
        dev: Some(Dev::Ctl),
        target_token: token,
        ..Req::default()
    };
    msg(req, &[], &[])
}

fn ioctl_req(token: u64, nr: u32, inline_len: usize, aux_len: usize) -> Req {
    Req {
        seq: 1,
        kind: Kind::Ioctl,
        dev: Some(Dev::Ctl),
        ioctl_nr: nr,
        target_token: token,
        inline_len: inline_len as u32,
        aux_len: aux_len as u32,
        ..Req::default()
    }
}

/// The errno out of a reply, or None on success.
fn errno_of(reply: &Reply) -> Option<i32> {
    if reply.rsp.ret < 0 {
        Some(-reply.rsp.ret)
    } else {
        None
    }
}

fn esc() -> Escapes {
    abi().escapes
}

#[test]
fn an_ioctl_cannot_change_its_opened_device_type() {
    for (kind, tag, nr, size) in [
        (Dev::Ctl, Dev::Uvm, UVM_INITIALIZE, 16),
        (Dev::Uvm, Dev::Ctl, esc().rm_free, 16),
        (Dev::Gpu, Dev::Ctl, esc().rm_free, 16),
    ] {
        let (mut rig, token) = session_with_kind(kind);
        let req = Req { dev: Some(tag), ..ioctl_req(token, nr, size, 0) };
        let reply = rig.send(&msg(req, &vec![0; size], &[]));
        assert_eq!(errno_of(&reply), Some(libc::EINVAL));
        assert_eq!(rig.fake.ioctl_count(), 0);
    }
}

#[test]
fn forwarded_dup_cannot_use_a_private_pool_client() {
    let (mut rig, token) = session();
    let private = 0x12345678_u32;
    rig.budget.private_client(private);
    let mut inline = vec![0; 28];
    inline[12..16].copy_from_slice(&private.to_le_bytes());
    let m = msg(ioctl_req(token, esc().rm_dup_object, inline.len(), 0), &inline, &[]);
    let reply = rig.send(&m);
    assert_eq!(errno_of(&reply), Some(libc::EPERM));
    assert_eq!(rig.fake.ioctl_count(), 0);

    rig.budget.close_client(private);
    let reply = rig.send(&m);
    assert_eq!(errno_of(&reply), None);
    assert_eq!(rig.fake.ioctl_count(), 1);
}

#[test]
fn unknown_kind_gets_eproto_and_no_syscall() {
    let (mut rig, _) = session();
    // Exactly the device-only kinds this session must never see.
    for kind in [Kind::GetTables, Kind::MapRelease, Kind::ProcGone, Kind::Unknown] {
        let req = Req { seq: 1, kind, ..Req::default() };
        let r = rig.send(&msg(req, &[], &[]));
        assert_eq!(errno_of(&r), Some(libc::EPROTO), "Kind {kind:?}");
    }
    assert_eq!(rig.fake.ioctl_count(), 0);
}

#[test]
fn hello_checks_the_protocol_version() {
    let (mut rig, _) = session();
    let hello = |nr| {
        msg(Req { seq: 1, kind: Kind::Hello, ioctl_nr: nr, ..Req::default() }, &[], &[])
    };
    let version = limits().proto_version;
    assert_eq!(errno_of(&rig.send(&hello(version + 1))), Some(libc::EPROTO));
    assert_eq!(errno_of(&rig.send(&hello(version))), None);
}

#[test]
fn payload_shorter_than_announced_is_rejected() {
    let (mut rig, tok) = session();
    // inline_len claims 32, only 16 bytes sent.
    let req = ioctl_req(tok, esc().rm_control, 32, 0);
    let r = rig.send(&msg(req, &[0u8; 16], &[]));
    assert_eq!(errno_of(&r), Some(libc::EINVAL));

    // The same via the aux part.
    let req = ioctl_req(tok, esc().rm_control, 32, 4096);
    let r = rig.send(&msg(req, &[0u8; 32], &[0u8; 8]));
    assert_eq!(errno_of(&r), Some(libc::EINVAL));

    assert_eq!(rig.fake.ioctl_count(), 0, "no ioctl on a too-short message");
}

/// The cap must fire even when the guest ACTUALLY sends the bytes --
/// otherwise the test only checks the length consistency in front of it
/// and the cap could be removed unnoticed.
#[test]
fn oversized_inline_and_aux_are_rejected() {
    let (mut rig, tok) = session();
    let n = limits().max_payload + 1;
    let req = ioctl_req(tok, esc().rm_control, n, 0);
    let r = rig.send(&msg(req, &vec![0u8; n], &[]));
    assert_eq!(errno_of(&r), Some(libc::EINVAL), "inline over MAX_PAYLOAD");

    let a = limits().max_aux + 1;
    let req = ioctl_req(tok, esc().rm_control, 32, a);
    let r = rig.send(&msg(req, &[0u8; 32], &vec![0u8; a]));
    assert_eq!(errno_of(&r), Some(libc::EINVAL), "aux over MAX_AUX");

    assert_eq!(rig.fake.ioctl_count(), 0);
}

/// `aux_len` is chosen by the guest, but the length RM dereferences the
/// pointer with sits in the inline struct (NVOS54.paramsSize). Believing
/// aux_len alone gets the daemon heap read past its end.
#[test]
fn lying_params_size_is_caught() {
    let (mut rig, tok) = session();
    let mut inline = vec![0u8; 32];
    inline[8..12].copy_from_slice(&0x2080_0110u32.to_le_bytes()); // some cmd
    inline[16..24].copy_from_slice(&0xdead_beefu64.to_le_bytes()); // params != 0
    inline[24..28].copy_from_slice(&4096u32.to_le_bytes()); // paramsSize LIES
    let mut req = ioctl_req(tok, esc().rm_control, 32, 16);
    req.embedded_ptr_off = Some(16);
    let r = rig.send(&msg(req, &inline, &[0u8; 16]));
    assert_eq!(errno_of(&r), Some(libc::EINVAL), "4096 expected, 16 sent");
    assert_eq!(rig.fake.ioctl_count(), 0);
}

/// Reject pointer offsets that differ from the descriptor.
#[test]
fn embedded_ptr_off_outside_inline_is_rejected() {
    let (mut rig, tok) = session();
    let mut req = ioctl_req(tok, esc().rm_control, 32, 0);
    req.embedded_ptr_off = Some(28); // 28+8 > 32, and != ptr_off 16
    let r = rig.send(&msg(req, &[0u8; 32], &[]));
    assert_eq!(errno_of(&r), Some(libc::EINVAL));
    assert_eq!(rig.fake.ioctl_count(), 0);
}

#[test]
fn fd_field_off_outside_inline_is_rejected() {
    let (mut rig, tok) = session();
    let mut req = ioctl_req(tok, esc().rm_control, 32, 0);
    req.fd_field_off = Some(30); // 30+4 > 32
    let r = rig.send(&msg(req, &[0u8; 32], &[]));
    assert_eq!(errno_of(&r), Some(libc::EINVAL));

    // And an fd field pointing at an unknown token: EBADF.
    let mut req = ioctl_req(tok, REGISTER_FD, 4, 0);
    req.fd_field_off = Some(0);
    req.fd_field_token = Some(0xdead);
    let r = rig.send(&msg(req, &[0u8; 4], &[]));
    assert_eq!(errno_of(&r), Some(libc::EBADF));
    assert_eq!(rig.fake.ioctl_count(), 0);
}

#[test]
fn an_unresolved_explicit_fd_owner_cannot_alias_a_local_token() {
    let (mut rig, tok) = session();
    let request = |owner| {
        let req = Req {
            fd_field_off: Some(0),
            fd_field_token: Some(tok),
            fd_field_proc: Some(owner),
            ..ioctl_req(tok, REGISTER_FD, 4, 0)
        };
        msg(req, &[0; 4], &[])
    };
    for owner in [7, 8] {
        let reply = rig.send(&request(owner));
        assert_eq!(errno_of(&reply), Some(libc::EBADF));
    }
    assert_eq!(rig.fake.ioctl_count(), 0);

    // Device resolution is required even when the explicit owner is this session.
    let fd = rig.s.mirror_raw(tok);
    let reply = rig.send_with(&request(7), Hosts { fd_field: fd, aux_fd: None });
    assert_eq!(reply.rsp.ret, 0);
    assert_eq!(rig.fake.ioctl_count(), 1);
}

#[test]
fn aux_fd_field_off_outside_aux_is_rejected() {
    let (mut rig, tok) = session();
    let mut req = ioctl_req(tok, esc().rm_control, 32, 8);
    req.aux_fd_field_off = Some(4); // 4+8 > 8
    let r = rig.send(&msg(req, &[0u8; 32], &[0u8; 8]));
    assert_eq!(errno_of(&r), Some(libc::EINVAL));
    assert_eq!(rig.fake.ioctl_count(), 0);
}

#[test]
fn nested_count_mismatch_is_rejected() {
    let (mut rig, tok) = session();
    let mut req = ioctl_req(tok, esc().rm_control, 32, 64);
    req.nested_count = 17;
    req.nested = vec![NestedDesc { ptr_off: 0, aux_off: 0, len: 0 }; 16];
    let r = rig.send(&msg(req, &[0u8; 32], &[0u8; 64]));
    assert_eq!(errno_of(&r), Some(libc::EINVAL));

    // Matching the number, but the command has no second-level pointers
    // at all; that is 0 annotated against 1 claimed.
    let mut inline = vec![0u8; 32];
    inline[8..12].copy_from_slice(&0x2080_0110u32.to_le_bytes());
    let mut req = ioctl_req(tok, esc().rm_control, 32, 64);
    req.nested_count = 1;
    req.nested = vec![NestedDesc { ptr_off: 0, aux_off: 0, len: 0 }; 16];
    let r = rig.send(&msg(req, &inline, &[0u8; 64]));
    assert_eq!(errno_of(&r), Some(libc::EINVAL));
    assert_eq!(rig.fake.ioctl_count(), 0);
}

#[test]
fn omitted_embedded_metadata_is_rejected_before_forwarding() {
    let (mut rig, tok) = session();
    let mut inline = vec![0u8; 32];
    inline[8..12].copy_from_slice(&0x2080_0101u32.to_le_bytes());
    inline[16..24].copy_from_slice(&0x1234_5678_9000u64.to_le_bytes());
    inline[24..28].copy_from_slice(&16u32.to_le_bytes());
    let req = ioctl_req(tok, esc().rm_control, 32, 0);
    let reply = rig.send(&msg(req, &inline, &[]));
    assert_eq!(errno_of(&reply), Some(libc::EINVAL));
    assert_eq!(rig.fake.ioctl_count(), 0);
}

#[test]
fn omitted_nested_and_fd_metadata_never_reach_the_driver() {
    let (mut rig, tok) = session();
    let mut inline = vec![0; 32];
    inline[8..12].copy_from_slice(&0x2080_1802u32.to_le_bytes());
    inline[16..24].copy_from_slice(&1u64.to_le_bytes());
    inline[24..28].copy_from_slice(&16u32.to_le_bytes());
    let mut aux = vec![0; 16];
    aux[..4].copy_from_slice(&1u32.to_le_bytes());
    aux[8..16].copy_from_slice(&0x1234_0000u64.to_le_bytes());
    let mut req = ioctl_req(tok, esc().rm_control, 32, 16);
    req.embedded_ptr_off = Some(16);
    let reply = rig.send(&msg(req, &inline, &aux));
    assert_eq!(errno_of(&reply), Some(libc::EINVAL));

    let req = ioctl_req(tok, REGISTER_FD, 4, 0);
    let reply = rig.send(&msg(req, &123i32.to_le_bytes(), &[]));
    assert_eq!(errno_of(&reply), Some(libc::EINVAL));
    assert_eq!(rig.fake.ioctl_count(), 0);
}

#[test]
fn a_short_uvm_envelope_never_reaches_the_driver() {
    let (mut rig, tok) = session_with_kind(Dev::Uvm);
    let req = Req { dev: Some(Dev::Uvm), ..ioctl_req(tok, UVM_INITIALIZE, 1, 0) };
    let reply = rig.send(&msg(req, &[0], &[]));
    assert_eq!(errno_of(&reply), Some(libc::EINVAL));
    assert_eq!(rig.fake.ioctl_count(), 0);
}

#[test]
fn serialized_requests_are_refused_before_the_driver() {
    let (mut rig, tok) = session();
    let mut inline = vec![0; 32];
    inline[8..12].copy_from_slice(&0x2080_0101u32.to_le_bytes());
    inline[12..16].copy_from_slice(&abi().nvos54_serialized.to_le_bytes());
    let req = ioctl_req(tok, esc().rm_control, 32, 0);
    assert_eq!(errno_of(&rig.send(&msg(req, &inline, &[]))), Some(libc::ENOTSUP));
    let mut inline = vec![0; 48];
    inline[36..40].copy_from_slice(&abi().nvos64_serialized.to_le_bytes());
    let req = ioctl_req(tok, esc().rm_alloc, 48, 0);
    assert_eq!(errno_of(&rig.send(&msg(req, &inline, &[]))), Some(libc::ENOTSUP));
    assert_eq!(rig.fake.ioctl_count(), 0);
}

#[test]
fn a_sparse_nested_control_translates_its_nonnull_target() {
    let (mut rig, tok) = session();
    let mut inline = vec![0; 32];
    inline[8..12].copy_from_slice(&0x0080_170du32.to_le_bytes());
    inline[16..24].copy_from_slice(&1u64.to_le_bytes());
    inline[24..28].copy_from_slice(&24u32.to_le_bytes());
    let mut aux = vec![0; 28];
    aux[..4].copy_from_slice(&1u32.to_le_bytes());
    aux[16..24].copy_from_slice(&0x1234_0000u64.to_le_bytes());
    let mut req = ioctl_req(tok, esc().rm_control, 32, aux.len());
    req.embedded_ptr_off = Some(16);
    req.nested_count = 1;
    req.nested = vec![NestedDesc { ptr_off: 16, aux_off: 24, len: 4 }];
    let m = msg(req, &inline, &aux);
    let plan = rig.prepare(&m.req, &m.payload, NO_HOSTS).unwrap();
    assert_eq!(double(&plan.aux, 8), 0);
    assert_eq!(double(&plan.aux, 16), rig.base + 24);
    assert_eq!(double(&plan.inline, 16), rig.base, "the parameters themselves");
    rig.execute(plan);
    assert_eq!(rig.fake.ioctl_count(), 1);
}

#[test]
fn xfer_repack_is_refused_loudly() {
    let (mut rig, tok) = session();
    // inline_len > 14 bits: no longer fits into the _IOC encoding.
    let n = (1 << 14) as usize;
    let req = ioctl_req(tok, esc().rm_control, n, 0);
    let r = rig.send(&msg(req, &vec![0u8; n], &[]));
    assert_eq!(errno_of(&r), Some(libc::EMSGSIZE), "refuse loudly rather than guess");
    assert_eq!(rig.fake.ioctl_count(), 0);
}

const BLOCKED: [u32; 7] = [0x127, 0x130, 0x3d08, 0x3d0a, 0x3d0b, 0x3d0c, 0x83de0315];

/// The denial must fire BEFORE the token lookup; otherwise a denied
/// command would escape simply by the guest sending a nonsense token.
#[test]
fn blocked_controls_are_refused_before_the_token_lookup() {
    let (mut rig, _) = session();
    for cmd in BLOCKED {
        let mut inline = vec![0u8; 32];
        inline[8..12].copy_from_slice(&cmd.to_le_bytes());
        // Deliberately a token that does NOT exist.
        let req = ioctl_req(0xdead_beef, esc().rm_control, 32, 0);
        let r = rig.send(&msg(req, &inline, &[]));
        assert_eq!(errno_of(&r), Some(libc::EPERM), "{cmd:#x} must give EPERM, not EBADF");
    }
    assert_eq!(rig.fake.ioctl_count(), 0);
}

#[test]
fn untranslatable_capability_fd_classes_never_reach_the_driver() {
    let (mut rig, tok) = session();
    for class in [0xc637u32, 0xc638, 0xc639, 0xc640, 0xb0cd, 0xb0ce, 0xcdcd] {
        for len in [32, 48] {
            for with_params in [false, true] {
                let mut inline = vec![0; len];
                inline[12..16].copy_from_slice(&class.to_le_bytes());
                let params_len = if with_params {
                    inline[16..24].copy_from_slice(&1u64.to_le_bytes());
                    8
                } else {
                    0
                };
                let mut req = ioctl_req(tok, esc().rm_alloc, len, params_len);
                if with_params {
                    req.embedded_ptr_off = Some(16);
                }
                let r = rig.send(&msg(req, &inline, &vec![0; params_len]));
                assert_eq!(errno_of(&r), Some(libc::ENOTSUP), "class {class:#x}");
            }
        }
    }
    assert_eq!(rig.fake.ioctl_count(), 0);
}

#[test]
fn unknown_token_gets_ebadf() {
    let (mut rig, _) = session();
    let req = ioctl_req(0xdead_beef, esc().rm_control, 32, 0);
    let r = rig.send(&msg(req, &[0u8; 32], &[]));
    assert_eq!(errno_of(&r), Some(libc::EBADF));
    assert_eq!(rig.fake.ioctl_count(), 0);
}

/// Zero flags are refused twice before RM has looked at a single page:
/// only this one combination is taken.
#[test]
fn osdesc_flags_are_the_one_combination_the_path_takes() {
    let o = abi().osdesc;
    for attr in [0u32, 0xffff_ffff, 0x4200_0000] {
        let (flags, _) = nvos02_flags_for_osdesc(&o, attr, 0);
        assert_ne!(flags, 0, "attr {attr:#x}");
        assert_eq!(o.flags_mapping.get(flags), o.flags_no_map);
        assert_eq!(o.flags_location.get(flags), o.flags_pci);
        assert_eq!(o.flags_coherency.get(flags), o.flags_write_back);
        assert_eq!(
            o.flags_physicality.get(flags),
            o.flags_noncontiguous,
            "the page-array path refuses CONTIGUOUS outright"
        );
    }
}

/// What the guest asked for is answered, not swallowed: the two
/// cacheabilities the path carries pass silently, every other one comes
/// back by name so the substitution reaches the log.
#[test]
fn osdesc_flags_name_the_coherency_that_was_substituted() {
    let o = abi().osdesc;
    for asked in [o.cached, o.write_back] {
        let (_, lost) = nvos02_flags_for_osdesc(&o, o.coherency.set(asked), 0);
        assert_eq!(lost, None, "asked {asked} is carried as asked");
    }
    for (asked, name) in [
        (o.uncached, "UNCACHED"),
        (o.write_combine, "WRITE_COMBINE"),
        (o.write_through, "WRITE_THROUGH"),
        (o.write_protect, "WRITE_PROTECT"),
        (7, "(unknown)"),
    ] {
        let (_, lost) = nvos02_flags_for_osdesc(&o, o.coherency.set(asked), 0);
        assert_eq!(lost, Some(name), "asked {asked} must be reported as substituted");
    }
}

/// And the guest's claim about physicality changes nothing; what RM
/// will describe are pages locked out of a user address space.
#[test]
fn osdesc_physicality_ignores_what_the_guest_claims() {
    let o = abi().osdesc;
    // NVOS32_ATTR_PHYSICALITY is 28:27, and CONTIGUOUS is 2.
    let (flags, _) = nvos02_flags_for_osdesc(&o, 2 << 27, 0);
    assert_eq!(o.flags_physicality.get(flags), o.flags_noncontiguous);
}

#[test]
fn osdesc_gpu_cacheable_follows_attr2() {
    let o = abi().osdesc;
    let (yes, _) = nvos02_flags_for_osdesc(&o, 0, o.gpu_cacheable.set(o.gpu_cacheable_yes));
    assert_eq!(o.flags_gpu_cacheable.get(yes), o.flags_gpu_cacheable_yes);
    let (no, _) = nvos02_flags_for_osdesc(&o, 0, o.gpu_cacheable.set(2));
    assert_eq!(o.flags_gpu_cacheable.get(no), o.flags_gpu_cacheable_no);
}

#[test]
fn gpa_runs_only_on_the_osdesc_alloc() {
    let (mut rig, tok) = session();
    let mut req = ioctl_req(tok, esc().rm_control, 32, 16);
    req.gpa_run_count = 1;
    let r = rig.send(&msg(req, &[0u8; 32], &[0u8; 16]));
    assert_eq!(errno_of(&r), Some(libc::EINVAL), "GPA runs only for 0x71");
    assert_eq!(rig.fake.ioctl_count(), 0);
}

/// `_IOWR('F', nr, size)`.
fn iowr_raw(nr: u32, size: u32) -> u64 {
    0xc000_0000 | (size as u64) << 16 | 0x4600 | nr as u64
}

/// The counter-proof to everything above: a clean call goes through,
/// with exactly the buffer the guest sent, and the _IOC number that
/// matches the length.
#[test]
fn a_clean_call_reaches_the_driver_unchanged() {
    let (mut rig, tok) = session();
    let mut inline = vec![0u8; 32];
    inline[8..12].copy_from_slice(&0x2080_0110u32.to_le_bytes());
    let req = ioctl_req(tok, esc().rm_control, 32, 0);
    let r = rig.send(&msg(req, &inline, &[]));
    assert_eq!(errno_of(&r), None, "a clean call must not be refused");
    assert_eq!(
        rig.fake.calls,
        vec![Call::Ioctl { fd: OWN_FD, request: iowr_raw(esc().rm_control, 32), inline }]
    );
}

/// The fd field is translated: the guest sends its token, the driver
/// sees the HOST FD number. If that is lost, RM looks the event up by a
/// guest-local number and silently finds nothing.
#[test]
fn fd_fields_are_translated_to_host_numbers() {
    let (mut rig, tok) = session();
    let host_fd = rig.s.mirror_raw(tok).unwrap();
    let mut req = ioctl_req(tok, REGISTER_FD, 4, 0);
    req.fd_field_off = Some(0);
    req.fd_field_token = Some(tok);
    let inline = 0x4141_4141u32.to_le_bytes(); // guest garbage
    let r = rig.send(&msg(req, &inline, &[]));
    assert_eq!(errno_of(&r), None);
    let got = rig.fake.last_inline();
    assert_eq!(i32::from_le_bytes(got[0..4].try_into().unwrap()), host_fd);
}

/// The guest's UVM_INITIALIZE flags cross UNCHANGED.
#[test]
fn uvm_initialize_flags_pass_through() {
    let (mut rig, tok) = session_with_kind(Dev::Uvm);
    let req = Req { dev: Some(Dev::Uvm), ..ioctl_req(tok, UVM_INITIALIZE, 16, 0) };
    let r = rig.send(&msg(req, &[0u8; 16], &[]));
    assert_eq!(errno_of(&r), None);
    let got = rig.fake.last_inline();
    assert_eq!(got.len(), 16);
    assert_eq!(
        double(&got, 0) & 2,
        0,
        "the multi-process flag must not be forced onto the guest's UVM init"
    );
    // UVM crosses the boundary as a RAW number, not _IOC-encoded.
    match &rig.fake.calls[0] {
        Call::Ioctl { request, .. } => assert_eq!(*request as u32, UVM_INITIALIZE),
        other => panic!("{other:?}"),
    }
}

#[test]
fn uvm_length_words_cannot_trigger_rm_control_policy_or_mediation() {
    let nr = UVM_SET_PREFERRED_LOCATION;
    assert_eq!(nr, esc().rm_control);
    let size = 40;
    let c = abi().controls;
    let mediated = [
        c.gpu_get_pids,
        c.gpu_get_pid_info,
        c.fb_get_info,
        c.fb_get_info_v2,
        c.gpu_get_name_string,
        c.semsurf_register_waiter,
        c.semsurf_unregister_waiter,
    ];
    for word in BLOCKED.into_iter().chain(mediated) {
        let (mut rig, token) = session_with_kind(Dev::Uvm);
        let mut inline = vec![0; size];
        // UVM length occupies the same offset as NVOS54.cmd.
        inline[8..12].copy_from_slice(&word.to_le_bytes());
        let req = Req { dev: Some(Dev::Uvm), ..ioctl_req(token, nr, size, 0) };
        let plan = rig.prepare(&req, &inline, NO_HOSTS).expect("UVM shape is valid");
        assert!(plan.event_reg.is_none());
        assert!(plan.waiter_reg.is_none());
        assert!(plan.waiter_unreg.is_none());
        assert_eq!(plan.vram_reserved, 0);
        assert_eq!(plan.action, Action::Forward);
        let out = rig.execute(plan);

        assert_eq!(errno_of(&out), None, "length word {word:#x}");
        assert_eq!(out.bytes, inline);
        assert_eq!(
            rig.fake.calls,
            vec![Call::Ioctl { fd: OWN_FD, request: nr as u64, inline }]
        );
        assert_eq!(rig.s.events.census(), [0, 0, 0, 0]);
        assert_eq!(rig.s.events.client_count(), 0);
        assert_eq!(rig.s.events.event_count(), 0);
        assert!(rig.s.events.take_pollables().is_empty());
    }
}

#[test]
fn numa_info_uses_its_flat_native_envelope() {
    let (mut rig, token) = session_with_kind(Dev::Gpu);
    let size = NUMA_INFO_LEN as usize;
    let mut inline = vec![0; size];
    inline[8..16].copy_from_slice(&0x1234_0000u64.to_le_bytes());
    let req = |nr, len| Req { dev: Some(Dev::Gpu), ..ioctl_req(token, nr, len, 0) };
    let reply = rig.send(&msg(req(NUMA_INFO, size), &inline, &[]));
    assert_eq!(errno_of(&reply), None);
    assert_eq!(reply.bytes, inline);
    assert_eq!(
        rig.fake.calls,
        vec![Call::Ioctl {
            fd: OWN_FD,
            request: iowr_raw(NUMA_INFO, NUMA_INFO_LEN),
            inline: inline.clone(),
        }]
    );

    let reply = rig.send(&msg(req(NUMA_INFO, size - 1), &inline[..size - 1], &[]));
    assert_eq!(errno_of(&reply), Some(libc::EINVAL));
    // NV_ESC_SET_NUMA_STATUS changes host state and remains unsupported.
    let reply = rig.send(&msg(req(NUMA_INFO + 1, 4), &[0; 4], &[]));
    assert_eq!(errno_of(&reply), Some(libc::ENOTSUP));
    assert_eq!(rig.fake.ioctl_count(), 1);
}

/// The GPU index at open time is a guest word. Without a bound the host
/// pastes it into a file name and tries to open that.
#[test]
fn open_rejects_a_gpu_index_beyond_the_driver_limit() {
    let (mut rig, _) = session();
    for nr in [32u32, 1_048_577, u32::MAX] {
        let req = Req {
            seq: 1,
            kind: Kind::Open,
            dev: Some(Dev::Gpu),
            ioctl_nr: nr,
            ..Req::default()
        };
        let r = rig.send(&msg(req, &[], &[]));
        assert_eq!(errno_of(&r), Some(libc::EINVAL), "GPU index {nr} accepted");
    }
    assert_eq!(rig.fake.ioctl_count(), 0);
}

/// The nodes that a guest may open, and the two that it may not.
#[test]
fn open_takes_known_nodes_and_refuses_the_tools() {
    let (mut rig, _) = session();
    let open = |dev| msg(Req { seq: 1, kind: Kind::Open, dev, ..Req::default() }, &[], &[]);
    assert_eq!(errno_of(&rig.send(&open(Some(Dev::UvmTools)))), Some(libc::ENOTSUP));
    assert_eq!(errno_of(&rig.send(&open(None))), Some(libc::EINVAL));
    let token = rig.send(&open(Some(Dev::Uvm))).rsp.token;
    assert_eq!(token, 2, "tokens count up");
    assert_eq!(rig.s.mirror_raw(token), Some(OWN_FD));
}

/// A fresh RM client receives the guest process's identity; and does
/// so IMMEDIATELY, because RM hangs USERD separation off subProcessID.
#[test]
fn a_fresh_root_client_gets_its_sub_process_id() {
    let (mut rig, tok) = session();
    // NVOS64: hObjectNew @8, status @40. Fake success.
    rig.fake.writes_back = vec![
        (8, 0xabcd_1234u32.to_le_bytes().to_vec()),
        (40, NV_OK.to_le_bytes().to_vec()),
    ];
    let mut inline = vec![0u8; 48];
    inline[12..16].copy_from_slice(&abi().class_root_client.to_le_bytes());
    let req = ioctl_req(tok, esc().rm_alloc, 48, 0);
    let r = rig.send(&msg(req, &inline, &[]));
    assert_eq!(errno_of(&r), None);
    assert_eq!(
        rig.fake.calls.last(),
        Some(&Call::SetSubProcessId {
            h_client: 0xabcd_1234,
            sub_id: 7,
            name: "guest-7".to_string(),
        })
    );
}

/// `prepare` returns a DECISION, not a finished answer: a refusal is
/// directly inspectable, without parsing the response.
#[test]
fn prepare_hands_back_the_refusal_itself() {
    let (mut rig, tok) = session();
    let mut inline = vec![0u8; 32];
    inline[8..12].copy_from_slice(&BLOCKED[0].to_le_bytes());
    let req = ioctl_req(tok, esc().rm_control, 32, 0);
    let refusal = rig.prepare(&req, &inline, NO_HOSTS).err().expect("a denied control must refuse");
    assert_eq!(refusal.errno(), libc::EPERM);
    assert!(refusal.text().contains("never forwarded"), "{}", refusal.text());
    assert_eq!(rig.fake.ioctl_count(), 0, "prepare issues no syscall");
}

/// A clean call yields a forward plan with a finished _IOC request
/// number; inspectable BEFORE anything is executed.
#[test]
fn prepare_builds_a_forward_plan_with_the_ioc_request() {
    let (mut rig, tok) = session();
    let inline = vec![0u8; 32];
    let req = ioctl_req(tok, 0x2a, 32, 0);
    let plan = rig.prepare(&req, &inline, NO_HOSTS).expect("a clean call must pass");
    assert_eq!(plan.action, Action::Forward);
    assert_eq!(plan.request, iowr_raw(0x2a, 32));
    assert_eq!((plan.inline_len, plan.aux_len), (32, 0));
    assert_eq!(rig.fake.ioctl_count(), 0, "prepare itself executes nothing");
}

/// One RM_ALLOC of `bytes` VRAM: NVOS64 inline (hClass @12,
/// pAllocParms @16) plus the 128-byte NV_MEMORY_ALLOCATION_PARAMS.
fn vram_alloc(tok: u64, handle: u32, bytes: u64, len: usize, class: u32, flags: u32, attr: u32) -> Msg {
    let mut inline = vec![0u8; len];
    inline[0..4].copy_from_slice(&0xc1d8_3a38u32.to_le_bytes()); // hRoot
    inline[4..8].copy_from_slice(&0x5c00_0002u32.to_le_bytes()); // hObjectParent
    inline[8..12].copy_from_slice(&handle.to_le_bytes()); // hObjectNew
    inline[12..16].copy_from_slice(&class.to_le_bytes());
    // pAllocParms: the guest's own VA. Non-zero is what marks the call
    // as carrying params at all.
    inline[16..24].copy_from_slice(&0x7f00_0000_0000u64.to_le_bytes());
    let mut aux = vec![0u8; 128];
    aux[8..12].copy_from_slice(&flags.to_le_bytes());
    aux[24..28].copy_from_slice(&attr.to_le_bytes());
    aux[64..72].copy_from_slice(&bytes.to_le_bytes());
    let mut req = ioctl_req(tok, esc().rm_alloc, len, 128);
    req.embedded_ptr_off = Some(16);
    msg(req, &inline, &aux)
}

fn vram_alloc_msg(tok: u64, handle: u32, bytes: u64) -> Msg {
    vram_alloc(tok, handle, bytes, 48, 0x40, 0x1c101, 0x1800_0000)
}

fn free_msg(tok: u64, handle: u32) -> Msg {
    let mut inline = vec![0u8; 16];
    inline[0..4].copy_from_slice(&0xc1d8_3a38u32.to_le_bytes());
    inline[4..8].copy_from_slice(&0x5c00_0002u32.to_le_bytes());
    inline[8..12].copy_from_slice(&handle.to_le_bytes());
    msg(ioctl_req(tok, esc().rm_free, 16, 0), &inline, &[])
}

/// NVOS64.status out of a reply's inline payload.
fn rm_status(reply: &Reply) -> u32 {
    word(&reply.bytes, 40)
}

/// Over the cap, the guest sees the answer a full card gives; ioctl 0
/// plus NV_ERR_NO_MEMORY; and the driver is never asked.
#[test]
fn over_the_cap_the_guest_gets_the_answer_a_full_card_gives() {
    let (mut rig, tok) = capped_session(8 << 20);

    let r = rig.send(&vram_alloc_msg(tok, 0xaa, 4 << 20));
    assert_eq!(rm_status(&r), NV_OK);
    assert_eq!(rig.led.used(), 4 << 20);
    assert_eq!(rig.fake.ioctl_count(), 1);

    let r = rig.send(&vram_alloc_msg(tok, 0xbb, 4 << 20));
    assert_eq!(rm_status(&r), NV_OK);
    assert_eq!(rig.led.used(), 8 << 20);
    assert_eq!(rig.fake.ioctl_count(), 2);

    // Full. The third one must be refused; without an ioctl.
    let r = rig.send(&vram_alloc_msg(tok, 0xcc, 4 << 20));
    assert_eq!(r.rsp.ret, 0, "the ioctl itself succeeds, as it does natively");
    assert_eq!(rm_status(&r), NV_ERR_NO_MEMORY);
    assert_eq!(rig.fake.ioctl_count(), 2, "a refused allocation reaches no driver");
    assert_eq!(rig.led.used(), 8 << 20, "a refusal charges nothing");

    // Free one, and there is room again.
    rig.send(&free_msg(tok, 0xaa));
    assert_eq!(rig.led.used(), 4 << 20);
    let r = rig.send(&vram_alloc_msg(tok, 0xdd, 4 << 20));
    assert_eq!(rm_status(&r), NV_OK);
    assert_eq!(rig.led.used(), 8 << 20);
}

/// Without a cap, ordinary allocations are counted but not limited.
#[test]
fn with_the_cap_off_nothing_is_refused() {
    let (mut rig, tok) = session();
    for h in 0..8u32 {
        let r = rig.send(&vram_alloc_msg(tok, h, 8 << 30));
        assert_eq!(rm_status(&r), NV_OK);
    }
    assert_eq!(rig.fake.ioctl_count(), 8, "every allocation is forwarded");
    assert_eq!(rig.s.books.owed(), 8 * (8u64 << 30), "and every one is counted");
}

/// Process identity is announced even if opening the device later fails.
/// An invalid GPU index tests that path without a GPU.
#[test]
fn opening_announces_the_guest_process_before_touching_a_device() {
    let (mut rig, _) = capped_session(64 << 20);
    let mut info = ProcInfo { pid: 4711, comm: [0; 16] };
    info.comm[..6].copy_from_slice(b"python");
    let req = Req {
        seq: 1,
        kind: Kind::Open,
        dev: Some(Dev::Gpu),
        ioctl_nr: 9999, // past NV_MAX_DEVICES -- the open is refused
        inline_len: 24,
        ..Req::default()
    };
    let r = rig.send(&Msg { req, payload: vec![], said: Some(info) });
    assert_eq!(errno_of(&r), Some(libc::EINVAL), "the open itself is refused");
    assert_eq!(rig.fake.ioctl_count(), 0);

    let roster = rig.s.books.roster(&rig.led);
    assert_eq!(roster.len(), 1, "and the process is on the list regardless");
    assert_eq!(roster[0].guest_pid, 4711);
    assert_eq!(rig.s.sub_name(), "python[4711]");
}

const INVALID_OBJECT_HANDLE: u32 = 0x33;

#[test]
fn a_rejected_free_keeps_the_charge_and_client_resources() {
    let (mut rig, tok) = capped_session(64 << 20);
    let client = 0xc1d8_3a38;
    rig.send(&vram_alloc_msg(tok, 0xaa, 4 << 20));
    rig.send(&kernel_callback_alloc(tok, client, 7, 0x10));
    rig.s.events.note_client(client, tok);
    rig.s.events.push_slot(client, WaiterSlot { ctl: 90, id: 50 });
    rig.s.events.take_pollables();

    rig.fake = Fake::new();
    rig.fake.writes_back = vec![(12, INVALID_OBJECT_HANDLE.to_le_bytes().to_vec())];
    for handle in [0, 0xaa, client] {
        let reply = rig.send(&free_msg(tok, handle));
        assert_eq!(reply.rsp.ret, 0);
        assert_eq!(rig.led.used(), 4 << 20);
        assert!(rig.s.events.event_of(client, 0).is_some());
        assert!(rig.s.events.has_event_ctl(client));
        assert_eq!(rig.s.events.token_of(client), Some(tok));
        assert_eq!(rig.s.events.census(), [1, 1, 0, 0]);
        assert!(rig.s.events.take_unwatch().is_empty());
        assert!(rig.s.events.take_ctl_unwatch().is_empty());
    }
    assert_eq!(rig.fake.ioctl_count(), 3, "no FREE_OS_EVENT after a rejected free");

    rig.fake = Fake::new();
    rig.send(&free_msg(tok, client));
    assert_eq!(rig.led.used(), 0);
    assert_eq!(rig.s.events.event_count(), 0);
    assert_eq!(rig.s.events.take_unwatch().len(), 1);
    assert_eq!(rig.s.events.take_ctl_unwatch().len(), 1);
}

#[test]
fn a_rejected_vidheap_free_keeps_its_charge() {
    let (mut rig, tok) = capped_session(64 << 20);
    rig.send(&vram_alloc_msg(tok, 0xaa, 4 << 20));
    let mut inline = vec![0; NVOS32_LEN as usize];
    inline[0..4].copy_from_slice(&0xc1d8_3a38u32.to_le_bytes());
    inline[8..12].copy_from_slice(&abi().heap.free.to_le_bytes());
    inline[44..48].copy_from_slice(&0xaau32.to_le_bytes());
    let request = msg(ioctl_req(tok, esc().rm_vid_heap_control, inline.len(), 0), &inline, &[]);
    rig.fake.writes_back = vec![(20, INVALID_OBJECT_HANDLE.to_le_bytes().to_vec())];
    rig.send(&request);
    assert_eq!(rig.led.used(), 4 << 20);

    rig.fake = Fake::new();
    rig.send(&request);
    assert_eq!(rig.led.used(), 0);
}

#[test]
fn closing_the_fd_returns_the_charges() {
    let (mut rig, tok) = capped_session(64 << 20);
    for h in 0..4u32 {
        rig.send(&vram_alloc_msg(tok, h, 4 << 20));
    }
    assert_eq!(rig.led.used(), 16 << 20);
    rig.send(&close_msg(tok));
    assert_eq!(rig.led.used(), 0);
}

/// The path no message announces: the guest process dies, the device
/// drops the session. Whatever it still owed goes back, or the VM's
/// cap shrinks with every process that ever ran.
#[test]
fn a_dropped_session_returns_what_the_guest_never_freed() {
    let (mut rig, tok) = capped_session(64 << 20);
    for h in 0..4u32 {
        rig.send(&vram_alloc_msg(tok, h, 4 << 20));
    }
    assert_eq!(rig.led.used(), 16 << 20);
    rig.s.end(&mut rig.led, &mut rig.budget);
    assert_eq!(rig.led.used(), 0, "the session's debt dies with it");
}

/// An allocation RM itself refuses must not stay charged; otherwise
/// a VM that runs into the real card's limit would afterwards be
/// throttled by its own cap as well.
#[test]
fn an_allocation_rm_refuses_stays_uncharged() {
    let (mut rig, tok) = capped_session(64 << 20);
    // The fake writes NV_ERR_NO_MEMORY into NVOS64.status, as a full
    // card does.
    rig.fake.writes_back = vec![(40, NV_ERR_NO_MEMORY.to_le_bytes().to_vec())];
    let r = rig.send(&vram_alloc_msg(tok, 0xaa, 4 << 20));
    assert_eq!(rm_status(&r), NV_ERR_NO_MEMORY);
    assert_eq!(rig.led.used(), 0);
}

/// NVOS21 uses status@28 in 32 bytes. It must honor the cap without
/// reading NVOS64's status@40.
#[test]
fn the_short_alloc_form_is_capped_at_its_own_status_offset() {
    let (mut rig, tok) = capped_session(4 << 20);
    let short = |handle, bytes| vram_alloc(tok, handle, bytes, 32, 0x40, 0x1c101, 0x1800_0000);

    let r = rig.send(&short(0xaa, 4 << 20));
    assert_eq!(word(&r.bytes, 28), NV_OK);
    assert_eq!(rig.led.used(), 4 << 20);

    let r = rig.send(&short(0xbb, 1 << 20));
    assert_eq!(word(&r.bytes, 28), NV_ERR_NO_MEMORY, "the short form is capped too");
    assert_eq!(rig.fake.ioctl_count(), 1, "and refused without an ioctl");
    // The 48-byte status field must NOT have been touched: it does not
    // exist in this message.
    assert_eq!(r.bytes.len(), 32 + 128);
}

/// At a FULL ledger, what RM puts in system memory still reaches RM:
/// a 0x3e with LOCATION_ANY through RM_ALLOC and an NVOS32 ALLOC_SIZE
/// with LOCATION_ANY (RM allocates that as 0x3e).
#[test]
fn a_full_ledger_does_not_refuse_system_memory() {
    let (mut rig, tok) = capped_session(4 << 20);
    let r = rig.send(&vram_alloc_msg(tok, 0xaa, 4 << 20));
    assert_eq!(rm_status(&r), NV_OK);
    assert_eq!(rig.led.used(), 4 << 20, "full");
    let full = rig.send(&vram_alloc_msg(tok, 0xab, 1 << 20));
    assert_eq!(rm_status(&full), NV_ERR_NO_MEMORY, "VIDMEM is refused at a full ledger");
    let before = rig.fake.ioctl_count();

    let any = 3 << 25;
    let r = rig.send(&vram_alloc(tok, 0xbb, 64 << 20, 48, 0x3e, 0x1c101, any));
    assert_eq!(rm_status(&r), NV_OK, "0x3e ANY is system memory, RM decides");
    assert_eq!(rig.fake.ioctl_count(), before + 1, "and it reached RM");

    let mut inline = vec![0u8; 184];
    inline[8..12].copy_from_slice(&abi().heap.alloc_size.to_le_bytes());
    inline[40 + 16..40 + 20].copy_from_slice(&(any as u32).to_le_bytes());
    inline[40 + 48..40 + 56].copy_from_slice(&(64u64 << 20).to_le_bytes());
    let r = rig.send(&msg(ioctl_req(tok, esc().rm_vid_heap_control, 184, 0), &inline, &[]));
    assert_eq!(word(&r.bytes, V_STATUS_OFF), NV_OK);
    assert_eq!(rig.fake.ioctl_count(), before + 2, "ALLOC_SIZE ANY reached RM too");
    assert_eq!(rig.led.used(), 4 << 20, "and neither was charged");
}

/// One RM control with `aux` as its params: NVOS54 inline, the params
/// pointer @16 named as embedded.
fn ctrl_msg(tok: u64, cmd: u32, aux: &[u8]) -> Msg {
    let mut inline = vec![0u8; 32];
    inline[8..12].copy_from_slice(&cmd.to_le_bytes());
    inline[16..24].copy_from_slice(&0xdead_beefu64.to_le_bytes());
    inline[24..28].copy_from_slice(&(aux.len() as u32).to_le_bytes());
    let mut req = ioctl_req(tok, esc().rm_control, 32, aux.len());
    req.embedded_ptr_off = Some(16);
    msg(req, &inline, aux)
}

/// The encoder share the guest reads is the framebuffer's, whichever
/// policy set the framebuffer; without a cap RM's answer stands.
#[test]
fn the_encoder_answer_is_the_same_under_every_policy() {
    let fb = 3072u64 << 20;
    let at = abi().answers.enccap_off;
    let answer = |profile: Profile| {
        let (mut rig, tok) = Rig::new(Ledger::for_test_profile(profile), Dev::Ctl);
        let mut aux = vec![0u8; abi().answers.enccap_len];
        aux[at..at + 4].copy_from_slice(&100u32.to_le_bytes());
        let r = rig.send(&ctrl_msg(tok, abi().controls.gpu_get_encoder_capacity, &aux));
        word(&r.bytes, 32 + at)
    };
    let capped = |policy, size| Profile {
        policy,
        size,
        reservation: size - fb,
        fb_length: fb,
        vgpu_type: "",
        encoder_capacity: 37,
    };
    for p in [
        capped(Policy::Accounting, fb),
        capped(Policy::Reserved, fb + (256 << 20)),
        capped(Policy::Grid, 3968 << 20),
    ] {
        assert_eq!(answer(p), 37, "{:?}", p.policy);
    }
    assert_eq!(answer(Profile::off()), 100, "no cap: RM's whole encoder");
}

/// Every VM tells its guest its own UUID and hands the driver the
/// card's, whatever set its limit: the answer of a UUID control carries
/// the VM's UUID, and a UVM call made with the VM's UUID reaches the
/// driver with the card's and comes back with the VM's.
#[test]
fn the_uuid_is_the_vms_own_under_every_policy() {
    let grid = Profile {
        policy: Policy::Grid,
        size: 3968 << 20,
        reservation: 896 << 20,
        ..Profile::accounting(3072 << 20)
    };
    for profile in [Profile::off(), Profile::accounting(3072 << 20), grid] {
        let (mut rig, tok) = Rig::new(Ledger::for_test_profile(profile), Dev::Ctl);
        let card =
            Card::new("vm/uuid-test/nvrm.sock", *b"\x9e\x37\x79\xb9uuid-test-4Q", 8192 << 20);
        let (host, guest) = (card.host, card.guest);
        rig.card = Some(card);
        // GID_INFO, binary: RM wrote the card's 16 bytes @12.
        let mut gid = vec![0u8; 268];
        gid[4] = 2;
        gid[12..28].copy_from_slice(&host);
        let r = rig.send(&ctrl_msg(tok, 0x2080_014a, &gid));
        assert_eq!(&r.bytes[32 + 12..32 + 28], &guest, "{:?}", profile.policy);
        let tok = rig.s.finish_open(&Req::default(), Dev::Uvm, 44).token;
        // UVM_PAGEABLE_MEM_ACCESS_ON_GPU { uuid 16; bool; rmStatus }.
        let mut inline = vec![0u8; 24];
        inline[..16].copy_from_slice(&guest);
        let req = Req { dev: Some(Dev::Uvm), ..ioctl_req(tok, 70, 24, 0) };
        let r = rig.send(&msg(req, &inline, &[]));
        assert_eq!(&rig.fake.last_inline()[..16], &host, "the driver sees the card");
        assert_eq!(&r.bytes[..16], &guest, "the guest sees its own");
    }
}

/// NVOS32_FUNCTION_INFO under a cap tells the capped card: the reply the
/// guest gets back carries total = limit and free = limit - used, and
/// the request still reached RM. Without a cap RM's answer stands.
#[test]
fn nvos32_info_answers_the_capped_card() {
    let info = |tok| {
        let mut inline = vec![0u8; 184];
        inline[8..12].copy_from_slice(&abi().heap.info.to_le_bytes());
        msg(ioctl_req(tok, esc().rm_vid_heap_control, 184, 0), &inline, &[])
    };
    let (mut rig, tok) = capped_session(64 << 20);
    let r = rig.send(&vram_alloc_msg(tok, 0xaa, 4 << 20));
    assert_eq!(rm_status(&r), NV_OK);
    let before = rig.fake.ioctl_count();
    let r = rig.send(&info(tok));
    assert_eq!(rig.fake.ioctl_count(), before + 1, "INFO reaches RM");
    assert_eq!(double(&r.bytes, 24), 64 << 20, "total = limit");
    assert_eq!(double(&r.bytes, 32), (64 << 20) - rig.led.used(), "free = limit - used");

    let (mut rig, tok) = session();
    let r = rig.send(&info(tok));
    assert_eq!(double(&r.bytes, 24), 0, "no cap: RM's answer (the fake's zero) stands");
}

/// NV50_MEMORY_VIRTUAL with ALLOC_FLAGS_VIRTUAL reserves address space.
/// Charging it would exhaust any plausible cap on the first CUDA context.
#[test]
fn a_virtual_reservation_costs_nothing() {
    let (mut rig, tok) = capped_session(64 << 20);
    let m = vram_alloc(tok, 0xaa, 0xfb00_0000, 48, 0x50a0, 0x8c415, 0x1800_0000);
    let r = rig.send(&m);
    assert_eq!(rm_status(&r), NV_OK);
    assert_eq!(rig.led.used(), 0, "a virtual reservation occupies no FB");
}

/// A 0x7e alloc: NVOS64 (48 B) with hClass 0x7e, NV0005 params with a
/// notifyIndex and a callback pointer in `data`.
fn kernel_callback_alloc(tok: u64, h_client: u32, notify: u32, cb: u64) -> Msg {
    let mut inline = vec![0u8; 48];
    inline[0..4].copy_from_slice(&h_client.to_le_bytes());
    inline[4..8].copy_from_slice(&0x5c00_0001u32.to_le_bytes());
    inline[12..16].copy_from_slice(&CLASS_KERNEL_CALLBACK_EX.to_le_bytes());
    // pAllocParms @16 non-null: the guest VA the params sat at; the
    // host replaces it with its aux address.
    inline[16..24].copy_from_slice(&0x7fff_0000_1000u64.to_le_bytes());
    let mut aux = vec![0u8; 24];
    aux[0..4].copy_from_slice(&h_client.to_le_bytes());
    aux[8..12].copy_from_slice(&CLASS_KERNEL_CALLBACK_EX.to_le_bytes());
    aux[12..16].copy_from_slice(&notify.to_le_bytes());
    aux[16..24].copy_from_slice(&cb.to_le_bytes());
    let mut req = ioctl_req(tok, esc().rm_alloc, 48, aux.len());
    req.embedded_ptr_off = Some(16);
    msg(req, &inline, &aux)
}

#[test]
fn event_id_exhaustion_refuses_without_wrapping_or_opening_another_ctl() {
    let (mut rig, tok) = session();
    rig.s.events = EventBook::numbered_from(u32::MAX as u64, 1);
    let r = rig.send(&kernel_callback_alloc(tok, 1, 7, 0x10));
    assert_eq!(errno_of(&r), None);
    assert_eq!(double(&r.bytes, 48 + 16), u32::MAX as u64);
    let r = rig.send(&kernel_callback_alloc(tok, 2, 7, 0x10));
    assert_eq!(errno_of(&r), Some(libc::ENOSPC));
    let r = rig.send(&waiter_on(tok, 2, REGISTER, 0xffff_8881_dead_be00));
    assert_eq!(errno_of(&r), Some(libc::ENOSPC));
    assert_eq!(rig.s.events.census()[0], 1);
    assert_eq!(rig.fake.ioctl_count(), 2, "one OS event, and the allocation");
    assert_eq!(rig.s.events.take_event_id(), None);
}

#[test]
fn a_substituted_event_is_registered_and_its_ctl_reported() {
    let (mut rig, tok) = session();
    // NVOS64: hObjectNew @8; and NOTHING at 40: `status` stays 0 == NV_OK.
    rig.fake.writes_back = vec![(8, 0x5c00_00e1u32.to_le_bytes().to_vec())];
    let h_client = 0xc1d8_0001u32;
    let r = rig.send(&kernel_callback_alloc(tok, h_client, 0x1000_0007, 0xffff_8881_2345_6780));
    assert_eq!(errno_of(&r), None);

    // ALLOC_OS_EVENT with id 1 on a fd that is NOT the guest's token, then
    // the alloc itself with hClass 0x79.
    assert_eq!(rig.fake.numbers(), vec![esc().alloc_os_event, esc().rm_alloc]);
    let Call::Ioctl { fd: ctl_fd, inline: block, .. } = rig.fake.calls[0].clone() else {
        panic!("no ioctl");
    };
    assert_ne!(ctl_fd, OWN_FD, "the OS event hangs off the session's own ctl");
    assert_eq!(word(&block, 0), h_client);
    assert_eq!(word(&block, 8), 1, "first id is 1");
    assert_eq!(word(&rig.fake.last_inline(), 12), CLASS_OS_EVENT);

    // The guest reads the id back in `data`.
    let aux = &r.bytes[48..];
    assert_eq!(double(aux, 16), 1);
    assert_eq!(word(aux, 8), CLASS_OS_EVENT);

    // The books.
    let reg = rig.s.events.event_of(h_client, 0x5c00_00e1).expect("registered under RM's handle");
    assert_eq!(
        reg,
        EventReg {
            h_client,
            h_event: 0x5c00_00e1,
            class: CLASS_KERNEL_CALLBACK_EX,
            notify_index: 0x1000_0007,
            guest_data: 0xffff_8881_2345_6780,
            token: tok,
            id: 1,
        }
    );
    assert_eq!(rig.s.events.event_stats(), (1, 0, 0, 0));
    assert_eq!(
        rig.s.events.take_pollables(),
        vec![Pollable::EventCtl { h_client, fd: ctl_fd }]
    );
    assert!(rig.s.events.take_pollables().is_empty(), "reported once, then taken");

    // A second event on the SAME client reuses the ctl (id 2, no new
    // pollable); a different client gets a ctl of its own.
    let r = rig.send(&kernel_callback_alloc(tok, h_client, 3, 0x1));
    assert_eq!(errno_of(&r), None);
    assert!(rig.s.events.take_pollables().is_empty());
    let r = rig.send(&kernel_callback_alloc(tok, h_client + 1, 3, 0x2));
    assert_eq!(errno_of(&r), None);
    let p = rig.s.events.take_pollables();
    assert_eq!(p.len(), 1);
    assert!(
        matches!(p[0], Pollable::EventCtl { h_client: c, fd } if c == h_client + 1 && fd != ctl_fd)
    );
    assert_eq!(rig.s.events.census()[0], 2);
    assert_eq!(rig.s.events.event_stats().0, 3);
}

/// RM refused the substituted alloc: nothing is filed, and the id goes
/// back with FREE_OS_EVENT.
#[test]
fn a_refused_substituted_event_gives_its_id_back() {
    let (mut rig, tok) = session();
    rig.fake.ret = -1;
    // ret -1 also fails ALLOC_OS_EVENT itself -> refusal, no alloc sent.
    let r = rig.send(&kernel_callback_alloc(tok, 0xc100_0001, 7, 0x10));
    assert_eq!(errno_of(&r), Some(libc::EIO));
    assert_eq!(rig.fake.ioctl_count(), 1);
    assert_eq!(rig.s.events.event_count(), 0);

    rig.fake = Fake::new();
    let m = kernel_callback_alloc(tok, 0xc100_0002, 7, 0x10);
    let mut plan = rig.prepare(&m.req, &m.payload, NO_HOSTS).expect("prepare accepts");
    assert!(plan.event_reg.is_some());
    // Pretend RM refused: force a status that is not NV_OK.
    plan.inline[40..44].copy_from_slice(&0x22u32.to_le_bytes());
    rig.execute(plan);
    assert_eq!(rig.s.events.event_count(), 0, "a refused alloc registers nothing");
    let frees = rig.fake.numbers().into_iter().filter(|n| *n == esc().free_os_event).count();
    assert_eq!(frees, 1, "the id was given back: {:?}", rig.fake.calls);
    assert_eq!(rig.s.events.event_stats(), (0, 0, 0, 0));
}

fn free_of(tok: u64, client: u32, handle: u32) -> Msg {
    let mut inline = vec![0u8; 16];
    inline[0..4].copy_from_slice(&client.to_le_bytes());
    inline[8..12].copy_from_slice(&handle.to_le_bytes());
    msg(ioctl_req(tok, esc().rm_free, 16, 0), &inline, &[])
}

/// RM_FREE of the event takes the registration and the id with it;
/// RM_FREE of the client takes every registration of that client, and
/// no FREE_OS_EVENT (RM does that itself).
#[test]
fn freeing_the_event_or_its_client_clears_the_books() {
    let (mut rig, tok) = session();
    rig.fake.writes_back = vec![(8, 0x5c00_00e1u32.to_le_bytes().to_vec())];
    let c1 = 0xc1d8_0001u32;
    rig.send(&kernel_callback_alloc(tok, c1, 7, 0x10));
    assert_eq!(rig.s.events.event_count(), 1);
    assert!(rig.s.events.event_of(c1, 0x5c00_00e1).is_some());

    // Free the event object: NVOS00 hRoot @0, hObjectOld @8.
    let n_before = rig.fake.ioctl_count();
    rig.send(&free_of(tok, c1, 0x5c00_00e1));
    assert_eq!(rig.s.events.event_count(), 0);
    assert_eq!(rig.fake.numbers()[n_before..], [esc().rm_free, esc().free_os_event]);

    // Free one client while retaining the other's events. Use a fake with
    // no writes_back so it cannot overwrite RM_FREE's hObjectOld@8.
    rig.fake = Fake::new();
    rig.send(&kernel_callback_alloc(tok, c1, 7, 0x10));
    rig.send(&kernel_callback_alloc(tok, c1 + 1, 7, 0x11));
    assert!(rig.s.events.event_of(c1, 0).is_some() && rig.s.events.event_of(c1 + 1, 0).is_some());
    let n_before = rig.fake.ioctl_count();
    assert_eq!(rig.s.events.census()[0], 2, "one ctl per client, before the free");
    rig.send(&free_of(tok, c1, c1));
    assert_eq!(rig.s.events.event_count(), 1, "the other client's event stays");
    assert!(rig.s.events.event_of(c1 + 1, 0).is_some());
    assert_eq!(
        rig.fake.ioctl_count(),
        n_before + 1,
        "RM frees the client's os events itself"
    );

    // And the ctl fd of the freed client leaves too.
    assert_eq!(rig.s.events.census()[0], 1, "the freed client's ctl is gone");
    assert!(rig.s.events.has_event_ctl(c1 + 1), "the other client keeps its own");
    let out = rig.s.events.take_ctl_unwatch();
    assert_eq!(out.len(), 1, "handed to the device, not dropped here");
    assert_eq!(out[0].0, c1, "and it names the client whose ctl it is");
    assert!(rig.s.events.take_ctl_unwatch().is_empty(), "reported once, then taken");
}

/// Closing the client FD releases RM objects without an RM_FREE.
/// Event holdings must follow that token, not wait for process teardown.
#[test]
fn closing_the_fd_a_client_was_allocated_on_gives_its_ctl_back() {
    let (mut rig, tok_a) = session();
    let tok_b = rig.s.finish_open(&Req::default(), Dev::Ctl, 34).token;
    let (c_a, c_b) = (0xc1d8_0001u32, 0xc1d8_0002u32);

    // Each client is ALLOCATED on its own FD: NVOS21 hRoot @0,
    // hObjectParent @4 (0 = a root), hObjectNew @8, status @28.
    for (tok, h) in [(tok_a, c_a), (tok_b, c_b)] {
        let mut inline = vec![0u8; 32];
        inline[8..12].copy_from_slice(&h.to_le_bytes());
        rig.send(&msg(ioctl_req(tok, esc().rm_alloc, 32, 0), &inline, &[]));
    }
    assert_eq!(rig.s.events.token_of(c_a), Some(tok_a), "noted at the alloc");
    assert_eq!(rig.s.events.token_of(c_b), Some(tok_b));

    // Give each of them an event ctl, the FD that used to leak.
    rig.send(&kernel_callback_alloc(tok_a, c_a, 7, 0x10));
    rig.send(&kernel_callback_alloc(tok_b, c_b, 7, 0x11));
    assert_eq!(rig.s.events.census()[0], 2, "one ctl per client");
    rig.s.events.take_ctl_unwatch();

    // Close ONLY the first FD. No RM_FREE crosses; this is the point.
    rig.send(&close_msg(tok_a));
    assert_eq!(rig.s.events.census()[0], 1, "the closed FD's client gives its ctl back");
    assert!(rig.s.events.has_event_ctl(c_b), "the other FD's client keeps its own");
    assert_eq!(rig.s.events.token_of(c_a), None, "and its note goes with it");
    let out = rig.s.events.take_ctl_unwatch();
    assert_eq!(out.len(), 1, "handed to the device, not dropped here");
    assert_eq!(out[0].0, c_a, "and it names the right client");
    let (_, by_free, by_close) = rig.s.events.ctl_stats();
    assert_eq!(by_close, 1, "counted on the close door");
    assert_eq!(by_free, 0, "and not on the other one");

    // The second FD too, so a session that closes everything keeps
    // nothing: that is the property the leak violated.
    rig.send(&close_msg(tok_b));
    assert_eq!(rig.s.events.census()[0], 0, "nothing held after both FDs are closed");
    assert_eq!(rig.s.events.client_count(), 0);
}

/// Drain each event by (hClient, hObject).
#[test]
fn drain_asks_get_event_data_and_matches_by_client_and_handle() {
    let (mut rig, tok) = session();
    let c1 = 0xc1d8_0001u32;
    // hObjectNew stays 0 (no writes_back): registered under (c1, 0).
    rig.send(&kernel_callback_alloc(tok, c1, 0x1000_0007, 0x10));
    assert!(rig.s.events.event_of(c1, 0).is_some());

    // Unknown client: nothing to drain.
    assert!(rig.s.events.begin_drain(0xdead).is_none());

    let answer = EventAnswer {
        ret: 0,
        status: NV_OK,
        more: 0,
        h_object: 0,
        notify_index: 7,
        info32: 0,
    };
    let (on, mut d) = rig.s.events.begin_drain(c1).unwrap();
    assert_ne!(on, OWN_FD, "drained on the session's ctl, never the guest's fd");
    assert!(!rig.s.events.drain_os_events(&mut d, answer));
    assert_eq!(d.out.len(), 1);
    assert_eq!(d.out[0].reg.guest_data, 0x10);
    assert_eq!(d.out[0].reg.class, CLASS_KERNEL_CALLBACK_EX);
    assert_eq!(d.out[0].info32, 0);
    assert_eq!(rig.s.events.event_stats(), (1, 1, 0, 0));

    // A firing for a handle nobody registered is counted, not delivered.
    rig.s.events.unfile(c1, 0);
    let (_, mut d) = rig.s.events.begin_drain(c1).unwrap();
    assert!(!rig.s.events.drain_os_events(&mut d, answer));
    assert!(d.out.is_empty());
    assert_eq!(rig.s.events.event_stats(), (1, 2, 1, 0));

    // Nothing there is no failure; a failure takes the descriptor with it.
    let (_, mut d) = rig.s.events.begin_drain(c1).unwrap();
    let dry = EventAnswer { status: NV_ERR_OPERATING_SYSTEM, ..answer };
    assert!(!rig.s.events.drain_os_events(&mut d, dry));
    assert_eq!(rig.s.events.event_stats(), (1, 2, 1, 1));
    assert!(rig.s.events.has_event_ctl(c1));
    let (fd, mut d) = rig.s.events.begin_drain(c1).unwrap();
    assert!(!rig.s.events.drain_os_events(&mut d, EventAnswer { ret: -1, ..answer }));
    assert_eq!(d.close, Some(fd));
    assert!(!rig.s.events.has_event_ctl(c1));
}

/// A guest client that runs NV_ESC_ALLOC_OS_EVENT itself names the fd it
/// rode on as its wake channel; reported with the token, whether or not
/// RM accepts.
#[test]
fn a_guest_os_event_alloc_reports_its_fd_for_polling() {
    let (mut rig, tok) = session_with_kind(Dev::Gpu);
    let mut inline = vec![0u8; 16];
    inline[8..12].copy_from_slice(&23u32.to_le_bytes());
    let req = Req {
        dev: Some(Dev::Gpu),
        fd_field_off: Some(8),
        fd_field_token: Some(tok),
        ..ioctl_req(tok, esc().alloc_os_event, 16, 0)
    };
    let r = rig.send(&msg(req, &inline, &[]));
    assert_eq!(errno_of(&r), None);
    assert_eq!(rig.fake.ioctl_count(), 1);
    assert_eq!(
        rig.s.events.take_pollables(),
        vec![Pollable::Client { token: tok, fd: OWN_FD, owner: None }]
    );
    // A UVM ioctl with the same raw number is not an OS event.
    let req = Req { dev: Some(Dev::Uvm), ..ioctl_req(tok, esc().alloc_os_event, 16, 0) };
    rig.send(&msg(req, &inline, &[]));
    assert!(rig.s.events.take_pollables().is_empty());
}

const REGISTER: bool = true;
const UNREGISTER: bool = false;

/// One semsurf control as the guest kernel sends it: NVOS54 (32 B) with
/// the cmd, params in aux with the notification handle at its end.
fn waiter_at(tok: u64, client: u32, register: bool, handle: u64, target: WaiterTarget) -> Msg {
    let (cmd, len) = if register {
        (abi().controls.semsurf_register_waiter, 32)
    } else {
        (abi().controls.semsurf_unregister_waiter, 24)
    };
    let mut inline = vec![0u8; 32];
    inline[0..4].copy_from_slice(&client.to_le_bytes());
    inline[4..8].copy_from_slice(&target.surface.to_le_bytes());
    inline[8..12].copy_from_slice(&cmd.to_le_bytes());
    inline[16..24].copy_from_slice(&0x7fff_0000_2000u64.to_le_bytes());
    inline[24..28].copy_from_slice(&(len as u32).to_le_bytes());
    let mut aux = vec![0u8; len];
    aux[0..8].copy_from_slice(&target.index.to_le_bytes());
    aux[8..16].copy_from_slice(&target.wait_value.to_le_bytes());
    aux[len - 8..].copy_from_slice(&handle.to_le_bytes());
    let mut req = ioctl_req(tok, esc().rm_control, 32, len);
    req.embedded_ptr_off = Some(16);
    msg(req, &inline, &aux)
}

fn waiter_on(tok: u64, client: u32, register: bool, handle: u64) -> Msg {
    let target = WaiterTarget { surface: 0x5c00_00da, index: 0, wait_value: 0 };
    waiter_at(tok, client, register, handle, target)
}

/// REGISTER_WAITER with a kernel-VA handle: the handle is substituted
/// by an OS event id on a private ctl, the waiter is armed, and its fd
/// is reported for the poller; NOT for the epoll set.
#[test]
fn a_semsurf_waiter_is_substituted_and_armed() {
    let (mut rig, tok) = session();
    let h_client = 0xc1d8_0002u32;
    let kc = 0xffff_8881_dead_be00u64;
    let r = rig.send(&waiter_on(tok, h_client, REGISTER, kc));
    assert_eq!(errno_of(&r), None);

    // ALLOC_OS_EVENT of (h_client, id 1) on a PRIVATE fd, then the
    // control itself with the id where the pointer was.
    assert_eq!(rig.fake.numbers(), vec![esc().alloc_os_event, esc().rm_control]);
    let Call::Ioctl { fd: slot_fd, inline: block, .. } = rig.fake.calls[0].clone() else {
        panic!("no ioctl");
    };
    assert_ne!(slot_fd, OWN_FD);
    assert_eq!((word(&block, 0), word(&block, 8)), (h_client, 1));

    // The guest's params went out with the id, and came back with it.
    assert_eq!(double(&r.bytes, 32 + 24), 1);

    // Armed, and reported for the POLLER.
    assert_eq!(rig.s.events.census()[2], 1, "armed");
    let registration = RegistrationId { event_id: 1, generation: 1 };
    assert_eq!(
        rig.s.events.take_pollables(),
        vec![Pollable::Waiter { registration, fd: slot_fd }]
    );

    // The wake retires it and recycles the slot.
    assert_eq!(rig.s.events.semsurf_wake(registration), Some((h_client, kc, tok)));
    assert_eq!(rig.s.events.census()[1..3], [1, 0]);
    assert_eq!(
        rig.s.events.semsurf_wake(registration),
        None,
        "one-shot: the second wake finds nothing"
    );
}

/// A user-space registration carries an OS-event id; it passes through
/// byte for byte, no slot, no pollable.
#[test]
fn a_user_space_waiter_handle_passes_through() {
    let (mut rig, tok) = session();
    let r = rig.send(&waiter_on(tok, 0xc1d8_0003, REGISTER, 23));
    assert_eq!(errno_of(&r), None);
    assert_eq!(rig.fake.ioctl_count(), 1, "no ALLOC_OS_EVENT for a user handle");
    assert_eq!(double(&r.bytes, 32 + 24), 23, "untouched");
    assert_eq!(rig.s.events.census()[2], 0);
    assert!(rig.s.events.take_pollables().is_empty());
}

/// Successful cancellation quarantines the slot until poller acknowledgement.
#[test]
fn an_unregistered_waiter_recycles_its_slot() {
    let (mut rig, tok) = session();
    let h_client = 0xc1d8_0004u32;
    let kc = 0xffff_8881_dead_bf00u64;
    rig.send(&waiter_on(tok, h_client, REGISTER, kc));
    rig.s.events.take_pollables();

    let r = rig.send(&waiter_on(tok, h_client, UNREGISTER, kc));
    assert_eq!(errno_of(&r), None);
    assert_eq!(double(&r.bytes, 32 + 16), 1, "translated to the same id");
    assert_eq!(rig.s.events.census()[2], 0, "cancelled");
    assert_eq!(rig.s.events.census()[1], 0, "not reusable before poller acknowledgement");
    let retired = rig.s.events.take_unwatch();
    assert_eq!(retired.len(), 1);
    rig.s.events.finish_unwatch(retired);
    assert_eq!(rig.s.events.census()[1], 1);

    // Re-register: the pooled slot serves again; no new ALLOC_OS_EVENT.
    let made = |rig: &Rig| {
        rig.fake.numbers().into_iter().filter(|n| *n == esc().alloc_os_event).count()
    };
    let before = made(&rig);
    rig.send(&waiter_on(tok, h_client, REGISTER, kc));
    assert_eq!(before, made(&rig), "the slot was reused, not re-allocated");
    assert_eq!(rig.s.events.census()[2], 1);

    // An unregister for a handle nobody armed leaves the pointer alone:
    // RM answers OBJECT_NOT_FOUND, which is the truthful "too late".
    let r = rig.send(&waiter_on(tok, h_client, UNREGISTER, 0xffff_8881_0000_0100));
    assert_eq!(double(&r.bytes, 32 + 16), 0xffff_8881_0000_0100);
}

#[test]
fn a_stale_completion_cannot_retire_a_rearmed_slot() {
    let (mut rig, tok) = session();
    let client = 0xc100_0001;
    let callback = 0xffff_8881_dead_be00;
    let armed = |rig: &mut Rig| {
        rig.send(&waiter_on(tok, client, REGISTER, callback));
        match rig.s.events.take_pollables()[0] {
            Pollable::Waiter { registration, .. } => registration,
            other => panic!("{other:?}"),
        }
    };
    let old = armed(&mut rig);
    assert_eq!(old.event_id, 1);
    assert_eq!(rig.s.events.semsurf_wake(old), Some((client, callback, tok)));

    let new = armed(&mut rig);
    assert_eq!(new.event_id, 1);
    assert_ne!(old, new);
    assert_eq!(rig.s.events.semsurf_wake(old), None);
    assert_eq!(rig.s.events.census()[1..3], [0, 1]);
    assert_eq!(rig.s.events.semsurf_wake(new), Some((client, callback, tok)));
    assert_eq!(rig.s.events.census()[1], 1);
}

#[test]
fn unregister_matches_surface_index_and_wait_value() {
    let callback = 0xffff_8881_dead_be00;
    for different in [
        WaiterTarget { surface: 2, index: 3, wait_value: 4 },
        WaiterTarget { surface: 1, index: 5, wait_value: 4 },
        WaiterTarget { surface: 1, index: 3, wait_value: 6 },
    ] {
        let (mut rig, tok) = session();
        let client = 0xc100_0001;
        let first = WaiterTarget { surface: 1, index: 3, wait_value: 4 };
        rig.send(&waiter_at(tok, client, REGISTER, callback, first));
        rig.send(&waiter_at(tok, client, REGISTER, callback, different));
        let response = rig.send(&waiter_at(tok, client, UNREGISTER, callback, different));
        assert_eq!(double(&response.bytes, 32 + 16), 2);
        assert_eq!(rig.s.events.census()[2], 1);
        assert_eq!(rig.s.events.find_waiter(client, callback, first), Some(1));
        let retired = rig.s.events.take_unwatch();
        assert_eq!(retired.len(), 1);
        assert_eq!(retired[0].event_id(), 2);
    }
}

#[test]
fn a_failed_unregister_keeps_the_original_arm() {
    for syscall_failed in [false, true] {
        let (mut rig, tok) = session();
        let client = 0xc100_0001;
        let callback = 0xffff_8881_dead_be00;
        rig.send(&waiter_on(tok, client, REGISTER, callback));
        rig.s.events.take_pollables();
        rig.fake = Fake::new();
        rig.fake.ret = if syscall_failed { -1 } else { 0 };
        rig.fake.writes_back = vec![(28, 0x57u32.to_le_bytes().to_vec())];
        rig.send(&waiter_on(tok, client, UNREGISTER, callback));
        assert!(rig.s.events.take_unwatch().is_empty());
        assert_eq!(rig.s.events.census()[1], 0);
        assert_eq!(
            rig.s.events.semsurf_wake(RegistrationId { event_id: 1, generation: 1 }),
            Some((client, callback, tok))
        );
    }
}

#[test]
fn malformed_event_requests_acquire_no_os_events() {
    let (mut rig, tok) = session();
    let callback = kernel_callback_alloc(tok, 0xc100_0001, 7, 0x10);
    let waiter = waiter_on(tok, 0xc100_0001, REGISTER, 0xffff_8881_dead_be00);
    for mut m in [callback, waiter] {
        m.req.nested_count = 1;
        m.req.nested = vec![NestedDesc { ptr_off: 0, aux_off: 0, len: 0 }; 16];
        let reply = rig.send(&m);
        assert_eq!(errno_of(&reply), Some(libc::EINVAL));
    }
    assert_eq!(rig.fake.ioctl_count(), 0);
    assert!(rig.s.events.take_pollables().is_empty());
    assert_eq!(rig.s.events.census(), [0, 0, 0, 0]);
    assert_eq!(rig.s.events.take_waiter_generation(), Some(1));
}

#[test]
fn exhausted_waiter_generations_refuse_before_allocating() {
    let (mut rig, tok) = session();
    rig.s.events = EventBook::numbered_from(1, u64::MAX);
    let reply = rig.send(&waiter_on(tok, 0xc100_0001, REGISTER, 0xffff_8881_dead_be00));
    assert_eq!(errno_of(&reply), Some(libc::ENOSPC));
    assert_eq!(rig.fake.ioctl_count(), 0);
    assert!(rig.s.events.take_pollables().is_empty());
    assert_eq!(rig.s.events.census()[1], 0);
    assert_eq!(rig.s.events.take_waiter_generation(), None);
}

/// A failed forwarded ioctl answers `-errno`.
#[test]
fn a_failed_ioctl_answers_its_own_errno() {
    let (mut rig, tok) = session();
    rig.fake.rets = vec![(-1, libc::ENOSPC)];
    let r = rig.send(&msg(ioctl_req(tok, esc().rm_control, 32, 0), &[0u8; 32], &[]));
    assert_eq!(errno_of(&r), Some(libc::ENOSPC));
    assert_eq!(rig.fake.ioctl_count(), 1);
}

/// Preserve the forwarded call's ENOSPC across a cleanup ioctl that
/// sets EPERM. The guest must receive the original failure.
#[test]
fn a_later_syscall_does_not_replace_the_errno_of_the_forwarded_call() {
    let (mut rig, tok) = session();
    rig.fake.rets = vec![
        (0, 0),             // ALLOC_OS_EVENT in prepare
        (-1, libc::ENOSPC), // the forwarded RM_ALLOC
        (0, libc::EPERM),   // FREE_OS_EVENT on the failure path
    ];
    let r = rig.send(&kernel_callback_alloc(tok, 0xc100_0001, 7, 0x10));
    assert_eq!(
        rig.fake.ioctl_count(),
        3,
        "alloc-os-event, the alloc, free-os-event: {:?}",
        rig.fake.calls
    );
    assert_eq!(errno_of(&r), Some(libc::ENOSPC), "the guest must see the alloc's errno");
    assert_eq!(rig.s.events.event_count(), 0);
}

/// An undersized process-list answer returns EINVAL with no payload.
/// Forwarding the unrewritten answer would expose host PIDs.
#[test]
fn a_process_list_that_is_not_the_struct_is_refused() {
    let (mut rig, tok) = session();
    // 16 bytes is far short of the NV2080_CTRL_GPU_GET_PIDS_PARAMS the
    // command names, so the rewrite cannot happen.
    let r = rig.send(&ctrl_msg(tok, abi().controls.gpu_get_pids, &[0u8; 16]));
    assert_eq!(errno_of(&r), Some(libc::EINVAL), "short process list refused");
    // The ioctl DID run; the refusal is about RM's answer, not about
    // the guest's request, and that is why the bookkeeping after it
    // must not be skipped.
    assert_eq!(rig.fake.ioctl_count(), 1);
    // A refusal carries no payload: nothing of RM's answer reaches the
    // guest.
    assert_eq!((r.rsp.inline_len, r.rsp.aux_len), (0, 0));
    assert!(r.bytes.is_empty());
}

/// Skip blob ID 0 when the counter wraps, including session sub_id=0.
/// The guest treats zero as registration failure.
#[test]
fn a_wrapping_blob_id_never_hands_out_zero() {
    let mut s = Session::detached_proc(0);
    let tok = s.finish_open(&Req::default(), Dev::Ctl, OWN_FD).token;
    let prepare = |s: &mut Session, seq: u32| -> u64 {
        let rsp = s.on_map_prepare(&Req {
            seq,
            kind: Kind::MapPrepare,
            dev: Some(Dev::Ctl),
            target_token: tok,
            map_len: 4096,
            ..Req::default()
        });
        assert_eq!(rsp.ret, 0, "MapPrepare refused");
        rsp.token
    };

    // The last id of the low half, then the one that follows it.
    s.next_blob_id = 0xffff_ffff;
    assert_eq!(prepare(&mut s, 1), 0xffff_ffff);
    let wrapped = prepare(&mut s, 2);
    assert_ne!(wrapped, 0, "MapPrepare handed out blob_id 0");
    assert!(!s.maps.contains_key(0), "a mapping registered under 0");
    // And the session id in the high half is untouched by the wrap.
    assert_eq!(wrapped >> 32, 0);
    assert_eq!(s.take_pending_map(wrapped), Some((OWN_FD, 4096, Dev::Ctl)));
    assert_eq!(s.take_pending_map(wrapped), None, "fetched once");
}

/// Reject unknown device tags with EINVAL before issuing an ioctl.
#[test]
fn an_unknown_dev_tag_is_refused_before_any_syscall() {
    let (mut rig, tok) = session();
    let req = Req { dev: None, dev_tag: 7, ..ioctl_req(tok, esc().rm_control, 32, 0) };
    let r = rig.send(&msg(req, &[0u8; 32], &[]));
    assert_eq!(errno_of(&r), Some(libc::EINVAL));
    assert_eq!(rig.fake.ioctl_count(), 0, "refused before the ioctl");
    // MapPrepare with the same nonsense: refused too, nothing registered.
    let mp = Req {
        seq: 2,
        kind: Kind::MapPrepare,
        dev: None,
        dev_tag: 7,
        target_token: tok,
        map_len: 4096,
        ..Req::default()
    };
    let r = rig.send(&msg(mp, &[], &[]));
    assert_eq!(errno_of(&r), Some(libc::EINVAL));
    assert!(rig.s.maps.is_empty());
}

/// A refusal says what came with it: the tag, what the call returned, the driver's status.
#[test]
fn a_refusal_carries_its_numbers() {
    let (mut rig, tok) = session();
    let req = Req { dev: None, dev_tag: 7, ..ioctl_req(tok, esc().rm_control, 32, 0) };
    let refusal = rig.prepare(&req, &[0u8; 32], NO_HOSTS).err().unwrap();
    assert_eq!(refusal, Refusal::UnknownTag(7));
    assert_eq!(refusal.text(), "dev_tag 7 unknown");
    let denied = Refusal::OsEvent { ret: -1, status: 0x1f };
    assert_eq!(denied.text(), "ALLOC_OS_EVENT ret -1");
    let answered = Refusal::OsEvent { ret: 0, status: 0x1f };
    assert_eq!(answered.text(), "ALLOC_OS_EVENT status 0x1f");
    let unbound = Refusal::RegisterFd(i32::MIN);
    assert_eq!(unbound.text(), "0x71 osdesc: REGISTER_FD returned -2147483648");
    assert_eq!(Refusal::RegisterFd(12).text(), "0x71 osdesc: REGISTER_FD returned 12");
    assert_eq!(Refusal::GpuNode.text(), "0x71 osdesc: open gpu");
    assert_eq!(Refusal::EventCtl.text(), "event ctl");
    assert_eq!(Refusal::WaiterCtl.text(), "waiter ctl");
    for r in [denied, answered, unbound, Refusal::GpuNode, Refusal::WaiterCtl] {
        assert_eq!(r.errno(), libc::EIO);
    }
}

/// A failure is worth a line the first fifty times, and then rarely.
#[test]
fn failures_are_logged_rarely_once_there_are_many() {
    let mut s = Session::detached_proc(1);
    assert_eq!(s.note_failure(false, false), None);
    let logged = (0..2000).filter(|_| s.note_failure(true, false).is_some()).count();
    assert_eq!(logged, 50 + 2);
    assert_eq!(s.note_failure(false, true), Some(2001));
    assert!(s.note_dump(5) && s.note_dump(5) && !s.note_dump(5) && s.note_dump(6));
}

#[test]
fn settings_are_read_as_they_were_meant() {
    let text = Variable::Text;
    assert_eq!(debug_level(Variable::Absent), 0);
    assert_eq!(debug_level(text("")), 0);
    assert_eq!(debug_level(text("2")), 2);
    assert_eq!(debug_level(text("yes")), 1);
    assert!(switch_on(text("1")) && !switch_on(text("2")) && !switch_on(Variable::Absent));
    assert!(ctrl_dump_wanted("0x20800110, 2080013f", 0x2080013f));
    assert!(ctrl_dump_wanted("0x20800110, 2080013f", 0x20800110));
    assert!(!ctrl_dump_wanted("0x20800110", 0x2080011));
    assert!(!ctrl_dump_wanted("", 0));
}

#[test]
fn objects_are_named_for_the_log() {
    let (rig, tok) = session();
    let m = vram_alloc_msg(tok, 0xaa, 4096);
    let l = object_line(&abi(), esc().rm_alloc, &m.payload[..48]).unwrap();
    assert_eq!((l.made, l.client, l.handle, l.class), (true, 0xc1d8_3a38, 0xaa, 0x40));
    let m = free_msg(tok, 0xaa);
    let l = object_line(&abi(), esc().rm_free, &m.payload).unwrap();
    assert_eq!((l.made, l.parent, l.handle), (false, 0x5c00_0002, 0xaa));
    assert!(object_line(&abi(), esc().rm_control, &m.payload).is_none());
    assert_eq!(rig.s.census(), [1, 1, 0, 0, 0, 0, 0]);
}

/// A pool is backed only for a UVM descriptor, with memory, and with
/// all of its runs.
#[test]
fn a_pool_needs_a_uvm_descriptor_and_whole_runs() {
    let (rig, tok) = session_with_kind(Dev::Uvm);
    let req = Req { seq: 3, target_token: tok, gpa_run_count: 1, ..Req::default() };
    let mut payload = vec![0u8; 16];
    payload[8] = 1;
    let (fd, runs) = rig.s.begin_pool_back(&req, &payload, true).ok().unwrap();
    assert_eq!((fd, runs.len()), (OWN_FD, 1));
    assert_eq!(rig.s.begin_pool_back(&req, &payload, false).err().unwrap().ret, -libc::EIO);
    assert_eq!(rig.s.begin_pool_back(&req, &payload[..15], true).err().unwrap().ret, -libc::EINVAL);
    let (rig, tok) = session();
    let req = Req { target_token: tok, ..req };
    assert_eq!(rig.s.begin_pool_back(&req, &payload, true).err().unwrap().ret, -libc::EBADF);
}

/// A migration of managed memory succeeds without the driver, which is
/// asked only where the compatibility is off.
#[test]
fn managed_hints_are_answered_in_place_of_the_driver() {
    let (mut rig, tok) = session_with_kind(Dev::Uvm);
    let mut inline = vec![0xffu8; 80];
    inline[40..48].copy_from_slice(&[0; 8]);
    let req = Req { dev: Some(Dev::Uvm), ..ioctl_req(tok, UVM_MIGRATE, 80, 0) };
    let mut plan = rig.prepare(&req, &inline, NO_HOSTS).unwrap();
    assert_eq!(plan.action, Action::Forward);
    plan.stage = Stage::Reserve;
    reserve(&abi(), &mut rig.s.books, &mut rig.led, &mut plan, true);
    assert_eq!(plan.action, Action::FakeManaged);
    let r = rig.execute(plan);
    assert_eq!(rig.fake.ioctl_count(), 0);
    assert_eq!((double(&r.bytes, 56), double(&r.bytes, 64), word(&r.bytes, 72)), (0, 0, NV_OK));
}

/// The kernel's form of an allocation of described pages is rewritten to
/// the form that takes a host address, rides on a card's node, and comes
/// back as the guest sent it.
#[test]
fn described_pages_ride_on_a_card_with_the_hosts_address() {
    let (mut rig, tok) = session();
    let (abi, o) = (abi(), abi().osdesc);
    let mut inline = vec![0u8; 48];
    inline[0..4].copy_from_slice(&0xc1u32.to_le_bytes());
    inline[8..12].copy_from_slice(&0xd1u32.to_le_bytes());
    inline[12..16].copy_from_slice(&CLASS_OS_DESCRIPTOR.to_le_bytes());
    inline[16..24].copy_from_slice(&0x7f00_0000_0000u64.to_le_bytes());
    let mut aux = vec![0u8; o.len];
    aux[o.attr_off..o.attr_off + 4]
        .copy_from_slice(&o.coherency.set(o.write_combine).to_le_bytes());
    aux[o.limit_off..o.limit_off + 8].copy_from_slice(&0x1fffu64.to_le_bytes());
    let mut run = vec![0u8; 16];
    run[0..8].copy_from_slice(&0x10_0000u64.to_le_bytes());
    run[8..16].copy_from_slice(&0x2000u64.to_le_bytes());
    aux.extend_from_slice(&run);
    let mut req = ioctl_req(tok, abi.escapes.rm_alloc, 48, aux.len());
    req.embedded_ptr_off = Some(16);
    req.gpa_run_count = 1;
    let m = msg(req, &inline, &aux);
    let layout = tables(Dev::Ctl, m.req.ioctl_nr, &inline, &aux);
    let cx = Context { abi: &abi, layout: &layout, limits: limits(), private: &[] };
    let no_memory =
        begin(&cx, &rig.s.mirror, &mut rig.s.events, &m.req, &m.payload, NO_HOSTS, false);
    assert_eq!(no_memory.err(), Some(Refusal::RunsWithoutMemory));
    let mut plan =
        begin(&cx, &rig.s.mirror, &mut rig.s.events, &m.req, &m.payload, NO_HOSTS, true).unwrap();
    assert_eq!(plan.stage, Stage::MapArena);
    let ask = plan.osdesc.as_ref().unwrap();
    assert_eq!((ask.total, ask.limit, ask.kern), (0x2000, 0x1fff, true));

    rig.budget.reserve(0x2000).ok().unwrap();
    let arena = Arena { base: 0x5000_0000, len: 0x2000, charge: 0x2000 };
    assert_eq!(place_arena(&abi, &mut plan, arena), Some("WRITE_COMBINE"));
    assert_eq!(plan.stage, Stage::OpenGpu);
    retarget(&abi, &mut plan, 77);
    assert_eq!((plan.stage, plan.target_fd), (Stage::Bind, 77));
    assert_eq!(double(&plan.inline, 24), 0x5000_0000, "the host's address");

    bind(&cx, &mut rig.s.events, &mut plan, &m.req, NO_HOSTS, rig.base, false).unwrap();
    substitute(&abi, &mut rig.s.events, &mut plan).unwrap();
    reserve(&abi, &mut rig.s.books, &mut rig.led, &mut plan, false);
    let r = rig.execute(plan);
    assert_eq!(errno_of(&r), None);
    assert_eq!(double(&r.bytes, 16), 0x7f00_0000_0000, "the guest's own pointer is back");
    assert_eq!(rig.budget.used_bytes(), 0x2000, "the pages stay registered");
    rig.send(&free_of(tok, 0xc1, 0xd1));
    assert_eq!(rig.budget.retained_bytes(), 0x2000, "a free leaves duplicates to the driver");
}

/// A request that is refused after its pages were mapped gives them back.
#[test]
fn an_abandoned_request_gives_its_pages_back() {
    let (mut rig, tok) = session();
    let req = ioctl_req(tok, esc().rm_control, 32, 0);
    let mut plan = rig.prepare(&req, &[0u8; 32], NO_HOSTS).unwrap();
    rig.budget.reserve(0x3000).ok().unwrap();
    let arena = Arena { base: 0x5000_0000, len: 0x3000, charge: 0x3000 };
    plan.arena = Some(arena);
    assert_eq!(abandon(&mut rig.budget, &plan), Some(arena));
    assert_eq!(rig.budget.used_bytes(), 0);
}

#[test]
fn a_process_is_named_up_to_its_first_zero() {
    let mut s = Session::detached_proc(3);
    assert_eq!((s.proc_name(), s.sub_name()), (String::new(), "guest-3".to_string()));
    s.proc.pid = 12;
    s.proc.comm[..8].copy_from_slice(b"cs2\0\xff\xffab");
    assert_eq!((s.proc_name(), s.sub_name()), ("cs2".to_string(), "cs2[12]".to_string()));
}

/// The decisions on what a call returned, and on the numbers of a release.
#[test]
fn outcomes_and_releases_are_judged_by_their_numbers() {
    assert_eq!(os_event_outcome(0, NV_OK), None);
    assert_eq!(os_event_outcome(-1, NV_OK), Some(Refusal::OsEvent { ret: -1, status: NV_OK }));
    assert_eq!(os_event_outcome(0, 0x1f), Some(Refusal::OsEvent { ret: 0, status: 0x1f }));

    let (mut rig, tok) = session();
    let req = ioctl_req(tok, esc().rm_control, 32, 0);
    let plan = rig.prepare(&req, &[0u8; 32], NO_HOSTS).ok().unwrap();
    let r = too_short(&plan);
    assert_eq!(errno_of(&r), Some(libc::EINVAL));
    assert!(r.bytes.is_empty());

    let c = abi().controls;
    for cmd in [c.gpu_get_gid_info, c.gpu_get_uuid_info, c.gpu_get_uuid_from_gpu_id] {
        assert!(c.carries_uuid(cmd));
    }
    assert!(!c.carries_uuid(c.gpu_get_pids));

    assert!(can_serve(&abi(), &limits()));
    assert!(!can_serve(&abi(), &Limits { max_aux: usize::MAX, ..limits() }));
    let mut twice = abi();
    twice.escapes.rm_free = twice.escapes.rm_alloc;
    assert!(!can_serve(&twice, &limits()));
    let mut outside = abi();
    outside.answers.enccap_off = outside.answers.enccap_len;
    assert!(!can_serve(&outside, &limits()));
}
