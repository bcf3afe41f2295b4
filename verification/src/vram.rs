//! Accounting and limits for the framebuffer that one VM's guests ask for.
//!
//! One backend serves one VM; its sessions share a ledger. What the driver allocates
//! for itself is not visible here: a reservation allows for it, and does not enforce
//! the total occupancy of the card.

use crate::abi::Abi;
use crate::bytes::{get32, get64, le32, le64};
use crate::table::{lemma_rising_lists_agree, Table};
use crate::text::{dec, decimal, hex, hexadecimal};
use crate::seqs::lemma_take_contains;
use vstd::prelude::*;

verus! {

/// Where `NV_MEMORY_ALLOCATION_PARAMS` keeps `flags`.
pub const P_FLAGS: usize = 8;

/// Where `NV_MEMORY_ALLOCATION_PARAMS` keeps `attr`.
pub const P_ATTR: usize = 24;

/// Where `NV_MEMORY_ALLOCATION_PARAMS` keeps `size`.
pub const P_SIZE: usize = 64;

/// The size of `NV_MEMORY_ALLOCATION_PARAMS`.
pub const P_LEN: usize = 128;

/// `NVOS32_ALLOC_FLAGS_VIRTUAL`: address space, and no memory at all.
pub const ALLOC_FLAGS_VIRTUAL: u32 = 0x0008_0000;

/// Where `NVOS32_PARAMETERS` keeps `function`.
pub const V_FUNCTION: usize = 8;

/// Where `NVOS32_PARAMETERS` keeps `status`.
pub const V_STATUS_OFF: usize = 20;

/// Where `NVOS32_PARAMETERS` keeps `total`.
pub const V_TOTAL: usize = 24;

/// Where `NVOS32_PARAMETERS` keeps `free`.
pub const V_FREE: usize = 32;

/// Where the allocation in `NVOS32_PARAMETERS` keeps `hMemory`.
pub const VA_HMEMORY: usize = 44;

/// Where the allocation in `NVOS32_PARAMETERS` keeps `flags`.
pub const VA_FLAGS: usize = 52;

/// Where the allocation in `NVOS32_PARAMETERS` keeps `attr`.
pub const VA_ATTR: usize = 56;

/// Where the allocation in `NVOS32_PARAMETERS` keeps `size`.
pub const VA_SIZE: usize = 88;

/// The size of `NVOS32_PARAMETERS`.
pub const V_LEN: usize = 184;

/// `NV01_MEMORY_SYSTEM`.
pub const CLASS_MEMORY_SYSTEM: u32 = 0x3e;

/// `NV01_MEMORY_LOCAL_USER`, the one class that occupies framebuffer.
pub const CLASS_MEMORY_LOCAL_USER: u32 = 0x40;

/// `NV50_MEMORY_VIRTUAL`.
pub const CLASS_MEMORY_VIRTUAL: u32 = 0x50a0;

/// `NVOS32_ATTR_LOCATION_VIDMEM`.
pub const LOCATION_VIDMEM: u32 = 0;

/// `NVOS32_ATTR_LOCATION_PCI`.
pub const LOCATION_PCI: u32 = 1;

/// `NVOS32_ATTR_LOCATION_ANY`.
pub const LOCATION_ANY: u32 = 3;

/// The `LOCATION` field of an attribute word: bits 25 and 26.
pub open spec fn location(attr: u32) -> u32 {
    attr / 0x200_0000 % 4
}

/// The `LOCATION` field of an attribute word.
pub fn location_of(attr: u32) -> (r: u32)
    ensures
        r == location(attr),
        r < 4,
{
    attr / 0x200_0000 % 4
}

/// Whether an attribute word places an allocation in framebuffer.
pub open spec fn in_vidmem(attr: u32) -> bool {
    location(attr) == LOCATION_VIDMEM
}

/// Whether a request asks for framebuffer.
fn asks_for_vidmem(attr: u32) -> (r: bool)
    ensures
        r == in_vidmem(attr),
{
    location_of(attr) == LOCATION_VIDMEM
}

/// Whether the driver placed an allocation in framebuffer.
fn is_vidmem(attr: u32) -> (r: bool)
    ensures
        r == in_vidmem(attr),
{
    location_of(attr) == LOCATION_VIDMEM
}

/// The bytes that flags, attributes and a size ask of the framebuffer: none for a
/// virtual allocation, for one placed elsewhere, and for an empty one.
pub open spec fn fb_bytes(flags: u32, attr: u32, size: u64) -> Option<u64> {
    if flags & ALLOC_FLAGS_VIRTUAL == 0 && in_vidmem(attr) && size > 0 {
        Some(size)
    } else {
        None
    }
}

/// What an allocation asks of the framebuffer: only a local-user allocation with
/// complete parameters asks anything.
pub open spec fn alloc_bytes(hclass: u32, aux: Seq<u8>) -> Option<u64> {
    if hclass == CLASS_MEMORY_LOCAL_USER && aux.len() >= P_LEN {
        fb_bytes(le32(aux, P_FLAGS as int), le32(aux, P_ATTR as int), le64(aux, P_SIZE as int))
    } else {
        None
    }
}

/// The bytes that an `RM_ALLOC` of this class asks of the framebuffer.
pub fn request_bytes(hclass: u32, aux: &[u8]) -> (r: Option<u64>)
    ensures
        r == alloc_bytes(hclass, aux@),
{
    if (hclass != CLASS_MEMORY_SYSTEM && hclass != CLASS_MEMORY_LOCAL_USER && hclass
        != CLASS_MEMORY_VIRTUAL) || aux.len() < P_LEN {
        return None;
    }
    if hclass != CLASS_MEMORY_LOCAL_USER {
        return None;
    }
    let flags: u32 = get32(aux, P_FLAGS);
    if flags & ALLOC_FLAGS_VIRTUAL != 0 {
        return None;
    }
    let attr: u32 = get32(aux, P_ATTR);
    if !asks_for_vidmem(attr) {
        return None;
    }
    let size: u64 = get64(aux, P_SIZE);
    if size > 0 {
        Some(size)
    } else {
        None
    }
}

/// Which function an `NVOS32_PARAMETERS` calls; nothing for a shorter buffer.
pub open spec fn heap_function(buf: Seq<u8>) -> Option<u32> {
    if buf.len() >= V_LEN {
        Some(le32(buf, V_FUNCTION as int))
    } else {
        None
    }
}

/// Which function an `NVOS32_PARAMETERS` calls; nothing for a shorter buffer.
pub fn vidheap_function(buf: &[u8]) -> (r: Option<u32>)
    ensures
        r == heap_function(buf@),
{
    if buf.len() >= V_LEN {
        Some(get32(buf, V_FUNCTION))
    } else {
        None
    }
}

/// What an `NVOS32` call asks of the framebuffer: only `ALLOC_SIZE` asks anything.
pub open spec fn heap_bytes(abi: &Abi, buf: Seq<u8>) -> Option<u64> {
    if heap_function(buf) == Some(abi.heap.alloc_size) {
        fb_bytes(le32(buf, VA_FLAGS as int), le32(buf, VA_ATTR as int), le64(buf, VA_SIZE as int))
    } else {
        None
    }
}

/// The bytes that an `NVOS32` call asks of the framebuffer.
pub fn vidheap_request_bytes(abi: &Abi, buf: &[u8]) -> (r: Option<u64>)
    ensures
        r == heap_bytes(abi, buf@),
{
    match vidheap_function(buf) {
        None => {
            return None;
        },
        Some(f) => {
            if f != abi.heap.alloc_size {
                return None;
            }
        },
    }
    let flags: u32 = get32(buf, VA_FLAGS);
    if flags & ALLOC_FLAGS_VIRTUAL != 0 {
        return None;
    }
    let attr: u32 = get32(buf, VA_ATTR);
    if !asks_for_vidmem(attr) {
        return None;
    }
    let size: u64 = get64(buf, VA_SIZE);
    if size > 0 {
        Some(size)
    } else {
        None
    }
}

/// The attributes that the driver wrote back; zero for a shorter buffer.
pub fn vidheap_attr_out(buf: &[u8]) -> (r: u32)
    ensures
        r == (if buf@.len() >= V_LEN {
            le32(buf@, VA_ATTR as int)
        } else {
            0
        }),
{
    if buf.len() < V_LEN {
        return 0;
    }
    get32(buf, VA_ATTR)
}

/// The memory handle that the driver settled on; zero for a shorter buffer.
pub fn vidheap_handle(buf: &[u8]) -> (r: u32)
    ensures
        r == (if buf@.len() >= V_LEN {
            le32(buf@, VA_HMEMORY as int)
        } else {
            0
        }),
{
    if buf.len() < V_LEN {
        return 0;
    }
    get32(buf, VA_HMEMORY)
}

/// Both ways to ask for memory come to the same charge: an allocation block and an
/// `ALLOC_SIZE` call that carry the same flags, attributes and size ask the same.
pub proof fn law_both_doors_ask_the_same(abi: &Abi, aux: Seq<u8>, buf: Seq<u8>)
    requires
        aux.len() >= P_LEN,
        heap_function(buf) == Some(abi.heap.alloc_size),
        le32(aux, P_FLAGS as int) == le32(buf, VA_FLAGS as int),
        le32(aux, P_ATTR as int) == le32(buf, VA_ATTR as int),
        le64(aux, P_SIZE as int) == le64(buf, VA_SIZE as int),
    ensures
        alloc_bytes(CLASS_MEMORY_LOCAL_USER, aux) == heap_bytes(abi, buf),
{
}

/// System memory and address space are never charged, whatever their attributes say.
pub proof fn law_other_classes_are_never_charged(hclass: u32, aux: Seq<u8>)
    requires
        hclass != CLASS_MEMORY_LOCAL_USER,
    ensures
        alloc_bytes(hclass, aux) is None,
{
}

/// Which allocation request an ask came through, and in which form.
#[derive(Clone, Copy, Debug, PartialEq, Eq, Hash, Structural)]
pub enum Door {
    Nvos64,
    Nvos21,
    Nvos32,
}

impl Door {
    pub open spec fn label(self) -> &'static str {
        match self {
            Door::Nvos64 => "NVOS64 RM_ALLOC",
            Door::Nvos21 => "NVOS21 RM_ALLOC",
            Door::Nvos32 => "NVOS32 VID_HEAP",
        }
    }

    /// The request as the driver's headers name it.
    pub fn name(self) -> (s: &'static str)
        ensures
            s == self.label(),
    {
        match self {
            Door::Nvos64 => "NVOS64 RM_ALLOC",
            Door::Nvos21 => "NVOS21 RM_ALLOC",
            Door::Nvos32 => "NVOS32 VID_HEAP",
        }
    }
}

/// The word for a `LOCATION`.
pub open spec fn location_word(attr: u32) -> &'static str {
    let l = location(attr);
    if l == LOCATION_VIDMEM {
        "VIDMEM"
    } else if l == LOCATION_PCI {
        "PCI"
    } else if l == LOCATION_ANY {
        "ANY"
    } else {
        "LOCATION_2"
    }
}

/// The `LOCATION` of an attribute word as a word.
pub fn location_name(attr: u32) -> (s: &'static str)
    ensures
        s == location_word(attr),
{
    let l: u32 = location_of(attr);
    if l == LOCATION_VIDMEM {
        "VIDMEM"
    } else if l == LOCATION_PCI {
        "PCI"
    } else if l == LOCATION_ANY {
        "ANY"
    } else {
        "LOCATION_2"
    }
}

/// An allocation request as it was before the driver wrote over it. The heap call
/// names no class: zero stands for it.
#[derive(Clone, Copy, Debug, PartialEq, Eq, Structural)]
pub struct Ask {
    pub door: Door,
    pub hclass: u32,
    pub flags: u32,
    pub attr: u32,
    pub size: u64,
}

impl Ask {
    /// The ask in the parameters of an `RM_ALLOC`, for the three classes that use them.
    pub open spec fn in_alloc(door: Door, hclass: u32, aux: Seq<u8>) -> Option<Ask> {
        if (hclass == CLASS_MEMORY_SYSTEM || hclass == CLASS_MEMORY_LOCAL_USER || hclass
            == CLASS_MEMORY_VIRTUAL) && aux.len() >= P_LEN {
            Some(
                Ask {
                    door,
                    hclass,
                    flags: le32(aux, P_FLAGS as int),
                    attr: le32(aux, P_ATTR as int),
                    size: le64(aux, P_SIZE as int),
                },
            )
        } else {
            None
        }
    }

    /// The ask in an `ALLOC_SIZE` call.
    pub open spec fn in_heap(abi: &Abi, buf: Seq<u8>) -> Option<Ask> {
        if heap_function(buf) == Some(abi.heap.alloc_size) {
            Some(
                Ask {
                    door: Door::Nvos32,
                    hclass: 0,
                    flags: le32(buf, VA_FLAGS as int),
                    attr: le32(buf, VA_ATTR as int),
                    size: le64(buf, VA_SIZE as int),
                },
            )
        } else {
            None
        }
    }

    /// The ask in the parameters of an `RM_ALLOC`; nothing for another class.
    pub fn of_alloc(door: Door, hclass: u32, aux: &[u8]) -> (r: Option<Ask>)
        ensures
            r == Ask::in_alloc(door, hclass, aux@),
    {
        if (hclass != CLASS_MEMORY_SYSTEM && hclass != CLASS_MEMORY_LOCAL_USER && hclass
            != CLASS_MEMORY_VIRTUAL) || aux.len() < P_LEN {
            return None;
        }
        Some(
            Ask {
                door,
                hclass,
                flags: get32(aux, P_FLAGS),
                attr: get32(aux, P_ATTR),
                size: get64(aux, P_SIZE),
            },
        )
    }

    /// The ask in an `ALLOC_SIZE` call; nothing for another function.
    pub fn of_vidheap(abi: &Abi, buf: &[u8]) -> (r: Option<Ask>)
        ensures
            r == Ask::in_heap(abi, buf@),
    {
        match vidheap_function(buf) {
            None => {
                return None;
            },
            Some(f) => {
                if f != abi.heap.alloc_size {
                    return None;
                }
            },
        }
        Some(
            Ask {
                door: Door::Nvos32,
                hclass: 0,
                flags: get32(buf, VA_FLAGS),
                attr: get32(buf, VA_ATTR),
                size: get64(buf, VA_SIZE),
            },
        )
    }

    /// What kind of request this is: asks that differ only in size share it.
    pub open spec fn kind_spec(&self) -> (Door, u32, u32) {
        (self.door, self.hclass, location(self.attr))
    }

    /// What kind of request this is: asks that differ only in size share it.
    pub fn kind(&self) -> (r: (Door, u32, u32))
        ensures
            r == self.kind_spec(),
    {
        (self.door, self.hclass, location_of(self.attr))
    }

    /// The request in words, up to the size in MiB.
    pub open spec fn words(&self) -> Seq<char> {
        self.door.label()@ + " "@ + (if self.door == Door::Nvos32 {
            "ALLOC_SIZE"@
        } else {
            "class 0x"@ + hexadecimal(self.hclass as nat)
        }) + " flags 0x"@ + hexadecimal(self.flags as nat) + " attr 0x"@ + padded8(self.attr)
            + " ("@ + location_word(self.attr)@ + ") size 0x"@ + hexadecimal(self.size as nat)
    }

    /// The request in words, up to the size in MiB.
    pub fn describe(&self) -> (s: String)
        ensures
            s@ == self.words(),
    {
        let mut s: String = String::new();
        s.append(self.door.name());
        s.append(" ");
        if self.door == Door::Nvos32 {
            s.append("ALLOC_SIZE");
        } else {
            s.append("class 0x");
            s.append(hex(self.hclass as u64).as_str());
        }
        s.append(" flags 0x");
        s.append(hex(self.flags as u64).as_str());
        s.append(" attr 0x");
        push_padded8(&mut s, self.attr);
        s.append(" (");
        s.append(location_name(self.attr));
        s.append(") size 0x");
        s.append(hex(self.size).as_str());
        assert(s@ =~= self.words());
        s
    }
}

/// Eight hexadecimal digits, with leading zeros.
pub open spec fn padded8(v: u32) -> Seq<char> {
    let b = crate::bytes::bytes32(v);
    Seq::new(
        8,
        |i: int|
            crate::text::hex_digit(
                if i % 2 == 0 {
                    b[3 - i / 2] as int / 16
                } else {
                    b[3 - i / 2] as int % 16
                },
            ),
    )
}

/// Appends eight hexadecimal digits, with leading zeros.
pub fn push_padded8(s: &mut String, v: u32)
    ensures
        final(s)@ == old(s)@ + padded8(v),
{
    crate::text::push_hex_byte(s, (v / 0x100_0000) as u8);
    crate::text::push_hex_byte(s, (v / 0x1_0000 % 0x100) as u8);
    crate::text::push_hex_byte(s, (v / 0x100 % 0x100) as u8);
    crate::text::push_hex_byte(s, (v % 0x100) as u8);
    assert(s@ =~= old(s)@ + padded8(v));
}

/// The memory policy that a backend starts with.
#[derive(Clone, Copy, Debug, PartialEq, Eq, Structural)]
pub enum Policy {
    /// No cap at all.
    Off,
    /// `LEA_VRAM_LIMIT_MIB`: a counter per VM, charged at allocation time.
    Accounting,
    /// `LEA_VRAM_PROFILE_MIB`: what the VM may cost the card; the guest gets what
    /// is left after the reservation.
    Reserved,
    /// `LEA_VGPU_TYPE`: the same, with both numbers from the card's catalogue.
    Grid,
}

impl Policy {
    pub open spec fn variable(self) -> &'static str {
        match self {
            Policy::Off => "no cap",
            Policy::Accounting => "LEA_VRAM_LIMIT_MIB",
            Policy::Reserved => "LEA_VRAM_PROFILE_MIB",
            Policy::Grid => "LEA_VGPU_TYPE",
        }
    }

    /// The variable that sets this policy.
    pub fn knob(self) -> (s: &'static str)
        ensures
            s == self.variable(),
    {
        match self {
            Policy::Off => "no cap",
            Policy::Accounting => "LEA_VRAM_LIMIT_MIB",
            Policy::Reserved => "LEA_VRAM_PROFILE_MIB",
            Policy::Grid => "LEA_VGPU_TYPE",
        }
    }
}

/// The budget of a VM in bytes: what it may cost the card, what is kept back for the
/// driver's own allocations, and the framebuffer that the guest is told of.
#[derive(Clone, Copy, Debug, PartialEq, Eq)]
pub struct Profile {
    pub policy: Policy,
    /// The planned budget on the card.
    pub size: u64,
    /// The allowance for what the driver allocates on its own.
    pub reservation: u64,
    /// The enforced and reported framebuffer; zero for no cap.
    pub fb_length: u64,
    /// The name of the type under [`Policy::Grid`], empty otherwise.
    pub vgpu_type: &'static str,
    /// The share of the encoder in percent; zero leaves the driver's answer alone.
    pub encoder_capacity: u32,
}

/// Whole mebibytes in a number of bytes.
pub open spec fn mib(b: u64) -> nat {
    (b / 0x10_0000) as nat
}

impl Profile {
    /// The profile without a policy.
    pub open spec fn off_spec() -> Profile {
        Profile {
            policy: Policy::Off,
            size: 0,
            reservation: 0,
            fb_length: 0,
            vgpu_type: "",
            encoder_capacity: 0,
        }
    }

    /// The profile without a policy.
    pub fn off() -> (p: Profile)
        ensures
            p == Profile::off_spec(),
    {
        Profile {
            policy: Policy::Off,
            size: 0,
            reservation: 0,
            fb_length: 0,
            vgpu_type: "",
            encoder_capacity: 0,
        }
    }

    /// The accounting policy with a limit in bytes; zero is no policy at all.
    pub open spec fn accounting_spec(bytes: u64) -> Profile {
        if bytes == 0 {
            Profile::off_spec()
        } else {
            Profile {
                policy: Policy::Accounting,
                size: bytes,
                reservation: 0,
                fb_length: bytes,
                vgpu_type: "",
                encoder_capacity: 0,
            }
        }
    }

    /// The accounting policy with a limit in bytes; zero is no policy at all.
    pub fn accounting(bytes: u64) -> (p: Profile)
        ensures
            p == Profile::accounting_spec(bytes),
    {
        if bytes == 0 {
            return Profile::off();
        }
        Profile {
            policy: Policy::Accounting,
            size: bytes,
            reservation: 0,
            fb_length: bytes,
            vgpu_type: "",
            encoder_capacity: 0,
        }
    }

    /// The line that a backend prints once, at startup.
    pub open spec fn line(&self) -> Option<Seq<char>> {
        match self.policy {
            Policy::Off => None,
            Policy::Accounting => Some(
                "VRAM cap "@ + decimal(mib(self.size))
                    + " MiB for this VM (LEA_VRAM_LIMIT_MIB)"@,
            ),
            _ => Some(
                "VRAM profile "@ + decimal(mib(self.size)) + " MiB for this VM = "@ + decimal(
                    mib(self.fb_length),
                ) + " MiB guest FB + "@ + decimal(mib(self.reservation))
                    + " MiB reserved for RM's own device memory ("@ + self.policy.variable()@
                    + " "@ + (if self.policy == Policy::Grid {
                    self.vgpu_type@
                } else {
                    "/ LEA_VRAM_RESERVE_MIB"@
                }) + "). The guest is told "@ + decimal(mib(self.fb_length))
                    + " MiB and is refused at the same number; the reservation is not allocated, it is FB the guest is never offered. Nothing here checks the card or a sibling VM, so profiles that sum past the card are accepted."@,
            ),
        }
    }

    /// The line that a backend prints once, at startup; none without a policy.
    pub fn announce(&self) -> (r: Option<String>)
        ensures
            match (r, self.line()) {
                (Some(s), Some(want)) => s@ == want,
                (None, None) => true,
                _ => false,
            },
    {
        match self.policy {
            Policy::Off => None,
            Policy::Accounting => {
                let mut s: String = String::new();
                s.append("VRAM cap ");
                s.append(dec(self.size / 0x10_0000).as_str());
                s.append(" MiB for this VM (LEA_VRAM_LIMIT_MIB)");
                assert(s@ =~= self.line()->Some_0);
                Some(s)
            },
            _ => {
                let mut s: String = String::new();
                s.append("VRAM profile ");
                s.append(dec(self.size / 0x10_0000).as_str());
                s.append(" MiB for this VM = ");
                s.append(dec(self.fb_length / 0x10_0000).as_str());
                s.append(" MiB guest FB + ");
                s.append(dec(self.reservation / 0x10_0000).as_str());
                s.append(" MiB reserved for RM's own device memory (");
                s.append(self.policy.knob());
                s.append(" ");
                if self.policy == Policy::Grid {
                    s.append(self.vgpu_type);
                } else {
                    s.append("/ LEA_VRAM_RESERVE_MIB");
                }
                s.append("). The guest is told ");
                s.append(dec(self.fb_length / 0x10_0000).as_str());
                s.append(
                    " MiB and is refused at the same number; the reservation is not allocated, it is FB the guest is never offered. Nothing here checks the card or a sibling VM, so profiles that sum past the card are accepted.",
                );
                assert(s@ =~= self.line()->Some_0);
                Some(s)
            },
        }
    }
}

/// A guest process and what it holds.
#[derive(Debug)]
pub struct ProcRow {
    pub guest_pid: u32,
    pub bytes: u64,
    /// The guest's name for it.
    pub name: String,
}

/// What a row says.
pub struct RowView {
    pub guest_pid: u32,
    pub bytes: u64,
    pub name: Seq<char>,
}

impl View for ProcRow {
    type V = RowView;

    open spec fn view(&self) -> RowView {
        RowView { guest_pid: self.guest_pid, bytes: self.bytes, name: self.name@ }
    }
}

impl Clone for ProcRow {
    fn clone(&self) -> (r: ProcRow)
        ensures
            r@ == self@,
    {
        ProcRow { guest_pid: self.guest_pid, bytes: self.bytes, name: self.name.clone() }
    }
}

/// How the driver ended a request that the ledger had reserved for.
#[derive(Clone, Copy, Debug, PartialEq, Eq, Structural)]
pub enum Outcome {
    /// The `LOCATION` that it wrote back.
    Placed(u32),
    /// The status that it failed with.
    Failed(u32),
}

/// A kind of request and how it ended.
#[derive(Clone, Copy, Debug, PartialEq, Eq, Structural)]
pub struct Placement {
    pub door: Door,
    pub class: u32,
    pub requested_location: u32,
    pub outcome: Outcome,
}

/// The state of a ledger.
pub struct LedgerView {
    pub profile: Profile,
    pub used: u64,
    /// What each guest process is and holds, by its session's number.
    pub roster: Map<u64, RowView>,
    /// The endings that were seen.
    pub seen: Set<Placement>,
}

impl LedgerView {
    pub open spec fn limit(self) -> u64 {
        self.profile.fb_length
    }

    /// Under a cap, no more is in use than the cap allows.
    pub open spec fn capped(self) -> bool {
        self.limit() != 0 ==> self.used <= self.limit()
    }

    /// Whether so many bytes more can be charged: the counter must hold them, and the
    /// cap, where there is one, must allow them.
    pub open spec fn admits(self, bytes: u64) -> bool {
        &&& self.used + bytes <= u64::MAX
        &&& self.limit() != 0 ==> self.used + bytes <= self.limit()
    }

    /// The ledger with so many bytes more in use.
    pub open spec fn charged(self, bytes: u64) -> LedgerView {
        LedgerView { used: (self.used + bytes) as u64, ..self }
    }

    /// The ledger with so many bytes less in use, and never less than none.
    pub open spec fn released(self, bytes: u64) -> LedgerView {
        LedgerView {
            used: if bytes <= self.used {
                (self.used - bytes) as u64
            } else {
                0
            },
            ..self
        }
    }

    /// The ledger with this figure beside a process that is on the list.
    pub open spec fn with_bytes(self, sub_id: u32, bytes: u64) -> LedgerView {
        if self.roster.contains_key(sub_id as u64) {
            LedgerView {
                roster: self.roster.insert(
                    sub_id as u64,
                    RowView { bytes, ..self.roster[sub_id as u64] },
                ),
                ..self
            }
        } else {
            self
        }
    }

    /// The ledger after a request of this kind ended this way.
    pub open spec fn saw(self, p: Placement) -> LedgerView {
        LedgerView { seen: self.seen.insert(p), ..self }
    }

    /// The ledger without this process.
    pub open spec fn without(self, sub_id: u32) -> LedgerView {
        LedgerView { roster: self.roster.remove(sub_id as u64), ..self }
    }

    /// The ledger with this process on the list.
    pub open spec fn registered(self, sub_id: u32, guest_pid: u32, name: Seq<char>) -> LedgerView {
        let bytes = if self.roster.contains_key(sub_id as u64) {
            self.roster[sub_id as u64].bytes
        } else {
            0
        };
        LedgerView {
            roster: self.roster.insert(sub_id as u64, RowView { guest_pid, bytes, name }),
            ..self
        }
    }
}

/// The rows, in the order of the sessions' numbers, of the processes that said who they are.
pub open spec fn is_listing(roster: Map<u64, RowView>, rows: Seq<RowView>) -> bool {
    exists|keys: Seq<u64>|
        {
            &&& #[trigger] crate::table::rising(keys)
            &&& keys.len() == rows.len()
            &&& forall|k: u64|
                keys.contains(k) <==> (roster.contains_key(k) && roster[k].guest_pid != 0)
            &&& forall|i: int| 0 <= i < rows.len() ==> #[trigger] rows[i] == roster[keys[i]]
        }
}

/// The rows of the processes that said who they are, in the order of the sessions' numbers.
pub open spec fn listing(roster: Map<u64, RowView>) -> Seq<RowView> {
    choose|rows: Seq<RowView>| is_listing(roster, rows)
}

/// There is only one such list.
pub proof fn law_the_listing_is_one(roster: Map<u64, RowView>, rows: Seq<RowView>)
    requires
        is_listing(roster, rows),
    ensures
        rows == listing(roster),
{
    let other = listing(roster);
    assert(is_listing(roster, other));
    let a = choose|keys: Seq<u64>|
        {
            &&& #[trigger] crate::table::rising(keys)
            &&& keys.len() == rows.len()
            &&& forall|k: u64|
                keys.contains(k) <==> (roster.contains_key(k) && roster[k].guest_pid != 0)
            &&& forall|i: int| 0 <= i < rows.len() ==> #[trigger] rows[i] == roster[keys[i]]
        };
    let b = choose|keys: Seq<u64>|
        {
            &&& #[trigger] crate::table::rising(keys)
            &&& keys.len() == other.len()
            &&& forall|k: u64|
                keys.contains(k) <==> (roster.contains_key(k) && roster[k].guest_pid != 0)
            &&& forall|i: int| 0 <= i < other.len() ==> #[trigger] other[i] == roster[keys[i]]
        };
    assert forall|k: u64| #[trigger] a.contains(k) <==> b.contains(k) by {}
    lemma_rising_lists_agree(a, b);
    assert(rows =~= other);
}

/// One process in a census.
pub struct CensusRow {
    pub sub_id: u64,
    pub row: ProcRow,
}

/// Who holds what, for a refusal.
pub struct Census {
    pub used: u64,
    pub limit: u64,
    /// The processes that hold anything, the largest first.
    pub rows: Vec<CensusRow>,
    /// What no named process holds.
    pub unnamed: u64,
    /// How many processes hold nothing.
    pub empty: usize,
}

/// The order of a census: the larger holding first, then the smaller number.
pub open spec fn before(a: CensusRow, b: CensusRow) -> bool {
    a.row.bytes > b.row.bytes || (a.row.bytes == b.row.bytes && a.sub_id < b.sub_id)
}

/// All that a list of processes holds together.
pub open spec fn holding(roster: Map<u64, RowView>) -> nat
    decreases roster.dom().len(),
{
    if roster.dom().finite() && roster.dom().len() > 0 {
        let k = roster.dom().choose();
        roster[k].bytes as nat + holding(roster.remove(k))
    } else {
        0
    }
}

proof fn lemma_holding(roster: Map<u64, RowView>, k: u64)
    requires
        roster.dom().finite(),
        roster.contains_key(k),
    ensures
        holding(roster) == roster[k].bytes as nat + holding(roster.remove(k)),
    decreases roster.dom().len(),
{
    let c = roster.dom().choose();
    assert(roster.dom().len() > 0) by {
        if roster.dom().len() == 0 {
            assert(roster.dom() =~= Set::empty());
        }
    }
    if c != k {
        lemma_holding(roster.remove(c), k);
        lemma_holding(roster.remove(k), c);
        assert(roster.remove(c).remove(k) =~= roster.remove(k).remove(c));
    }
}

/// The counter of one VM and the list of its guest processes. Counting goes on
/// without a cap; refusing needs one.
pub struct Ledger {
    profile: Profile,
    used: u64,
    roster: Table<ProcRow>,
    placements: Vec<Placement>,
}

impl View for Ledger {
    type V = LedgerView;

    closed spec fn view(&self) -> LedgerView {
        LedgerView {
            profile: self.profile,
            used: self.used,
            roster: self.roster@.map_values(|r: ProcRow| r@),
            seen: self.placements@.to_set(),
        }
    }
}

impl Ledger {
    /// A ledger under a profile.
    pub fn with_profile(profile: Profile) -> (l: Ledger)
        ensures
            l@ == (LedgerView {
                profile,
                used: 0,
                roster: Map::empty(),
                seen: Set::empty(),
            }),
            l@.capped(),
    {
        let l = Ledger { profile, used: 0, roster: Table::new(), placements: Vec::new() };
        assert(l@.roster =~= Map::empty());
        assert(l@.seen =~= Set::empty());
        l
    }

    /// A ledger without a cap.
    pub fn off() -> (l: Ledger)
        ensures
            l@ == (LedgerView {
                profile: Profile::off_spec(),
                used: 0,
                roster: Map::empty(),
                seen: Set::empty(),
            }),
    {
        Ledger::with_profile(Profile::off())
    }

    /// A ledger with a cap in bytes.
    pub fn for_test(limit: u64) -> (l: Ledger)
        ensures
            l@ == (LedgerView {
                profile: Profile::accounting_spec(limit),
                used: 0,
                roster: Map::empty(),
                seen: Set::empty(),
            }),
            l@.limit() == limit,
            l@.capped(),
    {
        Ledger::with_profile(Profile::accounting(limit))
    }

    /// A ledger under a profile, where the enforced and the planned number differ.
    pub fn for_test_profile(profile: Profile) -> (l: Ledger)
        ensures
            l@ == (LedgerView {
                profile,
                used: 0,
                roster: Map::empty(),
                seen: Set::empty(),
            }),
            l@.capped(),
    {
        Ledger::with_profile(profile)
    }

    /// Whether there is a cap.
    pub fn enabled(&self) -> (r: bool)
        ensures
            r == (self@.limit() != 0),
    {
        self.profile.fb_length != 0
    }

    /// The enforced and reported framebuffer.
    pub fn limit(&self) -> (r: u64)
        ensures
            r == self@.limit(),
    {
        self.profile.fb_length
    }

    /// The whole profile.
    pub fn profile(&self) -> (r: Profile)
        ensures
            r == self@.profile,
    {
        self.profile
    }

    /// The bytes in use.
    pub fn used(&self) -> (r: u64)
        ensures
            r == self@.used,
    {
        self.used
    }

    /// Charges bytes, where the counter holds them and the cap allows them.
    pub fn charge(&mut self, bytes: u64) -> (r: bool)
        ensures
            r == old(self)@.admits(bytes),
            final(self)@ == (if r {
                old(self)@.charged(bytes)
            } else {
                old(self)@
            }),
            old(self)@.capped() ==> final(self)@.capped(),
    {
        let next: u64 = match self.used.checked_add(bytes) {
            None => {
                return false;
            },
            Some(n) => n,
        };
        if self.profile.fb_length != 0 && next > self.profile.fb_length {
            return false;
        }
        self.used = next;
        true
    }

    /// Gives bytes back. The counter never wraps below zero.
    pub fn release(&mut self, bytes: u64)
        ensures
            final(self)@ == old(self)@.released(bytes),
            old(self)@.capped() ==> final(self)@.capped(),
    {
        if bytes == 0 {
            return;
        }
        self.used = self.used.saturating_sub(bytes);
    }

    /// A guest process said who it is. Saying it again changes nothing else.
    pub fn register(&mut self, sub_id: u32, guest_pid: u32, name: &str)
        ensures
            final(self)@ == old(self)@.registered(sub_id, guest_pid, name@),
    {
        let bytes: u64 = match self.roster.get(sub_id as u64) {
            Some(row) => row.bytes,
            None => 0,
        };
        self.roster.insert(sub_id as u64, ProcRow { guest_pid, bytes, name: name.to_owned() });
        assert(self@.roster =~= old(self)@.registered(sub_id, guest_pid, name@).roster);
    }

    /// A session ended: its process leaves the list.
    pub fn forget(&mut self, sub_id: u32)
        ensures
            final(self)@ == old(self)@.without(sub_id),
    {
        self.roster.remove(sub_id as u64);
        assert(self@.roster =~= old(self)@.without(sub_id).roster);
    }

    /// What a guest process holds now, where it is on the list.
    pub fn set_bytes(&mut self, sub_id: u32, bytes: u64)
        ensures
            final(self)@ == old(self)@.with_bytes(sub_id, bytes),
    {
        match self.roster.remove(sub_id as u64) {
            None => {
                assert(self.roster@ =~= old(self).roster@);
            },
            Some(row) => {
                self.roster.insert(sub_id as u64, ProcRow { bytes, ..row });
                assert(self@.roster =~= old(self)@.with_bytes(sub_id, bytes).roster);
            },
        }
    }

    /// The processes that said who they are, in the order of their sessions' numbers.
    pub fn roster(&self) -> (rows: Vec<ProcRow>)
        ensures
            is_listing(self@.roster, rows@.map_values(|r: ProcRow| r@)),
    {
        let keys: Vec<u64> = self.roster.keys();
        let mut rows: Vec<ProcRow> = Vec::new();
        let ghost mut listed: Seq<u64> = Seq::empty();
        let mut i: usize = 0;
        while i < keys.len()
            invariant
                i <= keys@.len(),
                crate::table::rising(keys@),
                forall|k: u64| self.roster@.contains_key(k) <==> #[trigger] keys@.contains(k),
                crate::table::rising(listed),
                listed.len() == rows@.len(),
                forall|j: int| 0 <= j < listed.len() ==> keys@.take(i as int).contains(#[trigger] listed[j]),
                forall|j: int|
                    0 <= j < i && self.roster@[keys@[j]].guest_pid != 0 ==> listed.contains(
                        #[trigger] keys@[j],
                    ),
                forall|j: int|
                    0 <= j < listed.len() ==> self@.roster.contains_key(#[trigger] listed[j])
                        && self@.roster[listed[j]].guest_pid != 0,
                forall|j: int|
                    0 <= j < rows@.len() ==> (#[trigger] rows@[j])@ == self@.roster[listed[j]],
            decreases keys@.len() - i,
        {
            let k: u64 = keys[i];
            assert(keys@.contains(k));
            let ghost was = listed;
            if let Some(row) = self.roster.get(k) {
                if row.guest_pid != 0 {
                    rows.push(row.clone());
                    proof {
                        listed = listed.push(k);
                        assert forall|a: int, b: int| 0 <= a < b < listed.len() implies #[trigger] listed[a]
                            < #[trigger] listed[b] by {
                            if b == was.len() {
                                assert(keys@.take(i as int).contains(was[a]));
                                let j = choose|j: int|
                                    0 <= j < i && keys@.take(i as int)[j] == was[a];
                                assert(keys@[j] < keys@[i as int]);
                            }
                        }
                        assert(listed[was.len() as int] == k);
                    }
                }
            }
            proof {
                assert forall|j: int| 0 <= j < listed.len() implies keys@.take(i + 1).contains(
                    #[trigger] listed[j],
                ) by {
                    if j < was.len() {
                        assert(keys@.take(i as int).contains(was[j]));
                        let m = choose|m: int| 0 <= m < i && keys@.take(i as int)[m] == was[j];
                        assert(keys@.take(i + 1)[m] == was[j]);
                    } else {
                        assert(keys@.take(i + 1)[i as int] == k);
                    }
                }
                assert forall|j: int|
                    0 <= j < i + 1 && self.roster@[keys@[j]].guest_pid != 0 implies listed.contains(
                    #[trigger] keys@[j],
                ) by {
                    if j < i {
                        assert(was.contains(keys@[j]));
                        let m = choose|m: int| 0 <= m < was.len() && was[m] == keys@[j];
                        assert(listed[m] == keys@[j]);
                    } else {
                        assert(listed[listed.len() - 1] == k);
                    }
                }
            }
            i = i + 1;
        }
        proof {
            let out = rows@.map_values(|r: ProcRow| r@);
            assert forall|k: u64|
                listed.contains(k) <==> (self@.roster.contains_key(k) && self@.roster[k].guest_pid
                    != 0) by {
                if listed.contains(k) {
                    let j = choose|j: int| 0 <= j < listed.len() && listed[j] == k;
                    assert(self@.roster.contains_key(listed[j]));
                }
                if self@.roster.contains_key(k) && self@.roster[k].guest_pid != 0 {
                    assert(keys@.contains(k));
                    let j = choose|j: int| 0 <= j < keys@.len() && keys@[j] == k;
                    assert(listed.contains(keys@[j]));
                }
            }
            assert(crate::table::rising(listed));
            assert(is_listing(self@.roster, out));
        }
        rows
    }

    /// Whether this is the first time that this kind of request ends this way.
    pub fn first_placement(&mut self, ask: &Ask, outcome: Outcome) -> (r: bool)
        ensures
            ({
                let (door, class, requested_location) = ask.kind_spec();
                let p = Placement { door, class, requested_location, outcome };
                &&& r == !old(self)@.seen.contains(p)
                &&& final(self)@ == old(self)@.saw(p)
            }),
    {
        let (door, class, requested_location) = ask.kind();
        let p: Placement = Placement { door, class, requested_location, outcome };
        let mut i: usize = 0;
        while i < self.placements.len()
            invariant
                i <= self.placements@.len(),
                *self == *old(self),
                p == (Placement {
                    door: ask.kind_spec().0,
                    class: ask.kind_spec().1,
                    requested_location: ask.kind_spec().2,
                    outcome,
                }),
                forall|j: int| 0 <= j < i ==> self.placements@[j] != p,
            decreases self.placements@.len() - i,
        {
            if self.placements[i] == p {
                assert(self.placements@[i as int] == p);
                assert(self@.seen.contains(p));
                assert(self@.seen.insert(p) =~= self@.seen);
                return false;
            }
            i = i + 1;
        }
        self.placements.push(p);
        proof {
            let was = old(self).placements@;
            assert(!was.to_set().contains(p)) by {
                assert(forall|j: int| 0 <= j < was.len() ==> was[j] != p);
            }
            assert(self.placements@ =~= was.push(p));
            assert forall|x: Placement| self.placements@.to_set().contains(x) <==> was.to_set().insert(
                p,
            ).contains(x) by {
                if was.contains(x) {
                    let j = choose|j: int| 0 <= j < was.len() && was[j] == x;
                    assert(self.placements@[j] == x);
                }
                if x == p {
                    assert(self.placements@[was.len() as int] == x);
                }
                if self.placements@.contains(x) {
                    let j = choose|j: int|
                        0 <= j < self.placements@.len() && self.placements@[j] == x;
                    if j < was.len() {
                        assert(was[j] == x);
                    }
                }
            }
            assert(self.placements@.to_set() =~= was.to_set().insert(p));
        }
        true
    }
}

/// The rows of a census: everyone who holds anything, once, the largest first.
pub open spec fn is_ranking(roster: Map<u64, RowView>, rows: Seq<CensusRow>) -> bool {
    &&& forall|i: int, j: int| 0 <= i < j < rows.len() ==> before(#[trigger] rows[i], #[trigger] rows[j])
    &&& forall|i: int|
        0 <= i < rows.len() ==> {
            &&& roster.contains_key((#[trigger] rows[i]).sub_id)
            &&& rows[i].row@ == roster[rows[i].sub_id]
            &&& rows[i].row.bytes != 0
        }
    &&& forall|k: u64| #[trigger]
        roster.contains_key(k) && roster[k].bytes != 0 ==> exists|i: int|
            0 <= i < rows.len() && (#[trigger] rows[i]).sub_id == k
}

/// The processes that hold nothing.
pub open spec fn idle(roster: Map<u64, RowView>) -> Set<u64> {
    roster.dom().filter(|k: u64| roster[k].bytes == 0)
}

impl Ledger {
    /// Who holds what: every process that holds anything, the largest first, and what
    /// no named process holds.
    pub fn census(&self) -> (c: Census)
        ensures
            c.used == self@.used,
            c.limit == self@.limit(),
            is_ranking(self@.roster, c.rows@),
            c.empty == idle(self@.roster).len(),
            c.unnamed == (if holding(self@.roster) <= self@.used {
                self@.used - holding(self@.roster)
            } else {
                0
            }),
    {
        let keys: Vec<u64> = self.roster.keys();
        let mut rows: Vec<CensusRow> = Vec::new();
        let mut named: u64 = 0;
        let mut empty: usize = 0;
        let ghost roster = self@.roster;
        let ghost mut rest: Map<u64, RowView> = roster;
        let ghost mut zeros: Set<u64> = Set::empty();
        let ghost mut sum: nat = 0;
        proof {
            assert(roster.dom() =~= self.roster@.dom());
            assert forall|j: int| 0 <= j < keys@.len() implies rest.contains_key(#[trigger] keys@[j]) by {
                assert(keys@.contains(keys@[j]));
                assert(self.roster@.contains_key(keys@[j]));
            }
            assert forall|k: u64| #[trigger] rest.contains_key(k) implies exists|j: int|
                0 <= j < keys@.len() && keys@[j] == k by {
                assert(self.roster@.contains_key(k));
                assert(keys@.contains(k));
            }
        }
        let mut i: usize = 0;
        while i < keys.len()
            invariant
                i <= keys@.len(),
                roster == self@.roster,
                roster.dom() == self.roster@.dom(),
                crate::table::rising(keys@),
                forall|k: u64| roster.contains_key(k) <==> #[trigger] keys@.contains(k),
                rest.dom().finite(),
                forall|j: int| i <= j < keys@.len() ==> rest.contains_key(#[trigger] keys@[j]),
                forall|k: u64| #[trigger]
                    rest.contains_key(k) ==> roster.contains_key(k) && rest[k] == roster[k] && exists|
                        j: int,
                    |
                        i <= j < keys@.len() && keys@[j] == k,
                sum + holding(rest) == holding(roster),
                named == (if sum <= u64::MAX {
                    sum
                } else {
                    u64::MAX as nat
                }),
                zeros.finite(),
                zeros.len() == empty,
                empty <= i,
                forall|k: u64| #[trigger]
                    zeros.contains(k) <==> roster.contains_key(k) && roster[k].bytes == 0
                        && !rest.contains_key(k),
                forall|a: int, b: int|
                    0 <= a < b < rows@.len() ==> before(#[trigger] rows@[a], #[trigger] rows@[b]),
                forall|a: int|
                    0 <= a < rows@.len() ==> {
                        &&& roster.contains_key((#[trigger] rows@[a]).sub_id)
                        &&& !rest.contains_key(rows@[a].sub_id)
                        &&& rows@[a].row@ == roster[rows@[a].sub_id]
                        &&& rows@[a].row.bytes != 0
                    },
                forall|k: u64| #[trigger]
                    roster.contains_key(k) && roster[k].bytes != 0 && !rest.contains_key(k)
                        ==> exists|a: int| 0 <= a < rows@.len() && (#[trigger] rows@[a]).sub_id == k,
            decreases keys@.len() - i,
        {
            let k: u64 = keys[i];
            let ghost was = rest;
            proof {
                assert(keys@.contains(k));
                assert(rest.contains_key(k));
                lemma_holding(rest, k);
                rest = rest.remove(k);
                sum = sum + roster[k].bytes as nat;
                assert forall|x: u64| #[trigger] rest.contains_key(x) implies exists|j: int|
                    i + 1 <= j < keys@.len() && keys@[j] == x by {
                    assert(was.contains_key(x));
                    let j = choose|j: int| i <= j < keys@.len() && keys@[j] == x;
                    assert(j != i);
                }
                assert forall|j: int| i + 1 <= j < keys@.len() implies rest.contains_key(
                    #[trigger] keys@[j],
                ) by {
                    assert(keys@[i as int] < keys@[j]);
                }
            }
            if let Some(row) = self.roster.get(k) {
                named = named.saturating_add(row.bytes);
                if row.bytes == 0 {
                    empty = empty + 1;
                    proof {
                        zeros = zeros.insert(k);
                    }
                } else {
                    let mut at: usize = 0;
                    while at < rows.len() && (rows[at].row.bytes > row.bytes || (rows[at].row.bytes
                        == row.bytes && rows[at].sub_id < k))
                        invariant
                            at <= rows@.len(),
                            forall|a: int|
                                0 <= a < at ==> ((#[trigger] rows@[a]).row.bytes > row.bytes || (
                                rows@[a].row.bytes == row.bytes && rows@[a].sub_id < k)),
                        decreases rows@.len() - at,
                    {
                        at = at + 1;
                    }
                    let ghost old_rows = rows@;
                    let fresh: CensusRow = CensusRow { sub_id: k, row: row.clone() };
                    rows.insert(at, fresh);
                    proof {
                        assert(rows@ == old_rows.insert(at as int, fresh));
                        assert(forall|a: int| 0 <= a < at ==> rows@[a] == old_rows[a]);
                        assert(forall|a: int| at < a < rows@.len() ==> rows@[a] == old_rows[a - 1]);
                        assert forall|a: int, b: int| 0 <= a < b < rows@.len() implies before(
                            #[trigger] rows@[a],
                            #[trigger] rows@[b],
                        ) by {
                            if b < at {
                                assert(before(old_rows[a], old_rows[b]));
                            } else if a > at {
                                assert(before(old_rows[a - 1], old_rows[b - 1]));
                            } else if a < at && b > at {
                                assert(before(old_rows[a], old_rows[b - 1]));
                            } else if b == at {
                                assert(before(old_rows[a], fresh));
                            } else {
                                let x = old_rows[b - 1];
                                assert(x.sub_id != k) by {
                                    assert(!was.contains_key(x.sub_id));
                                }
                                if b - 1 > at {
                                    assert(before(old_rows[at as int], x));
                                }
                            }
                        }
                        assert forall|x: u64| #[trigger]
                            roster.contains_key(x) && roster[x].bytes != 0 && !rest.contains_key(
                                x,
                            ) implies exists|a: int|
                            0 <= a < rows@.len() && (#[trigger] rows@[a]).sub_id == x by {
                            if x == k {
                                assert(rows@[at as int].sub_id == x);
                            } else {
                                assert(!was.contains_key(x));
                                let a = choose|a: int|
                                    0 <= a < old_rows.len() && (#[trigger] old_rows[a]).sub_id == x;
                                if a < at {
                                    assert(rows@[a].sub_id == x);
                                } else {
                                    assert(rows@[a + 1].sub_id == x);
                                }
                            }
                        }
                    }
                }
            }
            i = i + 1;
        }
        proof {
            assert(rest =~= Map::empty()) by {
                assert forall|k: u64| !#[trigger] rest.contains_key(k) by {}
            }
            assert(rest.dom() =~= Set::empty());
            assert(holding(rest) == 0);
            assert(zeros =~= idle(roster));
        }
        let used: u64 = self.used;
        Census { used, limit: self.profile.fb_length, rows, unnamed: used.saturating_sub(named), empty }
    }
}

/// What must be known of an allocation to give its charge back.
#[derive(Clone, Copy, Debug, PartialEq, Eq, Structural)]
pub struct Charge {
    /// The descriptor it rode on: closing that gives the charge back.
    pub token: u64,
    /// The RM client: freeing it gives all its charges back.
    pub root: u32,
    /// The parent object.
    pub parent: u32,
    pub handle: u32,
    pub bytes: u64,
}

/// Client and handle as one key. Neither half identifies an object alone.
pub open spec fn key(root: u32, handle: u32) -> u64 {
    (0x1_0000_0000 * root + handle) as u64
}

/// Client and handle as one key.
pub fn key_of(root: u32, handle: u32) -> (k: u64)
    ensures
        k == key(root, handle),
{
    0x1_0000_0000 * root as u64 + handle as u64
}

/// Two clients may use one handle: their charges have different keys.
pub proof fn law_keys_tell_clients_apart(r1: u32, h1: u32, r2: u32, h2: u32)
    requires
        key(r1, h1) == key(r2, h2),
    ensures
        r1 == r2,
        h1 == h2,
{
}

/// All charges together.
pub open spec fn total(open: Map<u64, Charge>) -> nat
    decreases open.dom().len(),
{
    if open.dom().finite() && open.dom().len() > 0 {
        let k = open.dom().choose();
        open[k].bytes as nat + total(open.remove(k))
    } else {
        0
    }
}

/// The sum of the charges does not depend on the order in which they are added.
pub proof fn lemma_total(open: Map<u64, Charge>, k: u64)
    requires
        open.dom().finite(),
        open.contains_key(k),
    ensures
        total(open) == open[k].bytes as nat + total(open.remove(k)),
    decreases open.dom().len(),
{
    let c = open.dom().choose();
    assert(open.dom().len() > 0) by {
        if open.dom().len() == 0 {
            assert(open.dom() =~= Set::empty());
        }
    }
    if c != k {
        lemma_total(open.remove(c), k);
        lemma_total(open.remove(k), c);
        assert(open.remove(c).remove(k) =~= open.remove(k).remove(c));
    }
}

/// The sum after a charge was filed under a key.
pub proof fn lemma_total_insert(open: Map<u64, Charge>, k: u64, c: Charge)
    requires
        open.dom().finite(),
    ensures
        total(open.insert(k, c)) == total(open) + c.bytes - (if open.contains_key(k) {
            open[k].bytes as int
        } else {
            0
        }),
{
    let m = open.insert(k, c);
    lemma_total(m, k);
    assert(m.remove(k) =~= open.remove(k));
    if open.contains_key(k) {
        lemma_total(open, k);
    } else {
        assert(open.remove(k) =~= open);
    }
}

/// The charges that are not among those that a rule takes.
pub open spec fn surviving(open: Map<u64, Charge>, dies: spec_fn(Charge) -> bool) -> Map<u64, Charge> {
    Map::new(|k: u64| open.contains_key(k) && !dies(open[k]), |k: u64| open[k])
}

/// A charge that goes when this object of this client is freed: the object itself, its
/// children, and everything where the object is the client.
pub open spec fn freed_with(root: u32, handle: u32) -> spec_fn(Charge) -> bool {
    |c: Charge| c.root == root && (c.handle == handle || c.parent == handle || handle == root)
}

/// A charge that goes when this descriptor is closed.
pub open spec fn closed_with(token: u64) -> spec_fn(Charge) -> bool {
    |c: Charge| c.token == token
}

/// A kind of request as one number.
pub open spec fn kind_key(kind: (Door, u32, u32)) -> u64 {
    (16 * kind.1 + 4 * (match kind.0 {
        Door::Nvos64 => 0int,
        Door::Nvos21 => 1,
        Door::Nvos32 => 2,
    }) + kind.2) as u64
}

fn key_of_kind(kind: (Door, u32, u32)) -> (k: u64)
    requires
        kind.2 < 4,
    ensures
        k == kind_key(kind),
{
    let door: u64 = match kind.0 {
        Door::Nvos64 => 0,
        Door::Nvos21 => 1,
        Door::Nvos32 => 2,
    };
    16 * kind.1 as u64 + 4 * door + kind.2 as u64
}

/// Different kinds of requests are counted apart.
pub proof fn law_kinds_are_counted_apart(a: Ask, b: Ask)
    requires
        kind_key(a.kind_spec()) == kind_key(b.kind_spec()),
    ensures
        a.kind_spec() == b.kind_spec(),
{
    assert(location(a.attr) < 4);
    assert(location(b.attr) < 4);
}

/// The state of one session's books.
pub struct BooksView {
    pub sub_id: u32,
    pub open: Map<u64, Charge>,
    pub owed: u64,
    /// How often each kind of request was refused.
    pub refusals: Map<u64, u64>,
}

impl BooksView {
    /// What is owed is the sum of the open charges.
    pub open spec fn balanced(self) -> bool {
        self.open.dom().finite() && self.owed == total(self.open)
    }

    /// How often this kind of request was refused.
    pub open spec fn refused(self, ask: Ask) -> u64 {
        if self.refusals.contains_key(kind_key(ask.kind_spec())) {
            self.refusals[kind_key(ask.kind_spec())]
        } else {
            0
        }
    }

    /// The number of the next refusal of this kind.
    pub open spec fn next_refusal(self, ask: Ask) -> u64 {
        let was = self.refused(ask);
        if was < u64::MAX {
            (was + 1) as u64
        } else {
            was
        }
    }

    /// The books after one more refusal of this kind.
    pub open spec fn counted(self, ask: Ask) -> BooksView {
        BooksView {
            refusals: self.refusals.insert(kind_key(ask.kind_spec()), self.next_refusal(ask)),
            ..self
        }
    }

    /// Where the process of this session is on the list, its row says what the session owes.
    pub open spec fn shown(self, led: LedgerView) -> bool {
        led.roster.contains_key(self.sub_id as u64) ==> led.roster[self.sub_id as u64].bytes
            == self.owed
    }

    /// The books after a charge was kept, with an earlier one under its key replaced.
    pub open spec fn kept(self, c: Charge) -> BooksView {
        let k = key(c.root, c.handle);
        let was = if self.open.contains_key(k) {
            self.open[k].bytes
        } else {
            0
        };
        let base = if was <= self.owed {
            self.owed - was
        } else {
            0
        };
        BooksView {
            open: self.open.insert(k, c),
            owed: if base + c.bytes <= u64::MAX {
                (base + c.bytes) as u64
            } else {
                u64::MAX
            },
            ..self
        }
    }

    /// The books after the charges that a rule takes are gone.
    pub open spec fn cut(self, dies: spec_fn(Charge) -> bool) -> BooksView {
        let rest = surviving(self.open, dies);
        BooksView { open: rest, owed: total(rest) as u64, ..self }
    }
}

/// The ledger after a session gave some bytes back and says what it owes now.
pub open spec fn after_return(led: LedgerView, sub_id: u32, freed: u64, owed: u64) -> LedgerView {
    if freed == 0 {
        led
    } else {
        led.released(freed).with_bytes(sub_id, owed)
    }
}

/// Of the list of processes only the row of this session changed, and it says what the session
/// owes where it did before.
pub open spec fn rows_kept(
    books: BooksView,
    led: LedgerView,
    books_after: BooksView,
    led_after: LedgerView,
) -> bool {
    &&& books_after.sub_id == books.sub_id
    &&& led_after.roster.remove(books.sub_id as u64) == led.roster.remove(books.sub_id as u64)
    &&& books.shown(led) ==> books_after.shown(led_after)
}

/// The books and the ledger after a reservation ended: kept where the driver succeeded and
/// placed it in framebuffer, given back otherwise.
pub open spec fn settled(
    books: BooksView,
    led: LedgerView,
    ok: bool,
    attr_out: u32,
    c: Charge,
) -> (BooksView, LedgerView) {
    let k = key(c.root, c.handle);
    if !ok || !in_vidmem(attr_out) {
        (books, led.released(c.bytes))
    } else {
        (
            books.kept(c),
            (if books.open.contains_key(k) {
                led.released(books.open[k].bytes)
            } else {
                led
            }).with_bytes(books.sub_id, books.kept(c).owed),
        )
    }
}

/// The books and the ledger after the charges that a rule takes were given back.
pub open spec fn given_back(
    books: BooksView,
    led: LedgerView,
    dies: spec_fn(Charge) -> bool,
) -> (BooksView, LedgerView) {
    let rest = books.cut(dies);
    (rest, after_return(led, books.sub_id, (books.owed - rest.owed) as u64, rest.owed))
}

/// One session's charges against the ledger of its VM.
pub struct Books {
    sub_id: u32,
    open: Table<Charge>,
    owed: u64,
    refusals: Table<u64>,
}

impl View for Books {
    type V = BooksView;

    closed spec fn view(&self) -> BooksView {
        BooksView {
            sub_id: self.sub_id,
            open: self.open@,
            owed: self.owed,
            refusals: self.refusals@,
        }
    }
}

impl Books {
    /// Empty books.
    pub fn new(sub_id: u32) -> (b: Books)
        ensures
            b@ == (BooksView {
                sub_id,
                open: Map::empty(),
                owed: 0,
                refusals: Map::empty(),
            }),
            b@.balanced(),
    {
        let b = Books { sub_id, open: Table::new(), owed: 0, refusals: Table::new() };
        assert(b@.open.dom() =~= Set::empty());
        b
    }

    /// Puts the guest process on the list, with what its session owes.
    pub fn announce(&self, led: &mut Ledger, guest_pid: u32, name: &str)
        ensures
            final(led)@ == old(led)@.registered(self@.sub_id, guest_pid, name@).with_bytes(
                self@.sub_id,
                self@.owed,
            ),
            self@.shown(final(led)@),
            rows_kept(self@, old(led)@, self@, final(led)@),
    {
        led.register(self.sub_id, guest_pid, name);
        led.set_bytes(self.sub_id, self.owed);
        assert(led@.roster.remove(self.sub_id as u64) =~= old(led)@.roster.remove(
            self.sub_id as u64,
        ));
    }

    /// Who holds what in this VM.
    pub fn census(&self, led: &Ledger) -> (c: Census)
        ensures
            c.used == led@.used,
            c.limit == led@.limit(),
            is_ranking(led@.roster, c.rows@),
            c.empty == idle(led@.roster).len(),
            c.unnamed == (if holding(led@.roster) <= led@.used {
                led@.used - holding(led@.roster)
            } else {
                0
            }),
    {
        led.census()
    }

    /// The VM's process list.
    pub fn roster(&self, led: &Ledger) -> (rows: Vec<ProcRow>)
        ensures
            is_listing(led@.roster, rows@.map_values(|r: ProcRow| r@)),
    {
        led.roster()
    }

    /// Counts a refusal. The first eight of a kind are worth a line, then every hundredth.
    pub fn count_refusal(&mut self, ask: &Ask) -> (r: Option<u64>)
        ensures
            final(self)@ == old(self)@.counted(*ask),
            ({
                let n = old(self)@.next_refusal(*ask);
                r == (if n <= 8 || n % 100 == 0 {
                    Some(n)
                } else {
                    None
                })
            }),
    {
        let k: u64 = key_of_kind(ask.kind());
        let was: u64 = match self.refusals.get(k) {
            Some(n) => *n,
            None => 0,
        };
        let n: u64 = was.saturating_add(1);
        self.refusals.insert(k, n);
        if n <= 8 || n % 100 == 0 {
            Some(n)
        } else {
            None
        }
    }

    /// The line for a request that the ledger had reserved for, in words.
    pub open spec fn placement_line(ask: Ask, ok: bool, status: u32, attr_out: u32) -> (Seq<char>, Seq<char>) {
        (
            "first of its kind: "@ + ask.words(),
            if ok {
                "RM placed it in "@ + location_word(attr_out)@ + " (attr out 0x"@ + padded8(attr_out)
                    + "), "@ + (if in_vidmem(attr_out) {
                    "charged"@
                } else {
                    "charge given back"@
                })
            } else {
                "RM refused it with status 0x"@ + hexadecimal(status as nat)
                    + ", charge given back"@
            },
        )
    }

    /// Where the driver put a request, as the two halves of a log line: the request and
    /// the verdict. Once per VM for each kind of request and each ending.
    pub fn placement(&self, led: &mut Ledger, ask: &Ask, ok: bool, status: u32, attr_out: u32) -> (r:
        Option<(String, String)>)
        ensures
            ({
                let (door, class, requested_location) = ask.kind_spec();
                let outcome = if ok {
                    Outcome::Placed(location(attr_out))
                } else {
                    Outcome::Failed(status)
                };
                let p = Placement { door, class, requested_location, outcome };
                &&& final(led)@ == old(led)@.saw(p)
                &&& r is Some <==> !old(led)@.seen.contains(p)
                &&& r matches Some((a, b)) ==> (a@, b@) == Books::placement_line(
                    *ask,
                    ok,
                    status,
                    attr_out,
                )
            }),
    {
        let outcome: Outcome = if ok {
            Outcome::Placed(location_of(attr_out))
        } else {
            Outcome::Failed(status)
        };
        if !led.first_placement(ask, outcome) {
            return None;
        }
        let mut a: String = String::new();
        a.append("first of its kind: ");
        a.append(ask.describe().as_str());
        let mut b: String = String::new();
        if ok {
            b.append("RM placed it in ");
            b.append(location_name(attr_out));
            b.append(" (attr out 0x");
            push_padded8(&mut b, attr_out);
            b.append("), ");
            if is_vidmem(attr_out) {
                b.append("charged");
            } else {
                b.append("charge given back");
            }
        } else {
            b.append("RM refused it with status 0x");
            b.append(hex(status as u64).as_str());
            b.append(", charge given back");
        }
        assert(a@ =~= Books::placement_line(*ask, ok, status, attr_out).0);
        assert(b@ =~= Books::placement_line(*ask, ok, status, attr_out).1);
        Some((a, b))
    }

    /// Whether there is a cap.
    pub fn enabled(&self, led: &Ledger) -> (r: bool)
        ensures
            r == (led@.limit() != 0),
    {
        led.enabled()
    }

    /// The bytes in use in this VM.
    pub fn used(&self, led: &Ledger) -> (r: u64)
        ensures
            r == led@.used,
    {
        led.used()
    }

    /// The cap of this VM.
    pub fn limit(&self, led: &Ledger) -> (r: u64)
        ensures
            r == led@.limit(),
    {
        led.limit()
    }

    /// The profile of this VM.
    pub fn profile(&self, led: &Ledger) -> (r: Profile)
        ensures
            r == led@.profile,
    {
        led.profile()
    }

    /// The variable that set the policy of this VM.
    pub fn knob(&self, led: &Ledger) -> (s: &'static str)
        ensures
            s == led@.profile.policy.variable(),
    {
        led.profile().policy.knob()
    }

    /// The bytes that this session owes.
    pub fn owed(&self) -> (r: u64)
        ensures
            r == self@.owed,
    {
        self.owed
    }

    /// The open charge of an object.
    pub fn charge_of(&self, root: u32, handle: u32) -> (r: Option<Charge>)
        ensures
            r == (if self@.open.contains_key(key(root, handle)) {
                Some(self@.open[key(root, handle)])
            } else {
                None
            }),
    {
        match self.open.get(key_of(root, handle)) {
            Some(c) => Some(*c),
            None => None,
        }
    }

    /// Reserves bytes before the driver is asked. Where this is refused, so is the request.
    pub fn reserve(&mut self, led: &mut Ledger, bytes: u64) -> (r: bool)
        ensures
            final(self)@ == old(self)@,
            r == old(led)@.admits(bytes),
            final(led)@ == (if r {
                old(led)@.charged(bytes)
            } else {
                old(led)@
            }),
            rows_kept(old(self)@, old(led)@, final(self)@, final(led)@),
            old(led)@.capped() ==> final(led)@.capped(),
    {
        led.charge(bytes)
    }

    /// Keeps a reservation where the driver succeeded and placed it in framebuffer, and
    /// gives it back otherwise. A handle that comes back as new replaces its old charge.
    pub fn settle(&mut self, led: &mut Ledger, ok: bool, attr_out: u32, c: Charge)
        ensures
            (final(self)@, final(led)@) == settled(old(self)@, old(led)@, ok, attr_out, c),
            rows_kept(old(self)@, old(led)@, final(self)@, final(led)@),
            old(self)@.balanced() && total(final(self)@.open) <= u64::MAX
                ==> final(self)@.balanced(),
            old(led)@.capped() ==> final(led)@.capped(),
    {
        if !ok || !is_vidmem(attr_out) {
            led.release(c.bytes);
            return;
        }
        let k: u64 = key_of(c.root, c.handle);
        // What is there fits a usize, and so does every place in it.
        let _count: usize = self.open.len();
        if let Some(was) = self.open.insert(k, c) {
            led.release(was.bytes);
            self.owed = self.owed.saturating_sub(was.bytes);
        }
        self.owed = self.owed.saturating_add(c.bytes);
        led.set_bytes(self.sub_id, self.owed);
        proof {
            assert(led@.roster.remove(self.sub_id as u64) =~= old(led)@.roster.remove(
                self.sub_id as u64,
            ));
            lemma_total_insert(old(self)@.open, k, c);
            if old(self)@.open.contains_key(k) {
                lemma_total(old(self)@.open, k);
            }
        }
    }

    /// An object was freed: its charge, its children's, and all of its client's where it
    /// is the client.
    pub fn free_object(&mut self, led: &mut Ledger, root: u32, handle: u32)
        requires
            old(self)@.balanced(),
        ensures
            (final(self)@, final(led)@) == given_back(
                old(self)@,
                old(led)@,
                freed_with(root, handle),
            ),
            final(self)@.balanced(),
            final(self)@.owed <= old(self)@.owed,
            rows_kept(old(self)@, old(led)@, final(self)@, final(led)@),
            old(led)@.capped() ==> final(led)@.capped(),
    {
        let keys: Vec<u64> = self.open.keys();
        let ghost dies = freed_with(root, handle);
        let ghost all = self.open@;
        let mut freed: u64 = 0;
        let mut i: usize = 0;
        while i < keys.len()
            invariant
                i <= keys@.len(),
                self.sub_id == old(self).sub_id,
                self.owed == old(self).owed,
                self.refusals == old(self).refusals,
                all == old(self)@.open,
                all.dom().finite(),
                old(self)@.owed == total(all),
                dies == freed_with(root, handle),
                crate::table::rising(keys@),
                forall|k: u64| all.contains_key(k) <==> #[trigger] keys@.contains(k),
                self.open@.dom().finite(),
                freed + total(self.open@) == total(all),
                forall|k: u64| #[trigger]
                    self.open@.contains_key(k) <==> all.contains_key(k) && !(dies(all[k])
                        && keys@.take(i as int).contains(k)),
                forall|k: u64| #[trigger] self.open@.contains_key(k) ==> self.open@[k] == all[k],
            decreases keys@.len() - i,
        {
            let k: u64 = keys[i];
            proof {
                assert(keys@.contains(k));
                lemma_take_contains(keys@, i as int);
            }
            if let Some(c) = self.open.get(k) {
                let c: Charge = *c;
                if c.root == root && (c.handle == handle || c.parent == handle || handle == root) {
                    proof {
                        lemma_total(self.open@, k);
                    }
                    freed = freed + c.bytes;
                    self.open.remove(k);
                }
            }
            i = i + 1;
        }
        proof {
            assert(keys@.take(i as int) =~= keys@);
            assert(self.open@ =~= surviving(all, dies));
        }
        self.give_back(led, freed);
    }

    /// A descriptor was closed: every charge that rode on it is gone.
    pub fn close_token(&mut self, led: &mut Ledger, token: u64)
        requires
            old(self)@.balanced(),
        ensures
            (final(self)@, final(led)@) == given_back(old(self)@, old(led)@, closed_with(token)),
            final(self)@.balanced(),
            final(self)@.owed <= old(self)@.owed,
            rows_kept(old(self)@, old(led)@, final(self)@, final(led)@),
            old(led)@.capped() ==> final(led)@.capped(),
    {
        let keys: Vec<u64> = self.open.keys();
        let ghost dies = closed_with(token);
        let ghost all = self.open@;
        let mut freed: u64 = 0;
        let mut i: usize = 0;
        while i < keys.len()
            invariant
                i <= keys@.len(),
                self.sub_id == old(self).sub_id,
                self.owed == old(self).owed,
                self.refusals == old(self).refusals,
                all == old(self)@.open,
                all.dom().finite(),
                old(self)@.owed == total(all),
                dies == closed_with(token),
                crate::table::rising(keys@),
                forall|k: u64| all.contains_key(k) <==> #[trigger] keys@.contains(k),
                self.open@.dom().finite(),
                freed + total(self.open@) == total(all),
                forall|k: u64| #[trigger]
                    self.open@.contains_key(k) <==> all.contains_key(k) && !(dies(all[k])
                        && keys@.take(i as int).contains(k)),
                forall|k: u64| #[trigger] self.open@.contains_key(k) ==> self.open@[k] == all[k],
            decreases keys@.len() - i,
        {
            let k: u64 = keys[i];
            proof {
                assert(keys@.contains(k));
                lemma_take_contains(keys@, i as int);
            }
            if let Some(c) = self.open.get(k) {
                let c: Charge = *c;
                if c.token == token {
                    proof {
                        lemma_total(self.open@, k);
                    }
                    freed = freed + c.bytes;
                    self.open.remove(k);
                }
            }
            i = i + 1;
        }
        proof {
            assert(keys@.take(i as int) =~= keys@);
            assert(self.open@ =~= surviving(all, dies));
        }
        self.give_back(led, freed);
    }

    fn give_back(&mut self, led: &mut Ledger, bytes: u64)
        requires
            bytes <= old(self)@.owed,
        ensures
            final(self)@ == (BooksView {
                owed: (old(self)@.owed - bytes) as u64,
                ..old(self)@
            }),
            final(led)@ == after_return(
                old(led)@,
                old(self)@.sub_id,
                bytes,
                final(self)@.owed,
            ),
            rows_kept(old(self)@, old(led)@, final(self)@, final(led)@),
            old(led)@.capped() ==> final(led)@.capped(),
    {
        if bytes == 0 {
            return;
        }
        led.release(bytes);
        self.owed = self.owed.saturating_sub(bytes);
        led.set_bytes(self.sub_id, self.owed);
        assert(led@.roster.remove(self.sub_id as u64) =~= old(led)@.roster.remove(
            self.sub_id as u64,
        ));
    }

    /// The session ended: its debt is paid and its process leaves the list.
    pub fn close(self, led: &mut Ledger)
        ensures
            final(led)@ == old(led)@.released(self@.owed).without(self@.sub_id),
            old(led)@.capped() ==> final(led)@.capped(),
    {
        if self.owed != 0 {
            led.release(self.owed);
        }
        led.forget(self.sub_id);
    }
}

/// A reservation that is given back leaves the ledger as it was.
pub proof fn law_a_refused_allocation_costs_nothing(led: LedgerView, bytes: u64)
    requires
        led.admits(bytes),
    ensures
        led.charged(bytes).released(bytes) == led,
{
}

/// Freeing an object of one client leaves every charge of every other client.
pub proof fn law_other_clients_keep_their_charges(
    books: BooksView,
    root: u32,
    handle: u32,
    k: u64,
)
    requires
        books.open.contains_key(k),
        books.open[k].root != root,
    ensures
        books.cut(freed_with(root, handle)).open.contains_key(k),
        books.cut(freed_with(root, handle)).open[k] == books.open[k],
{
}

/// Closing a descriptor takes the charges that rode on it, and no others.
pub proof fn law_closing_takes_exactly_its_charges(books: BooksView, token: u64, k: u64)
    requires
        books.open.contains_key(k),
    ensures
        books.cut(closed_with(token)).open.contains_key(k) <==> books.open[k].token != token,
{
}

/// Freeing a client gives back everything that it was charged.
pub proof fn law_a_freed_client_owes_nothing(books: BooksView, root: u32, k: u64)
    requires
        books.cut(freed_with(root, root)).open.contains_key(k),
    ensures
        books.open[k].root != root,
{
}

/// A request that was charged and freed again leaves the books and the ledger as
/// they were, where its handle was not charged before.
pub proof fn law_a_freed_charge_is_given_back(books: BooksView, led: LedgerView, c: Charge)
    requires
        books.balanced(),
        led.admits(c.bytes),
        books.owed + c.bytes <= u64::MAX,
        !books.open.contains_key(key(c.root, c.handle)),
        forall|k: u64| #[trigger]
            books.open.contains_key(k) ==> !freed_with(c.root, c.handle)(books.open[k]),
    ensures
        books.kept(c).cut(freed_with(c.root, c.handle)) == books,
        led.charged(c.bytes).released(c.bytes) == led,
{
    let k = key(c.root, c.handle);
    let after = surviving(books.kept(c).open, freed_with(c.root, c.handle));
    assert(after =~= books.open);
}

/// What an allocation is charged: the whole size that it asks for, where it asks for real
/// memory in the framebuffer, and nothing where it does not.
pub proof fn law_an_allocation_is_charged_its_size(aux: Seq<u8>, bytes: u64)
    requires
        aux.len() >= 128,
    ensures
        alloc_bytes(0x40, aux) == Some(bytes) <==> {
            &&& le32(aux, 8) / 0x8_0000 % 2 == 0
            &&& le32(aux, 24) / 0x200_0000 % 4 == 0
            &&& le64(aux, 64) == bytes && bytes > 0
        },
{
    lemma_virtual_flag(le32(aux, 8));
}

/// The same of an allocation on the heap.
pub proof fn law_a_heap_call_is_charged_its_size(abi: &Abi, buf: Seq<u8>, bytes: u64)
    ensures
        heap_bytes(abi, buf) == Some(bytes) <==> {
            &&& buf.len() >= 184 && le32(buf, 8) == abi.heap.alloc_size
            &&& le32(buf, 52) / 0x8_0000 % 2 == 0
            &&& le32(buf, 56) / 0x200_0000 % 4 == 0
            &&& le64(buf, 88) == bytes && bytes > 0
        },
{
    lemma_virtual_flag(le32(buf, 52));
}

proof fn lemma_virtual_flag(flags: u32)
    ensures
        flags & ALLOC_FLAGS_VIRTUAL == 0 <==> flags / 0x8_0000 % 2 == 0,
{
    assert(flags & 0x0008_0000u32 == 0 <==> flags / 0x8_0000u32 % 2 == 0) by (bit_vector);
}

/// An ask tells of a request what the request says, at the places where it says it.
pub proof fn law_an_ask_says_what_the_request_says(
    abi: &Abi,
    door: Door,
    hclass: u32,
    aux: Seq<u8>,
    buf: Seq<u8>,
)
    ensures
        match Ask::in_alloc(door, hclass, aux) {
            Some(a) => {
                &&& a.door == door && a.hclass == hclass
                &&& a.flags == le32(aux, 8) && a.attr == le32(aux, 24) && a.size == le64(aux, 64)
                &&& aux.len() >= 128
                &&& hclass == 0x3e || hclass == 0x40 || hclass == 0x50a0
            },
            None => aux.len() < 128 || (hclass != 0x3e && hclass != 0x40 && hclass != 0x50a0),
        },
        match Ask::in_heap(abi, buf) {
            Some(a) => {
                &&& a.door == Door::Nvos32 && a.hclass == 0
                &&& a.flags == le32(buf, 52) && a.attr == le32(buf, 56) && a.size == le64(buf, 88)
                &&& buf.len() >= 184 && le32(buf, 8) == abi.heap.alloc_size
            },
            None => buf.len() < 184 || le32(buf, 8) != abi.heap.alloc_size,
        },
{
}

/// The place of an allocation is in two bits of its attributes, and each place has its word.
pub proof fn law_the_place_is_in_two_bits(attr: u32)
    ensures
        location(attr) == (attr >> 25u32) & 3u32,
        in_vidmem(attr) <==> (attr >> 25u32) & 3u32 == 0,
        location_word(attr) == (if (attr >> 25u32) & 3u32 == 0 {
            "VIDMEM"
        } else if (attr >> 25u32) & 3u32 == 1 {
            "PCI"
        } else if (attr >> 25u32) & 3u32 == 3 {
            "ANY"
        } else {
            "LOCATION_2"
        }),
{
    assert(attr / 0x200_0000u32 % 4 == (attr >> 25u32) & 3u32) by (bit_vector);
}

/// A word in eight digits is that word, with zeros in front.
#[verifier::rlimit(50)]
pub proof fn law_eight_digits_are_the_word(v: u32)
    ensures
        padded8(v).len() == 8,
        crate::text::all_hex(padded8(v)),
        crate::text::hex_number(padded8(v)) == v,
        forall|i: int| 0 <= i < 8 ==> !('A' <= #[trigger] padded8(v)[i] <= 'F'),
{
    let s = padded8(v);
    let b = crate::bytes::bytes32(v);
    assert(v == b[0] + 0x100 * b[1] + 0x1_0000 * b[2] + 0x100_0000 * b[3]) by {
        let t = Seq::new(4, |i: int| 0u8);
        crate::bytes::law_word32_reads_back(t, 0, v);
        assert(crate::bytes::overlay(t, 0, b) =~= b);
    }
    assert forall|i: int| 0 <= i < 8 implies #[trigger] crate::text::hex_value(s[i]) == Some(
        (if i % 2 == 0 {
            b[3 - i / 2] as int / 16
        } else {
            b[3 - i / 2] as int % 16
        }) as nat,
    ) && !('A' <= s[i] <= 'F') by {}
    assert forall|i: int| 0 <= i < s.len() implies crate::text::hex_value(
        #[trigger] s[i],
    ) is Some by {
        assert(crate::text::hex_value(s[i]) is Some);
    }
    assert forall|i: int| 0 <= i < 8 implies !('A' <= #[trigger] s[i] <= 'F') by {
        assert(crate::text::hex_value(s[i]) is Some);
    }
    lemma_hex_steps(s, 0);
    lemma_hex_steps(s, 1);
    lemma_hex_steps(s, 2);
    lemma_hex_steps(s, 3);
    lemma_hex_steps(s, 4);
    lemma_hex_steps(s, 5);
    lemma_hex_steps(s, 6);
    lemma_hex_steps(s, 7);
    assert(s.take(0) =~= Seq::empty());
    assert(s.take(8) =~= s);
    assert(crate::text::hex_number(s.take(0)) == 0);
    assert(crate::text::hex_value(s[0]) == Some((b[3] as int / 16) as nat));
    assert(crate::text::hex_value(s[1]) == Some((b[3] as int % 16) as nat));
    assert(crate::text::hex_value(s[2]) == Some((b[2] as int / 16) as nat));
    assert(crate::text::hex_value(s[3]) == Some((b[2] as int % 16) as nat));
    assert(crate::text::hex_value(s[4]) == Some((b[1] as int / 16) as nat));
    assert(crate::text::hex_value(s[5]) == Some((b[1] as int % 16) as nat));
    assert(crate::text::hex_value(s[6]) == Some((b[0] as int / 16) as nat));
    assert(crate::text::hex_value(s[7]) == Some((b[0] as int % 16) as nat));
}

proof fn lemma_hex_steps(s: Seq<char>, n: int)
    requires
        0 <= n < s.len(),
        crate::text::hex_value(s[n]) is Some,
    ensures
        crate::text::hex_number(s.take(n + 1)) == 16 * crate::text::hex_number(s.take(n))
            + crate::text::hex_value(s[n])->Some_0,
{
    assert(s.take(n + 1).drop_last() =~= s.take(n));
    assert(s.take(n + 1).last() == s[n]);
}

/// A charge is admitted where the counter holds the sum and the framebuffer, if it is capped,
/// has the room. It adds what it asks for and changes nothing else.
pub proof fn law_a_charge_adds_what_it_asks_for(led: LedgerView, bytes: u64)
    ensures
        led.admits(bytes) <==> led.used + bytes <= u64::MAX && (led.profile.fb_length == 0
            || led.used + bytes <= led.profile.fb_length),
        led.admits(bytes) ==> led.charged(bytes).used == led.used + bytes,
        led.charged(bytes).profile == led.profile,
        led.charged(bytes).roster == led.roster,
        led.charged(bytes).seen == led.seen,
{
}

/// What is released goes from what is used, down to nothing, and changes nothing else.
pub proof fn law_a_release_takes_what_was_charged(led: LedgerView, bytes: u64)
    ensures
        bytes <= led.used ==> led.released(bytes).used == led.used - bytes,
        bytes > led.used ==> led.released(bytes).used == 0,
        led.released(bytes).profile == led.profile,
        led.released(bytes).roster == led.roster,
        led.released(bytes).seen == led.seen,
{
}

/// A process is told of by its own row: registering gives it a name and keeps what it holds,
/// a new figure keeps the name, and forgetting takes the row. Other rows stay.
pub proof fn law_a_row_belongs_to_its_process(
    led: LedgerView,
    sub_id: u32,
    pid: u32,
    name: Seq<char>,
    bytes: u64,
    k: u64,
)
    ensures
        ({
            let new = led.registered(sub_id, pid, name);
            let own = sub_id as u64;
            &&& new.roster.contains_key(own)
            &&& new.roster[own].guest_pid == pid && new.roster[own].name == name
            &&& new.roster[own].bytes == (if led.roster.contains_key(own) {
                led.roster[own].bytes
            } else {
                0
            })
            &&& k != own ==> new.roster.contains_key(k) == led.roster.contains_key(k)
                && new.roster[k] == led.roster[k]
            &&& new.used == led.used && new.profile == led.profile && new.seen == led.seen
        }),
        ({
            let new = led.with_bytes(sub_id, bytes);
            let own = sub_id as u64;
            &&& new.roster.contains_key(k) == led.roster.contains_key(k)
            &&& led.roster.contains_key(own) ==> new.roster[own].bytes == bytes
                && new.roster[own].guest_pid == led.roster[own].guest_pid && new.roster[own].name
                == led.roster[own].name
            &&& k != own ==> new.roster[k] == led.roster[k]
            &&& new.used == led.used && new.profile == led.profile && new.seen == led.seen
        }),
        ({
            let new = led.without(sub_id);
            let own = sub_id as u64;
            &&& !new.roster.contains_key(own)
            &&& k != own ==> new.roster.contains_key(k) == led.roster.contains_key(k) && (
            led.roster.contains_key(k) ==> new.roster[k] == led.roster[k])
            &&& new.used == led.used && new.profile == led.profile && new.seen == led.seen
        }),
{
}

/// What the processes hold together is the sum of what each one holds.
pub proof fn law_the_holdings_add_up(roster: Map<u64, RowView>, k: u64)
    requires
        roster.dom().finite(),
    ensures
        holding(Map::empty()) == 0,
        roster.contains_key(k) ==> holding(roster) == roster[k].bytes + holding(roster.remove(k)),
{
    assert(Map::<u64, RowView>::empty().dom().len() == 0);
    if roster.contains_key(k) {
        lemma_holding(roster, k);
    }
}

/// How a request that rode under a charge ends: one that the driver refused, or placed
/// elsewhere, gives back its charge and leaves the books alone. One that it placed in the
/// framebuffer is written down, in place of what the same handle held before, which goes back.
#[verifier::rlimit(50)]
pub proof fn law_a_settled_charge_is_written_down_once(
    books: BooksView,
    led: LedgerView,
    ok: bool,
    attr_out: u32,
    c: Charge,
)
    requires
        books.owed + c.bytes <= u64::MAX,
        c.bytes <= led.used,
        forall|k: u64| #[trigger]
            books.open.contains_key(k) ==> books.open[k].bytes <= books.owed
                && books.open[k].bytes <= led.used,
    ensures
        ({
            let (b, l) = settled(books, led, ok, attr_out, c);
            let k = (0x1_0000_0000 * c.root + c.handle) as u64;
            let was = if books.open.contains_key(k) {
                books.open[k].bytes as int
            } else {
                0
            };
            &&& b.sub_id == books.sub_id && b.refusals == books.refusals
            &&& l.profile == led.profile && l.seen == led.seen
            &&& !ok || attr_out / 0x200_0000 % 4 != 0 ==> b == books && l.used == led.used - c.bytes
                && l.roster == led.roster
            &&& ok && attr_out / 0x200_0000 % 4 == 0 ==> {
                &&& b.open.contains_key(k) && b.open[k] == c
                &&& b.owed == books.owed - was + c.bytes
                &&& l.used == led.used - was
                &&& led.roster.contains_key(books.sub_id as u64) ==> l.roster[
                    books.sub_id as u64
                ].bytes == b.owed
            }
            &&& forall|q: u64|
                q != k ==> #[trigger] b.open.contains_key(q) == books.open.contains_key(q)
                    && b.open[q] == books.open[q]
            &&& forall|q: u64|
                q != books.sub_id ==> #[trigger] l.roster.contains_key(q)
                    == led.roster.contains_key(q) && l.roster[q] == led.roster[q]
        }),
{
}

/// Every refusal of one kind counts one more, and the other kinds keep their counts.
pub proof fn law_refusals_are_counted_one_by_one(books: BooksView, ask: Ask, other: Ask)
    ensures
        books.refused(ask) < u64::MAX ==> books.counted(ask).refused(ask) == books.refused(ask) + 1,
        books.refused(ask) == u64::MAX ==> books.counted(ask).refused(ask) == u64::MAX,
        other.kind_spec() != ask.kind_spec() ==> books.counted(ask).refused(other)
            == books.refused(other),
        other.door == ask.door && other.hclass == ask.hclass && location(other.attr) == location(
            ask.attr,
        ) ==> books.counted(ask).refused(other) == books.counted(ask).refused(ask),
        books.counted(ask).open == books.open,
        books.counted(ask).owed == books.owed,
{
    if kind_key(other.kind_spec()) == kind_key(ask.kind_spec()) {
        law_kinds_are_counted_apart(other, ask);
    }
}

/// A limit is a profile that keeps nothing back; no limit is no policy at all.
pub proof fn law_a_limit_keeps_nothing_back(bytes: u64)
    ensures
        bytes > 0 ==> {
            let p = Profile::accounting_spec(bytes);
            p.policy == Policy::Accounting && p.size == bytes && p.fb_length == bytes
                && p.reservation == 0 && p.encoder_capacity == 0
        },
        ({
            let p = Profile::accounting_spec(0);
            p.policy == Policy::Off && p.size == 0 && p.fb_length == 0 && p.reservation == 0
                && p.encoder_capacity == 0
        }),
        Profile::off_spec() == Profile::accounting_spec(0),
{
}

/// A ledger is within its cap where there is none or no more is used; a charge that is admitted
/// keeps it there, and so does any release.
pub proof fn law_a_cap_is_kept(led: LedgerView, bytes: u64)
    ensures
        led.capped() <==> led.profile.fb_length == 0 || led.used <= led.profile.fb_length,
        led.admits(bytes) ==> led.charged(bytes).capped(),
        led.capped() ==> led.released(bytes).capped(),
{
}

/// A census lists every process that holds something once, the largest first, and of two that
/// hold the same the one with the lower number.
pub proof fn law_a_census_lists_the_largest_first(
    roster: Map<u64, RowView>,
    rows: Seq<CensusRow>,
    i: int,
    j: int,
    k: u64,
)
    requires
        is_ranking(roster, rows),
    ensures
        0 <= i < j < rows.len() ==> rows[i].row.bytes > rows[j].row.bytes || rows[i].row.bytes
            == rows[j].row.bytes && rows[i].sub_id < rows[j].sub_id,
        0 <= i < rows.len() ==> roster.contains_key(rows[i].sub_id) && rows[i].row.bytes > 0
            && rows[i].row.bytes == roster[rows[i].sub_id].bytes && rows[i].row.guest_pid
            == roster[rows[i].sub_id].guest_pid,
        roster.contains_key(k) && roster[k].bytes > 0 ==> exists|q: int|
            0 <= q < rows.len() && (#[trigger] rows[q]).sub_id == k,
        idle(roster).contains(k) <==> roster.contains_key(k) && roster[k].bytes == 0,
{
    if 0 <= i < j < rows.len() {
        assert(before(rows[i], rows[j]));
    }
}

/// An ending that was seen is remembered beside the others.
pub proof fn law_an_ending_is_seen_once(led: LedgerView, p: Placement, q: Placement)
    ensures
        led.saw(p).seen.contains(q) <==> led.seen.contains(q) || q == p,
        led.saw(p).used == led.used && led.saw(p).roster == led.roster && led.saw(p).profile
            == led.profile,
{
}

/// What a session gives back leaves the ledger, and its row shows what it still owes; where it
/// gives back nothing, nothing changes.
pub proof fn law_a_return_shows_in_the_row(
    led: LedgerView,
    sub_id: u32,
    freed: u64,
    owed: u64,
    k: u64,
)
    ensures
        ({
            let l = after_return(led, sub_id, freed, owed);
            &&& freed == 0 ==> l == led
            &&& freed > 0 && freed <= led.used ==> l.used == led.used - freed
            &&& freed > 0 && led.roster.contains_key(sub_id as u64) ==> l.roster[
                sub_id as u64
            ].bytes == owed
            &&& k != sub_id ==> l.roster.contains_key(k) == led.roster.contains_key(k)
                && l.roster[k] == led.roster[k]
            &&& l.profile == led.profile && l.seen == led.seen
        }),
{
}

/// A list of processes holds every process that has a number in the guest, and no other, in the
/// order of the sessions.
pub proof fn law_a_listing_holds_every_named_process(
    roster: Map<u64, RowView>,
    rows: Seq<RowView>,
    k: u64,
    i: int,
)
    requires
        is_listing(roster, rows),
    ensures
        roster.contains_key(k) && roster[k].guest_pid != 0 ==> rows.contains(roster[k]),
        0 <= i < rows.len() ==> rows[i].guest_pid != 0 && exists|q: u64| #[trigger]
            roster.contains_key(q) && roster[q] == rows[i],
{
    let keys = choose|keys: Seq<u64>|
        {
            &&& #[trigger] crate::table::rising(keys)
            &&& keys.len() == rows.len()
            &&& forall|k: u64|
                keys.contains(k) <==> (roster.contains_key(k) && roster[k].guest_pid != 0)
            &&& forall|i: int| 0 <= i < rows.len() ==> #[trigger] rows[i] == roster[keys[i]]
        };
    if roster.contains_key(k) && roster[k].guest_pid != 0 {
        assert(keys.contains(k));
        let j = keys.index_of(k);
        assert(rows[j] == roster[keys[j]]);
    }
    if 0 <= i < rows.len() {
        assert(keys.contains(keys[i]));
        assert(rows[i] == roster[keys[i]]);
    }
}

/// What one session does to the ledger shows in its own row alone: the rows of the others stay,
/// and its own shows what it owes after it as it did before.
pub proof fn law_a_session_moves_its_own_row_alone(
    books: BooksView,
    led: LedgerView,
    books_after: BooksView,
    led_after: LedgerView,
    k: u64,
)
    requires
        rows_kept(books, led, books_after, led_after),
    ensures
        books_after.sub_id == books.sub_id,
        k != books.sub_id && led.roster.contains_key(k) ==> led_after.roster.contains_key(k)
            && led_after.roster[k] == led.roster[k],
        k != books.sub_id && led_after.roster.contains_key(k) ==> led.roster.contains_key(k),
        ({
            let own = books.sub_id as u64;
            (led.roster.contains_key(own) ==> led.roster[own].bytes == books.owed)
                && led_after.roster.contains_key(own) ==> led_after.roster[own].bytes
                == books_after.owed
        }),
{
    let own = books.sub_id as u64;
    let (a, b) = (led.roster.remove(own), led_after.roster.remove(own));
    assert(a == b);
    if k != books.sub_id {
        assert(a.contains_key(k) <==> led.roster.contains_key(k));
        assert(b.contains_key(k) <==> led_after.roster.contains_key(k));
        assert(a.contains_key(k) ==> a[k] == led.roster[k]);
        assert(b.contains_key(k) ==> b[k] == led_after.roster[k]);
    }
}

/// A policy is announced by its own numbers, in MiB: a cap by its size, and a profile by its
/// size, the framebuffer of the guest and the reservation, in this order.
pub proof fn law_an_announcement_tells_the_numbers(p: Profile)
    ensures
        p.policy == Policy::Off <==> p.line() is None,
        p.policy == Policy::Accounting ==> (p.line() matches Some(s) && ("VRAM cap "@ + decimal(
            (p.size / 0x10_0000) as nat,
        ) + " MiB for this VM"@).is_prefix_of(s)),
        p.policy == Policy::Reserved || p.policy == Policy::Grid ==> (p.line() matches Some(s) && (
        "VRAM profile "@ + decimal((p.size / 0x10_0000) as nat) + " MiB for this VM = "@ + decimal(
            (p.fb_length / 0x10_0000) as nat,
        ) + " MiB guest FB + "@ + decimal((p.reservation / 0x10_0000) as nat)).is_prefix_of(s)),
{
    if let Some(s) = p.line() {
        let cap = "VRAM cap "@ + decimal((p.size / 0x10_0000) as nat) + " MiB for this VM"@;
        let profile = "VRAM profile "@ + decimal((p.size / 0x10_0000) as nat)
            + " MiB for this VM = "@ + decimal((p.fb_length / 0x10_0000) as nat)
            + " MiB guest FB + "@ + decimal((p.reservation / 0x10_0000) as nat);
        if p.policy == Policy::Accounting {
            reveal_strlit(" MiB for this VM");
            reveal_strlit(" MiB for this VM (LEA_VRAM_LIMIT_MIB)");
            assert(cap =~= s.subrange(0, cap.len() as int));
        } else {
            assert(profile =~= s.subrange(0, profile.len() as int));
        }
    }
}

} // verus!
