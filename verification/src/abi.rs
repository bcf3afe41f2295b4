//! What the host driver's release fixes: numbers, and the layout of one request.

use vstd::prelude::*;

verus! {

/// A device node of the driver.
#[derive(Clone, Copy, Debug, PartialEq, Eq, Structural)]
pub enum Dev {
    /// `/dev/nvidiactl`.
    Ctl,
    /// `/dev/nvidiaN`.
    Gpu,
    /// `/dev/nvidia-uvm`.
    Uvm,
    /// `/dev/nvidia-uvm-tools`.
    UvmTools,
}

impl Dev {
    /// Whether requests on this node are raw UVM numbers.
    pub open spec fn uvm(self) -> bool {
        self == Dev::Uvm || self == Dev::UvmTools
    }

    /// Whether requests on this node are raw UVM numbers.
    pub fn is_uvm(self) -> (r: bool)
        ensures
            r == self.uvm(),
    {
        match self {
            Dev::Uvm | Dev::UvmTools => true,
            Dev::Ctl | Dev::Gpu => false,
        }
    }
}

/// `NV_OK`.
pub const NV_OK: u32 = 0;

/// `NV_ERR_NO_MEMORY`, the answer of a full card.
pub const NV_ERR_NO_MEMORY: u32 = 0x51;

/// `NV_ERR_OPERATING_SYSTEM`, the answer of an event queue that holds nothing.
pub const NV_ERR_OPERATING_SYSTEM: u32 = 0x59;

/// The size of `NVOS64_PARAMETERS`, the long form of an allocation.
pub const NVOS64_LEN: usize = 48;

/// `NV01_MEMORY_SYSTEM_OS_DESCRIPTOR`.
pub const CLASS_OS_DESCRIPTOR: u32 = 0x71;

/// `NV01_EVENT_OS_EVENT`.
pub const CLASS_OS_EVENT: u32 = 0x79;

/// `NV01_EVENT_KERNEL_CALLBACK`.
pub const CLASS_KERNEL_CALLBACK: u32 = 0x78;

/// `NV01_EVENT_KERNEL_CALLBACK_EX`.
pub const CLASS_KERNEL_CALLBACK_EX: u32 = 0x7e;

/// Numbers of the front-end requests (`NV_ESC_*`).
#[derive(Clone, Copy, Debug, PartialEq, Eq, Structural)]
pub struct Escapes {
    pub rm_alloc: u32,
    pub rm_alloc_object: u32,
    pub rm_alloc_memory: u32,
    pub rm_free: u32,
    pub rm_control: u32,
    pub rm_dup_object: u32,
    pub rm_share: u32,
    pub rm_map_memory: u32,
    pub rm_unmap_memory: u32,
    pub rm_vid_heap_control: u32,
    pub rm_bind_context_dma: u32,
    pub rm_map_memory_dma: u32,
    pub rm_unmap_memory_dma: u32,
    pub alloc_os_event: u32,
    pub free_os_event: u32,
    pub attach_gpus_to_fd: u32,
}

impl Escapes {
    /// The calls that are told apart have different numbers.
    pub open spec fn distinct(self) -> bool {
        let s = seq![
            self.rm_alloc,
            self.rm_alloc_memory,
            self.rm_free,
            self.rm_control,
            self.rm_vid_heap_control,
            self.alloc_os_event,
        ];
        forall|i: int, j: int| 0 <= i < j < s.len() ==> #[trigger] s[i] != #[trigger] s[j]
    }

    /// Whether the calls that are told apart have different numbers.
    pub fn are_distinct(self) -> (r: bool)
        ensures
            r == self.distinct(),
    {
        let s: [u32; 6] = [
            self.rm_alloc,
            self.rm_alloc_memory,
            self.rm_free,
            self.rm_control,
            self.rm_vid_heap_control,
            self.alloc_os_event,
        ];
        let ghost all = seq![
            self.rm_alloc,
            self.rm_alloc_memory,
            self.rm_free,
            self.rm_control,
            self.rm_vid_heap_control,
            self.alloc_os_event,
        ];
        assert(s@ =~= all);
        let mut i: usize = 0;
        while i < 6
            invariant
                i <= 6,
                s@ == all,
                all == seq![
                    self.rm_alloc,
                    self.rm_alloc_memory,
                    self.rm_free,
                    self.rm_control,
                    self.rm_vid_heap_control,
                    self.alloc_os_event,
                ],
                forall|a: int, b: int| 0 <= a < b < i ==> #[trigger] all[a] != #[trigger] all[b],
            decreases 6 - i,
        {
            let mut j: usize = 0;
            while j < i
                invariant
                    j <= i < 6,
                    s@ == all,
                    all == seq![
                        self.rm_alloc,
                        self.rm_alloc_memory,
                        self.rm_free,
                        self.rm_control,
                        self.rm_vid_heap_control,
                        self.alloc_os_event,
                    ],
                    forall|a: int| 0 <= a < j ==> #[trigger] all[a] != all[i as int],
                decreases i - j,
            {
                if s[j] == s[i] {
                    assert(all[j as int] == all[i as int]);
                    return false;
                }
                j = j + 1;
            }
            i = i + 1;
        }
        true
    }
}

/// Numbers of the functions behind `NV_ESC_RM_VID_HEAP_CONTROL` (`NVOS32_FUNCTION_*`).
#[derive(Clone, Copy, Debug, PartialEq, Eq, Structural)]
pub struct HeapFunctions {
    pub alloc_size: u32,
    pub free: u32,
    pub info: u32,
    pub hw_alloc: u32,
    pub alloc_os_descriptor: u32,
}

/// Numbers of the controls whose answers are rewritten, whose parameters are substituted or
/// which name the card by its UUID.
#[derive(Clone, Copy, Debug, PartialEq, Eq, Structural)]
pub struct Controls {
    pub gpu_get_pids: u32,
    pub gpu_get_pid_info: u32,
    pub fb_get_info: u32,
    pub fb_get_info_v2: u32,
    pub gpu_get_name_string: u32,
    pub gpu_get_virtualization_mode: u32,
    pub gpu_get_encoder_capacity: u32,
    pub semsurf_register_waiter: u32,
    pub semsurf_unregister_waiter: u32,
    /// Answers the card's UUID.
    pub gpu_get_gid_info: u32,
    /// Is asked with the card's UUID.
    pub gpu_get_uuid_info: u32,
    /// Answers the card's UUID.
    pub gpu_get_uuid_from_gpu_id: u32,
}

impl Controls {
    /// The parameters of this control carry the card's UUID.
    pub open spec fn with_uuid(self, cmd: u32) -> bool {
        cmd == self.gpu_get_gid_info || cmd == self.gpu_get_uuid_info || cmd
            == self.gpu_get_uuid_from_gpu_id
    }

    /// Whether the parameters of this control carry the card's UUID.
    pub fn carries_uuid(self, cmd: u32) -> (r: bool)
        ensures
            r == self.with_uuid(cmd),
    {
        cmd == self.gpu_get_gid_info || cmd == self.gpu_get_uuid_info || cmd
            == self.gpu_get_uuid_from_gpu_id
    }
}

/// The five size words of `FB_GET_INFO`, and the usage word of `GET_PID_INFO`.
#[derive(Clone, Copy, Debug, PartialEq, Eq, Structural)]
pub struct InfoIndices {
    pub ram_size: u32,
    pub total_ram_size: u32,
    pub heap_size: u32,
    pub heap_free: u32,
    pub usable_ram_size: u32,
    pub video_memory_usage: u32,
}

/// Where the answers that are rewritten keep their fields.
#[derive(Clone, Copy, Debug, PartialEq, Eq, Structural)]
pub struct AnswerFields {
    /// The size of the answer about the virtualization mode, which starts with the mode.
    pub virtmode_len: usize,
    /// Where it keeps `isGridBuild`.
    pub virtmode_gridbuild: usize,
    /// The size of the answer about the encoder's capacity.
    pub enccap_len: usize,
    /// Where it keeps the capacity.
    pub enccap_off: usize,
}

/// Numbers of the UVM requests that the host looks into, and the fields of them that
/// move between releases.
#[derive(Clone, Copy, Debug, PartialEq, Eq, Structural)]
pub struct UvmNumbers {
    pub register_gpu_vaspace: u32,
    pub register_channel: u32,
    pub unregister_channel: u32,
    pub map_external_allocation: u32,
    pub register_gpu: u32,
    pub free: u32,
    /// Where `UVM_UNREGISTER_CHANNEL_PARAMS` keeps `hClient`.
    pub unregister_channel_client: usize,
    /// The size of `UVM_FREE_PARAMS`.
    pub free_len: usize,
    /// Where `UVM_FREE_PARAMS` keeps `rmStatus`.
    pub free_status: usize,
    /// Where `UVM_FREE_PARAMS` keeps `base`.
    pub free_base: usize,
    /// Where `UVM_FREE_PARAMS` keeps `length`; past its end where the release has none.
    pub free_length: usize,
}

/// A field of bits: its lowest bit, and its mask once it is shifted down.
#[derive(Clone, Copy, Debug, PartialEq, Eq, Structural)]
pub struct Field {
    pub lo: u32,
    pub mask: u32,
}

impl Field {
    /// The field of a word.
    pub open spec fn of(self, w: u32) -> u32 {
        (w >> self.lo) & self.mask
    }

    /// A word that holds nothing but the field.
    pub open spec fn holding(self, v: u32) -> u32 {
        (v & self.mask) << self.lo
    }

    /// The field of a word.
    pub fn get(self, w: u32) -> (r: u32)
        requires
            self.lo < 32,
        ensures
            r == self.of(w),
    {
        (w >> self.lo) & self.mask
    }

    /// A word that holds nothing but the field.
    pub fn set(self, v: u32) -> (r: u32)
        requires
            self.lo < 32,
        ensures
            r == self.holding(v),
    {
        (v & self.mask) << self.lo
    }
}

/// How an allocation describes system pages: the parameters of the kernel's form
/// (`NV_OS_DESC_MEMORY_ALLOCATION_PARAMS`), and the flags of the form that takes a host
/// address (`NVOS02_FLAGS_*`).
#[derive(Clone, Copy, Debug, PartialEq, Eq, Structural)]
pub struct OsdescNumbers {
    /// The size of the parameters.
    pub len: usize,
    pub attr_off: usize,
    pub attr2_off: usize,
    pub limit_off: usize,
    /// `NVOS32_ATTR_COHERENCY`, and its values.
    pub coherency: Field,
    pub uncached: u32,
    pub cached: u32,
    pub write_combine: u32,
    pub write_through: u32,
    pub write_protect: u32,
    pub write_back: u32,
    /// `NVOS32_ATTR2_GPU_CACHEABLE`.
    pub gpu_cacheable: Field,
    pub gpu_cacheable_yes: u32,
    /// `NVOS02_FLAGS_PHYSICALITY` and the other fields of the flags.
    pub flags_physicality: Field,
    pub flags_noncontiguous: u32,
    pub flags_location: Field,
    pub flags_pci: u32,
    pub flags_coherency: Field,
    pub flags_write_back: u32,
    pub flags_gpu_cacheable: Field,
    pub flags_gpu_cacheable_yes: u32,
    pub flags_gpu_cacheable_no: u32,
    pub flags_mapping: Field,
    pub flags_no_map: u32,
}

impl OsdescNumbers {
    pub open spec fn wf(self) -> bool {
        &&& self.attr_off + 4 <= self.len
        &&& self.attr2_off + 4 <= self.len
        &&& self.limit_off + 8 <= self.len
        &&& self.coherency.lo < 32
        &&& self.gpu_cacheable.lo < 32
        &&& self.flags_physicality.lo < 32
        &&& self.flags_location.lo < 32
        &&& self.flags_coherency.lo < 32
        &&& self.flags_gpu_cacheable.lo < 32
        &&& self.flags_mapping.lo < 32
    }

    /// Whether the fields lie inside the parameters, and the bits inside their words.
    pub fn is_wf(self) -> (r: bool)
        ensures
            r == self.wf(),
    {
        self.len >= 8 && self.attr_off <= self.len - 4 && self.attr2_off <= self.len - 4
            && self.limit_off <= self.len - 8 && self.coherency.lo < 32 && self.gpu_cacheable.lo
            < 32 && self.flags_physicality.lo < 32 && self.flags_location.lo < 32
            && self.flags_coherency.lo < 32 && self.flags_gpu_cacheable.lo < 32
            && self.flags_mapping.lo < 32
    }
}

/// The numbers of one driver release.
#[derive(Clone, Copy, Debug, PartialEq, Eq, Structural)]
pub struct Abi {
    pub escapes: Escapes,
    pub heap: HeapFunctions,
    pub controls: Controls,
    pub info: InfoIndices,
    pub answers: AnswerFields,
    /// `NVOS54_FLAGS_FINN_SERIALIZED`.
    pub nvos54_serialized: u32,
    /// `NVOS64_FLAGS_FINN_SERIALIZED`.
    pub nvos64_serialized: u32,
    /// `NV01_ROOT_CLIENT`.
    pub class_root_client: u32,
    pub uvm: UvmNumbers,
    pub osdesc: OsdescNumbers,
}

impl Abi {
    /// The fields of a structure lie inside it, and calls have their own numbers.
    pub open spec fn wf(self) -> bool {
        &&& self.escapes.distinct()
        &&& self.controls.semsurf_register_waiter != self.controls.semsurf_unregister_waiter
        &&& 4 <= self.answers.virtmode_gridbuild < self.answers.virtmode_len
        &&& self.answers.enccap_off + 4 <= self.answers.enccap_len
        &&& self.uvm.free_status + 4 <= self.uvm.free_len
        &&& self.uvm.free_base + 8 <= self.uvm.free_len
        &&& self.osdesc.wf()
    }

    /// Whether the fields of a structure lie inside it, and calls have their own numbers.
    pub fn is_wf(&self) -> (r: bool)
        ensures
            r == self.wf(),
    {
        self.escapes.are_distinct() && self.controls.semsurf_register_waiter
            != self.controls.semsurf_unregister_waiter && self.answers.virtmode_gridbuild >= 4
            && self.answers.virtmode_gridbuild < self.answers.virtmode_len
            && self.answers.enccap_len >= 4 && self.answers.enccap_off <= self.answers.enccap_len
            - 4 && self.uvm.free_len >= 8 && self.uvm.free_status <= self.uvm.free_len - 4
            && self.uvm.free_base <= self.uvm.free_len - 8 && self.osdesc.is_wf()
    }
}

/// A pointer inside the inline block, and how many bytes the driver reads through it.
#[derive(Clone, Copy, Debug, PartialEq, Eq, Structural)]
pub struct Embedded {
    pub ptr_off: u32,
    pub len: u32,
}

/// What the tables know of the parameters behind the inline block.
#[derive(Clone, Copy, Debug, PartialEq, Eq, Structural)]
pub enum Params {
    /// The request carries no parameters.
    Absent,
    /// The driver reads them through this pointer.
    Behind(Embedded),
    /// An allocation of a class whose parameters have no known size.
    Unknown,
}

/// A pointer inside the parameters, and how many bytes the driver reads through it.
/// The length is absent where the parameters are too short to tell.
#[derive(Clone, Copy, Debug, PartialEq, Eq, Structural)]
pub struct NestedSpec {
    pub ptr_off: u32,
    pub len: Option<u32>,
}

/// What the descriptor tables say of one request.
pub struct Layout {
    /// The size of the parameter block, for a UVM request that is known.
    pub uvm_size: Option<u32>,
    /// Whether the inline size is accepted, for a front-end request that is known.
    pub frontend_accepts: Option<bool>,
    /// Where the inline block keeps a file descriptor.
    pub fd_off: Option<u32>,
    /// Whether the allocation class hands out a capability descriptor.
    pub class_blocked: bool,
    /// Whether the control is on the deny list.
    pub ctrl_blocked: bool,
    /// The parameters behind the inline block.
    pub params: Params,
    /// The parameter word, and the value of it, that makes an allocation carry a descriptor.
    pub alloc_fd_guard: Option<(u32, u32)>,
    /// Where the allocation parameters keep a file descriptor.
    pub alloc_fd: Option<u32>,
    /// Where the control parameters keep a file descriptor.
    pub ctrl_fd: Option<u32>,
    /// The pointers inside the control parameters.
    pub nested: Vec<NestedSpec>,
    /// Where the UVM parameter block keeps `rmStatus`.
    pub uvm_status: Option<usize>,
    /// Whether UVM may duplicate objects of the allocated class.
    pub uvm_dupes_class: bool,
}

/// A field that was set reads back, and a word that holds it holds nothing else.
pub proof fn law_a_field_reads_back(f: Field, v: u32)
    requires
        f.lo < 32,
        v & f.mask == v,
        f.mask == (f.mask << f.lo) >> f.lo,
    ensures
        f.of(f.holding(v)) == v,
        f.holding(v) & !(f.mask << f.lo) == 0,
{
    let (m, l) = (f.mask, f.lo);
    assert((((v & m) << l) >> l) & m == v) by (bit_vector)
        requires
            l < 32,
            v & m == v,
            m == (m << l) >> l,
    ;
    assert(((v & m) << l) & !(m << l) == 0) by (bit_vector)
        requires
            l < 32,
    ;
}

/// The two nodes of UVM are those, and no card or control node is one.
pub proof fn law_uvm_has_two_nodes(dev: Dev)
    ensures
        dev.uvm() <==> dev == Dev::Uvm || dev == Dev::UvmTools,
{
}

} // verus!
