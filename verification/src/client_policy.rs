//! Keeps forwarded requests away from the RM clients that the host owns itself.

use crate::abi::{Abi, Dev};
use crate::bytes::{le32, u32_at};
use vstd::prelude::*;

verus! {

/// Where `UVM_REGISTER_GPU_VASPACE_PARAMS` keeps `hClient`.
pub const REGISTER_GPU_VASPACE_CLIENT: usize = 20;

/// Where `UVM_REGISTER_CHANNEL_PARAMS` keeps `hClient`.
pub const REGISTER_CHANNEL_CLIENT: usize = 20;

/// Where `UVM_MAP_EXTERNAL_ALLOCATION_PARAMS` keeps `hClient`.
pub const MAP_EXTERNAL_ALLOCATION_CLIENT: usize = 9252;

/// Where `UVM_REGISTER_GPU_PARAMS` keeps `hClient`.
pub const REGISTER_GPU_CLIENT: usize = 28;

/// Where `NVOS55_PARAMETERS` keeps `hClientSrc`.
pub const DUP_OBJECT_SOURCE: usize = 12;

/// `NV01_DEVICE_0`: shares `hClientShare` and `hTargetClient`.
pub const CLASS_DEVICE: u32 = 0x80;

/// The confidential-compute class, whose parameters name `hClient`.
pub const CLASS_CONFIDENTIAL_COMPUTE: u32 = 0xcb33;

/// The debugger class, whose parameters name `hAppClient`.
pub const CLASS_DEBUGGER: u32 = 0x83de;

/// The UVM channel retainer, whose parameters start with `hClient`.
pub const CLASS_CHANNEL_RETAINER: u32 = 0xc574;

/// The profiler class, whose parameters start with `hClientTarget`.
pub const CLASS_PROFILER: u32 = 0xb2cc;

/// The inline fields that name an RM client, in the order in which they are held
/// against the host's own; nothing where the request names none.
pub open spec fn inline_fields(abi: &Abi, dev: Dev, nr: u32) -> Option<Seq<usize>> {
    let e = abi.escapes;
    if dev.uvm() {
        if nr == abi.uvm.register_gpu_vaspace {
            Some(seq![REGISTER_GPU_VASPACE_CLIENT])
        } else if nr == abi.uvm.register_channel {
            Some(seq![REGISTER_CHANNEL_CLIENT])
        } else if nr == abi.uvm.unregister_channel {
            Some(seq![abi.uvm.unregister_channel_client])
        } else if nr == abi.uvm.map_external_allocation {
            Some(seq![MAP_EXTERNAL_ALLOCATION_CLIENT])
        } else if nr == abi.uvm.register_gpu {
            Some(seq![REGISTER_GPU_CLIENT])
        } else {
            None
        }
    } else if nr == e.rm_dup_object {
        Some(seq![0usize, DUP_OBJECT_SOURCE])
    } else if nr == e.rm_alloc || nr == e.rm_alloc_object || nr == e.rm_alloc_memory || nr
        == e.rm_free || nr == e.rm_control || nr == e.rm_share || nr == e.rm_map_memory || nr
        == e.rm_unmap_memory || nr == e.rm_vid_heap_control || nr == e.rm_bind_context_dma || nr
        == e.rm_map_memory_dma || nr == e.rm_unmap_memory_dma || nr == e.alloc_os_event || nr
        == e.free_os_event {
        Some(seq![0usize])
    } else {
        None
    }
}

/// The fields of an allocation's parameters that name a further RM client.
pub open spec fn class_fields(class: u32) -> Seq<usize> {
    if class == CLASS_DEVICE {
        seq![4usize, 8usize]
    } else if class == CLASS_CONFIDENTIAL_COMPUTE {
        seq![0usize]
    } else if class == CLASS_DEBUGGER {
        seq![4usize]
    } else if class == CLASS_CHANNEL_RETAINER || class == CLASS_PROFILER {
        seq![0usize]
    } else {
        Seq::empty()
    }
}

/// Whether the word at one of the first `n` fields, where the buffer holds it, is a private client.
pub open spec fn hit(b: Seq<u8>, fields: Seq<usize>, private: Seq<u32>, n: int) -> bool {
    exists|k: int|
        0 <= k < n && #[trigger] fields[k] + 4 <= b.len() && private.contains(
            le32(b, fields[k] as int),
        )
}

/// The first of the fields that names a private client.
pub open spec fn first_hit(b: Seq<u8>, fields: Seq<usize>, private: Seq<u32>, r: u32) -> bool {
    exists|k: int|
        {
            &&& 0 <= k < fields.len()
            &&& #[trigger] fields[k] + 4 <= b.len()
            &&& le32(b, fields[k] as int) == r
            &&& private.contains(r)
            &&& !hit(b, fields, private, k)
        }
}

/// Whether the parameters of this request may name a further client.
pub open spec fn has_class(abi: &Abi, dev: Dev, nr: u32, inline: Seq<u8>) -> bool {
    !dev.uvm() && nr == abi.escapes.rm_alloc && 16 <= inline.len()
}

/// Whether a request names one of the host's own clients, in a field that is looked at.
pub open spec fn names_private(
    abi: &Abi,
    dev: Dev,
    nr: u32,
    inline: Seq<u8>,
    aux: Seq<u8>,
    private: Seq<u32>,
) -> bool {
    match inline_fields(abi, dev, nr) {
        None => false,
        Some(fields) => {
            ||| hit(inline, fields, private, fields.len() as int)
            ||| has_class(abi, dev, nr, inline) && hit(
                aux,
                class_fields(le32(inline, 12)),
                private,
                class_fields(le32(inline, 12)).len() as int,
            )
        },
    }
}

fn contains(private: &[u32], client: u32) -> (r: bool)
    ensures
        r == private@.contains(client),
{
    let mut i: usize = 0;
    while i < private.len()
        invariant
            i <= private@.len(),
            forall|k: int| 0 <= k < i ==> private@[k] != client,
        decreases private@.len() - i,
    {
        if private[i] == client {
            return true;
        }
        i = i + 1;
    }
    false
}

fn find(b: &[u8], fields: &[usize], private: &[u32]) -> (r: Option<u32>)
    ensures
        match r {
            Some(c) => first_hit(b@, fields@, private@, c),
            None => !hit(b@, fields@, private@, fields@.len() as int),
        },
{
    let mut i: usize = 0;
    while i < fields.len()
        invariant
            i <= fields@.len(),
            !hit(b@, fields@, private@, i as int),
        decreases fields@.len() - i,
    {
        let off: usize = fields[i];
        if let Some(c) = u32_at(b, off) {
            if contains(private, c) {
                assert(fields@[i as int] + 4 <= b@.len());
                return Some(c);
            }
        }
        i = i + 1;
    }
    None
}

fn inline_offsets(abi: &Abi, dev: Dev, nr: u32) -> (r: Option<Vec<usize>>)
    ensures
        match (r, inline_fields(abi, dev, nr)) {
            (Some(v), Some(want)) => v@ == want,
            (None, None) => true,
            _ => false,
        },
{
    let e = &abi.escapes;
    let mut v: Vec<usize> = Vec::new();
    if dev.is_uvm() {
        let off: usize = if nr == abi.uvm.register_gpu_vaspace {
            REGISTER_GPU_VASPACE_CLIENT
        } else if nr == abi.uvm.register_channel {
            REGISTER_CHANNEL_CLIENT
        } else if nr == abi.uvm.unregister_channel {
            abi.uvm.unregister_channel_client
        } else if nr == abi.uvm.map_external_allocation {
            MAP_EXTERNAL_ALLOCATION_CLIENT
        } else if nr == abi.uvm.register_gpu {
            REGISTER_GPU_CLIENT
        } else {
            return None;
        };
        v.push(off);
    } else if nr == e.rm_dup_object {
        v.push(0);
        v.push(DUP_OBJECT_SOURCE);
    } else if nr == e.rm_alloc || nr == e.rm_alloc_object || nr == e.rm_alloc_memory || nr
        == e.rm_free || nr == e.rm_control || nr == e.rm_share || nr == e.rm_map_memory || nr
        == e.rm_unmap_memory || nr == e.rm_vid_heap_control || nr == e.rm_bind_context_dma || nr
        == e.rm_map_memory_dma || nr == e.rm_unmap_memory_dma || nr == e.alloc_os_event || nr
        == e.free_os_event {
        v.push(0);
    } else {
        return None;
    }
    assert(v@ =~= inline_fields(abi, dev, nr)->Some_0);
    Some(v)
}

fn class_offsets(class: u32) -> (v: Vec<usize>)
    ensures
        v@ == class_fields(class),
{
    let mut v: Vec<usize> = Vec::new();
    if class == CLASS_DEVICE {
        v.push(4);
        v.push(8);
    } else if class == CLASS_CONFIDENTIAL_COMPUTE {
        v.push(0);
    } else if class == CLASS_DEBUGGER {
        v.push(4);
    } else if class == CLASS_CHANNEL_RETAINER || class == CLASS_PROFILER {
        v.push(0);
    }
    assert(v@ =~= class_fields(class));
    v
}

/// The private client that a copy, import or control request names, if it names one.
/// A field that the buffer is too short for names nobody: the shape of the request
/// is checked elsewhere.
pub fn private_client(
    abi: &Abi,
    dev: Dev,
    nr: u32,
    inline: &[u8],
    aux: &[u8],
    private: &[u32],
) -> (r: Option<u32>)
    ensures
        r is Some <==> names_private(abi, dev, nr, inline@, aux@, private@),
        match r {
            None => true,
            Some(c) => {
                let fields = inline_fields(abi, dev, nr)->Some_0;
                &&& if hit(inline@, fields, private@, fields.len() as int) {
                    first_hit(inline@, fields, private@, c)
                } else {
                    first_hit(aux@, class_fields(le32(inline@, 12)), private@, c)
                }
                &&& c == private_named(abi, dev, nr, inline@, aux@, private@)
            },
        },
{
    let fields: Vec<usize> = match inline_offsets(abi, dev, nr) {
        None => {
            return None;
        },
        Some(v) => v,
    };
    if let Some(c) = find(inline, &fields, private) {
        proof {
            let k = choose|k: int|
                {
                    &&& 0 <= k < fields@.len()
                    &&& #[trigger] fields@[k] + 4 <= inline@.len()
                    &&& le32(inline@, fields@[k] as int) == c
                    &&& private@.contains(c)
                    &&& !hit(inline@, fields@, private@, k)
                };
            assert(fields@[k] + 4 <= inline@.len() && private@.contains(
                le32(inline@, fields@[k] as int),
            ));
            assert(hit(inline@, fields@, private@, fields@.len() as int));
            law_the_first_hit_is_one_client(
                inline@,
                fields@,
                private@,
                c,
                choose|x: u32| first_hit(inline@, fields@, private@, x),
            );
        }
        return Some(c);
    }
    if dev.is_uvm() || nr != abi.escapes.rm_alloc {
        return None;
    }
    let class: u32 = match u32_at(inline, 12) {
        None => {
            return None;
        },
        Some(class) => class,
    };
    let fields: Vec<usize> = class_offsets(class);
    let r: Option<u32> = find(aux, &fields, private);
    proof {
        if let Some(c) = r {
            let k = choose|k: int|
                {
                    &&& 0 <= k < fields@.len()
                    &&& #[trigger] fields@[k] + 4 <= aux@.len()
                    &&& le32(aux@, fields@[k] as int) == c
                    &&& private@.contains(c)
                    &&& !hit(aux@, fields@, private@, k)
                };
            assert(fields@[k] + 4 <= aux@.len() && private@.contains(le32(aux@, fields@[k] as int)));
            assert(hit(aux@, fields@, private@, fields@.len() as int));
            law_the_first_hit_is_one_client(
                aux@,
                fields@,
                private@,
                c,
                choose|x: u32| first_hit(aux@, fields@, private@, x),
            );
        }
    }
    r
}

/// Source and destination of a copy are looked at independently: a private client
/// in either is found.
pub proof fn law_both_clients_of_a_copy_are_checked(
    abi: &Abi,
    inline: Seq<u8>,
    aux: Seq<u8>,
    private: Seq<u32>,
    dev: Dev,
)
    requires
        !dev.uvm(),
        16 <= inline.len(),
        private.contains(le32(inline, 0)) || private.contains(
            le32(inline, DUP_OBJECT_SOURCE as int),
        ),
    ensures
        names_private(abi, dev, abi.escapes.rm_dup_object, inline, aux, private),
{
    let fields = inline_fields(abi, dev, abi.escapes.rm_dup_object)->Some_0;
    assert(fields[0] == 0 && fields[1] == DUP_OBJECT_SOURCE);
    if private.contains(le32(inline, 0)) {
        assert(fields[0] + 4 <= inline.len() && private.contains(le32(inline, fields[0] as int)));
    } else {
        assert(fields[1] + 4 <= inline.len() && private.contains(le32(inline, fields[1] as int)));
    }
    assert(hit(inline, fields, private, fields.len() as int));
}

/// With no private client, no request is held back.
pub proof fn law_without_private_clients_nothing_is_held_back(
    abi: &Abi,
    dev: Dev,
    nr: u32,
    inline: Seq<u8>,
    aux: Seq<u8>,
)
    ensures
        !names_private(abi, dev, nr, inline, aux, Seq::empty()),
{
}

/// The private client that a request names first, where it names one.
pub open spec fn private_named(
    abi: &Abi,
    dev: Dev,
    nr: u32,
    inline: Seq<u8>,
    aux: Seq<u8>,
    private: Seq<u32>,
) -> u32 {
    let fields = inline_fields(abi, dev, nr)->Some_0;
    if hit(inline, fields, private, fields.len() as int) {
        choose|c: u32| first_hit(inline, fields, private, c)
    } else {
        choose|c: u32| first_hit(aux, class_fields(le32(inline, 12)), private, c)
    }
}

/// The first field that names a private client names only one.
pub proof fn law_the_first_hit_is_one_client(
    b: Seq<u8>,
    fields: Seq<usize>,
    private: Seq<u32>,
    c: u32,
    d: u32,
)
    requires
        first_hit(b, fields, private, c),
        first_hit(b, fields, private, d),
    ensures
        c == d,
{
    let i = choose|k: int|
        {
            &&& 0 <= k < fields.len()
            &&& #[trigger] fields[k] + 4 <= b.len()
            &&& le32(b, fields[k] as int) == c
            &&& private.contains(c)
            &&& !hit(b, fields, private, k)
        };
    let j = choose|k: int|
        {
            &&& 0 <= k < fields.len()
            &&& #[trigger] fields[k] + 4 <= b.len()
            &&& le32(b, fields[k] as int) == d
            &&& private.contains(d)
            &&& !hit(b, fields, private, k)
        };
    if i < j {
        assert(fields[i] + 4 <= b.len());
        assert(hit(b, fields, private, j));
    } else if j < i {
        assert(fields[j] + 4 <= b.len());
        assert(hit(b, fields, private, i));
    }
}

/// A request of the front end that starts with a client is held back where that client is
/// private.
pub proof fn law_the_client_of_a_request_is_checked(
    abi: &Abi,
    dev: Dev,
    nr: u32,
    inline: Seq<u8>,
    aux: Seq<u8>,
    private: Seq<u32>,
)
    requires
        !dev.uvm(),
        ({
            let e = abi.escapes;
            nr == e.rm_alloc || nr == e.rm_alloc_object || nr == e.rm_alloc_memory || nr
                == e.rm_free || nr == e.rm_control || nr == e.rm_share || nr == e.rm_map_memory
                || nr == e.rm_unmap_memory || nr == e.rm_vid_heap_control || nr
                == e.rm_bind_context_dma || nr == e.rm_map_memory_dma || nr
                == e.rm_unmap_memory_dma || nr == e.alloc_os_event || nr == e.free_os_event || nr
                == e.rm_dup_object
        }),
        inline.len() >= 4,
        private.contains(le32(inline, 0)),
    ensures
        names_private(abi, dev, nr, inline, aux, private),
{
    let fields = inline_fields(abi, dev, nr)->Some_0;
    assert(fields[0] == 0);
    assert(hit(inline, fields, private, fields.len() as int));
}

/// A request of UVM that names a client is held back where that client is private.
pub proof fn law_the_client_of_a_uvm_request_is_checked(
    abi: &Abi,
    dev: Dev,
    nr: u32,
    inline: Seq<u8>,
    aux: Seq<u8>,
    private: Seq<u32>,
    at: usize,
)
    requires
        dev.uvm(),
        ({
            let u = abi.uvm;
            &&& u.register_gpu_vaspace != u.register_channel && u.register_gpu_vaspace
                != u.unregister_channel && u.register_gpu_vaspace != u.map_external_allocation
                && u.register_gpu_vaspace != u.register_gpu
            &&& u.register_channel != u.unregister_channel && u.register_channel
                != u.map_external_allocation && u.register_channel != u.register_gpu
            &&& u.unregister_channel != u.map_external_allocation && u.unregister_channel
                != u.register_gpu && u.map_external_allocation != u.register_gpu
            &&& nr == u.register_gpu_vaspace && at == 20 || nr == u.register_channel && at == 20
                || nr == u.unregister_channel && at == u.unregister_channel_client || nr
                == u.map_external_allocation && at == 9252 || nr == u.register_gpu && at == 28
        }),
        at + 4 <= inline.len(),
    ensures
        names_private(abi, dev, nr, inline, aux, private) <==> private.contains(
            le32(inline, at as int),
        ),
{
    let fields = inline_fields(abi, dev, nr)->Some_0;
    assert(fields =~= seq![at]);
    assert(fields[0] == at);
    if private.contains(le32(inline, at as int)) {
        assert(hit(inline, fields, private, 1));
    }
}

/// An allocation is held back where its parameters name a private client, at the places where
/// its class keeps clients.
pub proof fn law_the_clients_in_the_parameters_are_checked(
    abi: &Abi,
    dev: Dev,
    inline: Seq<u8>,
    aux: Seq<u8>,
    private: Seq<u32>,
    at: int,
)
    requires
        !dev.uvm(),
        inline.len() >= 16,
        ({
            let class = le32(inline, 12);
            class == 0x80 && (at == 4 || at == 8) || class == 0xcb33 && at == 0 || class == 0x83de
                && at == 4 || class == 0xc574 && at == 0 || class == 0xb2cc && at == 0
        }),
        at + 4 <= aux.len(),
        private.contains(le32(aux, at)),
    ensures
        names_private(abi, dev, abi.escapes.rm_alloc, inline, aux, private),
{
    let fields = class_fields(le32(inline, 12));
    let k = if at == 8 {
        1int
    } else {
        0
    };
    assert(fields[k] == at);
    assert(hit(aux, fields, private, fields.len() as int));
}

/// A request is held back for nothing but a private client in one of its own words, and the
/// client that is named is private.
pub proof fn law_only_private_clients_are_held_back(
    abi: &Abi,
    dev: Dev,
    nr: u32,
    inline: Seq<u8>,
    aux: Seq<u8>,
    private: Seq<u32>,
)
    requires
        names_private(abi, dev, nr, inline, aux, private),
    ensures
        (exists|o: int|
            0 <= o && o + 4 <= inline.len() && private.contains(#[trigger] le32(inline, o))) || (
        !dev.uvm() && nr == abi.escapes.rm_alloc && exists|o: int|
            0 <= o && o + 4 <= aux.len() && private.contains(#[trigger] le32(aux, o))),
        !dev.uvm() && nr != abi.escapes.rm_alloc && nr != abi.escapes.rm_dup_object
            ==> private.contains(le32(inline, 0)),
        !dev.uvm() && nr == abi.escapes.rm_dup_object && nr != abi.escapes.rm_alloc
            ==> private.contains(le32(inline, 0)) || private.contains(le32(inline, 12)),
{
    let fields = inline_fields(abi, dev, nr)->Some_0;
    if hit(inline, fields, private, fields.len() as int) {
        let k = choose|k: int|
            0 <= k < fields.len() && #[trigger] fields[k] + 4 <= inline.len() && private.contains(
                le32(inline, fields[k] as int),
            );
        assert(private.contains(le32(inline, fields[k] as int)));
    } else {
        let class = class_fields(le32(inline, 12));
        let k = choose|k: int|
            0 <= k < class.len() && #[trigger] class[k] + 4 <= aux.len() && private.contains(
                le32(aux, class[k] as int),
            );
        assert(private.contains(le32(aux, class[k] as int)));
    }
}

/// The client that a refusal names is one of the private ones.
pub proof fn law_the_named_client_is_private(
    abi: &Abi,
    dev: Dev,
    nr: u32,
    inline: Seq<u8>,
    aux: Seq<u8>,
    private: Seq<u32>,
)
    requires
        names_private(abi, dev, nr, inline, aux, private),
    ensures
        private.contains(private_named(abi, dev, nr, inline, aux, private)),
{
    let fields = inline_fields(abi, dev, nr)->Some_0;
    if hit(inline, fields, private, fields.len() as int) {
        let c = lemma_some_first_hit(inline, fields, private, fields.len() as int);
        assert(first_hit(inline, fields, private, c));
    } else {
        let class = class_fields(le32(inline, 12));
        let c = lemma_some_first_hit(aux, class, private, class.len() as int);
        assert(first_hit(aux, class, private, c));
    }
}

proof fn lemma_some_first_hit(b: Seq<u8>, fields: Seq<usize>, private: Seq<u32>, n: int) -> (c: u32)
    requires
        0 <= n <= fields.len(),
        hit(b, fields, private, n),
    ensures
        first_hit(b, fields, private, c),
    decreases n,
{
    if hit(b, fields, private, n - 1) {
        lemma_some_first_hit(b, fields, private, n - 1)
    } else {
        let k = choose|k: int|
            0 <= k < n && #[trigger] fields[k] + 4 <= b.len() && private.contains(
                le32(b, fields[k] as int),
            );
        assert(k == n - 1);
        le32(b, fields[k] as int)
    }
}

} // verus!
