//! What the host keeps for one guest process.
//!
//! Process numbers and handles are the guest's own bookkeeping: the machine is the boundary
//! that is kept, not a process inside it.

use crate::abi::{Abi, Dev};
use crate::bytes::{get32, le32};
use crate::errno::{EBADF, EINVAL, EIO, ENOTSUP, EPROTO};
use crate::events::{EventBook, EventView};
use crate::grid::is_piece;
use crate::host_pool::{closed_client, run_at, sum, GpaRun, PinBudget, PinView, Variable};
use crate::mediate::{from_utf8_lossy, length_until_zero, lossy_text, until_zero};
use crate::mirror::{Entry, Mirror, MirrorView};
use crate::pool_state::{kept_charges, kept_without, PoolState, PoolView};
use crate::table::Table;
use crate::text::{chars_of, dec, decimal, parse_hex, parsed_hex, string_of, trim, trimmed};
use crate::vram::{after_return, closed_with, rows_kept, Books, BooksView, Ledger, LedgerView};
use crate::wire::{Limits, Req, Rsp};
use vstd::prelude::*;
use vstd::slice::slice_subrange;
use vstd::string::*;

verus! {

/// The longest mapping that is plausible: 256 MiB.
pub const MAX_MAP_LEN: u64 = 0x1000_0000;

/// How many cards the driver has nodes for.
pub const NV_MAX_DEVICES: u32 = 32;

/// What a guest process says of itself.
#[derive(Clone, Copy, Debug)]
pub struct ProcInfo {
    pub pid: u32,
    pub comm: [u8; 16],
}

impl ProcInfo {
    /// A process that said nothing.
    pub open spec fn anonymous(self) -> bool {
        self.pid == 0 && self.comm@[0] == 0
    }

    /// The name, up to the first zero byte.
    pub open spec fn name(self) -> Seq<char> {
        lossy_text(until_zero(self.comm@))
    }

    pub fn is_anonymous(&self) -> (r: bool)
        ensures
            r == self.anonymous(),
    {
        self.pid == 0 && self.comm[0] == 0
    }

    /// The name, up to the first zero byte.
    pub fn comm_str(&self) -> (s: String)
        ensures
            s@ == self.name(),
    {
        let all: &[u8] = self.comm.as_slice();
        let n: usize = length_until_zero(all, 0, 16);
        let raw: &[u8] = slice_subrange(all, 0, n);
        proof {
            assert(all@.subrange(0, 16) =~= self.comm@);
        }
        from_utf8_lossy(raw)
    }
}

/// A mapping that the guest registered and the VMM has not fetched.
#[derive(Clone, Copy, Debug, PartialEq, Eq, Structural)]
pub struct PendingMap {
    pub token: u64,
    pub len: u64,
    pub dev: Dev,
}

/// The number after a mapping's: the low half counts up and skips zero, which the guest
/// reads as a failure.
pub open spec fn next_blob(id: u64) -> u64 {
    let (high, low) = (id / 0x1_0000_0000, id % 0x1_0000_0000);
    if low == 0xffff_ffff {
        (high * 0x1_0000_0000 + 1) as u64
    } else {
        (id + 1) as u64
    }
}

/// The state of one guest process.
pub struct Session {
    pub mirror: Mirror,
    pub maps: Table<PendingMap>,
    pub next_blob_id: u64,
    pub pool: PoolState,
    pub books: Books,
    pub events: EventBook,
    /// The guest's number for the process; zero where it gave none.
    pub sub_id: u32,
    pub proc: ProcInfo,
    /// The node that is registered for descriptors of system pages.
    pub osdesc_gpu: Option<i32>,
    pub fail_logs: u64,
    pub dumps: Table<u32>,
}

impl Session {
    pub open spec fn wf(&self) -> bool {
        &&& self.mirror@.wf()
        &&& self.pool@.wf()
        &&& self.books@.balanced()
        &&& self.books@.sub_id == self.sub_id
        &&& self.next_blob_id % 0x1_0000_0000 != 0
        &&& self.next_blob_id / 0x1_0000_0000 == self.sub_id
    }

    /// What the session holds is known to the ledger and the budget of its machine.
    pub open spec fn covered(&self, led: LedgerView, budget: PinView) -> bool {
        &&& self.books@.owed <= led.used
        &&& self.pool@.covered(budget)
    }

    /// A session that nothing has happened to: nothing is open, owed, pinned or watched, and
    /// the process has not said who it is.
    pub open spec fn fresh(&self, sub_id: u32) -> bool {
        &&& self.sub_id == sub_id
        &&& self.mirror@ == (MirrorView { next: 1, live: Map::empty() })
        &&& self.maps@ == Map::<u64, PendingMap>::empty()
        &&& self.next_blob_id == 0x1_0000_0000 * sub_id + 1
        &&& self.pool@ == (PoolView { pools: Seq::empty(), kept: Seq::empty(), driver: None })
        &&& self.books@ == (BooksView {
            sub_id,
            open: Map::empty(),
            owed: 0,
            refusals: Map::empty(),
        })
        &&& self.events@ == EventView::empty(1, 1)
        &&& self.proc.pid == 0
        &&& self.proc.comm@ == Seq::new(16, |i: int| 0u8)
        &&& self.osdesc_gpu is None
        &&& self.fail_logs == 0
        &&& self.dumps@ == Map::<u64, u32>::empty()
    }

    /// A session for a guest process. Mappings get numbers that carry the process in them.
    pub fn detached_proc(sub_id: u32) -> (s: Session)
        ensures
            s.wf(),
            s.fresh(sub_id),
            s.pool@.held() == 0,
            s.proc.anonymous(),
    {
        let comm: [u8; 16] = [0u8; 16];
        assert(comm@ =~= Seq::new(16, |i: int| 0u8));
        Session {
            mirror: Mirror::new(),
            maps: Table::new(),
            next_blob_id: 0x1_0000_0000 * sub_id as u64 + 1,
            pool: PoolState::new(),
            books: Books::new(sub_id),
            events: EventBook::new(),
            sub_id,
            proc: ProcInfo { pid: 0, comm },
            osdesc_gpu: None,
            fail_logs: 0,
            dumps: Table::new(),
        }
    }

    /// The descriptor behind a token of this session.
    pub fn mirror_raw(&self, token: u64) -> (r: Option<i32>)
        ensures
            r == (match self.mirror@.at(token) {
                Some(e) => Some(e.fd),
                None => None,
            }),
    {
        self.mirror.raw(token)
    }

    /// The name of the guest process.
    pub fn proc_name(&self) -> (s: String)
        ensures
            s@ == self.proc.name(),
    {
        self.proc.comm_str()
    }

    /// The label of the process: its name and number, or the session's number where it said
    /// nothing.
    pub open spec fn label(&self) -> Seq<char> {
        if self.proc.anonymous() {
            "guest-"@ + decimal(self.sub_id as nat)
        } else {
            self.proc.name() + "["@ + decimal(self.proc.pid as nat) + "]"@
        }
    }

    /// The label of the process.
    pub fn sub_name(&self) -> (s: String)
        ensures
            s@ == self.label(),
    {
        if self.proc.is_anonymous() {
            let mut s: String = "guest-".to_string();
            s.append(dec(self.sub_id as u64).as_str());
            return s;
        }
        let mut s: String = self.proc.comm_str();
        s.append("[");
        s.append(dec(self.proc.pid as u64).as_str());
        s.append("]");
        s
    }

    /// Descriptors that are open, tokens ever issued, control descriptors, pooled slots, armed
    /// waiters, what waits to be let go of, and the registered node.
    pub fn census(&self) -> (r: [u64; 7])
        requires
            self.mirror@.wf(),
        ensures
            r@[0] == self.mirror@.live.len(),
            r@[1] == self.mirror@.next - 1,
            r@[2] == self.events@.ctls.len(),
            r@[3] == self.events@.pool.len(),
            r@[4] == self.events@.waiters.len(),
            r@[5] == (if self.events@.unwatch.len() + self.events@.ctl_unwatch.len() <= usize::MAX {
                self.events@.unwatch.len() + self.events@.ctl_unwatch.len()
            } else {
                usize::MAX as nat
            }),
            r@[6] == (if self.osdesc_gpu is Some {
                1int
            } else {
                0
            }),
    {
        let e: [usize; 4] = self.events.census();
        [
            self.mirror.len() as u64,
            self.mirror.ever(),
            e[0] as u64,
            e[1] as u64,
            e[2] as u64,
            e[3] as u64,
            if self.osdesc_gpu.is_some() {
                1
            } else {
                0
            },
        ]
    }

    /// The guest's greeting: both sides have to speak the same version.
    pub fn on_hello(limits: &Limits, req: &Req) -> (r: Rsp)
        ensures
            r == (if req.ioctl_nr == limits.proto_version {
                Rsp::ok_spec(req.seq, 0)
            } else {
                Rsp::err_spec(req.seq, EPROTO)
            }),
    {
        if req.ioctl_nr != limits.proto_version {
            return Rsp::err(req.seq, EPROTO);
        }
        Rsp::ok(req.seq, 0)
    }

    /// The node that the guest may open, or the error that it gets.
    pub open spec fn node_of(req: &Req) -> Result<Dev, Rsp> {
        if req.dev == Some(Dev::Gpu) && req.ioctl_nr >= NV_MAX_DEVICES {
            Err(Rsp::err_spec(req.seq, EINVAL))
        } else {
            match req.dev {
                None => Err(Rsp::err_spec(req.seq, EINVAL)),
                Some(Dev::UvmTools) => Err(Rsp::err_spec(req.seq, ENOTSUP)),
                Some(dev) => Ok(dev),
            }
        }
    }

    /// Starts to open a node. The first process to say who it is is believed, where its
    /// inline block is long enough to, and joins the machine's list before anything is opened;
    /// the answer tells whether it did.
    pub fn begin_open(
        &mut self,
        limits: &Limits,
        led: &mut Ledger,
        req: &Req,
        said: Option<ProcInfo>,
    ) -> (r: (Result<Dev, Rsp>, bool))
        ensures
            r.0 == Session::node_of(req),
            r.1 == (old(self).proc.anonymous() && req.inline_len >= limits.proc_info_len
                && said is Some),
            *final(self) == (Session {
                proc: if r.1 {
                    said->Some_0
                } else {
                    old(self).proc
                },
                ..*old(self)
            }),
            final(led)@ == (if r.1 {
                old(led)@.registered(
                    old(self).books@.sub_id,
                    said->Some_0.pid,
                    said->Some_0.name(),
                ).with_bytes(old(self).books@.sub_id, old(self).books@.owed)
            } else {
                old(led)@
            }),
            rows_kept(old(self).books@, old(led)@, final(self).books@, final(led)@),
    {
        let mut adopted: bool = false;
        if self.proc.is_anonymous() && req.inline_len as usize >= limits.proc_info_len {
            if let Some(info) = said {
                self.proc = info;
                self.books.announce(led, info.pid, info.comm_str().as_str());
                adopted = true;
            }
        }
        let node: Result<Dev, Rsp> = match req.dev {
            None => Err(Rsp::err(req.seq, EINVAL)),
            Some(Dev::Gpu) => if req.ioctl_nr >= NV_MAX_DEVICES {
                Err(Rsp::err(req.seq, EINVAL))
            } else {
                Ok(Dev::Gpu)
            },
            Some(Dev::UvmTools) => Err(Rsp::err(req.seq, ENOTSUP)),
            Some(dev) => Ok(dev),
        };
        (node, adopted)
    }

    /// Gives the guest a token for the node that was opened.
    pub fn finish_open(&mut self, req: &Req, dev: Dev, fd: i32) -> (r: Rsp)
        requires
            old(self).mirror@.wf(),
            old(self).mirror@.next < u64::MAX,
        ensures
            r == Rsp::ok_spec(req.seq, old(self).mirror@.next),
            final(self).mirror@ == old(self).mirror@.issued(Entry { fd, kind: dev }),
            final(self).mirror@.wf(),
            *final(self) == (Session { mirror: final(self).mirror, ..*old(self) }),
    {
        let token: u64 = self.mirror.insert(fd, dev);
        Rsp::ok(req.seq, token)
    }

    /// The error that a mapping of this token meets.
    pub open spec fn map_error(&self, req: &Req) -> Option<i32> {
        match self.mirror@.at(req.target_token) {
            None => Some(EBADF),
            Some(e) => if req.map_len == 0 || req.map_len > MAX_MAP_LEN {
                Some(EINVAL)
            } else if req.dev != Some(e.kind) {
                Some(EINVAL)
            } else {
                None
            },
        }
    }

    /// Registers a mapping of a descriptor, for the VMM to fetch under the number it gets.
    pub fn on_map_prepare(&mut self, req: &Req) -> (r: Rsp)
        requires
            old(self).wf(),
        ensures
            final(self).wf(),
            match old(self).map_error(req) {
                Some(e) => r == Rsp::err_spec(req.seq, e) && *final(self) == *old(self),
                None => {
                    let id = old(self).next_blob_id;
                    &&& r == Rsp::ok_spec(req.seq, id)
                    &&& final(self).maps@ == old(self).maps@.insert(
                        id,
                        PendingMap {
                            token: req.target_token,
                            len: req.map_len,
                            dev: req.dev->Some_0,
                        },
                    )
                    &&& *final(self) == (Session {
                        maps: final(self).maps,
                        next_blob_id: next_blob(id),
                        ..*old(self)
                    })
                },
            },
    {
        let dev: Dev = match self.mirror.kind(req.target_token) {
            Some(dev) => dev,
            None => {
                return Rsp::err(req.seq, EBADF);
            },
        };
        if req.map_len == 0 || req.map_len > MAX_MAP_LEN {
            return Rsp::err(req.seq, EINVAL);
        }
        let same: bool = match req.dev {
            Some(d) => d == dev,
            None => false,
        };
        if !same {
            return Rsp::err(req.seq, EINVAL);
        }
        let id: u64 = self.next_blob_id;
        let low: u64 = id % 0x1_0000_0000;
        self.next_blob_id = if low == 0xffff_ffff {
            id - low + 1
        } else {
            id + 1
        };
        self.maps.insert(id, PendingMap { token: req.target_token, len: req.map_len, dev });
        Rsp::ok(req.seq, id)
    }

    /// Fetches a registered mapping: the descriptor, the length and the node. It is gone then,
    /// also where its descriptor was closed meanwhile.
    pub fn take_pending_map(&mut self, id: u64) -> (r: Option<(i32, u64, Dev)>)
        ensures
            final(self).maps@ == old(self).maps@.remove(id),
            *final(self) == (Session { maps: final(self).maps, ..*old(self) }),
            r == (if old(self).maps@.contains_key(id) {
                let m = old(self).maps@[id];
                match old(self).mirror@.at(m.token) {
                    Some(e) => Some((e.fd, m.len, m.dev)),
                    None => None,
                }
            } else {
                None
            }),
    {
        match self.maps.remove(id) {
            Some(m) => match self.mirror.raw(m.token) {
                Some(fd) => Some((fd, m.len, m.dev)),
                None => None,
            },
            None => None,
        }
    }

    /// What a request to back a pool comes to before the system is asked: the UVM descriptor
    /// and the pages, or the error.
    pub fn begin_pool_back(&self, req: &Req, payload: &[u8], memory: bool) -> (r: Result<
        (i32, Vec<GpaRun>),
        Rsp,
    >)
        ensures
            match r {
                Err(rsp) => rsp == Rsp::err_spec(
                    req.seq,
                    if !(self.mirror@.at(req.target_token) matches Some(e) && e.kind == Dev::Uvm) {
                        EBADF
                    } else if !memory {
                        EIO
                    } else {
                        EINVAL
                    },
                ) && !(self.mirror@.at(req.target_token) matches Some(e) && e.kind == Dev::Uvm
                    && memory && 16 * req.gpa_run_count <= payload@.len()),
                Ok((fd, runs)) => {
                    &&& self.mirror@.at(req.target_token) == Some(Entry { fd, kind: Dev::Uvm })
                    &&& memory
                    &&& 16 * req.gpa_run_count <= payload@.len()
                    &&& runs@ == Seq::new(
                        req.gpa_run_count as nat,
                        |i: int| run_at(payload@, i),
                    )
                },
            },
    {
        let uvm: bool = match self.mirror.kind(req.target_token) {
            Some(Dev::Uvm) => true,
            _ => false,
        };
        if !uvm {
            return Err(Rsp::err(req.seq, EBADF));
        }
        if !memory {
            return Err(Rsp::err(req.seq, EIO));
        }
        let fd: i32 = match self.mirror.raw(req.target_token) {
            Some(fd) => fd,
            None => {
                return Err(Rsp::err(req.seq, EBADF));
            },
        };
        match GpaRun::decode(payload, req.gpa_run_count as usize) {
            Some(runs) => Ok((fd, runs)),
            None => Err(Rsp::err(req.seq, EINVAL)),
        }
    }

    /// Closes a token, once the pools of its address space were swept: the descriptor goes,
    /// its charges are given back, and the clients that were made on it end. The answer is
    /// the descriptor to close, and whether pages are retained for the first time.
    pub fn close_token(&mut self, led: &mut Ledger, budget: &mut PinBudget, token: u64) -> (r: (
        Option<i32>,
        bool,
    ))
        requires
            old(self).wf(),
            old(self).covered(old(led)@, old(budget)@),
        ensures
            final(self).wf(),
            final(self).covered(final(led)@, final(budget)@),
            r.0 == (match old(self).mirror@.at(token) {
                Some(e) => Some(e.fd),
                None => None,
            }),
            final(self).mirror@ == old(self).mirror@.closed(token),
            final(self).books@ == old(self).books@.cut(closed_with(token)),
            final(led)@ == after_return(
                old(led)@,
                old(self).sub_id,
                (old(self).books@.owed - final(self).books@.owed) as u64,
                final(self).books@.owed,
            ),
            ({
                let gone = crate::events::clients_on(old(self).events@.client_token, token);
                &&& final(self).events@ == old(self).events@.closed(gone, gone.len() as int)
                &&& final(self).pool@ == without_clients(old(self).pool@, gone, gone.len() as int)
            }),
            final(self).pool@.held() <= old(self).pool@.held(),
            final(budget)@ == old(budget)@.retaining(
                (old(self).pool@.held() - final(self).pool@.held()) as u64,
            ),
            *final(self) == (Session {
                mirror: final(self).mirror,
                books: final(self).books,
                events: final(self).events,
                pool: final(self).pool,
                ..*old(self)
            }),
            rows_kept(old(self).books@, old(led)@, final(self).books@, final(led)@),
            r.1 <==> old(budget)@.retained == 0 && final(budget)@.retained != 0,
            old(led)@.capped() ==> final(led)@.capped(),
    {
        let fd: Option<i32> = self.mirror.remove(token);
        self.books.close_token(led, token);
        let gone: Vec<u64> = self.events.close_clients_of_token(token);
        let mut first: bool = false;
        let mut i: usize = 0;
        let ghost start = budget@;
        let ghost pool = self.pool@;
        proof {
            assert(start.retaining(0) == start);
        }
        while i < gone.len()
            invariant
                i <= gone@.len(),
                self.pool@ == without_clients(pool, gone@, i as int),
                self.pool@.wf(),
                self.pool@.covered(budget@),
                self.pool@.held() <= pool.held(),
                start.retained + pool.held() <= u64::MAX,
                budget@ == start.retaining((pool.held() - self.pool@.held()) as u64),
                first <==> start.retained == 0 && budget@.retained != 0,
                *self == (Session {
                    mirror: self.mirror,
                    books: self.books,
                    events: self.events,
                    pool: self.pool,
                    ..*old(self)
                }),
                self.mirror@ == old(self).mirror@.closed(token),
                self.books@ == old(self).books@.cut(closed_with(token)),
                self.books@.balanced(),
                self.events@ == old(self).events@.closed(gone@, gone@.len() as int),
            decreases gone@.len() - i,
        {
            let client: u32 = gone[i] as u32;
            if self.pool.drop_osdesc_client(budget, client) {
                first = true;
            }
            i += 1;
            proof {
                assert(budget@ == start.retaining((pool.held() - self.pool@.held()) as u64));
            }
        }
        (fd, first)
    }

    /// The session ends, once its pools were swept: its debt is paid, its process leaves the
    /// list, and what could not be released stays with the budget. The answer says whether
    /// pages stay registered for the first time.
    pub fn end(self, led: &mut Ledger, budget: &mut PinBudget) -> (retained: bool)
        requires
            self.wf(),
            self.covered(old(led)@, old(budget)@),
        ensures
            final(led)@ == old(led)@.released(self.books@.owed).without(self.sub_id),
            final(led)@.used == old(led)@.used - self.books@.owed,
            final(budget)@.wf(),
            final(budget)@ == (PinView {
                retained: (old(budget)@.retained + sum(kept_charges(self.pool@.kept))) as u64,
                quarantine: old(budget)@.quarantine + self.pool@.pools,
                open: closed_client(old(budget)@.open, self.pool@.driver),
                ..old(budget)@
            }),
            final(budget)@.leased() == old(budget)@.leased() - self.pool@.held(),
            retained <==> old(budget)@.retained == 0 && final(budget)@.retained != 0,
            old(led)@.capped() ==> final(led)@.capped(),
    {
        self.books.close(led);
        self.pool.close(budget)
    }

    /// Counts a call that failed, or any call where all are logged. The first fifty are worth
    /// a line, and then every thousandth.
    pub fn note_failure(&mut self, failed: bool, verbose: bool) -> (r: Option<u64>)
        ensures
            ({
                let n = if failed || verbose {
                    old(self).fail_logs.wrapping_add(1)
                } else {
                    old(self).fail_logs
                };
                &&& *final(self) == (Session { fail_logs: n, ..*old(self) })
                &&& r == (if verbose || (failed && (n <= 50 || n % 1000 == 0)) {
                    Some(n)
                } else {
                    None
                })
            }),
    {
        if !failed && !verbose {
            return None;
        }
        self.fail_logs = self.fail_logs.wrapping_add(1);
        if verbose || self.fail_logs <= 50 || self.fail_logs % 1000 == 0 {
            Some(self.fail_logs)
        } else {
            None
        }
    }

    /// Whether the answer of a control that is to be shown is one of the first two.
    pub fn note_dump(&mut self, cmd: u32) -> (r: bool)
        ensures
            ({
                let n = if old(self).dumps@.contains_key(cmd as u64) {
                    old(self).dumps@[cmd as u64]
                } else {
                    0
                };
                &&& r == (n < 2)
                &&& final(self).dumps@ == (if r {
                    old(self).dumps@.insert(cmd as u64, (n + 1) as u32)
                } else {
                    old(self).dumps@
                })
                &&& *final(self) == (Session { dumps: final(self).dumps, ..*old(self) })
            }),
    {
        let n: u32 = match self.dumps.get(cmd as u64) {
            Some(n) => *n,
            None => 0,
        };
        if n < 2 {
            self.dumps.insert(cmd as u64, n + 1);
            true
        } else {
            false
        }
    }
}

/// The registrations after the first `n` of the clients are gone.
pub open spec fn without_clients(pool: PoolView, clients: Seq<u64>, n: int) -> PoolView
    decreases n,
{
    if n <= 0 {
        pool
    } else {
        let rest = without_clients(pool, clients, n - 1);
        PoolView { kept: kept_without(rest.kept, clients[n - 1] as u32), ..rest }
    }
}

/// No mapping gets number zero, or a number of another process.
pub proof fn law_mapping_numbers_carry_their_process(id: u64)
    requires
        id % 0x1_0000_0000 != 0,
    ensures
        next_blob(id) % 0x1_0000_0000 != 0,
        next_blob(id) / 0x1_0000_0000 == id / 0x1_0000_0000,
        next_blob(id) != 0,
{
}

/// How much is logged: nothing for an absent or empty setting, every call for `2`, and
/// failures with their details for anything else.
pub fn debug_level(setting: Variable) -> (r: u8)
    ensures
        r == (match setting {
            Variable::Absent => 0u8,
            Variable::Text(t) => if t@.len() == 0 {
                0
            } else if t@ == seq!['2'] {
                2
            } else {
                1
            },
            Variable::NotUnicode => 1,
        }),
{
    match setting {
        Variable::Absent => 0,
        Variable::Text(t) => {
            let n: usize = t.unicode_len();
            if n == 0 {
                0
            } else if n == 1 && t.get_char(0) == '2' {
                assert(t@ =~= seq!['2']);
                2
            } else {
                1
            }
        },
        Variable::NotUnicode => 1,
    }
}

/// Whether a switch is on: only `1` turns it on.
pub fn switch_on(setting: Variable) -> (r: bool)
    ensures
        r == (setting matches Variable::Text(t) && t@ == seq!['1']),
{
    match setting {
        Variable::Text(t) => {
            let n: usize = t.unicode_len();
            if n == 1 && t.get_char(0) == '1' {
                assert(t@ =~= seq!['1']);
                true
            } else {
                false
            }
        },
        _ => false,
    }
}

/// A text without the marks of hexadecimal numbers in front of it.
pub open spec fn unmarked(s: Seq<char>) -> Seq<char>
    decreases s.len(),
{
    if s.len() >= 2 && s[0] == '0' && s[1] == 'x' {
        unmarked(s.skip(2))
    } else {
        s
    }
}

fn unmark(cs: &[char]) -> (r: &[char])
    ensures
        r@ == unmarked(cs@),
    decreases cs@.len(),
{
    if cs.len() >= 2 && cs[0] == '0' && cs[1] == 'x' {
        let rest: &[char] = slice_subrange(cs, 2, cs.len());
        proof {
            assert(rest@ =~= cs@.skip(2));
        }
        unmark(rest)
    } else {
        cs
    }
}

/// The control that a piece of the list names.
pub open spec fn listed_control(piece: Seq<char>) -> Option<u32> {
    parsed_hex(unmarked(trimmed(piece)))
}

fn read_control(piece: &[char]) -> (r: Option<u32>)
    ensures
        r == listed_control(piece@),
{
    let text: String = string_of(piece);
    let cs: Vec<char> = chars_of(trim(text.as_str()));
    let bare: String = string_of(unmark(&cs));
    parse_hex(bare.as_str())
}

/// Whether a list of hexadecimal numbers between commas names a control.
pub open spec fn lists_control(raw: Seq<char>, cmd: u32) -> bool {
    exists|i: int, j: int| #[trigger]
        is_piece(raw, i, j) && listed_control(raw.subrange(i, j)) == Some(cmd)
}

/// Whether the answers of a control are to be shown.
pub fn ctrl_dump_wanted(raw: &str, cmd: u32) -> (r: bool)
    ensures
        r == lists_control(raw@, cmd),
{
    let cs: Vec<char> = chars_of(raw);
    let n: usize = cs.len();
    let mut start: usize = 0;
    let mut end: usize = 0;
    loop
        invariant
            start <= end <= n,
            n == cs@.len(),
            cs@ == raw@,
            start == 0 || cs@[start - 1] == ',',
            forall|k: int| start <= k < end ==> cs@[k] != ',',
            forall|i: int, j: int| #[trigger]
                is_piece(cs@, i, j) && i < start ==> listed_control(cs@.subrange(i, j)) != Some(cmd),
        decreases n - end,
    {
        if end == n || cs[end] == ',' {
            let piece: &[char] = slice_subrange(cs.as_slice(), start, end);
            proof {
                assert(piece@ =~= cs@.subrange(start as int, end as int));
                assert(is_piece(cs@, start as int, end as int));
            }
            let named: Option<u32> = read_control(piece);
            let hit: bool = match named {
                Some(c) => c == cmd,
                None => false,
            };
            if hit {
                return true;
            }
            proof {
                assert forall|i: int, j: int| #[trigger] is_piece(cs@, i, j) && i <= end implies
                    listed_control(cs@.subrange(i, j)) != Some(cmd) by {
                    if i >= start {
                        if i > start {
                            assert(cs@[i - 1] == ',');
                        }
                        assert(i == start);
                        if j < end {
                            assert(cs@[j] == ',');
                        }
                        if end < j {
                            assert(cs@[end as int] == ',');
                        }
                        assert(j == end);
                    }
                }
            }
            if end == n {
                return false;
            }
            start = end + 1;
            end = end + 1;
        } else {
            end = end + 1;
        }
    }
}

/// An object that was made or freed, for the log.
#[derive(Clone, Copy, Debug, PartialEq, Eq, Structural)]
pub struct ObjectLine {
    pub made: bool,
    pub client: u32,
    pub parent: u32,
    pub handle: u32,
    pub class: u32,
    pub status: u32,
}

/// The object that a call of the front end makes or frees.
pub fn object_line(abi: &Abi, nr: u32, inline: &[u8]) -> (r: Option<ObjectLine>)
    ensures
        r == (if nr == abi.escapes.rm_alloc && inline@.len() >= 44 {
            Some(
                ObjectLine {
                    made: true,
                    client: le32(inline@, 0),
                    parent: le32(inline@, 4),
                    handle: le32(inline@, 8),
                    class: le32(inline@, 12),
                    status: le32(inline@, 40),
                },
            )
        } else if nr == abi.escapes.rm_free && inline@.len() >= 16 {
            Some(
                ObjectLine {
                    made: false,
                    client: le32(inline@, 0),
                    parent: le32(inline@, 4),
                    handle: le32(inline@, 8),
                    class: 0,
                    status: le32(inline@, 12),
                },
            )
        } else {
            None
        }),
{
    if nr == abi.escapes.rm_alloc && inline.len() >= 44 {
        Some(
            ObjectLine {
                made: true,
                client: get32(inline, 0),
                parent: get32(inline, 4),
                handle: get32(inline, 8),
                class: get32(inline, 12),
                status: get32(inline, 40),
            },
        )
    } else if nr == abi.escapes.rm_free && inline.len() >= 16 {
        Some(
            ObjectLine {
                made: false,
                client: get32(inline, 0),
                parent: get32(inline, 4),
                handle: get32(inline, 8),
                class: 0,
                status: get32(inline, 12),
            },
        )
    } else {
        None
    }
}

/// The numbers of mappings go up by one within a process and start over at one.
pub proof fn law_mapping_numbers_go_up_by_one(id: u64)
    requires
        id % 0x1_0000_0000 != 0,
    ensures
        id % 0x1_0000_0000 < 0xffff_ffff ==> next_blob(id) == id + 1,
        id % 0x1_0000_0000 == 0xffff_ffff ==> next_blob(id) % 0x1_0000_0000 == 1,
        next_blob(id) != id,
{
    law_mapping_numbers_carry_their_process(id);
    let (high, low) = (id as int / 0x1_0000_0000, id as int % 0x1_0000_0000);
    assert(id == 0x1_0000_0000 * high + low);
}

/// A mapping is refused as unknown where its token is not open, and as bad where it is empty,
/// longer than 256 MiB or of another device than the token's; else it is taken.
pub proof fn law_a_mapping_needs_an_open_token(s: &Session, req: &Req)
    ensures
        s.map_error(req) == Some(9i32) <==> s.mirror@.at(req.target_token) is None,
        s.map_error(req) is None <==> (s.mirror@.at(req.target_token) matches Some(e) && 0
            < req.map_len && req.map_len <= 256 * 1024 * 1024 && req.dev == Some(e.kind)),
        s.map_error(req) is None || s.map_error(req) == Some(9i32) || s.map_error(req) == Some(
            22i32,
        ),
{
}

/// A node is opened for every known device but the tools of UVM, and of the cards only for the
/// first thirty-two.
pub proof fn law_only_known_nodes_are_opened(req: &Req)
    ensures
        match Session::node_of(req) {
            Ok(dev) => req.dev == Some(dev) && dev != Dev::UvmTools && (dev == Dev::Gpu
                ==> req.ioctl_nr < 32),
            Err(rsp) => {
                &&& rsp.seq == req.seq
                &&& req.dev == Some(Dev::UvmTools) <==> rsp.ret == -95
                &&& req.dev != Some(Dev::UvmTools) ==> rsp.ret == -22 && (req.dev is None
                    || req.dev == Some(Dev::Gpu) && req.ioctl_nr >= 32)
            },
        },
{
}

/// Where clients go, exactly their arenas go.
pub proof fn law_only_the_arenas_of_those_clients_go(
    pool: PoolView,
    clients: Seq<u64>,
    n: int,
    k: crate::pool_state::Kept,
)
    requires
        0 <= n <= clients.len(),
        forall|i: int| 0 <= i < n ==> #[trigger] clients[i] <= u32::MAX,
    ensures
        without_clients(pool, clients, n).kept.contains(k) <==> pool.kept.contains(k) && forall|i: int|
            0 <= i < n ==> #[trigger] clients[i] != k.root,
        without_clients(pool, clients, n).pools == pool.pools,
        without_clients(pool, clients, n).driver == pool.driver,
    decreases n,
{
    if n > 0 {
        law_only_the_arenas_of_those_clients_go(pool, clients, n - 1, k);
        let rest = without_clients(pool, clients, n - 1);
        let c = clients[n - 1] as u32;
        crate::pool_state::law_the_arenas_of_a_client_go(rest.kept, c, k);
        assert(clients[n - 1] == c);
        if forall|i: int| 0 <= i < n ==> #[trigger] clients[i] != k.root {
            assert(clients[n - 1] != k.root);
        }
    }
}

/// A control is listed by its hexadecimal number, with marks in front of it or without.
pub proof fn law_a_control_is_listed_by_its_number(
    n: u32,
    front: Seq<char>,
    s: Seq<char>,
    back: Seq<char>,
)
    requires
        forall|i: int| 0 <= i < front.len() ==> crate::text::white_space(#[trigger] front[i]),
        forall|i: int| 0 <= i < back.len() ==> crate::text::white_space(#[trigger] back[i]),
        s == crate::text::hexadecimal(n as nat) || s == seq!['0', 'x']
            + crate::text::hexadecimal(n as nat),
    ensures
        listed_control(front + s + back) == Some(n),
{
    let h = crate::text::hexadecimal(n as nat);
    crate::text::law_hex_digits_read_back(n as nat);
    assert forall|i: int| 0 <= i < s.len() implies !crate::text::white_space(#[trigger] s[i]) by {
        let d = s.len() - h.len();
        if i >= d {
            assert(s[i] == h[i - d]);
            assert(crate::text::hex_value(h[i - d]) is Some);
        }
    }
    crate::text::law_a_text_loses_what_is_around_it(front, s, back);
    assert(unmarked(h) == h) by {
        if h.len() >= 2 && h[1] == 'x' {
            assert(crate::text::hex_value(h[1]) is Some);
        }
    }
    if s != h {
        assert(s[0] == '0' && s[1] == 'x');
        assert(s.skip(2) =~= h);
    }
}

/// A process that said nothing of itself is called by its number, and any other by its name and
/// its number in the guest.
pub proof fn law_a_process_is_called_by_its_name(s: &Session)
    ensures
        s.proc.anonymous() <==> s.proc.pid == 0 && s.proc.comm@[0] == 0,
        s.proc.anonymous() ==> s.label() == seq!['g', 'u', 'e', 's', 't', '-'] + decimal(
            s.sub_id as nat,
        ),
        !s.proc.anonymous() ==> s.label() == s.proc.name() + seq!['['] + decimal(
            s.proc.pid as nat,
        ) + seq![']'],
        s.proc.name() == lossy_text(until_zero(s.proc.comm@)),
{
    reveal_strlit("guest-");
    reveal_strlit("[");
    reveal_strlit("]");
    assert("guest-"@ =~= seq!['g', 'u', 'e', 's', 't', '-']);
    assert("["@ =~= seq!['[']);
    assert("]"@ =~= seq![']']);
}

} // verus!
