//! The books of all sessions of a machine together, and the ledger that they share.

use crate::vram::{
    closed_with, freed_with, given_back, key, lemma_total, lemma_total_insert, settled, surviving,
    total, Ask, BooksView, Charge, LedgerView, Placement, Profile,
};
use vstd::prelude::*;

verus! {

/// What all sessions owe together.
pub open spec fn owed_together(books: Map<u64, BooksView>) -> nat
    decreases books.dom().len(),
{
    if books.dom().finite() && books.dom().len() > 0 {
        let k = books.dom().choose();
        books[k].owed as nat + owed_together(books.remove(k))
    } else {
        0
    }
}

/// What is reserved and not settled, all together.
pub open spec fn reserved(under_way: Seq<(u32, u64)>) -> nat
    decreases under_way.len(),
{
    if under_way.len() == 0 {
        0
    } else {
        reserved(under_way.drop_last()) + under_way.last().1 as nat
    }
}

/// One call on the books of a machine. A session is named by its number.
pub enum Call {
    /// `Books::new`: a session begins.
    Open(u32),
    /// `Books::announce`.
    Announce { sub_id: u32, guest_pid: u32, name: Seq<char> },
    /// `Books::reserve`.
    Reserve { sub_id: u32, bytes: u64 },
    /// `Books::settle`, for the reservation at this place among those under way.
    Settle { sub_id: u32, at: int, ok: bool, attr_out: u32, charge: Charge },
    /// `Books::free_object`.
    FreeObject { sub_id: u32, root: u32, handle: u32 },
    /// `Books::close_token`.
    CloseToken { sub_id: u32, token: u64 },
    /// `Books::count_refusal`.
    CountRefusal { sub_id: u32, ask: Ask },
    /// `Books::placement`, of a request that ended this way.
    Place { sub_id: u32, placement: Placement },
    /// `Books::close`: the session ends.
    Close(u32),
}

/// The ledger of a machine, the books of its sessions, and the reservations that were made
/// and not settled, each with the session that made it.
pub struct Accounts {
    pub led: LedgerView,
    pub books: Map<u64, BooksView>,
    pub under_way: Seq<(u32, u64)>,
}

impl Accounts {
    /// A machine without sessions.
    pub open spec fn start(profile: Profile) -> Accounts {
        Accounts {
            led: LedgerView { profile, used: 0, roster: Map::empty(), seen: Set::empty() },
            books: Map::empty(),
            under_way: Seq::empty(),
        }
    }

    /// Whether a call can be made: the session is there, or it is new where it begins, and
    /// what is settled is one of its own reservations.
    pub open spec fn takes(self, call: Call) -> bool {
        match call {
            Call::Open(sub_id) => !self.books.contains_key(sub_id as u64),
            Call::Announce { sub_id, .. } => self.books.contains_key(sub_id as u64),
            Call::Reserve { sub_id, .. } => self.books.contains_key(sub_id as u64),
            Call::Settle { sub_id, at, charge, .. } => {
                &&& self.books.contains_key(sub_id as u64)
                &&& 0 <= at < self.under_way.len()
                &&& self.under_way[at] == (sub_id, charge.bytes)
            },
            Call::FreeObject { sub_id, .. } => self.books.contains_key(sub_id as u64),
            Call::CloseToken { sub_id, .. } => self.books.contains_key(sub_id as u64),
            Call::CountRefusal { sub_id, .. } => self.books.contains_key(sub_id as u64),
            Call::Place { sub_id, .. } => self.books.contains_key(sub_id as u64),
            Call::Close(sub_id) => self.books.contains_key(sub_id as u64),
        }
    }

    /// With these books of a session, and this ledger.
    pub open spec fn with(self, sub_id: u32, to: (BooksView, LedgerView)) -> Accounts {
        Accounts { led: to.1, books: self.books.insert(sub_id as u64, to.0), ..self }
    }

    /// What a call leaves.
    pub open spec fn after(self, call: Call) -> Accounts {
        match call {
            Call::Open(sub_id) => self.with(
                sub_id,
                (
                    BooksView { sub_id, open: Map::empty(), owed: 0, refusals: Map::empty() },
                    self.led,
                ),
            ),
            Call::Announce { sub_id, guest_pid, name } => Accounts {
                led: self.led.registered(sub_id, guest_pid, name).with_bytes(
                    sub_id,
                    self.books[sub_id as u64].owed,
                ),
                ..self
            },
            Call::Reserve { sub_id, bytes } => if self.led.admits(bytes) {
                Accounts {
                    led: self.led.charged(bytes),
                    under_way: self.under_way.push((sub_id, bytes)),
                    ..self
                }
            } else {
                self
            },
            Call::Settle { sub_id, at, ok, attr_out, charge } => Accounts {
                under_way: self.under_way.remove(at),
                ..self.with(
                    sub_id,
                    settled(self.books[sub_id as u64], self.led, ok, attr_out, charge),
                )
            },
            Call::FreeObject { sub_id, root, handle } => self.with(
                sub_id,
                given_back(self.books[sub_id as u64], self.led, freed_with(root, handle)),
            ),
            Call::CloseToken { sub_id, token } => self.with(
                sub_id,
                given_back(self.books[sub_id as u64], self.led, closed_with(token)),
            ),
            Call::CountRefusal { sub_id, ask } => self.with(
                sub_id,
                (self.books[sub_id as u64].counted(ask), self.led),
            ),
            Call::Place { placement, .. } => Accounts { led: self.led.saw(placement), ..self },
            Call::Close(sub_id) => Accounts {
                led: self.led.released(self.books[sub_id as u64].owed).without(sub_id),
                books: self.books.remove(sub_id as u64),
                ..self
            },
        }
    }

    /// Every session owes what its open charges come to, and its row says so. The ledger counts
    /// what all sessions owe and what is reserved, to the byte, and no more than its cap. Only
    /// sessions are on the list.
    pub open spec fn sound(self) -> bool {
        &&& self.books.dom().finite()
        &&& forall|k: u64| #[trigger]
            self.books.contains_key(k) ==> {
                &&& self.books[k].sub_id == k
                &&& self.books[k].balanced()
                &&& self.books[k].shown(self.led)
            }
        &&& forall|k: u64| #[trigger]
            self.led.roster.contains_key(k) ==> self.books.contains_key(k)
        &&& self.led.used == owed_together(self.books) + reserved(self.under_way)
        &&& self.led.capped()
    }

    /// What a list of calls leaves.
    pub open spec fn run(self, calls: Seq<Call>) -> Accounts
        decreases calls.len(),
    {
        if calls.len() == 0 {
            self
        } else {
            self.run(calls.drop_last()).after(calls.last())
        }
    }

    /// Whether each call of a list can be made when its turn comes.
    pub open spec fn takes_all(self, calls: Seq<Call>) -> bool
        decreases calls.len(),
    {
        calls.len() == 0 || (self.takes_all(calls.drop_last()) && self.run(
            calls.drop_last(),
        ).takes(calls.last()))
    }
}

proof fn lemma_owed_together(books: Map<u64, BooksView>, k: u64)
    requires
        books.dom().finite(),
        books.contains_key(k),
    ensures
        owed_together(books) == books[k].owed as nat + owed_together(books.remove(k)),
    decreases books.dom().len(),
{
    let c = books.dom().choose();
    assert(books.dom().len() > 0) by {
        if books.dom().len() == 0 {
            assert(books.dom() =~= Set::empty());
        }
    }
    if c != k {
        lemma_owed_together(books.remove(c), k);
        lemma_owed_together(books.remove(k), c);
        assert(books.remove(c).remove(k) =~= books.remove(k).remove(c));
    }
}

proof fn lemma_owed_with(books: Map<u64, BooksView>, k: u64, b: BooksView)
    requires
        books.dom().finite(),
    ensures
        owed_together(books.insert(k, b)) == owed_together(books) + b.owed - (
        if books.contains_key(k) {
            books[k].owed as int
        } else {
            0
        }),
{
    let m = books.insert(k, b);
    lemma_owed_together(m, k);
    assert(m.remove(k) =~= books.remove(k));
    if books.contains_key(k) {
        lemma_owed_together(books, k);
    } else {
        assert(books.remove(k) =~= books);
    }
}

proof fn lemma_reserved_without(s: Seq<(u32, u64)>, at: int)
    requires
        0 <= at < s.len(),
    ensures
        reserved(s.remove(at)) + s[at].1 == reserved(s),
    decreases s.len(),
{
    let last = s.len() - 1;
    if at == last {
        assert(s.remove(at) =~= s.drop_last());
    } else {
        lemma_reserved_without(s.drop_last(), at);
        assert(s.remove(at).drop_last() =~= s.drop_last().remove(at));
        assert(s.remove(at).last() == s.last());
    }
}

/// The charges that a rule takes.
pub open spec fn dying(open: Map<u64, Charge>, dies: spec_fn(Charge) -> bool) -> Map<u64, Charge> {
    Map::new(|k: u64| open.contains_key(k) && dies(open[k]), |k: u64| open[k])
}

proof fn lemma_split(open: Map<u64, Charge>, dies: spec_fn(Charge) -> bool)
    requires
        open.dom().finite(),
    ensures
        surviving(open, dies).dom().finite(),
        dying(open, dies).dom().finite(),
        total(surviving(open, dies)) + total(dying(open, dies)) == total(open),
    decreases open.dom().len(),
{
    let (s, d) = (surviving(open, dies), dying(open, dies));
    if open.dom().len() == 0 {
        assert(open.dom() =~= Set::empty());
        assert(s.dom() =~= Set::empty());
        assert(d.dom() =~= Set::empty());
    } else {
        let k = open.dom().choose();
        let rest = open.remove(k);
        lemma_split(rest, dies);
        lemma_total(open, k);
        let (s0, d0) = (surviving(rest, dies), dying(rest, dies));
        if dies(open[k]) {
            assert(s =~= s0);
            assert(d =~= d0.insert(k, open[k]));
            assert(!d0.contains_key(k));
            lemma_total_insert(d0, k, open[k]);
        } else {
            assert(d =~= d0);
            assert(s =~= s0.insert(k, open[k]));
            assert(!s0.contains_key(k));
            lemma_total_insert(s0, k, open[k]);
        }
    }
}

/// Giving charges back takes exactly those that the rule names: what the session owes and what
/// the ledger counts fall by their sum, the session's row says what is left, every other
/// charge and every other row stays, and doing it again changes nothing.
pub proof fn law_exactly_what_dies_is_given_back(
    books: BooksView,
    led: LedgerView,
    dies: spec_fn(Charge) -> bool,
)
    requires
        books.balanced(),
        books.owed <= led.used,
        books.shown(led),
    ensures
        ({
            let gone = dying(books.open, dies);
            let (rest, after) = given_back(books, led, dies);
            &&& rest.balanced()
            &&& rest.owed == books.owed - total(gone)
            &&& after.used == led.used - total(gone)
            &&& rest.shown(after)
            &&& rest.sub_id == books.sub_id && rest.refusals == books.refusals
            &&& rest.open == books.open.remove_keys(gone.dom())
            &&& after.roster.dom() == led.roster.dom()
            &&& forall|k: u64|
                k != books.sub_id ==> #[trigger] after.roster[k] == led.roster[k]
            &&& after.profile == led.profile && after.seen == led.seen
            &&& given_back(rest, after, dies) == (rest, after)
        }),
{
    let gone = dying(books.open, dies);
    let (rest, after) = given_back(books, led, dies);
    lemma_split(books.open, dies);
    assert(rest.open =~= books.open.remove_keys(gone.dom()));
    assert(surviving(rest.open, dies) =~= rest.open);
    assert(after.roster.dom() =~= led.roster.dom());
}

/// Freeing an object takes its own charge, those of its children, and all of its client's
/// where it is the client, and gives exactly those back.
pub proof fn law_freeing_takes_the_object_and_its_children(
    books: BooksView,
    led: LedgerView,
    root: u32,
    handle: u32,
)
    requires
        books.balanced(),
        books.owed <= led.used,
        books.shown(led),
    ensures
        ({
            let gone = dying(books.open, freed_with(root, handle));
            let (rest, after) = given_back(books, led, freed_with(root, handle));
            &&& forall|k: u64| #[trigger]
                gone.contains_key(k) <==> {
                    &&& books.open.contains_key(k)
                    &&& books.open[k].root == root
                    &&& books.open[k].handle == handle || books.open[k].parent == handle || handle
                        == root
                }
            &&& forall|k: u64|
                #![trigger rest.open.contains_key(k)]
                rest.open.contains_key(k) <==> books.open.contains_key(k) && !gone.contains_key(k)
            &&& forall|k: u64| #[trigger]
                rest.open.contains_key(k) ==> rest.open[k] == books.open[k]
            &&& rest.owed == books.owed - total(gone)
            &&& after.used == led.used - total(gone)
            &&& rest.shown(after)
            &&& forall|k: u64|
                k != books.sub_id ==> #[trigger] after.roster[k] == led.roster[k]
            &&& given_back(rest, after, freed_with(root, handle)) == (rest, after)
        }),
{
    law_exactly_what_dies_is_given_back(books, led, freed_with(root, handle));
}

proof fn lemma_part(a: Accounts, k: u64)
    requires
        a.sound(),
        a.books.contains_key(k),
    ensures
        a.books[k].owed + reserved(a.under_way) <= a.led.used,
{
    lemma_owed_together(a.books, k);
}

proof fn lemma_given_back(a: Accounts, sub_id: u32, dies: spec_fn(Charge) -> bool)
    requires
        a.sound(),
        a.books.contains_key(sub_id as u64),
    ensures
        a.with(sub_id, given_back(a.books[sub_id as u64], a.led, dies)).sound(),
{
    let k = sub_id as u64;
    let b = a.books[k];
    lemma_part(a, k);
    law_exactly_what_dies_is_given_back(b, a.led, dies);
    let (rest, after) = given_back(b, a.led, dies);
    lemma_owed_with(a.books, k, rest);
    let n = a.with(sub_id, (rest, after));
    assert forall|x: u64| #[trigger] n.led.roster.contains_key(x) implies n.books.contains_key(
        x,
    ) by {
        assert(after.roster.dom().contains(x));
        assert(a.led.roster.contains_key(x));
    }
    assert forall|x: u64| #[trigger] n.books.contains_key(x) implies n.books[x].sub_id == x
        && n.books[x].balanced() && n.books[x].shown(n.led) by {
        if x != k {
            assert(a.books.contains_key(x));
            assert(after.roster[x] == a.led.roster[x]);
            assert(after.roster.dom().contains(x) == a.led.roster.dom().contains(x));
        }
    }
}

proof fn lemma_settled(
    a: Accounts,
    sub_id: u32,
    at: int,
    ok: bool,
    attr_out: u32,
    charge: Charge,
)
    requires
        a.sound(),
        a.takes(Call::Settle { sub_id, at, ok, attr_out, charge }),
    ensures
        a.after(Call::Settle { sub_id, at, ok, attr_out, charge }).sound(),
{
    let k = sub_id as u64;
    let b = a.books[k];
    let h = key(charge.root, charge.handle);
    let (next, led) = settled(b, a.led, ok, attr_out, charge);
    lemma_part(a, k);
    lemma_reserved_without(a.under_way, at);
    lemma_total_insert(b.open, h, charge);
    if b.open.contains_key(h) {
        lemma_total(b.open, h);
    }
    lemma_owed_with(a.books, k, next);
    let n = a.after(Call::Settle { sub_id, at, ok, attr_out, charge });
    assert forall|x: u64| #[trigger] n.books.contains_key(x) implies n.books[x].sub_id == x
        && n.books[x].balanced() && n.books[x].shown(n.led) by {
        if x != k {
            assert(a.books.contains_key(x));
        }
    }
}

/// Every call on the books keeps the accounts of the machine sound.
pub proof fn law_every_call_keeps_the_accounts(a: Accounts, call: Call)
    requires
        a.sound(),
        a.takes(call),
    ensures
        a.after(call).sound(),
{
    let n = a.after(call);
    match call {
        Call::Open(sub_id) => {
            let k = sub_id as u64;
            let b = n.books[k];
            assert(b.open.dom() =~= Set::empty());
            lemma_owed_with(a.books, k, b);
        },
        Call::Announce { sub_id, .. } => {},
        Call::Reserve { sub_id, bytes } => {
            if a.led.admits(bytes) {
                assert(n.under_way.drop_last() =~= a.under_way);
            }
        },
        Call::Settle { sub_id, at, ok, attr_out, charge } => {
            lemma_settled(a, sub_id, at, ok, attr_out, charge);
        },
        Call::FreeObject { sub_id, root, handle } => {
            lemma_given_back(a, sub_id, freed_with(root, handle));
        },
        Call::CloseToken { sub_id, token } => {
            lemma_given_back(a, sub_id, closed_with(token));
        },
        Call::CountRefusal { sub_id, ask } => {
            lemma_owed_with(a.books, sub_id as u64, n.books[sub_id as u64]);
        },
        Call::Place { .. } => {},
        Call::Close(sub_id) => {
            lemma_part(a, sub_id as u64);
            lemma_owed_together(a.books, sub_id as u64);
        },
    }
}

/// Whatever is called on the books of a machine, in whatever order, where each reservation is
/// settled at most once and by the session that made it: each session owes exactly its open
/// charges, and the ledger counts exactly what the sessions owe and what is reserved, which is
/// never more than its cap.
pub proof fn law_the_accounts_always_balance(profile: Profile, calls: Seq<Call>)
    requires
        Accounts::start(profile).takes_all(calls),
    ensures
        Accounts::start(profile).run(calls).sound(),
    decreases calls.len(),
{
    let start = Accounts::start(profile);
    if calls.len() == 0 {
        assert(start.books.dom() =~= Set::empty());
    } else {
        law_the_accounts_always_balance(profile, calls.drop_last());
        law_every_call_keeps_the_accounts(start.run(calls.drop_last()), calls.last());
    }
}

} // verus!
