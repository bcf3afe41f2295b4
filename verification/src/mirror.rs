//! Host descriptors behind tokens that the guest sees.
//!
//! The driver binds its clients to an open file. A forwarded call must ride on the
//! descriptor that the guest opened, and a token that was closed must never stand for
//! a later one.

use crate::abi::Dev;
use crate::table::Table;
use vstd::prelude::*;

verus! {

/// A host descriptor and the node it was opened on.
#[derive(Clone, Copy, Debug, PartialEq, Eq, Structural)]
pub struct Entry {
    pub fd: i32,
    pub kind: Dev,
}

/// The state of a mirror.
pub struct MirrorView {
    /// The next token.
    pub next: u64,
    pub live: Map<u64, Entry>,
}

impl MirrorView {
    /// Every live token was issued, and zero never was.
    pub open spec fn wf(self) -> bool {
        &&& self.next >= 1
        &&& self.live.dom().finite()
        &&& forall|t: u64| #[trigger] self.live.contains_key(t) ==> 0 < t < self.next
    }

    /// What a token stands for.
    pub open spec fn at(self, token: u64) -> Option<Entry> {
        if self.live.contains_key(token) {
            Some(self.live[token])
        } else {
            None
        }
    }

    /// The mirror with a descriptor more, under the next token.
    pub open spec fn issued(self, e: Entry) -> MirrorView {
        MirrorView { next: (self.next + 1) as u64, live: self.live.insert(self.next, e) }
    }

    /// The mirror without a token.
    pub open spec fn closed(self, token: u64) -> MirrorView {
        MirrorView { live: self.live.remove(token), ..self }
    }
}

/// The descriptors of one session.
pub struct Mirror {
    next: u64,
    map: Table<Entry>,
}

impl View for Mirror {
    type V = MirrorView;

    closed spec fn view(&self) -> MirrorView {
        MirrorView { next: self.next, live: self.map@ }
    }
}

impl Default for Mirror {
    fn default() -> (m: Mirror)
        ensures
            m@ == (MirrorView { next: 1, live: Map::empty() }),
            m@.wf(),
    {
        Mirror::new()
    }
}

impl Mirror {
    /// A mirror without descriptors. Tokens start at one.
    pub fn new() -> (m: Mirror)
        ensures
            m@ == (MirrorView { next: 1, live: Map::empty() }),
            m@.wf(),
    {
        let m = Mirror { next: 1, map: Table::new() };
        assert(m@.live.dom() =~= Set::empty());
        m
    }

    /// Files a descriptor and issues its token. The token space must not be used up.
    pub fn insert(&mut self, fd: i32, kind: Dev) -> (token: u64)
        requires
            old(self)@.wf(),
            old(self)@.next < u64::MAX,
        ensures
            token == old(self)@.next,
            token != 0,
            !old(self)@.live.contains_key(token),
            final(self)@ == old(self)@.issued(Entry { fd, kind }),
            final(self)@.wf(),
    {
        let token: u64 = self.next;
        self.next = token + 1;
        self.map.insert(token, Entry { fd, kind });
        token
    }

    /// Whether another token can be issued.
    pub fn can_insert(&self) -> (r: bool)
        ensures
            r == (self@.next < u64::MAX),
    {
        self.next < u64::MAX
    }

    /// The descriptor behind a live token.
    pub fn raw(&self, token: u64) -> (r: Option<i32>)
        ensures
            r == (match self@.at(token) {
                Some(e) => Some(e.fd),
                None => None,
            }),
    {
        match self.map.get(token) {
            Some(e) => Some(e.fd),
            None => None,
        }
    }

    /// The node behind a live token.
    pub fn kind(&self, token: u64) -> (r: Option<Dev>)
        ensures
            r == (match self@.at(token) {
                Some(e) => Some(e.kind),
                None => None,
            }),
    {
        match self.map.get(token) {
            Some(e) => Some(e.kind),
            None => None,
        }
    }

    /// Closes a token. The descriptor behind it, where the token was live, is to be closed.
    pub fn remove(&mut self, token: u64) -> (r: Option<i32>)
        requires
            old(self)@.wf(),
        ensures
            final(self)@ == old(self)@.closed(token),
            final(self)@.wf(),
            r == (match old(self)@.at(token) {
                Some(e) => Some(e.fd),
                None => None,
            }),
    {
        match self.map.remove(token) {
            Some(e) => Some(e.fd),
            None => None,
        }
    }

    /// How many tokens are live.
    pub fn len(&self) -> (n: usize)
        ensures
            n == self@.live.len(),
    {
        self.map.len()
    }

    /// Whether no token is live.
    pub fn is_empty(&self) -> (r: bool)
        ensures
            r == (self@.live == Map::<u64, Entry>::empty()),
    {
        self.map.is_empty()
    }

    /// How many tokens were ever issued.
    pub fn ever(&self) -> (n: u64)
        requires
            self@.wf(),
        ensures
            n == self@.next - 1,
    {
        self.next - 1
    }
}

/// A token that was closed stands for nothing from then on: no later one is equal to it.
pub proof fn law_tokens_are_never_reused(m: MirrorView, closed: u64, e: Entry)
    requires
        m.wf(),
        m.live.contains_key(closed),
        m.next < u64::MAX,
    ensures
        m.closed(closed).at(closed) is None,
        m.closed(closed).next != closed,
        m.closed(closed).issued(e).at(closed) is None,
        m.closed(closed).issued(e).wf(),
{
}

/// Issuing and closing leave every other token as it was.
pub proof fn law_other_tokens_stay(m: MirrorView, e: Entry, token: u64, other: u64)
    requires
        m.wf(),
        m.live.contains_key(other),
        other != token,
    ensures
        m.issued(e).at(other) == m.at(other),
        m.closed(token).at(other) == m.at(other),
{
}

/// A new token leads to what was opened under it, and a closed one leads nowhere; no other token
/// changes, and the next one is one further.
pub proof fn law_a_token_leads_to_what_was_opened(m: MirrorView, e: Entry, token: u64, other: u64)
    requires
        m.wf(),
        m.next < u64::MAX,
    ensures
        m.issued(e).at(m.next) == Some(e),
        m.issued(e).next == m.next + 1,
        other != m.next ==> m.issued(e).at(other) == m.at(other),
        m.closed(token).at(token) is None,
        m.closed(token).next == m.next,
        other != token ==> m.closed(token).at(other) == m.at(other),
        m.at(token) is Some <==> m.live.contains_key(token),
        m.at(token) matches Some(x) ==> x == m.live[token],
{
}

} // verus!
