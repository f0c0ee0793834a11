//! The connection registry: the set of live connection handles, keyed by
//! generated connection identifiers.
//!
//! The registry owns each handle from a successful connect until the
//! connection is disconnected. Every other component reaches a handle
//! through `resolve`, so an operation on a disconnected connection fails
//! at once.

use vstd::prelude::*;
use crate::clock::{now, Timestamp};
use crate::ids::fresh_id;
use crate::keyed::{slot_of, IdMap};
use crate::text::{after_last, push_decimal, decimal, tail_after_last};

verus! {

/// What the registry reports about one connection.
pub struct ConnectionInfo {
    pub id: String,
    pub name: String,
    /// Where the connection was opened. Sensitive: not for logs.
    pub uri: String,
    pub connected_at: Timestamp,
}

pub ghost struct ConnectionInfoView {
    pub id: Seq<char>,
    pub name: Seq<char>,
    pub uri: Seq<char>,
    pub connected_at: Timestamp,
}

impl View for ConnectionInfo {
    type V = ConnectionInfoView;

    open spec fn view(&self) -> ConnectionInfoView {
        ConnectionInfoView {
            id: self.id@,
            name: self.name@,
            uri: self.uri@,
            connected_at: self.connected_at,
        }
    }
}

#[derive(Clone, Copy, Debug, PartialEq, Eq, Structural)]
pub enum RegistryError {
    /// No live connection carries the identifier.
    NotFound,
}

impl RegistryError {
    /// The failure in words.
    pub fn message(&self) -> (m: &'static str)
        ensures
            m@ == "Connection not found"@,
    {
        "Connection not found"
    }
}

/// The name a connection is listed under: the one given, or else the part
/// of the URI after its last `@` (the authority, without credentials).
pub open spec fn display_name_of(name: Option<Seq<char>>, uri: Seq<char>) -> Seq<char> {
    match name {
        Some(n) => n,
        None => tail_after_last(uri, '@'),
    }
}

pub fn display_name(name: Option<String>, uri: &str) -> (r: String)
    ensures
        r@ == display_name_of(name.deep_view(), uri@),
{
    match name {
        Some(n) => n,
        None => after_last(uri, '@'),
    }
}

/// The reply to a successful connect: the connection identifier, a `|`,
/// and the milliseconds the connect took.
pub fn connect_reply(id: &str, elapsed_ms: u64) -> (r: String)
    ensures
        r@ == id@.push('|') + decimal(elapsed_ms as nat),
{
    let mut out = id.to_owned();
    out.push('|');
    push_decimal(&mut out, elapsed_ms);
    out
}

struct Connection<H> {
    info: ConnectionInfo,
    handle: H,
}

pub struct ConnectionRegistry<H> {
    store: IdMap<Connection<H>>,
}

impl<H> ConnectionRegistry<H> {
    /// The identifiers of the live connections, in the order they were
    /// registered.
    pub closed spec fn ids(&self) -> Seq<Seq<char>> {
        self.store.keys()
    }

    /// What is known about each live connection, in the order of `ids`.
    pub closed spec fn infos(&self) -> Seq<ConnectionInfoView> {
        Seq::new(self.store.values().len(), |i: int| self.store.values()[i].info@)
    }

    /// The handle of each live connection, in the order of `ids`.
    pub closed spec fn handles(&self) -> Seq<H> {
        Seq::new(self.store.values().len(), |i: int| self.store.values()[i].handle)
    }

    /// An identifier maps to exactly one live handle, and each connection is
    /// stored under the identifier it reports.
    pub open spec fn wf(&self) -> bool {
        &&& self.ids().len() == self.infos().len()
        &&& self.ids().len() == self.handles().len()
        &&& self.ids().no_duplicates()
        &&& forall|i: int| 0 <= i < self.ids().len() ==> (#[trigger] self.infos()[i]).id == self.ids()[i]
    }

    /// Whether `id` names a live connection.
    pub open spec fn is_live(&self, id: Seq<char>) -> bool {
        self.ids().contains(id)
    }

    /// What `get` answers for `id`.
    pub open spec fn get_result(&self, id: Seq<char>) -> Result<ConnectionInfoView, RegistryError> {
        match slot_of(self.ids(), id) {
            Some(i) => Ok(self.infos()[i]),
            None => Err(RegistryError::NotFound),
        }
    }

    /// What `resolve` answers for `id`.
    pub open spec fn resolve_result(&self, id: Seq<char>) -> Result<H, RegistryError> {
        match slot_of(self.ids(), id) {
            Some(i) => Ok(self.handles()[i]),
            None => Err(RegistryError::NotFound),
        }
    }

    /// `after` is this registry once `info` and `handle` were stored under
    /// `info.id`: in place of an earlier connection with that identifier,
    /// or else behind all others.
    pub open spec fn registered(&self, after: &Self, info: ConnectionInfoView, handle: H) -> bool {
        match slot_of(self.ids(), info.id) {
            Some(i) => {
                &&& after.ids() == self.ids()
                &&& after.infos() == self.infos().update(i, info)
                &&& after.handles() == self.handles().update(i, handle)
            },
            None => {
                &&& after.ids() == self.ids().push(info.id)
                &&& after.infos() == self.infos().push(info)
                &&& after.handles() == self.handles().push(handle)
            },
        }
    }

    /// `after` is this registry once `id` was disconnected: without the
    /// connection of that identifier, and otherwise as before.
    pub open spec fn disconnected(&self, after: &Self, id: Seq<char>) -> bool {
        match slot_of(self.ids(), id) {
            Some(i) => {
                &&& after.ids() == self.ids().remove(i)
                &&& after.infos() == self.infos().remove(i)
                &&& after.handles() == self.handles().remove(i)
            },
            None => {
                &&& after.ids() == self.ids()
                &&& after.infos() == self.infos()
                &&& after.handles() == self.handles()
            },
        }
    }

    pub fn new() -> (r: Self)
        ensures
            r.wf(),
            r.ids() == Seq::<Seq<char>>::empty(),
    {
        let r = ConnectionRegistry { store: IdMap::new() };
        assert(r.infos() =~= Seq::empty());
        assert(r.handles() =~= Seq::empty());
        r
    }

    pub fn len(&self) -> (n: usize)
        requires
            self.wf(),
        ensures
            n == self.ids().len(),
    {
        self.store.len()
    }

    /// Stores a connection that the driver has established, under `id`.
    ///
    /// The display name is the given one or is derived from the URI.
    pub fn register(
        &mut self,
        id: String,
        name: Option<String>,
        uri: String,
        connected_at: Timestamp,
        handle: H,
    )
        requires
            old(self).wf(),
        ensures
            final(self).wf(),
            old(self).registered(
                final(self),
                ConnectionInfoView {
                    id: id@,
                    name: display_name_of(name.deep_view(), uri@),
                    uri: uri@,
                    connected_at,
                },
                handle,
            ),
            final(self).is_live(id@),
    {
        let shown = display_name(name, uri.as_str());
        let key = id.clone();
        let info = ConnectionInfo { id, name: shown, uri, connected_at };
        let ghost slot = slot_of(self.ids(), key@);
        self.store.insert(key, Connection { info, handle });
        proof {
            match slot {
                Some(i) => {
                    assert(self.infos() =~= old(self).infos().update(i, info@));
                    assert(self.handles() =~= old(self).handles().update(i, handle));
                    assert(self.ids()[i] == key@);
                },
                None => {
                    assert(self.infos() =~= old(self).infos().push(info@));
                    assert(self.handles() =~= old(self).handles().push(handle));
                    assert(self.ids().last() == key@);
                    assert forall|a: int, b: int|
                        0 <= a < self.ids().len() && 0 <= b < self.ids().len() && a
                            != b implies self.ids()[a] != self.ids()[b] by {
                        if a < old(self).ids().len() {
                            assert(old(self).ids().contains(self.ids()[a]));
                        }
                        if b < old(self).ids().len() {
                            assert(old(self).ids().contains(self.ids()[b]));
                        }
                    }
                },
            }
        }
    }

    /// Registers a freshly established connection under a new identifier,
    /// stamped with the current time, and returns the identifier.
    pub fn connect(&mut self, uri: String, name: Option<String>, handle: H) -> (id: String)
        requires
            old(self).wf(),
        ensures
            final(self).wf(),
            final(self).is_live(id@),
            final(self).resolve_result(id@) == Ok::<H, RegistryError>(handle),
            final(self).get_result(id@) is Ok,
            final(self).get_result(id@)->Ok_0.name == display_name_of(name.deep_view(), uri@),
            final(self).get_result(id@)->Ok_0.uri == uri@,
            old(self).registered(
                final(self),
                final(self).get_result(id@)->Ok_0,
                handle,
            ),
    {
        let id = fresh_id();
        let at = now();
        let ghost info = ConnectionInfoView {
            id: id@,
            name: display_name_of(name.deep_view(), uri@),
            uri: uri@,
            connected_at: at,
        };
        self.register(id.clone(), name, uri, at, handle);
        proof {
            lemma_registered_is_found(*old(self), *self, info, handle);
        }
        id
    }

    /// Forgets the connection `id`. Unknown identifiers are ignored.
    pub fn disconnect(&mut self, id: &str)
        requires
            old(self).wf(),
        ensures
            final(self).wf(),
            old(self).disconnected(final(self), id@),
            !final(self).is_live(id@),
    {
        let ghost slot = slot_of(self.ids(), id@);
        let _ = self.store.remove(id);
        proof {
            match slot {
                Some(i) => {
                    assert(self.infos() =~= old(self).infos().remove(i));
                    assert(self.handles() =~= old(self).handles().remove(i));
                },
                None => {
                    assert(self.infos() =~= old(self).infos());
                    assert(self.handles() =~= old(self).handles());
                },
            }
        }
    }

    /// Every live connection, in registration order.
    pub fn list(&self) -> (r: Vec<&ConnectionInfo>)
        requires
            self.wf(),
        ensures
            r@.len() == self.infos().len(),
            forall|i: int| 0 <= i < r@.len() ==> r@[i]@ == self.infos()[i],
    {
        let mut out: Vec<&ConnectionInfo> = Vec::new();
        let n = self.store.len();
        let mut i: usize = 0;
        while i < n
            invariant
                self.wf(),
                self.store.wf(),
                n == self.ids().len(),
                i <= n,
                out@.len() == i,
                forall|j: int| 0 <= j < i ==> out@[j]@ == self.infos()[j],
            decreases n - i,
        {
            out.push(&self.store.value_at(i).info);
            i += 1;
        }
        out
    }

    /// What is known about connection `id`.
    pub fn get(&self, id: &str) -> (r: Result<&ConnectionInfo, RegistryError>)
        requires
            self.wf(),
        ensures
            match r {
                Ok(info) => self.get_result(id@) == Ok::<ConnectionInfoView, RegistryError>(info@),
                Err(e) => self.get_result(id@) == Err::<ConnectionInfoView, RegistryError>(e),
            },
    {
        match self.store.find(id) {
            Some(i) => Ok(&self.store.value_at(i).info),
            None => Err(RegistryError::NotFound),
        }
    }

    /// The handle of connection `id`, for the length of one call.
    pub fn resolve(&self, id: &str) -> (r: Result<&H, RegistryError>)
        requires
            self.wf(),
        ensures
            match r {
                Ok(handle) => self.resolve_result(id@) == Ok::<H, RegistryError>(*handle),
                Err(e) => self.resolve_result(id@) == Err::<H, RegistryError>(e),
            },
    {
        match self.store.find(id) {
            Some(i) => Ok(&self.store.value_at(i).handle),
            None => Err(RegistryError::NotFound),
        }
    }
}

/// A connection that was just registered is found again, with the handle
/// and the details it was registered with.
pub proof fn lemma_registered_is_found<H>(
    before: ConnectionRegistry<H>,
    after: ConnectionRegistry<H>,
    info: ConnectionInfoView,
    handle: H,
)
    requires
        before.wf(),
        after.wf(),
        before.registered(&after, info, handle),
    ensures
        after.is_live(info.id),
        after.get_result(info.id) == Ok::<ConnectionInfoView, RegistryError>(info),
        after.resolve_result(info.id) == Ok::<H, RegistryError>(handle),
{
    match slot_of(before.ids(), info.id) {
        Some(i) => {
            assert(after.ids()[i] == info.id);
        },
        None => {
            let n = before.ids().len() as int;
            assert(after.ids()[n] == info.id);
            assert(after.ids().contains(info.id));
            assert(after.ids()[after.ids().index_of(info.id)] == info.id);
        },
    }
}

/// Registering a connection leaves every connection of another identifier
/// as it was.
pub proof fn lemma_register_spares_others<H>(
    before: ConnectionRegistry<H>,
    after: ConnectionRegistry<H>,
    info: ConnectionInfoView,
    handle: H,
    other: Seq<char>,
)
    requires
        before.wf(),
        after.wf(),
        before.registered(&after, info, handle),
        other != info.id,
    ensures
        after.get_result(other) == before.get_result(other),
        after.resolve_result(other) == before.resolve_result(other),
{
    match slot_of(before.ids(), info.id) {
        Some(i) => {},
        None => {
            match slot_of(before.ids(), other) {
                Some(j) => {
                    assert(after.ids()[j] == other);
                    assert(after.ids().contains(other));
                    assert(after.ids()[after.ids().index_of(other)] == other);
                },
                None => {
                    if after.ids().contains(other) {
                        let k = after.ids().index_of(other);
                        assert(before.ids()[k] == other);
                    }
                },
            }
        },
    }
}

/// Once a connection is disconnected, asking for its details or for its
/// handle fails with `NotFound`, and disconnecting it again changes nothing.
pub proof fn lemma_disconnected_is_not_found<H>(
    before: ConnectionRegistry<H>,
    after: ConnectionRegistry<H>,
    id: Seq<char>,
)
    requires
        before.wf(),
        before.disconnected(&after, id),
    ensures
        !after.is_live(id),
        after.get_result(id) == Err::<ConnectionInfoView, RegistryError>(RegistryError::NotFound),
        after.resolve_result(id) == Err::<H, RegistryError>(RegistryError::NotFound),
        after.disconnected(&after, id),
{
    match slot_of(before.ids(), id) {
        Some(i) => {
            crate::keyed::lemma_remove_keeps_distinct(before.ids(), i);
        },
        None => {},
    }
}

/// Disconnecting one connection leaves every other connection as it was.
pub proof fn lemma_disconnect_spares_others<H>(
    before: ConnectionRegistry<H>,
    after: ConnectionRegistry<H>,
    id: Seq<char>,
    other: Seq<char>,
)
    requires
        before.wf(),
        after.wf(),
        before.disconnected(&after, id),
        other != id,
    ensures
        after.get_result(other) == before.get_result(other),
        after.resolve_result(other) == before.resolve_result(other),
{
    match slot_of(before.ids(), id) {
        Some(i) => {
            match slot_of(before.ids(), other) {
                Some(j) => {
                    let k = if j < i { j } else { j - 1 };
                    assert(after.ids()[k] == other);
                    assert(after.ids().contains(other));
                    assert(after.ids()[after.ids().index_of(other)] == other);
                },
                None => {
                    if after.ids().contains(other) {
                        let k = after.ids().index_of(other);
                        let j = if k < i { k } else { k + 1 };
                        assert(before.ids()[j] == other);
                    }
                },
            }
        },
        None => {},
    }
}

} // verus!
