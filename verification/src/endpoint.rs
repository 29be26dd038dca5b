//! The endpoint: the table that says which association a datagram is for,
//! and the bookkeeping of the identifiers that name associations.
//!
//! An endpoint performs no I/O. It is handed the datagrams that arrive and
//! says which association each is for, or makes a new association for it.

use bytes::Bytes;
use fxhash::FxHashMap;
use slab::Slab;
use std::collections::{HashMap, VecDeque};
use std::sync::Arc;
use vstd::prelude::*;
use crate::association::Association;
use crate::buffer::{bytes_to_vec, bytes_view};
use crate::config::{ClientConfig, EndpointConfig, ServerConfig, TransportConfig};
use crate::model::{AssociationView, Side};
use crate::packet::{parse_header, parse_packet, CT_INIT};
use crate::random::random_u32;
use crate::shared::{
    first_chunk_type_of,
    header_readable,
    initiate_tag_of,
    AssociationEvent,
    AssociationEventInner,
    AssociationId,
    EcnCodepoint,
    EndpointEvent,
    EndpointEventInner,
    IpAddress,
    IssuedAid,
    PartialDecode,
    Payload,
    SocketAddress,
    Transmit,
};
use crate::tables::{
    fx_get,
    fx_insert,
    fx_len,
    fx_new,
    fx_remove,
    fx_values,
    slab_contains,
    slab_entries,
    slab_get,
    slab_get_mut,
    slab_insert,
    slab_len,
    slab_new,
    slab_remove,
    slab_vacant_key,
    SLAB_LIMIT,
};

verus! {

/// How often an endpoint asks its generator for an identifier that is not
/// in use before it gives up.
pub const MAX_AID_ATTEMPTS: u32 = 128;

/// With more identifiers than this in use, three quarters of the
/// identifier space, an endpoint takes no new association.
pub const FULL_THRESHOLD: usize = 0xbfff_fffe;

/// Makes the identifiers that name associations.
pub trait AssociationIdGenerator {
    /// Makes a new identifier. An identifier must say nothing from which
    /// one who watches the wire could tell that two identifiers name the
    /// same association.
    fn generate_aid(&mut self) -> AssociationId;

    /// How long an identifier may be used, in milliseconds, if that is limited.
    fn aid_lifetime(&self) -> Option<u64>;
}

/// Makes identifiers by chance.
#[derive(Clone, Copy, Debug, Default)]
pub struct RandomAssociationIdGenerator {}

impl RandomAssociationIdGenerator {
    /// A generator of identifiers drawn by chance.
    pub fn new() -> RandomAssociationIdGenerator {
        RandomAssociationIdGenerator {  }
    }
}

impl AssociationIdGenerator for RandomAssociationIdGenerator {
    fn generate_aid(&mut self) -> AssociationId {
        random_u32()
    }

    /// An identifier drawn by chance may be used without limit.
    fn aid_lifetime(&self) -> (t: Option<u64>)
        ensures
            t.is_none(),
    {
        None
    }
}

/// Makes the identifiers `first`, `first + 1`, and so on, wrapping around;
/// of use where the same run must give the same identifiers.
#[derive(Clone, Copy, Debug)]
pub struct SequentialAssociationIdGenerator {
    next: u32,
}

impl SequentialAssociationIdGenerator {
    /// A generator whose first identifier is `first`.
    pub fn new(first: u32) -> (g: SequentialAssociationIdGenerator)
        ensures
            g.upcoming() == first,
    {
        SequentialAssociationIdGenerator { next: first }
    }

    /// The identifier that the generator makes next.
    pub closed spec fn upcoming(&self) -> u32 {
        self.next
    }

    /// Makes the next identifier.
    pub fn take(&mut self) -> (id: u32)
        ensures
            id == old(self).upcoming(),
            final(self).upcoming() == crate::serial::add32(id, 1),
    {
        let id: u32 = self.next;
        self.next = self.next.wrapping_add(1);
        id
    }
}

impl AssociationIdGenerator for SequentialAssociationIdGenerator {
    /// Makes the identifier that is upcoming, and moves on to the one after it.
    fn generate_aid(&mut self) -> (id: AssociationId)
        ensures
            id == old(self).upcoming(),
            final(self).upcoming() == crate::serial::add32(id, 1),
    {
        self.take()
    }

    /// An identifier of the sequence may be used without limit.
    fn aid_lifetime(&self) -> (t: Option<u64>)
        ensures
            t.is_none(),
    {
        None
    }
}

/// Names an association within its endpoint.
#[derive(Debug, Copy, Clone, Eq, PartialEq, Structural, Hash, Ord, PartialOrd)]
pub struct AssociationHandle(pub usize);

impl From<AssociationHandle> for usize {
    fn from(x: AssociationHandle) -> (r: usize) {
        x.0
    }
}

impl vstd::std_specs::convert::FromSpecImpl<AssociationHandle> for usize {
    open spec fn obeys_from_spec() -> bool {
        true
    }

    open spec fn from_spec(x: AssociationHandle) -> usize {
        x.0
    }
}

impl AssociationHandle {
    /// The handle's number.
    pub fn index(self) -> (i: usize)
        ensures
            i == self.0,
    {
        self.0
    }
}

/// What processing a datagram has led to.
#[derive(Debug)]
pub enum DatagramEvent {
    /// The datagram is for an association that exists, and is to be handed to it.
    AssociationEvent(AssociationEvent),
    /// The datagram has made a new association.
    NewAssociation(Association),
}

/// Why an association could not be initiated. These failures arise before
/// anything is sent.
#[derive(Debug, Clone, PartialEq, Eq)]
pub enum ConnectError {
    /// The endpoint can no longer make new associations.
    EndpointStopping,
    /// As many associations exist, or identifiers are in use, as the endpoint allows.
    TooManyAssociations,
    /// The domain name is malformed.
    InvalidDnsName(String),
    /// The remote address is malformed: its port is zero.
    InvalidRemoteAddress(SocketAddress),
    /// No default client configuration was set up.
    NoDefaultClientConfig,
}

/// What an endpoint keeps of one association.
#[derive(Debug)]
pub struct AssociationMeta {
    /// The identifier that the peer chose for the association when it began.
    pub init_cid: AssociationId,
    /// How many identifiers were issued to the association beyond its first.
    pub cids_issued: u64,
    /// The identifiers that name the association, by the sequence in which they were issued.
    pub loc_cids: FxHashMap<u64, AssociationId>,
    /// The address that the association began with.
    pub initial_remote: SocketAddress,
}

/// What an endpoint keeps of one association, as a mathematical value.
pub struct MetaView {
    pub init_cid: AssociationId,
    pub cids_issued: u64,
    pub loc_cids: Map<u64, AssociationId>,
    pub initial_remote: SocketAddress,
}

impl View for AssociationMeta {
    type V = MetaView;

    open spec fn view(&self) -> MetaView {
        MetaView {
            init_cid: self.init_cid,
            cids_issued: self.cids_issued,
            loc_cids: self.loc_cids@,
            initial_remote: self.initial_remote,
        }
    }
}

/// The tables of an endpoint as a mathematical value.
pub struct EndpointView {
    /// The association that each identifier in use names.
    pub ids: Map<AssociationId, AssociationHandle>,
    /// The association that each identifier chosen by a peer names.
    pub init_ids: Map<AssociationId, AssociationHandle>,
    /// What is kept of each association, by its handle's number.
    pub metas: Map<usize, MetaView>,
    /// Whether new associations are refused.
    pub reject_new_connections: bool,
}

impl EndpointView {
    /// Whether the association `handle` has an identifier that was issued with the sequence `sequence`.
    pub open spec fn has_seq(self, handle: usize, sequence: u64) -> bool {
        self.metas.contains_key(handle) && self.metas[handle].loc_cids.contains_key(sequence)
    }

    /// The identifier of the association `handle` that was issued with the sequence `sequence`.
    pub open spec fn names(self, handle: usize, sequence: u64) -> AssociationId {
        self.metas[handle].loc_cids[sequence]
    }

    /// Whether `id` is among the identifiers of the association `handle`.
    pub open spec fn listed(self, handle: usize, id: AssociationId) -> bool {
        exists|sequence: u64| #[trigger] self.has_seq(handle, sequence) && self.names(handle, sequence) == id
    }

    /// The tables fit each other: every identifier in use names an
    /// association that exists and that lists it, every identifier that an
    /// association lists is in use and names that association, no
    /// association lists an identifier twice, and no identifier was issued
    /// with a sequence beyond the last one issued.
    pub open spec fn wf(self) -> bool {
        &&& forall|id: AssociationId| #[trigger]
            self.ids.contains_key(id) ==> self.metas.contains_key(self.ids[id].0) && self.listed(
                self.ids[id].0,
                id,
            )
        &&& forall|handle: usize, sequence: u64| #[trigger]
            self.has_seq(handle, sequence) ==> {
                &&& self.ids.contains_key(self.names(handle, sequence))
                &&& self.ids[self.names(handle, sequence)] == AssociationHandle(handle)
                &&& sequence <= self.metas[handle].cids_issued
            }
        &&& forall|handle: usize, s1: u64, s2: u64|
            #[trigger] self.has_seq(handle, s1) && #[trigger] self.has_seq(handle, s2) && self.names(
                handle,
                s1,
            ) == self.names(handle, s2) ==> s1 == s2
    }

    /// The tables after an association has been added under the handle `handle`.
    pub open spec fn added(
        self,
        handle: usize,
        init_cid: AssociationId,
        local_aid: AssociationId,
        remote: SocketAddress,
    ) -> EndpointView {
        EndpointView {
            ids: self.ids.insert(local_aid, AssociationHandle(handle)),
            metas: self.metas.insert(
                handle,
                MetaView {
                    init_cid,
                    cids_issued: 0,
                    loc_cids: Map::<u64, AssociationId>::empty().insert(0, local_aid),
                    initial_remote: remote,
                },
            ),
            ..self
        }
    }

    /// The tables after one identifier has been issued to the association `handle`.
    pub open spec fn issued_one(self, handle: usize, aid: IssuedAid) -> EndpointView {
        EndpointView {
            ids: self.ids.insert(aid.id, AssociationHandle(handle)),
            metas: self.metas.insert(
                handle,
                MetaView {
                    cids_issued: aid.sequence,
                    loc_cids: self.metas[handle].loc_cids.insert(aid.sequence, aid.id),
                    ..self.metas[handle]
                },
            ),
            ..self
        }
    }

    /// The tables after the identifiers `aids` have been issued to the
    /// association `handle`, one after the other.
    pub open spec fn issued(self, handle: usize, aids: Seq<IssuedAid>) -> EndpointView
        decreases aids.len(),
    {
        if aids.len() == 0 {
            self
        } else {
            self.issued(handle, aids.drop_last()).issued_one(handle, aids.last())
        }
    }

    /// Whether the identifiers `aids` can have been issued to the
    /// association `handle` one after the other: each was not in use when it
    /// was issued, and their sequence goes on from the last one issued.
    pub open spec fn issuable(self, handle: usize, aids: Seq<IssuedAid>) -> bool {
        forall|k: int|
            0 <= k < aids.len() ==> {
                &&& !self.issued(handle, aids.take(k)).ids.contains_key((#[trigger] aids[k]).id)
                &&& aids[k].sequence == self.metas[handle].cids_issued + k + 1
            }
    }

    /// The tables after the association `handle` has retired the identifier
    /// that was issued with the sequence `sequence`.
    pub open spec fn retired(self, handle: usize, sequence: u64) -> EndpointView {
        EndpointView {
            ids: self.ids.remove(self.metas[handle].loc_cids[sequence]),
            metas: self.metas.insert(
                handle,
                MetaView {
                    loc_cids: self.metas[handle].loc_cids.remove(sequence),
                    ..self.metas[handle]
                },
            ),
            ..self
        }
    }

    /// The tables after the association `handle` has ended: nothing is kept
    /// of it, and none of its identifiers is in use.
    pub open spec fn drained(self, handle: usize) -> EndpointView {
        EndpointView {
            ids: self.ids.remove_keys(self.metas[handle].loc_cids.values()),
            init_ids: self.init_ids.remove(self.metas[handle].init_cid),
            metas: self.metas.remove(handle),
            ..self
        }
    }

    /// The association that a datagram with the bytes `raw` is for, if it
    /// is for one that exists: the one that its verification tag names, or,
    /// if it has none and begins with an INIT, the one that its initiate tag names.
    pub open spec fn route(self, raw: Seq<u8>) -> Option<AssociationHandle> {
        let tag = parse_header(raw).verification_tag;
        if tag > 0 {
            if self.ids.contains_key(tag) {
                Some(self.ids[tag])
            } else {
                None
            }
        } else if first_chunk_type_of(raw) == Some(CT_INIT) {
            match initiate_tag_of(raw) {
                Some(t) => if self.ids.contains_key(t) {
                    Some(self.ids[t])
                } else {
                    None
                },
                None => None,
            }
        } else {
            None
        }
    }

    /// Whether no identifier is in use.
    pub open spec fn names_none(self) -> bool {
        forall|id: AssociationId| !self.ids.contains_key(id)
    }

    /// Whether the endpoint has room for one more association.
    pub open spec fn has_room(self) -> bool {
        self.ids.len() <= FULL_THRESHOLD && self.metas.len() < SLAB_LIMIT
    }
}

/// The views of the entries of a slab.
pub open spec fn meta_views(m: Map<usize, AssociationMeta>) -> Map<usize, MetaView> {
    m.map_values(|x: AssociationMeta| x@)
}

/// The main entry point to the library.
///
/// This object performs no I/O whatsoever. It is handed the datagrams that
/// arrive and the events that its associations make, and says what follows.
pub struct Endpoint {
    transmits: VecDeque<Transmit>,
    /// The association that each identifier chosen by a peer names. A
    /// standard hash map, to protect against hash collision attacks.
    connection_ids_init: HashMap<AssociationId, AssociationHandle>,
    /// The association that each identifier made here names. A cheaper
    /// hash function will do, since the keys are made here.
    connection_ids: FxHashMap<AssociationId, AssociationHandle>,
    connections: Slab<AssociationMeta>,
    local_cid_generator: Box<dyn AssociationIdGenerator>,
    config: Arc<EndpointConfig>,
    server_config: Option<Arc<ServerConfig>>,
    /// Whether incoming associations are refused without condition.
    reject_new_connections: bool,
}

impl View for Endpoint {
    type V = EndpointView;

    closed spec fn view(&self) -> EndpointView {
        EndpointView {
            ids: self.connection_ids@,
            init_ids: self.connection_ids_init@,
            metas: meta_views(slab_entries(self.connections)),
            reject_new_connections: self.reject_new_connections,
        }
    }
}

impl Endpoint {
    /// The number of the handle that the next association gets.
    pub closed spec fn next_handle(&self) -> usize {
        slab_vacant_key(self.connections)
    }

    /// The configuration for associations that are accepted, if the endpoint accepts any.
    pub closed spec fn server(&self) -> Option<ServerConfig> {
        match self.server_config {
            Some(c) => Some(*c),
            None => None,
        }
    }

    /// The datagrams that wait to be sent.
    pub closed spec fn waiting(&self) -> Seq<Transmit> {
        self.transmits@
    }

    /// The endpoint's configuration.
    pub closed spec fn configuration(&self) -> EndpointConfig {
        *self.config
    }

    /// Creates a new endpoint. It takes associations if `server_config` is
    /// given, and names associations with what `generator` makes.
    pub fn new(
        config: Arc<EndpointConfig>,
        server_config: Option<Arc<ServerConfig>>,
        generator: Box<dyn AssociationIdGenerator>,
    ) -> (e: Endpoint)
        ensures
            e@ == (EndpointView {
                ids: Map::<AssociationId, AssociationHandle>::empty(),
                init_ids: Map::<AssociationId, AssociationHandle>::empty(),
                metas: Map::<usize, MetaView>::empty(),
                reject_new_connections: false,
            }),
            e@.wf(),
            e.next_handle() == 0,
            e.waiting().len() == 0,
            e.configuration() == *config,
            e.server().is_some() == server_config.is_some(),
            server_config matches Some(c) ==> e.server() == Some(*c),
    {
        let e = Endpoint {
            transmits: VecDeque::new(),
            connection_ids_init: HashMap::new(),
            connection_ids: fx_new(),
            connections: slab_new(),
            local_cid_generator: generator,
            reject_new_connections: false,
            config,
            server_config,
        };
        assert(e@.metas =~= Map::<usize, MetaView>::empty());
        e
    }

    /// Gets the next datagram to send, if one waits.
    pub fn poll_transmit(&mut self) -> (r: Option<Transmit>)
        ensures
            final(self)@ == old(self)@,
            final(self).next_handle() == old(self).next_handle(),
            match r {
                Some(t) => old(self).waiting().len() > 0 && t == old(self).waiting()[0] && final(self).waiting()
                    == old(self).waiting().drop_first(),
                None => old(self).waiting().len() == 0 && final(self).waiting() == old(self).waiting(),
            },
    {
        let r = self.transmits.pop_front();
        proof {
            if r.is_some() {
                assert(self.transmits@ =~= old(self).transmits@.drop_first());
            }
        }
        r
    }

    /// Replaces the configuration for associations that are accepted. It
    /// holds for the associations that arrive from now on.
    pub fn set_server_config(&mut self, server_config: Option<Arc<ServerConfig>>)
        ensures
            final(self)@ == old(self)@,
            final(self).next_handle() == old(self).next_handle(),
            final(self).waiting() == old(self).waiting(),
            final(self).server().is_some() == server_config.is_some(),
            server_config matches Some(c) ==> final(self).server() == Some(*c),
    {
        self.server_config = server_config;
    }

    /// Refuses every association that arrives from now on.
    pub fn reject_new_connections(&mut self)
        ensures
            final(self)@ == (EndpointView { reject_new_connections: true, ..old(self)@ }),
            old(self)@.wf() ==> final(self)@.wf(),
            final(self).next_handle() == old(self).next_handle(),
            final(self).waiting() == old(self).waiting(),
            final(self).server() == old(self).server(),
    {
        proof {
            if self@.wf() {
                lemma_refusing_keeps_wf(self@, true);
            }
        }
        self.reject_new_connections = true;
    }

    /// The endpoint's configuration.
    pub fn config(&self) -> (c: &EndpointConfig)
        ensures
            *c == self.configuration(),
    {
        &self.config
    }

    /// Whether more than three quarters of the identifier space are in use.
    fn is_full(&self) -> (b: bool)
        ensures
            b == (self@.ids.len() > FULL_THRESHOLD),
    {
        FULL_THRESHOLD < fx_len(&self.connection_ids)
    }

    /// Whether an identifier that the generator has made can be used: it names no association yet.
    pub fn is_unused(&self, aid: AssociationId) -> (b: bool)
        ensures
            b == !self@.ids.contains_key(aid),
    {
        broadcast use vstd::std_specs::hash::group_hash_axioms;

        fx_get(&self.connection_ids, &aid).is_none()
    }

    /// Asks the generator for an identifier that is not in use, at most
    /// `MAX_AID_ATTEMPTS` times.
    ///
    /// Whether one is found is up to the generator, but for one case: while
    /// no identifier is in use, the first that the generator makes is taken.
    fn new_aid(&mut self) -> (r: Option<AssociationId>)
        ensures
            final(self)@ == old(self)@,
            final(self).next_handle() == old(self).next_handle(),
            final(self).waiting() == old(self).waiting(),
            final(self).server() == old(self).server(),
            final(self).configuration() == old(self).configuration(),
            r matches Some(aid) ==> !old(self)@.ids.contains_key(aid),
            old(self)@.names_none() ==> r.is_some(),
    {
        let mut tries: u32 = 0;
        while tries < MAX_AID_ATTEMPTS
            invariant
                self@ == old(self)@,
                self.next_handle() == old(self).next_handle(),
                self.waiting() == old(self).waiting(),
                self.server() == old(self).server(),
                self.configuration() == old(self).configuration(),
                old(self)@.names_none() ==> tries == 0,
            decreases MAX_AID_ATTEMPTS - tries,
        {
            let aid: AssociationId = self.local_cid_generator.generate_aid();
            if self.is_unused(aid) {
                return Some(aid);
            }
            tries = tries + 1;
        }
        None
    }
}


/// The views of the entries of a slab are as many as the entries, under the same keys.
pub proof fn lemma_meta_views(m: Map<usize, AssociationMeta>)
    ensures
        meta_views(m).dom() == m.dom(),
        meta_views(m).len() == m.len(),
        forall|k: usize| m.contains_key(k) ==> #[trigger] meta_views(m)[k] == m[k]@,
{
    assert(meta_views(m).dom() =~= m.dom());
}

/// Whether new associations are refused has no bearing on whether the tables fit.
pub proof fn lemma_refusing_keeps_wf(v: EndpointView, refuse: bool)
    requires
        v.wf(),
    ensures
        (EndpointView { reject_new_connections: refuse, ..v }).wf(),
{
    let w = EndpointView { reject_new_connections: refuse, ..v };
    assert forall|id: AssociationId| #[trigger] w.ids.contains_key(id) implies w.metas.contains_key(
        w.ids[id].0,
    ) && w.listed(w.ids[id].0, id) by {
        assert(v.ids.contains_key(id));
        let h = v.ids[id].0;
        let s = choose|s: u64| #[trigger] v.has_seq(h, s) && v.names(h, s) == id;
        assert(w.has_seq(h, s) && w.names(h, s) == id);
    }
    assert forall|h: usize, s: u64| #[trigger] w.has_seq(h, s) implies {
        &&& w.ids.contains_key(w.names(h, s))
        &&& w.ids[w.names(h, s)] == AssociationHandle(h)
        &&& s <= w.metas[h].cids_issued
    } by {
        assert(v.has_seq(h, s));
    }
    assert forall|h: usize, s1: u64, s2: u64|
        #[trigger] w.has_seq(h, s1) && #[trigger] w.has_seq(h, s2) && w.names(h, s1) == w.names(
            h,
            s2,
        ) implies s1 == s2 by {
        assert(v.has_seq(h, s1) && v.has_seq(h, s2));
    }
}

/// Adding an association under a handle that is free, with an identifier
/// that is not in use, keeps the tables fit.
pub proof fn lemma_added_wf(
    v: EndpointView,
    handle: usize,
    init_cid: AssociationId,
    local_aid: AssociationId,
    remote: SocketAddress,
)
    requires
        v.wf(),
        !v.metas.contains_key(handle),
        !v.ids.contains_key(local_aid),
    ensures
        v.added(handle, init_cid, local_aid, remote).wf(),
{
    let w = v.added(handle, init_cid, local_aid, remote);
    assert forall|id: AssociationId| #[trigger] w.ids.contains_key(id) implies w.metas.contains_key(
        w.ids[id].0,
    ) && w.listed(w.ids[id].0, id) by {
        if id == local_aid {
            assert(w.has_seq(handle, 0) && w.names(handle, 0) == id);
        } else {
            assert(v.ids.contains_key(id));
            let sequence = choose|sequence: u64| #[trigger]
                v.has_seq(v.ids[id].0, sequence) && v.names(v.ids[id].0, sequence) == id;
            assert(w.has_seq(w.ids[id].0, sequence) && w.names(w.ids[id].0, sequence) == id);
        }
    }
    assert forall|h: usize, sequence: u64| #[trigger] w.has_seq(h, sequence) implies {
        &&& w.ids.contains_key(w.names(h, sequence))
        &&& w.ids[w.names(h, sequence)] == AssociationHandle(h)
        &&& sequence <= w.metas[h].cids_issued
    } by {
        if h != handle {
            assert(v.has_seq(h, sequence));
        }
    }
    assert forall|h: usize, s1: u64, s2: u64|
        #[trigger] w.has_seq(h, s1) && #[trigger] w.has_seq(h, s2) && w.names(h, s1) == w.names(
            h,
            s2,
        ) implies s1 == s2 by {
        if h != handle {
            assert(v.has_seq(h, s1) && v.has_seq(h, s2));
        }
    }
}

/// Issuing an identifier that is not in use, with the sequence after the
/// last one issued, keeps the tables fit.
pub proof fn lemma_issued_one_wf(v: EndpointView, handle: usize, aid: IssuedAid)
    requires
        v.wf(),
        v.metas.contains_key(handle),
        !v.ids.contains_key(aid.id),
        aid.sequence == v.metas[handle].cids_issued + 1,
    ensures
        v.issued_one(handle, aid).wf(),
        v.issued_one(handle, aid).metas.contains_key(handle),
        v.issued_one(handle, aid).metas[handle].cids_issued == aid.sequence,
        v.issued_one(handle, aid).metas.dom() == v.metas.dom(),
{
    let w = v.issued_one(handle, aid);
    assert(w.metas.dom() =~= v.metas.dom());
    assert forall|id: AssociationId| #[trigger] w.ids.contains_key(id) implies w.metas.contains_key(
        w.ids[id].0,
    ) && w.listed(w.ids[id].0, id) by {
        if id == aid.id {
            assert(w.has_seq(handle, aid.sequence) && w.names(handle, aid.sequence) == id);
        } else {
            assert(v.ids.contains_key(id));
            let h = v.ids[id].0;
            let sequence = choose|sequence: u64| #[trigger] v.has_seq(h, sequence) && v.names(h, sequence) == id;
            assert(v.has_seq(h, sequence));
            assert(w.has_seq(h, sequence) && w.names(h, sequence) == id);
        }
    }
    assert forall|h: usize, sequence: u64| #[trigger] w.has_seq(h, sequence) implies {
        &&& w.ids.contains_key(w.names(h, sequence))
        &&& w.ids[w.names(h, sequence)] == AssociationHandle(h)
        &&& sequence <= w.metas[h].cids_issued
    } by {
        if !(h == handle && sequence == aid.sequence) {
            assert(v.has_seq(h, sequence));
        }
    }
    assert forall|h: usize, s1: u64, s2: u64|
        #[trigger] w.has_seq(h, s1) && #[trigger] w.has_seq(h, s2) && w.names(h, s1) == w.names(
            h,
            s2,
        ) implies s1 == s2 by {
        if h == handle && (s1 == aid.sequence || s2 == aid.sequence) {
            if s1 != s2 {
                let other = if s1 == aid.sequence { s2 } else { s1 };
                assert(v.has_seq(h, other));
            }
        } else {
            assert(v.has_seq(h, s1) && v.has_seq(h, s2));
        }
    }
}

/// Issuing identifiers one after the other keeps the tables fit.
pub proof fn lemma_issued_wf(v: EndpointView, handle: usize, aids: Seq<IssuedAid>)
    requires
        v.wf(),
        v.metas.contains_key(handle),
        v.issuable(handle, aids),
    ensures
        v.issued(handle, aids).wf(),
        v.issued(handle, aids).metas.contains_key(handle),
        v.issued(handle, aids).metas[handle].cids_issued == v.metas[handle].cids_issued + aids.len(),
        v.issued(handle, aids).metas.dom() == v.metas.dom(),
    decreases aids.len(),
{
    if aids.len() > 0 {
        let front = aids.drop_last();
        assert forall|k: int| 0 <= k < front.len() implies {
            &&& !v.issued(handle, front.take(k)).ids.contains_key((#[trigger] front[k]).id)
            &&& front[k].sequence == v.metas[handle].cids_issued + k + 1
        } by {
            assert(front.take(k) =~= aids.take(k));
            assert(front[k] == aids[k]);
        }
        lemma_issued_wf(v, handle, front);
        assert(aids.take(aids.len() - 1) =~= front);
        assert(aids[aids.len() - 1] == aids.last());
        lemma_issued_one_wf(v.issued(handle, front), handle, aids.last());
    }
}

/// Retiring an identifier keeps the tables fit.
pub proof fn lemma_retired_wf(v: EndpointView, handle: usize, sequence: u64)
    requires
        v.wf(),
        v.has_seq(handle, sequence),
    ensures
        v.retired(handle, sequence).wf(),
        v.retired(handle, sequence).metas.contains_key(handle),
        v.retired(handle, sequence).metas.dom() == v.metas.dom(),
{
    let w = v.retired(handle, sequence);
    let cid = v.names(handle, sequence);
    assert(w.metas.dom() =~= v.metas.dom());
    assert forall|id: AssociationId| #[trigger] w.ids.contains_key(id) implies w.metas.contains_key(
        w.ids[id].0,
    ) && w.listed(w.ids[id].0, id) by {
        assert(v.ids.contains_key(id));
        let h = v.ids[id].0;
        let s = choose|s: u64| #[trigger] v.has_seq(h, s) && v.names(h, s) == id;
        assert(v.has_seq(h, s));
        assert(w.has_seq(h, s) && w.names(h, s) == id);
    }
    assert forall|h: usize, s: u64| #[trigger] w.has_seq(h, s) implies {
        &&& w.ids.contains_key(w.names(h, s))
        &&& w.ids[w.names(h, s)] == AssociationHandle(h)
        &&& s <= w.metas[h].cids_issued
    } by {
        assert(v.has_seq(h, s));
        assert(v.has_seq(handle, sequence));
    }
    assert forall|h: usize, s1: u64, s2: u64|
        #[trigger] w.has_seq(h, s1) && #[trigger] w.has_seq(h, s2) && w.names(h, s1) == w.names(
            h,
            s2,
        ) implies s1 == s2 by {
        assert(v.has_seq(h, s1) && v.has_seq(h, s2));
    }
}

/// Forgetting an association with all of its identifiers keeps the tables
/// fit, and leaves no identifier in use that named it.
pub proof fn lemma_drained_wf(v: EndpointView, handle: usize)
    requires
        v.wf(),
        v.metas.contains_key(handle),
    ensures
        v.drained(handle).wf(),
        forall|id: AssociationId| #[trigger]
            v.drained(handle).ids.contains_key(id) ==> v.drained(handle).ids[id] != AssociationHandle(handle),
{
    let w = v.drained(handle);
    let gone = v.metas[handle].loc_cids.values();
    assert forall|id: AssociationId| #[trigger] w.ids.contains_key(id) implies w.metas.contains_key(
        w.ids[id].0,
    ) && w.listed(w.ids[id].0, id) && w.ids[id] != AssociationHandle(handle) by {
        assert(v.ids.contains_key(id));
        let h = v.ids[id].0;
        let s = choose|s: u64| #[trigger] v.has_seq(h, s) && v.names(h, s) == id;
        assert(v.has_seq(h, s));
        if h == handle {
            assert(v.metas[handle].loc_cids.contains_key(s));
            assert(gone.contains(id));
        }
        assert(w.has_seq(h, s) && w.names(h, s) == id);
    }
    assert forall|h: usize, s: u64| #[trigger] w.has_seq(h, s) implies {
        &&& w.ids.contains_key(w.names(h, s))
        &&& w.ids[w.names(h, s)] == AssociationHandle(h)
        &&& s <= w.metas[h].cids_issued
    } by {
        assert(v.has_seq(h, s));
        let cid = v.names(h, s);
        if gone.contains(cid) {
            let t = choose|t: u64|
                v.metas[handle].loc_cids.contains_key(t) && #[trigger] v.metas[handle].loc_cids[t] == cid;
            assert(v.has_seq(handle, t));
            assert(v.names(handle, t) == cid);
        }
    }
    assert forall|h: usize, s1: u64, s2: u64|
        #[trigger] w.has_seq(h, s1) && #[trigger] w.has_seq(h, s2) && w.names(h, s1) == w.names(
            h,
            s2,
        ) implies s1 == s2 by {
        assert(v.has_seq(h, s1) && v.has_seq(h, s2));
    }
}

impl AssociationView {
    /// The association after the datagram with the bytes `raw` has arrived
    /// at `now`. A datagram that cannot be read changes nothing.
    pub open spec fn on_datagram(self, raw: Seq<u8>, now: u64) -> AssociationView {
        match parse_packet(raw) {
            Ok(p) => self.on_packet(p, now),
            Err(_) => self,
        }
    }
}

impl Endpoint {
    /// Whether the endpoint makes a new association for the datagram with
    /// the bytes `raw`, if the datagram is for none that exists: the datagram
    /// begins with an INIT that carries an initiate tag, the endpoint has a
    /// configuration for associations that it accepts and does not refuse
    /// them, and it has room for one more.
    pub open spec fn takes_new(&self, raw: Seq<u8>) -> bool {
        &&& first_chunk_type_of(raw) == Some(CT_INIT)
        &&& initiate_tag_of(raw).is_some()
        &&& self.server() matches Some(c) && self@.metas.len() < c.concurrent_associations
        &&& !self@.reject_new_connections
        &&& self@.has_room()
    }

    /// Adds an association to the tables and makes it.
    fn add_connection(
        &mut self,
        remote_aid: AssociationId,
        local_aid: AssociationId,
        remote_addr: SocketAddress,
        local_ip: Option<IpAddress>,
        now: u64,
        side: Side,
        transport_config: TransportConfig,
    ) -> (r: (AssociationHandle, Association))
        requires
            old(self)@.metas.len() < SLAB_LIMIT,
            old(self)@.wf(),
            !old(self)@.ids.contains_key(local_aid),
        ensures
            final(self)@.wf(),
            r.0 == AssociationHandle(old(self).next_handle()),
            !old(self)@.metas.contains_key(r.0.0),
            final(self)@ == old(self)@.added(r.0.0, remote_aid, local_aid, remote_addr),
            final(self).waiting() == old(self).waiting(),
            final(self).server() == old(self).server(),
            final(self).configuration() == old(self).configuration(),
            r.1.wf(),
            r.1@ == AssociationView::created(
                side,
                transport_config.normalized(),
                local_aid,
                remote_addr,
                local_ip,
                now,
                r.1@.initial_tsn,
                r.1@.my_cookie,
            ),
    {
        broadcast use vstd::std_specs::hash::group_hash_axioms;

        let conn = Association::with_random_seed(
            side,
            transport_config,
            local_aid,
            remote_addr,
            local_ip,
            now,
        );
        let mut loc_cids: FxHashMap<u64, AssociationId> = fx_new();
        let _ = fx_insert(&mut loc_cids, 0, local_aid);
        let meta = AssociationMeta { init_cid: remote_aid, cids_issued: 0, loc_cids, initial_remote: remote_addr };
        let ghost entries = slab_entries(self.connections);
        proof {
            lemma_meta_views(entries);
        }
        let id: usize = slab_insert(&mut self.connections, meta);
        proof {
            assert(meta_views(slab_entries(self.connections)) =~= meta_views(entries).insert(id, meta@));
            lemma_added_wf(old(self)@, id, remote_aid, local_aid, remote_addr);
        }
        let ch = AssociationHandle(id);
        let _ = fx_insert(&mut self.connection_ids, local_aid, ch);
        (ch, conn)
    }

    /// Issues the identifier `id` to the association `ch`, as the next of
    /// its sequence.
    ///
    /// The identifier is issued exactly if the endpoint knows the
    /// association, the identifier is not in use, and the sequence of the
    /// association's identifiers has not run out.
    pub fn issue_with(&mut self, ch: AssociationHandle, id: AssociationId) -> (r: Option<IssuedAid>)
        requires
            old(self)@.wf(),
        ensures
            final(self)@.wf(),
            final(self).next_handle() == old(self).next_handle(),
            final(self).waiting() == old(self).waiting(),
            final(self).server() == old(self).server(),
            final(self).configuration() == old(self).configuration(),
            r.is_some() == (old(self)@.metas.contains_key(ch.0) && !old(self)@.ids.contains_key(id) && old(
                self,
            )@.metas[ch.0].cids_issued < u64::MAX),
            match r {
                Some(aid) => {
                    &&& aid.id == id
                    &&& aid.sequence == old(self)@.metas[ch.0].cids_issued + 1
                    &&& final(self)@ == old(self)@.issued_one(ch.0, aid)
                },
                None => final(self)@ == old(self)@,
            },
    {
        broadcast use vstd::std_specs::hash::group_hash_axioms;

        let ghost before = self@;
        proof {
            lemma_meta_views(slab_entries(self.connections));
        }
        if !slab_contains(&self.connections, ch.0) {
            return None;
        }
        if slab_get(&self.connections, ch.0).cids_issued == u64::MAX {
            return None;
        }
        if !self.is_unused(id) {
            return None;
        }
        let _ = fx_insert(&mut self.connection_ids, id, ch);
        let meta = slab_get_mut(&mut self.connections, ch.0);
        meta.cids_issued = meta.cids_issued + 1;
        let sequence: u64 = meta.cids_issued;
        let _ = fx_insert(&mut meta.loc_cids, sequence, id);
        let aid = IssuedAid { sequence, id };
        proof {
            let after = slab_entries(self.connections);
            lemma_meta_views(after);
            assert(after[ch.0]@ == (MetaView {
                cids_issued: sequence,
                loc_cids: before.metas[ch.0].loc_cids.insert(sequence, id),
                ..before.metas[ch.0]
            }));
            assert(meta_views(after) =~= before.metas.insert(ch.0, after[ch.0]@));
            assert(self@ == before.issued_one(ch.0, aid));
            lemma_issued_one_wf(before, ch.0, aid);
        }
        Some(aid)
    }

    /// Issues up to `num` new identifiers to the association `ch`: fewer
    /// if the generator makes none that is not in use, or if the sequence
    /// of identifiers has run out.
    ///
    /// Each identifier is the generator's to make, so how many are issued
    /// is up to the generator, but for one case: while no identifier is in
    /// use, the first that is asked for is issued. What is done with each
    /// identifier that the generator made is what `issue_with` says.
    fn send_new_identifiers(&mut self, now: u64, ch: AssociationHandle, num: u64) -> (r: AssociationEvent)
        requires
            old(self)@.metas.contains_key(ch.0),
            old(self)@.wf(),
        ensures
            final(self)@.wf(),
            r.0 matches AssociationEventInner::NewIdentifiers(ids, t) && t == now && ids@.len() <= num
                && old(self)@.issuable(ch.0, ids@) && final(self)@ == old(self)@.issued(ch.0, ids@) && (old(
                self,
            )@.names_none() && num >= 1 && old(self)@.metas[ch.0].cids_issued < u64::MAX ==> ids@.len()
                >= 1),
            final(self).next_handle() == old(self).next_handle(),
            final(self).waiting() == old(self).waiting(),
            final(self).server() == old(self).server(),
            final(self).configuration() == old(self).configuration(),
    {
        let mut ids: Vec<IssuedAid> = Vec::new();
        let mut i: u64 = 0;
        let ghost start = self@;
        let mut stopped: bool = false;
        while i < num && !stopped
            invariant
                i <= num,
                ids@.len() == i,
                start == old(self)@,
                start.metas.contains_key(ch.0),
                self@ == start.issued(ch.0, ids@),
                self@.wf(),
                start.issuable(ch.0, ids@),
                self@.metas.contains_key(ch.0),
                self@.metas[ch.0].cids_issued == start.metas[ch.0].cids_issued + i,
                self.next_handle() == old(self).next_handle(),
                self.waiting() == old(self).waiting(),
                self.server() == old(self).server(),
                self.configuration() == old(self).configuration(),
                stopped && start.names_none() && start.metas[ch.0].cids_issued < u64::MAX ==> i >= 1,
            decreases num - i + (if stopped { 0int } else { 1int }),
        {
            let ghost before = self@;
            let issued: Option<IssuedAid> = match self.new_aid() {
                Some(id) => self.issue_with(ch, id),
                None => None,
            };
            match issued {
                None => {
                    stopped = true;
                },
                Some(aid) => {
                    proof {
                        let next = ids@.push(aid);
                        assert(next.drop_last() =~= ids@);
                        assert forall|k: int| 0 <= k < next.len() implies {
                            &&& !start.issued(ch.0, next.take(k)).ids.contains_key((#[trigger] next[k]).id)
                            &&& next[k].sequence == start.metas[ch.0].cids_issued + k + 1
                        } by {
                            if k < ids@.len() {
                                assert(next.take(k) =~= ids@.take(k));
                                assert(next[k] == ids@[k]);
                            } else {
                                assert(next.take(k) =~= ids@);
                            }
                        }
                    }
                    ids.push(aid);
                    i = i + 1;
                },
            }
        }
        AssociationEvent(AssociationEventInner::NewIdentifiers(ids, now))
    }

    /// Takes what an association tells its endpoint. The answer, if there
    /// is one, is for the same association.
    ///
    /// An association that asks for identifiers gets them issued. One that
    /// retires an identifier has it taken out of use, and gets a new one if
    /// the event allows it. One that has ended is forgotten with all of its
    /// identifiers. An event of an association that the endpoint does not
    /// know changes nothing.
    ///
    /// The identifiers that are issued are the generator's to make, so how
    /// many of those asked for are issued is up to the generator, but for
    /// one case: while no identifier is in use, the first is issued. What
    /// is done with an identifier that the generator made is what
    /// `issue_with` says.
    pub fn handle_event(&mut self, ch: AssociationHandle, event: EndpointEvent) -> (r: Option<AssociationEvent>)
        requires
            old(self)@.wf(),
        ensures
            final(self)@.wf(),
            final(self).waiting() == old(self).waiting(),
            final(self).server() == old(self).server(),
            final(self).configuration() == old(self).configuration(),
            !old(self)@.metas.contains_key(ch.0) ==> r.is_none() && final(self)@ == old(self)@
                && final(self).next_handle() == old(self).next_handle(),
            old(self)@.metas.contains_key(ch.0) ==> match event.0 {
                EndpointEventInner::NeedIdentifiers(now, n) => {
                    &&& r matches Some(e)
                    &&& e.0 matches AssociationEventInner::NewIdentifiers(ids, t)
                    &&& t == now
                    &&& ids@.len() <= n
                    &&& old(self)@.issuable(ch.0, ids@)
                    &&& final(self)@ == old(self)@.issued(ch.0, ids@)
                    &&& final(self).next_handle() == old(self).next_handle()
                    &&& old(self)@.names_none() && n >= 1 && old(self)@.metas[ch.0].cids_issued < u64::MAX
                        ==> ids@.len() >= 1
                },
                EndpointEventInner::RetireAssociationId(now, sequence, allow_more) => {
                    if !old(self)@.metas[ch.0].loc_cids.contains_key(sequence) {
                        r.is_none() && final(self)@ == old(self)@
                    } else if !allow_more {
                        r.is_none() && final(self)@ == old(self)@.retired(ch.0, sequence)
                    } else {
                        &&& r matches Some(e)
                        &&& e.0 matches AssociationEventInner::NewIdentifiers(ids, t)
                        &&& t == now
                        &&& ids@.len() <= 1
                        &&& old(self)@.retired(ch.0, sequence).issuable(ch.0, ids@)
                        &&& final(self)@ == old(self)@.retired(ch.0, sequence).issued(ch.0, ids@)
                        &&& old(self)@.retired(ch.0, sequence).names_none() && old(
                            self,
                        )@.metas[ch.0].cids_issued < u64::MAX ==> ids@.len() == 1
                    }
                },
                EndpointEventInner::Drained => {
                    &&& r.is_none()
                    &&& final(self)@ == old(self)@.drained(ch.0)
                    &&& final(self).next_handle() == ch.0
                    &&& forall|id: AssociationId| #[trigger]
                        final(self)@.ids.contains_key(id) ==> final(self)@.ids[id] != ch
                },
            },
    {
        broadcast use vstd::std_specs::hash::group_hash_axioms;

        proof {
            lemma_meta_views(slab_entries(self.connections));
        }
        if !slab_contains(&self.connections, ch.0) {
            return None;
        }
        let ghost start = self@;
        let ghost entries = slab_entries(self.connections);
        match event.0 {
            EndpointEventInner::NeedIdentifiers(now, n) => {
                return Some(self.send_new_identifiers(now, ch, n));
            },
            EndpointEventInner::RetireAssociationId(now, sequence, allow_more_aids) => {
                let meta = slab_get_mut(&mut self.connections, ch.0);
                match fx_remove(&mut meta.loc_cids, &sequence) {
                    None => {
                        proof {
                            let after = slab_entries(self.connections);
                            lemma_meta_views(after);
                            assert(after[ch.0]@.loc_cids =~= start.metas[ch.0].loc_cids);
                            assert(after[ch.0]@ == start.metas[ch.0]);
                            assert(meta_views(after) =~= start.metas);
                        }
                    },
                    Some(cid) => {
                        let _ = fx_remove(&mut self.connection_ids, &cid);
                        proof {
                            let after = slab_entries(self.connections);
                            lemma_meta_views(after);
                            assert(meta_views(after) =~= start.metas.insert(ch.0, after[ch.0]@));
                            assert(self@ == start.retired(ch.0, sequence));
                            assert(start.has_seq(ch.0, sequence));
                            lemma_retired_wf(start, ch.0, sequence);
                        }
                        if allow_more_aids {
                            return Some(self.send_new_identifiers(now, ch, 1));
                        }
                    },
                }
            },
            EndpointEventInner::Drained => {
                let conn: AssociationMeta = slab_remove(&mut self.connections, ch.0);
                proof {
                    let after = slab_entries(self.connections);
                    lemma_meta_views(after);
                    assert(meta_views(after) =~= start.metas.remove(ch.0));
                    assert(conn@ == start.metas[ch.0]);
                }
                let _ = self.connection_ids_init.remove(&conn.init_cid);
                let cids: Vec<u32> = fx_values(&conn.loc_cids);
                let ghost ids0 = self.connection_ids@;
                let mut k: usize = 0;
                assert(cids@.take(0).to_set() =~= Set::<u32>::empty());
                assert(ids0.remove_keys(Set::<u32>::empty()) =~= ids0);
                while k < cids.len()
                    invariant
                        k <= cids.len(),
                        self.connection_ids@ == ids0.remove_keys(cids@.take(k as int).to_set()),
                        self.connection_ids_init@ == start.init_ids.remove(start.metas[ch.0].init_cid),
                        meta_views(slab_entries(self.connections)) == start.metas.remove(ch.0),
                        self.reject_new_connections == old(self).reject_new_connections,
                        self.next_handle() == ch.0,
                        self.waiting() == old(self).waiting(),
                        self.server() == old(self).server(),
                        self.configuration() == old(self).configuration(),
                    decreases cids.len() - k,
                {
                    let cid: u32 = cids[k];
                    let _ = fx_remove(&mut self.connection_ids, &cid);
                    proof {
                        let shorter = cids@.take(k as int);
                        let longer = cids@.take(k + 1);
                        let done = shorter.to_set();
                        assert(longer.to_set() =~= done.insert(cid)) by {
                            assert forall|x: u32| longer.to_set().contains(x) <==> done.insert(cid).contains(
                                x,
                            ) by {
                                if longer.contains(x) {
                                    let j = choose|j: int| 0 <= j < longer.len() && longer[j] == x;
                                    if j < k {
                                        assert(shorter[j] == x);
                                    }
                                }
                                if shorter.contains(x) {
                                    let j = choose|j: int| 0 <= j < shorter.len() && shorter[j] == x;
                                    assert(longer[j] == x);
                                }
                                if x == cid {
                                    assert(longer[k as int] == x);
                                }
                            }
                        }
                        assert(ids0.remove_keys(done).remove(cid) =~= ids0.remove_keys(done.insert(cid)));
                    }
                    k = k + 1;
                }
                assert(cids@.take(cids.len() as int) =~= cids@);
                proof {
                    lemma_drained_wf(start, ch.0);
                }
            },
        }
        None
    }

    /// What the endpoint needs of a datagram to make a new association for
    /// it, if it takes one: the initiate tag, and the configuration that
    /// the association gets. See `takes_new`.
    fn admission(&self, partial_decode: &PartialDecode) -> (r: Option<(AssociationId, TransportConfig)>)
        requires
            partial_decode.wf(),
        ensures
            match r {
                Some((tag, transport)) => {
                    &&& self.takes_new(partial_decode.raw())
                    &&& initiate_tag_of(partial_decode.raw()) == Some(tag)
                    &&& transport == *self.server().unwrap().transport
                },
                None => !self.takes_new(partial_decode.raw()),
            },
    {
        proof {
            lemma_meta_views(slab_entries(self.connections));
        }
        let is_init: bool = match partial_decode.first_chunk_type() {
            Some(t) => t == CT_INIT,
            None => false,
        };
        let remote_aid: AssociationId = match partial_decode.initiate_tag() {
            Some(t) => t,
            None => {
                return None;
            },
        };
        if !is_init {
            return None;
        }
        let (limit, transport_config): (u32, TransportConfig) = match &self.server_config {
            Some(c) => (c.concurrent_associations, *c.transport),
            None => {
                return None;
            },
        };
        let count: usize = slab_len(&self.connections);
        if count >= limit as usize || self.reject_new_connections || self.is_full() || count >= SLAB_LIMIT {
            return None;
        }
        Some((remote_aid, transport_config))
    }

    /// Makes a new association under the identifier `local_aid` for a
    /// datagram that is for none that exists, and hands the datagram to it.
    ///
    /// The association is made exactly if the endpoint takes one for the
    /// datagram and the identifier is not in use. It gets the next handle,
    /// and has seen the datagram when it comes back.
    pub fn accept_with(
        &mut self,
        local_aid: AssociationId,
        now: u64,
        remote: SocketAddress,
        local_ip: Option<IpAddress>,
        ecn: Option<EcnCodepoint>,
        partial_decode: PartialDecode,
    ) -> (r: Option<(AssociationHandle, Association)>)
        requires
            partial_decode.wf(),
            old(self)@.wf(),
        ensures
            final(self)@.wf(),
            final(self).waiting() == old(self).waiting(),
            final(self).server() == old(self).server(),
            final(self).configuration() == old(self).configuration(),
            r.is_some() == (old(self).takes_new(partial_decode.raw()) && !old(self)@.ids.contains_key(
                local_aid,
            )),
            match r {
                None => final(self)@ == old(self)@ && final(self).next_handle() == old(self).next_handle(),
                Some((ch, conn)) => {
                    &&& ch == AssociationHandle(old(self).next_handle())
                    &&& !old(self)@.metas.contains_key(ch.0)
                    &&& final(self)@ == old(self)@.added(
                        ch.0,
                        initiate_tag_of(partial_decode.raw()).unwrap(),
                        local_aid,
                        remote,
                    )
                    &&& conn.wf()
                    &&& conn@.my_verification_tag == local_aid
                    &&& conn@ == AssociationView::created(
                        Side::Server,
                        old(self).server().unwrap().transport.normalized(),
                        local_aid,
                        remote,
                        local_ip,
                        now,
                        conn@.initial_tsn,
                        conn@.my_cookie,
                    ).on_datagram(partial_decode.raw(), now)
                },
            },
    {
        proof {
            lemma_meta_views(slab_entries(self.connections));
        }
        let (remote_aid, transport_config): (AssociationId, TransportConfig) = match self.admission(
            &partial_decode,
        ) {
            Some(x) => x,
            None => {
                return None;
            },
        };
        if !self.is_unused(local_aid) {
            return None;
        }
        let ghost raw = partial_decode.raw();
        let (ch, mut conn) = self.add_connection(
            remote_aid,
            local_aid,
            remote,
            local_ip,
            now,
            Side::Server,
            transport_config,
        );
        let ghost made = conn@;
        conn.handle_transmit(
            Transmit { now, remote, ecn, payload: Payload::PartialDecode(partial_decode), local_ip },
        );
        proof {
            match parse_packet(raw) {
                Ok(p) => {
                    if made.takes_packet(p) {
                        crate::model::lemma_packet_keeps_identity(made, p.chunks, 0, now);
                    }
                },
                Err(_) => {},
            }
        }
        Some((ch, conn))
    }

    /// Makes a new association for a datagram that is for none that exists,
    /// if the endpoint takes one, and hands the datagram to it.
    ///
    /// The identifier of the association is the generator's to make. So
    /// where the endpoint takes an association, whether one is made is up
    /// to the generator, but for one case: while no identifier is in use,
    /// whatever the generator makes will do. What is made with the
    /// identifier that the generator made is what `accept_with` says.
    fn handle_first_packet(
        &mut self,
        now: u64,
        remote: SocketAddress,
        local_ip: Option<IpAddress>,
        ecn: Option<EcnCodepoint>,
        partial_decode: PartialDecode,
    ) -> (r: Option<(AssociationHandle, Association)>)
        requires
            partial_decode.wf(),
            old(self)@.wf(),
        ensures
            final(self)@.wf(),
            final(self).waiting() == old(self).waiting(),
            final(self).server() == old(self).server(),
            final(self).configuration() == old(self).configuration(),
            match r {
                None => final(self)@ == old(self)@ && final(self).next_handle() == old(self).next_handle(),
                Some((ch, conn)) => {
                    &&& old(self).takes_new(partial_decode.raw())
                    &&& ch == AssociationHandle(old(self).next_handle())
                    &&& !old(self)@.metas.contains_key(ch.0)
                    &&& !old(self)@.ids.contains_key(conn@.my_verification_tag)
                    &&& final(self)@ == old(self)@.added(
                        ch.0,
                        initiate_tag_of(partial_decode.raw()).unwrap(),
                        conn@.my_verification_tag,
                        remote,
                    )
                    &&& conn.wf()
                    &&& conn@ == AssociationView::created(
                        Side::Server,
                        old(self).server().unwrap().transport.normalized(),
                        conn@.my_verification_tag,
                        remote,
                        local_ip,
                        now,
                        conn@.initial_tsn,
                        conn@.my_cookie,
                    ).on_datagram(partial_decode.raw(), now)
                },
            },
            !old(self).takes_new(partial_decode.raw()) ==> r.is_none(),
            old(self).takes_new(partial_decode.raw()) && old(self)@.names_none() ==> r.is_some(),
    {
        if self.admission(&partial_decode).is_none() {
            return None;
        }
        let local_aid: AssociationId = match self.new_aid() {
            Some(id) => id,
            None => {
                return None;
            },
        };
        self.accept_with(local_aid, now, remote, local_ip, ecn, partial_decode)
    }

    /// Processes a datagram that has arrived.
    ///
    /// A datagram whose header cannot be read is dropped. One for an
    /// association that exists comes back as an event for that association.
    /// One that is for none and begins a handshake makes a new association,
    /// which has seen the datagram already, if the endpoint takes one and
    /// its generator makes an identifier that is not in use; while no
    /// identifier is in use, whatever the generator makes will do.
    pub fn handle(
        &mut self,
        now: u64,
        remote: SocketAddress,
        local_ip: Option<IpAddress>,
        ecn: Option<EcnCodepoint>,
        data: Bytes,
    ) -> (r: Option<(AssociationHandle, DatagramEvent)>)
        requires
            old(self)@.wf(),
        ensures
            final(self)@.wf(),
            final(self).waiting() == old(self).waiting(),
            final(self).server() == old(self).server(),
            final(self).configuration() == old(self).configuration(),
            !header_readable(bytes_view(data)) ==> r.is_none(),
            header_readable(bytes_view(data)) && !old(self)@.route(bytes_view(data)).is_some() && !old(
                self,
            ).takes_new(bytes_view(data)) ==> r.is_none(),
            header_readable(bytes_view(data)) && old(self)@.route(bytes_view(data)).is_some() ==> (
            r matches Some((ch, DatagramEvent::AssociationEvent(_))) && Some(ch) == old(self)@.route(
                bytes_view(data),
            )),
            header_readable(bytes_view(data)) && old(self).takes_new(bytes_view(data)) && old(
                self,
            )@.names_none() ==> r matches Some((_, DatagramEvent::NewAssociation(_))),
            match r {
                None => final(self)@ == old(self)@ && final(self).next_handle() == old(self).next_handle(),
                Some((ch, DatagramEvent::AssociationEvent(e))) => {
                    &&& header_readable(bytes_view(data))
                    &&& old(self)@.route(bytes_view(data)) == Some(ch)
                    &&& old(self)@.metas.contains_key(ch.0)
                    &&& final(self)@ == old(self)@
                    &&& final(self).next_handle() == old(self).next_handle()
                    &&& e.0 matches AssociationEventInner::Datagram(t)
                    &&& t.now == now
                    &&& t.remote == remote
                    &&& t.ecn == ecn
                    &&& t.local_ip == local_ip
                    &&& t.payload matches Payload::PartialDecode(p)
                    &&& p.wf()
                    &&& p.raw() == bytes_view(data)
                },
                Some((ch, DatagramEvent::NewAssociation(conn))) => {
                    &&& header_readable(bytes_view(data))
                    &&& old(self)@.route(bytes_view(data)).is_none()
                    &&& old(self).takes_new(bytes_view(data))
                    &&& ch == AssociationHandle(old(self).next_handle())
                    &&& !old(self)@.metas.contains_key(ch.0)
                    &&& !old(self)@.ids.contains_key(conn@.my_verification_tag)
                    &&& final(self)@ == old(self)@.added(
                        ch.0,
                        initiate_tag_of(bytes_view(data)).unwrap(),
                        conn@.my_verification_tag,
                        remote,
                    )
                    &&& conn.wf()
                    &&& conn@ == AssociationView::created(
                        Side::Server,
                        old(self).server().unwrap().transport.normalized(),
                        conn@.my_verification_tag,
                        remote,
                        local_ip,
                        now,
                        conn@.initial_tsn,
                        conn@.my_cookie,
                    ).on_datagram(bytes_view(data), now)
                },
            },
    {
        broadcast use vstd::std_specs::hash::group_hash_axioms;

        let raw: Vec<u8> = bytes_to_vec(&data);
        let partial_decode: PartialDecode = match PartialDecode::unmarshal(raw) {
            Ok(x) => x,
            Err(_) => {
                return None;
            },
        };
        let dst_cid: AssociationId = partial_decode.common_header().verification_tag;
        let is_init: bool = match partial_decode.first_chunk_type() {
            Some(t) => t == CT_INIT,
            None => false,
        };
        let known_ch: Option<AssociationHandle> = if dst_cid > 0 {
            fx_get(&self.connection_ids, &dst_cid)
        } else if is_init {
            match partial_decode.initiate_tag() {
                Some(tag) => fx_get(&self.connection_ids, &tag),
                None => None,
            }
        } else {
            None
        };
        match known_ch {
            Some(ch) => {
                return Some(
                    (
                        ch,
                        DatagramEvent::AssociationEvent(
                            AssociationEvent(
                                AssociationEventInner::Datagram(
                                    Transmit {
                                        now,
                                        remote,
                                        ecn,
                                        payload: Payload::PartialDecode(partial_decode),
                                        local_ip,
                                    },
                                ),
                            ),
                        ),
                    ),
                );
            },
            None => {},
        }
        match self.handle_first_packet(now, remote, local_ip, ecn, partial_decode) {
            Some((ch, conn)) => Some((ch, DatagramEvent::NewAssociation(conn))),
            None => None,
        }
    }

    /// Initiates an association with the peer at `remote`, at the time
    /// `now`, under the identifier `local_aid`. `remote_aid` is kept as the
    /// identifier that the association began with.
    ///
    /// The association is made exactly if the endpoint has room for one
    /// more, the port of `remote` is not zero, and the identifier is not in
    /// use. The endpoint has room while no more than three quarters of the
    /// identifier space are in use and it holds fewer than `SLAB_LIMIT`
    /// associations.
    pub fn connect_with(
        &mut self,
        local_aid: AssociationId,
        remote_aid: AssociationId,
        config: ClientConfig,
        remote: SocketAddress,
        now: u64,
    ) -> (r: Result<(AssociationHandle, Association), ConnectError>)
        requires
            old(self)@.wf(),
        ensures
            final(self)@.wf(),
            final(self).waiting() == old(self).waiting(),
            final(self).server() == old(self).server(),
            final(self).configuration() == old(self).configuration(),
            r.is_ok() == (old(self)@.has_room() && remote.port != 0 && !old(self)@.ids.contains_key(
                local_aid,
            )),
            match r {
                Ok((ch, conn)) => {
                    &&& ch == AssociationHandle(old(self).next_handle())
                    &&& !old(self)@.metas.contains_key(ch.0)
                    &&& final(self)@ == old(self)@.added(ch.0, remote_aid, local_aid, remote)
                    &&& conn.wf()
                    &&& conn@ == AssociationView::created(
                        Side::Client,
                        config.transport.normalized(),
                        local_aid,
                        remote,
                        None,
                        now,
                        conn@.initial_tsn,
                        conn@.my_cookie,
                    )
                },
                Err(e) => {
                    &&& final(self)@ == old(self)@
                    &&& final(self).next_handle() == old(self).next_handle()
                    &&& e == (if old(self)@.has_room() && remote.port == 0 {
                        ConnectError::InvalidRemoteAddress(remote)
                    } else {
                        ConnectError::TooManyAssociations
                    })
                },
            },
    {
        proof {
            lemma_meta_views(slab_entries(self.connections));
        }
        if self.is_full() || slab_len(&self.connections) >= SLAB_LIMIT {
            return Err(ConnectError::TooManyAssociations);
        }
        if remote.port == 0 {
            return Err(ConnectError::InvalidRemoteAddress(remote));
        }
        if !self.is_unused(local_aid) {
            return Err(ConnectError::TooManyAssociations);
        }
        let (ch, conn) = self.add_connection(
            remote_aid,
            local_aid,
            remote,
            None,
            now,
            Side::Client,
            *config.transport,
        );
        Ok((ch, conn))
    }

    /// Initiates an association with the peer at `remote`, at the time `now`.
    ///
    /// Fails with `TooManyAssociations` if the endpoint has no room for one
    /// more or its generator makes no identifier that is not in use, and
    /// with `InvalidRemoteAddress` if the port of `remote` is zero. The
    /// endpoint has room while no more than three quarters of the
    /// identifier space are in use and it holds fewer than `SLAB_LIMIT`
    /// associations, a limit of its own beside that of the configuration.
    ///
    /// The identifier of the association is the generator's to make. So
    /// where the endpoint has room and the port is not zero, whether the
    /// association is made is up to the generator, but for one case: while
    /// no identifier is in use, whatever the generator makes will do. What
    /// is made with the identifier that the generator made is what
    /// `connect_with` says.
    pub fn connect(&mut self, config: ClientConfig, remote: SocketAddress, now: u64) -> (r: Result<
        (AssociationHandle, Association),
        ConnectError,
    >)
        requires
            old(self)@.wf(),
        ensures
            final(self)@.wf(),
            final(self).waiting() == old(self).waiting(),
            final(self).server() == old(self).server(),
            final(self).configuration() == old(self).configuration(),
            match r {
                Ok((ch, conn)) => {
                    &&& old(self)@.has_room()
                    &&& remote.port != 0
                    &&& ch == AssociationHandle(old(self).next_handle())
                    &&& !old(self)@.metas.contains_key(ch.0)
                    &&& !old(self)@.ids.contains_key(conn@.my_verification_tag)
                    &&& final(self)@.ids == old(self)@.ids.insert(conn@.my_verification_tag, ch)
                    &&& final(self)@.metas.dom() == old(self)@.metas.dom().insert(ch.0)
                    &&& final(self)@.metas[ch.0].loc_cids == Map::<u64, AssociationId>::empty().insert(
                        0,
                        conn@.my_verification_tag,
                    )
                    &&& final(self)@ == old(self)@.added(
                        ch.0,
                        final(self)@.metas[ch.0].init_cid,
                        conn@.my_verification_tag,
                        remote,
                    )
                    &&& conn.wf()
                    &&& conn@ == AssociationView::created(
                        Side::Client,
                        config.transport.normalized(),
                        conn@.my_verification_tag,
                        remote,
                        None,
                        now,
                        conn@.initial_tsn,
                        conn@.my_cookie,
                    )
                },
                Err(e) => {
                    &&& final(self)@ == old(self)@
                    &&& final(self).next_handle() == old(self).next_handle()
                    &&& e == (if old(self)@.has_room() && remote.port == 0 {
                        ConnectError::InvalidRemoteAddress(remote)
                    } else {
                        ConnectError::TooManyAssociations
                    })
                },
            },
            !old(self)@.has_room() || remote.port == 0 ==> r.is_err(),
            old(self)@.has_room() && remote.port != 0 && old(self)@.names_none() ==> r.is_ok(),
    {
        proof {
            lemma_meta_views(slab_entries(self.connections));
        }
        if self.is_full() || slab_len(&self.connections) >= SLAB_LIMIT {
            return Err(ConnectError::TooManyAssociations);
        }
        if remote.port == 0 {
            return Err(ConnectError::InvalidRemoteAddress(remote));
        }
        let remote_aid: AssociationId = RandomAssociationIdGenerator::new().generate_aid();
        let local_aid: AssociationId = match self.new_aid() {
            Some(id) => id,
            None => {
                return Err(ConnectError::TooManyAssociations);
            },
        };
        self.connect_with(local_aid, remote_aid, config, remote, now)
    }
}

} // verus!
