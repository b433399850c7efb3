//! The answering side of the protocol: what a node does with a request of
//! an established peer, and with a record that a peer sends.

use crate::exchange::{apply_record, Violation};
use crate::key::Key;
use crate::reconcile::{clamp, spec_clamp};
use crate::session::{
    CloseReason, PeerDescriptor, SessionAction, SessionConfig, SessionEvent, SessionState,
};
use crate::store::{key_numbers, seen, LoadResult, MemoryStore, StoreResult};
use vstd::prelude::*;

verus! {

/// What a peer may ask of a node.
#[derive(Clone, Debug)]
pub enum Request {
    /// Is the peer there?
    Ping,
    /// How many keys of the range does the node see as of the watermark?
    RangeCount { domain: String, start: Key, end: Key, watermark: i64 },
    /// Which keys of the range does the node see as of the watermark?
    KeyList { domain: String, start: Key, end: Key, watermark: i64 },
    /// What does the node hold for the key?
    RecordRequest { domain: String, key: Key },
    /// Here is a record that the node lacks.
    RecordPush { domain: String, key: Key, value: Vec<u8> },
}

/// What a node answers.
#[derive(Clone, Debug)]
pub enum Response {
    /// The answer to a ping.
    Pong,
    /// The count, and the watermark that it was taken with.
    RangeCount { count: u64, watermark: i64 },
    /// The keys, in rising order.
    KeyList { keys: Vec<Key> },
    /// The value held for the key.
    Record { value: Vec<u8> },
    /// Nothing is held for the key.
    NotFound,
}

impl Request {
    /// The data set that the request is about, if it is about one.
    pub open spec fn spec_domain(self) -> Option<Seq<char>> {
        match self {
            Request::Ping => None,
            Request::RangeCount { domain, .. } => Some(domain@),
            Request::KeyList { domain, .. } => Some(domain@),
            Request::RecordRequest { domain, .. } => Some(domain@),
            Request::RecordPush { domain, .. } => Some(domain@),
        }
    }

    /// Whether the request breaks the protocol when it reaches a node whose
    /// store holds the data set `domain` and admits values of up to `cap`
    /// bytes: it names another data set, or carries a larger value.
    pub open spec fn breaks(self, domain: Seq<char>, cap: nat) -> bool {
        ||| self.spec_domain() matches Some(d) && d != domain
        ||| self matches Request::RecordPush { value, .. } && value@.len() > cap
    }
}

/// Takes in a record that the peer sent, as a push or as the answer to a
/// request, at time `now`. A value larger than the store admits leaves the
/// store as it was and ends the session for breach of the protocol; any
/// other record is stored and counts as a sign of life.
pub fn receive_record(
    store: &mut MemoryStore,
    peer: &mut PeerDescriptor,
    now: i64,
    key: &Key,
    value: &[u8],
    config: &SessionConfig,
) -> (r: (Result<StoreResult, Violation>, SessionAction))
    requires
        old(store).wf(),
    ensures
        final(store).wf(),
        final(store).spec_domain() == old(store).spec_domain(),
        final(store).spec_max_value_size() == old(store).spec_max_value_size(),
        r.0 is Err <==> value@.len() > old(store).spec_max_value_size(),
        r.0 matches Err(e) ==> e == Violation::OversizedValue && final(store)@ == old(store)@ && (
        final(peer)@, r.1) == old(peer)@.step(now, SessionEvent::Violation, *config),
        r.0 matches Ok(outcome) ==> outcome == old(store).spec_store_result(key@, value@)
            && final(store)@ == old(store).spec_store(now, key@, value@)
            && (final(peer)@, r.1) == old(peer)@.step(now, SessionEvent::Traffic, *config),
{
    match apply_record(store, now, key, value) {
        Err(e) => {
            let action = peer.step(now, SessionEvent::Violation, config);
            (Err(e), action)
        },
        Ok(outcome) => {
            let action = peer.step(now, SessionEvent::Traffic, config);
            (Ok(outcome), action)
        },
    }
}

/// A record that exceeds what the store admits ends an established
/// session for breach of the protocol, and the transport is shut down.
pub proof fn lemma_oversized_closes(
    peer: crate::session::PeerView,
    now: i64,
    config: SessionConfig,
)
    requires
        peer.live(),
    ensures
        peer.step(now, SessionEvent::Violation, config).0.state == SessionState::Closing,
        peer.step(now, SessionEvent::Violation, config).0.reason == Some(
            CloseReason::ProtocolViolation,
        ),
        peer.step(now, SessionEvent::Violation, config).1 == SessionAction::Disconnect,
{
}

/// Answers `request` at time `now`, which is also the clock of the store.
/// A request that names another data set than the store's, or pushes a
/// value larger than the store admits, breaks the protocol: it is not
/// answered and leaves the store as it was. Counts and key lists are taken
/// as of the smaller of the watermark asked for and `now`.
pub fn answer(store: &mut MemoryStore, now: i64, request: Request) -> (r: Result<
    Option<Response>,
    Violation,
>)
    requires
        old(store).wf(),
    ensures
        final(store).wf(),
        final(store).spec_domain() == old(store).spec_domain(),
        final(store).spec_max_value_size() == old(store).spec_max_value_size(),
        r is Err <==> request.breaks(old(store).spec_domain(), old(store).spec_max_value_size()),
        r matches Err(e) ==> final(store)@ == old(store)@ && e == (if request.spec_domain()
            != Some(old(store).spec_domain()) {
            Violation::WrongDomain
        } else {
            Violation::OversizedValue
        }),
        r matches Ok(response) ==> answers(old(store), final(store), now, request, response),
{
    match request {
        Request::Ping => Ok(Some(Response::Pong)),
        Request::RangeCount { domain, start, end, watermark } => {
            if !store.is_domain(&domain) {
                return Err(Violation::WrongDomain);
            }
            let w = clamp(watermark, now);
            let count = store.count(w, &start, &end);
            Ok(Some(Response::RangeCount { count, watermark: w }))
        },
        Request::KeyList { domain, start, end, watermark } => {
            if !store.is_domain(&domain) {
                return Err(Violation::WrongDomain);
            }
            let w = clamp(watermark, now);
            let keys = store.key_list(w, &start, &end);
            Ok(Some(Response::KeyList { keys }))
        },
        Request::RecordRequest { domain, key } => {
            if !store.is_domain(&domain) {
                return Err(Violation::WrongDomain);
            }
            match store.load(now, &key) {
                LoadResult::Found(value) => Ok(Some(Response::Record { value })),
                LoadResult::NotFound => Ok(Some(Response::NotFound)),
            }
        },
        Request::RecordPush { domain, key, value } => {
            if !store.is_domain(&domain) {
                return Err(Violation::WrongDomain);
            }
            match apply_record(store, now, &key, value.as_slice()) {
                Ok(_) => Ok(None),
                Err(e) => Err(e),
            }
        },
    }
}

/// Answers `request` of the peer at time `now`, which is also the clock of
/// the store. A request that reaches a session which is not established,
/// or that breaks the protocol, is not answered, leaves the store as it
/// was, and ends the session. Any other request counts as a sign of life.
pub fn serve(
    store: &mut MemoryStore,
    peer: &mut PeerDescriptor,
    now: i64,
    request: Request,
    config: &SessionConfig,
) -> (r: (Option<Response>, SessionAction))
    requires
        old(store).wf(),
    ensures
        final(store).wf(),
        final(store).spec_domain() == old(store).spec_domain(),
        final(store).spec_max_value_size() == old(store).spec_max_value_size(),
        ({
            let refused = old(peer)@.state != SessionState::Established || request.breaks(
                old(store).spec_domain(),
                old(store).spec_max_value_size(),
            );
            &&& refused ==> r.0 is None && final(store)@ == old(store)@ && (final(peer)@, r.1)
                == old(peer)@.step(now, SessionEvent::Violation, *config)
            &&& !refused ==> (final(peer)@, r.1) == old(peer)@.step(
                now,
                SessionEvent::Traffic,
                *config,
            ) && answers(old(store), final(store), now, request, r.0)
        }),
{
    if peer.state() != SessionState::Established {
        let action = peer.step(now, SessionEvent::Violation, config);
        return (None, action);
    }
    match answer(store, now, request) {
        Ok(response) => {
            let action = peer.step(now, SessionEvent::Traffic, config);
            (response, action)
        },
        Err(_) => {
            let action = peer.step(now, SessionEvent::Violation, config);
            (None, action)
        },
    }
}

/// Whether `response` is the answer to a `request` that does not break the
/// protocol, and `after` the store that it leaves.
pub open spec fn answers(
    before: &MemoryStore,
    after: &MemoryStore,
    now: i64,
    request: Request,
    response: Option<Response>,
) -> bool {
    match request {
        Request::Ping => after@ == before@ && response matches Some(Response::Pong),
        Request::RangeCount { start, end, watermark, .. } => {
            let w = spec_clamp(watermark, now);
            &&& after@ == before@
            &&& response matches Some(Response::RangeCount { count, watermark: used })
            &&& used == w
            &&& count == before.keys_in(w, start@, end@).len()
        },
        Request::KeyList { start, end, watermark, .. } => {
            let w = spec_clamp(watermark, now);
            &&& after@ == before@
            &&& response matches Some(Response::KeyList { keys })
            &&& before.lists_keys(w, start@, end@, key_numbers(keys@))
        },
        Request::RecordRequest { key, .. } => {
            &&& after@ == before@
            &&& if seen(before@, now, key@) {
                response matches Some(Response::Record { value }) && value@ == before@[key@].value
            } else {
                response matches Some(Response::NotFound)
            }
        },
        Request::RecordPush { key, value, .. } => {
            &&& response is None
            &&& after@ == before.spec_store(now, key@, value@)
        },
    }
}

} // verus!
