//! The per-connection session: a state machine from transport events to
//! registry updates and planned deliveries.
//!
//! The embedding program owns the transport. For every connection it runs
//! one task that blocks on `receive()`, turns the outcome into an
//! [`Event`], and calls [`session_step`] while holding the registry lock;
//! it then performs the returned deliveries and continues with the
//! returned state until that state is [`SessionState::Terminated`].
//!
//! A mid-stream receive error is treated exactly like end of stream: the
//! session unregisters its nickname and announces the departure, so no
//! unreachable entry can linger in the registry after a read error.

use crate::registry::deliveries_model;
use crate::registry::fanout;
use crate::registry::handles;
use crate::registry::has_nick;
use crate::registry::register_model;
use crate::registry::remove_model;
use crate::registry::Delivery;
use crate::registry::RegisterOutcome;
use crate::registry::Registry;
use vstd::prelude::*;
use vstd::string::StringExecFns;
use vstd::utf8::decode_utf8;
use vstd::utf8::valid_utf8;

verus! {

/// Upper bound, in bytes, on a candidate nickname.
pub const MAX_NICKNAME_BYTES: usize = 32;

/// The text that the lossy UTF-8 decoding of `b` yields.
pub uninterp spec fn lossy_of(b: Seq<u8>) -> Seq<char>;

/// Relies on `String::from_utf8_lossy`: the result is a function of the
/// bytes alone, and on valid UTF-8 it is plain UTF-8 decoding (invalid
/// sequences are replaced, never rejected).
#[verifier::external_body]
fn lossy_utf8(b: &Vec<u8>) -> (s: String)
    ensures
        s@ == lossy_of(b@),
        valid_utf8(b@) ==> s@ == decode_utf8(b@),
{
    String::from_utf8_lossy(b).into_owned()
}

/// Rejection sent to a client whose first chunk is longer than
/// [`MAX_NICKNAME_BYTES`] bytes.
pub open spec fn oversize_text() -> Seq<char> {
    "Maximum nickname size is 32"@
}

/// Rejection sent to a client whose nickname `n` is already taken.
pub open spec fn exists_text(n: Seq<char>) -> Seq<char> {
    n + " already exists"@
}

/// Announcement broadcast when the client named `n` joins.
pub open spec fn joined_text(n: Seq<char>) -> Seq<char> {
    n + " has joined!"@
}

/// Announcement broadcast when the client named `n` leaves.
pub open spec fn left_text(n: Seq<char>) -> Seq<char> {
    n + " has left!"@
}

/// State of one connection session.
pub enum SessionState {
    /// No handshake yet: the next chunk is the candidate nickname.
    Unregistered,
    /// Handshake done: `nickname` is registered and every further chunk
    /// is relayed to all registered clients.
    Registered { nickname: String },
    /// Final, absorbing state: the connection is done.
    Terminated,
}

/// Outcome of one blocking `receive()` on the session's transport.
pub enum Event {
    /// A chunk of bytes arrived.
    Chunk(Vec<u8>),
    /// The peer closed the stream.
    EndOfStream,
    /// Receiving failed.
    IoError,
}

/// One step of the session state machine.
///
/// Decides, from the session state and one transport event, the next
/// session state, how the shared registry changes, and which messages
/// must be written to which clients. The embedding program calls this
/// under the registry lock, so steps of concurrent sessions are totally
/// ordered and each step sees and leaves a consistent registry.
///
/// In `Unregistered`, a chunk is the candidate nickname: it is rejected
/// when longer than [`MAX_NICKNAME_BYTES`] bytes or already registered
/// (each with its one explanatory message to the client itself), and
/// otherwise registered and announced to every registered client, the
/// new one included. In `Registered`, a chunk is relayed verbatim (after
/// lossy UTF-8 decoding) to every registered client, the sender
/// included; end of stream and read errors both unregister the nickname
/// and announce the departure to the remaining clients.
pub fn session_step(
    state: SessionState,
    self_handle: u64,
    event: Event,
    registry: &mut Registry,
) -> (r: (SessionState, Vec<Delivery>))
    requires
        old(registry).wf(),
    ensures
        final(registry).wf(),
        state is Terminated ==> final(registry).model() == old(registry).model() && r.0
            is Terminated && r.1@.len() == 0,
        state is Unregistered && !(event is Chunk) ==> final(registry).model() == old(
            registry,
        ).model() && r.0 is Terminated && r.1@.len() == 0,
        state is Unregistered ==> (event matches Event::Chunk(c) ==> {
            let m0 = old(registry).model();
            let n = lossy_of(c@);
            if c@.len() > MAX_NICKNAME_BYTES {
                &&& final(registry).model() == m0
                &&& r.0 is Terminated
                &&& deliveries_model(r.1@) == seq![(self_handle, oversize_text())]
            } else if has_nick(m0, n) {
                &&& final(registry).model() == m0
                &&& r.0 is Terminated
                &&& deliveries_model(r.1@) == seq![(self_handle, exists_text(n))]
            } else {
                &&& final(registry).model() == m0.push((n, self_handle))
                &&& r.0 matches SessionState::Registered { nickname } && nickname@ == n
                &&& deliveries_model(r.1@) == fanout(
                    handles(final(registry).model()),
                    joined_text(n),
                )
            }
        }),
        state matches SessionState::Registered { nickname } ==> (event matches Event::Chunk(c)
            ==> {
            &&& final(registry).model() == old(registry).model()
            &&& r.0 matches SessionState::Registered { nickname: n2 } && n2@ == nickname@
            &&& deliveries_model(r.1@) == fanout(
                handles(old(registry).model()),
                lossy_of(c@),
            )
        }),
        state matches SessionState::Registered { nickname } ==> (!(event is Chunk) ==> {
            &&& final(registry).model() == remove_model(old(registry).model(), nickname@)
            &&& r.0 is Terminated
            &&& deliveries_model(r.1@) == fanout(
                handles(final(registry).model()),
                left_text(nickname@),
            )
        }),
{
    match state {
        SessionState::Terminated => (SessionState::Terminated, Vec::new()),
        SessionState::Unregistered => match event {
            Event::EndOfStream => (SessionState::Terminated, Vec::new()),
            Event::IoError => (SessionState::Terminated, Vec::new()),
            Event::Chunk(c) => {
                if c.len() > MAX_NICKNAME_BYTES {
                    let mut ds: Vec<Delivery> = Vec::new();
                    let reject: &str = "Maximum nickname size is 32";
                    ds.push(Delivery { to: self_handle, message: reject.to_owned() });
                    proof {
                        assert(deliveries_model(ds@) =~= seq![(self_handle, oversize_text())]);
                    }
                    (SessionState::Terminated, ds)
                } else {
                    let nick = lossy_utf8(&c);
                    match registry.try_register(nick.clone(), self_handle) {
                        RegisterOutcome::AlreadyExists => {
                            let mut ds: Vec<Delivery> = Vec::new();
                            ds.push(
                                Delivery { to: self_handle, message: nick.concat(" already exists") },
                            );
                            proof {
                                assert(deliveries_model(ds@) =~= seq![
                                    (self_handle, exists_text(lossy_of(c@))),
                                ]);
                            }
                            (SessionState::Terminated, ds)
                        },
                        RegisterOutcome::Registered => {
                            let msg = nick.clone().concat(" has joined!");
                            let ds = registry.broadcast(&msg, Option::None);
                            (SessionState::Registered { nickname: nick }, ds)
                        },
                    }
                }
            },
        },
        SessionState::Registered { nickname } => match event {
            Event::Chunk(c) => {
                let msg = lossy_utf8(&c);
                let ds = registry.broadcast(&msg, Option::None);
                (SessionState::Registered { nickname }, ds)
            },
            Event::EndOfStream => {
                registry.unregister(&nickname);
                let msg = nickname.clone().concat(" has left!");
                let ds = registry.broadcast(&msg, Option::None);
                (SessionState::Terminated, ds)
            },
            Event::IoError => {
                registry.unregister(&nickname);
                let msg = nickname.clone().concat(" has left!");
                let ds = registry.broadcast(&msg, Option::None);
                (SessionState::Terminated, ds)
            },
        },
    }
}

} // verus!
