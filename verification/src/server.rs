//! The per-message decisions of the two message loops and the supervisor
//! rule.
//!
//! The surrounding process owns the broker connection and the local
//! listener; it feeds each bus event to `subscription_step` and each
//! client's bytes to `command_step`, holding the cache's guard only for the
//! call, and publishes what `command_step` hands back after releasing the
//! guard. The supervisor runs both loops concurrently and the first one to
//! stop decides the server's outcome; the other loop is abandoned.

use crate::codec::decode_state;
use crate::codec::encode_delta;
use crate::codec::spec_decode_state;
use crate::codec::spec_encode_delta;
use crate::ipc::decode_message;
use crate::ipc::spec_decode_message;
use crate::state::cache_apply;
use crate::state::cache_delta_result;
use crate::state::StateCache;
use crate::ServerError;
use vstd::prelude::*;

verus! {

/// The bytes appended to the base topic to address the device's command
/// channel.
pub open spec fn set_suffix() -> Seq<u8> {
    seq![47u8, 115u8, 101u8, 116u8]
}

/// The deterministic sub-topic updates are published to: the base topic with
/// `/set` appended.
pub fn set_topic(base: &[u8]) -> (r: Vec<u8>)
    ensures
        r@ == base@ + set_suffix(),
{
    let mut v: Vec<u8> = Vec::new();
    let mut i: usize = 0;
    while i < base.len()
        invariant
            i <= base@.len(),
            v@ == base@.subrange(0, i as int),
        decreases base@.len() - i,
    {
        v.push(base[i]);
        proof {
            assert(v@ =~= base@.subrange(0, i as int + 1));
        }
        i = i + 1;
    }
    proof {
        assert(v@ =~= base@);
    }
    v.push(47u8);
    v.push(115u8);
    v.push(101u8);
    v.push(116u8);
    proof {
        assert(v@ =~= base@ + set_suffix());
    }
    v
}

/// Which loop stopped first, and with what error. Both loops are meant to
/// run forever, so a loop only ever terminates by reporting an error.
#[derive(Clone, Copy, Debug, PartialEq, Eq, Structural)]
pub enum LoopExit {
    /// The command loop stopped: a malformed or unresolvable command, a lost
    /// local listener, or a failed publish.
    Command(ServerError),
    /// The subscription loop stopped: a malformed report or a closed stream.
    Subscription(ServerError),
}

/// The error the first-stopping loop carried, whichever loop it was.
pub open spec fn spec_server_outcome(first: LoopExit) -> ServerError {
    match first {
        LoopExit::Command(e) => e,
        LoopExit::Subscription(e) => e,
    }
}

/// The supervisor rule: the first loop to stop decides the whole server's
/// outcome, and its error is propagated unchanged as the terminal result.
pub fn server_outcome(first: &LoopExit) -> (r: ServerError)
    ensures
        r == spec_server_outcome(*first),
{
    match *first {
        LoopExit::Command(e) => e,
        LoopExit::Subscription(e) => e,
    }
}

/// One event seen by the subscription loop: a report payload from the bus,
/// or the clean end of the report stream.
#[derive(Debug, PartialEq, Eq)]
pub enum BusEvent {
    Report(Vec<u8>),
    Closed,
}

/// One step of the subscription loop: decode a device-state report and
/// overwrite the cache wholesale, or stop the loop. A report that does not
/// decode is unrecoverable (`MalformedState`): silently keeping a stale
/// cache would be worse than stopping. A cleanly closed stream surfaces
/// `SubscriptionEnded`, which is abnormal for a long-lived daemon.
pub fn subscription_step(cache: &mut StateCache, event: &BusEvent) -> (r: Result<
    (),
    ServerError,
>)
    ensures
        match *event {
            BusEvent::Report(payload) => match spec_decode_state(payload@) {
                Some(s) => r == Ok::<(), ServerError>(()) && final(cache).cached() == Some(s),
                None => r == Err::<(), ServerError>(ServerError::MalformedState)
                    && final(cache).cached() == old(cache).cached(),
            },
            BusEvent::Closed => r == Err::<(), ServerError>(ServerError::SubscriptionEnded)
                && final(cache).cached() == old(cache).cached(),
        },
{
    match event {
        BusEvent::Report(payload) => match decode_state(payload.as_slice()) {
            Ok(s) => {
                cache.replace(s);
                Ok(())
            },
            Err(e) => Err(e),
        },
        BusEvent::Closed => Err(ServerError::SubscriptionEnded),
    }
}

/// One step of the command loop, from one client's bytes to the payload to
/// publish: decode the command, apply it against the cache under the
/// optimistic policy, and encode the resulting sparse update. Any failure
/// (`MalformedCommand`, `StateNotYetKnown`) stops the loop and leaves the
/// cache as it was.
pub fn command_step(cache: &mut StateCache, raw: &[u8]) -> (r: Result<Vec<u8>, ServerError>)
    ensures
        match spec_decode_message(raw@) {
            Some(cmd) => {
                &&& final(cache).cached() == cache_apply(old(cache).cached(), cmd)
                &&& match cache_delta_result(old(cache).cached(), cmd) {
                    Ok(delta) => r matches Ok(v) && v@ == spec_encode_delta(delta),
                    Err(e) => r == Err::<Vec<u8>, ServerError>(e),
                }
            },
            None => r == Err::<Vec<u8>, ServerError>(ServerError::MalformedCommand)
                && final(cache).cached() == old(cache).cached(),
        },
{
    let cmd = match decode_message(raw) {
        Ok(c) => c,
        Err(e) => {
            return Err(e);
        },
    };
    let delta = match cache.apply(&cmd) {
        Ok(d) => d,
        Err(e) => {
            return Err(e);
        },
    };
    Ok(encode_delta(&delta))
}

} // verus!
