//! The device state, the delta computation for each command, and the
//! authoritative cache of the last reported state.
//!
//! The cache follows the optimistic policy: applying a command mutates the
//! cached state immediately, so a rapid second command composes against the
//! just-applied value rather than the stale device-reported one. The cost is
//! possible drift: if the publish fails, or the device rejects the change,
//! the cache disagrees with the device until its next report overwrites the
//! cache wholesale.

use crate::ipc::Message;
use crate::ServerError;
use vstd::prelude::*;

verus! {

/// The configured maximum permitted brightness. Increasing brightness
/// saturates here; decreasing saturates at zero.
pub const BRIGHTNESS_CEILING: usize = 1000;

/// The device's power switch as it appears in state reports.
#[derive(Clone, Copy, Debug, PartialEq, Eq, Structural)]
pub enum Power {
    On,
    Off,
}

/// The last state the device reported: a full snapshot, overwritten
/// wholesale by each report, never partially merged.
#[derive(Clone, Copy, Debug, PartialEq, Eq, Structural)]
pub struct LightState {
    pub power: Power,
    pub brightness: usize,
    pub color_temp: usize,
}

/// A sparse update: only the fields to change are present, and absent fields
/// are omitted from the wire encoding. Built once per command, published,
/// then discarded.
#[derive(Clone, Copy, Debug, PartialEq, Eq)]
pub struct LightStateChange {
    pub power: Option<Power>,
    pub brightness: Option<usize>,
    pub color_temp: Option<usize>,
}

/// Brightness after dimming by `n`: `max(b - n, 0)`, never negative.
pub open spec fn dim_brightness(b: usize, n: usize) -> usize {
    if b >= n {
        (b - n) as usize
    } else {
        0
    }
}

/// Brightness after brightening by `n`: `min(b + n, BRIGHTNESS_CEILING)`,
/// never above the ceiling and never overflowing.
pub open spec fn brighten_brightness(b: usize, n: usize) -> usize {
    if b + n <= BRIGHTNESS_CEILING {
        (b + n) as usize
    } else {
        BRIGHTNESS_CEILING
    }
}

/// The cached state after a command is applied to a known state.
pub open spec fn apply_command(s: LightState, cmd: Message) -> LightState {
    match cmd {
        Message::On => LightState { power: Power::On, ..s },
        Message::Off => LightState { power: Power::Off, ..s },
        Message::Dim(n) => LightState { brightness: dim_brightness(s.brightness, n), ..s },
        Message::Brighten(n) => LightState { brightness: brighten_brightness(s.brightness, n), ..s },
        Message::SetBrightness(v) => LightState { brightness: v, ..s },
    }
}

/// The sparse update a command emits against a known state: exactly the one
/// field the command changes, at its new absolute value.
pub open spec fn command_delta(s: LightState, cmd: Message) -> LightStateChange {
    match cmd {
        Message::On => LightStateChange { power: Some(Power::On), brightness: None, color_temp: None },
        Message::Off => LightStateChange { power: Some(Power::Off), brightness: None, color_temp: None },
        Message::Dim(n) => LightStateChange {
            power: None,
            brightness: Some(dim_brightness(s.brightness, n)),
            color_temp: None,
        },
        Message::Brighten(n) => LightStateChange {
            power: None,
            brightness: Some(brighten_brightness(s.brightness, n)),
            color_temp: None,
        },
        Message::SetBrightness(v) => LightStateChange {
            power: None,
            brightness: Some(v),
            color_temp: None,
        },
    }
}

/// Whether a command can only be resolved against a known device state.
/// Relative brightness changes need the prior brightness; switching power or
/// setting an absolute brightness does not.
pub open spec fn needs_known_state(cmd: Message) -> bool {
    cmd is Dim || cmd is Brighten
}

/// The cache after a command: a known state is updated in place (the
/// optimistic policy); an absent one stays absent, since only a device
/// report can establish a full snapshot.
pub open spec fn cache_apply(c: Option<LightState>, cmd: Message) -> Option<LightState> {
    match c {
        Some(s) => Some(apply_command(s, cmd)),
        None => None,
    }
}

/// What applying a command against a cache yields: the delta to publish, or
/// `StateNotYetKnown` for a relative command before the first device report.
pub open spec fn cache_delta_result(c: Option<LightState>, cmd: Message) -> Result<
    LightStateChange,
    ServerError,
> {
    match c {
        Some(s) => Ok(command_delta(s, cmd)),
        None => match cmd {
            Message::On => Ok(
                LightStateChange { power: Some(Power::On), brightness: None, color_temp: None },
            ),
            Message::Off => Ok(
                LightStateChange { power: Some(Power::Off), brightness: None, color_temp: None },
            ),
            Message::SetBrightness(v) => Ok(
                LightStateChange { power: None, brightness: Some(v), color_temp: None },
            ),
            Message::Dim(_) => Err(ServerError::StateNotYetKnown),
            Message::Brighten(_) => Err(ServerError::StateNotYetKnown),
        },
    }
}

impl LightState {
    /// Computes the sparse update a command asks for and applies it to this
    /// state in the same step (the optimistic policy).
    pub fn compute_and_aplly_change(&mut self, cmd: &Message) -> (r: LightStateChange)
        ensures
            *final(self) == apply_command(*old(self), *cmd),
            r == command_delta(*old(self), *cmd),
    {
        match *cmd {
            Message::On => {
                self.power = Power::On;
                LightStateChange { power: Some(Power::On), brightness: None, color_temp: None }
            },
            Message::Off => {
                self.power = Power::Off;
                LightStateChange { power: Some(Power::Off), brightness: None, color_temp: None }
            },
            Message::Dim(n) => {
                let brightness = if self.brightness >= n {
                    self.brightness - n
                } else {
                    0
                };
                self.brightness = brightness;
                LightStateChange { power: None, brightness: Some(brightness), color_temp: None }
            },
            Message::Brighten(n) => {
                let brightness = if self.brightness >= BRIGHTNESS_CEILING {
                    BRIGHTNESS_CEILING
                } else if n >= BRIGHTNESS_CEILING - self.brightness {
                    BRIGHTNESS_CEILING
                } else {
                    self.brightness + n
                };
                self.brightness = brightness;
                LightStateChange { power: None, brightness: Some(brightness), color_temp: None }
            },
            Message::SetBrightness(v) => {
                self.brightness = v;
                LightStateChange { power: None, brightness: Some(v), color_temp: None }
            },
        }
    }
}

/// The authoritative cache of the device's last reported state: absent until
/// the first report arrives, then a full snapshot. The surrounding process
/// must guard it with a mutual-exclusion primitive; each operation here is a
/// single read-modify-write, so holding the guard just for the call keeps
/// the critical section minimal.
pub struct StateCache {
    state: Option<LightState>,
}

impl StateCache {
    /// The cached snapshot, if the device has reported yet.
    pub closed spec fn cached(self) -> Option<LightState> {
        self.state
    }

    /// An empty cache: the device has not reported.
    pub fn new() -> (c: Self)
        ensures
            c.cached() is None,
    {
        StateCache { state: None }
    }

    /// A non-mutating snapshot of the cached state.
    pub fn read(&self) -> (r: Option<LightState>)
        ensures
            r == self.cached(),
    {
        self.state
    }

    /// Overwrites the cache wholesale with a freshly reported state (the
    /// subscription path).
    pub fn replace(&mut self, new: LightState)
        ensures
            final(self).cached() == Some(new),
    {
        self.state = Some(new);
    }

    /// Applies one command against the cache (the command path): updates the
    /// cached state under the optimistic policy and returns the delta to
    /// publish, or reports why the command cannot be resolved.
    pub fn apply(&mut self, cmd: &Message) -> (r: Result<LightStateChange, ServerError>)
        ensures
            final(self).cached() == cache_apply(old(self).cached(), *cmd),
            r == cache_delta_result(old(self).cached(), *cmd),
    {
        match &mut self.state {
            Some(s) => Ok(s.compute_and_aplly_change(cmd)),
            None => match *cmd {
                Message::On => Ok(
                    LightStateChange { power: Some(Power::On), brightness: None, color_temp: None },
                ),
                Message::Off => Ok(
                    LightStateChange {
                        power: Some(Power::Off),
                        brightness: None,
                        color_temp: None,
                    },
                ),
                Message::SetBrightness(v) => Ok(
                    LightStateChange { power: None, brightness: Some(v), color_temp: None },
                ),
                Message::Dim(_) => Err(ServerError::StateNotYetKnown),
                Message::Brighten(_) => Err(ServerError::StateNotYetKnown),
            },
        }
    }
}

/// Dimming never raises brightness and never goes below zero; dimming by at
/// least the current brightness lands exactly on zero.
pub proof fn lemma_dim_bounded(b: usize, n: usize)
    ensures
        dim_brightness(b, n) <= b,
        n >= b ==> dim_brightness(b, n) == 0,
{
}

/// Brightening never exceeds the ceiling, and never loses an increase that
/// fits under it.
pub proof fn lemma_brighten_bounded(b: usize, n: usize)
    ensures
        brighten_brightness(b, n) <= BRIGHTNESS_CEILING,
        b + n <= BRIGHTNESS_CEILING ==> brighten_brightness(b, n) == b + n,
{
}

/// Setting an absolute brightness lands exactly on the requested value, no
/// matter what was cached before.
pub proof fn lemma_set_brightness_exact(s: LightState, v: usize)
    ensures
        apply_command(s, Message::SetBrightness(v)).brightness == v,
        command_delta(s, Message::SetBrightness(v)).brightness == Some(v),
{
}

/// The cached state after a whole sequence of commands, applied one at a
/// time in order.
pub open spec fn apply_commands(s: LightState, cmds: Seq<Message>) -> LightState
    decreases cmds.len(),
{
    if cmds.len() == 0 {
        s
    } else {
        apply_commands(apply_command(s, cmds[0]), cmds.drop_first())
    }
}

/// No lost updates: whenever each step of an execution applies one command
/// to the state the previous step left behind — which is exactly what the
/// mutual-exclusion discipline on the cache enforces, in lock-acquisition
/// order — the final state is the sequential application of the whole
/// command sequence to the initial state.
pub proof fn lemma_no_lost_updates(states: Seq<LightState>, cmds: Seq<Message>)
    requires
        states.len() == cmds.len() + 1,
        forall|i: int|
            0 <= i < cmds.len() ==> states[i + 1] == apply_command(states[i], #[trigger] cmds[i]),
    ensures
        states.last() == apply_commands(states.first(), cmds),
    decreases cmds.len(),
{
    if cmds.len() == 0 {
    } else {
        let states2 = states.drop_first();
        let cmds2 = cmds.drop_first();
        assert forall|i: int|
            0 <= i < cmds2.len() implies states2[i + 1] == apply_command(
            states2[i],
            #[trigger] cmds2[i],
        ) by {
            assert(cmds2[i] == cmds[i + 1]);
            assert(states2[i] == states[i + 1]);
            assert(states2[i + 1] == states[i + 2]);
        }
        lemma_no_lost_updates(states2, cmds2);
        assert(states2.first() == apply_command(states.first(), cmds[0]));
        assert(states2.last() == states.last());
    }
}

} // verus!
