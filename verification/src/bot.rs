//! The decisions of the bot's main loop: which challenges to hand to the
//! miners, when to stop, and what to send to the server.

use vstd::prelude::*;
use uuid::Uuid;
use crate::miner::{MineRequest, MineResult};

verus! {

/// The server messages the main loop reacts to.
pub enum ServerEvent {
    /// A proof-of-work challenge for a resource.
    PowChallenge { tick: u64, seed: String, resource_id: Uuid, target_bits: u8 },
    /// A team has won the game.
    Win { team: String },
    /// Any other message.
    Other,
}

/// What the main loop does about a server event.
pub enum LoopStep {
    /// Hand this challenge to the miners.
    Mine(MineRequest),
    /// The game is over: `team` won.
    Stop { team: String },
    /// Nothing to do.
    Continue,
}

/// A message the bot sends to the server.
pub enum ClientCommand {
    /// A solved challenge.
    PowSubmit { tick: u64, resource_id: Uuid, nonce: u64 },
    /// A move by `(dx, dy)`.
    Move { dx: i8, dy: i8 },
}

/// The state the main loop keeps between events.
pub struct BotLoop {
    pub agent_id: Uuid,
    /// The tick of the latest challenge handed to the miners (0 before any).
    pub last_tick: u64,
}

impl BotLoop {
    pub fn new(agent_id: Uuid) -> (b: Self)
        ensures
            b.agent_id == agent_id,
            b.last_tick == 0,
    {
        BotLoop { agent_id, last_tick: 0 }
    }

    /// Reacts to a server event. A challenge newer than every challenge seen
    /// so far goes to the miners, on behalf of this agent; older ones are
    /// dropped. A win ends the loop.
    pub fn on_event(&mut self, event: ServerEvent) -> (step: LoopStep)
        ensures
            final(self).agent_id == old(self).agent_id,
            final(self).last_tick >= old(self).last_tick,
            match event {
                ServerEvent::PowChallenge { tick, seed, resource_id, target_bits } => {
                    if tick > old(self).last_tick {
                        &&& step == LoopStep::Mine(
                            MineRequest {
                                seed,
                                tick,
                                resource_id,
                                agent_id: old(self).agent_id,
                                target_bits,
                            },
                        )
                        &&& final(self).last_tick == tick
                    } else {
                        &&& step is Continue
                        &&& final(self).last_tick == old(self).last_tick
                    }
                },
                ServerEvent::Win { team } => {
                    &&& step == (LoopStep::Stop { team })
                    &&& final(self).last_tick == old(self).last_tick
                },
                ServerEvent::Other => {
                    &&& step is Continue
                    &&& final(self).last_tick == old(self).last_tick
                },
            },
    {
        match event {
            ServerEvent::PowChallenge { tick, seed, resource_id, target_bits } => {
                if tick > self.last_tick {
                    self.last_tick = tick;
                    LoopStep::Mine(
                        MineRequest { seed, tick, resource_id, agent_id: self.agent_id, target_bits },
                    )
                } else {
                    LoopStep::Continue
                }
            },
            ServerEvent::Win { team } => LoopStep::Stop { team },
            ServerEvent::Other => LoopStep::Continue,
        }
    }
}

/// The message that submits a solved challenge.
pub fn submission(result: MineResult) -> (c: ClientCommand)
    ensures
        c == (ClientCommand::PowSubmit {
            tick: result.tick,
            resource_id: result.resource_id,
            nonce: result.nonce,
        }),
{
    ClientCommand::PowSubmit { tick: result.tick, resource_id: result.resource_id, nonce: result.nonce }
}

/// The message for the move a strategy proposed, if it proposed one.
pub fn move_command(m: Option<(i8, i8)>) -> (c: Option<ClientCommand>)
    ensures
        match m {
            Some((dx, dy)) => c == Some(ClientCommand::Move { dx, dy }),
            None => c is None,
        },
{
    match m {
        Some((dx, dy)) => Some(ClientCommand::Move { dx, dy }),
        None => None,
    }
}

} // verus!
