use vstd::prelude::*;

use crate::packets::Packet;

verus! {

/// An event armed to fire after a delay; the engine polls for due ones.
#[derive(Clone, Debug, PartialEq)]
pub enum ScheduledEvent {
    ResendUnackedPacket(Packet),
}

} // verus!
