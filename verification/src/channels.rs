//! Trusted declarations for the crossbeam channel primitives the links are
//! made of. The endpoints are opaque handles here: the wiring logic is
//! verified over which node holds which endpoint, never over a channel's
//! internal state.

use vstd::prelude::*;
use crate::protocol::DroneCommand;

verus! {

/// crossbeam_channel's sending endpoint, opaque to verification.
#[verifier::external_type_specification]
#[verifier::external_body]
#[verifier::reject_recursive_types(T)]
pub struct ExSender<T>(crossbeam_channel::Sender<T>);

/// crossbeam_channel's receiving endpoint, opaque to verification.
#[verifier::external_type_specification]
#[verifier::external_body]
#[verifier::reject_recursive_types(T)]
pub struct ExReceiver<T>(crossbeam_channel::Receiver<T>);

/// Relies on crossbeam_channel::unbounded: a fresh channel of unlimited
/// capacity, returned as its two endpoints; sends on it never block.
pub assume_specification<T>[ crossbeam_channel::unbounded::<T> ]() -> (r: (
    crossbeam_channel::Sender<T>,
    crossbeam_channel::Receiver<T>,
));

/// Relies on Clone for crossbeam_channel::Sender: another sending handle
/// on the same channel.
pub assume_specification<T>[ <crossbeam_channel::Sender<T> as Clone>::clone ](
    s: &crossbeam_channel::Sender<T>,
) -> (r: crossbeam_channel::Sender<T>);

/// Relies on crossbeam_channel::Sender::send: enqueues the command, or
/// fails when every receiving handle is already gone. The failure is
/// dropped here, as the shutdown protocol treats a command to an
/// already-gone drone as a no-op.
#[verifier::external_body]
pub(crate) fn send_drone_command(s: &crossbeam_channel::Sender<DroneCommand>, cmd: DroneCommand) {
    let _ = s.send(cmd);
}

} // verus!
