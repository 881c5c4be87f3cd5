use vstd::prelude::*;

use crossbeam::channel::Sender;

verus! {

/// The sending end of a crossbeam channel, carried as an opaque value.
#[verifier::external_type_specification]
#[verifier::external_body]
#[verifier::reject_recursive_types(T)]
pub struct ExSender<T>(Sender<T>);

/// Relies on crossbeam's `Sender::send`: it hands `v` to the channel and reports
/// whether that worked (it fails once every receiver is gone). Nothing is promised
/// about the outcome.
#[verifier::external_body]
pub(crate) fn channel_send<T>(s: &Sender<T>, v: T) -> (ok: bool) {
    s.send(v).is_ok()
}

} // verus!
