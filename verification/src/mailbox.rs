//! The bounded mailbox that connects the feed to one subscriber.
//!
//! The mailbox is the bounded channel of the `futures` crate. The verifier
//! sees neither end from the inside; what is said about them here is taken on
//! trust.

use futures::sync::mpsc::{Receiver, Sender};
use vstd::prelude::*;

verus! {

/// Number of buffered slots of every subscriber mailbox.
pub const MAILBOX_CAPACITY: usize = 1;

/// The write-end of a mailbox, `futures::sync::mpsc::Sender`, as an opaque
/// value.
#[verifier::external_type_specification]
#[verifier::external_body]
#[verifier::reject_recursive_types(T)]
pub struct ExSender<T>(Sender<T>);

/// The read-end of a mailbox, `futures::sync::mpsc::Receiver`, as an opaque
/// value.
#[verifier::external_type_specification]
#[verifier::external_body]
#[verifier::reject_recursive_types(T)]
pub struct ExReceiver<T>(Receiver<T>);

/// Opens a mailbox with `futures::sync::mpsc::channel`. That function panics
/// when the requested buffer reaches a quarter of `usize::MAX`, which the
/// precondition rules out. Nothing is claimed about the two ends returned.
#[verifier::external_body]
pub(crate) fn open<T>(buffer: usize) -> (ends: (Sender<T>, Receiver<T>))
    requires
        buffer < usize::MAX / 4,
{
    futures::sync::mpsc::channel::<T>(buffer)
}

} // verus!
