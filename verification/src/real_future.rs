//! The shape of the future trait of the standard library, for comparison with
//! [`SimpleFuture`](crate::simple_future::SimpleFuture).

use std::pin::Pin;
use std::task::Context;
use std::task::Poll;
use vstd::prelude::*;

verus! {

/// `std::pin::Pin`, a pointer whose target is promised not to move. The type
/// is opaque here: it is only carried through the signature of
/// [`RealFuture::poll`], and nothing is claimed of it.
#[verifier::external_type_specification]
#[verifier::external_body]
#[verifier::reject_recursive_types(P)]
pub struct ExPin<P>(std::pin::Pin<P>);

/// `std::task::Context`, the handle through which a task asks to be polled
/// again. Opaque here; nothing is claimed of it.
#[verifier::external_type_specification]
#[verifier::external_body]
pub struct ExContext<'a>(std::task::Context<'a>);

/// `std::task::Poll`, the answer of a poll of the standard library's future.
/// Opaque here; nothing is claimed of it. [`RealPoll`] shows its two variants.
#[verifier::external_type_specification]
#[verifier::external_body]
#[verifier::reject_recursive_types(T)]
pub struct ExPoll<T>(std::task::Poll<T>);

/// A future as the standard library declares it.
///
/// Against [`SimpleFuture`](crate::simple_future::SimpleFuture) it differs in
/// two things. The task is reached through a pinned reference, which promises
/// that it does not move between polls, so that it may hold pointers into
/// itself. And each poll is handed a context, through which the task tells
/// its driver when polling it again is worth the while.
pub trait RealFuture {
    /// The type of the result that the task completes with.
    type Output;

    /// Advances the task by one step.
    fn poll(self: Pin<&mut Self>, cx: &mut Context<'_>) -> Poll<Self::Output>;
}

/// The answer of a poll, spelled as the standard library spells it: `Ready`
/// for `Some`, `Pending` for `None`.
pub enum RealPoll<T> {
    Ready(T),
    Pending,
}

} // verus!
