//! The outside sources that a reply draws on: random numbers and the
//! channel that starts the typing indicator.
use vstd::prelude::*;

verus! {

#[verifier::external_type_specification]
#[verifier::external_body]
pub struct ExRng(fastrand::Rng);

#[verifier::external_type_specification]
#[verifier::external_body]
#[verifier::reject_recursive_types(T)]
pub struct ExSender<T>(tokio::sync::oneshot::Sender<T>);

/// Tells the message handler whether a reply is being typed.
pub type TypingSender = tokio::sync::oneshot::Sender<bool>;

/// A generator seeded from the thread's generator (`fastrand::Rng::new`).
/// Nothing is claimed of its state.
#[verifier::external_body]
pub(crate) fn new_rng() -> fastrand::Rng {
    fastrand::Rng::new()
}

/// `fastrand::Rng::u64(..n)`: a number in `0..n`, which the crate's
/// source draws uniformly; the claim is only that it is below `n`.
#[verifier::external_body]
pub(crate) fn roll_below(rng: &mut fastrand::Rng, n: u64) -> (r: u64)
    requires
        n > 0,
    ensures
        r < n,
{
    rng.u64(..n)
}

/// `fastrand::Rng::usize(..n)`: an index in `0..n`; the claim is only
/// that it is below `n`.
#[verifier::external_body]
pub(crate) fn index_below(rng: &mut fastrand::Rng, n: usize) -> (r: usize)
    requires
        n > 0,
    ensures
        r < n,
{
    rng.usize(..n)
}

/// `fastrand::Rng::u8(0..=100)`: a roll from 0 to 100; the claim is only
/// that it is at most 100.
#[verifier::external_body]
pub(crate) fn roll_percent(rng: &mut fastrand::Rng) -> (r: u8)
    ensures
        r <= 100,
{
    rng.u8(0..=100)
}

/// `tokio::sync::oneshot::Sender::send`: hands `typing` to the receiver,
/// if it still listens, and gives back the value it handed over; whether
/// the receiver took it is not reported.
#[verifier::external_body]
pub(crate) fn send_typing(tx: TypingSender, typing: bool) -> (sent: bool)
    ensures
        sent == typing,
{
    let _ = tx.send(typing);
    typing
}

} // verus!
