//! The cancellation token that a set of jobs shares.
//!
//! Whether a token is cancelled changes under the hands of everyone who holds
//! a clone of it, so nothing is stated of that but what this crate does
//! itself: a [`Signal`] tells whether it has cancelled the token.

use tokio_util::sync::CancellationToken;
use vstd::prelude::*;

verus! {

/// The token of `tokio_util`. Equal values are clones of each other: handles
/// of one token.
#[verifier::external_type_specification]
#[verifier::external_body]
pub struct ExCancellationToken(CancellationToken);

/// `CancellationToken::new` makes a token of its own, not yet cancelled.
/// Nothing is claimed of it.
pub assume_specification[ CancellationToken::new ]() -> CancellationToken;

/// `CancellationToken::clone` gives another handle of the same token: it is
/// cancelled whenever the first one is, and the other way round.
pub assume_specification[ <CancellationToken as Clone>::clone ](token: &CancellationToken) -> (handle:
    CancellationToken)
    ensures
        handle == *token,
;

/// A token together with whether this crate has left it alone. Nobody else's
/// doing enters into that: others may cancel the token through a handle.
pub struct Signal {
    token: CancellationToken,
    live: Ghost<bool>,
}

impl Signal {
    /// The token.
    pub closed spec fn token(self) -> CancellationToken {
        self.token
    }

    /// Whether this crate has not cancelled the token. Where it has, the token
    /// is cancelled for good: nothing undoes that.
    pub closed spec fn live(self) -> bool {
        self.live@
    }

    /// A signal with a token of its own.
    pub(crate) fn new() -> (signal: Signal)
        ensures
            signal.live(),
    {
        Signal { token: CancellationToken::new(), live: Ghost(true) }
    }

    /// A handle of the token.
    pub(crate) fn handle(&self) -> (token: CancellationToken)
        ensures
            token == self.token(),
    {
        self.token.clone()
    }
}

/// `CancellationToken::cancel` cancels the token for all who hold it; on one
/// that is cancelled already it does nothing. Claimed is that the signal keeps
/// its token and has been cancelled from here on. No other function ends the
/// life of a signal.
#[verifier::external_body]
pub(crate) fn cancel(signal: &mut Signal)
    ensures
        final(signal).token() == old(signal).token(),
        !final(signal).live(),
{
    signal.token.cancel();
}

} // verus!
