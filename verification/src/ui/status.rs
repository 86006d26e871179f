use vstd::prelude::*;
use std::time::{Duration, Instant};

verus! {

#[verifier::external_type_specification]
#[verifier::external_body]
pub struct ExInstant(Instant);

/// `Instant::now`: the current time (nothing is known of it).
#[verifier::external_body]
fn instant_now() -> Instant {
    Instant::now()
}

/// `Instant::elapsed`: the time since `t`; it depends on the clock, so
/// nothing is known of it.
#[verifier::external_body]
fn elapsed_since(t: &Instant) -> Duration {
    t.elapsed()
}

/// `Duration::as_secs`: the whole seconds of a duration (nothing is known of
/// the duration, so nothing is stated).
#[verifier::external_body]
fn whole_secs(d: &Duration) -> u64 {
    d.as_secs()
}

/// A status-bar message and the time it was shown.
pub struct StatusMessage {
    pub text: String,
    pub created: Instant,
}

/// A message shown `secs` whole seconds ago has expired (it stays up for three).
pub fn expired_after(secs: u64) -> (b: bool)
    ensures
        b == (secs > 3),
{
    secs > 3
}

impl StatusMessage {
    pub fn new(text: String) -> (m: Self)
        ensures
            m.text@ == text@,
    {
        StatusMessage { text, created: instant_now() }
    }

    /// Whether more than three whole seconds have passed since the message
    /// was created.
    pub fn is_expired(&self) -> bool {
        expired_after(whole_secs(&elapsed_since(&self.created)))
    }
}

} // verus!
