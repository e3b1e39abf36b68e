use vstd::prelude::*;

verus! {

#[verifier::external_type_specification]
#[verifier::external_body]
pub struct ExRng(fastrand::Rng);

/// Relies on fastrand::Rng::new: a generator forked from the thread-local one.
#[verifier::external_body]
pub(crate) fn new_rng() -> fastrand::Rng {
    fastrand::Rng::new()
}

/// Relies on fastrand::Rng::u32 over the range `0..u32::MAX`: a value of that range.
#[verifier::external_body]
pub(crate) fn random_client_id(rng: &mut fastrand::Rng) -> (r: u32)
    ensures
        r < u32::MAX,
{
    rng.u32(0..u32::MAX)
}

/// Relies on fastrand::Rng::fill: sixteen random bytes.
#[verifier::external_body]
pub(crate) fn random_bytes(rng: &mut fastrand::Rng) -> [u8; 16] {
    let mut b = [0u8; 16];
    rng.fill(&mut b);
    b
}

} // verus!
