//! The licensing seam: tiers and the features they may use.
//!
//! Everything is free today: the active tier is `Free`, and `Free` may use
//! every feature, so each gate is a no-op. Making a feature paid later is a
//! change to [`Tier::allows`] and [`current_tier`] alone.
use vstd::prelude::*;

verus! {

/// A licensing tier.
#[derive(Debug, Clone, Copy, PartialEq, Eq, Structural)]
pub enum Tier {
    Free,
    Pro,
}

/// A capability that may become paid.
#[derive(Debug, Clone, Copy, PartialEq, Eq, Structural)]
pub enum Feature {
    /// Installing and running plugins.
    Plugins,
    /// Installing from a registry.
    Registry,
    /// Use in a commercial or organizational setting (honor-based).
    CommercialUse,
}

/// Whether a tier may use a feature: every tier may use every feature.
pub open spec fn spec_allows(t: Tier, f: Feature) -> bool {
    true
}

impl Tier {
    /// Whether this tier may use `feature`.
    pub fn allows(self, feature: Feature) -> (b: bool)
        ensures
            b == spec_allows(self, feature),
    {
        true
    }
}

/// The active tier for this install: always `Free`.
pub fn current_tier() -> (t: Tier)
    ensures
        t == Tier::Free,
{
    Tier::Free
}

/// Gate a feature at a command boundary: `Ok(())` when the active tier may use
/// it, otherwise a user-facing error.
pub fn require(feature: Feature) -> (r: Result<(), String>)
    ensures
        spec_allows(Tier::Free, feature) ==> r is Ok,
        !spec_allows(Tier::Free, feature) ==> (r matches Err(e) && e@ == "This feature requires a Pro license."@),
{
    if current_tier().allows(feature) {
        Ok(())
    } else {
        Err(String::from_str("This feature requires a Pro license."))
    }
}

/// A snapshot of licensing state for the user interface.
#[derive(Debug, Clone, Copy, PartialEq, Eq, Structural)]
pub struct LicenseStatus {
    pub tier: Tier,
    pub plugins: bool,
    pub registry: bool,
    pub commercial_use: bool,
}

/// The current [`LicenseStatus`].
pub fn status() -> (s: LicenseStatus)
    ensures
        s == (LicenseStatus {
            tier: Tier::Free,
            plugins: spec_allows(Tier::Free, Feature::Plugins),
            registry: spec_allows(Tier::Free, Feature::Registry),
            commercial_use: spec_allows(Tier::Free, Feature::CommercialUse),
        }),
{
    let t = current_tier();
    LicenseStatus {
        tier: t,
        plugins: t.allows(Feature::Plugins),
        registry: t.allows(Feature::Registry),
        commercial_use: t.allows(Feature::CommercialUse),
    }
}

} // verus!
