use vstd::prelude::*;

verus! {

/// The KiCad release series a document is measured against.
#[derive(Debug, Clone, Copy, PartialEq, Eq, Structural)]
pub enum KiCadSeries {
    V9,
    V10,
}

/// Which document format versions are accepted and which count as newer than
/// the targeted KiCad series.
#[derive(Debug, Clone, Copy, PartialEq, Eq, Structural)]
pub struct VersionPolicy {
    pub target: KiCadSeries,
    pub reject_older: bool,
}

impl Default for VersionPolicy {
    fn default() -> (r: Self)
        ensures
            r.target == KiCadSeries::V10,
            r.reject_older,
    {
        VersionPolicy { target: KiCadSeries::V10, reject_older: true }
    }
}

impl VersionPolicy {
    /// Oldest format version of the KiCad 9 series.
    pub const V9_MIN: i32 = 20240101;

    /// Base format version of the KiCad 10 series.
    pub const V10_BASE: i32 = 20260101;

    /// The version number above which a document is newer than `target`.
    pub open spec fn target_base(self) -> int {
        match self.target {
            KiCadSeries::V9 => Self::V9_MIN as int,
            KiCadSeries::V10 => Self::V10_BASE as int,
        }
    }

    /// A format version is accepted when it is not older than KiCad 9.
    pub fn accepts(&self, version: i32) -> (r: bool)
        ensures
            r == (version >= Self::V9_MIN),
    {
        version >= Self::V9_MIN
    }

    /// A format version is "future" when it is newer than the base version of
    /// the targeted series.
    pub fn is_future_for_target(&self, version: i32) -> (r: bool)
        ensures
            r == (version > self.target_base()),
    {
        match self.target {
            KiCadSeries::V9 => version > Self::V9_MIN,
            KiCadSeries::V10 => version > Self::V10_BASE,
        }
    }
}

/// Every version that is newer than the targeted series is accepted.
pub proof fn lemma_future_is_accepted(policy: VersionPolicy, version: i32)
    requires
        version > policy.target_base(),
    ensures
        version >= VersionPolicy::V9_MIN,
{
}

/// A version newer than the KiCad 10 base is newer than the KiCad 9 base as
/// well: targeting the older series flags at least as many versions.
pub proof fn lemma_future_monotone(v10: VersionPolicy, v9: VersionPolicy, version: i32)
    requires
        v10.target == KiCadSeries::V10,
        v9.target == KiCadSeries::V9,
        version > v10.target_base(),
    ensures
        version > v9.target_base(),
{
}

} // verus!
