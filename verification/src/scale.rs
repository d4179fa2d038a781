//! The value-to-intensity domain mapping.
//!
//! A finished buffer holds integer cell values; the scaler maps them into
//! the normalized interval `[0, 1]` relative to a domain `(min, max)`.
//! The mapping itself is kept exact here: a scaled value is the integer
//! pair `(num, den)` with `0 < num <= den`, standing for `num / den` on a
//! linear domain and for `ln(num + 1) / ln(den + 1)` on a logarithmic
//! one.  Both readings are strictly increasing in `num`, so every law
//! about the ordering of intensities is decided by the pair alone.

use vstd::prelude::*;

verus! {

use crate::ConfigError;

/// The shape of the value-to-intensity mapping.
#[derive(Clone, Copy, Debug, PartialEq, Eq, Structural)]
pub enum DomainType {
    Linear,
    Logarithmic,
}

/// An exact scaled value: the position `num` within a domain of width
/// `den`, with `0 < num <= den`.  `num == den` is the top of the domain
/// and stands for the intensity `1.0` under either reading.
#[derive(Clone, Copy, Debug, PartialEq, Eq, Structural)]
pub struct Scaled {
    pub num: i128,
    pub den: i128,
    /// Which reading turns the pair into an intensity: `num / den` when
    /// false, `ln(num + 1) / ln(den + 1)` when true.
    pub logarithmic: bool,
}

/// A value-to-intensity domain: a kind and bounds with `min < max`.
pub struct ScaleDomain {
    domain_type: DomainType,
    min_value: i64,
    max_value: i64,
}

impl ScaleDomain {
    /// The configured kind of the mapping.
    pub closed spec fn kind_spec(&self) -> DomainType {
        self.domain_type
    }

    /// The lower domain bound.
    pub closed spec fn min_spec(&self) -> int {
        self.min_value as int
    }

    /// The upper domain bound.
    pub closed spec fn max_spec(&self) -> int {
        self.max_value as int
    }

    /// A domain is well formed when its bounds do not collapse.
    pub open spec fn wf(&self) -> bool {
        self.min_spec() < self.max_spec()
    }

    /// What `scale` returns for a value, as an exact pair: nothing at or
    /// below the minimum, the full width at or above the maximum, and the
    /// offset within the domain in between.
    pub open spec fn scale_pair(&self, value: int) -> Option<(int, int)> {
        let range = self.max_spec() - self.min_spec();
        if value <= self.min_spec() {
            None
        } else if value >= self.max_spec() {
            Some((range, range))
        } else {
            Some((value - self.min_spec(), range))
        }
    }

    /// Builds a domain; the bounds are rejected exactly when the maximum
    /// is not above the minimum.
    pub fn new(domain_type: DomainType, min_value: i64, max_value: i64) -> (r: Result<
        ScaleDomain,
        ConfigError,
    >)
        ensures
            r is Ok <==> min_value < max_value,
            r is Err ==> r->Err_0 == ConfigError::InvalidDomainBounds,
            r is Ok ==> ({
                let dom = r->Ok_0;
                &&& dom.wf()
                &&& dom.kind_spec() == domain_type
                &&& dom.min_spec() == min_value
                &&& dom.max_spec() == max_value
            }),
    {
        if max_value <= min_value {
            Err(ConfigError::InvalidDomainBounds)
        } else {
            Ok(ScaleDomain { domain_type, min_value, max_value })
        }
    }

    /// Scales a value on a linear reading of the domain.
    pub fn scale_linear(&self, value: i64) -> (r: Option<Scaled>)
        requires
            self.wf(),
        ensures
            match r {
                Some(p) => {
                    &&& self.scale_pair(value as int) == Some((p.num as int, p.den as int))
                    &&& !p.logarithmic
                    &&& 0 < p.num <= p.den
                },
                None => self.scale_pair(value as int) is None,
            },
    {
        self.scale_with(value, false)
    }

    /// Scales a value on a logarithmic reading of the domain.  The pair
    /// is offset by one before the logarithms are taken, so the minimum
    /// need not be positive and values just above it map near zero.
    pub fn scale_logarithmic(&self, value: i64) -> (r: Option<Scaled>)
        requires
            self.wf(),
        ensures
            match r {
                Some(p) => {
                    &&& self.scale_pair(value as int) == Some((p.num as int, p.den as int))
                    &&& p.logarithmic
                    &&& 0 < p.num <= p.den
                },
                None => self.scale_pair(value as int) is None,
            },
    {
        self.scale_with(value, true)
    }

    /// Scales a value with the configured kind.
    pub fn scale(&self, value: i64) -> (r: Option<Scaled>)
        requires
            self.wf(),
        ensures
            match r {
                Some(p) => {
                    &&& self.scale_pair(value as int) == Some((p.num as int, p.den as int))
                    &&& p.logarithmic == (self.kind_spec() == DomainType::Logarithmic)
                    &&& 0 < p.num <= p.den
                },
                None => self.scale_pair(value as int) is None,
            },
    {
        match self.domain_type {
            DomainType::Linear => self.scale_linear(value),
            DomainType::Logarithmic => self.scale_logarithmic(value),
        }
    }

    /// The shared exact computation behind both readings.
    fn scale_with(&self, value: i64, logarithmic: bool) -> (r: Option<Scaled>)
        requires
            self.wf(),
        ensures
            match r {
                Some(p) => {
                    &&& self.scale_pair(value as int) == Some((p.num as int, p.den as int))
                    &&& p.logarithmic == logarithmic
                    &&& 0 < p.num <= p.den
                },
                None => self.scale_pair(value as int) is None,
            },
    {
        if value <= self.min_value {
            None
        } else {
            // The bounds may span more than the i64 range, so the exact
            // differences are carried in i128.
            let num: i128 = value as i128 - self.min_value as i128;
            let den: i128 = self.max_value as i128 - self.min_value as i128;
            if num >= den {
                Some(Scaled { num: den, den, logarithmic })
            } else {
                Some(Scaled { num, den, logarithmic })
            }
        }
    }
}

/// Law: the domain boundaries behave as stated — the minimum itself
/// scales to nothing, the maximum scales to the full width (intensity
/// `1.0` under either reading), and values outside the bounds are pinned
/// to those two outcomes.
pub proof fn lemma_scale_domain_boundaries(dom: ScaleDomain)
    requires
        dom.wf(),
    ensures
        dom.scale_pair(dom.min_spec()) is None,
        dom.scale_pair(dom.max_spec()) == Some(
            (dom.max_spec() - dom.min_spec(), dom.max_spec() - dom.min_spec()),
        ),
        forall|v: int| v <= dom.min_spec() ==> #[trigger] dom.scale_pair(v) is None,
        forall|v: int| v >= dom.max_spec() ==> #[trigger] dom.scale_pair(v) == dom.scale_pair(dom.max_spec()),
{
}

/// Law: the scale is strictly increasing on the open domain interval.
/// Two values strictly between the bounds scale to pairs with the same
/// denominator and strictly ordered numerators, so both the linear
/// reading `num / den` and the logarithmic reading
/// `ln(num + 1) / ln(den + 1)`, each strictly increasing in `num`,
/// order the intensities as the values are ordered.
pub proof fn lemma_scale_strictly_increasing(dom: ScaleDomain, v1: int, v2: int)
    requires
        dom.wf(),
        dom.min_spec() < v1 < v2 < dom.max_spec(),
    ensures
        ({
            let p1 = dom.scale_pair(v1)->0;
            let p2 = dom.scale_pair(v2)->0;
            &&& dom.scale_pair(v1) is Some
            &&& dom.scale_pair(v2) is Some
            &&& p1.1 == p2.1
            &&& 0 < p1.0 < p2.0 < p1.1
        }),
{
}

} // verus!
