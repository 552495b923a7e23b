//! Gauge values: stable gauge names, normalized ordinal readings, directional
//! change, and inclusive runtime targets.

use vstd::prelude::*;

verus! {

/// The stable symbolic name of a gauge in app vocabulary.
#[derive(Debug, PartialEq, Eq, Hash)]
pub struct GaugeId(String);

impl View for GaugeId {
    type V = Seq<char>;

    closed spec fn view(&self) -> Seq<char> {
        self.0@
    }
}

impl Clone for GaugeId {
    fn clone(&self) -> (r: Self)
        ensures
            r == *self,
    {
        GaugeId(self.0.clone())
    }
}

impl GaugeId {
    pub fn new(name: String) -> (r: Self)
        ensures
            r@ == name@,
    {
        GaugeId(name)
    }

    pub fn from_str(name: &str) -> (r: Self)
        ensures
            r@ == name@,
    {
        GaugeId(name.to_string())
    }

    pub fn as_str(&self) -> (r: &str)
        ensures
            r@ == self@,
    {
        self.0.as_str()
    }

    /// Symbolic identity: two gauge ids are the same gauge iff their names match.
    pub fn same(&self, other: &GaugeId) -> (r: bool)
        ensures
            r == (self@ == other@),
    {
        self.0 == other.0
    }

    pub fn duplicate(&self) -> (r: GaugeId)
        ensures
            r@ == self@,
    {
        GaugeId(self.0.clone())
    }
}

/// A normalized, ordinal gauge reading. Every `u8` is valid; `0` and `255` are
/// the saturated endpoints.
#[derive(Clone, Copy, Debug, PartialEq, Eq, Structural, Hash)]
pub struct GaugeLevel(u8);

impl GaugeLevel {
    pub closed spec fn level(self) -> u8 {
        self.0
    }

    pub fn new(level: u8) -> (r: Self)
        ensures
            r.level() == level,
    {
        GaugeLevel(level)
    }

    pub fn min_level() -> (r: Self)
        ensures
            r.level() == 0,
    {
        GaugeLevel(0)
    }

    pub fn max_level() -> (r: Self)
        ensures
            r.level() == 255,
    {
        GaugeLevel(255)
    }

    pub fn get(self) -> (r: u8)
        ensures
            r == self.level(),
    {
        self.0
    }

    pub fn is_min(self) -> (r: bool)
        ensures
            r == (self.level() == 0),
    {
        self.0 == 0
    }

    pub fn is_max(self) -> (r: bool)
        ensures
            r == (self.level() == 255),
    {
        self.0 == 255
    }

    /// A level is its reading: two levels with the same reading are the same
    /// level.
    pub proof fn lemma_level_ext(a: GaugeLevel, b: GaugeLevel)
        ensures
            (a.level() == b.level()) <==> a == b,
    {
    }
}

impl From<u8> for GaugeLevel {
    fn from(level: u8) -> (r: Self)
        ensures
            r.level() == level,
    {
        GaugeLevel(level)
    }
}

impl vstd::std_specs::convert::FromSpecImpl<u8> for GaugeLevel {
    open spec fn obeys_from_spec() -> bool {
        true
    }

    closed spec fn from_spec(v: u8) -> Self {
        GaugeLevel(v)
    }
}

impl From<GaugeLevel> for u8 {
    fn from(level: GaugeLevel) -> (r: Self) {
        level.0
    }
}

impl vstd::std_specs::convert::FromSpecImpl<GaugeLevel> for u8 {
    open spec fn obeys_from_spec() -> bool {
        true
    }

    open spec fn from_spec(v: GaugeLevel) -> Self {
        v.level()
    }
}

impl From<String> for GaugeId {
    fn from(name: String) -> (r: Self)
        ensures
            r@ == name@,
    {
        GaugeId(name)
    }
}

impl vstd::std_specs::convert::FromSpecImpl<String> for GaugeId {
    open spec fn obeys_from_spec() -> bool {
        true
    }

    closed spec fn from_spec(v: String) -> Self {
        GaugeId(v)
    }
}

/// Which way a gauge must move.
#[derive(Clone, Copy, Debug, PartialEq, Eq, Structural, Hash)]
pub enum GaugeDirection {
    Down,
    Up,
}

/// An inclusive runtime target interval on a gauge. Invariant: `min <= max`.
#[derive(Clone, Copy, Debug, PartialEq, Eq, Structural, Hash)]
pub struct GaugeTarget {
    min: GaugeLevel,
    max: GaugeLevel,
}

/// The direction that moves `current` into the inclusive interval `[lo, hi]`,
/// or none when it is already inside.
pub open spec fn direction_into(lo: u8, hi: u8, current: u8) -> Option<GaugeDirection> {
    if current < lo {
        Some(GaugeDirection::Up)
    } else if current > hi {
        Some(GaugeDirection::Down)
    } else {
        None
    }
}

impl GaugeTarget {
    #[verifier::type_invariant]
    spec fn ordered(self) -> bool {
        self.min.0 <= self.max.0
    }

    pub closed spec fn lo(self) -> u8 {
        self.min.0
    }

    pub closed spec fn hi(self) -> u8 {
        self.max.0
    }

    /// The interval is well formed.
    pub open spec fn wf(self) -> bool {
        self.lo() <= self.hi()
    }

    pub open spec fn holds(self, level: u8) -> bool {
        self.lo() <= level <= self.hi()
    }

    /// Only `level` satisfies this target.
    pub fn at(level: GaugeLevel) -> (r: Self)
        ensures
            r.lo() == level.level(),
            r.hi() == level.level(),
            r.wf(),
    {
        GaugeTarget { min: level, max: level }
    }

    /// The target holding only the minimum level.
    pub fn min_target() -> (r: Self)
        ensures
            r.lo() == 0,
            r.hi() == 0,
    {
        Self::at(GaugeLevel(0))
    }

    /// The target holding only the maximum level.
    pub fn max_target() -> (r: Self)
        ensures
            r.lo() == 255,
            r.hi() == 255,
    {
        Self::at(GaugeLevel(255))
    }

    /// A valid inclusive interval, or `None` when `min` is above `max`.
    pub fn between(min: GaugeLevel, max: GaugeLevel) -> (r: Option<Self>)
        ensures
            r is Some <==> min.level() <= max.level(),
            r matches Some(t) ==> t.lo() == min.level() && t.hi() == max.level() && t.wf(),
    {
        if min.0 <= max.0 {
            Some(GaugeTarget { min, max })
        } else {
            None
        }
    }

    /// Any reading at or above `min` satisfies this target.
    pub fn at_least(min: GaugeLevel) -> (r: Self)
        ensures
            r.lo() == min.level(),
            r.hi() == 255,
            r.wf(),
    {
        GaugeTarget { min, max: GaugeLevel(255) }
    }

    /// Any reading at or below `max` satisfies this target.
    pub fn at_most(max: GaugeLevel) -> (r: Self)
        ensures
            r.lo() == 0,
            r.hi() == max.level(),
            r.wf(),
    {
        GaugeTarget { min: GaugeLevel(0), max }
    }

    pub fn min(self) -> (r: GaugeLevel)
        ensures
            r.level() == self.lo(),
            self.wf(),
    {
        proof {
            use_type_invariant(&self);
        }
        self.min
    }

    pub fn max(self) -> (r: GaugeLevel)
        ensures
            r.level() == self.hi(),
            self.wf(),
    {
        proof {
            use_type_invariant(&self);
        }
        self.max
    }

    pub fn contains(self, level: GaugeLevel) -> (r: bool)
        ensures
            r == self.holds(level.level()),
    {
        level.0 >= self.min.0 && level.0 <= self.max.0
    }

    /// The direction needed to enter this target, or `None` when already in it.
    pub fn required_change(self, current: GaugeLevel) -> (r: Option<GaugeDirection>)
        ensures
            r == direction_into(self.lo(), self.hi(), current.level()),
    {
        if current.0 < self.min.0 {
            Some(GaugeDirection::Up)
        } else if current.0 > self.max.0 {
            Some(GaugeDirection::Down)
        } else {
            None
        }
    }
}

/// A well-formed target asks for no change exactly on the readings it contains,
/// asks to go up below its interval and down above it.
pub proof fn lemma_required_change_agrees_with_contains(t: GaugeTarget, level: u8)
    requires
        t.wf(),
    ensures
        direction_into(t.lo(), t.hi(), level) is None <==> t.holds(level),
        direction_into(t.lo(), t.hi(), level) == Some(GaugeDirection::Up) <==> level < t.lo(),
        direction_into(t.lo(), t.hi(), level) == Some(GaugeDirection::Down) <==> level > t.hi(),
{
}

} // verus!
