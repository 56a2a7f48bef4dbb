use vstd::prelude::*;

verus! {

/// The one datum that flows between plugs.
///
/// A `Sound` carries a continuous amplitude as the bit pattern of an IEEE-754
/// binary64 value; the engine only moves amplitudes around and never computes
/// with them. An `Int` carries a discrete count or index.
#[derive(Clone, Copy, Debug, PartialEq, Eq, Structural)]
pub enum Signal {
    Sound(u64),
    Int(i64),
}

/// The two kinds of signal: what a plug's declared default says it carries.
#[derive(Clone, Copy, Debug, PartialEq, Eq, Structural)]
pub enum SignalKind {
    Sound,
    Int,
}

impl Signal {
    /// The kind of this signal, regardless of its value.
    pub open spec fn kind_of(self) -> SignalKind {
        match self {
            Signal::Sound(_) => SignalKind::Sound,
            Signal::Int(_) => SignalKind::Int,
        }
    }

    pub fn kind(&self) -> (r: SignalKind)
        ensures
            r == self.kind_of(),
    {
        match self {
            Signal::Sound(_) => SignalKind::Sound,
            Signal::Int(_) => SignalKind::Int,
        }
    }

    /// Whether two signals are of the same kind; their values do not matter.
    pub fn same_kind(&self, other: &Signal) -> (r: bool)
        ensures
            r == (self.kind_of() == other.kind_of()),
    {
        self.kind() == other.kind()
    }
}

} // verus!
