//! The time quantum of a sequence: the length of one rhythmic step, as a
//! fraction of a beat with non-zero numerator and denominator.
use vstd::prelude::*;
use vstd::string::StringExecFns;

verus! {

pub const MIN_VALUE: u16 = 1;

pub const MAX_VALUE: u16 = 128;

#[derive(Clone, Copy, PartialEq, Eq, Debug)]
pub struct TimeQuantum {
    numer: u16,
    denom: u16,
}

/// Why a time quantum was refused.
#[derive(Debug, Clone, Copy, PartialEq, Eq, Structural)]
pub enum TimeQuantumError {
    ZeroNumerator,
    ZeroDenominator,
    OutOfRange,
}

/// The components `from_raw` accepts.
pub open spec fn valid_component(v: u16) -> bool {
    MIN_VALUE <= v <= MAX_VALUE
}

/// What `from_raw` answers for the given components.
pub open spec fn from_raw_spec(numer: u16, denom: u16) -> Result<(u16, u16), TimeQuantumError> {
    if numer == 0 {
        Err(TimeQuantumError::ZeroNumerator)
    } else if denom == 0 {
        Err(TimeQuantumError::ZeroDenominator)
    } else if numer > MAX_VALUE || denom > MAX_VALUE {
        Err(TimeQuantumError::OutOfRange)
    } else {
        Ok((numer, denom))
    }
}

/// `value` brought into `MIN_VALUE..=MAX_VALUE`.
pub open spec fn clamp_component_spec(value: u16) -> u16 {
    if value < MIN_VALUE {
        MIN_VALUE
    } else if value > MAX_VALUE {
        MAX_VALUE
    } else {
        value
    }
}

impl View for TimeQuantum {
    type V = (u16, u16);

    /// The numerator and the denominator.
    open spec fn view(&self) -> (u16, u16) {
        (self.numer_spec(), self.denom_spec())
    }
}

impl TimeQuantum {
    #[verifier::type_invariant]
    spec fn inv(self) -> bool {
        self.numer >= 1 && self.denom >= 1
    }

    pub closed spec fn numer_spec(self) -> u16 {
        self.numer
    }

    /// One eighth of a beat.
    pub closed spec fn default_spec() -> TimeQuantum {
        TimeQuantum { numer: MIN_VALUE, denom: 8 }
    }

    /// A quantum is determined by its two components.
    pub proof fn lemma_components_determine(a: TimeQuantum, b: TimeQuantum)
        ensures
            a@ == b@ ==> a == b,
            Self::default_spec()@ == (1u16, 8u16),
    {
    }

    pub closed spec fn denom_spec(self) -> u16 {
        self.denom
    }

    /// A quantum from two non-zero components (not limited to the range
    /// that `from_raw` accepts).
    pub fn new(numer: u16, denom: u16) -> (q: TimeQuantum)
        requires
            numer >= 1,
            denom >= 1,
        ensures
            q.numer_spec() == numer,
            q.denom_spec() == denom,
    {
        TimeQuantum { numer, denom }
    }

    /// A quantum from raw components, each of which must lie in `1..=128`.
    pub fn from_raw(numer: u16, denom: u16) -> (r: Result<TimeQuantum, TimeQuantumError>)
        ensures
            match (r, from_raw_spec(numer, denom)) {
                (Ok(q), Ok((n, d))) => q.numer_spec() == n && q.denom_spec() == d,
                (Err(e), Err(f)) => e == f,
                _ => false,
            },
    {
        if numer == 0 {
            return Err(TimeQuantumError::ZeroNumerator);
        }
        if denom == 0 {
            return Err(TimeQuantumError::ZeroDenominator);
        }
        if numer > MAX_VALUE || denom > MAX_VALUE {
            return Err(TimeQuantumError::OutOfRange);
        }
        Ok(TimeQuantum { numer, denom })
    }

    pub fn numerator(&self) -> (r: u16)
        ensures
            r == self.numer_spec(),
            r >= 1,
    {
        proof {
            use_type_invariant(self);
        }
        self.numer
    }

    pub fn denominator(&self) -> (r: u16)
        ensures
            r == self.denom_spec(),
            r >= 1,
    {
        proof {
            use_type_invariant(self);
        }
        self.denom
    }

    /// Change the numerator, keeping the denominator; on error the quantum
    /// is left as it was.
    pub fn set_numerator(&mut self, numer: u16) -> (r: Result<(), TimeQuantumError>)
        ensures
            match from_raw_spec(numer, old(self).denom_spec()) {
                Ok((n, d)) => r is Ok && final(self).numer_spec() == n
                    && final(self).denom_spec() == d,
                Err(e) => r == Err::<(), TimeQuantumError>(e) && *final(self) == *old(self),
            },
    {
        let denom = self.denominator();
        match TimeQuantum::from_raw(numer, denom) {
            Ok(q) => {
                *self = q;
                Ok(())
            },
            Err(e) => Err(e),
        }
    }

    /// Change the denominator, keeping the numerator; on error the quantum
    /// is left as it was.
    pub fn set_denominator(&mut self, denom: u16) -> (r: Result<(), TimeQuantumError>)
        ensures
            match from_raw_spec(old(self).numer_spec(), denom) {
                Ok((n, d)) => r is Ok && final(self).numer_spec() == n
                    && final(self).denom_spec() == d,
                Err(e) => r == Err::<(), TimeQuantumError>(e) && *final(self) == *old(self),
            },
    {
        let numer = self.numerator();
        match TimeQuantum::from_raw(numer, denom) {
            Ok(q) => {
                *self = q;
                Ok(())
            },
            Err(e) => Err(e),
        }
    }

    /// Clamp a component into the range that `from_raw` accepts.
    pub fn clamp_component(value: u16) -> (r: u16)
        ensures
            r == clamp_component_spec(value),
    {
        if value < MIN_VALUE {
            MIN_VALUE
        } else if value > MAX_VALUE {
            MAX_VALUE
        } else {
            value
        }
    }

    /// One eighth of a beat.
    pub fn default() -> (q: TimeQuantum)
        ensures
            q.numer_spec() == 1 && q.denom_spec() == 8,
            q == TimeQuantum::default_spec(),
    {
        TimeQuantum { numer: MIN_VALUE, denom: 8 }
    }
}

impl TimeQuantumError {
    /// The message that explains the error.
    pub fn message(&self) -> (r: String)
        ensures
            r@ == match *self {
                TimeQuantumError::ZeroNumerator => "time quantum numerator must be > 0"@,
                TimeQuantumError::ZeroDenominator => "time quantum denominator must be > 0"@,
                TimeQuantumError::OutOfRange => "time quantum components must be within [1, 128]"@,
            },
    {
        match self {
            TimeQuantumError::ZeroNumerator => String::from_str("time quantum numerator must be > 0"),
            TimeQuantumError::ZeroDenominator => String::from_str(
                "time quantum denominator must be > 0",
            ),
            TimeQuantumError::OutOfRange => String::from_str(
                "time quantum components must be within [1, 128]",
            ),
        }
    }
}

} // verus!
