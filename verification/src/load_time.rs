//! How long loading a plugin took.

use vstd::prelude::*;

verus! {

/// Nanoseconds in a second.
pub const NANOS_PER_SEC: u32 = 1_000_000_000;

/// A span of time, to the nanosecond. It reaches as far as
/// [`std::time::Duration`] does.
#[derive(Debug, Clone, Copy, PartialEq, Eq)]
pub struct LoadTime {
    secs: u64,
    nanos: u32,
}

/// The least number of nanoseconds that no [`LoadTime`] can hold.
pub open spec fn limit() -> nat {
    ((u64::MAX + 1) * NANOS_PER_SEC) as nat
}

impl View for LoadTime {
    type V = nat;

    /// The span in nanoseconds.
    closed spec fn view(&self) -> nat {
        (self.secs * NANOS_PER_SEC + self.nanos) as nat
    }
}

/// What [`std::time::Duration`] prints, in its `{:.2?}` form, for a span of so many
/// seconds and nanoseconds.
pub uninterp spec fn duration_text(secs: u64, nanos: u32) -> Seq<char>;

/// How a span of `nanos` nanoseconds is printed.
pub open spec fn words(nanos: nat) -> Seq<char> {
    duration_text((nanos / NANOS_PER_SEC as nat) as u64, (nanos % NANOS_PER_SEC as nat) as u32)
}

/// `<std::time::Duration as Debug>::fmt` with a precision of two digits. Claimed of
/// it: the text depends on the seconds and the nanoseconds alone. Nothing is said of
/// how it chooses the unit or rounds. A fraction below a second is asked for, which
/// `Duration::new` never carries over, so that it does not panic.
#[verifier::external_body]
fn print_duration(secs: u64, nanos: u32) -> (text: String)
    requires
        nanos < NANOS_PER_SEC,
    ensures
        text@ == duration_text(secs, nanos),
{
    format!("{:.2?}", std::time::Duration::new(secs, nanos))
}

impl LoadTime {
    #[verifier::type_invariant]
    spec fn has_fraction(self) -> bool {
        self.nanos < NANOS_PER_SEC
    }

    /// A span of whole seconds and a fraction in nanoseconds.
    pub fn new(secs: u64, nanos: u32) -> (time: Self)
        requires
            nanos < NANOS_PER_SEC,
        ensures
            time@ == secs * NANOS_PER_SEC + nanos,
    {
        LoadTime { secs, nanos }
    }

    /// A span of so many milliseconds.
    pub fn from_millis(millis: u64) -> (time: Self)
        ensures
            time@ == millis * 1_000_000,
    {
        LoadTime { secs: millis / 1000, nanos: (millis % 1000) as u32 * 1_000_000 }
    }

    /// The span in nanoseconds.
    pub fn as_nanos(&self) -> (nanos: u128)
        ensures
            nanos == self@,
    {
        self.secs as u128 * 1_000_000_000 + self.nanos as u128
    }

    /// One span after the other, or `None` if the two together are out of reach.
    pub fn checked_plus(self, other: LoadTime) -> (sum: Option<Self>)
        ensures
            match sum {
                Some(sum) => sum@ == self@ + other@ && sum@ < limit(),
                None => self@ + other@ >= limit(),
            },
    {
        proof {
            use_type_invariant(self);
            use_type_invariant(other);
        }
        let nanos: u32 = self.nanos + other.nanos;
        let secs: u64 = match self.secs.checked_add(other.secs) {
            Some(secs) => secs,
            None => {
                return None;
            },
        };
        if nanos < NANOS_PER_SEC {
            Some(LoadTime { secs, nanos })
        } else {
            match secs.checked_add(1) {
                Some(secs) => Some(LoadTime { secs, nanos: nanos - NANOS_PER_SEC }),
                None => None,
            }
        }
    }

    /// Prints the span, as `42.00ms`.
    pub fn to_string(&self) -> (text: String)
        ensures
            text@ == words(self@),
    {
        proof {
            use_type_invariant(self);
            let n = NANOS_PER_SEC as int;
            vstd::arithmetic::div_mod::lemma_fundamental_div_mod_converse(
                self@ as int,
                n,
                self.secs as int,
                self.nanos as int,
            );
        }
        print_duration(self.secs, self.nanos)
    }
}

/// A span reaches up to what 64 bits of whole seconds can hold.
pub proof fn law_limit()
    ensures
        limit() == 0x1_0000_0000_0000_0000int * 1_000_000_000,
{
}

/// A span is printed by its whole seconds and the nanoseconds beyond them.
pub proof fn law_words_of_a_span(secs: u64, nanos: u32)
    requires
        nanos < 1_000_000_000,
    ensures
        words((secs * 1_000_000_000 + nanos) as nat) == duration_text(secs, nanos),
{
    vstd::arithmetic::div_mod::lemma_fundamental_div_mod_converse(
        secs * 1_000_000_000 + nanos,
        1_000_000_000,
        secs as int,
        nanos as int,
    );
}

} // verus!
