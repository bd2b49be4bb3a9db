//! Byte counts as text that people read: "1.50 MB", "953.67 MiB".
//!
//! A formatter divides a count by a power of 1000 or of 1024 and writes the
//! quotient with two places and the unit. The quotient is the one that
//! double-precision arithmetic gives: the count is widened to a double, the
//! two doubles are divided, and two-place notation rounds the result.
//! [`rounding`] states all three in whole numbers, and everything here is
//! computed in whole numbers.
//!
//! Double precision is exact for counts below 2^53. Above, a count is first
//! rounded to 53 significant binary digits, so a count within 64 of the
//! largest divisor counts as one unit of it.

use vstd::prelude::*;
use vstd::arithmetic::power::pow;
use vstd::string::StringExecFns;
use crate::consts::{Magnitude, System};
use crate::decimal::{fixed2, is_digit, lemma_fixed2_shape, push_fixed2};
use crate::rounding::{
    hundredths, hundredths_of, lemma_ratio_below_one, lemma_widened_monotone, ratio, widen,
    widened,
};

pub mod consts;
pub mod decimal;
pub mod rounding;

verus! {

/// What a formatter is, to its callers: a divisor and the unit's name.
pub struct Scale {
    pub divisor: nat,
    pub unit: Seq<char>,
}

impl Scale {
    /// The scale of a system at a magnitude: the base to the power of the
    /// rank, and the prefix letter, the system's infix and `B`.
    pub open spec fn of(system: System, magnitude: Magnitude) -> Scale {
        Scale {
            divisor: pow(system.base() as int, magnitude.rank()) as nat,
            unit: seq![magnitude.prefix()] + system.infix() + seq!['B'],
        }
    }

    /// Whether this is the scale of some system at some magnitude.
    pub open spec fn valid(self) -> bool {
        exists|system: System, magnitude: Magnitude| self == Scale::of(system, magnitude)
    }

    /// The text of a count on this scale: the quotient with two places, a
    /// space, the unit.
    pub open spec fn render(self, value: nat) -> Seq<char> {
        fixed2(hundredths(value, self.divisor)) + seq![' '] + self.unit
    }
}

/// Whether a count reaches one unit of a magnitude: whether its quotient by
/// the divisor, in double precision, is one or more.
pub open spec fn fits(value: nat, system: System, magnitude: Magnitude) -> bool {
    let quotient = ratio(value, Scale::of(system, magnitude).divisor);
    quotient.0 >= quotient.1
}

/// The largest magnitude of which the count reaches one unit; kilo where it
/// reaches none.
pub open spec fn fitted(value: nat, system: System) -> Magnitude {
    if fits(value, system, Magnitude::Exa) {
        Magnitude::Exa
    } else if fits(value, system, Magnitude::Peta) {
        Magnitude::Peta
    } else if fits(value, system, Magnitude::Tera) {
        Magnitude::Tera
    } else if fits(value, system, Magnitude::Giga) {
        Magnitude::Giga
    } else if fits(value, system, Magnitude::Mega) {
        Magnitude::Mega
    } else {
        Magnitude::Kilo
    }
}

/// The twelve divisors, written out.
pub proof fn lemma_divisors()
    ensures
        Scale::of(System::Decimal, Magnitude::Kilo).divisor == 1_000,
        Scale::of(System::Decimal, Magnitude::Mega).divisor == 1_000_000,
        Scale::of(System::Decimal, Magnitude::Giga).divisor == 1_000_000_000,
        Scale::of(System::Decimal, Magnitude::Tera).divisor == 1_000_000_000_000,
        Scale::of(System::Decimal, Magnitude::Peta).divisor == 1_000_000_000_000_000,
        Scale::of(System::Decimal, Magnitude::Exa).divisor == 1_000_000_000_000_000_000,
        Scale::of(System::Binary, Magnitude::Kilo).divisor == 0x400,
        Scale::of(System::Binary, Magnitude::Mega).divisor == 0x10_0000,
        Scale::of(System::Binary, Magnitude::Giga).divisor == 0x4000_0000,
        Scale::of(System::Binary, Magnitude::Tera).divisor == 0x100_0000_0000,
        Scale::of(System::Binary, Magnitude::Peta).divisor == 0x4_0000_0000_0000,
        Scale::of(System::Binary, Magnitude::Exa).divisor == 0x1000_0000_0000_0000,
{
    reveal_with_fuel(pow, 7);
}

/// Every scale divides by a thousand at least and by 2^60 at most, and its
/// unit is two or three letters, the last of them `B`.
pub proof fn lemma_valid_scale(scale: Scale)
    requires
        scale.valid(),
    ensures
        1000 <= scale.divisor <= 0x1000_0000_0000_0000,
        2 <= scale.unit.len() <= 3,
        scale.unit.last() == 'B',
{
    lemma_divisors();
}

/// A count reaches one unit exactly when, widened to a double, it is no less
/// than the divisor: every divisor is itself a double, and the quotient of two
/// doubles is below one only where the first is below the second.
pub proof fn lemma_fits_is_comparison(value: nat, system: System, magnitude: Magnitude)
    ensures
        fits(value, system, magnitude) == (widened(value) >= Scale::of(
            system,
            magnitude,
        ).divisor),
{
    lemma_divisors();
    lemma_ratio_below_one(value, Scale::of(system, magnitude).divisor);
}

/// The same, of every magnitude at once.
proof fn lemma_fits_are_comparisons(value: nat, system: System)
    ensures
        forall|magnitude: Magnitude| #[trigger]
            fits(value, system, magnitude) == (widened(value) >= Scale::of(
                system,
                magnitude,
            ).divisor),
{
    assert forall|magnitude: Magnitude| #[trigger]
        fits(value, system, magnitude) == (widened(value) >= Scale::of(
            system,
            magnitude,
        ).divisor) by {
        lemma_fits_is_comparison(value, system, magnitude);
    }
}

/// A count below 2^53 reaches one unit exactly when it is no less than the
/// divisor.
pub proof fn lemma_fits_exactly(value: nat, system: System, magnitude: Magnitude)
    requires
        value < 0x20_0000_0000_0000,
    ensures
        fits(value, system, magnitude) == (value >= Scale::of(system, magnitude).divisor),
{
    lemma_fits_is_comparison(value, system, magnitude);
}

/// A count that reaches one unit of a magnitude reaches one of every smaller
/// magnitude.
pub proof fn lemma_fits_below(value: nat, system: System, large: Magnitude, small: Magnitude)
    requires
        fits(value, system, large),
        small.rank() <= large.rank(),
    ensures
        fits(value, system, small),
{
    lemma_divisors();
    lemma_fits_is_comparison(value, system, large);
    lemma_fits_is_comparison(value, system, small);
}

/// The fitted magnitude is the largest of which the count reaches one unit:
/// the count reaches one unit of it, unless it is kilo, and no magnitude of
/// which the count reaches one unit is larger.
pub proof fn lemma_fitted_is_largest(value: nat, system: System, magnitude: Magnitude)
    ensures
        fitted(value, system) != Magnitude::Kilo ==> fits(value, system, fitted(value, system)),
        fits(value, system, magnitude) ==> magnitude.rank() <= fitted(value, system).rank(),
{
    lemma_divisors();
    lemma_fits_are_comparisons(value, system);
}

/// A larger count is never fitted with a smaller magnitude.
pub proof fn lemma_fitted_monotone(low: nat, high: nat, system: System)
    requires
        low <= high,
    ensures
        fitted(low, system).rank() <= fitted(high, system).rank(),
{
    lemma_divisors();
    lemma_widened_monotone(low, high);
    lemma_fits_are_comparisons(low, system);
    lemma_fits_are_comparisons(high, system);
}

/// The text of a count ends in the unit: in `B`, after an `i` in the binary
/// system; in the decimal system no `i` stands anywhere in it.
pub proof fn lemma_render_ends_in_unit(system: System, magnitude: Magnitude, value: nat)
    ensures
        ({
            let scale = Scale::of(system, magnitude);
            let text = scale.render(value);
            &&& text.len() >= 7
            &&& text.subrange(text.len() - scale.unit.len(), text.len() as int) == scale.unit
            &&& text[text.len() - scale.unit.len() - 1] == ' '
            &&& text.last() == 'B'
            &&& system == System::Binary ==> text[text.len() - 2] == 'i'
            &&& system == System::Decimal ==> !text.contains('i')
        }),
{
    let scale = Scale::of(system, magnitude);
    let text = scale.render(value);
    let number = fixed2(hundredths(value, scale.divisor));
    lemma_fixed2_shape(hundredths(value, scale.divisor));
    assert(text.subrange(text.len() - scale.unit.len(), text.len() as int) =~= scale.unit);
    assert(!is_digit('i'));
    if system == System::Decimal {
        assert forall|i: int| 0 <= i < text.len() implies text[i] != 'i' by {
            if i < number.len() {
                assert(text[i] == number[i]);
            }
        }
    }
}

/// Formats byte counts on one scale.
pub struct ByteSizeFormatter {
    divisor: u64,
    unit: String,
}

impl View for ByteSizeFormatter {
    type V = Scale;

    closed spec fn view(&self) -> Scale {
        Scale { divisor: self.divisor as nat, unit: self.unit@ }
    }
}

impl ByteSizeFormatter {
    #[verifier::type_invariant]
    spec fn well_formed(&self) -> bool {
        self@.valid()
    }

    /// A formatter for one system at one magnitude.
    pub fn new(system: System, magnitude: Magnitude) -> (out: Self)
        ensures
            out@ == Scale::of(system, magnitude),
    {
        proof {
            reveal_strlit("B");
        }
        let mut unit = String::from_str(magnitude.prefix_str());
        unit.append(system.infix_str());
        unit.append("B");
        let divisor = Self::compute_divisor(system, magnitude);
        assert(unit@ =~= Scale::of(system, magnitude).unit);
        ByteSizeFormatter { divisor, unit }
    }

    /// The base of the system to the power of the magnitude's rank.
    pub fn compute_divisor(system: System, magnitude: Magnitude) -> (out: u64)
        ensures
            out == Scale::of(system, magnitude).divisor,
    {
        let base = system.base_value();
        let rank = magnitude.ordinal();
        let mut out: u64 = 1;
        let mut done: u32 = 0;
        proof {
            reveal_with_fuel(pow, 7);
        }
        while done < rank
            invariant
                done <= rank <= 6,
                base == system.base(),
                out == pow(base as int, done as nat),
            decreases rank - done,
        {
            proof {
                reveal_with_fuel(pow, 7);
            }
            out = out * base;
            done = done + 1;
        }
        out
    }

    /// A formatter in the given system at the largest magnitude of which the
    /// count reaches one unit; at kilo where it reaches none. A count equal
    /// to a divisor reaches one unit of it.
    pub fn fit(value: u64, system: System) -> (out: Self)
        ensures
            out@ == Scale::of(system, fitted(value as nat, system)),
    {
        let wide = widen(value);
        let mut last = Magnitude::first();
        loop
            invariant
                wide == widened(value as nat),
                forall|m: Magnitude|
                    1 < m.rank() <= last.rank() ==> fits(value as nat, system, m),
            ensures
                last == fitted(value as nat, system),
            decreases 6 - last.rank(),
        {
            proof {
                lemma_divisors();
                lemma_fits_are_comparisons(value as nat, system);
            }
            match last.next() {
                None => {
                    break ;
                },
                Some(larger) => {
                    if wide < Self::compute_divisor(system, larger) as u128 {
                        break ;
                    }
                    last = larger;
                },
            }
        }
        Self::new(system, last)
    }

    /// The count as text, on the scale that `fit` chooses for it. The text
    /// ends in `B`, after an `i` in the binary system; in the decimal system
    /// it holds no `i`.
    pub fn format_auto(value: u64, system: System) -> (out: String)
        ensures
            out@ == Scale::of(system, fitted(value as nat, system)).render(value as nat),
            out@.len() >= 7,
            out@.last() == 'B',
            system == System::Binary ==> out@[out@.len() - 2] == 'i',
            system == System::Decimal ==> !out@.contains('i'),
    {
        proof {
            lemma_render_ends_in_unit(system, fitted(value as nat, system), value as nat);
        }
        Self::fit(value, system).format_value(value)
    }

    /// The unit's name.
    pub fn get_unit(&self) -> (out: &str)
        ensures
            out@ == self@.unit,
            self@.valid(),
    {
        proof {
            use_type_invariant(self);
        }
        self.unit.as_str()
    }

    /// The divisor.
    pub fn get_divisor(&self) -> (out: &u64)
        ensures
            *out == self@.divisor,
            self@.valid(),
    {
        proof {
            use_type_invariant(self);
        }
        &self.divisor
    }

    /// The count as text on this formatter's scale: the quotient with two
    /// places, a space, the unit.
    pub fn format_value(&self, value: u64) -> (out: String)
        ensures
            out@ == self@.render(value as nat),
    {
        proof {
            use_type_invariant(self);
            lemma_valid_scale(self@);
            reveal_strlit(" ");
        }
        let mut out = String::new();
        push_fixed2(&mut out, hundredths_of(value, self.divisor));
        out.append(" ");
        out.append(self.unit.as_str());
        assert(out@ =~= self@.render(value as nat));
        out
    }
}

} // verus!
