//! The seven base-1024 scales and the rule that picks one for a magnitude.

use crate::decimal::{lemma_pow10_bound, pow10, power_of_ten, round_half_even};
use crate::diagnostic::{Diagnostic, DiagnosticView};
use vstd::arithmetic::div_mod::{lemma_fundamental_div_mod, lemma_fundamental_div_mod_converse};
use vstd::arithmetic::logarithm::{lemma_log0, lemma_log_is_ordered, lemma_log_s, log};
use vstd::arithmetic::power::pow;
use vstd::prelude::*;

verus! {

/// A base-1024 scale. Each scale divides a byte count by `1024^index`.
#[derive(Debug, Clone, Copy, PartialEq, Eq, Structural)]
pub enum Unit {
    Byte,
    Kilo,
    Mega,
    Giga,
    Tera,
    Peta,
    Exa,
}

/// A magnitude divided by a unit's divisor, kept exact: the value is
/// `whole + rest / divisor`.
#[derive(Debug, Clone, Copy, PartialEq, Eq)]
pub struct Scaled {
    /// The whole units.
    pub whole: u64,
    /// The bytes left over, fewer than one unit.
    pub rest: u64,
    /// The number of bytes in one unit.
    pub divisor: u64,
}

/// The smallest magnitude that lies beyond the largest scale: `1024^7`.
pub open spec fn scale_limit() -> int {
    1180591620717411303424
}

/// What choosing a unit for `magnitude` reports: an error for a negative
/// magnitude, a warning for one at or beyond `1024^7`, and nothing otherwise.
pub open spec fn auto_report(magnitude: int) -> Option<DiagnosticView> {
    if magnitude < 0 {
        Some(DiagnosticView::NegativeMagnitude { magnitude })
    } else if magnitude >= scale_limit() {
        Some(DiagnosticView::MagnitudeBeyondScale { magnitude })
    } else {
        None
    }
}

impl Unit {
    /// Position of the scale: 0 for `Byte` up to 6 for `Exa`.
    pub open spec fn index(self) -> nat {
        match self {
            Unit::Byte => 0,
            Unit::Kilo => 1,
            Unit::Mega => 2,
            Unit::Giga => 3,
            Unit::Tera => 4,
            Unit::Peta => 5,
            Unit::Exa => 6,
        }
    }

    /// The number of bytes that one of this unit stands for.
    pub open spec fn divisor(self) -> nat {
        match self {
            Unit::Byte => 1,
            Unit::Kilo => 1024,
            Unit::Mega => 1048576,
            Unit::Giga => 1073741824,
            Unit::Tera => 1099511627776,
            Unit::Peta => 1125899906842624,
            Unit::Exa => 1152921504606846976,
        }
    }

    /// The one-letter suffix of the scale.
    pub open spec fn symbol(self) -> char {
        match self {
            Unit::Byte => 'B',
            Unit::Kilo => 'K',
            Unit::Mega => 'M',
            Unit::Giga => 'G',
            Unit::Tera => 'T',
            Unit::Peta => 'P',
            Unit::Exa => 'E',
        }
    }

    /// `magnitude` lies in the range that this unit renders with a whole part
    /// from 1 to 1023.
    pub open spec fn holds(self, magnitude: int) -> bool {
        self.divisor() <= magnitude < 1024 * self.divisor()
    }

    /// The unit at an index. An index below the first stands for the first
    /// unit, and one beyond the last for the last.
    pub open spec fn at_index(index: int) -> Unit {
        if index <= 0 {
            Unit::Byte
        } else if index == 1 {
            Unit::Kilo
        } else if index == 2 {
            Unit::Mega
        } else if index == 3 {
            Unit::Giga
        } else if index == 4 {
            Unit::Tera
        } else if index == 5 {
            Unit::Peta
        } else {
            Unit::Exa
        }
    }

    /// The scale chosen when none is forced: the unit at the index
    /// `floor(log_1024(magnitude))`, where a magnitude below 1, which has no
    /// logarithm, counts as index 0.
    pub open spec fn auto_spec(magnitude: int) -> Unit {
        Unit::at_index(log(1024, magnitude))
    }

    /// Position of the scale as a machine integer.
    pub fn exponent(&self) -> (e: u32)
        ensures
            e == self.index(),
    {
        match self {
            Unit::Byte => 0,
            Unit::Kilo => 1,
            Unit::Mega => 2,
            Unit::Giga => 3,
            Unit::Tera => 4,
            Unit::Peta => 5,
            Unit::Exa => 6,
        }
    }

    /// The number of bytes that one of this unit stands for.
    pub fn base(&self) -> (d: u64)
        ensures
            d == self.divisor(),
    {
        match self {
            Unit::Byte => 1,
            Unit::Kilo => 1024,
            Unit::Mega => 1048576,
            Unit::Giga => 1073741824,
            Unit::Tera => 1099511627776,
            Unit::Peta => 1125899906842624,
            Unit::Exa => 1152921504606846976,
        }
    }

    /// The one-letter suffix of the scale.
    pub fn suffix(&self) -> (c: char)
        ensures
            c == self.symbol(),
    {
        match self {
            Unit::Byte => 'B',
            Unit::Kilo => 'K',
            Unit::Mega => 'M',
            Unit::Giga => 'G',
            Unit::Tera => 'T',
            Unit::Peta => 'P',
            Unit::Exa => 'E',
        }
    }

    /// The suffix as a string of its own.
    pub fn to_string(&self) -> (s: String)
        ensures
            s@ == seq![self.symbol()],
    {
        let mut s = String::new();
        s.push(self.suffix());
        s
    }

    /// Divides a magnitude by the unit's divisor, keeping the remainder.
    pub fn apply(&self, byte_size: u64) -> (scaled: Scaled)
        ensures
            scaled.divisor == self.divisor(),
            scaled.whole == byte_size as nat / self.divisor(),
            scaled.rest == byte_size as nat % self.divisor(),
            scaled.magnitude() == byte_size,
            scaled.wf(),
    {
        let divisor = self.base();
        proof {
            lemma_fundamental_div_mod(byte_size as int, divisor as int);
            assert(divisor * (byte_size / divisor) == (byte_size / divisor) * divisor)
                by (nonlinear_arith);
        }
        Scaled { whole: byte_size / divisor, rest: byte_size % divisor, divisor }
    }

    /// What `auto` has to report about a magnitude, if anything: that it is
    /// negative, or that it lies beyond the largest scale.
    pub fn diagnose(byte_size: i128) -> (report: Option<Diagnostic>)
        ensures
            match report {
                Some(report) => auto_report(byte_size as int) == Some(report@),
                None => auto_report(byte_size as int) is None,
            },
    {
        if byte_size < 0 {
            Some(Diagnostic::NegativeMagnitude { magnitude: byte_size })
        } else if byte_size >= 1180591620717411303424 {
            Some(Diagnostic::MagnitudeBeyondScale { magnitude: byte_size })
        } else {
            None
        }
    }

    /// Picks the scale for a magnitude when none is forced. Below 1024, and
    /// for a negative magnitude, it is `Byte`; at or beyond `1024^7` it is
    /// `Exa`; in between it is the one unit that holds the magnitude.
    pub fn auto(byte_size: i128) -> (unit: Unit)
        ensures
            unit == Unit::auto_spec(byte_size as int),
            byte_size < 1024 ==> unit == Unit::Byte,
            1024 <= byte_size < scale_limit() ==> unit.holds(byte_size as int),
            byte_size >= scale_limit() ==> unit == Unit::Exa,
    {
        proof {
            lemma_auto_spec(byte_size as int);
        }
        if byte_size < 1024 {
            Unit::Byte
        } else if byte_size < 1048576 {
            Unit::Kilo
        } else if byte_size < 1073741824 {
            Unit::Mega
        } else if byte_size < 1099511627776 {
            Unit::Giga
        } else if byte_size < 1125899906842624 {
            Unit::Tera
        } else if byte_size < 1152921504606846976 {
            Unit::Peta
        } else {
            Unit::Exa
        }
    }
}

impl Default for Unit {
    /// The default scale is `Byte`.
    fn default() -> (unit: Unit)
        ensures
            unit == Unit::Byte,
    {
        Unit::Byte
    }
}

impl Scaled {
    /// The magnitude in bytes that was divided.
    pub open spec fn magnitude(self) -> nat {
        (self.whole * self.divisor + self.rest) as nat
    }

    /// The left-over is less than one unit, and the magnitude fits 64 bits.
    pub open spec fn wf(self) -> bool {
        &&& self.rest < self.divisor
        &&& self.magnitude() <= u64::MAX
    }

    /// The value rounded to `places` decimal places, as a count of units of
    /// `10^-places`. A value half way between two counts goes to the even one.
    pub fn rounded(&self, places: usize) -> (count: u128)
        requires
            self.wf(),
            1024 <= self.divisor <= 1152921504606846976,
            places <= 20,
        ensures
            count == round_half_even(self.magnitude() * pow10(places as nat), self.divisor as nat),
    {
        let ten: u128 = power_of_ten(places);
        let whole = self.whole;
        let rest = self.rest;
        let den = self.divisor;
        proof {
            lemma_pow10_bound(places as nat);
        }
        assert(whole <= 0x40_0000_0000_0000) by (nonlinear_arith)
            requires
                whole * den + rest <= 0xffff_ffff_ffff_ffff,
                den >= 1024,
                rest >= 0,
                whole >= 0,
        ;
        assert(rest * ten <= 1152921504606846976 * 100_000_000_000_000_000_000) by (nonlinear_arith)
            requires
                0 <= rest < 1152921504606846976,
                0 < ten <= 100_000_000_000_000_000_000,
        ;
        assert(whole * ten <= 0x40_0000_0000_0000 * 100_000_000_000_000_000_000) by (nonlinear_arith)
            requires
                0 <= whole <= 0x40_0000_0000_0000,
                0 < ten <= 100_000_000_000_000_000_000,
        ;
        let spread: u128 = (rest as u128) * ten;
        let extra: u128 = spread / (den as u128);
        let left: u128 = spread % (den as u128);
        assert(extra <= ten) by (nonlinear_arith)
            requires
                spread == rest * ten,
                0 <= rest < den,
                extra == spread / (den as u128),
                ten > 0,
        ;
        let floor: u128 = (whole as u128) * ten + extra;
        proof {
            lemma_fundamental_div_mod(spread as int, den as int);
            assert(self.magnitude() * ten == floor * den + left) by (nonlinear_arith)
                requires
                    self.magnitude() == whole * den + rest,
                    spread == rest * ten,
                    spread == den * extra + left,
                    floor == whole * ten + extra,
            ;
            lemma_fundamental_div_mod_converse(
                self.magnitude() * ten,
                den as int,
                floor as int,
                left as int,
            );
        }
        if 2 * left < den as u128 || (2 * left == den as u128 && floor % 2 == 0) {
            floor
        } else {
            floor + 1
        }
    }
}

/// The powers of 1024 up to the seventh.
pub proof fn lemma_powers_of_1024()
    ensures
        pow(1024, 0) == 1,
        pow(1024, 1) == 1024,
        pow(1024, 2) == 1048576,
        pow(1024, 3) == 1073741824,
        pow(1024, 4) == 1099511627776,
        pow(1024, 5) == 1125899906842624,
        pow(1024, 6) == 1152921504606846976,
        pow(1024, 7) == scale_limit(),
{
    reveal(pow);
    assert(pow(1024, 0) == 1);
    assert(pow(1024, 1) == 1024 * pow(1024, 0));
    assert(pow(1024, 2) == 1024 * pow(1024, 1));
    assert(pow(1024, 3) == 1024 * pow(1024, 2));
    assert(pow(1024, 4) == 1024 * pow(1024, 3));
    assert(pow(1024, 5) == 1024 * pow(1024, 4));
    assert(pow(1024, 6) == 1024 * pow(1024, 5));
    assert(pow(1024, 7) == 1024 * pow(1024, 6));
}

/// A magnitude from `1024^k` up to `1024^(k + 1)` has the logarithm `k`.
pub proof fn lemma_log_1024(magnitude: int, k: nat)
    requires
        pow(1024, k) <= magnitude < pow(1024, k + 1),
    ensures
        log(1024, magnitude) == k,
    decreases k,
{
    reveal(pow);
    if k == 0 {
        lemma_log0(1024, magnitude);
    } else {
        lemma_log_s(1024, magnitude);
        lemma_log_1024(magnitude / 1024, (k - 1) as nat);
    }
}

/// The chosen scale by the range of the magnitude: `Byte` below 1024, then
/// each unit from its divisor up to the next unit's, and `Exa` from its
/// divisor on.
pub proof fn lemma_auto_spec(magnitude: int)
    ensures
        magnitude < 1024 ==> Unit::auto_spec(magnitude) == Unit::Byte,
        1024 <= magnitude < 1048576 ==> Unit::auto_spec(magnitude) == Unit::Kilo,
        1048576 <= magnitude < 1073741824 ==> Unit::auto_spec(magnitude) == Unit::Mega,
        1073741824 <= magnitude < 1099511627776 ==> Unit::auto_spec(magnitude) == Unit::Giga,
        1099511627776 <= magnitude < 1125899906842624 ==> Unit::auto_spec(magnitude)
            == Unit::Tera,
        1125899906842624 <= magnitude < 1152921504606846976 ==> Unit::auto_spec(magnitude)
            == Unit::Peta,
        1152921504606846976 <= magnitude ==> Unit::auto_spec(magnitude) == Unit::Exa,
{
    lemma_powers_of_1024();
    if magnitude < 1024 {
        assert(log(1024, magnitude) == 0) by {
            reveal(log);
        }
    } else if magnitude < 1048576 {
        lemma_log_1024(magnitude, 1);
    } else if magnitude < 1073741824 {
        lemma_log_1024(magnitude, 2);
    } else if magnitude < 1099511627776 {
        lemma_log_1024(magnitude, 3);
    } else if magnitude < 1125899906842624 {
        lemma_log_1024(magnitude, 4);
    } else if magnitude < 1152921504606846976 {
        lemma_log_1024(magnitude, 5);
    } else {
        lemma_log_1024(1152921504606846976, 6);
        lemma_log_is_ordered(1024, 1152921504606846976, magnitude);
    }
}

/// The divisor of a unit is 1024 to the power of its index, and the next
/// power of 1024 is where the unit stops holding a magnitude.
pub proof fn law_divisor_is_power(unit: Unit)
    ensures
        unit.divisor() == pow(1024, unit.index()),
        1024 * unit.divisor() == pow(1024, unit.index() + 1),
{
    lemma_powers_of_1024();
}

} // verus!
