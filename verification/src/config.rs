//! What a run is configured with: the output format, and the record layout
//! with the fields to rewrite.

use crate::decimal::{
    decimal, fixed_point, is_digit, lemma_decimal_digits, lemma_fixed_point_chars, pow10,
    push_decimal, push_fixed_point, round_half_even,
};
use crate::text::string_of;
use crate::unit::{lemma_auto_spec, lemma_powers_of_1024, Unit};
use vstd::arithmetic::power::pow;
use vstd::prelude::*;
use vstd::std_specs::convert::IntoSpec;

verus! {

/// The largest number of digits after the decimal point that is ever rendered.
pub const MAX_PRECISION: usize = 20;

/// How a magnitude is rendered.
#[derive(Debug, Clone, Copy, PartialEq, Eq)]
pub struct Format {
    /// The unit to use; `None` picks one by the magnitude.
    pub unit: Option<Unit>,
    /// The number of digits after the decimal point.
    pub precision: usize,
}

impl Format {
    /// The digits after the decimal point that are rendered: the precision,
    /// or 20 where it asks for more.
    pub open spec fn places(self) -> nat {
        if self.precision > MAX_PRECISION {
            MAX_PRECISION as nat
        } else {
            self.precision as nat
        }
    }

    /// The unit that `magnitude` is rendered in: the forced one, or else the
    /// one chosen by the magnitude.
    pub open spec fn unit_for(self, magnitude: nat) -> Unit {
        match self.unit {
            Some(unit) => unit,
            None => Unit::auto_spec(magnitude as int),
        }
    }

    /// The rendered text of `magnitude`. In bytes it is the whole number and
    /// `B`. In any other unit it is the magnitude over the unit's divisor,
    /// rounded half-to-even to `places()` digits after the point, and the
    /// unit's letter.
    pub open spec fn text(self, magnitude: nat) -> Seq<char> {
        let unit = self.unit_for(magnitude);
        if unit == Unit::Byte {
            decimal(magnitude).push('B')
        } else {
            fixed_point(
                round_half_even(magnitude * pow10(self.places()), unit.divisor()),
                self.places(),
            ).push(unit.symbol())
        }
    }

    /// A format with the given unit policy and precision.
    pub fn new(unit: Option<Unit>, precision: usize) -> (format: Format)
        ensures
            format.unit == unit,
            format.precision == precision,
    {
        Format { unit, precision }
    }

    /// Appends the rendered text of a byte count to `out`.
    pub fn push_text(&self, out: &mut Vec<char>, bytes: u64)
        ensures
            final(out)@ == old(out)@ + self.text(bytes as nat),
    {
        let unit = match self.unit {
            Some(unit) => unit,
            None => Unit::auto(bytes as i128),
        };
        match unit {
            Unit::Byte => {
                push_decimal(out, bytes as u128);
            },
            _ => {
                let places = if self.precision > MAX_PRECISION {
                    MAX_PRECISION
                } else {
                    self.precision
                };
                let count = unit.apply(bytes).rounded(places);
                push_fixed_point(out, count, places);
            },
        }
        out.push(unit.suffix());
    }

    /// Renders a byte count.
    pub fn render(&self, bytes: u64) -> (out: String)
        ensures
            out@ == self.text(bytes as nat),
    {
        let mut chars: Vec<char> = Vec::new();
        self.push_text(&mut chars, bytes);
        string_of(&chars)
    }
}

/// The configuration of a run.
#[derive(Debug, Clone)]
pub struct Config {
    /// The literal text that separates the fields of a line.
    pub delimiter: String,
    /// The 1-based positions of the fields to rewrite, in any order.
    pub fields: Vec<usize>,
    /// How the magnitudes are rendered.
    pub format: Format,
}

/// A configuration with its delimiter and positions as sequences.
pub struct ConfigView {
    pub delimiter: Seq<char>,
    pub fields: Seq<usize>,
    pub format: Format,
}

impl ConfigView {
    /// Whether the field at the 1-based `position` is to be rewritten.
    pub open spec fn selects(self, position: int) -> bool {
        exists|k: int| 0 <= k < self.fields.len() && #[trigger] self.fields[k] == position
    }
}

impl View for Config {
    type V = ConfigView;

    open spec fn view(&self) -> ConfigView {
        ConfigView { delimiter: self.delimiter@, fields: self.fields@, format: self.format }
    }
}

impl Config {
    /// A configuration from its four settings.
    pub fn new(delimiter: String, fields: Vec<usize>, unit: Option<Unit>, precision: usize) -> (config:
        Config)
        ensures
            config@.delimiter == delimiter@,
            config@.fields == fields@,
            config@.format == (Format { unit, precision }),
    {
        Config { delimiter, fields, format: Format::new(unit, precision) }
    }

    /// Whether the field at the 1-based `position` is to be rewritten.
    pub fn selects(&self, position: usize) -> (selected: bool)
        ensures
            selected == self@.selects(position as int),
    {
        let mut k: usize = 0;
        while k < self.fields.len()
            invariant
                k <= self.fields.len(),
                forall|j: int| 0 <= j < k ==> self.fields@[j] != position,
            decreases self.fields.len() - k,
        {
            if self.fields[k] == position {
                assert(self@.fields[k as int] == position);
                return true;
            }
            k = k + 1;
        }
        false
    }
}

impl Default for Config {
    /// A tab as the delimiter, the first field, and the default format.
    fn default() -> (config: Config)
        ensures
            config@.delimiter == seq!['\t'],
            config@.fields == seq![1usize],
            config@.format == (Format { unit: None, precision: 1 }),
    {
        let mut delimiter = String::new();
        delimiter.push('\t');
        let mut fields: Vec<usize> = Vec::new();
        fields.push(1);
        Config { delimiter, fields, format: Format::default() }
    }
}

impl Default for Format {
    /// No forced unit, and one digit after the decimal point.
    fn default() -> (format: Format)
        ensures
            format.unit == None::<Unit>,
            format.precision == 1,
    {
        Format { unit: None, precision: 1 }
    }
}

/// Renders a byte count in human-readable form: the text of the 64-bit
/// value that `bytes` converts into.
pub fn human_readable<T: Into<u64>>(bytes: T, format: &Format) -> (out: String)
    ensures
        exists|n: u64|
            call_ensures(<T as Into<u64>>::into, (bytes,), n) && out@ == #[trigger] format.text(
                n as nat,
            ),
        T::obeys_into_spec() ==> out@ == format.text(bytes.into_spec() as nat),
{
    let n: u64 = bytes.into();
    let out = format.render(n);
    assert(out@ == format.text(n as nat));
    out
}

/// The characters that rendered text is made of: the digits, the decimal
/// point and the seven unit letters.
pub open spec fn rendering_char(c: char) -> bool {
    is_digit(c) || c == '.' || c == 'B' || c == 'K' || c == 'M' || c == 'G' || c == 'T' || c == 'P'
        || c == 'E'
}

/// Rendered text holds rendering characters only, and ends in the letter of
/// the unit it is rendered in.
pub proof fn lemma_text_chars(format: Format, magnitude: nat)
    ensures
        format.text(magnitude).len() >= 2,
        format.text(magnitude).last() == format.unit_for(magnitude).symbol(),
        forall|i: int|
            0 <= i < format.text(magnitude).len() ==> rendering_char(
                #[trigger] format.text(magnitude)[i],
            ),
{
    let unit = format.unit_for(magnitude);
    if unit == Unit::Byte {
        lemma_decimal_digits(magnitude);
    } else {
        let scaled = round_half_even(magnitude * pow10(format.places()), unit.divisor());
        lemma_fixed_point_chars(scaled, format.places());
        lemma_decimal_digits(scaled);
        lemma_decimal_digits(scaled / pow10(format.places()));
    }
}

/// With no unit forced, a 64-bit magnitude below 1024 is rendered in bytes,
/// and any other in the unit `u` with
/// `1024^index(u) <= magnitude < 1024^(index(u) + 1)`. No other unit has the
/// magnitude in that range of its own. The rendered text ends in the chosen
/// unit's letter, whatever the precision.
pub proof fn law_auto_unit(magnitude: u64, precision: usize)
    ensures
        ({
            let format = Format { unit: None, precision };
            let chosen = format.unit_for(magnitude as nat);
            &&& magnitude < 1024 ==> chosen == Unit::Byte
            &&& magnitude >= 1024 ==> pow(1024, chosen.index()) <= magnitude < pow(
                1024,
                chosen.index() + 1,
            )
            &&& forall|unit: Unit|
                pow(1024, #[trigger] unit.index()) <= magnitude < pow(1024, unit.index() + 1)
                    ==> unit == chosen
            &&& format.text(magnitude as nat).last() == chosen.symbol()
        }),
{
    let format = Format { unit: None, precision };
    let chosen = format.unit_for(magnitude as nat);
    lemma_text_chars(format, magnitude as nat);
    lemma_powers_of_1024();
    lemma_auto_spec(magnitude as int);
    assert forall|unit: Unit|
        pow(1024, #[trigger] unit.index()) <= magnitude < pow(
            1024,
            unit.index() + 1,
        ) implies unit == chosen by {
        lemma_powers_of_1024();
    }
}

/// A precision above twenty renders as twenty does.
pub proof fn law_precision_clamped(magnitude: u64, unit: Option<Unit>, precision: usize)
    requires
        precision >= MAX_PRECISION,
    ensures
        (Format { unit, precision }).text(magnitude as nat) == (Format {
            unit,
            precision: MAX_PRECISION,
        }).text(magnitude as nat),
{
}

} // verus!
