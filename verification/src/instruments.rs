//! Instrument selection: General MIDI program numbers by name, and the
//! plain data the renderers consume.

use vstd::prelude::*;
use crate::text::{chars_eq, chars_of, trim, trimmed};

verus! {

broadcast use vstd::seq_lib::group_seq_properties;

/// Pseudo-program selecting the General MIDI percussion channel.
pub const PERCUSSION: u8 = 128;

/// Oscillator waveforms.
#[derive(Debug, Clone, Copy, PartialEq, Eq, Structural)]
pub enum Waveform {
    /// Band-unlimited sawtooth.
    Saw,
    /// Pure sine.
    Sine,
    /// Square (50% duty).
    Square,
}

/// One note for the sampler, in absolute sample positions.
#[derive(Debug, Clone, Copy, PartialEq, Eq, Structural)]
pub struct SampledNote {
    /// Note-on position (samples).
    pub on: usize,
    /// Note-off position (samples).
    pub off: usize,
    /// MIDI key.
    pub key: u8,
    /// MIDI velocity (1–127).
    pub velocity: u8,
}

/// The text `str::to_lowercase` gives for `s` (full Unicode case mapping).
pub uninterp spec fn unicode_lowercase(s: Seq<char>) -> Seq<char>;

/// Lower-cases text with `str::to_lowercase`; the result is named
/// `unicode_lowercase` of the input, and nothing more is claimed of it.
#[verifier::external_body]
fn lowercase(s: &str) -> (r: String)
    ensures
        r@ == unicode_lowercase(s@),
{
    s.to_lowercase()
}

/// Whether `c` is an ASCII decimal digit.
pub open spec fn is_digit(c: char) -> bool {
    '0' <= c && c <= '9'
}

/// The value of a run of decimal digits.
pub open spec fn decimal_value(s: Seq<char>) -> int
    decreases s.len(),
{
    if s.len() == 0 {
        0
    } else {
        decimal_value(s.drop_last()) * 10 + (s.last() as int - '0' as int)
    }
}

/// The text after an optional leading `+`.
pub open spec fn unsigned_digits(s: Seq<char>) -> Seq<char> {
    if s.len() > 0 && s[0] == '+' {
        s.drop_first()
    } else {
        s
    }
}

/// Every character is a decimal digit.
pub open spec fn all_digits(d: Seq<char>) -> bool {
    forall|i: int| 0 <= i < d.len() ==> is_digit(#[trigger] d[i])
}

/// What `str::parse::<u8>` accepts: an optional `+`, then one or more
/// decimal digits whose value fits in a byte.
pub open spec fn parse_u8_spec(s: Seq<char>) -> Option<u8> {
    let d = unsigned_digits(s);
    if d.len() == 0 || !all_digits(d) {
        None
    } else if decimal_value(d) <= 255 {
        Some(decimal_value(d) as u8)
    } else {
        None
    }
}

proof fn lemma_decimal_prefix(d: Seq<char>, i: int)
    requires
        0 <= i <= d.len(),
        forall|k: int| 0 <= k < d.len() ==> is_digit(#[trigger] d[k]),
    ensures
        0 <= decimal_value(d.subrange(0, i)) <= decimal_value(d),
    decreases d.len() - i,
{
    if i < d.len() {
        lemma_decimal_prefix(d, i + 1);
        assert(d.subrange(0, i + 1).drop_last() =~= d.subrange(0, i));
    } else {
        assert(d.subrange(0, i) =~= d);
    }
    lemma_decimal_nonneg(d.subrange(0, i));
}

proof fn lemma_decimal_nonneg(d: Seq<char>)
    requires
        forall|k: int| 0 <= k < d.len() ==> is_digit(#[trigger] d[k]),
    ensures
        decimal_value(d) >= 0,
    decreases d.len(),
{
    if d.len() > 0 {
        lemma_decimal_nonneg(d.drop_last());
    }
}

/// Parses a byte the way `str::parse::<u8>` does.
fn parse_u8(s: &Vec<char>) -> (r: Option<u8>)
    ensures
        r == parse_u8_spec(s@),
{
    let start: usize = if s.len() > 0 && s[0] == '+' {
        1
    } else {
        0
    };
    let ghost d = unsigned_digits(s@);
    assert(d =~= s@.subrange(start as int, s@.len() as int));
    if start == s.len() {
        return None;
    }
    let mut acc: u32 = 0;
    let mut i: usize = start;
    while i < s.len()
        invariant
            start <= i <= s@.len(),
            start < s@.len(),
            d == s@.subrange(start as int, s@.len() as int),
            d == unsigned_digits(s@),
            forall|k: int| 0 <= k < i - start ==> is_digit(#[trigger] d[k]),
            acc == decimal_value(d.subrange(0, i - start)),
            acc <= 255,
        decreases s.len() - i,
    {
        let c = s[i];
        assert(c == d[i - start]);
        if !('0' <= c && c <= '9') {
            assert(!is_digit(d[i - start]));
            assert(!all_digits(d));
            return None;
        }
        let v: u32 = (c as u32) - ('0' as u32);
        proof {
            assert(d.subrange(0, i - start + 1).drop_last() =~= d.subrange(0, i - start));
        }
        assert(decimal_value(d.subrange(0, i - start + 1)) == acc * 10 + v);
        if acc * 10 + v > 255 {
            proof {
                if all_digits(d) {
                    lemma_decimal_prefix(d, i - start + 1);
                }
            }
            return None;
        }
        acc = acc * 10 + v;
        i += 1;
    }
    assert(d.subrange(0, d.len() as int) =~= d);
    assert(all_digits(d));
    Some(acc as u8)
}

/// The General MIDI program a lower-case instrument name selects.
pub open spec fn gm_program_named(n: Seq<char>) -> Option<u8> {
    if n == "piano"@ || n == "grand piano"@ || n == "acoustic piano"@ {
        Some(0u8)
    } else if n == "bright piano"@ {
        Some(1u8)
    } else if n == "electric piano"@ || n == "epiano"@ || n == "rhodes"@ {
        Some(4u8)
    } else if n == "harpsichord"@ {
        Some(6u8)
    } else if n == "celesta"@ {
        Some(8u8)
    } else if n == "music box"@ {
        Some(10u8)
    } else if n == "vibraphone"@ {
        Some(11u8)
    } else if n == "marimba"@ {
        Some(12u8)
    } else if n == "organ"@ || n == "hammond"@ {
        Some(16u8)
    } else if n == "church organ"@ {
        Some(19u8)
    } else if n == "accordion"@ {
        Some(21u8)
    } else if n == "harmonica"@ {
        Some(22u8)
    } else if n == "guitar"@ || n == "acoustic guitar"@ || n == "steel guitar"@ {
        Some(25u8)
    } else if n == "nylon guitar"@ || n == "classical guitar"@ {
        Some(24u8)
    } else if n == "jazz guitar"@ || n == "electric guitar clean"@ {
        Some(26u8)
    } else if n == "electric guitar"@ || n == "clean guitar"@ {
        Some(27u8)
    } else if n == "muted guitar"@ {
        Some(28u8)
    } else if n == "overdrive guitar"@ {
        Some(29u8)
    } else if n == "distortion guitar"@ || n == "distorted guitar"@ {
        Some(30u8)
    } else if n == "bass"@ || n == "acoustic bass"@ || n == "upright bass"@ {
        Some(32u8)
    } else if n == "fingered bass"@ || n == "electric bass"@ {
        Some(33u8)
    } else if n == "picked bass"@ {
        Some(34u8)
    } else if n == "fretless bass"@ {
        Some(35u8)
    } else if n == "slap bass"@ {
        Some(36u8)
    } else if n == "synth bass"@ {
        Some(38u8)
    } else if n == "violin"@ {
        Some(40u8)
    } else if n == "viola"@ {
        Some(41u8)
    } else if n == "cello"@ {
        Some(42u8)
    } else if n == "harp"@ {
        Some(46u8)
    } else if n == "strings"@ || n == "string ensemble"@ {
        Some(48u8)
    } else if n == "slow strings"@ {
        Some(49u8)
    } else if n == "synth strings"@ {
        Some(50u8)
    } else if n == "choir"@ || n == "voice"@ || n == "aahs"@ {
        Some(52u8)
    } else if n == "trumpet"@ {
        Some(56u8)
    } else if n == "trombone"@ {
        Some(57u8)
    } else if n == "tuba"@ {
        Some(58u8)
    } else if n == "french horn"@ {
        Some(60u8)
    } else if n == "brass"@ || n == "brass section"@ {
        Some(61u8)
    } else if n == "soprano sax"@ {
        Some(64u8)
    } else if n == "sax"@ || n == "alto sax"@ || n == "saxophone"@ {
        Some(65u8)
    } else if n == "tenor sax"@ {
        Some(66u8)
    } else if n == "oboe"@ {
        Some(68u8)
    } else if n == "clarinet"@ {
        Some(71u8)
    } else if n == "piccolo"@ {
        Some(72u8)
    } else if n == "flute"@ {
        Some(73u8)
    } else if n == "pan flute"@ {
        Some(75u8)
    } else if n == "lead"@ || n == "synth lead"@ || n == "square lead"@ {
        Some(80u8)
    } else if n == "saw lead"@ {
        Some(81u8)
    } else if n == "pad"@ || n == "synth pad"@ || n == "warm pad"@ {
        Some(89u8)
    } else if n == "new age pad"@ {
        Some(88u8)
    } else if n == "bells"@ || n == "tubular bells"@ {
        Some(14u8)
    } else if n == "sitar"@ {
        Some(104u8)
    } else if n == "banjo"@ {
        Some(105u8)
    } else if n == "kalimba"@ {
        Some(108u8)
    } else if n == "steel drums"@ {
        Some(114u8)
    } else if n == "drums"@ || n == "drum kit"@ || n == "percussion"@ || n == "kit"@ {
        Some(PERCUSSION)
    } else {
        None
    }
}

/// The program a trimmed, lower-cased name selects: a number up to
/// [`PERCUSSION`], or a known instrument name.
pub open spec fn program_spec(n: Seq<char>) -> Option<u8> {
    match parse_u8_spec(n) {
        Some(num) => if num <= PERCUSSION {
            Some(num)
        } else {
            None
        },
        None => gm_program_named(n),
    }
}

/// Maps an already trimmed and lower-cased instrument name to a GM program.
pub fn program_for_lowercase_name(n: &str) -> (r: Option<u8>)
    ensures
        r == program_spec(n@),
{
    let cs = chars_of(n);
    match parse_u8(&cs) {
        Some(num) => {
            return if num <= PERCUSSION {
                Some(num)
            } else {
                None
            };
        },
        None => {},
    }
    if chars_eq(&cs, "piano") || chars_eq(&cs, "grand piano") || chars_eq(&cs, "acoustic piano") {
        Some(0u8)
    } else if chars_eq(&cs, "bright piano") {
        Some(1u8)
    } else if chars_eq(&cs, "electric piano") || chars_eq(&cs, "epiano") || chars_eq(&cs, "rhodes") {
        Some(4u8)
    } else if chars_eq(&cs, "harpsichord") {
        Some(6u8)
    } else if chars_eq(&cs, "celesta") {
        Some(8u8)
    } else if chars_eq(&cs, "music box") {
        Some(10u8)
    } else if chars_eq(&cs, "vibraphone") {
        Some(11u8)
    } else if chars_eq(&cs, "marimba") {
        Some(12u8)
    } else if chars_eq(&cs, "organ") || chars_eq(&cs, "hammond") {
        Some(16u8)
    } else if chars_eq(&cs, "church organ") {
        Some(19u8)
    } else if chars_eq(&cs, "accordion") {
        Some(21u8)
    } else if chars_eq(&cs, "harmonica") {
        Some(22u8)
    } else if chars_eq(&cs, "guitar") || chars_eq(&cs, "acoustic guitar") || chars_eq(&cs, "steel guitar") {
        Some(25u8)
    } else if chars_eq(&cs, "nylon guitar") || chars_eq(&cs, "classical guitar") {
        Some(24u8)
    } else if chars_eq(&cs, "jazz guitar") || chars_eq(&cs, "electric guitar clean") {
        Some(26u8)
    } else if chars_eq(&cs, "electric guitar") || chars_eq(&cs, "clean guitar") {
        Some(27u8)
    } else if chars_eq(&cs, "muted guitar") {
        Some(28u8)
    } else if chars_eq(&cs, "overdrive guitar") {
        Some(29u8)
    } else if chars_eq(&cs, "distortion guitar") || chars_eq(&cs, "distorted guitar") {
        Some(30u8)
    } else if chars_eq(&cs, "bass") || chars_eq(&cs, "acoustic bass") || chars_eq(&cs, "upright bass") {
        Some(32u8)
    } else if chars_eq(&cs, "fingered bass") || chars_eq(&cs, "electric bass") {
        Some(33u8)
    } else if chars_eq(&cs, "picked bass") {
        Some(34u8)
    } else if chars_eq(&cs, "fretless bass") {
        Some(35u8)
    } else if chars_eq(&cs, "slap bass") {
        Some(36u8)
    } else if chars_eq(&cs, "synth bass") {
        Some(38u8)
    } else if chars_eq(&cs, "violin") {
        Some(40u8)
    } else if chars_eq(&cs, "viola") {
        Some(41u8)
    } else if chars_eq(&cs, "cello") {
        Some(42u8)
    } else if chars_eq(&cs, "harp") {
        Some(46u8)
    } else if chars_eq(&cs, "strings") || chars_eq(&cs, "string ensemble") {
        Some(48u8)
    } else if chars_eq(&cs, "slow strings") {
        Some(49u8)
    } else if chars_eq(&cs, "synth strings") {
        Some(50u8)
    } else if chars_eq(&cs, "choir") || chars_eq(&cs, "voice") || chars_eq(&cs, "aahs") {
        Some(52u8)
    } else if chars_eq(&cs, "trumpet") {
        Some(56u8)
    } else if chars_eq(&cs, "trombone") {
        Some(57u8)
    } else if chars_eq(&cs, "tuba") {
        Some(58u8)
    } else if chars_eq(&cs, "french horn") {
        Some(60u8)
    } else if chars_eq(&cs, "brass") || chars_eq(&cs, "brass section") {
        Some(61u8)
    } else if chars_eq(&cs, "soprano sax") {
        Some(64u8)
    } else if chars_eq(&cs, "sax") || chars_eq(&cs, "alto sax") || chars_eq(&cs, "saxophone") {
        Some(65u8)
    } else if chars_eq(&cs, "tenor sax") {
        Some(66u8)
    } else if chars_eq(&cs, "oboe") {
        Some(68u8)
    } else if chars_eq(&cs, "clarinet") {
        Some(71u8)
    } else if chars_eq(&cs, "piccolo") {
        Some(72u8)
    } else if chars_eq(&cs, "flute") {
        Some(73u8)
    } else if chars_eq(&cs, "pan flute") {
        Some(75u8)
    } else if chars_eq(&cs, "lead") || chars_eq(&cs, "synth lead") || chars_eq(&cs, "square lead") {
        Some(80u8)
    } else if chars_eq(&cs, "saw lead") {
        Some(81u8)
    } else if chars_eq(&cs, "pad") || chars_eq(&cs, "synth pad") || chars_eq(&cs, "warm pad") {
        Some(89u8)
    } else if chars_eq(&cs, "new age pad") {
        Some(88u8)
    } else if chars_eq(&cs, "bells") || chars_eq(&cs, "tubular bells") {
        Some(14u8)
    } else if chars_eq(&cs, "sitar") {
        Some(104u8)
    } else if chars_eq(&cs, "banjo") {
        Some(105u8)
    } else if chars_eq(&cs, "kalimba") {
        Some(108u8)
    } else if chars_eq(&cs, "steel drums") {
        Some(114u8)
    } else if chars_eq(&cs, "drums") || chars_eq(&cs, "drum kit") || chars_eq(&cs, "percussion") || chars_eq(&cs, "kit") {
        Some(PERCUSSION)
    } else {
        None
    }
}

/// Maps a human instrument name to a GM program (or [`PERCUSSION`]).
/// Accepts a bare number ("25") too. Returns `None` for unknown names.
pub fn program_for_name(name: &str) -> (r: Option<u8>)
    ensures
        r == program_spec(unicode_lowercase(trim(name@))),
{
    let t = trimmed(name);
    let n = lowercase(t.as_str());
    program_for_lowercase_name(n.as_str())
}

} // verus!
