//! Literal coordinate source: parsing a `"<lat>,<lon>"` specification
//! string and rendering each value in degree/decimal-minute form with a
//! hemisphere letter.
//!
//! A decimal-degree value is modelled exactly, as an integer degree part
//! together with the value of its first ten fractional digits (scaled to
//! units of `10^-10` degrees), plus one bit recording whether a nonzero
//! fractional digit beyond the tenth was dropped. Tokens use plain
//! decimal notation: an optional sign, digits, at most one dot —
//! exponent forms, infinities and NaN are not numbers here.

use vstd::prelude::*;

use crate::digits::{dec_digits, pad6, pow10, u64_to_pad6_string, u64_to_string};
use crate::digits::{lemma_pow10_10, lemma_pow10_monotonic};
use crate::tagger::Tagger;
use crate::text::{count_char, first_index_of};
use crate::text::{
    lemma_count_char_take_succ, lemma_first_index_of, lemma_first_index_of_absent,
    lemma_first_index_of_at,
};

verus! {

/// Whether `c` is a decimal digit.
pub open spec fn is_dec_digit(c: char) -> bool {
    48 <= c as u32 <= 57
}

/// The value of a decimal digit character.
pub open spec fn dec_digit_val(c: char) -> nat {
    (c as u32 - 48) as nat
}

/// Whether every character of `s` is a decimal digit.
pub open spec fn all_dec_digits(s: Seq<char>) -> bool {
    forall|i: int| 0 <= i < s.len() ==> is_dec_digit(s[i])
}

/// The value of a digit string read in base ten (zero for the empty
/// string).
pub open spec fn digits_val(s: Seq<char>) -> nat
    decreases s.len(),
{
    if s.len() == 0 {
        0
    } else {
        digits_val(s.drop_last()) * 10 + dec_digit_val(s.last())
    }
}

/// A digit string of length `n` is worth less than `10^n`.
pub proof fn lemma_digits_val_bound(s: Seq<char>)
    requires
        all_dec_digits(s),
    ensures
        digits_val(s) < pow10(s.len()),
    decreases s.len(),
{
    if s.len() > 0 {
        lemma_digits_val_bound(s.drop_last());
        assert(dec_digit_val(s.last()) <= 9);
        assert(digits_val(s.drop_last()) * 10 + 9 < pow10(s.len())) by (nonlinear_arith)
            requires
                digits_val(s.drop_last()) < pow10((s.len() - 1) as nat),
                pow10(s.len()) == 10 * pow10((s.len() - 1) as nat),
        {
        }
    }
}

/// Whether `c` is a nonzero decimal digit.
pub open spec fn is_nonzero_digit(c: char) -> bool {
    49 <= c as u32 <= 57
}

/// Whether any nonzero digit occurs in `t`; a signed zero has none.
pub open spec fn has_nonzero_digit(t: Seq<char>) -> bool {
    exists|i: int| 0 <= i < t.len() && is_nonzero_digit(t[i])
}

/// Whether `t` starts with an explicit sign character.
pub open spec fn has_sign(t: Seq<char>) -> bool {
    t.len() > 0 && (t[0] == '+' || t[0] == '-')
}

/// Whether `t` denotes a strictly negative value: a leading minus sign
/// on a token with some nonzero digit. A minus-signed zero is not
/// negative — zero takes the non-negative hemisphere.
pub open spec fn is_negative(t: Seq<char>) -> bool {
    t.len() > 0 && t[0] == '-' && has_nonzero_digit(t)
}

/// `t` without its sign character, if any.
pub open spec fn body_of(t: Seq<char>) -> Seq<char> {
    if has_sign(t) {
        t.subrange(1, t.len() as int)
    } else {
        t
    }
}

/// The digits before the first dot of an unsigned decimal body.
pub open spec fn int_digits_of(b: Seq<char>) -> Seq<char> {
    b.subrange(0, first_index_of(b, '.'))
}

/// The digits after the first dot of an unsigned decimal body (empty if
/// there is no dot).
pub open spec fn frac_digits_of(b: Seq<char>) -> Seq<char> {
    if first_index_of(b, '.') == b.len() {
        Seq::empty()
    } else {
        b.subrange(first_index_of(b, '.') + 1, b.len() as int)
    }
}

/// Whether an unsigned decimal body holds only digits around at most
/// one dot.
pub open spec fn body_digits_ok(b: Seq<char>) -> bool {
    all_dec_digits(int_digits_of(b)) && all_dec_digits(frac_digits_of(b))
}

/// Whether `t` is a plain signed decimal number: an optional sign, then
/// digits with at most one dot and at least one digit.
pub open spec fn valid_decimal(t: Seq<char>) -> bool {
    let b = body_of(t);
    &&& body_digits_ok(b)
    &&& int_digits_of(b).len() + frac_digits_of(b).len() > 0
}

/// The integer degree part of `t`.
pub open spec fn dec_whole(t: Seq<char>) -> nat {
    digits_val(int_digits_of(body_of(t)))
}

/// The first ten fractional digits of `t`.
pub open spec fn frac10_of(t: Seq<char>) -> Seq<char> {
    let f = frac_digits_of(body_of(t));
    if f.len() <= 10 {
        f
    } else {
        f.take(10)
    }
}

/// The fractional part of `t` in units of `10^-10` degrees, truncated to
/// ten digits.
pub open spec fn dec_frac_e10(t: Seq<char>) -> nat {
    digits_val(frac10_of(t)) * pow10((10 - frac10_of(t).len()) as nat)
}

/// Whether the ten-digit model drops a nonzero fractional digit of `t`:
/// some digit beyond the tenth is not zero.
pub open spec fn dropped_frac_nonzero(t: Seq<char>) -> bool {
    let f = frac_digits_of(body_of(t));
    exists|i: int| 10 <= i < f.len() && is_nonzero_digit(f[i])
}

/// A nonzero digit somewhere in the unsigned part is a nonzero digit
/// somewhere in the token, and the other way round: the sign character
/// is no digit.
proof fn lemma_nonzero_bridge(s: Seq<char>, from: int, i0: int, to: int, saw: bool)
    requires
        0 <= from <= i0 <= to <= s.len(),
        i0 - from <= 1,
        i0 > from ==> (s[from] == '+' || s[from] == '-'),
        saw == exists|k: int| i0 <= k < to && is_nonzero_digit(s[k]),
    ensures
        has_nonzero_digit(s.subrange(from, to)) == saw,
{
    let t = s.subrange(from, to);
    if saw {
        let k = choose|k: int| i0 <= k < to && is_nonzero_digit(s[k]);
        assert(t[k - from] == s[k]);
        assert(has_nonzero_digit(t));
    }
    if has_nonzero_digit(t) {
        let i = choose|i: int| 0 <= i < t.len() && is_nonzero_digit(t[i]);
        assert(s[from + i] == t[i]);
        assert(from + i >= i0);
        assert(saw);
    }
}

/// A nonzero digit beyond the tenth of the fractional run corresponds
/// exactly to a nonzero character beyond position `dot + 10`.
proof fn lemma_beyond_bridge(s: Seq<char>, dot: int, to: int, f: Seq<char>, beyond: bool)
    requires
        0 <= dot < to <= s.len(),
        f == s.subrange(dot + 1, to),
        beyond == exists|k: int| dot + 11 <= k < to && is_nonzero_digit(s[k]),
    ensures
        (exists|i: int| 10 <= i < f.len() && is_nonzero_digit(f[i])) == beyond,
{
    if beyond {
        let k = choose|k: int| dot + 11 <= k < to && is_nonzero_digit(s[k]);
        assert(f[k - dot - 1] == s[k]);
        assert(10 <= k - dot - 1 < f.len() && is_nonzero_digit(f[k - dot - 1]));
    }
    if exists|i: int| 10 <= i < f.len() && is_nonzero_digit(f[i]) {
        let i = choose|i: int| 10 <= i < f.len() && is_nonzero_digit(f[i]);
        assert(s[dot + 1 + i] == f[i]);
        assert(beyond);
    }
}

/// A decimal-degree magnitude with its sign: `whole` integer degrees plus
/// `frac_e10` units of `10^-10` degrees. `negative` says the value is
/// strictly below zero; `frac_rest_nonzero` says a nonzero fractional
/// digit beyond the tenth was dropped, so the true magnitude exceeds the
/// stored one.
pub struct DecimalDegrees {
    pub negative: bool,
    pub whole: u64,
    pub frac_e10: u64,
    pub frac_rest_nonzero: bool,
}

/// One scan of the unsigned body `[i0, to)`: `None` when some character
/// is neither a digit nor the first dot, so the token is not a valid
/// decimal. Otherwise the position of the first dot (`to` when none),
/// whether any nonzero digit occurs, and whether one occurs more than
/// ten places after the dot.
#[verifier::loop_isolation(false)]
#[verifier::rlimit(60)]
fn scan_body(s: &str, i0: usize, to: usize) -> (r: Option<(usize, bool, bool)>)
    requires
        i0 <= to <= s@.len(),
    ensures
        match r {
            Some(x) => {
                let (dot, saw, beyond) = x;
                &&& i0 <= dot <= to
                &&& dot < to ==> s@[dot as int] == '.'
                &&& forall|k: int| i0 <= k < dot ==> s@[k] != '.'
                &&& dot == to ==> forall|k: int| i0 <= k < to ==> s@[k] != '.'
                &&& forall|k: int| i0 <= k < to && k != dot ==> is_dec_digit(s@[k])
                &&& saw == exists|k: int| i0 <= k < to && is_nonzero_digit(s@[k])
                &&& (dot == to ==> !beyond)
                &&& (dot < to ==> beyond == exists|k: int|
                    dot + 11 <= k < to && is_nonzero_digit(s@[k]))
            },
            None => !body_digits_ok(s@.subrange(i0 as int, to as int)),
        },
{
    let ghost b = s@.subrange(i0 as int, to as int);
    // One scan validates every character, finds the first dot, and
    // remembers whether any nonzero digit occurs — anywhere, and beyond
    // the tenth fractional place.
    let mut saw_nonzero = false;
    let mut beyond = false;
    let mut j = i0;
    let mut dot = to;  // `to` means: no dot seen
    while j < to
        invariant
            i0 <= j <= to <= s@.len(),
            b == s@.subrange(i0 as int, to as int),
            dot == to || (i0 <= dot < j && s@[dot as int] == '.'),
            dot == to ==> forall|k: int| i0 <= k < j ==> s@[k] != '.',
            dot < to ==> forall|k: int| i0 <= k < dot ==> s@[k] != '.',
            forall|k: int| i0 <= k < j && k != dot ==> is_dec_digit(s@[k]),
            saw_nonzero == exists|k: int| i0 <= k < j && is_nonzero_digit(s@[k]),
            dot == to ==> !beyond,
            dot < to ==> beyond == exists|k: int|
                dot + 11 <= k < j && is_nonzero_digit(s@[k]),
        decreases to - j,
    {
        let c = s.get_char(j);
        if c == '.' {
            if dot < to {
                // A second dot: the fractional digit run holds a dot, so
                // the token is not a valid decimal.
                proof {
                    lemma_first_index_of_at(b, '.', dot - i0);
                    let f = frac_digits_of(b);
                    assert(f[j - dot - 1] == s@[j as int]);
                    assert(!is_dec_digit('.'));
                }
                return None;
            }
            dot = j;
        } else {
            let cu = c as u32;
            if !(48 <= cu && cu <= 57) {
                // Not a digit and not a dot: the token is invalid
                // whichever side of the (possibly later) dot this is.
                proof {
                    lemma_first_index_of(b, '.');
                    let fi = first_index_of(b, '.');
                    if fi <= j - i0 && fi < b.len() {
                        assert(b[fi] == s@[fi + i0]);
                        if dot == to {
                            assert(s@[fi + i0] != '.');
                        } else {
                            assert(fi != dot - i0 ==> s@[fi + i0] != '.');
                            if fi == dot - i0 {
                                let g = frac_digits_of(b);
                                assert(g[j - dot - 1] == s@[j as int]);
                            }
                        }
                    }
                    if j - i0 < fi {
                        let g = int_digits_of(b);
                        assert(g[j - i0] == s@[j as int]);
                    }
                }
                return None;
            }
            if cu != 48 {
                saw_nonzero = true;
                if dot < to && j - dot > 10 {
                    beyond = true;
                }
            }
        }
        j += 1;
    }
    Some((dot, saw_nonzero, beyond))
}

/// Parses the characters of `s` in `[from, to)` as a plain signed
/// decimal number. Returns `None` when the range is not a valid decimal,
/// or when its integer degree part exceeds 1000 — far outside either
/// coordinate range, so its exact value is never needed.
#[verifier::loop_isolation(false)]
#[verifier::rlimit(100)]
pub fn parse_degrees(s: &str, from: usize, to: usize) -> (r: Option<DecimalDegrees>)
    requires
        from <= to <= s@.len(),
    ensures
        ({
            let t = s@.subrange(from as int, to as int);
            match r {
                Some(a) => valid_decimal(t) && dec_whole(t) <= 1000 && a.negative == is_negative(
                    t,
                ) && a.whole == dec_whole(t) && a.frac_e10 == dec_frac_e10(t) && a.frac_e10
                    < 10000000000 && a.frac_rest_nonzero == dropped_frac_nonzero(t),
                None => !valid_decimal(t) || dec_whole(t) > 1000,
            }
        }),
{
    let ghost t = s@.subrange(from as int, to as int);
    let mut minus = false;
    let mut i0 = from;
    if from < to {
        let c = s.get_char(from);
        if c == '+' || c == '-' {
            minus = c == '-';
            i0 = from + 1;
        }
    }
    let ghost b = s@.subrange(i0 as int, to as int);
    proof {
        assert(b =~= body_of(t));
    }
    let (dot, saw_nonzero, beyond) = match scan_body(s, i0, to) {
        Some(x) => x,
        None => {
            return None;
        },
    };
    // Everything in the body is a digit apart from at most one dot, the
    // first one sitting at `dot` (absolute) if any.
    let int_end = if dot < to {
        dot
    } else {
        to
    };
    proof {
        if dot < to {
            lemma_first_index_of_at(b, '.', dot - i0);
        } else {
            lemma_first_index_of_absent(b, '.');
        }
        assert(int_digits_of(b) =~= s@.subrange(i0 as int, int_end as int));
        if dot < to {
            assert(frac_digits_of(b) =~= s@.subrange(dot as int + 1, to as int));
        }
    }
    if int_end == i0 && (dot >= to || to == dot + 1) {
        // No digit at all (an empty body, a lone sign, or a lone dot).
        return None;
    }
    // The integer degree part, capped just above the coordinate ranges.
    let mut whole: u64 = 0;
    let mut j = i0;
    while j < int_end
        invariant
            i0 <= j <= int_end <= to <= s@.len(),
            forall|k: int| i0 <= k < int_end ==> is_dec_digit(s@[k]),
            ({
                let iv = digits_val(s@.subrange(i0 as int, j as int));
                &&& (iv <= 1000 ==> whole == iv)
                &&& (iv > 1000 ==> whole > 1000)
                &&& whole <= 10009
            }),
        decreases int_end - j,
    {
        let c = s.get_char(j);
        let d = (c as u32 - 48) as u64;
        proof {
            assert(s@.subrange(i0 as int, j + 1 as int).drop_last() =~= s@.subrange(
                i0 as int,
                j as int,
            ));
        }
        if whole <= 1000 {
            whole = whole * 10 + d;
        }
        j += 1;
    }
    proof {
        assert(s@.subrange(i0 as int, int_end as int) == int_digits_of(b));
    }
    if whole > 1000 {
        return None;
    }
    // The first ten fractional digits, then scaled to units of 10^-10.
    let mut frac: u64 = 0;
    let mut ftaken: usize = 0;
    if dot < to {
        let fstart = dot + 1;
        let flen = to - fstart;
        let ftake = if flen < 10 {
            flen
        } else {
            10
        };
        let fend = fstart + ftake;
        proof {
            assert(frac10_of(t) =~= s@.subrange(fstart as int, fend as int));
        }
        j = fstart;
        while j < fend
            invariant
                dot < fstart <= j <= fend <= to <= s@.len(),
                fend - fstart <= 10,
                forall|k: int| fstart <= k < fend ==> is_dec_digit(s@[k]),
                frac == digits_val(s@.subrange(fstart as int, j as int)),
                frac < pow10((j - fstart) as nat),
            decreases fend - j,
        {
            let c = s.get_char(j);
            let d = (c as u32 - 48) as u64;
            proof {
                lemma_pow10_monotonic((j - fstart) as nat, 9);
                lemma_pow10_10();
                assert(pow10(10) == 10 * pow10(9));
                assert(s@.subrange(fstart as int, j + 1 as int).drop_last() =~= s@.subrange(
                    fstart as int,
                    j as int,
                ));
            }
            frac = frac * 10 + d;
            j += 1;
        }
        ftaken = ftake;
    }
    proof {
        if dot < to {
            assert(frac == digits_val(frac10_of(t)));
            assert(ftaken == frac10_of(t).len());
        } else {
            assert(frac10_of(t) =~= Seq::<char>::empty());
            assert(frac == digits_val(frac10_of(t)));
        }
    }
    // Scale by the missing digits so the fraction sits in 10^-10 units.
    proof {
        assert(pow10(0) == 1);
        assert(digits_val(frac10_of(t)) * 1 == digits_val(frac10_of(t)));
        assert(frac < pow10(ftaken as nat)) by {
            lemma_digits_val_bound(frac10_of(t));
        }
    }
    let mut k = ftaken;
    while k < 10
        invariant
            ftaken <= k <= 10,
            frac == digits_val(frac10_of(t)) * pow10((k - ftaken) as nat),
            frac < pow10(k as nat),
            ftaken == frac10_of(t).len(),
        decreases 10 - k,
    {
        proof {
            lemma_pow10_monotonic(k as nat, 9);
            lemma_pow10_10();
            assert(pow10(10) == 10 * pow10(9));
            assert((digits_val(frac10_of(t)) * pow10((k - ftaken) as nat)) * 10 == digits_val(
                frac10_of(t),
            ) * (pow10((k - ftaken) as nat) * 10)) by (nonlinear_arith);
            assert(pow10((k - ftaken) as nat) * 10 == pow10((k + 1 - ftaken) as nat));
        }
        frac = frac * 10;
        k += 1;
    }
    let negative = minus && saw_nonzero;
    proof {
        lemma_pow10_10();
        assert(frac == dec_frac_e10(t));
        // The sign: a minus counts only on a nonzero value.
        lemma_nonzero_bridge(s@, from as int, i0 as int, to as int, saw_nonzero);
        assert(negative == is_negative(t));
        // The dropped-digit flag covers exactly the fractional digits
        // beyond the tenth.
        if dot < to {
            lemma_beyond_bridge(s@, dot as int, to as int, frac_digits_of(b), beyond);
        } else {
            assert(frac_digits_of(b).len() == 0);
        }
        assert(beyond == dropped_frac_nonzero(t));
    }
    Some(DecimalDegrees { negative, whole, frac_e10: frac, frac_rest_nonzero: beyond })
}

/// The hemisphere letter: N/S for latitude, E/W for longitude, a
/// negative value picking S or W (zero counts as non-negative).
pub open spec fn hemi_char(negative: bool, is_lat: bool) -> char {
    if negative {
        if is_lat {
            'S'
        } else {
            'W'
        }
    } else {
        if is_lat {
            'N'
        } else {
            'E'
        }
    }
}

/// The decimal minutes of a fraction given in `10^-10` degrees, in
/// micro-minutes, rounded half-up to six decimal places.
pub open spec fn minutes_micro(frac_e10: nat) -> nat {
    (frac_e10 * 6 + 500) / 1000
}

/// The degree/decimal-minute rendering `"{d},{m:.6}{hemisphere}"`: whole
/// degrees, a comma, minutes with exactly six decimal places, and the
/// hemisphere letter.
pub open spec fn format_dm(negative: bool, whole: nat, frac_e10: nat, is_lat: bool) -> Seq<char> {
    let mm = minutes_micro(frac_e10);
    dec_digits(whole) + seq![','] + dec_digits(mm / 1000000) + seq!['.'] + pad6(mm % 1000000)
        + seq![hemi_char(negative, is_lat)]
}

/// Renders a decimal-degree value as whole degrees and decimal minutes
/// with six decimal places and a hemisphere letter.
pub fn dd_to_dmfract(dd: &DecimalDegrees, is_lat: bool) -> (r: String)
    requires
        dd.frac_e10 < 10000000000,
    ensures
        r@ == format_dm(dd.negative, dd.whole as nat, dd.frac_e10 as nat, is_lat),
{
    let mm: u64 = (dd.frac_e10 * 6 + 500) / 1000;
    let mut out = u64_to_string(dd.whole);
    out.append(",");
    let mint = u64_to_string(mm / 1000000);
    out.append(mint.as_str());
    out.append(".");
    let mfrac = u64_to_pad6_string(mm % 1000000);
    out.append(mfrac.as_str());
    let h = if dd.negative {
        if is_lat {
            "S"
        } else {
            "W"
        }
    } else {
        if is_lat {
            "N"
        } else {
            "E"
        }
    };
    out.append(h);
    proof {
        reveal_strlit(",");
        reveal_strlit(".");
        reveal_strlit("N");
        reveal_strlit("S");
        reveal_strlit("E");
        reveal_strlit("W");
        assert(out@ =~= format_dm(dd.negative, dd.whole as nat, dd.frac_e10 as nat, is_lat));
    }
    out
}

/// The token before the single comma of a specification string.
pub open spec fn lat_token(s: Seq<char>) -> Seq<char> {
    s.subrange(0, first_index_of(s, ','))
}

/// The token after the single comma of a specification string.
pub open spec fn lon_token(s: Seq<char>) -> Seq<char> {
    s.subrange(first_index_of(s, ',') + 1, s.len() as int)
}

/// Whether a latitude token is valid: a decimal with magnitude at most
/// 90 degrees — exactly 90 only when every fractional digit is zero,
/// however many there are.
pub open spec fn lat_in_range(t: Seq<char>) -> bool {
    valid_decimal(t) && (dec_whole(t) < 90 || (dec_whole(t) == 90 && dec_frac_e10(t) == 0
        && !dropped_frac_nonzero(t)))
}

/// Whether a longitude token is valid: a decimal with magnitude
/// strictly below 180 degrees.
pub open spec fn lon_in_range(t: Seq<char>) -> bool {
    valid_decimal(t) && dec_whole(t) < 180
}

/// Whether a specification string yields a usable literal source:
/// exactly one comma, a valid latitude before it, a valid longitude
/// after it.
pub open spec fn spec_usable(s: Seq<char>) -> bool {
    &&& count_char(s, ',') == 1
    &&& lat_in_range(lat_token(s))
    &&& lon_in_range(lon_token(s))
}

/// The latitude string a usable specification yields.
pub open spec fn spec_lat_string(s: Seq<char>) -> Seq<char> {
    format_dm(
        is_negative(lat_token(s)),
        dec_whole(lat_token(s)),
        dec_frac_e10(lat_token(s)),
        true,
    )
}

/// The longitude string a usable specification yields.
pub open spec fn spec_lon_string(s: Seq<char>) -> Seq<char> {
    format_dm(
        is_negative(lon_token(s)),
        dec_whole(lon_token(s)),
        dec_frac_e10(lon_token(s)),
        false,
    )
}

/// The literal coordinate source: one formatted coordinate pair,
/// applied identically to every file. An unusable source holds two
/// empty strings; the fields are set only by validated parsing and
/// never change afterwards.
pub struct CoordTagger {
    lat: String,
    long: String,
}

impl CoordTagger {
    /// The stored latitude string.
    pub closed spec fn lat_str(self) -> Seq<char> {
        self.lat@
    }

    /// The stored longitude string.
    pub closed spec fn lon_str(self) -> Seq<char> {
        self.long@
    }

    /// Builds the source from a `"<lat>,<lon>"` specification string.
    /// Any failure — wrong token count, a token that is not a decimal
    /// number, a value out of range — yields an unusable source with
    /// both strings empty, never an error.
    #[verifier::loop_isolation(false)]
    pub fn new(arg: &str) -> (r: CoordTagger)
        ensures
            spec_usable(arg@) ==> r.lat_str() == spec_lat_string(arg@) && r.lon_str()
                == spec_lon_string(arg@),
            !spec_usable(arg@) ==> r.lat_str().len() == 0 && r.lon_str().len() == 0,
            r.usable_spec() == spec_usable(arg@),
    {
        let n = arg.unicode_len();
        let mut i: usize = 0;
        let mut commas: usize = 0;
        let mut comma: usize = n;
        while i < n
            invariant
                0 <= i <= n == arg@.len(),
                commas == count_char(arg@.take(i as int), ','),
                commas <= i,
                commas == 0 ==> comma == n && forall|k: int| 0 <= k < i ==> arg@[k] != ',',
                commas > 0 ==> comma < i && arg@[comma as int] == ',' && forall|k: int|
                    0 <= k < comma ==> arg@[k] != ',',
            decreases n - i,
        {
            let c = arg.get_char(i);
            proof {
                lemma_count_char_take_succ(arg@, ',', i as int);
            }
            if c == ',' {
                if commas == 0 {
                    comma = i;
                }
                commas = commas + 1;
            }
            i += 1;
        }
        proof {
            assert(arg@.take(n as int) =~= arg@);
        }
        if commas != 1 {
            return CoordTagger { lat: String::new(), long: String::new() };
        }
        proof {
            lemma_first_index_of_at(arg@, ',', comma as int);
        }
        let lat_parsed = match parse_degrees(arg, 0, comma) {
            Some(a) => a,
            None => {
                return CoordTagger { lat: String::new(), long: String::new() };
            },
        };
        if !(lat_parsed.whole < 90 || (lat_parsed.whole == 90 && lat_parsed.frac_e10 == 0
            && !lat_parsed.frac_rest_nonzero)) {
            return CoordTagger { lat: String::new(), long: String::new() };
        }
        let lon_parsed = match parse_degrees(arg, comma + 1, n) {
            Some(a) => a,
            None => {
                return CoordTagger { lat: String::new(), long: String::new() };
            },
        };
        if !(lon_parsed.whole < 180) {
            return CoordTagger { lat: String::new(), long: String::new() };
        }
        let lat = dd_to_dmfract(&lat_parsed, true);
        let long = dd_to_dmfract(&lon_parsed, false);
        CoordTagger { lat, long }
    }
}

impl Tagger for CoordTagger {
    open spec fn coords_spec(&self, file: Seq<char>) -> (Seq<char>, Seq<char>) {
        (self.lat_str(), self.lon_str())
    }

    open spec fn usable_spec(&self) -> bool {
        self.lat_str().len() > 0 && self.lon_str().len() > 0
    }

    fn get_coord_for_file(&self, _file: &str) -> (r: (String, String)) {
        (self.lat.clone(), self.long.clone())
    }

    fn is_ok(&self) -> (r: bool) {
        !self.long.as_str().is_empty() && !self.lat.as_str().is_empty()
    }
}

} // verus!
