//! The textual wire encoding carried over the bus: a device-state report as
//! a JSON document with the fields `state` (the string `"ON"` or `"OFF"`),
//! `brightness` and `color_temp` (unsigned integers), and a sparse update as
//! the same document with absent fields omitted entirely (never written as
//! null).
//!
//! The encoders write the canonical form of each document: fields in the
//! order state, brightness, color_temp, no whitespace, numbers as canonical
//! decimal numerals. The decoders accept exactly that canonical form and
//! reject everything else as `MalformedState`.

use crate::num::canonical_digits;
use crate::num::dec_digits;
use crate::num::digits_end;
use crate::num::is_digit;
use crate::num::lemma_dec_digits_canonical;
use crate::num::lemma_dec_digits_of_val;
use crate::num::lemma_dec_val_of_digits;
use crate::num::lemma_digits_end_bounds;
use crate::num::lemma_digits_end_of_run;
use crate::num::num_ok;
use crate::num::num_val;
use crate::num::parse_number;
use crate::state::LightState;
use crate::state::LightStateChange;
use crate::state::Power;
use crate::ServerError;
use vstd::prelude::*;

verus! {

/// The bytes `"state":"` — the state key with its opening value quote.
pub open spec fn key_state_lit() -> Seq<u8> {
    seq![34u8, 115u8, 116u8, 97u8, 116u8, 101u8, 34u8, 58u8, 34u8]
}

/// The bytes `"brightness":`.
pub open spec fn key_brightness_lit() -> Seq<u8> {
    seq![34u8, 98u8, 114u8, 105u8, 103u8, 104u8, 116u8, 110u8, 101u8, 115u8, 115u8, 34u8, 58u8]
}

/// The bytes `"color_temp":`.
pub open spec fn key_color_lit() -> Seq<u8> {
    seq![34u8, 99u8, 111u8, 108u8, 111u8, 114u8, 95u8, 116u8, 101u8, 109u8, 112u8, 34u8, 58u8]
}

/// The power value with its closing quote: `ON"` or `OFF"`.
pub open spec fn power_quote_lit(p: Power) -> Seq<u8> {
    match p {
        Power::On => seq![79u8, 78u8, 34u8],
        Power::Off => seq![79u8, 70u8, 70u8, 34u8],
    }
}

/// The canonical document for a full state report.
pub open spec fn spec_encode_state(s: LightState) -> Seq<u8> {
    seq![123u8] + key_state_lit() + power_quote_lit(s.power) + seq![44u8] + key_brightness_lit()
        + dec_digits(s.brightness as nat) + seq![44u8] + key_color_lit() + dec_digits(
        s.color_temp as nat,
    ) + seq![125u8]
}

/// The `state` field of a sparse update, or nothing.
pub open spec fn delta_power_part(d: LightStateChange) -> Seq<u8> {
    match d.power {
        Some(p) => key_state_lit() + power_quote_lit(p),
        None => Seq::empty(),
    }
}

/// The `brightness` field of a sparse update (with its separating comma when
/// a field precedes it), or nothing.
pub open spec fn delta_brightness_part(d: LightStateChange) -> Seq<u8> {
    match d.brightness {
        Some(n) => (if d.power is Some {
            seq![44u8]
        } else {
            Seq::empty()
        }) + key_brightness_lit() + dec_digits(n as nat),
        None => Seq::empty(),
    }
}

/// The `color_temp` field of a sparse update (with its separating comma when
/// a field precedes it), or nothing.
pub open spec fn delta_color_part(d: LightStateChange) -> Seq<u8> {
    match d.color_temp {
        Some(n) => (if d.power is Some || d.brightness is Some {
            seq![44u8]
        } else {
            Seq::empty()
        }) + key_color_lit() + dec_digits(n as nat),
        None => Seq::empty(),
    }
}

/// The canonical document for a sparse update: only the present fields, in
/// the order state, brightness, color_temp.
pub open spec fn spec_encode_delta(d: LightStateChange) -> Seq<u8> {
    seq![123u8] + delta_power_part(d) + delta_brightness_part(d) + delta_color_part(d) + seq![125u8]
}

fn push_byte(v: &mut Vec<u8>, x: u8)
    ensures
        final(v)@ == old(v)@ + seq![x],
{
    v.push(x);
    proof {
        assert(v@ =~= old(v)@ + seq![x]);
    }
}

fn push_key_state(v: &mut Vec<u8>)
    ensures
        final(v)@ == old(v)@ + key_state_lit(),
{
    v.push(34u8);
    v.push(115u8);
    v.push(116u8);
    v.push(97u8);
    v.push(116u8);
    v.push(101u8);
    v.push(34u8);
    v.push(58u8);
    v.push(34u8);
    proof {
        assert(v@ =~= old(v)@ + key_state_lit());
    }
}

fn push_key_brightness(v: &mut Vec<u8>)
    ensures
        final(v)@ == old(v)@ + key_brightness_lit(),
{
    v.push(34u8);
    v.push(98u8);
    v.push(114u8);
    v.push(105u8);
    v.push(103u8);
    v.push(104u8);
    v.push(116u8);
    v.push(110u8);
    v.push(101u8);
    v.push(115u8);
    v.push(115u8);
    v.push(34u8);
    v.push(58u8);
    proof {
        assert(v@ =~= old(v)@ + key_brightness_lit());
    }
}

fn push_key_color(v: &mut Vec<u8>)
    ensures
        final(v)@ == old(v)@ + key_color_lit(),
{
    v.push(34u8);
    v.push(99u8);
    v.push(111u8);
    v.push(108u8);
    v.push(111u8);
    v.push(114u8);
    v.push(95u8);
    v.push(116u8);
    v.push(101u8);
    v.push(109u8);
    v.push(112u8);
    v.push(34u8);
    v.push(58u8);
    proof {
        assert(v@ =~= old(v)@ + key_color_lit());
    }
}

fn push_power_quote(v: &mut Vec<u8>, p: Power)
    ensures
        final(v)@ == old(v)@ + power_quote_lit(p),
{
    match p {
        Power::On => {
            v.push(79u8);
            v.push(78u8);
            v.push(34u8);
        },
        Power::Off => {
            v.push(79u8);
            v.push(70u8);
            v.push(70u8);
            v.push(34u8);
        },
    }
    proof {
        assert(v@ =~= old(v)@ + power_quote_lit(p));
    }
}

fn push_number(v: &mut Vec<u8>, n: usize)
    ensures
        final(v)@ == old(v)@ + dec_digits(n as nat),
    decreases n,
{
    if n < 10 {
        v.push((n as u8) + 48);
        proof {
            assert(v@ =~= old(v)@ + dec_digits(n as nat));
        }
    } else {
        push_number(v, n / 10);
        v.push(((n % 10) as u8) + 48);
        proof {
            assert(v@ =~= old(v)@ + dec_digits(n as nat));
        }
    }
}

/// Writes the canonical document for a full state report. Encoding never
/// fails for a well-formed in-memory value.
pub fn encode_state(s: &LightState) -> (r: Vec<u8>)
    ensures
        r@ == spec_encode_state(*s),
{
    let mut v: Vec<u8> = Vec::new();
    push_byte(&mut v, 123u8);
    push_key_state(&mut v);
    push_power_quote(&mut v, s.power);
    push_byte(&mut v, 44u8);
    push_key_brightness(&mut v);
    push_number(&mut v, s.brightness);
    push_byte(&mut v, 44u8);
    push_key_color(&mut v);
    push_number(&mut v, s.color_temp);
    push_byte(&mut v, 125u8);
    proof {
        assert(v@ =~= spec_encode_state(*s));
    }
    v
}

/// Writes the canonical document for a sparse update, omitting absent
/// fields. Encoding never fails for a well-formed in-memory value.
pub fn encode_delta(d: &LightStateChange) -> (r: Vec<u8>)
    ensures
        r@ == spec_encode_delta(*d),
{
    let mut v: Vec<u8> = Vec::new();
    push_byte(&mut v, 123u8);
    let ghost after_power = seq![123u8] + delta_power_part(*d);
    match d.power {
        Some(p) => {
            push_key_state(&mut v);
            push_power_quote(&mut v, p);
        },
        None => {},
    }
    proof {
        assert(v@ =~= after_power);
    }
    let ghost after_brightness = after_power + delta_brightness_part(*d);
    match d.brightness {
        Some(n) => {
            if d.power.is_some() {
                push_byte(&mut v, 44u8);
            }
            push_key_brightness(&mut v);
            push_number(&mut v, n);
        },
        None => {},
    }
    proof {
        assert(v@ =~= after_brightness);
    }
    let ghost after_color = after_brightness + delta_color_part(*d);
    match d.color_temp {
        Some(n) => {
            if d.power.is_some() || d.brightness.is_some() {
                push_byte(&mut v, 44u8);
            }
            push_key_color(&mut v);
            push_number(&mut v, n);
        },
        None => {},
    }
    proof {
        assert(v@ =~= after_color);
    }
    push_byte(&mut v, 125u8);
    proof {
        assert(v@ =~= spec_encode_delta(*d));
    }
    v
}

/// Whether `lit` occurs in `b` at position `i`.
pub open spec fn lit_at(b: Seq<u8>, i: int, lit: Seq<u8>) -> bool {
    &&& 0 <= i
    &&& i + lit.len() <= b.len()
    &&& b.subrange(i, i + lit.len()) == lit
}

/// The unique full state report a byte string encodes, or `None` where the
/// bytes are not exactly one canonical report document.
pub open spec fn spec_decode_state(b: Seq<u8>) -> Option<LightState> {
    if lit_at(b, 0, seq![123u8] + key_state_lit()) {
        if lit_at(b, 10, power_quote_lit(Power::On)) {
            spec_decode_state_tail(b, 13, Power::On)
        } else if lit_at(b, 10, power_quote_lit(Power::Off)) {
            spec_decode_state_tail(b, 14, Power::Off)
        } else {
            None
        }
    } else {
        None
    }
}

/// The brightness and color temperature fields of a report, expected at
/// position `i`, after the power value has been read as `p`.
pub open spec fn spec_decode_state_tail(b: Seq<u8>, i: int, p: Power) -> Option<LightState> {
    if lit_at(b, i, seq![44u8] + key_brightness_lit()) && num_ok(b, i + 14) {
        let k = digits_end(b, i + 14);
        if lit_at(b, k, seq![44u8] + key_color_lit()) && num_ok(b, k + 14) {
            let e = digits_end(b, k + 14);
            if e + 1 == b.len() && b[e] == 125u8 {
                Some(
                    LightState {
                        power: p,
                        brightness: num_val(b, i + 14) as usize,
                        color_temp: num_val(b, k + 14) as usize,
                    },
                )
            } else {
                None
            }
        } else {
            None
        }
    } else {
        None
    }
}

/// Whether the bytes of `pat` stand in `b` at position `i`.
fn match_at(b: &[u8], i: usize, pat: &Vec<u8>) -> (r: bool)
    ensures
        r == lit_at(b@, i as int, pat@),
{
    if pat.len() > b.len() || i > b.len() - pat.len() {
        return false;
    }
    let n = b.len();
    let mut k: usize = 0;
    while k < pat.len()
        invariant
            i + pat@.len() <= b@.len(),
            b@.len() == n,
            k <= pat@.len(),
            forall|t: int| 0 <= t < k ==> b@[i + t] == #[trigger] pat@[t],
        decreases pat@.len() - k,
    {
        if b[i + k] != pat[k] {
            proof {
                assert(b@.subrange(i as int, i as int + pat@.len())[k as int] != pat@[k as int]);
            }
            return false;
        }
        k = k + 1;
    }
    proof {
        assert(b@.subrange(i as int, i as int + pat@.len()) =~= pat@);
    }
    true
}

/// Reads back exactly the reports `encode_state` writes; anything else is a
/// schema mismatch, `MalformedState`.
pub fn decode_state(b: &[u8]) -> (r: Result<LightState, ServerError>)
    ensures
        match r {
            Ok(s) => spec_decode_state(b@) == Some(s),
            Err(e) => spec_decode_state(b@) is None && e == ServerError::MalformedState,
        },
{
    let mut open_pat: Vec<u8> = Vec::new();
    push_byte(&mut open_pat, 123u8);
    push_key_state(&mut open_pat);
    proof {
        assert(open_pat@ =~= seq![123u8] + key_state_lit());
    }
    if !match_at(b, 0, &open_pat) {
        return Err(ServerError::MalformedState);
    }
    let mut on_pat: Vec<u8> = Vec::new();
    push_power_quote(&mut on_pat, Power::On);
    let mut off_pat: Vec<u8> = Vec::new();
    push_power_quote(&mut off_pat, Power::Off);
    proof {
        assert(Seq::<u8>::empty() + power_quote_lit(Power::On) =~= power_quote_lit(Power::On));
        assert(Seq::<u8>::empty() + power_quote_lit(Power::Off) =~= power_quote_lit(Power::Off));
    }
    let (p, i): (Power, usize) = if match_at(b, 10, &on_pat) {
        (Power::On, 13)
    } else if match_at(b, 10, &off_pat) {
        (Power::Off, 14)
    } else {
        return Err(ServerError::MalformedState);
    };
    let mut bright_pat: Vec<u8> = Vec::new();
    push_byte(&mut bright_pat, 44u8);
    push_key_brightness(&mut bright_pat);
    proof {
        assert(bright_pat@ =~= seq![44u8] + key_brightness_lit());
    }
    if !match_at(b, i, &bright_pat) {
        return Err(ServerError::MalformedState);
    }
    let n = b.len();
    let brightness = match parse_number(b, i + 14) {
        Some(x) => x,
        None => {
            return Err(ServerError::MalformedState);
        },
    };
    let k = brightness.1;
    proof {
        lemma_digits_end_bounds(b@, i as int + 14);
    }
    let mut color_pat: Vec<u8> = Vec::new();
    push_byte(&mut color_pat, 44u8);
    push_key_color(&mut color_pat);
    proof {
        assert(color_pat@ =~= seq![44u8] + key_color_lit());
    }
    if !match_at(b, k, &color_pat) {
        return Err(ServerError::MalformedState);
    }
    let color = match parse_number(b, k + 14) {
        Some(x) => x,
        None => {
            return Err(ServerError::MalformedState);
        },
    };
    let m = color.1;
    proof {
        lemma_digits_end_bounds(b@, k as int + 14);
    }
    if m == n - 1 && b[m] == 125u8 {
        Ok(LightState { power: p, brightness: brightness.0, color_temp: color.0 })
    } else {
        Err(ServerError::MalformedState)
    }
}

/// Every report decodes back to itself: the encoding loses nothing.
#[verifier::rlimit(50)]
pub proof fn lemma_state_round_trip(s: LightState)
    ensures
        spec_decode_state(spec_encode_state(s)) == Some(s),
{
    let b = spec_encode_state(s);
    let pl = power_quote_lit(s.power);
    let d1 = dec_digits(s.brightness as nat);
    let d2 = dec_digits(s.color_temp as nat);
    lemma_dec_digits_canonical(s.brightness as nat);
    lemma_dec_digits_canonical(s.color_temp as nat);
    lemma_dec_val_of_digits(s.brightness as nat);
    lemma_dec_val_of_digits(s.color_temp as nat);
    let i = 10 + pl.len() as int;
    let j = i + 14;
    let k = j + d1.len() as int;
    let m = k + 14;
    let e = m + d2.len() as int;
    assert(b.len() == e + 1);
    assert(b.subrange(0, 10) =~= seq![123u8] + key_state_lit());
    assert(b.subrange(10, i) =~= pl);
    assert(b.subrange(i, j) =~= seq![44u8] + key_brightness_lit());
    assert(b.subrange(j, k) =~= d1);
    assert(b.subrange(k, m) =~= seq![44u8] + key_color_lit());
    assert(b.subrange(m, e) =~= d2);
    assert(b[e] == 125u8);
    assert(lit_at(b, 0, seq![123u8] + key_state_lit()));
    assert(lit_at(b, 10, pl));
    assert(lit_at(b, i, seq![44u8] + key_brightness_lit()));
    assert(lit_at(b, k, seq![44u8] + key_color_lit()));
    assert(b[k] == b.subrange(k, m)[0]);
    assert(!is_digit(b[k]));
    assert forall|t: int| j <= t < k implies is_digit(#[trigger] b[t]) by {
        assert(b[t] == b.subrange(j, k)[t - j]);
    }
    lemma_digits_end_of_run(b, j, k);
    assert(!is_digit(b[e]));
    assert forall|t: int| m <= t < e implies is_digit(#[trigger] b[t]) by {
        assert(b[t] == b.subrange(m, e)[t - m]);
    }
    lemma_digits_end_of_run(b, m, e);
    assert(b[j] == d1[0]);
    assert(num_ok(b, j));
    assert(num_val(b, j) == s.brightness);
    assert(b[m] == d2[0]);
    assert(num_ok(b, m));
    assert(num_val(b, m) == s.color_temp);
    if s.power is On {
        assert(spec_decode_state_tail(b, 13, Power::On) == Some(s));
    } else {
        assert(!lit_at(b, 10, power_quote_lit(Power::On))) by {
            assert(b[11] == pl[1]);
            assert(power_quote_lit(Power::On)[1] == 78u8);
        }
        assert(spec_decode_state_tail(b, 14, Power::Off) == Some(s));
    }
}

/// The encoding is canonical: any bytes the decoder accepts are exactly what
/// the encoder writes for the decoded report.
pub proof fn lemma_state_canonical(b: Seq<u8>, s: LightState)
    requires
        spec_decode_state(b) == Some(s),
    ensures
        spec_encode_state(s) == b,
{
    if lit_at(b, 10, power_quote_lit(Power::On)) {
        assert(spec_decode_state_tail(b, 13, Power::On) == Some(s));
        assert(s.power == Power::On);
    } else {
        assert(lit_at(b, 10, power_quote_lit(Power::Off)));
        assert(spec_decode_state_tail(b, 14, Power::Off) == Some(s));
        assert(s.power == Power::Off);
    }
    let pl = power_quote_lit(s.power);
    let i = 10 + pl.len() as int;
    assert(lit_at(b, 10, pl));
    assert(spec_decode_state_tail(b, i, s.power) == Some(s));
    let j = i + 14;
    let k = digits_end(b, j);
    let m = k + 14;
    let e = digits_end(b, m);
    assert(e + 1 == b.len() && b[e] == 125u8);
    lemma_digits_end_bounds(b, j);
    lemma_digits_end_bounds(b, m);
    let d1 = b.subrange(j, k);
    let d2 = b.subrange(m, e);
    assert(canonical_digits(d1)) by {
        assert(forall|t: int| 0 <= t < d1.len() ==> is_digit(#[trigger] d1[t]));
    }
    assert(canonical_digits(d2)) by {
        assert(forall|t: int| 0 <= t < d2.len() ==> is_digit(#[trigger] d2[t]));
    }
    lemma_dec_digits_of_val(d1);
    lemma_dec_digits_of_val(d2);
    assert(dec_digits(s.brightness as nat) == d1);
    assert(dec_digits(s.color_temp as nat) == d2);
    let enc = spec_encode_state(s);
    assert(enc.len() == b.len());
    assert forall|t: int| 0 <= t < b.len() implies enc[t] == b[t] by {
        if t < 10 {
            assert(b[t] == b.subrange(0, 10)[t]);
        } else if t < i {
            assert(b[t] == b.subrange(10, i)[t - 10]);
        } else if t < j {
            assert(b[t] == b.subrange(i, j)[t - i]);
        } else if t < k {
            assert(b[t] == b.subrange(j, k)[t - j]);
        } else if t < m {
            assert(b[t] == b.subrange(k, m)[t - k]);
        } else if t < e {
            assert(b[t] == b.subrange(m, e)[t - m]);
        } else {
            assert(t == e);
        }
    }
    assert(enc =~= b);
}

/// The unique sparse update a byte string encodes, or `None` where the bytes
/// are not exactly one canonical update document.
pub open spec fn spec_decode_delta(b: Seq<u8>) -> Option<LightStateChange> {
    if b.len() >= 2 && b[0] == 123u8 {
        if lit_at(b, 1, key_state_lit()) {
            if lit_at(b, 10, power_quote_lit(Power::On)) {
                spec_delta_after_power(b, 13, Power::On)
            } else if lit_at(b, 10, power_quote_lit(Power::Off)) {
                spec_delta_after_power(b, 14, Power::Off)
            } else {
                None
            }
        } else if lit_at(b, 1, key_brightness_lit()) {
            spec_delta_brightness(b, 14, None)
        } else if lit_at(b, 1, key_color_lit()) {
            spec_delta_color(b, 14, None, None)
        } else if b.len() == 2 && b[1] == 125u8 {
            Some(LightStateChange { power: None, brightness: None, color_temp: None })
        } else {
            None
        }
    } else {
        None
    }
}

/// What may follow the power field of an update, at position `q`: the end of
/// the document, or a comma and the next field.
pub open spec fn spec_delta_after_power(b: Seq<u8>, q: int, p: Power) -> Option<
    LightStateChange,
> {
    if q + 1 == b.len() && b[q] == 125u8 {
        Some(LightStateChange { power: Some(p), brightness: None, color_temp: None })
    } else if q < b.len() && b[q] == 44u8 {
        if lit_at(b, q + 1, key_brightness_lit()) {
            spec_delta_brightness(b, q + 14, Some(p))
        } else if lit_at(b, q + 1, key_color_lit()) {
            spec_delta_color(b, q + 14, Some(p), None)
        } else {
            None
        }
    } else {
        None
    }
}

/// The brightness field of an update, its numeral at position `j`, and what
/// may follow it: the end of the document, or a comma and the color field.
pub open spec fn spec_delta_brightness(b: Seq<u8>, j: int, pw: Option<Power>) -> Option<
    LightStateChange,
> {
    if num_ok(b, j) {
        let k = digits_end(b, j);
        let v = num_val(b, j) as usize;
        if k + 1 == b.len() && b[k] == 125u8 {
            Some(LightStateChange { power: pw, brightness: Some(v), color_temp: None })
        } else if k < b.len() && b[k] == 44u8 && lit_at(b, k + 1, key_color_lit()) {
            spec_delta_color(b, k + 14, pw, Some(v))
        } else {
            None
        }
    } else {
        None
    }
}

/// The color temperature field of an update, its numeral at position `j`,
/// which the document's closing brace must follow.
pub open spec fn spec_delta_color(
    b: Seq<u8>,
    j: int,
    pw: Option<Power>,
    br: Option<usize>,
) -> Option<LightStateChange> {
    if num_ok(b, j) {
        let k = digits_end(b, j);
        if k + 1 == b.len() && b[k] == 125u8 {
            Some(
                LightStateChange {
                    power: pw,
                    brightness: br,
                    color_temp: Some(num_val(b, j) as usize),
                },
            )
        } else {
            None
        }
    } else {
        None
    }
}

fn decode_delta_color(b: &[u8], j: usize, pw: Option<Power>, br: Option<usize>) -> (r: Result<
    LightStateChange,
    ServerError,
>)
    requires
        j <= b@.len(),
    ensures
        match r {
            Ok(d) => spec_delta_color(b@, j as int, pw, br) == Some(d),
            Err(e) => spec_delta_color(b@, j as int, pw, br) is None && e
                == ServerError::MalformedState,
        },
{
    let n = b.len();
    let num = match parse_number(b, j) {
        Some(x) => x,
        None => {
            return Err(ServerError::MalformedState);
        },
    };
    let k = num.1;
    proof {
        lemma_digits_end_bounds(b@, j as int);
    }
    if k == n - 1 && b[k] == 125u8 {
        Ok(LightStateChange { power: pw, brightness: br, color_temp: Some(num.0) })
    } else {
        Err(ServerError::MalformedState)
    }
}

fn decode_delta_brightness(b: &[u8], j: usize, pw: Option<Power>) -> (r: Result<
    LightStateChange,
    ServerError,
>)
    requires
        j <= b@.len(),
    ensures
        match r {
            Ok(d) => spec_delta_brightness(b@, j as int, pw) == Some(d),
            Err(e) => spec_delta_brightness(b@, j as int, pw) is None && e
                == ServerError::MalformedState,
        },
{
    let n = b.len();
    let num = match parse_number(b, j) {
        Some(x) => x,
        None => {
            return Err(ServerError::MalformedState);
        },
    };
    let k = num.1;
    proof {
        lemma_digits_end_bounds(b@, j as int);
    }
    if k == n - 1 && b[k] == 125u8 {
        return Ok(LightStateChange { power: pw, brightness: Some(num.0), color_temp: None });
    }
    if k < n && b[k] == 44u8 {
        let mut color_key: Vec<u8> = Vec::new();
        push_key_color(&mut color_key);
        proof {
            assert(color_key@ =~= key_color_lit());
        }
        if match_at(b, k + 1, &color_key) {
            return decode_delta_color(b, k + 14, pw, Some(num.0));
        }
    }
    Err(ServerError::MalformedState)
}

/// Reads back exactly the updates `encode_delta` writes; anything else is a
/// schema mismatch, `MalformedState`.
pub fn decode_delta(b: &[u8]) -> (r: Result<LightStateChange, ServerError>)
    ensures
        match r {
            Ok(d) => spec_decode_delta(b@) == Some(d),
            Err(e) => spec_decode_delta(b@) is None && e == ServerError::MalformedState,
        },
{
    let n = b.len();
    if n < 2 || b[0] != 123u8 {
        return Err(ServerError::MalformedState);
    }
    let mut state_key: Vec<u8> = Vec::new();
    push_key_state(&mut state_key);
    let mut bright_key: Vec<u8> = Vec::new();
    push_key_brightness(&mut bright_key);
    let mut color_key: Vec<u8> = Vec::new();
    push_key_color(&mut color_key);
    proof {
        assert(state_key@ =~= key_state_lit());
        assert(bright_key@ =~= key_brightness_lit());
        assert(color_key@ =~= key_color_lit());
    }
    if match_at(b, 1, &state_key) {
        let mut on_pat: Vec<u8> = Vec::new();
        push_power_quote(&mut on_pat, Power::On);
        let mut off_pat: Vec<u8> = Vec::new();
        push_power_quote(&mut off_pat, Power::Off);
        proof {
            assert(on_pat@ =~= power_quote_lit(Power::On));
            assert(off_pat@ =~= power_quote_lit(Power::Off));
        }
        let (p, q): (Power, usize) = if match_at(b, 10, &on_pat) {
            (Power::On, 13)
        } else if match_at(b, 10, &off_pat) {
            (Power::Off, 14)
        } else {
            return Err(ServerError::MalformedState);
        };
        if q == n - 1 && b[q] == 125u8 {
            return Ok(LightStateChange { power: Some(p), brightness: None, color_temp: None });
        }
        if q < n && b[q] == 44u8 {
            if match_at(b, q + 1, &bright_key) {
                return decode_delta_brightness(b, q + 14, Some(p));
            }
            if match_at(b, q + 1, &color_key) {
                return decode_delta_color(b, q + 14, Some(p), None);
            }
        }
        Err(ServerError::MalformedState)
    } else if match_at(b, 1, &bright_key) {
        decode_delta_brightness(b, 14, None)
    } else if match_at(b, 1, &color_key) {
        decode_delta_color(b, 14, None, None)
    } else if n == 2 && b[1] == 125u8 {
        Ok(LightStateChange { power: None, brightness: None, color_temp: None })
    } else {
        Err(ServerError::MalformedState)
    }
}

/// A canonical numeral standing at `j` with a non-digit (or the end) after
/// it scans as exactly its own value.
proof fn lemma_numeral_at(b: Seq<u8>, j: int, v: usize)
    requires
        0 <= j,
        j + dec_digits(v as nat).len() <= b.len(),
        b.subrange(j, j + dec_digits(v as nat).len() as int) == dec_digits(v as nat),
        j + dec_digits(v as nat).len() == b.len() || !is_digit(
            b[j + dec_digits(v as nat).len()],
        ),
    ensures
        num_ok(b, j),
        num_val(b, j) == v,
        digits_end(b, j) == j + dec_digits(v as nat).len(),
{
    let dd = dec_digits(v as nat);
    lemma_dec_digits_canonical(v as nat);
    lemma_dec_val_of_digits(v as nat);
    let e = j + dd.len() as int;
    assert forall|t: int| j <= t < e implies is_digit(#[trigger] b[t]) by {
        assert(b[t] == b.subrange(j, e)[t - j]);
    }
    lemma_digits_end_of_run(b, j, e);
    assert(b[j] == dd[0]);
}

/// Every sparse update decodes back to itself: the encoding loses nothing.
#[verifier::rlimit(100)]
pub proof fn lemma_delta_round_trip(d: LightStateChange)
    ensures
        spec_decode_delta(spec_encode_delta(d)) == Some(d),
{
    let b = spec_encode_delta(d);
    match d.power {
        Some(p) => {
            let pl = power_quote_lit(p);
            let q = 10 + pl.len() as int;
            assert(b.subrange(1, 10) =~= key_state_lit());
            assert(b.subrange(10, q) =~= pl);
            assert(lit_at(b, 1, key_state_lit()));
            assert(lit_at(b, 10, pl));
            if p is Off {
                assert(!lit_at(b, 10, power_quote_lit(Power::On))) by {
                    if lit_at(b, 10, power_quote_lit(Power::On)) {
                        assert(b[11] == b.subrange(10, 13)[1]);
                    }
                    assert(b[11] == b.subrange(10, q)[1]);
                }
            }
            match d.brightness {
                Some(bv) => {
                    let d1 = dec_digits(bv as nat);
                    let j = q + 14;
                    let k = j + d1.len() as int;
                    assert(b[q] == 44u8);
                    assert(b.subrange(q + 1, j) =~= key_brightness_lit());
                    assert(lit_at(b, q + 1, key_brightness_lit()));
                    assert(b.subrange(j, k) =~= d1);
                    match d.color_temp {
                        Some(cv) => {
                            let d2 = dec_digits(cv as nat);
                            let m = k + 14;
                            let e = m + d2.len() as int;
                            assert(b[k] == 44u8);
                            assert(b.subrange(k + 1, m) =~= key_color_lit());
                            assert(lit_at(b, k + 1, key_color_lit()));
                            assert(b.subrange(m, e) =~= d2);
                            assert(b[e] == 125u8);
                            assert(b.len() == e + 1);
                            lemma_numeral_at(b, j, bv);
                            lemma_numeral_at(b, m, cv);
                        },
                        None => {
                            assert(b[k] == 125u8);
                            assert(b.len() == k + 1);
                            lemma_numeral_at(b, j, bv);
                        },
                    }
                },
                None => {
                    match d.color_temp {
                        Some(cv) => {
                            let d2 = dec_digits(cv as nat);
                            let m = q + 14;
                            let e = m + d2.len() as int;
                            assert(b[q] == 44u8);
                            assert(b.subrange(q + 1, m) =~= key_color_lit());
                            assert(lit_at(b, q + 1, key_color_lit()));
                            assert(!lit_at(b, q + 1, key_brightness_lit())) by {
                                if lit_at(b, q + 1, key_brightness_lit()) {
                                    assert(b[q + 2] == b.subrange(q + 1, q + 14)[1]);
                                }
                                assert(b[q + 2] == b.subrange(q + 1, m)[1]);
                            }
                            assert(b.subrange(m, e) =~= d2);
                            assert(b[e] == 125u8);
                            assert(b.len() == e + 1);
                            lemma_numeral_at(b, m, cv);
                        },
                        None => {
                            assert(b[q] == 125u8);
                            assert(b.len() == q + 1);
                        },
                    }
                },
            }
        },
        None => {
            match d.brightness {
                Some(bv) => {
                    let d1 = dec_digits(bv as nat);
                    let j: int = 14;
                    let k = j + d1.len() as int;
                    assert(b.subrange(1, 14) =~= key_brightness_lit());
                    assert(lit_at(b, 1, key_brightness_lit()));
                    assert(!lit_at(b, 1, key_state_lit())) by {
                        if lit_at(b, 1, key_state_lit()) {
                            assert(b[2] == b.subrange(1, 10)[1]);
                        }
                        assert(b[2] == b.subrange(1, 14)[1]);
                    }
                    assert(b.subrange(j, k) =~= d1);
                    match d.color_temp {
                        Some(cv) => {
                            let d2 = dec_digits(cv as nat);
                            let m = k + 14;
                            let e = m + d2.len() as int;
                            assert(b[k] == 44u8);
                            assert(b.subrange(k + 1, m) =~= key_color_lit());
                            assert(lit_at(b, k + 1, key_color_lit()));
                            assert(b.subrange(m, e) =~= d2);
                            assert(b[e] == 125u8);
                            assert(b.len() == e + 1);
                            lemma_numeral_at(b, j, bv);
                            lemma_numeral_at(b, m, cv);
                        },
                        None => {
                            assert(b[k] == 125u8);
                            assert(b.len() == k + 1);
                            lemma_numeral_at(b, j, bv);
                        },
                    }
                },
                None => {
                    match d.color_temp {
                        Some(cv) => {
                            let d2 = dec_digits(cv as nat);
                            let m: int = 14;
                            let e = m + d2.len() as int;
                            assert(b.subrange(1, 14) =~= key_color_lit());
                            assert(lit_at(b, 1, key_color_lit()));
                            assert(!lit_at(b, 1, key_state_lit())) by {
                                if lit_at(b, 1, key_state_lit()) {
                                    assert(b[2] == b.subrange(1, 10)[1]);
                                }
                                assert(b[2] == b.subrange(1, 14)[1]);
                            }
                            assert(!lit_at(b, 1, key_brightness_lit())) by {
                                if lit_at(b, 1, key_brightness_lit()) {
                                    assert(b[2] == b.subrange(1, 14)[1]);
                                }
                                assert(b[2] == key_color_lit()[1]);
                            }
                            assert(b.subrange(m, e) =~= d2);
                            assert(b[e] == 125u8);
                            assert(b.len() == e + 1);
                            lemma_numeral_at(b, m, cv);
                        },
                        None => {
                            assert(b.len() == 2);
                            assert(b[0] == 123u8);
                            assert(b[1] == 125u8);
                        },
                    }
                },
            }
        },
    }
}

/// What the document must look like from the color field's numeral to the
/// end, whenever that field parses.
proof fn lemma_delta_color_canonical(
    b: Seq<u8>,
    j: int,
    pw: Option<Power>,
    br: Option<usize>,
    d: LightStateChange,
)
    requires
        0 <= j <= b.len(),
        spec_delta_color(b, j, pw, br) == Some(d),
    ensures
        d.power == pw,
        d.brightness == br,
        d.color_temp is Some,
        b.subrange(j, b.len() as int) == dec_digits(d.color_temp->0 as nat) + seq![125u8],
{
    let k = digits_end(b, j);
    lemma_digits_end_bounds(b, j);
    let d2 = b.subrange(j, k);
    assert(canonical_digits(d2)) by {
        assert(forall|t: int| 0 <= t < d2.len() ==> is_digit(#[trigger] d2[t]));
    }
    lemma_dec_digits_of_val(d2);
    assert(dec_digits(d.color_temp->0 as nat) == d2);
    assert(b.subrange(j, b.len() as int) =~= d2 + seq![125u8]);
}

/// What the document must look like from the brightness field's numeral to
/// the end, whenever that field parses.
proof fn lemma_delta_brightness_canonical(
    b: Seq<u8>,
    j: int,
    pw: Option<Power>,
    d: LightStateChange,
)
    requires
        0 <= j <= b.len(),
        spec_delta_brightness(b, j, pw) == Some(d),
    ensures
        d.power == pw,
        d.brightness is Some,
        b.subrange(j, b.len() as int) == dec_digits(d.brightness->0 as nat) + (match d.color_temp {
            Some(cv) => seq![44u8] + key_color_lit() + dec_digits(cv as nat),
            None => Seq::<u8>::empty(),
        }) + seq![125u8],
{
    let n = b.len() as int;
    let k = digits_end(b, j);
    lemma_digits_end_bounds(b, j);
    let d1 = b.subrange(j, k);
    assert(canonical_digits(d1)) by {
        assert(forall|t: int| 0 <= t < d1.len() ==> is_digit(#[trigger] d1[t]));
    }
    lemma_dec_digits_of_val(d1);
    assert(dec_digits(d.brightness->0 as nat) == d1);
    if k + 1 == b.len() && b[k] == 125u8 {
        assert(b.subrange(j, n) =~= d1 + Seq::<u8>::empty() + seq![125u8]);
    } else {
        lemma_delta_color_canonical(b, k + 14, pw, Some(num_val(b, j) as usize), d);
        let cv = d.color_temp->0;
        let d2 = dec_digits(cv as nat);
        assert(b.subrange(j, n) =~= b.subrange(j, k) + b.subrange(k, k + 1) + b.subrange(
            k + 1,
            k + 14,
        ) + b.subrange(k + 14, n));
        assert(b.subrange(k, k + 1) =~= seq![44u8]);
        assert(b.subrange(k + 1, k + 14) == key_color_lit());
        assert(b.subrange(k + 14, n) == d2 + seq![125u8]);
        assert(d1 + seq![44u8] + key_color_lit() + (d2 + seq![125u8]) =~= d1 + (seq![44u8]
            + key_color_lit() + d2) + seq![125u8]);
    }
}

/// The assembled document for an update with a power field followed by a
/// brightness field, whenever the decoder accepts it.
#[verifier::rlimit(100)]
proof fn lemma_delta_canonical_power_brightness(b: Seq<u8>, d: LightStateChange, p: Power)
    requires
        b.len() >= 2,
        b[0] == 123u8,
        lit_at(b, 1, key_state_lit()),
        lit_at(b, 10, power_quote_lit(p)),
        ({
            let q = 10 + power_quote_lit(p).len() as int;
            &&& q < b.len()
            &&& b[q] == 44u8
            &&& lit_at(b, q + 1, key_brightness_lit())
            &&& spec_delta_brightness(b, q + 14, Some(p)) == Some(d)
        }),
    ensures
        spec_encode_delta(d) == b,
{
    let n = b.len() as int;
    let pl = power_quote_lit(p);
    let q = 10 + pl.len() as int;
    assert(b.subrange(0, 1) =~= seq![123u8]);
    assert(b.subrange(1, 10) == key_state_lit());
    assert(b.subrange(10, q) == pl);
    assert(b.subrange(q, q + 1) =~= seq![44u8]);
    lemma_delta_brightness_canonical(b, q + 14, Some(p), d);
    let d1 = dec_digits(d.brightness->0 as nat);
    let rest = (match d.color_temp {
        Some(cv) => seq![44u8] + key_color_lit() + dec_digits(cv as nat),
        None => Seq::<u8>::empty(),
    });
    assert(b =~= b.subrange(0, 1) + b.subrange(1, 10) + b.subrange(10, q) + b.subrange(q, q + 1)
        + b.subrange(q + 1, q + 14) + b.subrange(q + 14, n));
    assert(b.subrange(q + 1, q + 14) == key_brightness_lit());
    assert(b.subrange(q + 14, n) == d1 + rest + seq![125u8]);
    assert(seq![123u8] + key_state_lit() + pl + seq![44u8] + key_brightness_lit() + (d1 + rest
        + seq![125u8]) =~= spec_encode_delta(d));
}

/// The assembled document for an update with a power field followed by a
/// color temperature field, whenever the decoder accepts it.
#[verifier::rlimit(100)]
proof fn lemma_delta_canonical_power_color(b: Seq<u8>, d: LightStateChange, p: Power)
    requires
        b.len() >= 2,
        b[0] == 123u8,
        lit_at(b, 1, key_state_lit()),
        lit_at(b, 10, power_quote_lit(p)),
        ({
            let q = 10 + power_quote_lit(p).len() as int;
            &&& q < b.len()
            &&& b[q] == 44u8
            &&& lit_at(b, q + 1, key_color_lit())
            &&& spec_delta_color(b, q + 14, Some(p), None) == Some(d)
        }),
    ensures
        spec_encode_delta(d) == b,
{
    let n = b.len() as int;
    let pl = power_quote_lit(p);
    let q = 10 + pl.len() as int;
    assert(b.subrange(0, 1) =~= seq![123u8]);
    assert(b.subrange(1, 10) == key_state_lit());
    assert(b.subrange(10, q) == pl);
    assert(b.subrange(q, q + 1) =~= seq![44u8]);
    lemma_delta_color_canonical(b, q + 14, Some(p), None, d);
    let d2 = dec_digits(d.color_temp->0 as nat);
    assert(b =~= b.subrange(0, 1) + b.subrange(1, 10) + b.subrange(10, q) + b.subrange(q, q + 1)
        + b.subrange(q + 1, q + 14) + b.subrange(q + 14, n));
    assert(b.subrange(q + 1, q + 14) == key_color_lit());
    assert(b.subrange(q + 14, n) == d2 + seq![125u8]);
    assert(seq![123u8] + key_state_lit() + pl + seq![44u8] + key_color_lit() + (d2 + seq![125u8])
        =~= spec_encode_delta(d));
}

/// The assembled document for an update whose first field is the power
/// field, whenever the decoder accepts it.
#[verifier::rlimit(100)]
proof fn lemma_delta_canonical_power(b: Seq<u8>, d: LightStateChange, p: Power)
    requires
        b.len() >= 2,
        b[0] == 123u8,
        lit_at(b, 1, key_state_lit()),
        lit_at(b, 10, power_quote_lit(p)),
        spec_delta_after_power(b, 10 + power_quote_lit(p).len() as int, p) == Some(d),
    ensures
        spec_encode_delta(d) == b,
{
    let n = b.len() as int;
    let pl = power_quote_lit(p);
    let q = 10 + pl.len() as int;
    if q + 1 == b.len() && b[q] == 125u8 {
        assert(d == LightStateChange { power: Some(p), brightness: None, color_temp: None });
        assert(b.subrange(0, 1) =~= seq![123u8]);
        assert(b.subrange(1, 10) == key_state_lit());
        assert(b.subrange(10, q) == pl);
        assert(b =~= b.subrange(0, 1) + b.subrange(1, 10) + b.subrange(10, q) + b.subrange(
            q,
            n,
        ));
        assert(b.subrange(q, n) =~= seq![125u8]);
        assert(seq![123u8] + key_state_lit() + pl + seq![125u8] =~= spec_encode_delta(d));
    } else {
        assert(q < b.len() && b[q] == 44u8);
        if lit_at(b, q + 1, key_brightness_lit()) {
            lemma_delta_canonical_power_brightness(b, d, p);
        } else {
            assert(lit_at(b, q + 1, key_color_lit()));
            lemma_delta_canonical_power_color(b, d, p);
        }
    }
}

/// The encoding of sparse updates is canonical: any bytes the decoder
/// accepts are exactly what the encoder writes for the decoded update.
#[verifier::rlimit(100)]
pub proof fn lemma_delta_canonical(b: Seq<u8>, d: LightStateChange)
    requires
        spec_decode_delta(b) == Some(d),
    ensures
        spec_encode_delta(d) == b,
{
    let n = b.len() as int;
    assert(b.subrange(0, 1) =~= seq![123u8]);
    if lit_at(b, 1, key_state_lit()) {
        if lit_at(b, 10, power_quote_lit(Power::On)) {
            lemma_delta_canonical_power(b, d, Power::On);
        } else {
            lemma_delta_canonical_power(b, d, Power::Off);
        }
    } else if lit_at(b, 1, key_brightness_lit()) {
        lemma_delta_brightness_canonical(b, 14, None, d);
        let d1 = dec_digits(d.brightness->0 as nat);
        let rest = (match d.color_temp {
            Some(cv) => seq![44u8] + key_color_lit() + dec_digits(cv as nat),
            None => Seq::<u8>::empty(),
        });
        assert(b =~= b.subrange(0, 1) + b.subrange(1, 14) + b.subrange(14, n));
        assert(b.subrange(1, 14) == key_brightness_lit());
        assert(b.subrange(14, n) == d1 + rest + seq![125u8]);
        assert(seq![123u8] + key_brightness_lit() + (d1 + rest + seq![125u8])
            =~= spec_encode_delta(d));
    } else if lit_at(b, 1, key_color_lit()) {
        lemma_delta_color_canonical(b, 14, None, None, d);
        let d2 = dec_digits(d.color_temp->0 as nat);
        assert(b =~= b.subrange(0, 1) + b.subrange(1, 14) + b.subrange(14, n));
        assert(b.subrange(1, 14) == key_color_lit());
        assert(b.subrange(14, n) == d2 + seq![125u8]);
        assert(seq![123u8] + key_color_lit() + (d2 + seq![125u8]) =~= spec_encode_delta(d));
    } else {
        assert(b.len() == 2 && b[1] == 125u8);
        assert(spec_encode_delta(d) =~= b);
    }
}

} // verus!
