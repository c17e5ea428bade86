//! Reading new values from text: Boolean words and decimal numbers.
use vstd::prelude::*;
use vstd::utf8::encode_utf8;

verus! {

/// Why a new value for an entry was refused.
#[derive(Debug, Clone, Copy, PartialEq, Eq, Structural)]
pub enum ParseError {
    /// No entry has the key.
    KeyNotFound,
    /// The text is none of the words that name a Boolean.
    InvalidBooleanLiteral,
    /// The text is no decimal number of the entry's type.
    InvalidNumericLiteral,
    /// Bytes entries cannot be changed.
    UnsupportedOperation,
}

/// An ASCII capital letter made small; any other byte left as it is.
pub open spec fn ascii_lower(b: u8) -> u8 {
    if 65 <= b <= 90 {
        (b + 32) as u8
    } else {
        b
    }
}

pub open spec fn lower_bytes(s: Seq<u8>) -> Seq<u8> {
    s.map_values(|b: u8| ascii_lower(b))
}

/// The Boolean that a text names, ignoring case: `0 false f nil no off
/// inactive` name false and `1 true t yes on active` name true.
pub open spec fn bool_literal(s: Seq<u8>) -> Option<bool> {
    let l = lower_bytes(s);
    if l == seq![48u8] || l == seq![102u8, 97u8, 108u8, 115u8, 101u8] || l == seq![102u8] || l
        == seq![110u8, 105u8, 108u8] || l == seq![110u8, 111u8] || l == seq![111u8, 102u8, 102u8] || l
        == seq![105u8, 110u8, 97u8, 99u8, 116u8, 105u8, 118u8, 101u8] {
        Some(false)
    } else if l == seq![49u8] || l == seq![116u8, 114u8, 117u8, 101u8] || l == seq![116u8] || l
        == seq![121u8, 101u8, 115u8] || l == seq![111u8, 110u8] || l == seq![
        97u8,
        99u8,
        116u8,
        105u8,
        118u8,
        101u8,
    ] {
        Some(true)
    } else {
        None
    }
}

pub open spec fn is_digit(b: u8) -> bool {
    48 <= b <= 57
}

/// The number that a run of decimal digits spells.
pub open spec fn digits_value(d: Seq<u8>) -> nat
    decreases d.len(),
{
    if d.len() == 0 {
        0
    } else {
        (digits_value(d.drop_last()) * 10 + (d.last() - 48)) as nat
    }
}

/// The digits of a decimal literal: what follows an optional leading `+`.
pub open spec fn literal_digits(s: Seq<u8>) -> Seq<u8> {
    if s.len() > 0 && s[0] == 43 {
        s.drop_first()
    } else {
        s
    }
}

pub open spec fn all_digits(d: Seq<u8>) -> bool {
    forall|i: int| 0 <= i < d.len() ==> is_digit(#[trigger] d[i])
}

/// The number that a decimal literal spells: an optional `+`, then one digit
/// or more, and nothing else.
pub open spec fn unsigned_literal(s: Seq<u8>) -> Option<nat> {
    let d = literal_digits(s);
    if d.len() > 0 && all_digits(d) {
        Some(digits_value(d))
    } else {
        None
    }
}

/// `s` with each ASCII capital letter made small.
pub(crate) fn to_ascii_lower(s: &[u8]) -> (r: Vec<u8>)
    ensures
        r@ == lower_bytes(s@),
{
    let mut out: Vec<u8> = Vec::with_capacity(s.len());
    let mut i: usize = 0;
    while i < s.len()
        invariant
            i <= s@.len(),
            out@ == lower_bytes(s@.subrange(0, i as int)),
        decreases s@.len() - i,
    {
        let b = s[i];
        out.push(if 65 <= b && b <= 90 { b + 32 } else { b });
        i = i + 1;
        assert(out@ =~= lower_bytes(s@.subrange(0, i as int)));
    }
    assert(s@.subrange(0, i as int) =~= s@);
    out
}

pub(crate) fn same_bytes(a: &[u8], b: &[u8]) -> (r: bool)
    ensures
        r == (a@ == b@),
{
    if a.len() != b.len() {
        return false;
    }
    let mut i: usize = 0;
    while i < a.len()
        invariant
            i <= a@.len() == b@.len(),
            a@.subrange(0, i as int) == b@.subrange(0, i as int),
        decreases a@.len() - i,
    {
        if a[i] != b[i] {
            return false;
        }
        i = i + 1;
        assert(a@.subrange(0, i as int) =~= b@.subrange(0, i as int)) by {
            assert(a@.subrange(0, i - 1) == b@.subrange(0, i - 1));
            assert forall|k: int| 0 <= k < i implies a@[k] == b@[k] by {
                if k < i - 1 {
                    assert(a@.subrange(0, i - 1)[k] == b@.subrange(0, i - 1)[k]);
                }
            }
        }
    }
    assert(a@ =~= a@.subrange(0, i as int));
    assert(b@ =~= b@.subrange(0, i as int));
    true
}

/// Reads a Boolean from one of the words that name one, ignoring case.
pub fn parse_bool(value: String) -> (r: Result<bool, ParseError>)
    ensures
        r == match bool_literal(encode_utf8(value@)) {
            Some(b) => Ok::<bool, ParseError>(b),
            None => Err(ParseError::InvalidBooleanLiteral),
        },
{
    let lower = to_ascii_lower(value.as_str().as_bytes());
    let l = lower.as_slice();
    let w0: [u8; 1] = [48u8];
    let w_false: [u8; 5] = [102u8, 97u8, 108u8, 115u8, 101u8];
    let w_f: [u8; 1] = [102u8];
    let w_nil: [u8; 3] = [110u8, 105u8, 108u8];
    let w_no: [u8; 2] = [110u8, 111u8];
    let w_off: [u8; 3] = [111u8, 102u8, 102u8];
    let w_inactive: [u8; 8] = [105u8, 110u8, 97u8, 99u8, 116u8, 105u8, 118u8, 101u8];
    let w1: [u8; 1] = [49u8];
    let w_true: [u8; 4] = [116u8, 114u8, 117u8, 101u8];
    let w_t: [u8; 1] = [116u8];
    let w_yes: [u8; 3] = [121u8, 101u8, 115u8];
    let w_on: [u8; 2] = [111u8, 110u8];
    let w_active: [u8; 6] = [97u8, 99u8, 116u8, 105u8, 118u8, 101u8];
    assert(l@ == lower_bytes(encode_utf8(value@)));
    assert(w0@ =~= seq![48u8]);
    assert(w_false@ =~= seq![102u8, 97u8, 108u8, 115u8, 101u8]);
    assert(w_f@ =~= seq![102u8]);
    assert(w_nil@ =~= seq![110u8, 105u8, 108u8]);
    assert(w_no@ =~= seq![110u8, 111u8]);
    assert(w_off@ =~= seq![111u8, 102u8, 102u8]);
    assert(w_inactive@ =~= seq![105u8, 110u8, 97u8, 99u8, 116u8, 105u8, 118u8, 101u8]);
    assert(w1@ =~= seq![49u8]);
    assert(w_true@ =~= seq![116u8, 114u8, 117u8, 101u8]);
    assert(w_t@ =~= seq![116u8]);
    assert(w_yes@ =~= seq![121u8, 101u8, 115u8]);
    assert(w_on@ =~= seq![111u8, 110u8]);
    assert(w_active@ =~= seq![97u8, 99u8, 116u8, 105u8, 118u8, 101u8]);
    if same_bytes(l, w0.as_slice()) || same_bytes(l, w_false.as_slice()) || same_bytes(
        l,
        w_f.as_slice(),
    ) || same_bytes(l, w_nil.as_slice()) || same_bytes(l, w_no.as_slice()) || same_bytes(
        l,
        w_off.as_slice(),
    ) || same_bytes(l, w_inactive.as_slice()) {
        Ok(false)
    } else if same_bytes(l, w1.as_slice()) || same_bytes(l, w_true.as_slice()) || same_bytes(
        l,
        w_t.as_slice(),
    ) || same_bytes(l, w_yes.as_slice()) || same_bytes(l, w_on.as_slice()) || same_bytes(
        l,
        w_active.as_slice(),
    ) {
        Ok(true)
    } else {
        Err(ParseError::InvalidBooleanLiteral)
    }
}

/// Reads a decimal literal of an unsigned number no larger than `max`.
pub fn parse_unsigned(s: &[u8], max: u64) -> (r: Option<u64>)
    ensures
        r is Some <==> (unsigned_literal(s@) is Some && unsigned_literal(s@)->0 <= max),
        r matches Some(v) ==> v as nat == unsigned_literal(s@)->0,
{
    let start: usize = if s.len() > 0 && s[0] == 43 {
        1
    } else {
        0
    };
    let ghost d = literal_digits(s@);
    assert(d =~= s@.subrange(start as int, s@.len() as int));
    if start == s.len() {
        return None;
    }
    let mut acc: u64 = 0;
    let mut over = false;
    let mut i: usize = start;
    while i < s.len()
        invariant
            start <= i <= s@.len(),
            d == s@.subrange(start as int, s@.len() as int),
            d == literal_digits(s@),
            !over ==> acc <= max,
            forall|k: int| start <= k < i ==> is_digit(#[trigger] s@[k]),
            !over ==> acc as nat == digits_value(s@.subrange(start as int, i as int)),
            over ==> digits_value(s@.subrange(start as int, i as int)) > max,
        decreases s@.len() - i,
    {
        let b = s[i];
        if b < 48 || b > 57 {
            assert(d[i - start] == s@[i as int]);
            assert(!is_digit(d[i - start]));
            assert(unsigned_literal(s@) is None);
            return None;
        }
        let digit = (b - 48) as u64;
        let ghost prev = digits_value(s@.subrange(start as int, i as int));
        assert(s@.subrange(start as int, i + 1).drop_last() =~= s@.subrange(start as int, i as int));
        if over || digit > max || acc > (max - digit) / 10 {
            proof {
                let x = prev;
                if !over {
                    if digit > max {
                        assert(x * 10 + digit > max) by (nonlinear_arith)
                            requires digit > max, x >= 0;
                    } else {
                        let a = acc as nat;
                        assert(a * 10 + digit > max) by (nonlinear_arith)
                            requires a > (max - digit) / 10, digit <= max;
                    }
                } else {
                    assert(x * 10 + digit > max) by (nonlinear_arith)
                        requires x > max, digit >= 0;
                }
            }
            over = true;
        } else {
            proof {
                let a = acc as nat;
                assert(a * 10 + digit <= max) by (nonlinear_arith)
                    requires a <= (max - digit) / 10, digit <= max;
            }
            acc = acc * 10 + digit;
        }
        i = i + 1;
    }
    assert(s@.subrange(start as int, i as int) == d);
    assert forall|k: int| 0 <= k < d.len() implies is_digit(#[trigger] d[k]) by {
        assert(d[k] == s@[start + k]);
    }
    assert(d.len() > 0);
    assert(unsigned_literal(s@) == Some(digits_value(d)));
    if over {
        None
    } else {
        Some(acc)
    }
}

} // verus!
