//! Small text utilities: comparison, decimal numbers and comma separated
//! fields, all stated over the UTF-8 bytes of the text.
use vstd::prelude::*;
use vstd::string::StringSliceAdditionalSpecFns;
use vstd::utf8::*;

verus! {

broadcast use vstd::utf8::encode_utf8_decode_utf8;

/// True when `c` is an ASCII decimal digit.
pub open spec fn is_digit(c: u8) -> bool {
    0x30 <= c && c <= 0x39
}

/// The digits that an unsigned number is written with: a leading `+` is
/// allowed and dropped.
pub open spec fn unsigned_digits(b: Seq<u8>) -> Seq<u8> {
    if b.len() > 0 && b[0] == 0x2b {
        b.drop_first()
    } else {
        b
    }
}

/// A non-empty run of decimal digits.
pub open spec fn all_digits(b: Seq<u8>) -> bool {
    b.len() > 0 && forall|i: int| 0 <= i < b.len() ==> is_digit(#[trigger] b[i])
}

/// The value of a run of decimal digits, most significant first.
pub open spec fn decimal_value(b: Seq<u8>) -> nat
    decreases b.len(),
{
    if b.len() == 0 {
        0
    } else {
        decimal_value(b.drop_last()) * 10 + (b.last() - 0x30) as nat
    }
}

/// The unsigned number written in `b`, or `None` when `b` is not a number
/// or the number exceeds `max`.
pub open spec fn decimal_number(b: Seq<u8>, max: nat) -> Option<nat> {
    let d = unsigned_digits(b);
    if all_digits(d) && decimal_value(d) <= max {
        Some(decimal_value(d))
    } else {
        None
    }
}

/// The unsigned number that the text `s` holds, if it is one and does not
/// exceed `max`.
pub open spec fn number_in(s: Seq<char>, max: nat) -> Option<nat> {
    decimal_number(encode_utf8(s), max)
}

/// The byte that separates fields.
pub open spec fn comma() -> u8 {
    0x2c
}

/// The index of the first comma in `b`, if there is one.
pub open spec fn first_comma(b: Seq<u8>) -> Option<int>
    decreases b.len(),
{
    if b.len() == 0 {
        None
    } else if b[0] == comma() {
        Some(0)
    } else {
        match first_comma(b.drop_first()) {
            Some(i) => Some(i + 1),
            None => None,
        }
    }
}

/// The `k`-th comma separated field of `b`, counting from zero.
pub open spec fn comma_field(b: Seq<u8>, k: nat) -> Option<Seq<u8>>
    decreases b.len(), k,
{
    match first_comma(b) {
        None => if k == 0 {
            Some(b)
        } else {
            None
        },
        Some(i) => if k == 0 {
            Some(b.subrange(0, i))
        } else {
            if 0 <= i < b.len() {
                comma_field(b.subrange(i + 1, b.len() as int), (k - 1) as nat)
            } else {
                None
            }
        },
    }
}

proof fn lemma_first_comma_bounds(b: Seq<u8>)
    ensures
        match first_comma(b) {
            Some(i) => 0 <= i < b.len() && b[i] == comma() && forall|j: int|
                0 <= j < i ==> b[j] != comma(),
            None => forall|j: int| 0 <= j < b.len() ==> b[j] != comma(),
        },
    decreases b.len(),
{
    if b.len() > 0 {
        lemma_first_comma_bounds(b.drop_first());
        if b[0] != comma() {
            match first_comma(b.drop_first()) {
                Some(i) => {
                    assert forall|j: int| 0 <= j < i + 1 implies b[j] != comma() by {
                        if j > 0 {
                            assert(b[j] == b.drop_first()[j - 1]);
                        }
                    }
                },
                None => {
                    assert forall|j: int| 0 <= j < b.len() implies b[j] != comma() by {
                        if j > 0 {
                            assert(b[j] == b.drop_first()[j - 1]);
                        }
                    }
                },
            }
        }
    }
}

proof fn lemma_first_comma_shift(b: Seq<u8>, lo: int, hi: int)
    requires
        0 <= lo <= hi <= b.len(),
        forall|j: int| lo <= j < hi ==> b[j] != comma(),
        hi == b.len() || b[hi] == comma(),
    ensures
        first_comma(b.subrange(lo, b.len() as int)) == if hi == b.len() {
            None::<int>
        } else {
            Some(hi - lo)
        },
    decreases hi - lo,
{
    let s = b.subrange(lo, b.len() as int);
    if lo == hi {
        if hi < b.len() {
            assert(s[0] == b[hi]);
        }
    } else {
        assert(s[0] == b[lo]);
        assert(s.drop_first() =~= b.subrange(lo + 1, b.len() as int));
        lemma_first_comma_shift(b, lo + 1, hi);
    }
}

proof fn lemma_decimal_value_monotone(b: Seq<u8>, i: int)
    requires
        0 <= i <= b.len(),
    ensures
        decimal_value(b.subrange(0, i)) <= decimal_value(b),
    decreases b.len() - i,
{
    if i < b.len() {
        lemma_decimal_value_monotone(b, i + 1);
        assert(b.subrange(0, i + 1).drop_last() =~= b.subrange(0, i));
    } else {
        assert(b.subrange(0, i) =~= b);
    }
}

/// Whether two texts are equal, character for character.
pub fn same_text(a: &str, b: &str) -> (r: bool)
    ensures
        r == (a@ == b@),
{
    let x = a.as_bytes();
    let y = b.as_bytes();
    if x.len() != y.len() {
        proof {
            if a@ == b@ {
                assert(x@ == y@);
            }
        }
        return false;
    }
    let mut i: usize = 0;
    while i < x.len()
        invariant
            x@ == a.spec_bytes(),
            y@ == b.spec_bytes(),
            x@.len() == y@.len(),
            0 <= i <= x@.len(),
            forall|j: int| 0 <= j < i ==> x@[j] == y@[j],
        decreases x@.len() - i,
    {
        if x[i] != y[i] {
            return false;
        }
        i = i + 1;
    }
    proof {
        assert(x@ =~= y@);
        assert(decode_utf8(encode_utf8(a@)) == a@);
        assert(decode_utf8(encode_utf8(b@)) == b@);
    }
    true
}

/// Reads the unsigned number written in `b[lo..hi]`, if it is one and does
/// not exceed `max`.
pub fn parse_decimal_range(b: &[u8], lo: usize, hi: usize, max: u64) -> (r: Option<u64>)
    requires
        lo <= hi <= b@.len(),
    ensures
        match decimal_number(b@.subrange(lo as int, hi as int), max as nat) {
            Some(v) => r == Some(v as u64),
            None => r is None,
        },
{
    let ghost whole = b@.subrange(lo as int, hi as int);
    let mut start = lo;
    if lo < hi && b[lo] == 0x2b {
        start = lo + 1;
    }
    let ghost d = b@.subrange(start as int, hi as int);
    assert(unsigned_digits(whole) =~= d);
    if start == hi {
        return None;
    }
    let mut acc: u64 = 0;
    let mut i = start;
    while i < hi
        invariant
            lo <= start < hi <= b@.len(),
            start <= i <= hi,
            d == b@.subrange(start as int, hi as int),
            unsigned_digits(whole) == d,
            whole == b@.subrange(lo as int, hi as int),
            forall|j: int| start <= j < i ==> is_digit(#[trigger] b@[j]),
            acc as nat == decimal_value(d.subrange(0, i - start)),
            acc <= max,
        decreases hi - i,
    {
        let c = b[i];
        if c < 0x30 || c > 0x39 {
            assert(d[i - start] == c);
            assert(!is_digit(d[i - start]));
            assert(!all_digits(d));
            assert(decimal_number(whole, max as nat) is None);
            return None;
        }
        let digit = (c - 0x30) as u64;
        assert(d.subrange(0, i - start + 1).drop_last() =~= d.subrange(0, i - start));
        if digit > max || acc > (max - digit) / 10 {
            proof {
                if digit <= max {
                    assert(acc * 10 + digit > max) by (nonlinear_arith)
                        requires
                            acc > (max - digit) / 10,
                            digit <= max,
                    ;
                }
                lemma_decimal_value_monotone(d, i - start + 1);
                let sub = d.subrange(0, i - start + 1);
                assert(sub.last() == c);
                assert(decimal_value(sub) == decimal_value(sub.drop_last()) * 10 + digit);
                assert(decimal_value(d) > max);
                assert(decimal_number(whole, max as nat) is None);
            }
            return None;
        }
        proof {
            assert(acc * 10 + digit <= max) by (nonlinear_arith)
                requires
                    acc <= (max - digit) / 10,
                    digit <= max,
            ;
        }
        acc = acc * 10 + digit;
        i = i + 1;
    }
    proof {
        assert(d.subrange(0, d.len() as int) =~= d);
        assert forall|j: int| 0 <= j < d.len() implies is_digit(#[trigger] d[j]) by {
            assert(d[j] == b@[start + j]);
        }
    }
    Some(acc)
}

/// Reads the unsigned number that `s` holds, if it is one and does not
/// exceed `max`.
pub fn parse_decimal(s: &str, max: u64) -> (r: Option<u64>)
    ensures
        match number_in(s@, max as nat) {
            Some(v) => r == Some(v as u64),
            None => r is None,
        },
{
    let b = s.as_bytes();
    assert(b@.subrange(0, b@.len() as int) =~= b@);
    parse_decimal_range(b, 0, b.len(), max)
}

/// The bounds of the `k`-th comma separated field of `b`, if there is one.
pub fn comma_field_bounds(b: &[u8], k: usize) -> (r: Option<(usize, usize)>)
    ensures
        match comma_field(b@, k as nat) {
            Some(f) => r matches Some((lo, hi)) && lo <= hi <= b@.len() && f == b@.subrange(
                lo as int,
                hi as int,
            ),
            None => r is None,
        },
{
    let mut lo: usize = 0;
    let mut field: usize = 0;
    assert(b@.subrange(0, b@.len() as int) =~= b@);
    loop
        invariant
            lo <= b@.len(),
            field <= k,
            comma_field(b@, k as nat) == comma_field(
                b@.subrange(lo as int, b@.len() as int),
                (k - field) as nat,
            ),
        decreases b@.len() - lo, k - field,
    {
        let mut hi = lo;
        while hi < b.len() && b[hi] != 0x2c
            invariant
                lo <= hi <= b@.len(),
                forall|j: int| lo <= j < hi ==> b@[j] != comma(),
            decreases b@.len() - hi,
        {
            hi = hi + 1;
        }
        let ghost rest = b@.subrange(lo as int, b@.len() as int);
        proof {
            lemma_first_comma_shift(b@, lo as int, hi as int);
            lemma_first_comma_bounds(rest);
        }
        if field == k {
            assert(rest.subrange(0, hi - lo) =~= b@.subrange(lo as int, hi as int));
            return Some((lo, hi));
        }
        if hi == b.len() {
            return None;
        }
        assert(rest.subrange(hi - lo + 1, rest.len() as int) =~= b@.subrange(
            hi + 1,
            b@.len() as int,
        ));
        lo = hi + 1;
        field = field + 1;
    }
}

} // verus!
