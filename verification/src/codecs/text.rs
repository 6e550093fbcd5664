//! Byte-level text utilities for the wire format: UTF-8 validity, decimal
//! integer parsing, and decimal rendering, each against an exact
//! specification.

use vstd::prelude::*;

use crate::codecs::DecodeError;

verus! {

/// Whether `b` is an ASCII decimal digit.
pub open spec fn is_digit(b: u8) -> bool {
    48 <= b <= 57
}

/// Whether `s` is a non-empty run of ASCII decimal digits.
pub open spec fn is_digits(s: Seq<u8>) -> bool {
    s.len() >= 1 && forall|i: int| 0 <= i < s.len() ==> is_digit(#[trigger] s[i])
}

/// The value of a run of ASCII decimal digits, most significant first.
pub open spec fn digits_val(s: Seq<u8>) -> int
    decreases s.len(),
{
    if s.len() == 0 {
        0
    } else {
        digits_val(s.drop_last()) * 10 + (s.last() - 48)
    }
}

/// Whether `s` is a decimal integer: digits with an optional leading sign.
pub open spec fn is_int_text(s: Seq<u8>) -> bool {
    if s.len() >= 1 && (s[0] == 43 || s[0] == 45) {
        is_digits(s.skip(1))
    } else {
        is_digits(s)
    }
}

/// The signed value of a decimal integer text.
pub open spec fn int_text_val(s: Seq<u8>) -> int {
    if s.len() >= 1 && s[0] == 45 {
        -digits_val(s.skip(1))
    } else if s.len() >= 1 && s[0] == 43 {
        digits_val(s.skip(1))
    } else {
        digits_val(s)
    }
}

/// Whether `s` is a decimal integer whose value fits in an `i64`; exactly
/// these texts are accepted when the wire format calls for an integer.
pub open spec fn is_i64_text(s: Seq<u8>) -> bool {
    is_int_text(s) && -9223372036854775808 <= int_text_val(s) <= 9223372036854775807
}

/// Whether `b` is a UTF-8 continuation byte.
pub open spec fn is_cont(b: u8) -> bool {
    128 <= b <= 191
}

/// Whether `s` is a well-formed UTF-8 byte sequence, by the shortest-form
/// encoding of scalar values: one-byte sequences below 128, and the two- to
/// four-byte sequences with their restricted second bytes.
pub open spec fn is_utf8(s: Seq<u8>) -> bool
    decreases s.len(),
{
    if s.len() == 0 {
        true
    } else {
        let b0 = s[0];
        if b0 < 128 {
            is_utf8(s.skip(1))
        } else if 194 <= b0 && b0 <= 223 {
            s.len() >= 2 && is_cont(s[1]) && is_utf8(s.skip(2))
        } else if b0 == 224 {
            s.len() >= 3 && 160 <= s[1] <= 191 && is_cont(s[2]) && is_utf8(s.skip(3))
        } else if (225 <= b0 && b0 <= 236) || b0 == 238 || b0 == 239 {
            s.len() >= 3 && is_cont(s[1]) && is_cont(s[2]) && is_utf8(s.skip(3))
        } else if b0 == 237 {
            s.len() >= 3 && 128 <= s[1] <= 159 && is_cont(s[2]) && is_utf8(s.skip(3))
        } else if b0 == 240 {
            s.len() >= 4 && 144 <= s[1] <= 191 && is_cont(s[2]) && is_cont(s[3]) && is_utf8(
                s.skip(4),
            )
        } else if 241 <= b0 && b0 <= 243 {
            s.len() >= 4 && is_cont(s[1]) && is_cont(s[2]) && is_cont(s[3]) && is_utf8(s.skip(4))
        } else if b0 == 244 {
            s.len() >= 4 && 128 <= s[1] <= 143 && is_cont(s[2]) && is_cont(s[3]) && is_utf8(
                s.skip(4),
            )
        } else {
            false
        }
    }
}

/// An all-ASCII sequence is well-formed UTF-8.
pub proof fn lemma_ascii_is_utf8(s: Seq<u8>)
    requires
        forall|i: int| 0 <= i < s.len() ==> #[trigger] s[i] < 128,
    ensures
        is_utf8(s),
    decreases s.len(),
{
    if s.len() > 0 {
        lemma_ascii_is_utf8(s.skip(1));
    }
}

/// A decimal integer text holds only ASCII bytes.
pub proof fn lemma_int_text_ascii(s: Seq<u8>)
    requires
        is_int_text(s),
    ensures
        forall|i: int| 0 <= i < s.len() ==> #[trigger] s[i] < 128,
{
    assert forall|i: int| 0 <= i < s.len() implies #[trigger] s[i] < 128 by {
        if s.len() >= 1 && (s[0] == 43 || s[0] == 45) {
            if i >= 1 {
                assert(is_digit(s.skip(1)[i - 1]));
            }
        } else {
            assert(is_digit(s[i]));
        }
    }
}

/// Whether `t` is well-formed UTF-8.
pub fn check_utf8(t: &[u8]) -> (r: bool)
    ensures
        r == is_utf8(t@),
{
    let n = t.len();
    let mut i: usize = 0;
    proof {
        assert(t@.skip(0) =~= t@);
    }
    while i < n
        invariant
            n == t@.len(),
            i <= n,
            is_utf8(t@) == is_utf8(t@.skip(i as int)),
        decreases n - i,
    {
        let b0 = t[i];
        if b0 < 128 {
            proof {
                assert(t@.skip(i as int).skip(1) =~= t@.skip(i as int + 1));
            }
            i = i + 1;
        } else if 194 <= b0 && b0 <= 223 {
            if n - i < 2 || !(128 <= t[i + 1] && t[i + 1] <= 191) {
                return false;
            }
            proof {
                assert(t@.skip(i as int).skip(2) =~= t@.skip(i as int + 2));
            }
            i = i + 2;
        } else if 224 <= b0 && b0 <= 239 {
            if n - i < 3 {
                return false;
            }
            let b1 = t[i + 1];
            let b2 = t[i + 2];
            let ok1 = if b0 == 224 {
                160 <= b1 && b1 <= 191
            } else if b0 == 237 {
                128 <= b1 && b1 <= 159
            } else {
                128 <= b1 && b1 <= 191
            };
            if !ok1 || !(128 <= b2 && b2 <= 191) {
                return false;
            }
            proof {
                assert(t@.skip(i as int).skip(3) =~= t@.skip(i as int + 3));
            }
            i = i + 3;
        } else if 240 <= b0 && b0 <= 244 {
            if n - i < 4 {
                return false;
            }
            let b1 = t[i + 1];
            let b2 = t[i + 2];
            let b3 = t[i + 3];
            let ok1 = if b0 == 240 {
                144 <= b1 && b1 <= 191
            } else if b0 == 244 {
                128 <= b1 && b1 <= 143
            } else {
                128 <= b1 && b1 <= 191
            };
            if !ok1 || !(128 <= b2 && b2 <= 191) || !(128 <= b3 && b3 <= 191) {
                return false;
            }
            proof {
                assert(t@.skip(i as int).skip(4) =~= t@.skip(i as int + 4));
            }
            i = i + 4;
        } else {
            return false;
        }
    }
    proof {
        assert(t@.skip(n as int) =~= Seq::<u8>::empty());
    }
    true
}

/// Parse `t` as a decimal `i64`, with the same acceptance as the standard
/// integer parser: an optional sign, then one or more digits, in range.
pub fn parse_i64(t: &[u8]) -> (r: Result<i64, DecodeError>)
    ensures
        !is_utf8(t@) ==> r == Err::<i64, DecodeError>(DecodeError::InvalidString),
        is_utf8(t@) && !is_i64_text(t@) ==> r == Err::<i64, DecodeError>(
            DecodeError::InvalidInteger,
        ),
        is_i64_text(t@) ==> (r matches Ok(v) && v as int == int_text_val(t@)),
{
    if !check_utf8(t) {
        proof {
            if is_int_text(t@) {
                lemma_int_text_ascii(t@);
                lemma_ascii_is_utf8(t@);
            }
        }
        return Err(DecodeError::InvalidString);
    }
    let n = t.len();
    if n == 0 {
        return Err(DecodeError::InvalidInteger);
    }
    let mut start: usize = 0;
    let mut neg = false;
    if t[0] == 43 || t[0] == 45 {
        neg = t[0] == 45;
        start = 1;
    }
    if start == n {
        return Err(DecodeError::InvalidInteger);
    }
    let ghost ds = t@.skip(start as int);
    let limit: u64 = if neg {
        9223372036854775808
    } else {
        9223372036854775807
    };
    let mut acc: u64 = 0;
    let mut i: usize = start;
    while i < n
        invariant
            n == t@.len(),
            start <= i <= n,
            start <= 1,
            n - start >= 1,
            is_utf8(t@),
            ds == t@.skip(start as int),
            start == 1 ==> n >= 1 && (t@[0] == 43 || t@[0] == 45),
            start == 0 ==> !(t@[0] == 43 || t@[0] == 45),
            neg <==> (n >= 1 && t@[0] == 45 && start == 1),
            acc <= limit,
            limit == if neg {
                9223372036854775808u64
            } else {
                9223372036854775807u64
            },
            acc as int == digits_val(ds.take(i - start)),
            forall|k: int| 0 <= k < i - start ==> is_digit(#[trigger] ds[k]),
        decreases n - i,
    {
        let b = t[i];
        if !(48 <= b && b <= 57) {
            proof {
                assert(!is_digits(ds)) by {
                    assert(ds[i - start] == b);
                    assert(!is_digit(ds[i - start]));
                }
                if start == 1 {
                    assert(t@.skip(1) == ds);
                } else {
                    assert(t@.skip(0) =~= t@);
                }
                assert(!is_int_text(t@));
            }
            return Err(DecodeError::InvalidInteger);
        }
        let d = (b - 48) as u64;
        proof {
            assert(ds.take(i - start + 1).drop_last() =~= ds.take(i - start));
            assert(ds.take(i - start + 1).last() == ds[i - start]);
        }
        if acc > (limit - d) / 10 {
            proof {
                assert(acc * 10 + d > limit) by (nonlinear_arith)
                    requires
                        acc > (limit - d) / 10,
                        d <= 9,
                        limit >= d,
                ;
                assert(!is_i64_text(t@)) by {
                    if is_int_text(t@) {
                        assert(t@.skip(0) =~= t@);
                        if start == 1 {
                            assert(t@.skip(1) == ds);
                        }
                        assert(is_digits(ds));
                        assert(digits_val(ds.take(i - start + 1)) == acc * 10 + d);
                        lemma_digits_val_prefix(ds, i - start + 1);
                        assert(digits_val(ds) > limit);
                        if neg {
                            assert(int_text_val(t@) == -digits_val(ds));
                        } else {
                            assert(t@[0] != 45);
                            assert(int_text_val(t@) == digits_val(ds));
                        }
                    }
                }
            }
            return Err(DecodeError::InvalidInteger);
        }
        proof {
            assert(acc * 10 + d <= limit) by (nonlinear_arith)
                requires
                    acc <= (limit - d) / 10,
                    d <= 9,
                    limit >= d,
            ;
        }
        acc = acc * 10 + d;
        i = i + 1;
    }
    proof {
        assert(ds.take(n - start) =~= ds);
        assert(is_digits(ds));
        if start == 1 {
            assert(t@.skip(1) == ds);
        } else {
            assert(t@.skip(0) =~= t@);
        }
        assert(is_int_text(t@));
        if neg {
            assert(int_text_val(t@) == -digits_val(ds));
        } else {
            assert(t@[0] != 45);
            assert(int_text_val(t@) == digits_val(ds));
        }
    }
    if neg {
        if acc == 9223372036854775808 {
            Ok(-9223372036854775808i64)
        } else {
            Ok(-(acc as i64))
        }
    } else {
        Ok(acc as i64)
    }
}

/// The value of a digit run is at least the value of any of its prefixes.
proof fn lemma_digits_val_prefix(ds: Seq<u8>, j: int)
    requires
        0 <= j <= ds.len(),
        forall|i: int| 0 <= i < ds.len() ==> is_digit(#[trigger] ds[i]),
    ensures
        digits_val(ds) >= digits_val(ds.take(j)),
{
    lemma_digits_val_monotone(ds, j, ds.len() as int);
    assert(ds.take(ds.len() as int) =~= ds);
}

/// The value of a digit run is non-negative, as is that of each prefix.
proof fn lemma_digits_val_nonneg(ds: Seq<u8>)
    requires
        forall|i: int| 0 <= i < ds.len() ==> is_digit(#[trigger] ds[i]),
    ensures
        digits_val(ds) >= 0,
    decreases ds.len(),
{
    if ds.len() > 0 {
        lemma_digits_val_nonneg(ds.drop_last());
        assert(digits_val(ds.drop_last()) * 10 >= 0) by (nonlinear_arith)
            requires
                digits_val(ds.drop_last()) >= 0,
        ;
    }
}

/// Prefix values of a digit run grow with the prefix length.
proof fn lemma_digits_val_monotone(ds: Seq<u8>, j: int, k: int)
    requires
        0 <= j <= k <= ds.len(),
        forall|i: int| 0 <= i < ds.len() ==> is_digit(#[trigger] ds[i]),
    ensures
        digits_val(ds.take(k)) >= digits_val(ds.take(j)),
    decreases k - j,
{
    if j < k {
        lemma_digits_val_monotone(ds, j, k - 1);
        assert(ds.take(k).drop_last() =~= ds.take(k - 1));
        assert forall|i: int| 0 <= i < ds.take(k - 1).len() implies is_digit(
            #[trigger] ds.take(k - 1)[i],
        ) by {}
        lemma_digits_val_nonneg(ds.take(k - 1));
        assert(digits_val(ds.take(k)) == digits_val(ds.take(k - 1)) * 10 + (ds[k - 1] - 48));
        assert(digits_val(ds.take(k - 1)) * 10 >= digits_val(ds.take(k - 1))) by (nonlinear_arith)
            requires
                digits_val(ds.take(k - 1)) >= 0,
        ;
    }
}

/// The canonical decimal rendering of a non-negative integer.
pub open spec fn u_repr(n: int) -> Seq<u8>
    decreases n,
{
    if n < 10 {
        seq![(48 + n) as u8]
    } else {
        u_repr(n / 10).push((48 + n % 10) as u8)
    }
}

/// The canonical decimal rendering of an integer, with a sign when negative.
pub open spec fn i_repr(v: int) -> Seq<u8> {
    if v < 0 {
        seq![45u8] + u_repr(-v)
    } else {
        u_repr(v)
    }
}

/// Render a non-negative integer in decimal.
pub fn render_u64(n: u64) -> (r: Vec<u8>)
    ensures
        r@ == u_repr(n as int),
    decreases n,
{
    if n < 10 {
        let mut v: Vec<u8> = Vec::new();
        v.push(48 + n as u8);
        proof {
            assert(v@ =~= u_repr(n as int));
        }
        v
    } else {
        let mut v = render_u64(n / 10);
        v.push(48 + (n % 10) as u8);
        proof {
            assert(v@ =~= u_repr(n as int));
        }
        v
    }
}

/// Render an integer in decimal.
pub fn render_i64(v: i64) -> (r: Vec<u8>)
    ensures
        r@ == i_repr(v as int),
{
    if v >= 0 {
        render_u64(v as u64)
    } else {
        let mag: u64 = if v == -9223372036854775808i64 {
            9223372036854775808u64
        } else {
            (-v) as u64
        };
        let mut r: Vec<u8> = Vec::new();
        r.push(45);
        let mut d = render_u64(mag);
        r.append(&mut d);
        proof {
            assert(r@ =~= i_repr(v as int));
        }
        r
    }
}

/// The digits of a canonical rendering, and their bounds: every byte of
/// `u_repr` is an ASCII digit.
pub proof fn lemma_u_repr_digits(n: int)
    requires
        n >= 0,
    ensures
        is_digits(u_repr(n)),
        forall|i: int| 0 <= i < u_repr(n).len() ==> 48 <= #[trigger] u_repr(n)[i] <= 57,
    decreases n,
{
    if n >= 10 {
        lemma_u_repr_digits(n / 10);
    }
}

/// The canonical rendering of an integer parses back to the same integer.
pub proof fn lemma_repr_round_trip(v: int)
    ensures
        is_int_text(i_repr(v)),
        int_text_val(i_repr(v)) == v,
        forall|i: int| 0 <= i < i_repr(v).len() ==> (#[trigger] i_repr(v)[i] == 45 || 48 <= i_repr(
            v,
        )[i] <= 57),
        is_utf8(i_repr(v)),
{
    if v < 0 {
        lemma_u_repr_digits(-v);
        lemma_u_repr_val(-v);
        assert((seq![45u8] + u_repr(-v)).skip(1) =~= u_repr(-v));
    } else {
        lemma_u_repr_digits(v);
        lemma_u_repr_val(v);
        assert(u_repr(v)[0] != 43 && u_repr(v)[0] != 45);
    }
    lemma_ascii_is_utf8(i_repr(v));
}

/// The value of the canonical rendering.
proof fn lemma_u_repr_val(n: int)
    requires
        n >= 0,
    ensures
        digits_val(u_repr(n)) == n,
    decreases n,
{
    if n < 10 {
        assert(u_repr(n).drop_last() =~= Seq::<u8>::empty());
        assert(digits_val(Seq::<u8>::empty()) == 0);
        assert(u_repr(n).last() == (48 + n) as u8);
    } else {
        lemma_u_repr_val(n / 10);
        lemma_u_repr_digits(n / 10);
        assert(u_repr(n).drop_last() =~= u_repr(n / 10));
        assert(digits_val(u_repr(n)) == (n / 10) * 10 + n % 10);
        vstd::arithmetic::div_mod::lemma_fundamental_div_mod(n, 10);
    }
}

/// The lower-case image of an ASCII byte.
pub open spec fn lower_byte(b: u8) -> u8 {
    if 65 <= b <= 90 {
        (b + 32) as u8
    } else {
        b
    }
}

/// The bytewise ASCII lower-casing of a sequence.
pub open spec fn lower(s: Seq<u8>) -> Seq<u8> {
    s.map_values(|b: u8| lower_byte(b))
}

/// Whether `t`, lower-cased bytewise, equals `pat` (which is expected to be
/// lower case already).
pub fn eq_lower(t: &[u8], pat: &[u8]) -> (r: bool)
    ensures
        r == (lower(t@) == pat@),
{
    let n = t.len();
    if n != pat.len() {
        proof {
            assert(lower(t@).len() == t@.len());
        }
        return false;
    }
    let mut i: usize = 0;
    while i < n
        invariant
            n == t@.len(),
            n == pat@.len(),
            i <= n,
            forall|k: int| 0 <= k < i ==> lower_byte(t@[k]) == pat@[k],
        decreases n - i,
    {
        let b = t[i];
        let lb: u8 = if 65 <= b && b <= 90 {
            b + 32
        } else {
            b
        };
        if lb != pat[i] {
            proof {
                assert(lower(t@)[i as int] == lower_byte(t@[i as int]));
            }
            return false;
        }
        i = i + 1;
    }
    proof {
        assert(lower(t@) =~= pat@);
    }
    true
}

/// The length of a canonical rendering: at least one byte, and never more
/// bytes than the value itself (for positive values).
pub proof fn lemma_u_repr_len(n: int)
    requires
        n >= 0,
    ensures
        1 <= u_repr(n).len(),
        n >= 1 ==> u_repr(n).len() <= n,
    decreases n,
{
    if n >= 10 {
        lemma_u_repr_len(n / 10);
    }
}

} // verus!
