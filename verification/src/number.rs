//! The grammar of a decimal floating-point literal, as the standard library
//! documents it for 64-bit floats:
//!
//! ```text
//! Float  ::= Sign? ( 'inf' | 'infinity' | 'nan' | Number )
//! Number ::= Count '.'? Exp?
//!          | Count? '.' Count Exp?
//!          | Count Exp
//! Count  ::= Digit+
//! Exp    ::= ('e' | 'E') Sign? Count
//! Sign   ::= '+' | '-'
//! ```
//!
//! with the three words matched case-insensitively. The codec stores each
//! data value as its numeric text, checked against this grammar; turning the
//! text into a machine float is the caller's business.

use vstd::prelude::*;

use crate::text::find_byte;
use crate::text::is_ws;

verus! {

/// ASCII decimal digit.
pub open spec fn is_digit(b: u8) -> bool {
    48 <= b && b <= 57
}

/// Every byte is a digit; holds for the empty sequence.
pub open spec fn digits_only(s: Seq<u8>) -> bool {
    forall|k: int| 0 <= k < s.len() ==> is_digit(s[k])
}

/// `Count`: one or more digits.
pub open spec fn is_count(s: Seq<u8>) -> bool {
    s.len() > 0 && digits_only(s)
}

/// ASCII lower-casing of one byte.
pub open spec fn lower(b: u8) -> u8 {
    if 65 <= b && b <= 90 {
        (b + 32) as u8
    } else {
        b
    }
}

pub open spec fn lower_seq(s: Seq<u8>) -> Seq<u8> {
    s.map_values(|b: u8| lower(b))
}

pub open spec fn inf_word() -> Seq<u8> {
    seq![105u8, 110u8, 102u8]
}

pub open spec fn infinity_word() -> Seq<u8> {
    seq![105u8, 110u8, 102u8, 105u8, 110u8, 105u8, 116u8, 121u8]
}

pub open spec fn nan_word() -> Seq<u8> {
    seq![110u8, 97u8, 110u8]
}

/// One of the three special words, case-insensitively.
pub open spec fn is_special(s: Seq<u8>) -> bool {
    lower_seq(s) == inf_word() || lower_seq(s) == infinity_word() || lower_seq(s) == nan_word()
}

/// A leading `+` or `-` removed.
pub open spec fn strip_sign(s: Seq<u8>) -> Seq<u8> {
    if s.len() > 0 && (s[0] == 43 || s[0] == 45) {
        s.drop_first()
    } else {
        s
    }
}

/// `Exp` after the `e`: an optionally signed `Count`.
pub open spec fn is_exp_part(s: Seq<u8>) -> bool {
    is_count(strip_sign(s))
}

/// The part before any exponent: digits with at most one point, and at least
/// one digit or a digit after the point.
pub open spec fn is_mantissa(m: Seq<u8>) -> bool {
    let j = find_byte(m, 46);
    if j == m.len() {
        is_count(m)
    } else {
        digits_only(m.take(j)) && digits_only(m.skip(j + 1)) && m.len() > 1
    }
}

/// Index of the first `e` or `E`, or `s.len()` when absent.
pub open spec fn find_exp(s: Seq<u8>) -> int
    decreases s.len(),
{
    if s.len() == 0 {
        0
    } else if s[0] == 101 || s[0] == 69 {
        0
    } else {
        1 + find_exp(s.drop_first())
    }
}

/// `Number`: a mantissa, optionally followed by an exponent.
pub open spec fn is_number(t: Seq<u8>) -> bool {
    let i = find_exp(t);
    if i == t.len() {
        is_mantissa(t)
    } else {
        is_mantissa(t.take(i)) && is_exp_part(t.skip(i + 1))
    }
}

/// The whole grammar: an optional sign, then a special word or a number.
pub open spec fn is_float_text(s: Seq<u8>) -> bool {
    is_special(strip_sign(s)) || is_number(strip_sign(s))
}

pub proof fn lemma_find_exp_bounds(s: Seq<u8>)
    ensures
        0 <= find_exp(s) <= s.len(),
        forall|k: int| 0 <= k < find_exp(s) ==> s[k] != 101 && s[k] != 69,
        find_exp(s) < s.len() ==> s[find_exp(s)] == 101 || s[find_exp(s)] == 69,
    decreases s.len(),
{
    if s.len() > 0 && s[0] != 101 && s[0] != 69 {
        lemma_find_exp_bounds(s.drop_first());
        assert forall|k: int| 0 <= k < find_exp(s) implies s[k] != 101 && s[k] != 69 by {
            if k > 0 {
                assert(s.drop_first()[k - 1] != 101 && s.drop_first()[k - 1] != 69);
            }
        }
    }
}

/// Pins `find_exp` from a witness.
pub proof fn lemma_find_exp_at(s: Seq<u8>, i: int)
    requires
        0 <= i <= s.len(),
        forall|k: int| 0 <= k < i ==> s[k] != 101 && s[k] != 69,
        i == s.len() || s[i] == 101 || s[i] == 69,
    ensures
        find_exp(s) == i,
    decreases i,
{
    if i > 0 {
        lemma_find_exp_at(s.drop_first(), i - 1);
    }
}

/// Float text is non-empty and free of whitespace (so of tabs and newlines
/// too): it passes untouched through trimming, field splitting and line
/// splitting.
pub proof fn lemma_float_text_clean(s: Seq<u8>)
    requires
        is_float_text(s),
    ensures
        s.len() > 0,
        forall|k: int| 0 <= k < s.len() ==> !is_ws(s[k]),
{
    let t = strip_sign(s);
    if is_special(t) {
        assert(lower_seq(t).len() == t.len());
        assert(t.len() == 3 || t.len() == 8);
        assert forall|k: int| 0 <= k < s.len() implies !is_ws(s[k]) by {
            assert(lower_seq(t).len() == t.len());
            if s.len() > 0 && (s[0] == 43 || s[0] == 45) {
                if k > 0 {
                    assert(lower_seq(t)[k - 1] == lower(t[k - 1]));
                    assert(t[k - 1] == s[k]);
                }
            } else {
                assert(lower_seq(t)[k] == lower(t[k]));
            }
        }
    } else {
        lemma_find_exp_bounds(t);
        let i = find_exp(t);
        let m = if i == t.len() {
            t
        } else {
            t.take(i)
        };
        assert(t.len() > 0) by {
            if t.len() == 0 {
                assert(find_exp(t) == 0);
                assert(find_byte(t, 46) == 0);
                assert(!is_count(t));
            }
        }
        assert forall|k: int| 0 <= k < t.len() implies !is_ws(t[k]) by {
            crate::text::lemma_find_byte_bounds(m, 46);
            let j = find_byte(m, 46);
            if k < i {
                // inside the mantissa: a digit or the point
                if j == m.len() {
                    assert(is_digit(m[k]));
                } else {
                    if k < j {
                        assert(is_digit(m.take(j)[k]));
                    } else if k > j {
                        assert(is_digit(m.skip(j + 1)[k - j - 1]));
                    }
                }
            } else if k == i && i < t.len() {
                // the exponent letter
            } else if k > i {
                let x = t.skip(i + 1);
                let y = strip_sign(x);
                if x.len() > 0 && (x[0] == 43 || x[0] == 45) {
                    if k > i + 1 {
                        assert(is_digit(y[k - i - 2]));
                    }
                } else {
                    assert(is_digit(y[k - i - 1]));
                }
            }
        }
        assert forall|k: int| 0 <= k < s.len() implies !is_ws(s[k]) by {
            if s.len() > 0 && (s[0] == 43 || s[0] == 45) {
                if k > 0 {
                    assert(!is_ws(t[k - 1]));
                }
            } else {
                assert(!is_ws(t[k]));
            }
        }
    }
}

/// ASCII lower-casing of one byte.
fn lower_byte(b: u8) -> (r: u8)
    ensures
        r == lower(b),
{
    if 65 <= b && b <= 90 {
        b + 32
    } else {
        b
    }
}

/// Every byte in `s[from..to]` is a digit.
fn digits_in_range(s: &Vec<u8>, from: usize, to: usize) -> (r: bool)
    requires
        from <= to <= s@.len(),
    ensures
        r == digits_only(s@.subrange(from as int, to as int)),
{
    let mut k: usize = from;
    let mut ok: bool = true;
    while k < to
        invariant
            from <= k <= to <= s@.len(),
            ok == forall|j: int| from <= j < k ==> is_digit(s@[j]),
        decreases to - k,
    {
        ok = ok && 48 <= s[k] && s[k] <= 57;
        k = k + 1;
    }
    proof {
        let u = s@.subrange(from as int, to as int);
        assert(forall|j: int| 0 <= j < u.len() ==> u[j] == s@[from + j]);
        if ok {
            assert forall|j: int| 0 <= j < u.len() implies is_digit(u[j]) by {
                assert(is_digit(s@[from + j]));
            }
        } else {
            let j = choose|j: int| from <= j < to && !is_digit(s@[j]);
            assert(!is_digit(u[j - from]));
        }
    }
    ok
}

/// Whether `s[from..]` is one of the special words, case-insensitively.
fn special_in_range(s: &Vec<u8>, from: usize) -> (r: bool)
    requires
        from <= s@.len(),
    ensures
        r == is_special(s@.skip(from as int)),
{
    let ghost t = s@.skip(from as int);
    let n = s.len();
    if n - from == 3 {
        let a = lower_byte(s[from]);
        let b = lower_byte(s[from + 1]);
        let c = lower_byte(s[from + 2]);
        let hit = (a == 105 && b == 110 && c == 102) || (a == 110 && b == 97 && c == 110);
        proof {
            assert(t.len() == 3);
            assert(lower_seq(t).len() == 3);
            assert(lower_seq(t)[0] == lower(s@[from as int]));
            assert(lower_seq(t)[1] == lower(s@[from + 1]));
            assert(lower_seq(t)[2] == lower(s@[from + 2]));
            if hit {
                if a == 105 {
                    assert(lower_seq(t) =~= inf_word());
                } else {
                    assert(lower_seq(t) =~= nan_word());
                }
            } else {
                assert(lower_seq(t) != inf_word());
                assert(lower_seq(t) != nan_word());
                assert(lower_seq(t).len() != infinity_word().len());
            }
        }
        hit
    } else if n - from == 8 {
        let w: [u8; 8] = [105, 110, 102, 105, 110, 105, 116, 121];
        let mut k: usize = 0;
        let mut hit: bool = true;
        while k < 8
            invariant
                0 <= k <= 8,
                from + 8 == s@.len(),
                from + 8 <= usize::MAX,
                t == s@.skip(from as int),
                t.len() == 8,
                w@ == infinity_word(),
                hit == forall|j: int| 0 <= j < k ==> lower(t[j]) == infinity_word()[j],
            decreases 8 - k,
        {
            let lb = lower_byte(s[from + k]);
            proof {
                assert(t[k as int] == s@[from + k]);
            }
            hit = hit && lb == w[k];
            k = k + 1;
        }
        proof {
            if hit {
                assert forall|j: int| 0 <= j < 8 implies lower_seq(t)[j] == infinity_word()[j] by {
                    assert(lower(t[j]) == infinity_word()[j]);
                }
                assert(lower_seq(t) =~= infinity_word());
            } else {
                let j = choose|j: int| 0 <= j < 8 && lower(t[j]) != infinity_word()[j];
                assert(lower_seq(t)[j] != infinity_word()[j]);
                assert(lower_seq(t) != infinity_word());
            }
            assert(lower_seq(t).len() == 8);
        }
        hit
    } else {
        proof {
            assert(lower_seq(t).len() == t.len());
        }
        false
    }
}

/// Whether the bytes form a floating-point literal of the grammar above.
#[verifier::rlimit(60)]
pub fn is_float_bytes(s: &Vec<u8>) -> (r: bool)
    ensures
        r == is_float_text(s@),
{
    let n = s.len();
    let start: usize = if n > 0 && (s[0] == 43 || s[0] == 45) {
        1
    } else {
        0
    };
    let ghost t = s@.skip(start as int);
    proof {
        assert(t == strip_sign(s@)) by {
            if n > 0 && (s@[0] == 43 || s@[0] == 45) {
                assert(s@.skip(1) =~= s@.drop_first());
            } else {
                assert(s@.skip(0) =~= s@);
            }
        }
    }
    if special_in_range(s, start) {
        return true;
    }
    // find the exponent letter
    let mut i: usize = start;
    while i < n && s[i] != 101 && s[i] != 69
        invariant
            start <= i <= n == s@.len(),
            forall|k: int| start <= k < i ==> s@[k] != 101 && s@[k] != 69,
        decreases n - i,
    {
        i = i + 1;
    }
    proof {
        lemma_find_exp_at(t, i - start);
        assert(find_exp(t) == i - start);
    }
    let ghost m = if i == n {
        t
    } else {
        t.take(i - start)
    };
    proof {
        assert(m =~= s@.subrange(start as int, i as int));
    }
    // the mantissa: s[start..i]
    let mut j: usize = start;
    while j < i && s[j] != 46
        invariant
            start <= j <= i <= n == s@.len(),
            forall|k: int| start <= k < j ==> s@[k] != 46,
        decreases i - j,
    {
        j = j + 1;
    }
    proof {
        crate::text::lemma_find_byte_at(m, 46, j - start);
        assert(find_byte(m, 46) == j - start);
    }
    let mantissa_ok: bool = if j == i {
        // no point: Count
        proof {
            assert(m =~= s@.subrange(start as int, i as int));
        }
        i > start && digits_in_range(s, start, i)
    } else {
        let before = digits_in_range(s, start, j);
        let after = digits_in_range(s, j + 1, i);
        proof {
            assert(m.take(j - start) =~= s@.subrange(start as int, j as int));
            assert(m.skip(j - start + 1) =~= s@.subrange(j + 1 as int, i as int));
        }
        before && after && i - start > 1
    };
    if i == n {
        mantissa_ok
    } else {
        // the exponent: s[i + 1 ..], an optionally signed Count
        let ghost x = t.skip(i - start + 1);
        proof {
            assert(x =~= s@.skip(i + 1 as int));
        }
        let estart: usize = if i + 1 < n && (s[i + 1] == 43 || s[i + 1] == 45) {
            i + 2
        } else {
            i + 1
        };
        let ghost y = strip_sign(x);
        proof {
            assert(y =~= s@.subrange(estart as int, n as int)) by {
                if x.len() > 0 && (x[0] == 43 || x[0] == 45) {
                    assert(x.drop_first() =~= s@.subrange(estart as int, n as int));
                }
            }
        }
        let exp_ok = estart < n && digits_in_range(s, estart, n);
        proof {
            assert(s@.subrange(estart as int, n as int).len() == n - estart);
        }
        mantissa_ok && exp_ok
    }
}

} // verus!
