//! Exact decimal monetary amounts.
//!
//! An `Amount` is a non-negative decimal number held as an integer count of
//! minor units together with a decimal scale: the value is
//! `units / 10^scale`. Amounts are parsed from and rendered to plain decimal
//! text (ASCII bytes), so no binary floating point ever touches a monetary
//! value inside this crate.

use vstd::prelude::*;
use vstd::arithmetic::div_mod::lemma_fundamental_div_mod;
use crate::LedgerError;

verus! {

/// `10^n`.
pub open spec fn pow10(n: nat) -> int
    decreases n,
{
    if n == 0 {
        1
    } else {
        10 * pow10((n - 1) as nat)
    }
}

pub proof fn lemma_pow10_pos(n: nat)
    ensures
        pow10(n) >= 1,
    decreases n,
{
    if n > 0 {
        lemma_pow10_pos((n - 1) as nat);
    }
}

pub proof fn lemma_pow10_add(a: nat, b: nat)
    ensures
        pow10(a + b) == pow10(a) * pow10(b),
    decreases a,
{
    if a == 0 {
        assert(pow10(0 + b) == 1 * pow10(b));
    } else {
        lemma_pow10_add((a - 1) as nat, b);
        assert(pow10((a - 1) as nat + b) == pow10((a - 1) as nat) * pow10(b));
        assert((a - 1) as nat + b + 1 == a + b);
        assert(pow10(a + b) == 10 * pow10(((a + b) - 1) as nat));
        assert(pow10(a) * pow10(b) == (10 * pow10((a - 1) as nat)) * pow10(b));
        assert((10 * pow10((a - 1) as nat)) * pow10(b) == 10 * (pow10((a - 1) as nat) * pow10(b)))
            by (nonlinear_arith);
    }
}

pub proof fn lemma_pow10_mono(a: nat, b: nat)
    requires
        a <= b,
    ensures
        pow10(a) <= pow10(b),
{
    lemma_pow10_add(a, (b - a) as nat);
    lemma_pow10_pos(a);
    lemma_pow10_pos((b - a) as nat);
    assert(pow10(a) * 1 <= pow10(a) * pow10((b - a) as nat)) by (nonlinear_arith)
        requires pow10(a) >= 1 && pow10((b - a) as nat) >= 1;
}

/// The concrete value of `10^33`, small enough for `u128` arithmetic.
pub proof fn lemma_pow10_33_value()
    ensures
        pow10(33) == 1000000000000000000000000000000000,
{
    reveal_with_fuel(pow10, 34);
}

/// An ASCII decimal digit.
pub open spec fn is_digit(b: u8) -> bool {
    48 <= b <= 57
}

/// Every byte of `s` is an ASCII decimal digit.
pub open spec fn all_digits(s: Seq<u8>) -> bool {
    forall|i: int| 0 <= i < s.len() ==> is_digit(#[trigger] s[i])
}

/// The number written by the digit bytes of `s`, most significant first.
pub open spec fn digits_val(s: Seq<u8>) -> int
    decreases s.len(),
{
    if s.len() == 0 {
        0
    } else {
        digits_val(s.drop_last()) * 10 + (s.last() - 48)
    }
}

pub proof fn lemma_digits_val_bounds(s: Seq<u8>)
    requires
        all_digits(s),
    ensures
        0 <= digits_val(s) < pow10(s.len()),
    decreases s.len(),
{
    if s.len() == 0 {
    } else {
        lemma_digits_val_bounds(s.drop_last());
        assert(is_digit(s.last()));
        assert(digits_val(s.drop_last()) <= pow10((s.len() - 1) as nat) - 1);
        assert(digits_val(s.drop_last()) * 10 <= (pow10((s.len() - 1) as nat) - 1) * 10)
            by (nonlinear_arith)
            requires digits_val(s.drop_last()) <= pow10((s.len() - 1) as nat) - 1;
        assert(pow10(s.len()) == 10 * pow10((s.len() - 1) as nat));
    }
}

/// An exact non-negative decimal amount: the value `units / 10^scale`.
///
/// A well-formed amount keeps at most 12 fractional digits and at most
/// 20 integer digits, comfortably past any currency's minor unit while
/// keeping every computation inside `u128`.
#[derive(Clone, Copy, Debug, PartialEq, Eq, Structural)]
pub struct Amount {
    pub units: u128,
    pub scale: u32,
}

impl Amount {
    /// The amount measured in `10^-12` units: a common integer scale on
    /// which any two well-formed amounts can be compared and subtracted.
    pub open spec fn scaled(self) -> int {
        self.units * pow10((12 - self.scale) as nat)
    }

    /// Well-formedness: bounded scale and bounded magnitude.
    pub open spec fn wf(self) -> bool {
        self.scale <= 12 && self.scaled() < pow10(32)
    }

    /// The zero amount.
    pub fn zero() -> (r: Amount)
        ensures
            r == (Amount { units: 0, scale: 0 }),
            r.wf(),
            r.scaled() == 0,
    {
        proof {
            lemma_pow10_pos(12);
            lemma_pow10_pos(32);
            assert(0 * pow10(12) == 0) by (nonlinear_arith);
        }
        Amount { units: 0, scale: 0 }
    }
}

/// Text of the form `D+` with at most 20 digits.
pub open spec fn plain_number(s: Seq<u8>) -> bool {
    1 <= s.len() <= 20 && all_digits(s)
}

/// Text of the form `D+ '.' D+` split at the dot position `k`, with at
/// most 20 integer digits and 1 to 12 fractional digits.
pub open spec fn split_at_dot(s: Seq<u8>, k: int) -> bool {
    &&& 1 <= k <= 20
    &&& k + 2 <= s.len()
    &&& s.len() - k - 1 <= 12
    &&& s[k] == 46
    &&& all_digits(s.subrange(0, k))
    &&& all_digits(s.subrange(k + 1, s.len() as int))
}

/// The amount denoted by decimal text, or `None` where the text is not a
/// plain non-negative decimal number within the supported width.
pub open spec fn spec_parse(s: Seq<u8>) -> Option<Amount> {
    if plain_number(s) {
        Some(Amount { units: digits_val(s) as u128, scale: 0 })
    } else if exists|k: int| split_at_dot(s, k) {
        let k = choose|k: int| split_at_dot(s, k);
        let frac_len = s.len() - k - 1;
        Some(
            Amount {
                units: (digits_val(s.subrange(0, k)) * pow10(frac_len as nat) + digits_val(
                    s.subrange(k + 1, s.len() as int),
                )) as u128,
                scale: frac_len as u32,
            },
        )
    } else {
        None
    }
}

/// A dot position of a valid split is unique: it is the only dot that has
/// nothing but digits on both sides.
proof fn lemma_split_unique(s: Seq<u8>, k1: int, k2: int)
    requires
        split_at_dot(s, k1),
        split_at_dot(s, k2),
    ensures
        k1 == k2,
{
    if k1 < k2 {
        assert(s.subrange(k1 + 1, s.len() as int)[k2 - k1 - 1] == s[k2]);
        assert(is_digit(s[k2]));
    }
    if k2 < k1 {
        assert(s.subrange(k2 + 1, s.len() as int)[k1 - k2 - 1] == s[k1]);
        assert(is_digit(s[k1]));
    }
}

/// If the first dot of `s` sits at `k0`, no other position can split `s`.
proof fn lemma_only_first_dot(s: Seq<u8>, k0: int)
    requires
        0 <= k0 < s.len(),
        s[k0] == 46,
        forall|j: int| 0 <= j < k0 ==> s[j] != 46,
    ensures
        forall|k: int| split_at_dot(s, k) ==> k == k0,
{
    assert forall|k: int| split_at_dot(s, k) implies k == k0 by {
        if k < k0 {
            assert(s[k] == 46);
        }
        if k > k0 {
            assert(s.subrange(0, k)[k0] == s[k0]);
            assert(is_digit(s[k0]));
        }
    }
}

/// Raises 10 to the power `e`.
pub fn pow10_u128(e: u32) -> (r: u128)
    requires
        e <= 32,
    ensures
        r as int == pow10(e as nat),
{
    let mut r: u128 = 1;
    let mut i: u32 = 0;
    while i < e
        invariant
            i <= e <= 32,
            r as int == pow10(i as nat),
        decreases e - i,
    {
        proof {
            lemma_pow10_mono((i + 1) as nat, 33);
            lemma_pow10_33_value();
            lemma_pow10_pos(i as nat);
        }
        r = r * 10;
        i = i + 1;
    }
    r
}

impl Amount {
    /// Parses decimal text (`D+` or `D+.D+`, ASCII) into an exact amount.
    ///
    /// Returns `InvalidAmount` exactly when the text is not such a number
    /// or does not fit in 20 integer and 12 fractional digits.
    pub fn parse(text: &[u8]) -> (r: Result<Amount, LedgerError>)
        ensures
            r is Ok <==> spec_parse(text@) is Some,
            r is Ok ==> spec_parse(text@) == Some(r->Ok_0) && r->Ok_0.wf(),
            r is Err ==> r == Err::<Amount, LedgerError>(LedgerError::InvalidAmount),
    {
        let n = text.len();
        // Find the first dot, if any.
        let mut dot_idx: usize = n;
        let mut i: usize = 0;
        while i < n
            invariant
                n == text@.len(),
                i <= n,
                dot_idx == n || (dot_idx < i && text@[dot_idx as int] == 46),
                dot_idx == n ==> forall|j: int| 0 <= j < i ==> text@[j] != 46,
                dot_idx < n ==> forall|j: int| 0 <= j < dot_idx ==> text@[j] != 46,
            decreases n - i,
        {
            if dot_idx == n && text[i] == 46 {
                dot_idx = i;
            }
            i = i + 1;
        }

        if dot_idx == n {
            // No dot anywhere, so no split position exists either.
            assert(forall|k: int| !split_at_dot(text@, k)) by {
                assert forall|k: int| !split_at_dot(text@, k) by {
                    if 0 <= k < text@.len() {
                        assert(text@[k] != 46);
                    }
                }
            }
            if n < 1 || n > 20 {
                return Err(LedgerError::InvalidAmount);
            }
            match scan_digits(text, 0, n) {
                Some(units) => {
                    proof {
                        assert(text@.subrange(0, n as int) =~= text@);
                        lemma_digits_val_bounds(text@);
                        lemma_pow10_mono(n as nat, 20);
                        lemma_pow10_mono(20, 32);
                        lemma_pow10_add(20, 12);
                        lemma_pow10_pos(12);
                        assert(units * pow10(12) < pow10(20) * pow10(12)) by (nonlinear_arith)
                            requires 0 <= units as int && (units as int) < pow10(20) && pow10(12) >= 1;
                    }
                    Ok(Amount { units, scale: 0 })
                },
                None => {
                    proof {
                        assert(!plain_number(text@));
                    }
                    Err(LedgerError::InvalidAmount)
                },
            }
        } else {
            // First dot at dot_idx: the only candidate split position.
            proof {
                lemma_only_first_dot(text@, dot_idx as int);
                // The dot keeps the whole text from being a plain number.
                assert(!is_digit(text@[dot_idx as int]));
            }
            let frac_len = n - dot_idx - 1;
            if dot_idx < 1 || dot_idx > 20 || frac_len < 1 || frac_len > 12 {
                return Err(LedgerError::InvalidAmount);
            }
            let int_part = match scan_digits(text, 0, dot_idx) {
                Some(v) => v,
                None => {
                    return Err(LedgerError::InvalidAmount);
                },
            };
            let frac_part = match scan_digits(text, dot_idx + 1, n) {
                Some(v) => v,
                None => {
                    return Err(LedgerError::InvalidAmount);
                },
            };
            proof {
                lemma_digits_val_bounds(text@.subrange(0, dot_idx as int));
                lemma_digits_val_bounds(text@.subrange(dot_idx + 1, n as int));
                lemma_pow10_mono(dot_idx as nat, 20);
                lemma_pow10_mono(frac_len as nat, 12);
                lemma_pow10_mono(12, 32);
                lemma_pow10_pos(frac_len as nat);
                lemma_pow10_add(20, frac_len as nat);
                lemma_pow10_add(20, 12);
                lemma_pow10_33_value();
                lemma_pow10_mono((20 + frac_len as nat) as nat, 32);
                lemma_pow10_mono(32, 33);
                assert(int_part * pow10(frac_len as nat) <= (pow10(20) - 1) * pow10(
                    frac_len as nat,
                )) by (nonlinear_arith)
                    requires 0 <= int_part as int && (int_part as int) <= pow10(20) - 1 && pow10(
                        frac_len as nat,
                    ) >= 1;
                assert((pow10(20) - 1) * pow10(frac_len as nat) == pow10(20) * pow10(
                    frac_len as nat,
                ) - pow10(frac_len as nat)) by (nonlinear_arith);
            }
            let units = int_part * pow10_u128(frac_len as u32) + frac_part;
            proof {
                let s = text@;
                let k = dot_idx as int;
                assert(split_at_dot(s, k));
                let k2 = choose|k2: int| split_at_dot(s, k2);
                lemma_split_unique(s, k, k2);
                // Well-formedness of the parsed amount.
                let u = units as int;
                assert(u < pow10((20 + frac_len) as nat));
                lemma_pow10_add((20 + frac_len) as nat, (12 - frac_len) as nat);
                lemma_pow10_pos((12 - frac_len) as nat);
                assert(u * pow10((12 - frac_len) as nat) < pow10((20 + frac_len) as nat) * pow10(
                    (12 - frac_len) as nat,
                )) by (nonlinear_arith)
                    requires 0 <= u && u < pow10((20 + frac_len) as nat) && pow10(
                        (12 - frac_len) as nat,
                    ) >= 1;
            }
            Ok(Amount { units, scale: frac_len as u32 })
        }
    }
}

/// Reads the digit run `text[from..to]` as a number; `None` if any byte in
/// that range is not a digit.
fn scan_digits(text: &[u8], from: usize, to: usize) -> (r: Option<u128>)
    requires
        from <= to <= text@.len(),
        to - from <= 20,
    ensures
        r is Some <==> all_digits(text@.subrange(from as int, to as int)),
        r is Some ==> (r->0 as int) == digits_val(text@.subrange(from as int, to as int)) && (r->0
            as int) < pow10((to - from) as nat),
{
    let mut acc: u128 = 0;
    let mut i: usize = from;
    while i < to
        invariant
            from <= i <= to <= text@.len(),
            to - from <= 20,
            all_digits(text@.subrange(from as int, i as int)),
            acc as int == digits_val(text@.subrange(from as int, i as int)),
            (acc as int) < pow10((i - from) as nat),
        decreases to - i,
    {
        let b = text[i];
        if b < 48 || b > 57 {
            proof {
                let sub = text@.subrange(from as int, to as int);
                assert(sub[i - from as int] == text@[i as int]);
            }
            return None;
        }
        proof {
            lemma_pow10_mono((i - from + 1) as nat, 21);
            lemma_pow10_33_value();
            reveal_with_fuel(pow10, 22);
            assert(acc * 10 + 9 < pow10((i - from + 1) as nat)) by (nonlinear_arith)
                requires (acc as int) < pow10((i - from) as nat) && pow10((i - from + 1) as nat)
                    == 10 * pow10((i - from) as nat) && acc >= 0;
        }
        acc = acc * 10 + ((b - 48) as u128);
        proof {
            let pre = text@.subrange(from as int, i as int);
            let post = text@.subrange(from as int, i + 1 as int);
            assert(post.drop_last() =~= pre);
            assert(post.last() == text@[i as int]);
        }
        i = i + 1;
    }
    proof {
        lemma_pow10_mono((to - from) as nat, 20);
    }
    Some(acc)
}

/// The decimal digits of `n`, most significant first, no leading zeros.
pub open spec fn dec_digits(n: int) -> Seq<u8>
    decreases n,
{
    if n < 10 {
        seq![(48 + n) as u8]
    } else {
        dec_digits(n / 10).push((48 + n % 10) as u8)
    }
}

/// The decimal digits of `v` zero-padded on the left to exactly `w` digits.
pub open spec fn dec_padded(v: int, w: nat) -> Seq<u8>
    decreases w,
{
    if w == 0 {
        Seq::empty()
    } else {
        dec_padded(v / 10, (w - 1) as nat).push((48 + v % 10) as u8)
    }
}

proof fn lemma_dec_digits_props(n: int)
    requires
        0 <= n,
    ensures
        all_digits(dec_digits(n)),
        digits_val(dec_digits(n)) == n,
        dec_digits(n).len() >= 1,
    decreases n,
{
    if n < 10 {
        reveal_with_fuel(digits_val, 2);
        let s = dec_digits(n);
        assert(s.drop_last() =~= Seq::<u8>::empty());
        assert(s.last() == (48 + n) as u8);
        assert(digits_val(s) == digits_val(Seq::<u8>::empty()) * 10 + ((48 + n) as u8 - 48));
    } else {
        lemma_dec_digits_props(n / 10);
        lemma_fundamental_div_mod(n, 10);
        let s = dec_digits(n);
        assert(s.drop_last() =~= dec_digits(n / 10));
        assert(s.last() == (48 + n % 10) as u8);
    }
}

proof fn lemma_dec_digits_len(n: int, w: nat)
    requires
        0 <= n < pow10(w),
        w >= 1,
    ensures
        dec_digits(n).len() <= w,
    decreases n,
{
    if n < 10 {
    } else {
        reveal_with_fuel(pow10, 2);
        if w == 1 {
            assert(pow10(1) == 10);
        }
        lemma_fundamental_div_mod(n, 10);
        if n / 10 >= pow10((w - 1) as nat) {
            assert(10 * (n / 10) >= 10 * pow10((w - 1) as nat)) by (nonlinear_arith)
                requires n / 10 >= pow10((w - 1) as nat);
        }
        lemma_dec_digits_len(n / 10, (w - 1) as nat);
    }
}

proof fn lemma_dec_padded_props(v: int, w: nat)
    requires
        0 <= v < pow10(w),
    ensures
        all_digits(dec_padded(v, w)),
        dec_padded(v, w).len() == w,
        digits_val(dec_padded(v, w)) == v,
    decreases w,
{
    if w == 0 {
    } else {
        lemma_fundamental_div_mod(v, 10);
        if v / 10 >= pow10((w - 1) as nat) {
            assert(10 * (v / 10) >= 10 * pow10((w - 1) as nat)) by (nonlinear_arith)
                requires v / 10 >= pow10((w - 1) as nat);
        }
        lemma_dec_padded_props(v / 10, (w - 1) as nat);
        let s = dec_padded(v, w);
        assert(s.drop_last() =~= dec_padded(v / 10, (w - 1) as nat));
        assert(s.last() == (48 + v % 10) as u8);
    }
}

/// The canonical decimal text of an amount: the integer part, then, for a
/// positive scale, a dot and exactly `scale` fractional digits.
pub open spec fn spec_render(a: Amount) -> Seq<u8> {
    if a.scale == 0 {
        dec_digits(a.units as int)
    } else {
        dec_digits((a.units as int) / pow10(a.scale as nat)) + seq![46u8] + dec_padded(
            (a.units as int) % pow10(a.scale as nat),
            a.scale as nat,
        )
    }
}

fn push_digits(n: u128, out: &mut Vec<u8>)
    ensures
        final(out)@ == old(out)@ + dec_digits(n as int),
    decreases n,
{
    if n < 10 {
        out.push(48u8 + (n as u8));
        assert(out@ =~= old(out)@ + dec_digits(n as int));
    } else {
        push_digits(n / 10, out);
        out.push(48u8 + ((n % 10) as u8));
        assert(out@ =~= old(out)@ + dec_digits(n as int));
    }
}

fn push_padded(v: u128, w: u32, out: &mut Vec<u8>)
    ensures
        final(out)@ == old(out)@ + dec_padded(v as int, w as nat),
    decreases w,
{
    if w > 0 {
        push_padded(v / 10, w - 1, out);
        out.push(48u8 + ((v % 10) as u8));
        assert(out@ =~= old(out)@ + dec_padded(v as int, w as nat));
    } else {
        assert(out@ =~= old(out)@ + dec_padded(v as int, w as nat));
    }
}

impl Amount {
    /// Renders the amount as decimal text, preserving its scale exactly.
    pub fn to_text(&self) -> (r: Vec<u8>)
        requires
            self.wf(),
        ensures
            r@ == spec_render(*self),
    {
        let mut out: Vec<u8> = Vec::new();
        if self.scale == 0 {
            push_digits(self.units, &mut out);
            assert(out@ =~= spec_render(*self));
        } else {
            let p = pow10_u128(self.scale);
            proof {
                lemma_pow10_pos(self.scale as nat);
            }
            push_digits(self.units / p, &mut out);
            out.push(46u8);
            push_padded(self.units % p, self.scale, &mut out);
            assert(out@ =~= spec_render(*self));
        }
        out
    }

    /// Derives the lock deficit: how far `required` exceeds `locked`,
    /// floored at zero, expressed at the finer of the two scales.
    ///
    /// On the common `10^-12` scale this is exactly
    /// `max(required - locked, 0)`, for every well-formed pair, including
    /// pairs where more is locked than required.
    pub fn deficit(required: &Amount, locked: &Amount) -> (d: Amount)
        requires
            required.wf(),
            locked.wf(),
        ensures
            d.wf(),
            d.scaled() == if required.scaled() >= locked.scaled() {
                required.scaled() - locked.scaled()
            } else {
                0
            },
            d.scale == if required.scale >= locked.scale {
                required.scale
            } else {
                locked.scale
            },
    {
        let s = if required.scale >= locked.scale {
            required.scale
        } else {
            locked.scale
        };
        proof {
            lemma_rescale(*required, s as nat);
            lemma_rescale(*locked, s as nat);
            lemma_pow10_pos((12 - s) as nat);
            lemma_pow10_33_value();
            lemma_pow10_mono(32, 33);
        }
        let ru = required.units * pow10_u128(s - required.scale);
        let lu = locked.units * pow10_u128(s - locked.scale);
        let du = if ru >= lu {
            ru - lu
        } else {
            0
        };
        let d = Amount { units: du, scale: s };
        proof {
            let c = pow10((12 - s) as nat);
            assert((ru - lu) * c == ru * c - lu * c) by (nonlinear_arith);
            assert(0 * c == 0) by (nonlinear_arith);
            if ru >= lu {
                assert(ru * c >= lu * c) by (nonlinear_arith)
                    requires ru >= lu && c >= 1;
                assert(du * c <= ru * c) by (nonlinear_arith)
                    requires du <= ru && c >= 1;
            } else {
                assert(ru * c < lu * c) by (nonlinear_arith)
                    requires ru < lu && c >= 1;
            }
        }
        d
    }
}

/// Re-expressing a well-formed amount at a coarser-or-equal target scale
/// multiplies its units without changing its `10^-12`-scaled value, and the
/// product stays below `10^32`.
proof fn lemma_rescale(a: Amount, s: nat)
    requires
        a.wf(),
        a.scale <= s <= 12,
    ensures
        a.units * pow10((s - a.scale) as nat) >= 0,
        a.units * pow10((s - a.scale) as nat) < pow10(32),
        (a.units * pow10((s - a.scale) as nat)) * pow10((12 - s) as nat) == a.scaled(),
{
    let d1 = (s - a.scale) as nat;
    let d2 = (12 - s) as nat;
    lemma_pow10_pos(d1);
    lemma_pow10_pos(d2);
    lemma_pow10_add(d1, d2);
    assert((a.units * pow10(d1)) * pow10(d2) == a.units * (pow10(d1) * pow10(d2)))
        by (nonlinear_arith);
    assert(a.units * pow10(d1) >= 0) by (nonlinear_arith)
        requires pow10(d1) >= 1 && a.units >= 0;
    assert(a.units * pow10(d1) <= (a.units * pow10(d1)) * pow10(d2)) by (nonlinear_arith)
        requires a.units * pow10(d1) >= 0 && pow10(d2) >= 1;
    lemma_pow10_pos(32);
}

/// Round trip: parsing the rendered text of any well-formed amount gives
/// back exactly the same amount, so repeated render/parse cycles can never
/// drift.
pub proof fn lemma_parse_render_round_trip(a: Amount)
    requires
        a.wf(),
    ensures
        spec_parse(spec_render(a)) == Some(a),
{
    let u = a.units as int;
    if a.scale == 0 {
        lemma_pow10_add(20, 12);
        lemma_pow10_pos(12);
        if u >= pow10(20) {
            assert(u * pow10(12) >= pow10(20) * pow10(12)) by (nonlinear_arith)
                requires u >= pow10(20) && pow10(12) >= 1;
        }
        lemma_dec_digits_props(u);
        lemma_dec_digits_len(u, 20);
        let s = spec_render(a);
        assert(plain_number(s));
    } else {
        let sc = a.scale as nat;
        let p = pow10(sc);
        lemma_pow10_pos(sc);
        lemma_pow10_add((20 + sc) as nat, (12 - sc) as nat);
        lemma_pow10_pos((12 - sc) as nat);
        if u >= pow10((20 + sc) as nat) {
            assert(u * pow10((12 - sc) as nat) >= pow10((20 + sc) as nat) * pow10(
                (12 - sc) as nat,
            )) by (nonlinear_arith)
                requires u >= pow10((20 + sc) as nat) && pow10((12 - sc) as nat) >= 1;
        }
        let ip = u / p;
        let fp = u % p;
        lemma_fundamental_div_mod(u, p);
        lemma_pow10_add(20, sc);
        if ip >= pow10(20) {
            assert(p * ip >= p * pow10(20)) by (nonlinear_arith)
                requires ip >= pow10(20) && p >= 1;
        }
        assert(0 <= fp < p);
        lemma_dec_digits_props(ip);
        lemma_dec_digits_len(ip, 20);
        lemma_dec_padded_props(fp, sc);
        let ad = dec_digits(ip);
        let bd = dec_padded(fp, sc);
        let s = ad + seq![46u8] + bd;
        assert(spec_render(a) == s);
        let k0 = ad.len() as int;
        assert(s[k0] == 46);
        assert(!is_digit(46));
        assert(!plain_number(s));
        assert(s.subrange(0, k0) =~= ad);
        assert(s.subrange(k0 + 1, s.len() as int) =~= bd);
        assert(split_at_dot(s, k0));
        assert(forall|j: int| 0 <= j < k0 ==> s[j] == ad[j] && is_digit(ad[j]));
        lemma_only_first_dot(s, k0);
        let kc = choose|k: int| split_at_dot(s, k);
        assert(kc == k0);
        assert(digits_val(s.subrange(0, k0)) == ip);
        assert(digits_val(s.subrange(k0 + 1, s.len() as int)) == fp);
        assert(s.len() - k0 - 1 == sc);
        assert(p * ip == ip * p) by (nonlinear_arith);
        assert(ip * p + fp == u);
        assert(spec_parse(s) == Some(a));
    }
}

} // verus!
