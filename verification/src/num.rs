//! Exact decimal numbers.
//!
//! A `Num` holds a decimal value `m / 10^s` as a signed mantissa `m` and a
//! scale `s` (the count of digits after the decimal point). Values are kept
//! normalized: the mantissa of a fractional value never ends in a zero digit,
//! and zero always has scale zero, so every value has exactly one
//! representation and structural equality coincides with value equality.

use vstd::prelude::*;

verus! {

/// Largest scale a `Num` may carry.
pub const MAX_SCALE: u32 = 18;

/// `10^e` as a mathematical integer.
pub open spec fn pow10(e: nat) -> int
    decreases e,
{
    if e == 0 {
        1
    } else {
        10 * pow10((e - 1) as nat)
    }
}

pub proof fn lemma_pow10_pos(e: nat)
    ensures
        pow10(e) >= 1,
    decreases e,
{
    if e > 0 {
        lemma_pow10_pos((e - 1) as nat);
    }
}

pub proof fn lemma_pow10_monotone(a: nat, b: nat)
    requires
        a <= b,
    ensures
        pow10(a) <= pow10(b),
    decreases b,
{
    if a < b {
        lemma_pow10_monotone(a, (b - 1) as nat);
        lemma_pow10_pos((b - 1) as nat);
    }
}

pub proof fn lemma_pow10_add(a: nat, b: nat)
    ensures
        pow10(a + b) == pow10(a) * pow10(b),
    decreases a,
{
    if a == 0 {
    } else {
        lemma_pow10_add((a - 1) as nat, b);
        assert(pow10((a - 1) as nat + b) == pow10((a - 1) as nat) * pow10(b));
        assert(pow10(a + b) == 10 * pow10((a + b - 1) as nat));
        assert(10 * (pow10((a - 1) as nat) * pow10(b)) == (10 * pow10((a - 1) as nat)) * pow10(b))
            by (nonlinear_arith);
    }
}

pub proof fn lemma_pow10_18()
    ensures
        pow10(18) == 1_000_000_000_000_000_000,
{
    reveal_with_fuel(pow10, 20);
}

/// Strip factors of ten out of the mantissa while the scale allows it.
pub open spec fn norm10(m: int, s: nat) -> (int, nat)
    decreases s,
{
    if s > 0 && m % 10 == 0 {
        norm10(m / 10, (s - 1) as nat)
    } else {
        (m, s)
    }
}

/// An exact decimal number `m / 10^s`, kept in normalized form.
#[derive(Clone, Copy, Debug, PartialEq, Eq, Structural)]
pub struct Num {
    m: i64,
    s: u32,
}

impl Num {
    /// The signed mantissa.
    pub closed spec fn mantissa(self) -> int {
        self.m as int
    }

    /// How many decimal digits stand after the point.
    pub closed spec fn scale(self) -> nat {
        self.s as nat
    }

    /// The normalization invariant: every `Num` a caller can hold obeys it.
    #[verifier::type_invariant]
    pub open spec fn normalized(self) -> bool {
        &&& self.scale() <= MAX_SCALE as nat
        &&& (self.scale() > 0 ==> self.mantissa() % 10 != 0)
        &&& (self.mantissa() == 0 ==> self.scale() == 0)
    }

    /// The whole number `v`.
    pub fn from_int(v: i64) -> (r: Num)
        ensures
            r.mantissa() == v as int,
            r.scale() == 0,
    {
        Num { m: v, s: 0 }
    }

    /// Zero.
    pub fn zero() -> (r: Num)
        ensures
            r.mantissa() == 0,
            r.scale() == 0,
    {
        Num { m: 0, s: 0 }
    }
}

/// What `Num::new` returns: the normalized form of `m / 10^s`, unless the
/// scale stays above the cap.
pub open spec fn spec_new(m: int, s: nat) -> Option<Num> {
    let (nm, ns) = norm10(m, s);
    if ns <= MAX_SCALE as nat && i64::MIN as int <= nm <= i64::MAX as int {
        Some(spec_num(nm, ns))
    } else {
        Option::None
    }
}

/// The `Num` with the given model; meaningful only for normalized pairs.
pub closed spec fn spec_num(m: int, s: nat) -> Num {
    Num { m: m as i64, s: s as u32 }
}

pub broadcast proof fn lemma_spec_num_model(m: int, s: nat)
    requires
        i64::MIN as int <= m <= i64::MAX as int,
        s <= MAX_SCALE as nat,
    ensures
        (#[trigger] spec_num(m, s)).mantissa() == m,
        spec_num(m, s).scale() == s,
{
}

proof fn lemma_norm10_props(m: int, s: nat)
    ensures
        ({
            let (nm, ns) = norm10(m, s);
            &&& ns <= s
            &&& (ns > 0 ==> nm % 10 != 0)
            &&& (m == 0 ==> nm == 0 && ns == 0)
            &&& nm * pow10((s - ns) as nat) == m
        }),
    decreases s,
{
    if s > 0 && m % 10 == 0 {
        lemma_norm10_props(m / 10, (s - 1) as nat);
        let (nm, ns) = norm10(m / 10, (s - 1) as nat);
        assert(m / 10 * 10 == m);
        lemma_pow10_add((((s - 1) as nat) - ns) as nat, 1);
        assert(nm * pow10((s - ns) as nat) == nm * (pow10(((s - 1) as nat - ns) as nat) * 10));
        assert(nm * (pow10(((s - 1) as nat - ns) as nat) * 10) == (nm * pow10(
            ((s - 1) as nat - ns) as nat,
        )) * 10) by (nonlinear_arith);
    } else {
        assert(m * pow10(0) == m);
    }
}

/// Two numbers with one model are one number.
pub proof fn lemma_num_eq(a: Num, b: Num)
    requires
        a.mantissa() == b.mantissa(),
        a.scale() == b.scale(),
    ensures
        a == b,
{
}

impl Num {
    /// Build the value `m / 10^s`, normalizing it first. The result is
    /// `spec_new(m, s)`: the normalized pair, unless its scale stays above
    /// `MAX_SCALE`, which gives `None`.
    pub fn new(m: i64, s: u32) -> (r: Option<Num>)
        ensures
            r == spec_new(m as int, s as nat),
    {
        let neg: bool = m < 0;
        let mut mag: u64 = if m < 0 {
            ((-(m as i128)) as u64)
        } else {
            (m as u64)
        };
        let mut sc: u32 = s;
        proof {
            assert(norm10(m as int, s as nat) == norm10(
                if neg {
                    -(mag as int)
                } else {
                    mag as int
                },
                sc as nat,
            ));
        }
        while sc > 0 && mag % 10 == 0
            invariant
                norm10(m as int, s as nat) == norm10(
                    if neg {
                        -(mag as int)
                    } else {
                        mag as int
                    },
                    sc as nat,
                ),
                mag <= i64::MAX as u64 + 1,
                neg ==> mag <= i64::MAX as u64 + 1,
                !neg ==> mag <= i64::MAX as u64,
            decreases sc,
        {
            proof {
                let cur: int = if neg {
                    -(mag as int)
                } else {
                    mag as int
                };
                assert(cur % 10 == 0 && cur / 10 == (
                    if neg {
                        -((mag / 10) as int)
                    } else {
                        (mag / 10) as int
                    }
                )) by (nonlinear_arith)
                    requires
                        mag % 10 == 0,
                        cur == if neg {
                            -(mag as int)
                        } else {
                            mag as int
                        },
                        mag >= 0,
                ;
            }
            mag = mag / 10;
            sc = sc - 1;
        }
        let nm: i64 = if neg {
            ((-(mag as i128)) as i64)
        } else {
            if mag > i64::MAX as u64 {
                return Option::None;
            }
            (mag as i64)
        };
        if sc > MAX_SCALE {
            return Option::None;
        }
        proof {
            let (gm, gs) = norm10(m as int, s as nat);
            lemma_norm10_props(if neg {
                -(mag as int)
            } else {
                mag as int
            }, sc as nat);
            assert(gm == nm as int && gs == sc as nat);
        }
        Some(Num { m: nm, s: sc })
    }
}

/// The strict order on values, by cross multiplication.
pub open spec fn num_lt(a: Num, b: Num) -> bool {
    a.mantissa() * pow10(b.scale()) < b.mantissa() * pow10(a.scale())
}

/// The weak order on values.
pub open spec fn num_le(a: Num, b: Num) -> bool {
    a.mantissa() * pow10(b.scale()) <= b.mantissa() * pow10(a.scale())
}

fn pow10_u64(e: u32) -> (r: u64)
    requires
        e <= MAX_SCALE,
    ensures
        r as int == pow10(e as nat),
        r >= 1,
{
    let mut r: u64 = 1;
    let mut i: u32 = 0;
    while i < e
        invariant
            i <= e,
            e <= MAX_SCALE,
            r as int == pow10(i as nat),
        decreases e - i,
    {
        proof {
            lemma_pow10_monotone((i + 1) as nat, 18);
            lemma_pow10_18();
            lemma_pow10_pos(i as nat);
        }
        r = r * 10;
        i = i + 1;
    }
    proof {
        lemma_pow10_pos(e as nat);
    }
    r
}

impl Num {
    /// Whether `self` is strictly below `other` as a value.
    pub fn lt(&self, other: &Num) -> (r: bool)
        ensures
            r == num_lt(*self, *other),
    {
        proof {
            use_type_invariant(self);
            use_type_invariant(other);
            lemma_pow10_18();
            lemma_pow10_monotone(self.s as nat, 18);
            lemma_pow10_monotone(other.s as nat, 18);
            lemma_pow10_pos(self.s as nat);
            lemma_pow10_pos(other.s as nat);
        }
        let pa = pow10_u64(other.s);
        let pb = pow10_u64(self.s);
        proof {
            assert(-0x40000000000000000000000000000000i128 < (self.m as i128) * (pa as i128)
                < 0x40000000000000000000000000000000i128) by (nonlinear_arith)
                requires
                    -0x8000000000000000 <= self.m as int <= 0x7fffffffffffffff,
                    1 <= pa as int <= 1_000_000_000_000_000_000,
            ;
            assert(-0x40000000000000000000000000000000i128 < (other.m as i128) * (pb as i128)
                < 0x40000000000000000000000000000000i128) by (nonlinear_arith)
                requires
                    -0x8000000000000000 <= other.m as int <= 0x7fffffffffffffff,
                    1 <= pb as int <= 1_000_000_000_000_000_000,
            ;
        }
        let lhs: i128 = (self.m as i128) * (pa as i128);
        let rhs: i128 = (other.m as i128) * (pb as i128);
        lhs < rhs
    }

    /// Whether `self` is at or below `other` as a value.
    pub fn le(&self, other: &Num) -> (r: bool)
        ensures
            r == num_le(*self, *other),
    {
        !other.lt(self)
    }

    /// Whether the value is a whole number. Normalization makes this a test
    /// of the scale.
    pub fn is_integer(&self) -> (r: bool)
        ensures
            r == (self.scale() == 0),
    {
        self.s == 0
    }

    /// Whether the value is strictly negative.
    pub fn is_negative(&self) -> (r: bool)
        ensures
            r == (self.mantissa() < 0),
    {
        self.m < 0
    }

    /// The value as a machine integer; only whole numbers have one.
    pub fn int_value(&self) -> (r: i64)
        requires
            self.scale() == 0,
        ensures
            r as int == self.mantissa(),
    {
        self.m
    }
}

/// What adding two numbers yields: the operands are brought to the larger
/// scale, the mantissas added, and the result normalized; a mantissa beyond
/// the machine range gives `None`.
pub open spec fn spec_add(a: Num, b: Num) -> Option<Num> {
    let s = if a.scale() >= b.scale() {
        a.scale()
    } else {
        b.scale()
    };
    let sum = a.mantissa() * pow10((s - a.scale()) as nat) + b.mantissa() * pow10(
        (s - b.scale()) as nat,
    );
    let (nm, ns) = norm10(sum, s);
    if i64::MIN as int <= nm <= i64::MAX as int {
        Some(spec_num(nm, ns))
    } else {
        Option::None
    }
}

impl Num {
    /// The exact sum, or `None` when its mantissa leaves the machine range.
    pub fn add(&self, other: &Num) -> (r: Option<Num>)
        ensures
            r == spec_add(*self, *other),
    {
        proof {
            use_type_invariant(self);
            use_type_invariant(other);
            lemma_pow10_18();
            lemma_pow10_pos(self.s as nat);
            lemma_pow10_pos(other.s as nat);
        }
        let s: u32 = if self.s >= other.s {
            self.s
        } else {
            other.s
        };
        let pa = pow10_u64((s - self.s) as u32);
        let pb = pow10_u64((s - other.s) as u32);
        proof {
            lemma_pow10_monotone((s - self.s) as nat, 18);
            lemma_pow10_monotone((s - other.s) as nat, 18);
            assert(-0x40000000000000000000000000000000i128 < (self.m as i128) * (pa as i128)
                < 0x40000000000000000000000000000000i128) by (nonlinear_arith)
                requires
                    -0x8000000000000000 <= self.m as int <= 0x7fffffffffffffff,
                    1 <= pa as int <= 1_000_000_000_000_000_000,
            ;
            assert(-0x40000000000000000000000000000000i128 < (other.m as i128) * (pb as i128)
                < 0x40000000000000000000000000000000i128) by (nonlinear_arith)
                requires
                    -0x8000000000000000 <= other.m as int <= 0x7fffffffffffffff,
                    1 <= pb as int <= 1_000_000_000_000_000_000,
            ;
        }
        let am: i128 = (self.m as i128) * (pa as i128);
        let bm: i128 = (other.m as i128) * (pb as i128);
        let sum: i128 = am + bm;
        let ghost sum0: int = sum as int;
        let ghost s0: nat = s as nat;
        let neg: bool = sum < 0;
        let mut mag: u128 = if sum < 0 {
            ((-sum) as u128)
        } else {
            (sum as u128)
        };
        let mut sc: u32 = s;
        while sc > 0 && mag % 10 == 0
            invariant
                norm10(sum0, s0) == norm10(
                    if neg {
                        -(mag as int)
                    } else {
                        mag as int
                    },
                    sc as nat,
                ),
                mag < 0x80000000000000000000000000000000u128,
            decreases sc,
        {
            proof {
                let cur: int = if neg {
                    -(mag as int)
                } else {
                    mag as int
                };
                assert(cur % 10 == 0 && cur / 10 == (
                    if neg {
                        -((mag / 10) as int)
                    } else {
                        (mag / 10) as int
                    }
                )) by (nonlinear_arith)
                    requires
                        mag % 10 == 0,
                        cur == if neg {
                            -(mag as int)
                        } else {
                            mag as int
                        },
                        mag >= 0,
                ;
            }
            mag = mag / 10;
            sc = sc - 1;
        }
        if neg {
            if mag > 0x8000000000000000u128 {
                return Option::None;
            }
            proof {
                lemma_norm10_props(sum0, s0);
            }
            Some(Num { m: ((-(mag as i128)) as i64), s: sc })
        } else {
            if mag > i64::MAX as u128 {
                return Option::None;
            }
            proof {
                lemma_norm10_props(sum0, s0);
            }
            Some(Num { m: (mag as i64), s: sc })
        }
    }
}

// ---------------------------------------------------------------------------
// Decimal text: rendering and parsing.
// ---------------------------------------------------------------------------
/// The digit character for `d` (meaningful for `d < 10`).
pub open spec fn digit_char(d: nat) -> char {
    if d == 0 { '0' }
    else if d == 1 { '1' }
    else if d == 2 { '2' }
    else if d == 3 { '3' }
    else if d == 4 { '4' }
    else if d == 5 { '5' }
    else if d == 6 { '6' }
    else if d == 7 { '7' }
    else if d == 8 { '8' }
    else { '9' }
}

/// The value of a digit character, or `-1` for any other character.
pub open spec fn digit_val(c: char) -> int {
    if c == '0' { 0 }
    else if c == '1' { 1 }
    else if c == '2' { 2 }
    else if c == '3' { 3 }
    else if c == '4' { 4 }
    else if c == '5' { 5 }
    else if c == '6' { 6 }
    else if c == '7' { 7 }
    else if c == '8' { 8 }
    else if c == '9' { 9 }
    else { -1 }
}

/// Whether `c` is a decimal digit.
pub open spec fn is_digit(c: char) -> bool {
    digit_val(c) >= 0
}

/// The digit value of `c`, when it has one.
pub fn char_digit(c: char) -> (r: Option<u64>)
    ensures
        r is Some <==> is_digit(c),
        r is Some ==> r->Some_0 as int == digit_val(c),
{
    match c {
        '0' => Some(0),
        '1' => Some(1),
        '2' => Some(2),
        '3' => Some(3),
        '4' => Some(4),
        '5' => Some(5),
        '6' => Some(6),
        '7' => Some(7),
        '8' => Some(8),
        '9' => Some(9),
        _ => Option::None,
    }
}

/// The decimal digits of `v`, most significant first, without leading zeros
/// (except for `v == 0`, which is the single digit `0`).
pub open spec fn dec_digits(v: nat) -> Seq<char>
    decreases v,
{
    if v < 10 {
        seq![digit_char(v)]
    } else {
        dec_digits(v / 10).push(digit_char(v % 10))
    }
}

/// Whether every character of `t` is a decimal digit.
pub open spec fn all_digits(t: Seq<char>) -> bool {
    forall|i: int| 0 <= i < t.len() ==> is_digit(#[trigger] t[i])
}

/// The number a digit string stands for.
pub open spec fn digits_val(t: Seq<char>) -> int
    decreases t.len(),
{
    if t.len() == 0 {
        0
    } else {
        digits_val(t.drop_last()) * 10 + digit_val(t.last())
    }
}

/// `t` left-padded with zero digits to width `w`.
pub open spec fn pad_zeros(t: Seq<char>, w: nat) -> Seq<char> {
    if t.len() >= w {
        t
    } else {
        Seq::new((w - t.len()) as nat, |i: int| '0') + t
    }
}

/// The canonical text of a number: the mantissa's digits with a sign in
/// front when negative, and, for a fractional value, a point before the last
/// `scale` digits (zero-padded when the mantissa is short).
pub open spec fn render_spec(n: Num) -> Seq<char> {
    let a: nat = (if n.mantissa() < 0 {
        -n.mantissa()
    } else {
        n.mantissa()
    }) as nat;
    let sign: Seq<char> = if n.mantissa() < 0 {
        seq!['-']
    } else {
        Seq::empty()
    };
    if n.scale() == 0 {
        sign + dec_digits(a)
    } else {
        sign + dec_digits((a as int / pow10(n.scale())) as nat) + seq!['.'] + pad_zeros(
            dec_digits((a as int % pow10(n.scale())) as nat),
            n.scale(),
        )
    }
}

/// The first position of a point character at or after `i`, or `-1`.
pub open spec fn find_dot(t: Seq<char>, i: int) -> int
    decreases t.len() - i,
{
    if i < 0 || i >= t.len() {
        -1
    } else if t[i] == '.' {
        i
    } else {
        find_dot(t, i + 1)
    }
}

/// What numeric token text means: digits, with at most one point that must
/// have digits on both sides, no more than `MAX_SCALE` of them behind the
/// point, and a mantissa within the machine range; anything else is no
/// number.
pub open spec fn parse_num_spec(t: Seq<char>) -> Option<Num> {
    let d = find_dot(t, 0);
    if d == -1 {
        if t.len() > 0 && all_digits(t) && digits_val(t) <= i64::MAX as int {
            spec_new(digits_val(t), 0)
        } else {
            Option::None
        }
    } else {
        let ip = t.subrange(0, d);
        let fp = t.subrange(d + 1, t.len() as int);
        if ip.len() > 0 && fp.len() > 0 && all_digits(ip) && all_digits(fp) && fp.len()
            <= MAX_SCALE as nat && digits_val(ip) * pow10(fp.len()) + digits_val(fp)
            <= i64::MAX as int {
            spec_new(digits_val(ip) * pow10(fp.len()) + digits_val(fp), fp.len())
        } else {
            Option::None
        }
    }
}

pub proof fn lemma_digits_val_nonneg(t: Seq<char>)
    requires
        all_digits(t),
    ensures
        digits_val(t) >= 0,
    decreases t.len(),
{
    if t.len() > 0 {
        assert(all_digits(t.drop_last())) by {
            assert(forall|i: int|
                0 <= i < t.len() - 1 ==> t.drop_last()[i] == #[trigger] t[i]);
        }
        lemma_digits_val_nonneg(t.drop_last());
    }
}

pub proof fn lemma_digits_val_concat(a: Seq<char>, b: Seq<char>)
    ensures
        digits_val(a + b) == digits_val(a) * pow10(b.len()) + digits_val(b),
    decreases b.len(),
{
    if b.len() == 0 {
        assert(a + b =~= a);
    } else {
        lemma_digits_val_concat(a, b.drop_last());
        assert((a + b).drop_last() =~= a + b.drop_last());
        assert((a + b).last() == b.last());
        lemma_pow10_pos((b.len() - 1) as nat);
        assert((digits_val(a) * pow10((b.len() - 1) as nat) + digits_val(b.drop_last())) * 10
            == digits_val(a) * (pow10((b.len() - 1) as nat) * 10) + digits_val(b.drop_last()) * 10)
            by (nonlinear_arith);
        assert(pow10((b.len() - 1) as nat) * 10 == pow10(b.len())) by {
            lemma_pow10_add((b.len() - 1) as nat, 1);
            assert(pow10(1) == 10) by { reveal_with_fuel(pow10, 2); }
        }
    }
}

pub proof fn lemma_digits_val_prefix_le(t: Seq<char>, i: int)
    requires
        all_digits(t),
        0 <= i <= t.len(),
    ensures
        digits_val(t.take(i)) <= digits_val(t),
    decreases t.len() - i,
{
    if i == t.len() {
        assert(t.take(i) =~= t);
    } else {
        lemma_digits_val_prefix_le(t, i + 1);
        assert(t.take(i + 1).drop_last() =~= t.take(i));
        assert(t.take(i + 1).last() == t[i]);
        assert(all_digits(t.take(i))) by {
            assert(forall|j: int| 0 <= j < i ==> t.take(i)[j] == #[trigger] t[j]);
        }
        lemma_digits_val_nonneg(t.take(i));
        assert(digits_val(t.take(i)) * 10 >= digits_val(t.take(i)));
    }
}

pub proof fn lemma_dec_digits_props(v: nat)
    ensures
        dec_digits(v).len() >= 1,
        all_digits(dec_digits(v)),
        digits_val(dec_digits(v)) == v,
        forall|i: int|
            0 <= i < dec_digits(v).len() ==> #[trigger] dec_digits(v)[i] != '.',
    decreases v,
{
    if v < 10 {
        let s = dec_digits(v);
        assert(s =~= seq![digit_char(v)]);
        assert(s.drop_last() =~= Seq::<char>::empty());
        assert(digits_val(Seq::<char>::empty()) == 0);
        assert(digits_val(s) == digit_val(s.last()));
    } else {
        lemma_dec_digits_props(v / 10);
        assert(dec_digits(v).drop_last() =~= dec_digits(v / 10));
        assert(dec_digits(v).last() == digit_char(v % 10));
        assert((v / 10) * 10 + v % 10 == v);
    }
}

pub proof fn lemma_dec_digits_len(v: nat, k: nat)
    requires
        k >= 1,
        v < pow10(k),
    ensures
        dec_digits(v).len() <= k,
    decreases v,
{
    if v < 10 {
    } else {
        assert(k >= 2) by {
            if k == 1 {
                reveal_with_fuel(pow10, 2);
            }
        }
        assert(v / 10 < pow10((k - 1) as nat)) by {
            assert(pow10(k) == 10 * pow10((k - 1) as nat));
        }
        lemma_dec_digits_len(v / 10, (k - 1) as nat);
    }
}

pub proof fn lemma_pad_zeros_val(t: Seq<char>, w: nat)
    ensures
        digits_val(pad_zeros(t, w)) == digits_val(t),
        all_digits(t) ==> all_digits(pad_zeros(t, w)),
        t.len() >= 1 ==> pad_zeros(t, w).len() == if t.len() >= w {
            t.len()
        } else {
            w
        },
{
    if t.len() >= w {
    } else {
        let z = Seq::new((w - t.len()) as nat, |i: int| '0');
        assert(digits_val(z) == 0) by {
            lemma_zeros_val((w - t.len()) as nat);
        }
        lemma_digits_val_concat(z, t);
        assert(is_digit('0'));
    }
}

proof fn lemma_zeros_val(k: nat)
    ensures
        digits_val(Seq::new(k, |i: int| '0')) == 0,
    decreases k,
{
    let z = Seq::new(k, |i: int| '0');
    if k > 0 {
        lemma_zeros_val((k - 1) as nat);
        assert(z.drop_last() =~= Seq::new((k - 1) as nat, |i: int| '0'));
        assert(z.last() == '0');
        assert(digit_val('0') == 0);
    }
}

pub proof fn lemma_find_dot_first(t: Seq<char>, i: int)
    requires
        0 <= i <= t.len(),
    ensures
        find_dot(t, i) == -1 ==> forall|j: int| i <= j < t.len() ==> t[j] != '.',
        find_dot(t, i) != -1 ==> i <= find_dot(t, i) < t.len() && t[find_dot(t, i)] == '.'
            && forall|j: int| i <= j < find_dot(t, i) ==> t[j] != '.',
    decreases t.len() - i,
{
    if i < t.len() && t[i] != '.' {
        lemma_find_dot_first(t, i + 1);
    }
}

pub proof fn lemma_find_dot_at(t: Seq<char>, i: int, d: int)
    requires
        0 <= i <= d <= t.len(),
        forall|j: int| i <= j < d ==> t[j] != '.',
        d < t.len() ==> t[d] == '.',
    ensures
        d < t.len() ==> find_dot(t, i) == d,
        d == t.len() ==> find_dot(t, i) == -1,
    decreases d - i,
{
    if i < d {
        lemma_find_dot_at(t, i + 1, d);
    }
}

// ---------------------------------------------------------------------------
// Executable rendering and parsing.
// ---------------------------------------------------------------------------
fn digit_to_char(d: u64) -> (c: char)
    requires
        d < 10,
    ensures
        c == digit_char(d as nat),
{
    match d {
        0 => '0',
        1 => '1',
        2 => '2',
        3 => '3',
        4 => '4',
        5 => '5',
        6 => '6',
        7 => '7',
        8 => '8',
        _ => '9',
    }
}

/// Append the decimal digits of `v` to `out`.
fn push_digits(v: u64, out: &mut Vec<char>)
    ensures
        final(out)@ == old(out)@ + dec_digits(v as nat),
    decreases v,
{
    if v < 10 {
        out.push(digit_to_char(v));
        assert(out@ =~= old(out)@ + dec_digits(v as nat));
    } else {
        push_digits(v / 10, out);
        out.push(digit_to_char(v % 10));
        assert(out@ =~= old(out)@ + dec_digits(v as nat));
    }
}

impl Num {
    /// The canonical text of this value.
    pub fn to_chars(&self) -> (r: Vec<char>)
        ensures
            r@ == render_spec(*self),
    {
        proof {
            use_type_invariant(self);
        }
        let neg = self.m < 0;
        let mag: u64 = if self.m < 0 {
            ((-(self.m as i128)) as u64)
        } else {
            (self.m as u64)
        };
        let mut out: Vec<char> = Vec::new();
        if neg {
            out.push('-');
        }
        proof {
            assert(out@ =~= (if self.mantissa() < 0 {
                seq!['-']
            } else {
                Seq::<char>::empty()
            }));
        }
        if self.s == 0 {
            let ghost base = out@;
            push_digits(mag, &mut out);
            proof {
                assert(out@ =~= render_spec(*self));
            }
            out
        } else {
            let p = pow10_u64(self.s);
            let ip = mag / p;
            let fp = mag % p;
            let ghost base = out@;
            push_digits(ip, &mut out);
            out.push('.');
            let mut fd: Vec<char> = Vec::new();
            push_digits(fp, &mut fd);
            proof {
                lemma_dec_digits_len(fp as nat, self.s as nat);
            }
            let pad = self.s as usize - fd.len();
            let mut z: usize = 0;
            while z < pad
                invariant
                    z <= pad,
                    out@ == base + dec_digits(ip as nat) + seq!['.'] + Seq::new(
                        z as nat,
                        |i: int| '0',
                    ),
                decreases pad - z,
            {
                out.push('0');
                proof {
                    assert(out@ =~= base + dec_digits(ip as nat) + seq!['.'] + Seq::new(
                        (z + 1) as nat,
                        |i: int| '0',
                    ));
                }
                z = z + 1;
            }
            out.append(&mut fd);
            proof {
                lemma_dec_digits_props(fp as nat);
                assert(out@ =~= render_spec(*self));
            }
            out
        }
    }
}

/// Parse the characters of `v` between `from` and `to` as a numeric literal.
pub fn parse_chars(v: &Vec<char>, from: usize, to: usize) -> (r: Option<Num>)
    requires
        from <= to <= v@.len(),
    ensures
        r == parse_num_spec(v@.subrange(from as int, to as int)),
{
    let ghost t = v@.subrange(from as int, to as int);
    let n = to - from;
    // Find the first point character.
    let mut d: usize = 0;
    while d < n && v[from + d] != '.'
        invariant
            0 <= d <= n,
            from <= to <= v@.len(),
            n == to - from,
            n == t.len(),
            t =~= v@.subrange(from as int, to as int),
            forall|j: int| 0 <= j < d ==> t[j] != '.',
        decreases n - d,
    {
        assert(t[d as int] == v@[from + d]);
        d = d + 1;
    }
    proof {
        if d < n {
            assert(t[d as int] == v@[from + d]);
        }
        lemma_find_dot_at(t, 0, d as int);
    }
    if n == 0 {
        return Option::None;
    }
    if d == 0 {
        // The text starts with the point: no integer digits.
        return Option::None;
    }
    let ghost ip = t.subrange(0, d as int);
    let ghost fp = t.subrange(d as int + 1, t.len() as int);
    // Accumulate the integer digits.
    let mut acc: u64 = 0;
    let mut k: usize = 0;
    while k < d
        invariant
            0 <= k <= d <= n,
            from <= to <= v@.len(),
            n == to - from,
            n == t.len(),
            t =~= v@.subrange(from as int, to as int),
            ip =~= t.subrange(0, d as int),
            fp =~= t.subrange(d as int + 1, t.len() as int),
            d < n ==> find_dot(t, 0) == d,
            d == n ==> find_dot(t, 0) == -1,
            forall|j: int| 0 <= j < k ==> is_digit(#[trigger] t[j]),
            acc as int == digits_val(t.take(k as int)),
            acc <= i64::MAX as u64,
        decreases d - k,
    {
        let c = v[from + k];
        assert(t[k as int] == v@[from + k]);
        let dg = char_digit(c);
        if dg.is_none() {
            // A stray character: with or without a point, some digit field
            // holds a non-digit.
            proof {
                if d == n {
                    assert(!all_digits(t));
                } else {
                    assert(ip[k as int] == t[k as int]);
                    assert(!all_digits(ip));
                }
            }
            return Option::None;
        }
        let dv: u64 = dg.unwrap();
        let next: u128 = (acc as u128) * 10 + (dv as u128);
        proof {
            assert(is_digit(t[k as int]));
            assert(t.take(k as int + 1).drop_last() =~= t.take(k as int));
            assert(t.take(k as int + 1).last() == t[k as int]);
        }
        if next > i64::MAX as u128 {
            // The mantissa leaves the machine range; every reading of this
            // text does.
            proof {
                lemma_overflow_reject(t, ip, fp, d as int, k as int + 1);
            }
            return Option::None;
        }
        acc = next as u64;
        k = k + 1;
    }
    proof {
        assert(t.take(d as int) =~= ip);
    }
    if d == n {
        // No point: a plain integer literal.
        proof {
            assert(t.take(d as int) =~= t);
        }
        return Num::new(acc as i64, 0);
    }
    // Fractional digits.
    let fc = n - d - 1;
    if fc == 0 {
        proof {
            assert(fp.len() == 0);
        }
        return Option::None;
    }
    let mut j: usize = 0;
    while j < fc
        invariant
            0 <= j <= fc,
            fc == n - d - 1,
            0 < d < n,
            from <= to <= v@.len(),
            n == to - from,
            n == t.len(),
            t =~= v@.subrange(from as int, to as int),
            ip =~= t.subrange(0, d as int),
            fp =~= t.subrange(d as int + 1, t.len() as int),
            find_dot(t, 0) == d,
            all_digits(ip),
            forall|j2: int| 0 <= j2 < j ==> is_digit(#[trigger] fp[j2]),
            acc as int == digits_val(ip + fp.take(j as int)),
            acc <= i64::MAX as u64,
        decreases fc - j,
    {
        let c = v[from + d + 1 + j];
        assert(fp[j as int] == t[d + 1 + j as int]);
        assert(t[d + 1 + j as int] == v@[from + d + 1 + j]);
        let dg = char_digit(c);
        if dg.is_none() {
            proof {
                assert(!all_digits(fp));
            }
            return Option::None;
        }
        let dv: u64 = dg.unwrap();
        let next: u128 = (acc as u128) * 10 + (dv as u128);
        proof {
            assert(is_digit(fp[j as int]));
            assert((ip + fp.take(j as int + 1)).drop_last() =~= ip + fp.take(j as int));
            assert((ip + fp.take(j as int + 1)).last() == fp[j as int]);
        }
        if next > i64::MAX as u128 {
            proof {
                lemma_overflow_reject_frac(t, ip, fp, d as int, j as int + 1);
            }
            return Option::None;
        }
        acc = next as u64;
        j = j + 1;
    }
    if fc > MAX_SCALE as usize {
        return Option::None;
    }
    proof {
        assert(fp.take(fc as int) =~= fp);
        lemma_digits_val_concat(ip, fp);
    }
    Num::new(acc as i64, fc as u32)
}

/// Once a digit prefix of the whole text exceeds the mantissa range, every
/// reading of the text does.
proof fn lemma_overflow_reject(t: Seq<char>, ip: Seq<char>, fp: Seq<char>, d: int, k: int)
    requires
        0 <= d <= t.len(),
        d < t.len() ==> find_dot(t, 0) == d,
        d == t.len() ==> find_dot(t, 0) == -1,
        ip == t.subrange(0, d),
        fp == t.subrange(d + 1, t.len() as int),
        0 <= k <= d,
        digits_val(t.take(k)) > i64::MAX as int,
        forall|j: int| 0 <= j < k ==> is_digit(#[trigger] t[j]),
    ensures
        parse_num_spec(t) is None,
{
    if d == t.len() {
        if all_digits(t) {
            lemma_digits_val_prefix_le(t, k);
        }
    } else {
        if all_digits(ip) && all_digits(fp) {
            assert(ip.take(k) =~= t.take(k));
            lemma_digits_val_prefix_le(ip, k);
            lemma_digits_val_nonneg(ip);
            lemma_digits_val_nonneg(fp);
            lemma_pow10_pos(fp.len());
            assert(digits_val(ip) * pow10(fp.len()) >= digits_val(ip)) by (nonlinear_arith)
                requires
                    digits_val(ip) >= 0,
                    pow10(fp.len()) >= 1,
            ;
        }
    }
}

/// The same, for an overflow reached among the fractional digits.
proof fn lemma_overflow_reject_frac(t: Seq<char>, ip: Seq<char>, fp: Seq<char>, d: int, j: int)
    requires
        0 <= d < t.len(),
        find_dot(t, 0) == d,
        ip == t.subrange(0, d),
        fp == t.subrange(d + 1, t.len() as int),
        all_digits(ip),
        0 <= j <= fp.len(),
        digits_val(ip + fp.take(j)) > i64::MAX as int,
        forall|j2: int| 0 <= j2 < j ==> is_digit(#[trigger] fp[j2]),
    ensures
        parse_num_spec(t) is None,
{
    if all_digits(fp) {
        let whole = ip + fp;
        assert(all_digits(whole)) by {
            assert(forall|i: int| 0 <= i < ip.len() ==> whole[i] == #[trigger] ip[i]);
            assert(forall|i: int|
                0 <= i < fp.len() ==> whole[ip.len() + i] == #[trigger] fp[i]);
            assert(forall|i: int| 0 <= i < whole.len() ==> is_digit(#[trigger] whole[i])) by {
                assert(forall|i: int|
                    0 <= i < whole.len() && i < ip.len() ==> is_digit(#[trigger] whole[i]));
                assert(forall|i: int|
                    ip.len() <= i < whole.len() ==> whole[i] == fp[i - ip.len()]);
            }
        }
        assert(ip + fp.take(j) =~= whole.take(ip.len() + j));
        lemma_digits_val_prefix_le(whole, ip.len() + j);
        lemma_digits_val_concat(ip, fp);
    }
}

// ---------------------------------------------------------------------------
// The round trip: parsing canonical text gives the number back.
// ---------------------------------------------------------------------------
/// Any text that reads as a number reads back, after rendering, as the very
/// same number. Since equal `Num`s are equal values, re-serializing a numeric
/// literal loses nothing.
pub proof fn lemma_parse_render_roundtrip(t: Seq<char>)
    ensures
        parse_num_spec(t) is Some ==> parse_num_spec(
            render_spec(parse_num_spec(t)->Some_0),
        ) == parse_num_spec(t),
{
    if parse_num_spec(t) is Some {
        let n = parse_num_spec(t)->Some_0;
        lemma_parse_gives_normalized_nonneg(t);
        lemma_render_parse_id(n);
    }
}

/// A parsed number is normalized and never negative.
proof fn lemma_parse_gives_normalized_nonneg(t: Seq<char>)
    requires
        parse_num_spec(t) is Some,
    ensures
        parse_num_spec(t)->Some_0.normalized(),
        parse_num_spec(t)->Some_0.mantissa() >= 0,
{
    let d = find_dot(t, 0);
    if d == -1 {
        lemma_digits_val_nonneg(t);
        lemma_spec_new_props(digits_val(t), 0);
    } else {
        let ip = t.subrange(0, d);
        let fp = t.subrange(d + 1, t.len() as int);
        lemma_digits_val_nonneg(ip);
        lemma_digits_val_nonneg(fp);
        lemma_pow10_pos(fp.len());
        assert(digits_val(ip) * pow10(fp.len()) >= 0) by (nonlinear_arith)
            requires
                digits_val(ip) >= 0,
                pow10(fp.len()) >= 1,
        ;
        lemma_spec_new_props(digits_val(ip) * pow10(fp.len()) + digits_val(fp), fp.len());
    }
}

/// `spec_new` yields a normalized number that keeps the sign and never grows
/// the mantissa's magnitude.
proof fn lemma_spec_new_props(m: int, s: nat)
    requires
        0 <= m <= i64::MAX as int,
        s <= MAX_SCALE as nat,
    ensures
        spec_new(m, s) is Some,
        spec_new(m, s)->Some_0.normalized(),
        0 <= spec_new(m, s)->Some_0.mantissa() <= m,
        spec_new(m, s)->Some_0.scale() <= s,
        norm10(m, s) == (
            spec_new(m, s)->Some_0.mantissa(),
            spec_new(m, s)->Some_0.scale(),
        ),
{
    let (nm, ns) = norm10(m, s);
    lemma_norm10_props(m, s);
    lemma_pow10_pos((s - ns) as nat);
    assert(0 <= nm <= m) by (nonlinear_arith)
        requires
            nm * pow10((s - ns) as nat) == m,
            pow10((s - ns) as nat) >= 1,
            m >= 0,
    ;
    lemma_spec_num_model(nm, ns);
}

/// Rendering a normalized non-negative number and parsing the text gives the
/// number back.
pub proof fn lemma_render_parse_id(n: Num)
    requires
        n.normalized(),
        n.mantissa() >= 0,
    ensures
        parse_num_spec(render_spec(n)) == Some(n),
{
    let a: nat = n.mantissa() as nat;
    if n.scale() == 0 {
        let r = dec_digits(a);
        assert(render_spec(n) =~= r);
        lemma_dec_digits_props(a);
        lemma_find_dot_at(r, 0, r.len() as int);
        assert(digits_val(r) == a);
        assert(spec_new(a as int, 0) == Some(spec_num(a as int, 0)));
        lemma_spec_num_eq(n, a as int, 0);
    } else {
        let p = pow10(n.scale());
        lemma_pow10_pos(n.scale());
        let ipv: nat = (a as int / p) as nat;
        let fpv: nat = (a as int % p) as nat;
        vstd::arithmetic::div_mod::lemma_fundamental_div_mod(a as int, p);
        assert(a as int / p >= 0 && 0 <= a as int % p < p) by (nonlinear_arith)
            requires
                a >= 0,
                p >= 1,
        ;
        assert(ipv * p == p * (a as int / p));
        let ipd = dec_digits(ipv);
        let fpd0 = dec_digits(fpv);
        let fpd = pad_zeros(fpd0, n.scale());
        let r = ipd + seq!['.'] + fpd;
        assert(render_spec(n) =~= r);
        lemma_dec_digits_props(ipv);
        lemma_dec_digits_props(fpv);
        lemma_dec_digits_len(fpv, n.scale());
        lemma_pad_zeros_val(fpd0, n.scale());
        assert(fpd.len() == n.scale());
        // The one point stands right after the integer digits.
        assert(forall|j: int| 0 <= j < ipd.len() ==> r[j] != '.');
        assert(r[ipd.len() as int] == '.');
        lemma_find_dot_at(r, 0, ipd.len() as int);
        assert(r.subrange(0, ipd.len() as int) =~= ipd);
        assert(r.subrange(ipd.len() as int + 1, r.len() as int) =~= fpd);
        assert(all_digits(fpd));
        assert(digits_val(ipd) * p + digits_val(fpd) == a as int);
        assert(0 <= a <= i64::MAX as int);
        assert(digits_val(ipd) * p + digits_val(fpd) <= i64::MAX as int);
        assert(parse_num_spec(r) == spec_new(a as int, n.scale()));
        assert(norm10(a as int, n.scale()) == (a as int, n.scale())) by {
            assert(a as int % 10 != 0);
        }
        lemma_spec_num_eq(n, a as int, n.scale());
    }
}

/// The canonical text of a non-negative number holds only digits and at
/// most one point, and opens with a digit.
pub proof fn lemma_render_char_classes(n: Num)
    requires
        n.mantissa() >= 0,
    ensures
        render_spec(n).len() >= 1,
        is_digit(render_spec(n)[0]),
        forall|j: int|
            0 <= j < render_spec(n).len() ==> (is_digit(#[trigger] render_spec(n)[j])
                || render_spec(n)[j] == '.'),
{
    let a: nat = n.mantissa() as nat;
    if n.scale() == 0 {
        lemma_dec_digits_props(a);
        assert(render_spec(n) =~= dec_digits(a));
    } else {
        let p = pow10(n.scale());
        lemma_pow10_pos(n.scale());
        assert(a as int / p >= 0 && 0 <= a as int % p < p) by (nonlinear_arith)
            requires
                a >= 0,
                p >= 1,
        ;
        let ipd = dec_digits((a as int / p) as nat);
        let fpd0 = dec_digits((a as int % p) as nat);
        let fpd = pad_zeros(fpd0, n.scale());
        lemma_dec_digits_props((a as int / p) as nat);
        lemma_dec_digits_props((a as int % p) as nat);
        lemma_pad_zeros_val(fpd0, n.scale());
        let r = ipd + seq!['.'] + fpd;
        assert(render_spec(n) =~= r);
        assert(is_digit(r[0]));
        assert forall|j: int| 0 <= j < r.len() implies (is_digit(#[trigger] r[j]) || r[j]
            == '.') by {
            if j < ipd.len() {
                assert(r[j] == ipd[j]);
            } else if j == ipd.len() {
                assert(r[j] == '.');
            } else {
                assert(r[j] == fpd[j - ipd.len() - 1]);
            }
        }
    }
}

/// Two normalized numbers with one model are one number.
proof fn lemma_spec_num_eq(n: Num, m: int, s: nat)
    requires
        n.normalized(),
        n.mantissa() == m,
        n.scale() == s,
        i64::MIN as int <= m <= i64::MAX as int,
        s <= MAX_SCALE as nat,
    ensures
        spec_num(m, s) == n,
{
}

} // verus!
