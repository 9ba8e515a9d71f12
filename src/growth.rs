use vstd::arithmetic::div_mod::{
    lemma_div_denominator, lemma_div_is_ordered, lemma_fundamental_div_mod_converse,
};
use vstd::prelude::*;

verus! {

/// `b` raised to the `n`th power.
pub open spec fn pow(b: nat, n: nat) -> nat
    decreases n,
{
    if n == 0 {
        1
    } else {
        b * pow(b, (n - 1) as nat)
    }
}

/// Whole days of `(tenths / 10) ^ level`, rounded down: `floor(1.9 ^ level)` for
/// nineteen tenths, `floor(1.3 ^ level)` for thirteen.
pub open spec fn growth(tenths: nat, level: nat) -> nat {
    pow(tenths, level) / pow(10, level)
}

/// Every entry is a decimal digit.
pub open spec fn all_digits(d: Seq<u8>) -> bool {
    forall|i: int| 0 <= i < d.len() ==> #[trigger] d[i] < 10
}

/// The number that a sequence of decimal digits spells, least significant first.
pub open spec fn value(d: Seq<u8>) -> nat
    decreases d.len(),
{
    if d.len() == 0 {
        0
    } else {
        d[0] as nat + 10 * value(d.skip(1))
    }
}

proof fn lemma_pow_positive(b: nat, n: nat)
    requires
        b > 0,
    ensures
        pow(b, n) > 0,
    decreases n,
{
    if n > 0 {
        lemma_pow_positive(b, (n - 1) as nat);
        assert(b * pow(b, (n - 1) as nat) > 0) by (nonlinear_arith)
            requires
                b > 0,
                pow(b, (n - 1) as nat) > 0,
        ;
    }
}

proof fn lemma_value_push(d: Seq<u8>, x: u8)
    ensures
        value(d.push(x)) == value(d) + x * pow(10, d.len()),
    decreases d.len(),
{
    if d.len() == 0 {
        assert(d.push(x).skip(1) =~= Seq::<u8>::empty());
        assert(value(Seq::<u8>::empty()) == 0);
        assert(value(d.push(x)) == x + 10 * value(Seq::<u8>::empty()));
        assert(pow(10, 0) == 1);
    } else {
        assert(d.push(x).skip(1) =~= d.skip(1).push(x));
        assert(d.push(x)[0] == d[0]);
        lemma_value_push(d.skip(1), x);
        let p = pow(10, (d.len() - 1) as nat);
        assert(pow(10, d.len()) == 10 * p);
        assert(10 * (value(d.skip(1)) + x * p) == 10 * value(d.skip(1)) + x * (10 * p))
            by (nonlinear_arith);
    }
}

proof fn lemma_value_bound(d: Seq<u8>)
    requires
        all_digits(d),
    ensures
        value(d) < pow(10, d.len()),
    decreases d.len(),
{
    if d.len() > 0 {
        let t = d.skip(1);
        assert(all_digits(t)) by {
            assert forall|i: int| 0 <= i < t.len() implies #[trigger] t[i] < 10 by {
                assert(t[i] == d[i + 1]);
            }
        }
        lemma_value_bound(t);
        assert(d[0] < 10);
        assert(d[0] + 10 * value(t) < 10 * pow(10, t.len())) by (nonlinear_arith)
            requires
                d[0] < 10,
                value(t) < pow(10, t.len()),
        ;
    }
}

/// Splitting the digits at `n` splits the number at `10 ^ n`.
proof fn lemma_value_split(d: Seq<u8>, n: nat)
    requires
        n <= d.len(),
    ensures
        value(d) == value(d.take(n as int)) + pow(10, n) * value(d.skip(n as int)),
    decreases n,
{
    if n == 0 {
        assert(d.take(0) =~= Seq::<u8>::empty());
        assert(d.skip(0) =~= d);
        assert(value(Seq::<u8>::empty()) == 0);
        assert(pow(10, 0) == 1);
    } else {
        let t = d.skip(1);
        lemma_value_split(t, (n - 1) as nat);
        assert(d.take(n as int).skip(1) =~= t.take(n - 1));
        assert(t.skip(n - 1) =~= d.skip(n as int));
        assert(d.take(n as int)[0] == d[0]);
        let p = pow(10, (n - 1) as nat);
        assert(pow(10, n) == 10 * p);
        let a = value(t.take(n - 1));
        let b = value(d.skip(n as int));
        assert(10 * (a + p * b) == 10 * a + (10 * p) * b) by (nonlinear_arith);
    }
}

/// `floor(value / 10 ^ n)` is the number spelled by the digits from `n` on.
proof fn lemma_value_shift(d: Seq<u8>, n: nat)
    requires
        all_digits(d),
        n <= d.len(),
    ensures
        value(d) / pow(10, n) == value(d.skip(n as int)),
{
    lemma_value_split(d, n);
    let low = d.take(n as int);
    assert(all_digits(low)) by {
        assert forall|i: int| 0 <= i < low.len() implies #[trigger] low[i] < 10 by {
            assert(low[i] == d[i]);
        }
    }
    lemma_value_bound(low);
    assert(low.len() == n);
    assert(value(d) == value(d.skip(n as int)) * pow(10, n) + value(low)) by (nonlinear_arith)
        requires
            value(d) == value(low) + pow(10, n) * value(d.skip(n as int)),
    ;
    lemma_fundamental_div_mod_converse(
        value(d) as int,
        pow(10, n) as int,
        value(d.skip(n as int)) as int,
        value(low) as int,
    );
}

proof fn lemma_growth_step(tenths: nat, level: nat)
    requires
        tenths >= 10,
    ensures
        growth(tenths, level) <= growth(tenths, level + 1),
{
    let p = pow(tenths, level);
    let t = pow(10, level);
    lemma_pow_positive(10, level);
    assert(pow(tenths, level + 1) == tenths * p);
    assert(pow(10, level + 1) == 10 * t);
    assert(10 * p <= tenths * p) by (nonlinear_arith)
        requires
            tenths >= 10,
    ;
    lemma_div_is_ordered((10 * p) as int, (tenths * p) as int, (10 * t) as int);
    lemma_div_denominator((10 * p) as int, 10, t as int);
    assert((10 * p) / 10 == p);
}

/// The growth curve never falls as the level rises.
proof fn lemma_growth_monotone(tenths: nat, low: nat, high: nat)
    requires
        tenths >= 10,
        low <= high,
    ensures
        growth(tenths, low) <= growth(tenths, high),
    decreases high - low,
{
    if low < high {
        lemma_growth_step(tenths, low);
        lemma_growth_monotone(tenths, low + 1, high);
    }
}

/// The digits of `m` times the number that `d` spells.
fn times_small(d: &Vec<u8>, m: u8) -> (r: Vec<u8>)
    requires
        all_digits(d@),
        m <= 19,
    ensures
        all_digits(r@),
        r@.len() >= d@.len(),
        value(r@) == m * value(d@),
{
    let mut r: Vec<u8> = Vec::new();
    let mut carry: u32 = 0;
    let mut i: usize = 0;
    assert(d@.take(0) =~= Seq::<u8>::empty());
    assert(r@ =~= Seq::<u8>::empty());
    assert(value(Seq::<u8>::empty()) == 0);
    assert(pow(10, 0) == 1);
    while i < d.len()
        invariant
            i <= d@.len(),
            r@.len() == i,
            all_digits(d@),
            all_digits(r@),
            carry < 20,
            m <= 19,
            value(r@) + carry * pow(10, i as nat) == m * value(d@.take(i as int)),
        decreases d@.len() - i,
    {
        assert(d@[i as int] < 10);
        assert(d@[i as int] * m <= 171) by (nonlinear_arith)
            requires
                d@[i as int] < 10,
                m <= 19,
        ;
        let x: u32 = d[i] as u32 * m as u32 + carry;
        let digit: u8 = (x % 10) as u8;
        proof {
            let p = pow(10, i as nat);
            lemma_value_push(r@, digit);
            lemma_value_push(d@.take(i as int), d@[i as int]);
            assert(d@.take(i as int).push(d@[i as int]) =~= d@.take(i + 1));
            assert(pow(10, (i + 1) as nat) == 10 * p);
            assert(x == (x % 10) + 10 * (x / 10));
            assert(x * p == (x % 10) * p + (x / 10) * (10 * p)) by (nonlinear_arith)
                requires
                    x == (x % 10) + 10 * (x / 10),
            ;
            assert(m * (value(d@.take(i as int)) + d@[i as int] * p) == m * value(
                d@.take(i as int),
            ) + (m * d@[i as int]) * p) by (nonlinear_arith);
            assert((m * d@[i as int] + carry) * p == (m * d@[i as int]) * p + carry * p)
                by (nonlinear_arith);
        }
        r.push(digit);
        carry = x / 10;
        i = i + 1;
    }
    assert(d@.take(d@.len() as int) =~= d@);
    while carry > 0
        invariant
            r@.len() >= d@.len(),
            all_digits(r@),
            value(r@) + carry * pow(10, r@.len()) == m * value(d@),
        decreases carry,
    {
        let digit: u8 = (carry % 10) as u8;
        proof {
            let p = pow(10, r@.len());
            lemma_value_push(r@, digit);
            assert(pow(10, r@.len() + 1) == 10 * p);
            assert(carry == (carry % 10) + 10 * (carry / 10));
            assert(carry * p == (carry % 10) * p + (carry / 10) * (10 * p)) by (nonlinear_arith)
                requires
                    carry == (carry % 10) + 10 * (carry / 10),
            ;
        }
        r.push(digit);
        carry = carry / 10;
    }
    r
}

/// `floor(value(d) / 10 ^ n)` when that is at most `limit`, and nothing otherwise.
fn shifted_up_to(d: &Vec<u8>, n: usize, limit: u64) -> (r: Option<u64>)
    requires
        all_digits(d@),
        limit <= u32::MAX,
    ensures
        r matches Some(q) ==> q == value(d@) / pow(10, n as nat) && q <= limit,
        r is None ==> value(d@) / pow(10, n as nat) > limit,
{
    if n >= d.len() {
        proof {
            lemma_value_bound(d@);
            lemma_pow_positive(10, (n - d@.len()) as nat);
            lemma_pow_split(d@.len() as nat, (n - d@.len()) as nat);
            assert(pow(10, d@.len() as nat) <= pow(10, n as nat)) by (nonlinear_arith)
                requires
                    pow(10, n as nat) == pow(10, d@.len() as nat) * pow(10, (n - d@.len()) as nat),
                    pow(10, (n - d@.len()) as nat) > 0,
            ;
            lemma_fundamental_div_mod_converse(
                value(d@) as int,
                pow(10, n as nat) as int,
                0,
                value(d@) as int,
            );
        }
        return Some(0);
    }
    let ghost high = d@.skip(n as int);
    proof {
        lemma_value_shift(d@, n as nat);
    }
    let mut acc: u64 = 0;
    let mut i: usize = d.len();
    while i > n
        invariant
            n <= i <= d@.len(),
            n < d@.len(),
            all_digits(d@),
            high == d@.skip(n as int),
            acc <= limit,
            limit <= u32::MAX,
            acc == value(d@.subrange(i as int, d@.len() as int)),
            value(d@) / pow(10, n as nat) == value(high),
        decreases i,
    {
        let next: u64 = acc * 10 + d[i - 1] as u64;
        proof {
            let s = d@.subrange((i - 1) as int, d@.len() as int);
            assert(s.skip(1) =~= d@.subrange(i as int, d@.len() as int));
            assert(value(s) == s[0] + 10 * value(s.skip(1)));
        }
        if next > limit {
            proof {
                let k = (i - 1 - n) as nat;
                lemma_value_split(high, k);
                assert(high.skip(k as int) =~= d@.subrange((i - 1) as int, d@.len() as int));
                lemma_pow_positive(10, k);
                assert(pow(10, k) * value(high.skip(k as int)) >= value(high.skip(k as int)))
                    by (nonlinear_arith)
                    requires
                        pow(10, k) > 0,
                ;
            }
            return None;
        }
        acc = next;
        i = i - 1;
    }
    assert(d@.subrange(n as int, d@.len() as int) =~= high);
    Some(acc)
}

proof fn lemma_pow_split(a: nat, b: nat)
    ensures
        pow(10, a + b) == pow(10, a) * pow(10, b),
    decreases a,
{
    if a > 0 {
        let c = (a - 1) as nat;
        lemma_pow_split(c, b);
        let x = pow(10, c);
        let y = pow(10, b);
        assert(c + b + 1 == a + b);
        assert(pow(10, a) == 10 * x);
        assert(pow(10, a + b) == 10 * pow(10, c + b));
        assert(10 * (x * y) == (10 * x) * y) by (nonlinear_arith);
        assert(pow(10, a + b) == pow(10, a) * pow(10, b));
    } else {
        assert(pow(10, 0) == 1);
        assert(pow(10, a + b) == pow(10, b));
    }
}

/// `growth(tenths, level)` when it is at most `limit`, and nothing otherwise.
pub fn growth_up_to(tenths: u8, level: u32, limit: u64) -> (r: Option<u64>)
    requires
        10 <= tenths <= 19,
        limit <= u32::MAX,
    ensures
        r matches Some(v) ==> v == growth(tenths as nat, level as nat) && v <= limit,
        r is None ==> growth(tenths as nat, level as nat) > limit,
{
    let mut d: Vec<u8> = vec![1u8];
    let mut i: u32 = 0;
    assert(d@.skip(1) =~= Seq::<u8>::empty());
    assert(value(d@) == 1 + 10 * value(Seq::<u8>::empty()));
    assert(pow(tenths as nat, 0) == 1);
    loop
        invariant
            10 <= tenths <= 19,
            limit <= u32::MAX,
            i <= level,
            all_digits(d@),
            value(d@) == pow(tenths as nat, i as nat),
        decreases level - i,
    {
        match shifted_up_to(&d, i as usize, limit) {
            None => {
                proof {
                    lemma_growth_monotone(tenths as nat, i as nat, level as nat);
                }
                return None;
            },
            Some(q) => {
                if i == level {
                    return Some(q);
                }
            },
        }
        let next = times_small(&d, tenths);
        proof {
            assert(pow(tenths as nat, (i + 1) as nat) == tenths * pow(tenths as nat, i as nat));
        }
        d = next;
        i = i + 1;
    }
}

} // verus!
