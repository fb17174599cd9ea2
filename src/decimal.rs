use vstd::prelude::*;

verus! {

/// The ASCII code of the digit `0`.
pub const ZERO: u8 = 48;

/// Whether a byte is an ASCII decimal digit.
pub open spec fn is_digit(b: u8) -> bool {
    48 <= b <= 57
}

/// The shortest decimal text of `n`, most significant digit first.
pub open spec fn digits(n: nat) -> Seq<u8>
    decreases n,
{
    if n < 10 {
        seq![(48 + n) as u8]
    } else {
        digits(n / 10).push((48 + n % 10) as u8)
    }
}

/// The `w` lowest decimal digits of `n`, zero-padded on the left.
pub open spec fn padded_digits(n: nat, w: nat) -> Seq<u8>
    decreases w,
{
    if w == 0 {
        Seq::empty()
    } else {
        padded_digits(n / 10, (w - 1) as nat).push((48 + n % 10) as u8)
    }
}

/// The number that a run of digits denotes.
pub open spec fn digit_value(s: Seq<u8>) -> int
    decreases s.len(),
{
    if s.len() == 0 {
        0
    } else {
        digit_value(s.drop_last()) * 10 + (s.last() - 48)
    }
}

pub open spec fn pow10(w: nat) -> nat
    decreases w,
{
    if w == 0 {
        1
    } else {
        10 * pow10((w - 1) as nat)
    }
}

/// Whether every byte of `s` is a digit.
pub open spec fn all_digits(s: Seq<u8>) -> bool {
    forall|i: int| 0 <= i < s.len() ==> is_digit(#[trigger] s[i])
}

pub proof fn lemma_digits(n: nat)
    ensures
        digits(n).len() >= 1,
        all_digits(digits(n)),
        digit_value(digits(n)) == n,
        n < pow10(digits(n).len()),
    decreases n,
{
    let d = digits(n);
    if n >= 10 {
        lemma_digits(n / 10);
        assert(d.drop_last() =~= digits(n / 10));
        let k = digits(n / 10).len();
        assert(pow10(k + 1) == 10 * pow10(k));
        assert(d.last() == 48 + n % 10);
        assert((n / 10) * 10 + n % 10 == n);
        assert(digit_value(d) == digit_value(d.drop_last()) * 10 + (d.last() - 48));
    } else {
        assert(d.last() == 48 + n);
        assert(digit_value(d) == digit_value(d.drop_last()) * 10 + (d.last() - 48));
        assert(d.drop_last() =~= Seq::<u8>::empty());
        assert(pow10(1) == 10) by {
            reveal_with_fuel(pow10, 2);
        }
    }
}

pub proof fn lemma_padded_digits(n: nat, w: nat)
    requires
        n < pow10(w),
    ensures
        padded_digits(n, w).len() == w,
        all_digits(padded_digits(n, w)),
        digit_value(padded_digits(n, w)) == n,
    decreases w,
{
    if w > 0 {
        assert(n / 10 < pow10((w - 1) as nat));
        lemma_padded_digits(n / 10, (w - 1) as nat);
        assert(padded_digits(n, w).drop_last() =~= padded_digits(n / 10, (w - 1) as nat));
    }
}

/// Appends the shortest decimal text of `n`.
pub fn push_digits(out: &mut Vec<u8>, n: u64)
    ensures
        final(out)@ == old(out)@ + digits(n as nat),
    decreases n,
{
    if n >= 10 {
        push_digits(out, n / 10);
    }
    out.push(ZERO + (n % 10) as u8);
    proof {
        if n >= 10 {
            assert(digits(n as nat) == digits((n / 10) as nat).push((48 + n % 10) as u8));
        }
    }
    assert(final(out)@ =~= old(out)@ + digits(n as nat));
}

/// Appends the `w` lowest decimal digits of `n`, zero-padded on the left.
pub fn push_padded_digits(out: &mut Vec<u8>, n: u64, w: u32)
    ensures
        final(out)@ == old(out)@ + padded_digits(n as nat, w as nat),
    decreases w,
{
    if w > 0 {
        push_padded_digits(out, n / 10, w - 1);
        out.push(ZERO + (n % 10) as u8);
    }
    assert(final(out)@ =~= old(out)@ + padded_digits(n as nat, w as nat));
}

/// Reads the run of digits of `s` that starts at `start` and ends before `end`.
pub fn parse_digits(s: &Vec<u8>, start: usize, end: usize) -> (r: u64)
    requires
        start <= end <= s@.len(),
        end - start <= 18,
        all_digits(s@.subrange(start as int, end as int)),
    ensures
        r == digit_value(s@.subrange(start as int, end as int)),
{
    let mut acc: u64 = 0;
    let mut i: usize = start;
    while i < end
        invariant
            start <= i <= end <= s@.len(),
            end - start <= 18,
            all_digits(s@.subrange(start as int, end as int)),
            acc == digit_value(s@.subrange(start as int, i as int)),
            acc < pow10((i - start) as nat),
        decreases end - i,
    {
        assert(s@.subrange(start as int, end as int)[i - start] == s@[i as int]);
        let d = s[i] - ZERO;
        assert(s@.subrange(start as int, i + 1).drop_last() =~= s@.subrange(start as int, i as int));
        assert(pow10((i + 1 - start) as nat) == 10 * pow10((i - start) as nat));
        proof {
            lemma_pow10_bound((i - start) as nat);
        }
        acc = acc * 10 + d as u64;
        i = i + 1;
    }
    acc
}

pub proof fn lemma_pow10_bound(w: nat)
    requires
        w <= 18,
    ensures
        pow10(w) <= 1_000_000_000_000_000_000,
    decreases w,
{
    reveal_with_fuel(pow10, 19);
}

pub proof fn lemma_digit_value_bound(s: Seq<u8>)
    requires
        all_digits(s),
    ensures
        0 <= digit_value(s) < pow10(s.len()),
    decreases s.len(),
{
    if s.len() > 0 {
        assert(all_digits(s.drop_last()));
        lemma_digit_value_bound(s.drop_last());
        assert(is_digit(s[s.len() - 1]));
    }
}

pub proof fn lemma_pow10_product(a: nat, b: nat)
    ensures
        pow10(a) * pow10(b) == pow10(a + b),
    decreases a,
{
    if a > 0 {
        let a1 = (a - 1) as nat;
        lemma_pow10_product(a1, b);
        assert(pow10(a) == 10 * pow10(a1));
        assert(a1 + b + 1 == a + b);
        assert(pow10(a + b) == 10 * pow10(a1 + b));
        assert(pow10(a) * pow10(b) == 10 * (pow10(a1) * pow10(b))) by (nonlinear_arith)
            requires
                pow10(a) == 10 * pow10(a1),
        ;
    } else {
        assert(pow10(a) == 1);
        assert(pow10(a) * pow10(b) == pow10(b));
    }
}

pub proof fn lemma_pow10_monotone(a: nat, b: nat)
    requires
        a <= b,
    ensures
        1 <= pow10(a) <= pow10(b),
    decreases b,
{
    if a < b {
        lemma_pow10_monotone(a, (b - 1) as nat);
    } else if a > 0 {
        lemma_pow10_monotone((a - 1) as nat, (a - 1) as nat);
    }
}

} // verus!
