//! Mixed-radix index tuples: the digits of a linear index in base `m`, their
//! sums, and the jump that passes over a subtree of tuples whose digit sum is
//! already too large.
use vstd::arithmetic::div_mod::lemma_fundamental_div_mod;
use vstd::arithmetic::div_mod::lemma_fundamental_div_mod_converse;
use vstd::arithmetic::power::lemma_pow0;
use vstd::arithmetic::power::lemma_pow_positive;
use vstd::arithmetic::power::pow;
use vstd::prelude::*;

verus! {

/// A row of machine digits as natural numbers.
pub open spec fn as_digits(row: Seq<usize>) -> Seq<nat> {
    row.map_values(|d: usize| d as nat)
}

/// The sum of the digits of `row` at the positions `lo <= k < hi`.
pub open spec fn range_sum(row: Seq<nat>, lo: int, hi: int) -> nat
    decreases hi - lo,
{
    if lo >= hi {
        0
    } else {
        range_sum(row, lo, hi - 1) + row[hi - 1]
    }
}

/// The sum of all digits of `row`.
pub open spec fn digit_sum(row: Seq<nat>) -> nat {
    range_sum(row, 0, row.len() as int)
}

/// Every digit of `row` is below `m`.
pub open spec fn digits_below(row: Seq<nat>, m: nat) -> bool {
    forall|k: int| 0 <= k < row.len() ==> #[trigger] row[k] < m
}

/// The `n` digits of `index` in base `m`, most significant first. The last
/// digit is `index % m`, the digits before it are those of `index / m`, and
/// the first digit takes all that is left, so that it is below `m` exactly
/// when `index` is below `m` to the power `n`.
pub open spec fn decode(index: nat, n: nat, m: nat) -> Seq<nat>
    decreases n,
{
    if n == 0 {
        Seq::empty()
    } else if n == 1 {
        seq![index]
    } else {
        decode(index / m, (n - 1) as nat, m).push(index % m)
    }
}

/// The value of the digits `row` in base `m`, on top of `carry` as the value
/// of what stands to the left of the row.
pub open spec fn encode_from(carry: nat, row: Seq<nat>, m: nat) -> nat
    decreases row.len(),
{
    if row.len() == 0 {
        carry
    } else {
        encode_from(carry, row.drop_last(), m) * m + row.last()
    }
}

/// The linear index of `row`: its digits weighted by the powers of `m`, the
/// last digit with weight 1.
pub open spec fn encode(row: Seq<nat>, m: nat) -> nat {
    encode_from(0, row, m)
}

/// Where the enumeration goes on after `index`, when the digit sum at
/// `index` is too large. Of the `n` digits of `index`, the least significant
/// nonzero one is set to zero and the digit to its left is raised by one;
/// where that digit is the first, the carry leaves the row and the result is
/// `m` to the power `n`. An index whose digits are all zero stays at 0.
pub open spec fn skip_target(index: nat, n: nat, m: nat) -> nat
    decreases n,
{
    if n == 0 {
        0
    } else if index % m != 0 {
        (index / m + 1) * m
    } else {
        skip_target(index / m, (n - 1) as nat, m) * m
    }
}

/// `pow(m, n + 1)` is `m` times `pow(m, n)`.
pub proof fn lemma_pow_unfold(m: nat, n: nat)
    ensures
        pow(m as int, n + 1) == m * pow(m as int, n),
        pow(m as int, 0) == 1,
        pow(m as int, n) >= 0,
{
    reveal(pow);
    lemma_pow0(m as int);
    if m > 0 {
        lemma_pow_positive(m as int, n);
    } else if n > 0 {
        vstd::arithmetic::power::lemma0_pow(n);
    }
}

/// Quotient and remainder of `q * m + r` for a remainder `r` below `m`.
pub proof fn lemma_div_mod_of_digits(q: nat, r: nat, m: nat)
    requires
        r < m,
    ensures
        (q * m + r) / m == q,
        (q * m + r) % m == r,
{
    lemma_fundamental_div_mod_converse((q * m + r) as int, m as int, q as int, r as int);
}

/// A range sum only reads the digits inside the range.
pub proof fn lemma_range_sum_agrees(a: Seq<nat>, b: Seq<nat>, lo: int, hi: int)
    requires
        forall|k: int| lo <= k < hi ==> a[k] == b[k],
    ensures
        range_sum(a, lo, hi) == range_sum(b, lo, hi),
    decreases hi - lo,
{
    if lo < hi {
        lemma_range_sum_agrees(a, b, lo, hi - 1);
    }
}

/// Appending a digit adds it to the digit sum.
pub proof fn lemma_digit_sum_push(row: Seq<nat>, d: nat)
    ensures
        digit_sum(row.push(d)) == digit_sum(row) + d,
{
    lemma_range_sum_agrees(row.push(d), row, 0, row.len() as int);
}

/// `decode` yields `n` digits.
pub proof fn lemma_decode_len(index: nat, n: nat, m: nat)
    requires
        m >= 1,
    ensures
        decode(index, n, m).len() == n,
    decreases n,
{
    if n == 1 {
        assert(seq![index].len() == 1);
    } else if n >= 2 {
        lemma_decode_len(index / m, (n - 1) as nat, m);
    }
}

/// The digits of an index below `pow(m, n)` are all below `m`.
pub proof fn lemma_decode_digits_below(index: nat, n: nat, m: nat)
    requires
        m >= 1,
        index < pow(m as int, n),
    ensures
        digits_below(decode(index, n, m), m),
        decode(index, n, m).len() == n,
    decreases n,
{
    lemma_decode_len(index, n, m);
    if n == 1 {
        lemma_pow_unfold(m, 0);
        assert(pow(m as int, 1) == m) by (nonlinear_arith)
            requires
                pow(m as int, 1) == m * pow(m as int, 0),
                pow(m as int, 0) == 1,
        ;
    } else if n >= 2 {
        let rest = (n - 1) as nat;
        lemma_pow_unfold(m, rest);
        lemma_fundamental_div_mod(index as int, m as int);
        assert(index / m < pow(m as int, rest)) by (nonlinear_arith)
            requires
                m >= 1,
                index < m * pow(m as int, rest),
                index == m * (index / m) + index % m,
                0 <= index % m,
        ;
        lemma_decode_digits_below(index / m, rest, m);
        assert(index % m < m) by (nonlinear_arith)
            requires
                m >= 1,
        ;
    }
}

/// Decoding and encoding again gives the index back, for at least one digit.
pub proof fn lemma_encode_decode(index: nat, n: nat, m: nat)
    requires
        n >= 1,
        m >= 1,
    ensures
        encode(decode(index, n, m), m) == index,
    decreases n,
{
    if n == 1 {
        let row = seq![index];
        assert(row.drop_last() =~= Seq::<nat>::empty());
        assert(encode_from(0, row.drop_last(), m) == 0);
        assert(0 * m == 0) by (nonlinear_arith);
    } else {
        let rest = (n - 1) as nat;
        lemma_encode_decode(index / m, rest, m);
        let row = decode(index, n, m);
        assert(row.drop_last() =~= decode(index / m, rest, m));
        lemma_fundamental_div_mod(index as int, m as int);
        assert((index / m) * m == m * (index / m)) by (nonlinear_arith);
    }
}

/// The index of a row of digits below `m` is below `pow(m, n)`.
pub proof fn lemma_encode_below(row: Seq<nat>, m: nat)
    requires
        digits_below(row, m),
    ensures
        encode(row, m) < pow(m as int, row.len()),
    decreases row.len(),
{
    if row.len() == 0 {
        lemma_pow_unfold(m, 0);
    } else {
        let head = row.drop_last();
        lemma_encode_below(head, m);
        lemma_pow_unfold(m, head.len());
        assert(row.last() < m);
        assert(encode(head, m) * m + row.last() < m * pow(m as int, head.len()))
            by (nonlinear_arith)
            requires
                encode(head, m) < pow(m as int, head.len()),
                row.last() < m,
        ;
    }
}

/// Encoding a row of digits below `m` and decoding again gives the row back.
pub proof fn lemma_decode_encode(row: Seq<nat>, m: nat)
    requires
        digits_below(row, m),
    ensures
        decode(encode(row, m), row.len(), m) == row,
    decreases row.len(),
{
    let n = row.len();
    if n == 0 {
        assert(decode(encode(row, m), 0, m) =~= row);
    } else if n == 1 {
        assert(row.drop_last() =~= Seq::<nat>::empty());
        assert(encode_from(0, row.drop_last(), m) == 0);
        assert(0 * m == 0) by (nonlinear_arith);
        assert(seq![row[0]] =~= row);
    } else {
        let head = row.drop_last();
        lemma_decode_encode(head, m);
        assert(row.last() < m);
        lemma_div_mod_of_digits(encode(head, m), row.last(), m);
        assert(head.push(row.last()) =~= row);
    }
}

/// The jump never leaves the range of `n` digits by more than one step: it
/// ends at `pow(m, n)` at the latest.
pub proof fn lemma_skip_target_bound(index: nat, n: nat, m: nat)
    requires
        m >= 1,
        index < pow(m as int, n),
    ensures
        skip_target(index, n, m) <= pow(m as int, n),
    decreases n,
{
    if n >= 1 {
        let rest = (n - 1) as nat;
        lemma_pow_unfold(m, rest);
        lemma_fundamental_div_mod(index as int, m as int);
        assert(index / m < pow(m as int, rest)) by (nonlinear_arith)
            requires
                m >= 1,
                index < m * pow(m as int, rest),
                index == m * (index / m) + index % m,
                0 <= index % m,
        ;
        if index % m != 0 {
            assert((index / m + 1) * m <= m * pow(m as int, rest)) by (nonlinear_arith)
                requires
                    m >= 1,
                    index / m + 1 <= pow(m as int, rest),
            ;
        } else {
            lemma_skip_target_bound(index / m, rest, m);
            assert(skip_target(index / m, rest, m) * m <= m * pow(m as int, rest))
                by (nonlinear_arith)
                requires
                    m >= 1,
                    skip_target(index / m, rest, m) <= pow(m as int, rest),
            ;
        }
    }
}

/// The jump moves forward from every index that has a nonzero digit among
/// its `n` digits.
pub proof fn lemma_skip_target_advances(index: nat, n: nat, m: nat)
    requires
        m >= 1,
        0 < index < pow(m as int, n),
    ensures
        index < skip_target(index, n, m),
    decreases n,
{
    if n == 0 {
        lemma_pow_unfold(m, 0);
    } else {
        let rest = (n - 1) as nat;
        lemma_pow_unfold(m, rest);
        lemma_fundamental_div_mod(index as int, m as int);
        assert(index % m < m) by (nonlinear_arith)
            requires
                m >= 1,
        ;
        if index % m != 0 {
            assert((index / m + 1) * m == m * (index / m) + m) by (nonlinear_arith);
        } else {
            assert(index / m < pow(m as int, rest)) by (nonlinear_arith)
                requires
                    m >= 1,
                    index < m * pow(m as int, rest),
                    index == m * (index / m) + index % m,
                    0 <= index % m,
            ;
            assert(index / m > 0) by (nonlinear_arith)
                requires
                    index > 0,
                    index == m * (index / m),
            ;
            lemma_skip_target_advances(index / m, rest, m);
            assert(skip_target(index / m, rest, m) * m > m * (index / m)) by (nonlinear_arith)
                requires
                    m >= 1,
                    skip_target(index / m, rest, m) > index / m,
            ;
        }
    }
}

/// No index that the jump passes over has a smaller digit sum than the index
/// it starts from: once a prefix of digits sums too high, no choice of the
/// digits after it brings the sum down.
pub proof fn lemma_skip_keeps_sum(index: nat, later: nat, n: nat, m: nat)
    requires
        m >= 1,
        index <= later < skip_target(index, n, m),
    ensures
        digit_sum(decode(index, n, m)) <= digit_sum(decode(later, n, m)),
    decreases n,
{
    if n == 1 {
        assert(digit_sum(seq![index]) == index) by {
            assert(range_sum(seq![index], 0, 0) == 0);
        }
        assert(digit_sum(seq![later]) == later) by {
            assert(range_sum(seq![later], 0, 0) == 0);
        }
    } else if n >= 2 {
        let rest = (n - 1) as nat;
        lemma_fundamental_div_mod(index as int, m as int);
        lemma_fundamental_div_mod(later as int, m as int);
        lemma_digit_sum_push(decode(index / m, rest, m), index % m);
        lemma_digit_sum_push(decode(later / m, rest, m), later % m);
        assert(0 <= index % m < m && 0 <= later % m < m) by (nonlinear_arith)
            requires
                m >= 1,
        ;
        if index % m != 0 {
            assert(later / m == index / m && index % m <= later % m) by (nonlinear_arith)
                requires
                    m >= 1,
                    index <= later < (index / m + 1) * m,
                    index == m * (index / m) + index % m,
                    later == m * (later / m) + later % m,
                    0 <= index % m < m,
                    0 <= later % m < m,
            ;
        } else {
            let target = skip_target(index / m, rest, m);
            assert(index / m <= later / m < target) by (nonlinear_arith)
                requires
                    m >= 1,
                    index <= later < target * m,
                    index == m * (index / m),
                    later == m * (later / m) + later % m,
                    0 <= later % m < m,
            ;
            lemma_skip_keeps_sum(index / m, later / m, rest, m);
        }
    }
}

/// The digits are those of the usual positional notation: the digit at
/// position `k` is the quotient of `index` by `m` to the power `n - 1 - k`,
/// reduced modulo `m` everywhere but at the first position.
pub proof fn lemma_decode_digit(index: nat, n: nat, m: nat, k: int)
    requires
        m >= 1,
        0 <= k < n,
    ensures
        k == 0 ==> decode(index, n, m)[k] == index / (pow(m as int, (n - 1) as nat) as nat),
        k > 0 ==> decode(index, n, m)[k] == (index / (pow(m as int, (n - 1 - k) as nat) as nat)) % m,
    decreases n,
{
    lemma_pow_unfold(m, 0);
    lemma_decode_len(index, n, m);
    if n == 1 || k == n - 1 {
        vstd::arithmetic::div_mod::lemma_div_basics(index as int);
        assert(pow(m as int, (n - 1 - k) as nat) == 1);
        if n > 1 {
            assert(decode(index, n, m)[k] == index % m);
        }
    } else {
        let rest = (n - 1) as nat;
        let exponent = (rest - 1 - k) as nat;
        let weight = pow(m as int, exponent);
        lemma_decode_len(index / m, rest, m);
        lemma_decode_digit(index / m, rest, m, k);
        lemma_pow_positive(m as int, exponent);
        lemma_pow_unfold(m, exponent);
        assert(pow(m as int, (n - 1 - k) as nat) == m * weight);
        vstd::arithmetic::div_mod::lemma_div_denominator(index as int, m as int, weight);
        assert((index as int / m as int) / weight == index as int / (m * weight));
        assert(decode(index, n, m)[k] == decode(index / m, rest, m)[k]);
    }
}

/// The digits of index 0 are all zero.
pub proof fn lemma_decode_zero(n: nat, m: nat)
    requires
        m >= 1,
    ensures
        digit_sum(decode(0, n, m)) == 0,
    decreases n,
{
    if n == 1 {
        assert(range_sum(seq![0nat], 0, 0) == 0);
    } else if n >= 2 {
        lemma_decode_zero((n - 1) as nat, m);
        lemma_digit_sum_push(decode(0, (n - 1) as nat, m), 0);
        assert(0nat / m == 0 && 0nat % m == 0) by (nonlinear_arith)
            requires
                m >= 1,
        ;
    }
}

/// A row of zeros has index 0, and the jump from such a row stays at 0.
pub proof fn lemma_zero_row_stays(row: Seq<nat>, m: nat)
    requires
        m >= 1,
        forall|k: int| 0 <= k < row.len() ==> row[k] == 0,
    ensures
        encode(row, m) == 0,
        skip_target(0, row.len(), m) == 0,
    decreases row.len(),
{
    if row.len() > 0 {
        lemma_zero_row_stays(row.drop_last(), m);
        assert(0nat / m == 0 && 0nat % m == 0 && 0 * m == 0) by (nonlinear_arith)
            requires
                m >= 1,
        ;
    }
}

/// The jump, told on the digits. In a row of digits below `m` whose least
/// significant nonzero digit stands at `j`, that digit is set to zero and the
/// digit before it is raised by one; where `j` is the first position a carry
/// of one is put before the row instead. The value of the new row is the
/// target of the jump from the old one.
pub proof fn lemma_skip_on_digits(row: Seq<nat>, j: int, m: nat)
    requires
        m >= 1,
        digits_below(row, m),
        0 <= j < row.len(),
        row[j] > 0,
        forall|k: int| j < k < row.len() ==> row[k] == 0,
    ensures
        j > 0 ==> skip_target(encode(row, m), row.len(), m) == encode(
            row.update(j, 0).update(j - 1, row[j - 1] + 1),
            m,
        ),
        j == 0 ==> skip_target(encode(row, m), row.len(), m) == encode_from(
            1,
            row.update(0, 0),
            m,
        ),
    decreases row.len(),
{
    let n = row.len();
    let head = row.drop_last();
    let last = row.last();
    let index = encode(row, m);
    assert(last < m);
    assert(index == encode(head, m) * m + last);
    lemma_div_mod_of_digits(encode(head, m), last, m);
    if j == n - 1 {
        assert(skip_target(index, n, m) == (encode(head, m) + 1) * m);
        if j == 0 {
            let moved = row.update(0, 0);
            assert(head =~= Seq::<nat>::empty());
            assert(moved.drop_last() =~= Seq::<nat>::empty());
            assert(moved.last() == 0);
            assert(encode_from(1, moved, m) == encode_from(1, moved.drop_last(), m) * m
                + moved.last());
        } else {
            let moved = row.update(j, 0).update(j - 1, row[j - 1] + 1);
            let moved_head = moved.drop_last();
            assert(moved.last() == 0);
            assert(moved_head =~= head.update(j - 1, head[j - 1] + 1));
            assert(moved_head.drop_last() =~= head.drop_last());
            assert(moved_head.last() == head.last() + 1);
            assert(encode(moved_head, m) == encode_from(0, moved_head.drop_last(), m) * m
                + moved_head.last());
            assert(encode(head, m) == encode_from(0, head.drop_last(), m) * m + head.last());
            assert(encode(moved, m) == encode(moved_head, m) * m + moved.last());
        }
    } else {
        assert(last == 0);
        assert(skip_target(index, n, m) == skip_target(encode(head, m), (n - 1) as nat, m) * m);
        assert(digits_below(head, m)) by {
            assert forall|k: int| 0 <= k < head.len() implies #[trigger] head[k] < m by {
                assert(row[k] < m);
            }
        }
        assert forall|k: int| j < k < head.len() implies head[k] == 0 by {
            assert(row[k] == 0);
        }
        lemma_skip_on_digits(head, j, m);
        if j == 0 {
            let moved = row.update(0, 0);
            assert(moved.drop_last() =~= head.update(0, 0));
            assert(moved.last() == 0);
            assert(encode_from(1, moved, m) == encode_from(1, moved.drop_last(), m) * m
                + moved.last());
        } else {
            let moved = row.update(j, 0).update(j - 1, row[j - 1] + 1);
            assert(moved.drop_last() =~= head.update(j, 0).update(j - 1, head[j - 1] + 1));
            assert(moved.last() == 0);
            assert(encode(moved, m) == encode_from(0, moved.drop_last(), m) * m + moved.last());
        }
    }
}

/// The jump from a row is sound. It ends at `m` to the power `n` at the
/// latest; from a row with a nonzero digit, so from every row whose digit sum
/// is too large, it moves forward; and no index that it passes over, the
/// index of the row included, has a row with a smaller digit sum than the
/// row it starts from. So where the digit sum of the row is `m` or more, no
/// row that could be accepted is passed over.
pub proof fn lemma_jump_is_sound(row: Seq<nat>, m: nat)
    requires
        m >= 1,
        digits_below(row, m),
    ensures
        skip_target(encode(row, m), row.len(), m) <= pow(m as int, row.len()),
        digit_sum(row) > 0 ==> encode(row, m) < skip_target(encode(row, m), row.len(), m),
        forall|later: nat|
            encode(row, m) <= later < skip_target(encode(row, m), row.len(), m) ==> digit_sum(row)
                <= digit_sum(#[trigger] decode(later, row.len(), m)),
{
    let n = row.len();
    let index = encode(row, m);
    lemma_encode_below(row, m);
    lemma_decode_encode(row, m);
    lemma_skip_target_bound(index, n, m);
    if digit_sum(row) > 0 {
        if index == 0 {
            lemma_decode_zero(n, m);
        }
        lemma_skip_target_advances(index, n, m);
    }
    assert forall|later: nat| index <= later < skip_target(index, n, m) implies digit_sum(row)
        <= digit_sum(#[trigger] decode(later, n, m)) by {
        lemma_skip_keeps_sum(index, later, n, m);
    }
}

/// The value of a prefix of a row never exceeds the value of the row.
pub proof fn lemma_encode_prefix_le(carry: nat, row: Seq<nat>, k: int, m: nat)
    requires
        m >= 1,
        0 <= k <= row.len(),
    ensures
        encode_from(carry, row.take(k), m) <= encode_from(carry, row, m),
    decreases row.len() - k,
{
    if k == row.len() {
        assert(row.take(k) =~= row);
    } else {
        lemma_encode_prefix_le(carry, row, k + 1, m);
        assert(row.take(k + 1).drop_last() =~= row.take(k));
        let low = encode_from(carry, row.take(k), m);
        assert(low <= low * m + row[k]) by (nonlinear_arith)
            requires
                m >= 1,
                low >= 0,
                row[k] >= 0,
        ;
    }
}

/// The digits of `row` at `lo <= k < hi`, summed without wrapping.
pub fn range_total(row: &Vec<usize>, lo: usize, hi: usize) -> (total: u128)
    requires
        lo <= hi <= row.len(),
    ensures
        total == range_sum(as_digits(row@), lo as int, hi as int),
{
    let mut total: u128 = 0;
    let mut k: usize = lo;
    while k < hi
        invariant
            lo <= k <= hi <= row.len(),
            total == range_sum(as_digits(row@), lo as int, k as int),
            total <= (k - lo) * usize::MAX,
        decreases hi - k,
    {
        assert((k - lo) * usize::MAX + usize::MAX == (k + 1 - lo) * usize::MAX)
            by (nonlinear_arith);
        assert((k + 1 - lo) * usize::MAX <= usize::MAX * usize::MAX) by (nonlinear_arith)
            requires
                0 <= k + 1 - lo <= usize::MAX,
        ;
        assert(usize::MAX * usize::MAX < u128::MAX) by (nonlinear_arith)
            requires
                usize::MAX <= 0xffff_ffff_ffff_ffff,
        ;
        total = total + row[k] as u128;
        k = k + 1;
    }
    total
}

/// `m` to the power `n`, or `None` where that does not fit.
pub fn checked_pow(m: usize, n: usize) -> (power: Option<usize>)
    ensures
        match power {
            Some(p) => p == pow(m as int, n as nat),
            None => pow(m as int, n as nat) > usize::MAX,
        },
{
    if n == 0 {
        proof {
            lemma_pow_unfold(m as nat, 0);
        }
        return Some(1);
    }
    if m == 0 {
        proof {
            vstd::arithmetic::power::lemma0_pow(n as nat);
        }
        return Some(0);
    }
    if m == 1 {
        proof {
            vstd::arithmetic::power::lemma1_pow(n as nat);
        }
        return Some(1);
    }
    let mut power: usize = 1;
    let mut k: usize = 0;
    proof {
        lemma_pow_unfold(m as nat, 0);
    }
    while k < n
        invariant
            m >= 2,
            k <= n,
            power == pow(m as int, k as nat),
            power >= 1,
        decreases n - k,
    {
        proof {
            lemma_pow_unfold(m as nat, k as nat);
        }
        match power.checked_mul(m) {
            Some(next) => {
                assert(power * m == m * power) by (nonlinear_arith);
                assert(power * m >= 1) by (nonlinear_arith)
                    requires
                        power >= 1,
                        m >= 2,
                ;
                power = next;
            },
            None => {
                proof {
                    assert(power * m == m * power) by (nonlinear_arith);
                    vstd::arithmetic::power::lemma_pow_increases(
                        m as nat,
                        (k + 1) as nat,
                        n as nat,
                    );
                }
                return None;
            },
        }
        k = k + 1;
    }
    Some(power)
}

/// `m` to the power `n`, the number of rows of `n` digits in base `m`, where
/// it fits.
pub fn index_count(m: usize, n: usize) -> (count: usize)
    requires
        m >= 1,
        pow(m as int, n as nat) <= usize::MAX,
    ensures
        count == pow(m as int, n as nat),
{
    if m == 1 {
        proof {
            vstd::arithmetic::power::lemma1_pow(n as nat);
        }
        return 1;
    }
    let mut count: usize = 1;
    let mut k: usize = 0;
    proof {
        lemma_pow_unfold(m as nat, 0);
    }
    while k < n
        invariant
            m >= 2,
            k <= n,
            count == pow(m as int, k as nat),
            pow(m as int, n as nat) <= usize::MAX,
        decreases n - k,
    {
        proof {
            lemma_pow_unfold(m as nat, k as nat);
            vstd::arithmetic::power::lemma_pow_increases(m as nat, (k + 1) as nat, n as nat);
            assert(count * m == m * count) by (nonlinear_arith);
        }
        count = count * m;
        k = k + 1;
    }
    count
}

/// The index of the digits `row` in base `m`, on top of `carry`.
pub fn encode_digits(carry: usize, row: &Vec<usize>, m: usize) -> (index: usize)
    requires
        m >= 1,
        encode_from(carry as nat, as_digits(row@), m as nat) <= usize::MAX,
    ensures
        index == encode_from(carry as nat, as_digits(row@), m as nat),
{
    let ghost digits = as_digits(row@);
    let mut index: usize = carry;
    let mut k: usize = 0;
    assert(digits.take(0) =~= Seq::<nat>::empty());
    while k < row.len()
        invariant
            m >= 1,
            k <= row.len(),
            digits == as_digits(row@),
            index == encode_from(carry as nat, digits.take(k as int), m as nat),
            encode_from(carry as nat, digits, m as nat) <= usize::MAX,
        decreases row.len() - k,
    {
        proof {
            lemma_encode_prefix_le(carry as nat, digits, k + 1, m as nat);
            assert(digits.take(k + 1).drop_last() =~= digits.take(k as int));
            assert(digits.take(k + 1).last() == row[k as int]);
            assert(index * m <= index * m + row[k as int]);
        }
        index = index * m + row[k];
        k = k + 1;
    }
    assert(digits.take(k as int) =~= digits);
    index
}

} // verus!
