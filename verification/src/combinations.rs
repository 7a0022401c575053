//! The subsets of a given size of a pool of small numbers, each as a mask.
use crate::bits::{
    has_bit, lemma_bit_and, lemma_bit_not, lemma_bit_or, lemma_bit_single, lemma_bit_zero,
    lemma_bits_equal,
};
use crate::constants::ON;
use crate::sk_box::flag;
use vstd::prelude::*;

verus! {

/// The mask that holds `d` alone.
pub open spec fn bit_of(d: u16) -> u16 {
    1u16 << d
}

/// The subsets of size `k` of `pool`, each as the mask of its members.
///
/// A subset that holds the first member of the pool comes before one that
/// does not; within each of these two groups the order is that of the
/// subsets of the rest of the pool.
pub open spec fn combinations(pool: Seq<u16>, k: nat) -> Seq<u16>
    decreases pool.len(),
{
    if k == 0 {
        seq![0u16]
    } else if pool.len() < k {
        Seq::empty()
    } else {
        combinations(pool.drop_first(), (k - 1) as nat).map_values(|e: u16| bit_of(pool[0]) | e)
            + combinations(pool.drop_first(), k)
    }
}

/// The number of ways to pick `k` of `n` things.
pub open spec fn binomial(n: nat, k: nat) -> nat
    decreases n,
{
    if k == 0 {
        1
    } else if n < k {
        0
    } else {
        binomial((n - 1) as nat, (k - 1) as nat) + binomial((n - 1) as nat, k)
    }
}

/// How many of the bits below `n` are set in `mask`.
pub open spec fn bits_below(mask: u16, n: int) -> int
    decreases n,
{
    if n <= 0 {
        0
    } else {
        bits_below(mask, n - 1) + flag(has_bit(mask, n - 1))
    }
}

/// How many of the sixteen bits of `mask` are set.
pub open spec fn bit_count(mask: u16) -> int {
    bits_below(mask, 16)
}

/// Whether the members of `pool` are below 16 and no two are the same.
pub open spec fn is_pool(pool: Seq<u16>) -> bool {
    &&& forall|i: int| 0 <= i < pool.len() ==> #[trigger] pool[i] < 16
    &&& forall|i: int, j: int| 0 <= i < j < pool.len() ==> pool[i] != pool[j]
}

/// There are as many subsets of size `k` as the binomial coefficient says.
pub proof fn lemma_combinations_len(pool: Seq<u16>, k: nat)
    ensures
        combinations(pool, k).len() == binomial(pool.len(), k),
    decreases pool.len(),
{
    if k != 0 && pool.len() >= k {
        lemma_combinations_len(pool.drop_first(), (k - 1) as nat);
        lemma_combinations_len(pool.drop_first(), k);
    }
}

/// A pool of nine members has 36 subsets of two and 126 subsets of four.
pub proof fn lemma_nine_choose(pool: Seq<u16>)
    requires
        pool.len() == 9,
    ensures
        combinations(pool, 2).len() == 36,
        combinations(pool, 4).len() == 126,
{
    lemma_combinations_len(pool, 2);
    lemma_combinations_len(pool, 4);
    reveal_with_fuel(binomial, 10);
}

/// Every subset of size `k` that is listed holds members of the pool only,
/// and exactly `k` of them.
pub proof fn lemma_combinations_members(pool: Seq<u16>, k: nat, i: int)
    requires
        is_pool(pool),
        0 <= i < combinations(pool, k).len(),
    ensures
        bit_count(combinations(pool, k)[i]) == k,
        forall|d: int| has_bit(combinations(pool, k)[i], d) ==> pool.contains(d as u16),
    decreases pool.len(),
{
    let e = combinations(pool, k)[i];
    if k == 0 {
        lemma_no_bits();
        assert forall|d: int| !has_bit(e, d) by {
            lemma_bit_zero(d);
        }
    } else {
        let rest = pool.drop_first();
        let with_first = combinations(rest, (k - 1) as nat);
        assert forall|a: int, b: int| 0 <= a < b < rest.len() implies rest[a] != rest[b] by {
            assert(rest[a] == pool[a + 1] && rest[b] == pool[b + 1]);
        }
        assert forall|a: int| 0 <= a < rest.len() implies #[trigger] rest[a] < 16 by {
            assert(rest[a] == pool[a + 1]);
        }
        if i < with_first.len() {
            let f = with_first[i];
            lemma_combinations_members(rest, (k - 1) as nat, i);
            assert(e == bit_of(pool[0]) | f);
            assert(!has_bit(f, pool[0] as int)) by {
                if has_bit(f, pool[0] as int) {
                    let a = choose|a: int| 0 <= a < rest.len() && rest[a] == pool[0];
                    assert(pool[a + 1] == pool[0]);
                }
            }
            lemma_one_more_bit(f, pool[0]);
            assert forall|d: int| has_bit(e, d) implies pool.contains(d as u16) by {
                lemma_bit_or(bit_of(pool[0]), f, d);
                lemma_bit_single(pool[0], d);
                if d == pool[0] {
                    assert(pool[0] == d as u16);
                } else {
                    let a = choose|a: int| 0 <= a < rest.len() && rest[a] == d as u16;
                    assert(pool[a + 1] == d as u16);
                }
            }
        } else {
            lemma_combinations_members(rest, k, i - with_first.len());
            assert(e == combinations(rest, k)[i - with_first.len()]);
            assert forall|d: int| has_bit(e, d) implies pool.contains(d as u16) by {
                let a = choose|a: int| 0 <= a < rest.len() && rest[a] == d as u16;
                assert(pool[a + 1] == d as u16);
            }
        }
    }
}

/// The empty mask has no bit set.
pub proof fn lemma_no_bits()
    ensures
        bit_count(0) == 0,
{
    lemma_no_bits_below(16);
}

proof fn lemma_no_bits_below(n: int)
    ensures
        bits_below(0, n) == 0,
    decreases n,
{
    if n > 0 {
        lemma_no_bits_below(n - 1);
        lemma_bit_zero(n - 1);
    }
}

/// Setting a bit that was clear raises the number of bits by one.
pub proof fn lemma_one_more_bit(mask: u16, d: u16)
    requires
        d < 16,
        !has_bit(mask, d as int),
    ensures
        bit_count(bit_of(d) | mask) == bit_count(mask) + 1,
{
    lemma_one_more_bit_below(mask, d, 16);
}

proof fn lemma_one_more_bit_below(mask: u16, d: u16, n: int)
    requires
        d < 16,
        !has_bit(mask, d as int),
        n <= 16,
    ensures
        bits_below(bit_of(d) | mask, n) == bits_below(mask, n) + flag(d < n),
    decreases n,
{
    if n > 0 {
        lemma_one_more_bit_below(mask, d, n - 1);
        lemma_bit_or(bit_of(d), mask, n - 1);
        lemma_bit_single(d, n - 1);
    }
}

/// Clearing a bit that was set lowers the number of bits by one.
pub proof fn lemma_one_less_bit(mask: u16, d: u16)
    requires
        d < 16,
        has_bit(mask, d as int),
    ensures
        bit_count(mask & !bit_of(d)) == bit_count(mask) - 1,
        !has_bit(mask & !bit_of(d), d as int),
        mask == bit_of(d) | (mask & !bit_of(d)),
{
    let rest = mask & !bit_of(d);
    assert forall|e: int| 0 <= e < 16 implies has_bit(rest, e) == (has_bit(mask, e) && e != d) by {
        lemma_bit_and(mask, !bit_of(d), e);
        lemma_bit_not(bit_of(d), e);
        lemma_bit_single(d, e);
    }
    assert forall|e: int| 0 <= e < 16 implies has_bit(mask, e) == has_bit(bit_of(d) | rest, e) by {
        lemma_bit_or(bit_of(d), rest, e);
        lemma_bit_single(d, e);
    }
    lemma_bits_equal(mask, bit_of(d) | rest);
    lemma_one_more_bit(rest, d);
}

/// A mask without bits is the empty mask.
pub proof fn lemma_no_bits_is_zero(mask: u16)
    requires
        bit_count(mask) == 0,
    ensures
        mask == 0,
{
    assert forall|e: int| 0 <= e < 16 implies has_bit(mask, e) == has_bit(0, e) by {
        lemma_bit_zero(e);
        lemma_bit_counted(mask, e, 16);
    }
    lemma_bits_equal(mask, 0);
}

/// A bit that is set is counted.
proof fn lemma_bit_counted(mask: u16, e: int, n: int)
    requires
        0 <= e < n <= 16,
    ensures
        bits_below(mask, n) >= flag(has_bit(mask, e)),
        bits_below(mask, e) >= 0,
    decreases n,
{
    if e < n - 1 {
        lemma_bit_counted(mask, e, n - 1);
    } else {
        lemma_bits_nonneg(mask, e);
    }
}

proof fn lemma_bits_nonneg(mask: u16, n: int)
    ensures
        bits_below(mask, n) >= 0,
    decreases n,
{
    if n > 0 {
        lemma_bits_nonneg(mask, n - 1);
    }
}

/// A mask with a bit has one that is set.
proof fn lemma_some_bit(mask: u16, n: int)
    requires
        bits_below(mask, n) > 0,
        n <= 16,
    ensures
        exists|e: int| 0 <= e < n && has_bit(mask, e),
    decreases n,
{
    if n > 0 {
        if has_bit(mask, n - 1) {
        } else {
            lemma_some_bit(mask, n - 1);
            let e = choose|e: int| 0 <= e < n - 1 && has_bit(mask, e);
            assert(has_bit(mask, e));
        }
    }
}

/// The members of the pool after the first are a pool, and hold of the
/// members of the pool all but the first.
proof fn lemma_rest_of_pool(pool: Seq<u16>)
    requires
        is_pool(pool),
        pool.len() > 0,
    ensures
        is_pool(pool.drop_first()),
        !pool.drop_first().contains(pool[0]),
        forall|d: u16| pool.contains(d) && d != pool[0] ==> pool.drop_first().contains(d),
        forall|d: u16| pool.drop_first().contains(d) ==> pool.contains(d),
{
    let rest = pool.drop_first();
    assert forall|a: int, b: int| 0 <= a < b < rest.len() implies rest[a] != rest[b] by {
        assert(rest[a] == pool[a + 1] && rest[b] == pool[b + 1]);
    }
    assert forall|a: int| 0 <= a < rest.len() implies #[trigger] rest[a] < 16 by {
        assert(rest[a] == pool[a + 1]);
    }
    if rest.contains(pool[0]) {
        let a = choose|a: int| 0 <= a < rest.len() && rest[a] == pool[0];
        assert(pool[a + 1] == pool[0]);
    }
    assert forall|d: u16| pool.contains(d) && d != pool[0] implies rest.contains(d) by {
        let a = choose|a: int| 0 <= a < pool.len() && pool[a] == d;
        assert(rest[a - 1] == d);
    }
    assert forall|d: u16| rest.contains(d) implies pool.contains(d) by {
        let a = choose|a: int| 0 <= a < rest.len() && rest[a] == d;
        assert(pool[a + 1] == d);
    }
}

/// Every subset of size `k` of the pool is listed: every mask of `k` bits
/// that holds members of the pool only.
pub proof fn lemma_combinations_complete(pool: Seq<u16>, k: nat, mask: u16)
    requires
        is_pool(pool),
        bit_count(mask) == k,
        forall|d: int| has_bit(mask, d) ==> pool.contains(d as u16),
    ensures
        combinations(pool, k).contains(mask),
    decreases pool.len(),
{
    if k == 0 {
        lemma_no_bits_is_zero(mask);
        assert(combinations(pool, k)[0] == mask);
    } else if pool.len() == 0 {
        lemma_some_bit(mask, 16);
        let e = choose|e: int| 0 <= e < 16 && has_bit(mask, e);
        assert(pool.contains(e as u16));
    } else {
        let rest = pool.drop_first();
        lemma_rest_of_pool(pool);
        let with_first = combinations(rest, (k - 1) as nat).map_values(
            |e: u16| bit_of(pool[0]) | e,
        );
        let without = combinations(rest, k);
        if has_bit(mask, pool[0] as int) {
            let less = mask & !bit_of(pool[0]);
            lemma_one_less_bit(mask, pool[0]);
            assert forall|d: int| has_bit(less, d) implies rest.contains(d as u16) by {
                lemma_bit_and(mask, !bit_of(pool[0]), d);
                assert(pool.contains(d as u16));
            }
            lemma_combinations_complete(rest, (k - 1) as nat, less);
            let smaller = combinations(rest, (k - 1) as nat);
            let i = choose|i: int| 0 <= i < smaller.len() && smaller[i] == less;
            assert(with_first[i] == mask);
            assert(rest.len() >= k - 1);
            assert(combinations(pool, k)[i] == mask);
        } else {
            assert forall|d: int| has_bit(mask, d) implies rest.contains(d as u16) by {
                assert(pool.contains(d as u16));
            }
            lemma_combinations_complete(rest, k, mask);
            let i = choose|i: int| 0 <= i < without.len() && without[i] == mask;
            assert(rest.len() >= k);
            assert(combinations(pool, k)[with_first.len() + i] == mask);
        }
    }
}

/// No subset is listed twice.
pub proof fn lemma_combinations_distinct(pool: Seq<u16>, k: nat)
    requires
        is_pool(pool),
    ensures
        combinations(pool, k).no_duplicates(),
    decreases pool.len(),
{
    let all = combinations(pool, k);
    if k != 0 && pool.len() >= k {
        let rest = pool.drop_first();
        lemma_rest_of_pool(pool);
        let smaller = combinations(rest, (k - 1) as nat);
        lemma_combinations_distinct(rest, (k - 1) as nat);
        lemma_combinations_distinct(rest, k);
        assert forall|i: int, j: int| 0 <= i < all.len() && 0 <= j < all.len() && i != j implies all[i]
            != all[j] by {
            if i < smaller.len() {
                lemma_combinations_members(rest, (k - 1) as nat, i);
                lemma_bit_or(bit_of(pool[0]), smaller[i], pool[0] as int);
                lemma_bit_single(pool[0], pool[0] as int);
                lemma_one_less_bit(all[i], pool[0]);
            } else {
                lemma_combinations_members(rest, k, i - smaller.len());
            }
            if j < smaller.len() {
                lemma_combinations_members(rest, (k - 1) as nat, j);
                lemma_bit_or(bit_of(pool[0]), smaller[j], pool[0] as int);
                lemma_bit_single(pool[0], pool[0] as int);
                lemma_one_less_bit(all[j], pool[0]);
            } else {
                lemma_combinations_members(rest, k, j - smaller.len());
            }
            if i < smaller.len() && j < smaller.len() {
                lemma_without_first(smaller[i], pool[0]);
                lemma_without_first(smaller[j], pool[0]);
                assert(smaller[i] != smaller[j]);
            }
        }
    }
}

/// Setting a bit that was clear and clearing it again gives the mask back.
proof fn lemma_without_first(mask: u16, d: u16)
    requires
        d < 16,
        !has_bit(mask, d as int),
    ensures
        (bit_of(d) | mask) & !bit_of(d) == mask,
{
    assert forall|e: int| 0 <= e < 16 implies has_bit((bit_of(d) | mask) & !bit_of(d), e) == has_bit(
        mask,
        e,
    ) by {
        lemma_bit_and(bit_of(d) | mask, !bit_of(d), e);
        lemma_bit_not(bit_of(d), e);
        lemma_bit_or(bit_of(d), mask, e);
        lemma_bit_single(d, e);
    }
    lemma_bits_equal((bit_of(d) | mask) & !bit_of(d), mask);
}

/// The subsets of size `k` of `pool`, each as the mask in which the bit of
/// every member is set. Those that hold an earlier member of the pool come
/// first.
pub fn combo(pool: &[u16], k: u16) -> (result: Vec<u16>)
    requires
        1 <= k,
        pool.len() <= u16::MAX,
        forall|i: int| 0 <= i < pool.len() ==> #[trigger] pool[i] < 16,
    ensures
        result@ == combinations(pool@, k as nat),
    decreases pool.len(),
{
    let mut result: Vec<u16> = Vec::new();

    if k > (pool.len() as u16) {
        return result;
    }
    let mut i: usize = 0;
    proof {
        assert(pool@.subrange(0, pool.len() as int) =~= pool@);
        assert(result@ + combinations(pool@, k as nat) =~= combinations(pool@, k as nat));
    }
    while i < pool.len()
        invariant
            0 <= i <= pool.len(),
            1 <= k,
            pool.len() <= u16::MAX,
            forall|j: int| 0 <= j < pool.len() ==> #[trigger] pool[j] < 16,
            result@ + combinations(pool@.subrange(i as int, pool.len() as int), k as nat)
                == combinations(pool@, k as nat),
        decreases pool.len() - i,
    {
        let ghost here = pool@.subrange(i as int, pool.len() as int);
        let ghost rest = pool@.subrange(i as int + 1, pool.len() as int);
        let ghost before = result@;
        let base_bit_pattern = ON << pool[i];
        proof {
            assert(here.drop_first() =~= rest);
            assert(here[0] == pool[i as int]);
        }
        if k == 1 {
            result.push(base_bit_pattern);
            proof {
                assert(base_bit_pattern | 0 == base_bit_pattern) by (bit_vector);
                assert(combinations(rest, 0) =~= seq![0u16]);
                assert(combinations(rest, 0).map_values(|e: u16| bit_of(here[0]) | e) =~= seq![
                    base_bit_pattern,
                ]);
                assert(result@ + combinations(rest, 1) =~= before + combinations(here, 1));
            }
        } else {
            let subresults = combo(vstd::slice::slice_subrange(pool, i + 1, pool.len()), k - 1);
            let ghost heads = subresults@.map_values(|e: u16| bit_of(here[0]) | e);
            let mut j: usize = 0;
            while j < subresults.len()
                invariant
                    0 <= j <= subresults.len(),
                    here.len() > 0,
                    base_bit_pattern == bit_of(here[0]),
                    heads == subresults@.map_values(|e: u16| bit_of(here[0]) | e),
                    result@ == before + heads.subrange(0, j as int),
                decreases subresults.len() - j,
            {
                result.push(base_bit_pattern | subresults[j]);
                proof {
                    assert(heads.subrange(0, j as int + 1) =~= heads.subrange(0, j as int).push(
                        heads[j as int],
                    ));
                }
                j += 1;
            }
            proof {
                assert(heads.subrange(0, j as int) =~= heads);
                if here.len() < k {
                    assert(heads.len() == 0);
                    assert(combinations(rest, k as nat).len() == 0);
                    assert(result@ + combinations(rest, k as nat) =~= before + combinations(
                        here,
                        k as nat,
                    ));
                } else {
                    assert(result@ + combinations(rest, k as nat) =~= before + combinations(
                        here,
                        k as nat,
                    ));
                }
            }
        }
        i += 1;
    }
    proof {
        assert(pool@.subrange(pool.len() as int, pool.len() as int).len() == 0);
        assert(result@ + Seq::<u16>::empty() =~= result@);
    }
    result
}

} // verus!
