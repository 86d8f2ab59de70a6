//! The smallest cartridge that holds a given number of banks.

use vstd::arithmetic::power::{lemma_pow_positive, pow};
use vstd::arithmetic::power2::{is_pow2, is_pow2_equiv, lemma2_to64};
use vstd::prelude::*;

verus! {

/// The least power of two that is greater than `max_bank`, which is the
/// number of banks of the smallest cartridge whose banks `0..=max_bank`
/// all exist.
pub open spec fn cart_size(max_bank: nat) -> nat
    decreases max_bank,
{
    if max_bank == 0 {
        1
    } else {
        2 * cart_size(max_bank / 2)
    }
}

/// `cart_size(max_bank)` is a power of two.
pub proof fn lemma_cart_size_is_power_of_two(max_bank: nat)
    ensures
        is_pow2(cart_size(max_bank) as int),
    decreases max_bank,
{
    reveal(is_pow2);
    if max_bank != 0 {
        lemma_cart_size_is_power_of_two(max_bank / 2);
    }
}

/// `cart_size(max_bank)` has room for the banks `0..=max_bank`.
pub proof fn lemma_cart_size_holds_all_banks(max_bank: nat)
    ensures
        cart_size(max_bank) >= max_bank + 1,
    decreases max_bank,
{
    if max_bank != 0 {
        lemma_cart_size_holds_all_banks(max_bank / 2);
    }
}

/// No power of two with room for the banks `0..=max_bank` is smaller than
/// `cart_size(max_bank)`.
pub proof fn lemma_cart_size_is_least(max_bank: nat, p: int)
    requires
        is_pow2(p),
        p >= max_bank + 1,
    ensures
        cart_size(max_bank) <= p,
    decreases max_bank,
{
    reveal(is_pow2);
    if max_bank != 0 {
        lemma_cart_size_is_least(max_bank / 2, p / 2);
    }
}

/// A larger highest bank never needs a smaller cartridge.
pub proof fn lemma_cart_size_monotonic(a: nat, b: nat)
    requires
        a <= b,
    ensures
        cart_size(a) <= cart_size(b),
{
    lemma_cart_size_is_power_of_two(b);
    lemma_cart_size_holds_all_banks(b);
    lemma_cart_size_is_least(a, cart_size(b) as int);
}

/// The number of banks of the smallest cartridge that has a bank numbered
/// `max_bank`: the least power of two that is at least `max_bank + 1`.
///
/// The result has to fit in 32 bits, so `max_bank` stays below `2^31`.
pub fn to_cart_size(max_bank: u32) -> (size: u32)
    requires
        max_bank < 0x8000_0000,
    ensures
        size == cart_size(max_bank as nat),
        is_pow2(size as int),
        size >= max_bank + 1,
        forall|p: int| is_pow2(p) && p >= max_bank + 1 ==> size <= p,
{
    let mut size: u32 = 1;
    let mut rest: u32 = max_bank;
    proof {
        assert(is_pow2(0x8000_0000int)) by {
            lemma2_to64();
            lemma_pow_positive(2, 31);
            assert(pow(2, 31) == 0x8000_0000int);
            is_pow2_equiv(0x8000_0000int);
        }
        lemma_cart_size_is_least(max_bank as nat, 0x8000_0000int);
    }
    while rest > 0
        invariant
            size * cart_size(rest as nat) == cart_size(max_bank as nat),
            cart_size(max_bank as nat) <= 0x8000_0000,
            size >= 1,
        decreases rest,
    {
        proof {
            lemma_cart_size_holds_all_banks((rest / 2) as nat);
            assert(size * cart_size(rest as nat) == (2 * size) * cart_size((rest / 2) as nat))
                by (nonlinear_arith)
                requires
                    cart_size(rest as nat) == 2 * cart_size((rest / 2) as nat),
            ;
            assert(2 * size <= (2 * size) * cart_size((rest / 2) as nat)) by (nonlinear_arith)
                requires
                    cart_size((rest / 2) as nat) >= 1,
                    size >= 1,
            ;
        }
        size = size * 2;
        rest = rest / 2;
    }
    proof {
        assert(size * cart_size(rest as nat) == size) by (nonlinear_arith)
            requires
                cart_size(rest as nat) == 1,
        ;
        lemma_cart_size_is_power_of_two(max_bank as nat);
        lemma_cart_size_holds_all_banks(max_bank as nat);
        assert forall|p: int| is_pow2(p) && p >= max_bank + 1 implies size <= p by {
            lemma_cart_size_is_least(max_bank as nat, p);
        }
    }
    size
}

} // verus!
