//! Numbers as rows of binary digits.

use vstd::prelude::*;

verus! {

/// Two to the power of `n`.
pub open spec fn two_to(n: nat) -> nat
    decreases n,
{
    if n == 0 {
        1
    } else {
        2 * two_to((n - 1) as nat)
    }
}

/// The number without its lowest `i` binary digits.
pub open spec fn shifted(mask: nat, i: nat) -> nat
    decreases i,
{
    if i == 0 {
        mask
    } else {
        shifted(mask, (i - 1) as nat) / 2
    }
}

/// Binary digit `i` of a number.
pub open spec fn mask_bit(mask: nat, i: nat) -> bool {
    shifted(mask, i) % 2 == 1
}

/// Powers of two grow.
pub proof fn lemma_two_to_grows(i: nat, n: nat)
    requires
        i <= n,
    ensures
        1 <= two_to(i) <= two_to(n),
    decreases n,
{
    if i < n {
        lemma_two_to_grows(i, (n - 1) as nat);
    } else if n > 0 {
        lemma_two_to_grows((i - 1) as nat, (n - 1) as nat);
    }
}

proof fn lemma_shift_step(mask: nat, i: nat)
    ensures
        shifted(mask, i + 1) == shifted(mask / 2, i),
    decreases i,
{
    if i > 0 {
        lemma_shift_step(mask, (i - 1) as nat);
    } else {
        assert(shifted(mask, 1) == shifted(mask, 0) / 2);
    }
}

/// The number with the given binary digits, the lowest first.
pub open spec fn number_of(digits: Seq<bool>) -> nat
    decreases digits.len(),
{
    if digits.len() == 0 {
        0
    } else {
        (if digits[0] {
            1nat
        } else {
            0
        }) + 2 * number_of(digits.drop_first())
    }
}

/// A number has the digits that it is made of.
pub proof fn lemma_number_of(digits: Seq<bool>)
    ensures
        number_of(digits) < two_to(digits.len()),
        forall|i: int| 0 <= i < digits.len() ==> mask_bit(number_of(digits), i as nat) == #[trigger] digits[i],
    decreases digits.len(),
{
    if digits.len() > 0 {
        let rest = digits.drop_first();
        lemma_number_of(rest);
        let m = number_of(digits);
        assert(m / 2 == number_of(rest));
        assert forall|i: int| 0 <= i < digits.len() implies mask_bit(m, i as nat) == #[trigger] digits[i] by {
            if i > 0 {
                lemma_shift_step(m, (i - 1) as nat);
                assert(rest[i - 1] == digits[i]);
            }
        }
    }
}

} // verus!
