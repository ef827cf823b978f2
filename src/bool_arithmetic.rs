use vstd::prelude::*;

use vstd::arithmetic::power2::{lemma2_to64, lemma_pow2_unfold, pow2};

use crate::bool_logic::{
    all_signals, and, bits_value, high, is_signal, is_word, lemma_bits_value_concat, wire, xor,
};

verus! {

/// The `len` low bits of `n`, most significant first.
pub open spec fn to_bits(n: nat, len: nat) -> Seq<u8>
    decreases len,
{
    if len == 0 {
        Seq::empty()
    } else {
        to_bits(n / 2, (len - 1) as nat).push(wire(n % 2 == 1))
    }
}

/// The 16-bit word one above `w`, wrapping from all ones to all zeros.
pub open spec fn increment_word(w: Seq<u8>) -> Seq<u8> {
    to_bits((bits_value(w) + 1) % 0x10000, 16)
}

/// A vector of `n` bits has a value below `2^n`.
pub proof fn lemma_bits_value_bound(w: Seq<u8>)
    ensures
        bits_value(w) < pow2(w.len()),
    decreases w.len(),
{
    if w.len() == 0 {
        lemma2_to64();
    } else {
        lemma_bits_value_bound(w.drop_last());
        lemma_pow2_unfold(w.len());
    }
}

/// A vector of signals is the bit pattern of its own value.
pub proof fn lemma_to_bits_of_value(w: Seq<u8>)
    requires
        all_signals(w),
    ensures
        to_bits(bits_value(w), w.len()) == w,
    decreases w.len(),
{
    if w.len() > 0 {
        let init = w.drop_last();
        assert(all_signals(init)) by {
            assert forall|i: int| 0 <= i < init.len() implies is_signal(#[trigger] init[i]) by {
                assert(init[i] == w[i]);
            }
        }
        lemma_to_bits_of_value(init);
        let v = bits_value(w);
        let last = wire(high(w.last()));
        assert(v == 2 * bits_value(init) + last);
        assert(v / 2 == bits_value(init));
        assert(wire(v % 2 == 1) == w.last()) by {
            assert(is_signal(w[w.len() - 1]));
        }
        assert(to_bits(v, w.len()) =~= w);
    }
}

/// Adds one to a 16-bit word by a ripple of half adders from the least significant bit.
pub fn incrementer(input: &[u8; 16]) -> (r: [u8; 16])
    ensures
        r@ == increment_word(input@),
        is_word(r@),
{
    let mut result: [u8; 16] = [0; 16];
    let mut carry: u8 = 1;
    let mut i: usize = 16;
    proof {
        lemma2_to64();
        assert(result@.subrange(16, 16) =~= Seq::<u8>::empty());
        assert(input@.subrange(16, 16) =~= Seq::<u8>::empty());
    }
    while i > 0
        invariant
            i <= 16,
            is_signal(carry),
            forall|j: int| i <= j < 16 ==> is_signal(#[trigger] result[j]),
            bits_value(result@.subrange(i as int, 16)) + carry * pow2((16 - i) as nat)
                == bits_value(input@.subrange(i as int, 16)) + 1,
        decreases i,
    {
        i = i - 1;
        let ghost old_result = result@;
        let ghost c = carry as int;
        let x = input[i];
        result[i] = xor(x, carry);
        carry = and(x, carry);
        proof {
            let p = pow2((15 - i) as nat);
            lemma_pow2_unfold((16 - i) as nat);
            let rest_r = result@.subrange(i + 1, 16);
            let rest_i = input@.subrange(i + 1, 16);
            assert(rest_r =~= old_result.subrange(i + 1, 16));
            assert(result@.subrange(i as int, 16) =~= seq![result[i as int]] + rest_r);
            assert(input@.subrange(i as int, 16) =~= seq![x] + rest_i);
            lemma_bits_value_concat(seq![result[i as int]], rest_r);
            lemma_bits_value_concat(seq![x], rest_i);
            reveal_with_fuel(bits_value, 2);
            assert(seq![x].drop_last() =~= Seq::<u8>::empty());
            assert(seq![result[i as int]].drop_last() =~= Seq::<u8>::empty());
            let xv = wire(high(x)) as int;
            let s = result[i as int] as int;
            let c2 = carry as int;
            assert(s + 2 * c2 == xv + c);
            assert(s * p + c2 * (2 * p) == xv * p + c * p) by (nonlinear_arith)
                requires
                    s + 2 * c2 == xv + c,
            ;
        }
    }
    proof {
        assert(result@.subrange(0, 16) =~= result@);
        assert(input@.subrange(0, 16) =~= input@);
        lemma_bits_value_bound(result@);
        lemma_bits_value_bound(input@);
        lemma2_to64();
        let rv = bits_value(result@);
        let iv = bits_value(input@);
        assert(i == 0);
        assert(rv + carry * 0x10000 == iv + 1);
        if carry == 1 {
            assert(rv == 0 && iv == 0xffff);
        }
        assert(bits_value(result@) == (bits_value(input@) + 1) % 0x10000);
        assert(all_signals(result@));
        lemma_to_bits_of_value(result@);
    }
    result
}

} // verus!
