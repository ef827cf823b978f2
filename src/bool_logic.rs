use vstd::prelude::*;

use vstd::arithmetic::power2::{lemma2_to64, lemma_pow2_unfold, pow2};

verus! {

/// The logic level a wire carries: only the value 1 reads as high.
pub open spec fn high(x: u8) -> bool {
    x == 1
}

/// The wire value that carries a logic level.
pub open spec fn wire(b: bool) -> u8 {
    if b {
        1
    } else {
        0
    }
}

/// A signal is a wire value in {0, 1}.
pub open spec fn is_signal(x: u8) -> bool {
    x <= 1
}

/// Every lane of `w` carries a signal.
pub open spec fn all_signals(w: Seq<u8>) -> bool {
    forall|i: int| 0 <= i < w.len() ==> is_signal(#[trigger] w[i])
}

/// A 16-bit data word: sixteen signals, most significant first.
pub open spec fn is_word(w: Seq<u8>) -> bool {
    w.len() == 16 && all_signals(w)
}

/// The unsigned value of a bit vector read most significant bit first.
pub open spec fn bits_value(w: Seq<u8>) -> nat
    decreases w.len(),
{
    if w.len() == 0 {
        0
    } else {
        2 * bits_value(w.drop_last()) + wire(high(w.last())) as nat
    }
}

pub open spec fn nand_spec(x: u8, y: u8) -> u8 {
    wire(!(high(x) && high(y)))
}

pub open spec fn not_spec(x: u8) -> u8 {
    wire(!high(x))
}

pub open spec fn and_spec(x: u8, y: u8) -> u8 {
    wire(high(x) && high(y))
}

pub open spec fn or_spec(x: u8, y: u8) -> u8 {
    wire(high(x) || high(y))
}

pub open spec fn nor_spec(x: u8, y: u8) -> u8 {
    wire(!(high(x) || high(y)))
}

pub open spec fn xor_spec(x: u8, y: u8) -> u8 {
    wire(high(x) != high(y))
}

/// `x` when `sel` is low, `y` when it is high.
pub open spec fn mux_spec(x: u8, y: u8, sel: u8) -> u8 {
    if high(sel) {
        wire(high(y))
    } else {
        wire(high(x))
    }
}

/// The universal primitive: low exactly when both inputs are high.
pub fn nand(x: u8, y: u8) -> (z: u8)
    ensures
        z == nand_spec(x, y),
{
    if x == 1 && y == 1 {
        0
    } else {
        1
    }
}

pub fn not(x: u8) -> (z: u8)
    ensures
        z == not_spec(x),
{
    nand(x, x)
}

pub fn and(x: u8, y: u8) -> (z: u8)
    ensures
        z == and_spec(x, y),
{
    not(nand(x, y))
}

pub fn or(x: u8, y: u8) -> (z: u8)
    ensures
        z == or_spec(x, y),
{
    nand(not(x), not(y))
}

pub fn nor(x: u8, y: u8) -> (z: u8)
    ensures
        z == nor_spec(x, y),
{
    not(or(x, y))
}

/// The four-NAND exclusive-or network.
pub fn xor(x: u8, y: u8) -> (z: u8)
    ensures
        z == xor_spec(x, y),
{
    let n = nand(x, y);
    nand(nand(x, n), nand(n, y))
}

pub fn mux(x: u8, y: u8, sel: u8) -> (z: u8)
    ensures
        z == mux_spec(x, y, sel),
{
    let selector = not(sel);
    let a = and(x, selector);
    let b = and(y, sel);
    or(a, b)
}

/// Routes `input` to lane 0 when `sel` is low and to lane 1 when it is high;
/// the other lane stays low.
pub fn dmux(input: u8, sel: u8) -> (r: [u8; 2])
    ensures
        r[0] == and_spec(input, not_spec(sel)),
        r[1] == and_spec(input, sel),
{
    let mut result: [u8; 2] = [0; 2];
    result[0] = and(input, not(sel));
    result[1] = and(input, sel);
    result
}

/// Lane-wise conjunction of two 16-bit vectors.
pub fn and_16bit(x_arr: &[u8; 16], y_arr: &[u8; 16]) -> (r: [u8; 16])
    ensures
        forall|i: int| 0 <= i < 16 ==> r[i] == and_spec(x_arr[i], y_arr[i]),
{
    let mut result: [u8; 16] = [0; 16];
    for i in 0..16
        invariant
            forall|j: int| 0 <= j < i ==> result[j] == and_spec(x_arr[j], y_arr[j]),
    {
        result[i] = and(x_arr[i], y_arr[i]);
    }
    result
}

/// Lane-wise selection between two 16-bit vectors by one shared selector.
pub fn mux_16bit(x_arr: &[u8; 16], y_arr: &[u8; 16], sel: u8) -> (r: [u8; 16])
    ensures
        forall|i: int| 0 <= i < 16 ==> r[i] == mux_spec(x_arr[i], y_arr[i], sel),
{
    let mut result: [u8; 16] = [0; 16];
    for i in 0..16
        invariant
            forall|j: int| 0 <= j < i ==> result[j] == mux_spec(x_arr[j], y_arr[j], sel),
    {
        result[i] = mux(x_arr[i], y_arr[i], sel);
    }
    result
}

/// A three-bit selector read most significant bit first.
pub proof fn lemma_selector_value(sel: Seq<u8>)
    requires
        sel.len() == 3,
    ensures
        bits_value(sel) == 4 * wire(high(sel[0])) + 2 * wire(high(sel[1])) + wire(high(sel[2])),
{
    reveal_with_fuel(bits_value, 4);
    assert(sel.drop_last().drop_last().drop_last().len() == 0);
}

/// Routes `input` to the one lane of eight that `sel` addresses; the others stay low.
pub fn dmux_8way(input: u8, sel: &[u8; 3]) -> (r: [u8; 8])
    ensures
        forall|i: int|
            0 <= i < 8 ==> r[i] == if i == bits_value(sel@) {
                wire(high(input))
            } else {
                0
            },
{
    proof {
        lemma_selector_value(sel@);
    }
    let top = dmux(input, sel[0]);
    let a = dmux(top[0], sel[1]);
    let b = dmux(top[1], sel[1]);
    let a0 = dmux(a[0], sel[2]);
    let a1 = dmux(a[1], sel[2]);
    let b0 = dmux(b[0], sel[2]);
    let b1 = dmux(b[1], sel[2]);
    [a0[0], a0[1], a1[0], a1[1], b0[0], b0[1], b1[0], b1[1]]
}

/// Selects the whole 16-bit vector that `sel` addresses among eight.
pub fn mux_8way_16bit(words: &[[u8; 16]; 8], sel: &[u8; 3]) -> (r: [u8; 16])
    ensures
        forall|i: int| 0 <= i < 16 ==> r[i] == wire(high(words[bits_value(sel@) as int][i])),
{
    proof {
        lemma_selector_value(sel@);
    }
    let m01 = mux_16bit(&words[0], &words[1], sel[2]);
    let m23 = mux_16bit(&words[2], &words[3], sel[2]);
    let m45 = mux_16bit(&words[4], &words[5], sel[2]);
    let m67 = mux_16bit(&words[6], &words[7], sel[2]);
    let lo = mux_16bit(&m01, &m23, sel[1]);
    let hi = mux_16bit(&m45, &m67, sel[1]);
    mux_16bit(&lo, &hi, sel[0])
}

/// The value of a concatenation: the high part shifted past the low part.
pub proof fn lemma_bits_value_concat(hi: Seq<u8>, lo: Seq<u8>)
    ensures
        bits_value(hi + lo) == bits_value(hi) * pow2(lo.len()) + bits_value(lo),
    decreases lo.len(),
{
    if lo.len() == 0 {
        assert(hi + lo =~= hi);
        lemma2_to64();
    } else {
        let n = lo.len();
        assert((hi + lo).drop_last() =~= hi + lo.drop_last());
        lemma_bits_value_concat(hi, lo.drop_last());
        lemma_pow2_unfold(n);
        let a = bits_value(hi);
        let p = pow2((n - 1) as nat);
        let b = bits_value(lo.drop_last());
        assert((hi + lo).last() == lo.last());
        assert(bits_value(hi + lo) == 2 * bits_value(hi + lo.drop_last()) + wire(high(lo.last())));
        assert(bits_value(lo) == 2 * b + wire(high(lo.last())));
        assert(2 * (a * p + b) == a * (2 * p) + 2 * b) by (nonlinear_arith);
    }
}

/// On signals every gate follows its truth table, written here in arithmetic form:
/// NAND is low only for two high inputs, and NOT, AND, OR, NOR and XOR are the
/// complement, product, inclusive sum, complemented sum and sum modulo two.
pub proof fn lemma_gate_truth_tables(x: u8, y: u8)
    requires
        is_signal(x),
        is_signal(y),
    ensures
        nand_spec(x, y) == if x == 1 && y == 1 {
            0u8
        } else {
            1u8
        },
        not_spec(x) == 1 - x,
        and_spec(x, y) == x * y,
        or_spec(x, y) == x + y - x * y,
        nor_spec(x, y) == 1 - (x + y - x * y),
        xor_spec(x, y) == (x + y) % 2,
{
    if x == 0 {
        assert(x * y == 0);
    } else {
        assert(x == 1);
        assert(x * y == y);
    }
}

/// Every derived gate is its NAND-only network, on any wire values.
pub proof fn lemma_gates_reduce_to_nand(x: u8, y: u8, sel: u8)
    ensures
        not_spec(x) == nand_spec(x, x),
        and_spec(x, y) == nand_spec(nand_spec(x, y), nand_spec(x, y)),
        or_spec(x, y) == nand_spec(nand_spec(x, x), nand_spec(y, y)),
        nor_spec(x, y) == not_spec(or_spec(x, y)),
        xor_spec(x, y) == nand_spec(nand_spec(x, nand_spec(x, y)), nand_spec(nand_spec(x, y), y)),
        mux_spec(x, y, sel) == or_spec(and_spec(x, not_spec(sel)), and_spec(y, sel)),
{
}

/// A multiplexer passes its first input on a low selector and its second on a high one.
pub proof fn lemma_mux_selects(x: u8, y: u8, sel: u8)
    requires
        is_signal(x),
        is_signal(y),
        is_signal(sel),
    ensures
        sel == 0 ==> mux_spec(x, y, sel) == x,
        sel == 1 ==> mux_spec(x, y, sel) == y,
{
}

/// The two lanes of a demultiplexer are `input * (1 - sel)` and `input * sel`, and they
/// add up to `input`.
pub proof fn lemma_dmux_lanes(input: u8, sel: u8)
    requires
        is_signal(input),
        is_signal(sel),
    ensures
        and_spec(input, not_spec(sel)) == input * (1 - sel),
        and_spec(input, sel) == input * sel,
        and_spec(input, not_spec(sel)) + and_spec(input, sel) == input,
{
    if sel == 0 {
        assert(input * sel == 0 && input * (1 - sel) == input);
    } else {
        assert(sel == 1);
        assert(input * sel == input && input * (1 - sel) == 0);
    }
}

} // verus!
