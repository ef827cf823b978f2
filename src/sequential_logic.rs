use vstd::prelude::*;

use vstd::arithmetic::power2::lemma2_to64;

use crate::bool_arithmetic::{increment_word, incrementer};
use crate::bool_logic::{
    bits_value, dmux_8way, high, is_word, lemma_bits_value_concat, lemma_selector_value, mux,
    mux_16bit, mux_8way_16bit, mux_spec,
};

verus! {

/// What sixteen bit cells hold after one tick that fed them `input` under `load`:
/// each lane keeps its value when `load` is low and takes the input when it is high.
pub open spec fn latch_word(held: Seq<u8>, input: Seq<u8>, load: u8) -> Seq<u8> {
    Seq::new(16, |i: int| mux_spec(held[i], input[i], load))
}

/// The all-zero word.
pub open spec fn zero_word() -> Seq<u8> {
    Seq::new(16, |i: int| 0u8)
}

/// A memory of words after one tick that latched `input` under `load` at address `a`.
pub open spec fn ram_next(mem: Seq<Seq<u8>>, a: int, input: Seq<u8>, load: u8) -> Seq<Seq<u8>> {
    mem.update(a, latch_word(mem[a], input, load))
}

/// The word a program counter offers its register: reset wins over load, load over
/// increment, and with none of them the input passes unchanged.
pub open spec fn pc_target(input: Seq<u8>, load: u8, reset: u8, inc: u8) -> Seq<u8> {
    if high(reset) {
        zero_word()
    } else if high(load) {
        input
    } else if high(inc) {
        increment_word(input)
    } else {
        input
    }
}

/// What a program counter holds after one tick: the register latches the chosen word
/// only when `load` is high.
pub open spec fn pc_next(held: Seq<u8>, input: Seq<u8>, load: u8, reset: u8, inc: u8) -> Seq<u8> {
    if high(load) {
        pc_target(input, load, reset, inc)
    } else {
        held
    }
}

/// The outputs of a storage cell that holds `held` and is fed `inputs`, one per tick:
/// each tick hands out what the cell holds and stores the tick's input.
pub open spec fn dff_outputs(held: u8, inputs: Seq<u8>) -> Seq<u8>
    decreases inputs.len(),
{
    if inputs.len() == 0 {
        Seq::empty()
    } else {
        seq![held] + dff_outputs(inputs[0], inputs.subrange(1, inputs.len() as int))
    }
}

/// Edge-triggered storage cell: a unit delay.
pub struct Dff {
    pre_value: u8,
}

impl View for Dff {
    type V = u8;

    closed spec fn view(&self) -> u8 {
        self.pre_value
    }
}

impl Dff {
    pub fn new(init_status: u8) -> (r: Dff)
        ensures
            r@ == init_status,
    {
        Dff { pre_value: init_status }
    }

    /// Returns what the cell held and stores `change` in its place.
    pub fn exec(&mut self, change: u8) -> (r: u8)
        ensures
            r == old(self)@,
            final(self)@ == change,
    {
        let result = self.pre_value;
        self.pre_value = change;
        result
    }
}

/// A one-bit register: a storage cell whose write is gated by `load`.
pub struct Bit {
    dff: Dff,
}

impl View for Bit {
    type V = u8;

    closed spec fn view(&self) -> u8 {
        self.dff@
    }
}

impl Bit {
    pub fn new() -> (r: Bit)
        ensures
            r@ == 0,
    {
        Bit { dff: Dff::new(0) }
    }

    /// Returns the held bit; the cell then holds `input` if `load` is high, else what it held.
    pub fn exec(&mut self, input: u8, load: u8) -> (r: u8)
        ensures
            r == old(self)@,
            final(self)@ == mux_spec(old(self)@, input, load),
    {
        let value = mux(self.dff.pre_value, input, load);
        self.dff.exec(value)
    }
}

/// Sixteen bit cells sharing one `load` line.
pub struct Register {
    bits: [Bit; 16],
}

impl View for Register {
    type V = Seq<u8>;

    closed spec fn view(&self) -> Seq<u8> {
        Seq::new(16, |i: int| self.bits[i]@)
    }
}

impl Register {
    /// Every stored lane is a signal.
    pub open spec fn wf(&self) -> bool {
        is_word(self@)
    }

    pub fn new() -> (r: Register)
        ensures
            r.wf(),
            r@ == zero_word(),
    {
        let r = Register {
            bits: [
                Bit::new(),
                Bit::new(),
                Bit::new(),
                Bit::new(),
                Bit::new(),
                Bit::new(),
                Bit::new(),
                Bit::new(),
                Bit::new(),
                Bit::new(),
                Bit::new(),
                Bit::new(),
                Bit::new(),
                Bit::new(),
                Bit::new(),
                Bit::new(),
            ],
        };
        assert(r@ =~= zero_word());
        r
    }

    /// Returns the stored word; the register then holds `input_arr` if `load` is high,
    /// else what it held.
    pub fn exec(&mut self, input_arr: &[u8; 16], load: u8) -> (r: [u8; 16])
        ensures
            r@ == old(self)@,
            final(self)@ == latch_word(old(self)@, input_arr@, load),
            final(self).wf(),
    {
        let mut result: [u8; 16] = [0; 16];
        for i in 0..16
            invariant
                forall|j: int| 0 <= j < i ==> result[j] == old(self).bits[j]@,
                forall|j: int|
                    0 <= j < i ==> self.bits[j]@ == mux_spec(
                        old(self).bits[j]@,
                        input_arr[j],
                        load,
                    ),
                forall|j: int| i <= j < 16 ==> self.bits[j] == old(self).bits[j],
        {
            result[i] = self.bits[i].exec(input_arr[i], load);
        }
        assert(result@ =~= old(self)@);
        assert(self@ =~= latch_word(old(self)@, input_arr@, load));
        result
    }
}

/// Eight registers behind a three-bit address.
pub struct Ram8 {
    registers: [Register; 8],
}

impl View for Ram8 {
    type V = Seq<Seq<u8>>;

    closed spec fn view(&self) -> Seq<Seq<u8>> {
        Seq::new(8, |k: int| self.registers[k]@)
    }
}

impl Ram8 {
    /// Every register is well formed.
    pub open spec fn wf(&self) -> bool {
        &&& self@.len() == 8
        &&& forall|k: int| 0 <= k < 8 ==> is_word(#[trigger] self@[k])
    }

    pub fn new() -> (r: Ram8)
        ensures
            r.wf(),
            forall|k: int| 0 <= k < 8 ==> #[trigger] r@[k] == zero_word(),
    {
        Ram8 {
            registers: [
                Register::new(),
                Register::new(),
                Register::new(),
                Register::new(),
                Register::new(),
                Register::new(),
                Register::new(),
                Register::new(),
            ],
        }
    }

    /// Returns the word stored at `address`; that word is then latched with `input_arr`
    /// under `load`, and every other word is kept.
    pub fn exec(&mut self, input_arr: &[u8; 16], load: u8, address: &[u8; 3]) -> (r: [u8; 16])
        requires
            old(self).wf(),
        ensures
            r@ == old(self)@[bits_value(address@) as int],
            final(self)@ == ram_next(old(self)@, bits_value(address@) as int, input_arr@, load),
            final(self).wf(),
    {
        let ghost a = bits_value(address@) as int;
        proof {
            lemma_selector_value(address@);
        }
        let selector = dmux_8way(load, address);
        let mut outs: [[u8; 16]; 8] = [[0; 16]; 8];
        for k in 0..8
            invariant
                0 <= a < 8,
                old(self).wf(),
                forall|j: int| 0 <= j < 8 ==> selector[j] == if j == a {
                    if load == 1 { 1u8 } else { 0u8 }
                } else {
                    0u8
                },
                forall|j: int| 0 <= j < k ==> outs[j]@ == old(self)@[j],
                forall|j: int|
                    0 <= j < k ==> #[trigger] self.registers[j]@ == latch_word(
                        old(self)@[j],
                        input_arr@,
                        selector[j],
                    ),
                forall|j: int| k <= j < 8 ==> self.registers[j] == old(self).registers[j],
        {
            outs[k] = self.registers[k].exec(input_arr, selector[k]);
        }
        let r = mux_8way_16bit(&outs, address);
        proof {
            assert(r@ =~= old(self)@[a]);
            assert forall|j: int| 0 <= j < 8 && j != a implies #[trigger] self@[j] == old(self)@[j] by {
                assert(self@[j] =~= old(self)@[j]);
            }
            assert(self@[a] =~= latch_word(old(self)@[a], input_arr@, load));
            assert(self@ =~= old(self)@.update(a, latch_word(old(self)@[a], input_arr@, load)));
        }
        r
    }
}

/// Eight `Ram8` modules behind a six-bit address: the high three bits pick the module,
/// the low three bits the register inside it.
pub struct Ram64 {
    rams: [Ram8; 8],
}

impl View for Ram64 {
    type V = Seq<Seq<u8>>;

    closed spec fn view(&self) -> Seq<Seq<u8>> {
        Seq::new(64, |a: int| self.rams[a / 8]@[a % 8])
    }
}

impl Ram64 {
    /// Every stored word is a 16-bit word of signals.
    pub open spec fn wf(&self) -> bool {
        &&& self@.len() == 64
        &&& forall|a: int| 0 <= a < 64 ==> is_word(#[trigger] self@[a])
    }

    proof fn lemma_modules_wf(&self)
        requires
            self.wf(),
        ensures
            forall|k: int| 0 <= k < 8 ==> (#[trigger] self.rams[k]).wf(),
    {
        assert forall|k: int| 0 <= k < 8 implies (#[trigger] self.rams[k]).wf() by {
            assert forall|j: int| 0 <= j < 8 implies is_word(#[trigger] self.rams[k]@[j]) by {
                let a = 8 * k + j;
                assert(a / 8 == k && a % 8 == j);
                assert(self@[a] == self.rams[k]@[j]);
            }
        }
    }

    pub fn new() -> (r: Ram64)
        ensures
            r.wf(),
            forall|a: int| 0 <= a < 64 ==> #[trigger] r@[a] == zero_word(),
    {
        Ram64 {
            rams: [
                Ram8::new(),
                Ram8::new(),
                Ram8::new(),
                Ram8::new(),
                Ram8::new(),
                Ram8::new(),
                Ram8::new(),
                Ram8::new(),
            ],
        }
    }

    /// Returns the word stored at `address`; that word is then latched with `input`
    /// under `load`, and every other word is kept.
    pub fn exec(&mut self, input: &[u8; 16], load: u8, address: &[u8; 6]) -> (r: [u8; 16])
        requires
            old(self).wf(),
        ensures
            r@ == old(self)@[bits_value(address@) as int],
            final(self)@ == ram_next(old(self)@, bits_value(address@) as int, input@, load),
            final(self).wf(),
    {
        let upper: [u8; 3] = [address[0], address[1], address[2]];
        let lower: [u8; 3] = [address[3], address[4], address[5]];
        let ghost up = bits_value(upper@) as int;
        let ghost lo = bits_value(lower@) as int;
        let ghost a = bits_value(address@) as int;
        proof {
            assert(address@ =~= upper@ + lower@);
            lemma_bits_value_concat(upper@, lower@);
            lemma2_to64();
            lemma_selector_value(upper@);
            lemma_selector_value(lower@);
            assert(a == 8 * up + lo);
            assert(a / 8 == up && a % 8 == lo);
            old(self).lemma_modules_wf();
        }
        let selector = dmux_8way(load, &upper);
        let mut outs: [[u8; 16]; 8] = [[0; 16]; 8];
        for k in 0..8
            invariant
                0 <= up < 8,
                0 <= lo < 8,
                lo == bits_value(lower@),
                forall|j: int| 0 <= j < 8 ==> (#[trigger] old(self).rams[j]).wf(),
                forall|j: int| 0 <= j < 8 ==> selector[j] == if j == up {
                    if load == 1 { 1u8 } else { 0u8 }
                } else {
                    0u8
                },
                forall|j: int| 0 <= j < k ==> outs[j]@ == old(self).rams[j]@[lo],
                forall|j: int|
                    0 <= j < k ==> #[trigger] self.rams[j]@ == old(self).rams[j]@.update(
                        lo,
                        latch_word(old(self).rams[j]@[lo], input@, selector[j]),
                    ),
                forall|j: int| 0 <= j < k ==> (#[trigger] self.rams[j]).wf(),
                forall|j: int| k <= j < 8 ==> self.rams[j] == old(self).rams[j],
        {
            outs[k] = self.rams[k].exec(input, selector[k], &lower);
        }
        let r = mux_8way_16bit(&outs, &upper);
        proof {
            assert(old(self)@[a] == old(self).rams[up]@[lo]);
            assert(r@ =~= old(self)@[a]);
            let written = latch_word(old(self)@[a], input@, load);
            assert(self.rams[up]@[lo] =~= written);
            assert forall|b: int| 0 <= b < 64 implies #[trigger] self@[b] == old(self)@.update(
                a,
                written,
            )[b] by {
                let k = b / 8;
                let j = b % 8;
                if b != a {
                    if k == up {
                        assert(j != lo);
                    } else {
                        assert(self.rams[k]@[j] =~= old(self).rams[k]@[j]);
                    }
                }
            }
            assert(self@ =~= old(self)@.update(a, written));
        }
        r
    }
}

/// Chooses the word a program counter writes: all zeros on `reset`, else `input` on `load`,
/// else `input` plus one on `inc`, else `input`.
pub fn pc_select(input: &[u8; 16], load: u8, reset: u8, inc: u8) -> (r: [u8; 16])
    requires
        is_word(input@),
    ensures
        r@ == pc_target(input@, load, reset, inc),
{
    let a = incrementer(input);
    let b = mux_16bit(input, &a, inc);
    let c = mux_16bit(&b, input, load);
    let r = mux_16bit(&c, &[0; 16], reset);
    assert(r@ =~= pc_target(input@, load, reset, inc));
    r
}

/// Program counter: a register fed by the reset / load / increment priority chain.
pub struct Pc {
    register: Register,
}

impl View for Pc {
    type V = Seq<u8>;

    closed spec fn view(&self) -> Seq<u8> {
        self.register@
    }
}

impl Pc {
    /// The held address is a 16-bit word of signals.
    pub open spec fn wf(&self) -> bool {
        is_word(self@)
    }

    pub fn new() -> (r: Pc)
        ensures
            r.wf(),
            r@ == zero_word(),
    {
        Pc { register: Register::new() }
    }

    /// Returns the held address, then latches the word chosen by `pc_select` when `load`
    /// is high.
    pub fn exec(&mut self, input: &[u8; 16], load: u8, reset: u8, inc: u8) -> (r: [u8; 16])
        requires
            old(self).wf(),
            is_word(input@),
        ensures
            r@ == old(self)@,
            final(self)@ == pc_next(old(self)@, input@, load, reset, inc),
            final(self).wf(),
    {
        let d = pc_select(input, load, reset, inc);
        let r = self.register.exec(&d, load);
        assert(self@ =~= pc_next(old(self)@, input@, load, reset, inc));
        r
    }
}

/// Unit delay: a storage cell that starts at `s0` answers tick `n` with the input of tick
/// `n - 1`, and tick 0 with `s0`.
pub proof fn lemma_dff_unit_delay(s0: u8, inputs: Seq<u8>)
    ensures
        dff_outputs(s0, inputs).len() == inputs.len(),
        forall|n: int|
            0 <= n < inputs.len() ==> #[trigger] dff_outputs(s0, inputs)[n] == if n == 0 {
                s0
            } else {
                inputs[n - 1]
            },
    decreases inputs.len(),
{
    if inputs.len() > 0 {
        let rest = inputs.subrange(1, inputs.len() as int);
        lemma_dff_unit_delay(inputs[0], rest);
        assert forall|n: int| 0 <= n < inputs.len() implies #[trigger] dff_outputs(s0, inputs)[n]
            == if n == 0 {
            s0
        } else {
            inputs[n - 1]
        } by {
            if n > 0 {
                assert(dff_outputs(s0, inputs)[n] == dff_outputs(inputs[0], rest)[n - 1]);
                if n > 1 {
                    assert(rest[n - 2] == inputs[n - 1]);
                }
            }
        }
    }
}

/// A register ticked with `load` low keeps its word whatever the input; ticked with a
/// word and `load` high, it holds that word, which the next tick hands back.
pub proof fn lemma_register_load(held: Seq<u8>, v: Seq<u8>, w: Seq<u8>)
    requires
        is_word(held),
        is_word(v),
    ensures
        latch_word(held, w, 0) == held,
        latch_word(held, v, 1) == v,
{
    assert(latch_word(held, w, 0) =~= held);
    assert(latch_word(held, v, 1) =~= v);
}

/// Writing a word at address `a` leaves every other address as it was; the write is
/// what `a` hands back on the next tick, and a tick with `load` low changes nothing.
pub proof fn lemma_ram_addressing(mem: Seq<Seq<u8>>, v: Seq<u8>, x: Seq<u8>, a: int, b: int)
    requires
        forall|k: int| 0 <= k < mem.len() ==> is_word(#[trigger] mem[k]),
        0 <= a < mem.len(),
        0 <= b < mem.len(),
        is_word(v),
    ensures
        a != b ==> ram_next(mem, a, v, 1)[b] == mem[b],
        ram_next(mem, a, v, 1)[a] == v,
        ram_next(ram_next(mem, a, v, 1), b, x, 0) == ram_next(mem, a, v, 1),
{
    let written = ram_next(mem, a, v, 1);
    lemma_register_load(mem[a], v, x);
    lemma_register_load(written[b], v, x);
    assert(ram_next(written, b, x, 0) =~= written);
}

/// The program counter's controls on a tick that latches (`load` high): `reset` gives the
/// zero word whatever the input and `inc`, otherwise the input is taken whatever `inc`
/// says. With `load` low the held address stays, and the chain offers the incremented
/// input when `inc` alone is high.
pub proof fn lemma_pc_priority(held: Seq<u8>, input: Seq<u8>, reset: u8, inc: u8)
    requires
        is_word(held),
        is_word(input),
    ensures
        high(reset) ==> pc_next(held, input, 1, reset, inc) == zero_word(),
        !high(reset) ==> pc_next(held, input, 1, reset, inc) == input,
        pc_next(held, input, 0, reset, inc) == held,
        pc_target(input, 0, 0, 1) == increment_word(input),
{
}

} // verus!
