use software_sim::bool_arithmetic::incrementer;
use software_sim::bool_logic::{
    and, dmux, dmux_8way, mux, mux_16bit, mux_8way_16bit, nand, nor, not, or, xor,
};
use software_sim::sequential_logic::{pc_select, Dff, Pc, Ram64, Ram8, Register};

fn word(n: i16) -> [u8; 16] {
    let mut out: [u8; 16] = [0; 16];
    let u = n as u16;
    for i in 0..16 {
        out[i] = ((u >> (15 - i)) & 1) as u8;
    }
    out
}

fn address3(n: u8) -> [u8; 3] {
    [(n >> 2) & 1, (n >> 1) & 1, n & 1]
}

fn address6(n: u8) -> [u8; 6] {
    [(n >> 5) & 1, (n >> 4) & 1, (n >> 3) & 1, (n >> 2) & 1, (n >> 1) & 1, n & 1]
}

#[test]
fn gates_follow_truth_tables() {
    for x in 0..2u8 {
        for y in 0..2u8 {
            assert_eq!(nand(x, y), 1 - x * y);
            assert_eq!(not(x), 1 - x);
            assert_eq!(and(x, y), x * y);
            assert_eq!(or(x, y), x + y - x * y);
            assert_eq!(nor(x, y), 1 - (x + y - x * y));
            assert_eq!(xor(x, y), (x + y) % 2);
        }
    }
}

#[test]
fn mux_follows_selector() {
    for x in 0..2u8 {
        for y in 0..2u8 {
            assert_eq!(mux(x, y, 0), x);
            assert_eq!(mux(x, y, 1), y);
        }
    }
}

#[test]
fn dmux_lanes_add_up_to_input() {
    for input in 0..2u8 {
        for sel in 0..2u8 {
            let r = dmux(input, sel);
            assert_eq!(r, [input * (1 - sel), input * sel]);
            assert_eq!(r[0] + r[1], input);
        }
    }
}

#[test]
fn mux_16bit_picks_whole_vector() {
    let a = word(12345);
    let b = word(-21846);
    assert_eq!(mux_16bit(&a, &b, 0), a);
    assert_eq!(mux_16bit(&a, &b, 1), b);
}

#[test]
fn dmux_8way_routes_to_addressed_lane() {
    assert_eq!(dmux_8way(1, &address3(5)), [0, 0, 0, 0, 0, 1, 0, 0]);
    assert_eq!(dmux_8way(1, &address3(0)), [1, 0, 0, 0, 0, 0, 0, 0]);
    assert_eq!(dmux_8way(1, &address3(7)), [0, 0, 0, 0, 0, 0, 0, 1]);
    assert_eq!(dmux_8way(0, &address3(6)), [0; 8]);
}

#[test]
fn mux_8way_16bit_picks_addressed_word() {
    let words: [[u8; 16]; 8] = [
        word(0),
        word(1),
        word(2),
        word(3),
        word(4),
        word(5),
        word(6),
        word(7),
    ];
    for k in 0..8u8 {
        assert_eq!(mux_8way_16bit(&words, &address3(k)), word(k as i16));
    }
}

#[test]
fn dff_output_is_previous_input() {
    let mut dff = Dff::new(1);
    let inputs: [u8; 6] = [0, 0, 1, 1, 0, 1];
    let mut expected: u8 = 1;
    for v in inputs {
        assert_eq!(dff.exec(v), expected);
        expected = v;
    }
}

#[test]
fn register_hold_and_load() {
    let mut register = Register::new();
    assert_eq!(register.exec(&word(777), 1), word(0));
    assert_eq!(register.exec(&word(-5), 0), word(777));
    assert_eq!(register.exec(&word(-9), 0), word(777));
    assert_eq!(register.exec(&word(0), 0), word(777));
}

#[test]
fn register_initial_load_scenario() {
    let mut register = Register::new();
    assert_eq!(register.exec(&word(0), 0), word(0));
    assert_eq!(register.exec(&word(0), 0), word(0));
    assert_eq!(register.exec(&word(-32123), 1), word(0));
    assert_eq!(register.exec(&word(-32123), 1), word(-32123));
}

#[test]
fn ram8_write_then_read_scenario() {
    let mut ram8 = Ram8::new();
    assert_eq!(ram8.exec(&word(11111), 1, &address3(1)), word(0));
    assert_eq!(ram8.exec(&word(11111), 0, &address3(0)), word(0));
    assert_eq!(ram8.exec(&word(11111), 0, &address3(1)), word(11111));
}

#[test]
fn ram64_write_leaves_other_addresses() {
    let mut ram64 = Ram64::new();
    assert_eq!(ram64.exec(&word(4242), 1, &address6(13)), word(0));
    assert_eq!(ram64.exec(&word(-1), 1, &address6(53)), word(0));
    for a in 0..64u8 {
        let expected = if a == 13 {
            word(4242)
        } else if a == 53 {
            word(-1)
        } else {
            word(0)
        };
        assert_eq!(ram64.exec(&word(99), 0, &address6(a)), expected);
    }
    assert_eq!(ram64.exec(&word(99), 0, &address6(63)), word(0));
}

#[test]
fn incrementer_adds_one_with_wraparound() {
    assert_eq!(incrementer(&word(0)), word(1));
    assert_eq!(incrementer(&word(12345)), word(12346));
    assert_eq!(incrementer(&word(-32123)), word(-32122));
    assert_eq!(incrementer(&word(32767)), word(-32768));
    assert_eq!(incrementer(&word(-1)), word(0));
}

#[test]
fn pc_select_priority_chain() {
    let input = word(12345);
    assert_eq!(pc_select(&input, 1, 1, 1), word(0));
    assert_eq!(pc_select(&input, 0, 1, 0), word(0));
    assert_eq!(pc_select(&input, 1, 0, 1), input);
    assert_eq!(pc_select(&input, 1, 0, 0), input);
    assert_eq!(pc_select(&input, 0, 0, 1), word(12346));
    assert_eq!(pc_select(&input, 0, 0, 0), input);
}

#[test]
fn pc_latches_only_on_load() {
    let mut pc = Pc::new();
    assert_eq!(pc.exec(&word(12345), 1, 0, 1), word(0));
    assert_eq!(pc.exec(&word(22222), 1, 1, 0), word(12345));
    assert_eq!(pc.exec(&word(7), 0, 0, 1), word(0));
    assert_eq!(pc.exec(&word(7), 0, 1, 0), word(0));
    assert_eq!(pc.exec(&word(-32123), 1, 0, 0), word(0));
    assert_eq!(pc.exec(&word(5), 0, 1, 1), word(-32123));
    assert_eq!(pc.exec(&word(5), 0, 0, 0), word(-32123));
}
