use software_sim::bool_logic::{and, and_16bit, dmux, mux, nand, nor, not, or, xor};

/// Reads a string of binary digits into a 16-bit vector, most significant first.
fn converter_16bit_to_array(input: &str) -> [u8; 16] {
    let mut output: [u8; 16] = [0; 16];
    for (i, c) in input.chars().enumerate() {
        output[i] = c.to_digit(2).unwrap() as u8;
    }
    output
}

#[test]
fn nand_test() {
    assert_eq!(0, nand(1,  1));
    assert_eq!(1, nand(1,  0));
    assert_eq!(1, nand(0, 1));
    assert_eq!(1, nand(0, 0));
}

#[test]
fn not_test() {
    assert_eq!(0, not(1));
    assert_eq!(1, not(0));
}

#[test]
fn and_test() {
    assert_eq!(1, and(1,  1));
    assert_eq!(0, and(1,  0));
    assert_eq!(0, and(0, 1));
    assert_eq!(0, and(0, 0));
}

#[test]
fn or_test() {
    assert_eq!(1, or(1, 1));
    assert_eq!(1, or(1, 0));
    assert_eq!(1, or(0, 1));
    assert_eq!(0, or(0, 0));
}

#[test]
fn nor_test() {
    assert_eq!(0, nor(1, 1));
    assert_eq!(0, nor(1, 0));
    assert_eq!(0, nor(0, 1));
    assert_eq!(1, nor(0, 0));
}

#[test]
fn xor_test() {
    assert_eq!(0, xor(1, 1));
    assert_eq!(1, xor(1, 0));
    assert_eq!(1, xor(0, 1));
    assert_eq!(0, xor(0, 0));
}

#[test]
fn mux_test() {
    assert_eq!(0, mux(0, 0, 0));
    assert_eq!(0, mux(0, 1, 0));
    assert_eq!(1, mux(1, 0, 0));
    assert_eq!(1, mux(1, 1, 0));
    assert_eq!(0, mux(0, 0, 1));
    assert_eq!(1, mux(0, 1, 1));
    assert_eq!(0, mux(1, 0, 1));
    assert_eq!(1, mux(1, 1, 1));
}

#[test]
fn dmux_test() {
    assert_eq!([0, 0], dmux(0, 0));
    assert_eq!([0, 0], dmux(0, 1));
    assert_eq!([1, 0], dmux(1, 0));
    assert_eq!([0, 1], dmux(1, 1));
}

#[test]
fn and_16bit_test() {
    assert_eq!(
        converter_16bit_to_array("0000000000000000"),
        and_16bit(
        &converter_16bit_to_array("0000000000000000"),
        &converter_16bit_to_array("0000000000000000")
        )
    );
    assert_eq!(
        converter_16bit_to_array("0000000000000000"),
        and_16bit(
            &converter_16bit_to_array("0000000000000000"),
            &converter_16bit_to_array("1111111111111111")
        )
    );
    assert_eq!(
        converter_16bit_to_array("1111111111111111"),
        and_16bit(
            &converter_16bit_to_array("1111111111111111"),
            &converter_16bit_to_array("1111111111111111")
        )
    );
    assert_eq!(
        converter_16bit_to_array("0000000000000000"),
        and_16bit(
            &converter_16bit_to_array("1010101010101010"),
            &converter_16bit_to_array("0101010101010101")
        )
    );
    assert_eq!(
        converter_16bit_to_array("0000110011000000"),
        and_16bit(
            &converter_16bit_to_array("0011110011000011"),
            &converter_16bit_to_array("0000111111110000")
        )
    );
    assert_eq!(
        converter_16bit_to_array("0001000000110100"),
        and_16bit(
            &converter_16bit_to_array("0001001000110100"),
            &converter_16bit_to_array("1001100001110110")
        )
    );
}
