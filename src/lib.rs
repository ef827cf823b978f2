pub mod bool_arithmetic;
pub mod bool_logic;
pub mod sequential_logic;
