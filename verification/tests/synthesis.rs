use toolchain::synthesis::{LookUpTableInput, LookUpTableMask, YosysLutMask};

#[test]
fn yosys_lut_mask_decode() {
    assert_eq!((YosysLutMask::BitString("1111000011110000")).decode().get(), 0xf0f0);
    assert_eq!((YosysLutMask::BitString("11110000")).decode().get(), 0xf0f0);
    assert_eq!((YosysLutMask::BitString("1100")).decode().get(), 0xcccc);
    assert_eq!((YosysLutMask::BitString("10")).decode().get(), 0xaaaa);
    assert_eq!((YosysLutMask::BitString("1")).decode().get(), 0xffff);
    assert_eq!((YosysLutMask::BitString("0")).decode().get(), 0x0000);

    assert_eq!((YosysLutMask::Integer(0b1111000011110000, 16)).decode().get(), 0xf0f0);
    assert_eq!((YosysLutMask::Integer(0b11110000, 8)).decode().get(), 0xf0f0);
    assert_eq!((YosysLutMask::Integer(0b1100, 4)).decode().get(), 0xcccc);
    assert_eq!((YosysLutMask::Integer(0b10, 2)).decode().get(), 0xaaaa);
    assert_eq!((YosysLutMask::Integer(0b1, 1)).decode().get(), 0xffff);
    assert_eq!((YosysLutMask::Integer(0b0, 1)).decode().get(), 0x0000);
}

#[test]
fn lut_mask_keeps_its_bits() {
    assert_eq!(LookUpTableMask::new(0xbeef).get(), 0xbeef);
    assert_eq!(LookUpTableMask::new(0).get(), 0);
}

#[test]
fn bit_string_with_a_sign_and_wide_masks() {
    assert_eq!((YosysLutMask::BitString("+10")).decode().get(), 0b0010_0100_1001_0010);
    assert_eq!((YosysLutMask::Integer(0x1234, 16)).decode().get(), 0x1234);
    assert_eq!((YosysLutMask::Integer(0x0012, 12)).decode().get(), 0x0012);
    assert_eq!((YosysLutMask::Integer(0b101, 3)).decode().get(), 0b0101_1011_0110_1101);
}

#[test]
fn lut_inputs_in_order() {
    assert_eq!(
        LookUpTableInput::iter(),
        vec![LookUpTableInput::A, LookUpTableInput::B, LookUpTableInput::C, LookUpTableInput::D]
    );
    assert_eq!(LookUpTableInput::from_ordinal(2), LookUpTableInput::C);
    assert_eq!(LookUpTableInput::D.index(), 3);
}
