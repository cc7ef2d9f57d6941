//! The arithmetic, held against that of the machine.

use grapple::scalar::F32;

fn next(state: &mut u64) -> u32 {
    *state = state.wrapping_mul(6364136223846793005).wrapping_add(1442695040888963407);
    (*state >> 32) as u32
}

/// Bit patterns at which rounding, overflow and signs are at their edges.
fn edges() -> Vec<u32> {
    let mut list: Vec<u32> = Vec::new();
    let magnitudes: Vec<u32> = vec![
        0x0000_0000, 0x0000_0001, 0x0000_0002, 0x0000_0003, 0x007f_fffe, 0x007f_ffff, 0x0080_0000,
        0x0080_0001, 0x00ff_ffff, 0x0100_0000, 0x1f80_0000, 0x2000_0000, 0x3380_0000, 0x3380_0001,
        0x3f00_0000, 0x3f7f_ffff, 0x3f80_0000, 0x3f80_0001, 0x3fc0_0000, 0x4000_0000, 0x4040_0000,
        0x4b7f_ffff, 0x4b80_0000, 0x4b80_0001, 0x4c00_0000, 0x5f80_0000, 0x7e80_0000, 0x7f00_0000,
        0x7f7f_fffe, 0x7f7f_ffff, 0x7f80_0000, 0x7f80_0001, 0x7fc0_0000,
    ];
    for magnitude in magnitudes {
        list.push(magnitude);
        list.push(magnitude | 0x8000_0000);
    }
    list
}

fn same(ours: F32, theirs: f32) -> bool {
    if theirs.is_nan() {
        f32::from_bits(ours.to_bits()).is_nan()
    } else {
        ours.to_bits() == theirs.to_bits()
    }
}

fn compare(a: u32, b: u32) {
    let (x, y) = (F32::from_bits(a), F32::from_bits(b));
    let (p, q) = (f32::from_bits(a), f32::from_bits(b));
    assert!(same(x.plus(y), p + q), "{:08x} + {:08x}", a, b);
    assert!(same(x.minus(y), p - q), "{:08x} - {:08x}", a, b);
    assert!(same(x.times(y), p * q), "{:08x} * {:08x}", a, b);
    assert!(same(x.over(y), p / q), "{:08x} / {:08x}", a, b);
    assert!(same(x.sqrt(), p.sqrt()), "sqrt {:08x}", a);
    assert_eq!(x.negated().to_bits(), (-p).to_bits());
    assert_eq!(x.lt(y), p < q, "{:08x} < {:08x}", a, b);
    assert_eq!(x.le(y), p <= q, "{:08x} <= {:08x}", a, b);
    assert_eq!(x.is_nan(), p.is_nan());
    let greater = p.max(q);
    if p != q {
        assert!(same(x.max(y), greater), "max {:08x} {:08x}", a, b);
    }
    assert!(same(x.clamp(F32::zero(), F32::ratio(1, 1)), p.clamp(0.0, 1.0)), "clamp {:08x}", a);
}

#[test]
fn agrees_with_the_machine_at_the_edges() {
    let list = edges();
    for a in &list {
        for b in &list {
            compare(*a, *b);
        }
    }
}

#[test]
fn agrees_with_the_machine_on_any_bits() {
    let mut state: u64 = 1;
    for _ in 0..100_000 {
        let (a, b) = (next(&mut state), next(&mut state));
        compare(a, b);
    }
}

#[test]
fn agrees_with_the_machine_on_close_exponents() {
    let mut state: u64 = 7;
    for _ in 0..100_000 {
        let a = next(&mut state);
        let shift = next(&mut state) % 60;
        let exponent = (a >> 23) & 0xff;
        let other = if exponent + 30 >= shift { (exponent + 30 - shift) % 255 } else { 0 };
        let b = (next(&mut state) & 0x807f_ffff) | (other << 23);
        compare(a, b);
    }
}

#[test]
fn agrees_with_the_machine_below_the_normal_range() {
    let mut state: u64 = 11;
    for _ in 0..50_000 {
        let a = next(&mut state) & 0x81ff_ffff;
        let b = next(&mut state) & 0x81ff_ffff;
        compare(a, b);
        let one_half = 0x3f00_0000 | (next(&mut state) & 0x007f_ffff);
        compare(a, one_half);
    }
}

#[test]
fn ratios_are_decimal_numerals() {
    assert_eq!(F32::ratio(1, 1000).to_bits(), 0.001f32.to_bits());
    assert_eq!(F32::ratio(1, 2).to_bits(), 0.5f32.to_bits());
    assert_eq!(F32::ratio(1, 10).to_bits(), 0.1f32.to_bits());
    assert_eq!(F32::ratio(4, 5).to_bits(), 0.8f32.to_bits());
    assert_eq!(F32::ratio(1, 20).to_bits(), 0.05f32.to_bits());
    assert_eq!(F32::ratio(3, 5).to_bits(), 0.6f32.to_bits());
    assert_eq!(F32::ratio(9, 10).to_bits(), 0.9f32.to_bits());
    assert_eq!(F32::ratio(7, 10).to_bits(), 0.7f32.to_bits());
    assert_eq!(F32::ratio(1, 50).to_bits(), 0.02f32.to_bits());
    assert_eq!(F32::ratio(3, 10).to_bits(), 0.3f32.to_bits());
    assert_eq!(F32::ratio(3, 20).to_bits(), 0.15f32.to_bits());
    assert_eq!(F32::ratio(19, 20).to_bits(), 0.95f32.to_bits());
    assert_eq!(F32::ratio(800, 1).to_bits(), 800.0f32.to_bits());
    assert_eq!(F32::ratio(4_294_967_295, 1).to_bits(), 4_294_967_295f32.to_bits());
    assert_eq!(F32::ratio(0, 7).to_bits(), 0.0f32.to_bits());
}

#[test]
fn a_tie_goes_to_the_even_neighbour() {
    let one = F32::ratio(1, 1);
    let half_step = F32::from_bits(0x3380_0000);
    assert_eq!(one.plus(half_step).to_bits(), 0x3f80_0000);
    assert_eq!(F32::from_bits(0x3f80_0001).plus(half_step).to_bits(), 0x3f80_0002);
}

#[test]
fn the_largest_number_doubled_is_infinite() {
    let largest = F32::from_bits(0x7f7f_ffff);
    assert_eq!(largest.plus(largest).to_bits(), 0x7f80_0000);
    assert_eq!(largest.times(F32::ratio(2, 1)).negated().to_bits(), 0xff80_0000);
}
