use voxel_server::chunk::{world_to_chunk_pos, ChunkCoord};
use voxel_server::math::{Scalar, Vec3};

fn expected(v: f32) -> i32 {
    (v / 32.0).floor() as i32
}

fn check(v: f32) {
    assert_eq!(
        Scalar(v.to_bits()).floor_div_32(),
        expected(v),
        "value {:e} (bits {:#010x})",
        v,
        v.to_bits()
    );
}

#[test]
fn floor_div_of_ordinary_positions() {
    for v in [0.0, 1.0, 31.0, 31.999, 32.0, 33.0, 60.0, 63.9, 64.0, 1000.5, 12345.678] {
        check(v);
        check(-v);
    }
    assert_eq!(Scalar(60.0f32.to_bits()).floor_div_32(), 1);
    assert_eq!(Scalar((-0.5f32).to_bits()).floor_div_32(), -1);
    assert_eq!(Scalar((-32.0f32).to_bits()).floor_div_32(), -1);
    assert_eq!(Scalar((-32.5f32).to_bits()).floor_div_32(), -2);
    assert_eq!(Scalar(31.999f32.to_bits()).floor_div_32(), 0);
}

#[test]
fn floor_div_of_zeros_and_tiny_values() {
    check(0.0);
    check(-0.0);
    assert_eq!(Scalar((-0.0f32).to_bits()).floor_div_32(), 0);
    for bits in 0u32..64 {
        check(f32::from_bits(bits));
        check(f32::from_bits(bits | 0x8000_0000));
    }
    assert_eq!(Scalar(0x8000_0010).floor_div_32(), 0);
    assert_eq!(Scalar(0x8000_0011).floor_div_32(), -1);
    check(f32::MIN_POSITIVE);
    check(-f32::MIN_POSITIVE);
    check(f32::from_bits(0x007f_ffff));
    check(f32::from_bits(0x807f_ffff));
    check(1.0e-30);
    check(-1.0e-30);
}

#[test]
fn floor_div_of_huge_values_saturates() {
    check(f32::MAX);
    check(f32::MIN);
    check(f32::INFINITY);
    check(f32::NEG_INFINITY);
    check(1.0e20);
    check(-1.0e20);
    assert_eq!(Scalar(f32::INFINITY.to_bits()).floor_div_32(), i32::MAX);
    assert_eq!(Scalar(f32::NEG_INFINITY.to_bits()).floor_div_32(), i32::MIN);
    for exponent in 150u32..170 {
        for fraction in [0u32, 1, 0x40_0000, 0x7f_ffff] {
            let bits = (exponent << 23) | fraction;
            check(f32::from_bits(bits));
            check(f32::from_bits(bits | 0x8000_0000));
        }
    }
}

#[test]
fn floor_div_of_nan_is_zero() {
    check(f32::NAN);
    assert_eq!(Scalar(f32::NAN.to_bits()).floor_div_32(), 0);
    assert_eq!(Scalar(0xffc0_0001).floor_div_32(), 0);
    assert_eq!(Scalar(0x7f80_0001).floor_div_32(), 0);
}

#[test]
fn floor_div_agrees_with_the_processor_on_many_bit_patterns() {
    let mut bits: u32 = 0x1234_5678;
    for _ in 0..200_000 {
        bits = bits.wrapping_mul(1_664_525).wrapping_add(1_013_904_223);
        check(f32::from_bits(bits));
    }
    for exponent in 0u32..256 {
        for fraction in [0u32, 1, 15, 16, 17, 31, 32, 33, 0x3f_ffff, 0x40_0000, 0x7f_fffe, 0x7f_ffff]
        {
            let bits = (exponent << 23) | fraction;
            check(f32::from_bits(bits));
            check(f32::from_bits(bits | 0x8000_0000));
        }
    }
}

#[test]
fn zero_is_positive_or_negative_zero() {
    assert!(Scalar(0.0f32.to_bits()).is_zero());
    assert!(Scalar((-0.0f32).to_bits()).is_zero());
    assert!(!Scalar(1.0e-45f32.to_bits()).is_zero());
    assert!(!Scalar(f32::NAN.to_bits()).is_zero());
    assert!(Vec3::zero().is_zero());
    assert!(!Vec3::new(Scalar(0), Scalar(1), Scalar(0)).is_zero());
    assert!(Vec3::new(Scalar(0x8000_0000), Scalar(0), Scalar(0x8000_0000)).is_zero());
    assert_eq!(Scalar::from_bits(7).to_bits(), 7);
}

#[test]
fn world_position_to_chunk() {
    let pos = |x: f32, y: f32, z: f32| Vec3 {
        x: Scalar(x.to_bits()),
        y: Scalar(y.to_bits()),
        z: Scalar(z.to_bits()),
    };
    assert_eq!(world_to_chunk_pos(pos(0.0, 60.0, 0.0)), ChunkCoord { x: 0, y: 1, z: 0 });
    assert_eq!(world_to_chunk_pos(pos(0.0, 0.0, 0.0)), ChunkCoord { x: 0, y: 0, z: 0 });
    assert_eq!(world_to_chunk_pos(pos(-0.1, 31.9, 32.0)), ChunkCoord { x: -1, y: 0, z: 1 });
    assert_eq!(world_to_chunk_pos(pos(40.0, -33.0, -64.0)), ChunkCoord { x: 1, y: -2, z: -2 });
}
