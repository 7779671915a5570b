use duneview::math::{divide, dot3, multiply, norm3, sqrt, unit3, Vec3};

#[test]
fn isqrt_of_zero_is_zero() {
    assert_eq!(sqrt(0), 0);
}

#[test]
fn isqrt_small_values() {
    assert_eq!(sqrt(1), 1);
    assert_eq!(sqrt(2), 1);
    assert_eq!(sqrt(3), 1);
    assert_eq!(sqrt(4), 2);
    assert_eq!(sqrt(15), 3);
    assert_eq!(sqrt(16), 4);
    assert_eq!(sqrt(20225), 142);
    assert_eq!(sqrt(65025), 255);
    assert_eq!(sqrt(65535), 255);
    assert_eq!(sqrt(65536), 256);
    assert_eq!(sqrt(u32::MAX), 65535);
}

#[test]
fn isqrt_brackets_every_tested_input() {
    let mut n: u32 = 0;
    while n < 70000 {
        let r = sqrt(n) as i64;
        assert!(r * r <= n as i64);
        assert!((n as i64) < (r + 1) * (r + 1));
        n += 7;
    }
    for &n in &[1u32 << 20, (1 << 29) + 12345, u32::MAX - 1, u32::MAX] {
        let r = sqrt(n) as i64;
        assert!(r * r <= n as i64);
        assert!((n as i64) < (r + 1) * (r + 1));
    }
}

#[test]
fn multiply_truncates_toward_negative_infinity() {
    assert_eq!(multiply(512, 512), 1024);
    assert_eq!(multiply(-300, 256), -300);
    assert_eq!(multiply(-1, 255), -1);
    assert_eq!(multiply(255, 1), 0);
    assert_eq!(multiply(0, 12345), 0);
}

#[test]
fn divide_truncates_toward_zero() {
    assert_eq!(divide(150, -115), -333);
    assert_eq!(divide(1, -2), -128);
    assert_eq!(divide(-3, 10), -76);
    assert_eq!(divide(150, 1), 38400);
    assert_eq!(divide(-1, 256), -1);
}

#[test]
fn dot3_plain_integer_product() {
    let a = Vec3 { x: 1, y: 2, z: 3 };
    let b = Vec3 { x: 4, y: -5, z: 6 };
    assert_eq!(dot3(&a, &b), 4 - 10 + 18);
    let up = Vec3 { x: 0, y: 256, z: 0 };
    let down = Vec3 { x: 0, y: -256, z: 0 };
    assert_eq!(dot3(&up, &down), -65536);
}

#[test]
fn norm3_integer_magnitude() {
    assert_eq!(norm3(&Vec3 { x: 3, y: 4, z: 0 }), 5);
    assert_eq!(norm3(&Vec3 { x: 1, y: 1, z: 1 }), 1);
    assert_eq!(norm3(&Vec3 { x: 0, y: -100, z: 0 }), 100);
    assert_eq!(norm3(&Vec3 { x: 0, y: 0, z: 0 }), 0);
}

#[test]
fn unit3_exact_axis_vector() {
    let mut v = Vec3 { x: 0, y: -100, z: 0 };
    unit3(&mut v);
    assert_eq!(v, Vec3 { x: 0, y: -256, z: 0 });
    assert_eq!(norm3(&v), 256);
}

#[test]
fn unit3_magnitude_near_one() {
    // Magnitude of the normalized vector stays within 2 of 256 for
    // vectors that are not tiny.
    let cases = [
        (300, 400, 0),
        (1000, 2000, 3000),
        (-500, 600, -700),
        (46340, 0, 0),
        (10000, 10000, 10000),
        (257, -255, 3),
    ];
    for &(x, y, z) in &cases {
        let mut v = Vec3 { x, y, z };
        unit3(&mut v);
        let m = norm3(&v);
        assert!((254..=258).contains(&m), "magnitude {} out of range for ({},{},{})", m, x, y, z);
    }
}
