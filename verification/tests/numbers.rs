use cjsonrs::number::equal;
use cjsonrs::number::from_f32_bits;
use cjsonrs::number::from_i64;
use cjsonrs::number::from_u64;
use cjsonrs::number::is_finite;
use cjsonrs::number::is_finite32;
use cjsonrs::number::is_nan;
use cjsonrs::CJson;
use cjsonrs::Error;
use cjsonrs::IntoCJson;

#[test]
fn unsigned_integers_become_the_nearest_double() {
    let mut samples: Vec<u64> = vec![
        0,
        1,
        2,
        3,
        10,
        255,
        4294967295,
        4294967296,
        (1 << 52) - 1,
        1 << 52,
        (1 << 53) - 1,
        1 << 53,
        (1 << 53) + 1,
        (1 << 53) + 2,
        (1 << 53) + 3,
        (1 << 54) + 2,
        (1 << 54) + 6,
        (1 << 63) - 1,
        1 << 63,
        (1 << 63) + 1024,
        (1 << 63) + 1025,
        (1 << 63) + 3072,
        u64::MAX - 2048,
        u64::MAX - 1024,
        u64::MAX - 1023,
        u64::MAX,
    ];
    let mut x: u64 = 0x9E37_79B9_7F4A_7C15;
    for _ in 0..2000 {
        x ^= x << 13;
        x ^= x >> 7;
        x ^= x << 17;
        samples.push(x);
        samples.push(x >> (x % 64));
    }
    for n in samples {
        assert_eq!(from_u64(n), (n as f64).to_bits(), "{}", n);
    }
}

#[test]
fn signed_integers_become_the_nearest_double() {
    let mut samples: Vec<i64> = vec![
        0,
        1,
        -1,
        42,
        -42,
        i64::MIN,
        i64::MIN + 1,
        i64::MAX,
        -(1 << 53),
        -(1 << 53) - 1,
        -(1 << 53) - 3,
        (1 << 62) + 257,
        -((1 << 62) + 256),
    ];
    let mut x: u64 = 0x0123_4567_89AB_CDEF;
    for _ in 0..2000 {
        x ^= x << 13;
        x ^= x >> 7;
        x ^= x << 17;
        samples.push(x as i64);
        samples.push((x as i64) >> (x % 64));
    }
    for n in samples {
        assert_eq!(from_i64(n), (n as f64).to_bits(), "{}", n);
    }
    assert_eq!(from_i64(0), 0);
}

#[test]
fn single_precision_values_keep_their_value() {
    let mut samples: Vec<u32> = vec![
        0,
        0x8000_0000,
        1,
        2,
        0x007f_ffff,
        0x0080_0000,
        0x3f80_0000,
        0xbf80_0000,
        0x7f7f_ffff,
        0x7f80_0000,
        0xff80_0000,
        0x0000_1000,
        0x8000_0001,
        0x0040_0000,
    ];
    let mut x: u32 = 0x2545_F491;
    for _ in 0..4000 {
        x ^= x << 13;
        x ^= x >> 17;
        x ^= x << 5;
        samples.push(x);
        samples.push(x & 0x807f_ffff);
    }
    for bits in samples {
        let value = f32::from_bits(bits);
        if value.is_nan() {
            assert!(is_nan(from_f32_bits(bits)));
        } else {
            assert_eq!(from_f32_bits(bits), (value as f64).to_bits(), "{:#x}", bits);
        }
        assert_eq!(is_finite32(bits), value.is_finite());
    }
}

#[test]
fn numbers_are_compared_by_value() {
    let values = [
        0.0,
        -0.0,
        1.0,
        -1.0,
        1.5,
        f64::MIN_POSITIVE,
        5e-324,
        f64::MAX,
        f64::INFINITY,
        f64::NEG_INFINITY,
        f64::NAN,
        -f64::NAN,
    ];
    for a in values {
        assert_eq!(is_nan(a.to_bits()), a.is_nan());
        assert_eq!(is_finite(a.to_bits()), a.is_finite());
        for b in values {
            assert_eq!(equal(a.to_bits(), b.to_bits()), a == b, "{} {}", a, b);
        }
    }
}

#[test]
fn plain_values_become_documents() -> Result<(), Error> {
    assert_eq!(CJson::try_from(true)?.as_bool(), Some(true));
    assert_eq!(CJson::try_from(-5i8)?.as_number(), Some((-5f64).to_bits()));
    assert_eq!(CJson::try_from(-300i16)?.as_number(), Some((-300f64).to_bits()));
    assert_eq!(CJson::try_from(i32::MIN)?.as_number(), Some((i32::MIN as f64).to_bits()));
    assert_eq!(CJson::try_from(200u8)?.as_number(), Some(200f64.to_bits()));
    assert_eq!(CJson::try_from(60000u16)?.as_number(), Some(60000f64.to_bits()));
    assert_eq!(CJson::try_from(u32::MAX)?.as_number(), Some((u32::MAX as f64).to_bits()));
    assert_eq!(CJson::try_from(b"abc".to_vec())?.as_c_string(), Some(&b"abc"[..]));
    assert_eq!(CJson::try_from(&b"abc"[..])?.as_c_string(), Some(&b"abc"[..]));
    assert!(CJson::try_from(None::<i32>)?.is_null());
    assert_eq!(CJson::try_from(Some(7u8))?.as_number(), Some(7f64.to_bits()));
    assert_eq!(CJson::try_from(Some(Some(false)))?.as_bool(), Some(false));
    assert!(CJson::try_from(Some(None::<bool>))?.is_null());
    assert_eq!(3u8.into_cjson()?, CJson::number(3f64.to_bits())?);
    Ok(())
}

#[test]
fn failures_say_what_they_are() {
    assert_eq!(Error::Parse.message(), "Failed to parse JSON string");
    assert_eq!(Error::Allocation.message(), "Failed to allocate enough memory for CJson");
    assert_eq!(
        Error::TypeError.message(),
        "Type error occurred when converting CJson to a different type"
    );
}
