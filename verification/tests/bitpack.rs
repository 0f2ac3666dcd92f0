use rand::Rng;
use rum::bitpack;

#[test]
fn newu_simple() {
    let word = bitpack::newu(0_u64, 4, 0, 1);
    assert_eq!(word, Some(1_u64));
}

#[test]
fn news_simple() {
    let word = bitpack::news(0_u64, 4, 0, -1);
    assert_eq!(word, Some(15_u64));
}

#[test]
fn pack_and_unpack_unsigned() {
    let word = bitpack::newu(0_u64, 4, 3, 15).unwrap();
    let val = bitpack::getu(word, 4, 4);
    assert_eq!(val, Some(7));
}

#[test]
fn pack_and_unpack_signed() {
    let word = bitpack::news(0_u64, 5, 3, -15).unwrap();
    let val = bitpack::gets(word, 5, 3);
    assert_eq!(val, Some(-15));
}

#[test]
fn pack_too_big_unsigned() {
    let word = bitpack::newu(0_u64, 3, 3, 15);
    assert_eq!(word, None);
}

#[test]
fn pack_too_big_signed() {
    let word = bitpack::news(0_u64, 3, 3, -15);
    assert_eq!(word, None);
}

#[test]
fn test_exhaustive_unsigned() {
    let mut rng = rand::thread_rng();
    for width in 0..64 {
        for lsb in 0..(64 - width) {
            // test 1000 random values
            for _ in 0..1000 {
                let limit = (1_u128 << (width)) as u64;
                let val = rng.gen_range(0..limit);
                let word = bitpack::newu(0_u64, width, lsb, val).unwrap();
                let result = bitpack::getu(word, width, lsb);
                assert_eq!(Some(val), result);
            }
        }
    }
}

#[test]
fn test_exhaustive_signed() {
    let mut rng = rand::thread_rng();
    for width in 0..64 {
        for lsb in 0..(64 - width) {
            // test 1000 random values
            for _ in 0..1000 {
                let ulimit = ((1_i128 << width) / 2 - 1) as i64;
                let llimit = -ulimit - 1;
                let val = if width == 0 {
                    0
                } else {
                    rng.gen_range(llimit..ulimit)
                };
                let word = bitpack::news(0_u64, width, lsb, val).unwrap();
                let result = bitpack::gets(word, width, lsb);
                assert_eq!(Some(val), result);
            }
        }
    }
}

#[test]
fn round_trip_keeps_value_for_any_word() {
    let words = [0_u64, u64::MAX, 0xdead_beef_cafe_f00d, 0x8000_0000_0000_0001];
    for &word in words.iter() {
        for width in 0..=64_u64 {
            for lsb in 0..=(64 - width) {
                let top = if width == 64 { u64::MAX } else { (1_u64 << width) - 1 };
                for &value in [0, top / 2, top].iter() {
                    let packed = bitpack::newu(word, width, lsb, value).unwrap();
                    assert_eq!(bitpack::getu(packed, width, lsb), Some(value));
                }
                if width >= 1 {
                    let high = if width == 64 { i64::MAX } else { (1_i64 << (width - 1)) - 1 };
                    let low = -high - 1;
                    for &value in [low, -1, 0, high].iter() {
                        if value < low || value > high {
                            continue;
                        }
                        let packed = bitpack::news(word, width, lsb, value).unwrap();
                        assert_eq!(bitpack::gets(packed, width, lsb), Some(value));
                    }
                }
            }
        }
    }
}

#[test]
fn insert_leaves_other_bits_alone() {
    let word = 0xffff_ffff_ffff_ffff_u64;
    assert_eq!(bitpack::newu(word, 8, 8, 0), Some(0xffff_ffff_ffff_00ff));
    assert_eq!(bitpack::newu(0, 8, 8, 0xab), Some(0xab00));
    assert_eq!(bitpack::newu(0x1234_5678_9abc_def0, 16, 16, 0xffff), Some(0x1234_5678_ffff_def0));
    assert_eq!(bitpack::news(0x1234_5678_9abc_def0, 16, 16, -2), Some(0x1234_5678_fffe_def0));
    assert_eq!(bitpack::newu(word, 64, 0, 5), Some(5));
    assert_eq!(bitpack::newu(word, 0, 64, 0), Some(word));
    assert_eq!(bitpack::newu(word, 0, 0, 0), Some(word));
    assert_eq!(bitpack::newu(word, 1, 63, 0), Some(0x7fff_ffff_ffff_ffff));
}

#[test]
fn fit_boundaries_unsigned() {
    for width in 0..64_u64 {
        let limit = 1_u64 << width;
        assert!(bitpack::fitsu(limit - 1, width));
        assert!(!bitpack::fitsu(limit, width));
    }
    assert!(bitpack::fitsu(0, 0));
    assert!(!bitpack::fitsu(1, 0));
}

#[test]
fn fit_boundaries_signed() {
    for width in 1..64_u64 {
        let limit = 1_i64 << (width - 1);
        assert!(bitpack::fitss(-limit, width));
        assert!(bitpack::fitss(limit - 1, width));
        assert!(!bitpack::fitss(limit, width));
        assert!(!bitpack::fitss(-limit - 1, width));
    }
    assert!(bitpack::fitss(0, 0));
    assert!(!bitpack::fitss(1, 0));
    assert!(!bitpack::fitss(-1, 0));
}

#[test]
fn width_64_and_above_fits_everything() {
    assert!(bitpack::fitsu(u64::MAX, 64));
    assert!(bitpack::fitsu(u64::MAX, 65));
    assert!(bitpack::fitsu(0, 64));
    assert!(bitpack::fitss(i64::MIN, 64));
    assert!(bitpack::fitss(i64::MAX, 64));
    assert!(bitpack::fitss(i64::MIN, u64::MAX));
}

#[test]
fn shift_by_64_is_defined() {
    assert_eq!(bitpack::shr(u64::MAX, 64), Some(0));
    assert_eq!(bitpack::shl(u64::MAX, 64), Some(0));
    assert_eq!(bitpack::shls(-1, 64), Some(0));
    assert_eq!(bitpack::shls(i64::MAX, 64), Some(0));
    assert_eq!(bitpack::sra(-1, 64), Some(-1));
    assert_eq!(bitpack::sra(i64::MIN, 64), Some(-1));
    assert_eq!(bitpack::sra(i64::MAX, 64), Some(0));
    assert_eq!(bitpack::sra(0, 64), Some(0));
}

#[test]
fn shift_counts_above_64_are_refused() {
    assert_eq!(bitpack::shr(1, 65), None);
    assert_eq!(bitpack::shl(1, 65), None);
    assert_eq!(bitpack::shls(1, 65), None);
    assert_eq!(bitpack::sra(1, 65), None);
    assert_eq!(bitpack::shr(1, u64::MAX), None);
}

#[test]
fn shifts_below_64() {
    assert_eq!(bitpack::shl(0x8000_0000_0000_0001, 1), Some(2));
    assert_eq!(bitpack::shl(3, 0), Some(3));
    assert_eq!(bitpack::shl(1, 63), Some(0x8000_0000_0000_0000));
    assert_eq!(bitpack::shr(0x8000_0000_0000_0001, 1), Some(0x4000_0000_0000_0000));
    assert_eq!(bitpack::shr(u64::MAX, 63), Some(1));
    assert_eq!(bitpack::shls(1, 63), Some(i64::MIN));
    assert_eq!(bitpack::shls(-1, 4), Some(-16));
    assert_eq!(bitpack::shls(i64::MIN, 1), Some(0));
    assert_eq!(bitpack::shls(0x4000_0000_0000_0001, 1), Some(i64::MIN + 2));
    assert_eq!(bitpack::sra(-16, 4), Some(-1));
    assert_eq!(bitpack::sra(-17, 4), Some(-2));
    assert_eq!(bitpack::sra(17, 4), Some(1));
    assert_eq!(bitpack::sra(i64::MIN, 63), Some(-1));
    assert_eq!(bitpack::sra(-5, 0), Some(-5));
}

#[test]
fn fields_outside_the_word_are_refused() {
    assert_eq!(bitpack::getu(0, 1, 64), None);
    assert_eq!(bitpack::getu(0, 65, 0), None);
    assert_eq!(bitpack::getu(0, 33, 32), None);
    assert_eq!(bitpack::getu(0, u64::MAX, 1), None);
    assert_eq!(bitpack::getu(0, 1, u64::MAX), None);
    assert_eq!(bitpack::getu(0, 0, 65), None);
    assert_eq!(bitpack::gets(0, 1, 64), None);
    assert_eq!(bitpack::gets(0, 65, 0), None);
    assert_eq!(bitpack::gets(0, 0, 65), None);
    assert_eq!(bitpack::gets(0, u64::MAX, u64::MAX), None);
    assert_eq!(bitpack::newu(7, 1, 64, 0), None);
    assert_eq!(bitpack::newu(7, 65, 0, 0), None);
    assert_eq!(bitpack::newu(7, u64::MAX, 2, 0), None);
    assert_eq!(bitpack::news(7, 1, 64, 0), None);
    assert_eq!(bitpack::news(7, 65, 0, 0), None);
    assert_eq!(bitpack::news(7, 64, 1, 0), None);
}

#[test]
fn empty_fields_read_zero() {
    assert_eq!(bitpack::getu(u64::MAX, 0, 0), Some(0));
    assert_eq!(bitpack::getu(u64::MAX, 0, 64), Some(0));
    assert_eq!(bitpack::getu(u64::MAX, 0, 17), Some(0));
    assert_eq!(bitpack::gets(u64::MAX, 0, 0), Some(0));
    assert_eq!(bitpack::gets(u64::MAX, 0, 64), Some(0));
    assert_eq!(bitpack::gets(u64::MAX, 0, 17), Some(0));
}

#[test]
fn whole_word_fields() {
    assert_eq!(bitpack::getu(0xdead_beef_0000_0001, 64, 0), Some(0xdead_beef_0000_0001));
    assert_eq!(bitpack::gets(u64::MAX, 64, 0), Some(-1));
    assert_eq!(bitpack::gets(0x8000_0000_0000_0000, 64, 0), Some(i64::MIN));
    assert_eq!(bitpack::news(0, 64, 0, -1), Some(u64::MAX));
    assert_eq!(bitpack::news(0, 64, 0, i64::MIN), Some(0x8000_0000_0000_0000));
}

#[test]
fn extract_reads_the_named_bits() {
    let word = 0x0123_4567_89ab_cdef_u64;
    assert_eq!(bitpack::getu(word, 4, 0), Some(0xf));
    assert_eq!(bitpack::getu(word, 8, 4), Some(0xde));
    assert_eq!(bitpack::getu(word, 16, 48), Some(0x0123));
    assert_eq!(bitpack::getu(word, 1, 63), Some(0));
    assert_eq!(bitpack::gets(word, 4, 0), Some(-1));
    assert_eq!(bitpack::gets(word, 4, 4), Some(-2));
    assert_eq!(bitpack::gets(word, 8, 56), Some(1));
    assert_eq!(bitpack::gets(0x80, 8, 0), Some(-128));
    assert_eq!(bitpack::gets(0x7f, 8, 0), Some(127));
    assert_eq!(bitpack::gets(0x8000_0000_0000_0000, 1, 63), Some(-1));
}

#[test]
fn insert_rejects_values_that_do_not_fit() {
    assert_eq!(bitpack::newu(0, 4, 0, 16), None);
    assert_eq!(bitpack::newu(0, 0, 0, 1), None);
    assert_eq!(bitpack::newu(0, 63, 0, 1 << 63), None);
    assert_eq!(bitpack::news(0, 4, 0, 8), None);
    assert_eq!(bitpack::news(0, 4, 0, -9), None);
    assert_eq!(bitpack::news(0, 0, 0, -1), None);
    assert_eq!(bitpack::news(0, 4, 0, 7), Some(7));
    assert_eq!(bitpack::news(0, 4, 0, -8), Some(8));
    assert_eq!(bitpack::news(0xff, 0, 3, 0), Some(0xff));
}
