use fingertips::error::{FingertipsError, FingertipsErrorKind};
use fingertips::format::low_u32;
use fingertips::lex::{compare, Relation};

#[test]
fn compare_goes_byte_by_byte() {
    assert_eq!(compare(b"", b""), Relation::Same);
    assert_eq!(compare(b"", b"a"), Relation::Before);
    assert_eq!(compare(b"a", b""), Relation::After);
    assert_eq!(compare(b"abc", b"abc"), Relation::Same);
    assert_eq!(compare(b"abc", b"abd"), Relation::Before);
    assert_eq!(compare(b"abd", b"abc"), Relation::After);
    assert_eq!(compare(b"ab", b"abc"), Relation::Before);
    assert_eq!(compare(b"abc", b"ab"), Relation::After);
    assert_eq!(compare(b"b", b"abc"), Relation::After);
    assert_eq!(compare(&[0x7f], &[0x80]), Relation::Before);
    assert_eq!(compare(&[0xff], &[0x00, 0xff]), Relation::After);
}

#[test]
fn compare_agrees_with_the_order_of_strings() {
    let words = ["", "a", "B", "z", "é", "zz", "日本", "a\u{0}", "aé", "az"];
    for x in words {
        for y in words {
            let expected = if x < y {
                Relation::Before
            } else if x == y {
                Relation::Same
            } else {
                Relation::After
            };
            assert_eq!(compare(x.as_bytes(), y.as_bytes()), expected);
        }
    }
}

#[test]
fn low_u32_keeps_the_low_bits() {
    assert_eq!(low_u32(0), 0);
    assert_eq!(low_u32(0xffff_ffff), 0xffff_ffff);
    assert_eq!(low_u32(0x1_0000_0000), 0);
    assert_eq!(low_u32(0x12_3456_789a), 0x3456_789a);
}

#[test]
fn error_gives_its_kind() {
    let kinds = [
        FingertipsErrorKind::Io,
        FingertipsErrorKind::EmptyCorpus,
        FingertipsErrorKind::CorruptIndex,
        FingertipsErrorKind::PlatformLimitExceeded,
        FingertipsErrorKind::NoEntryToMove,
    ];
    for kind in kinds {
        assert_eq!(FingertipsError::new(kind).into_inner(), kind);
        assert_eq!(FingertipsError::from(kind).into_inner(), kind);
        assert_eq!(FingertipsError::from(kind), FingertipsError::new(kind));
    }
    assert_ne!(FingertipsError::new(kinds[0]), FingertipsError::new(kinds[1]));
}
