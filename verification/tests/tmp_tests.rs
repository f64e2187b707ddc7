use fingertips::tmp::{file_name, TmpDir, MAX_TRIES};

#[test]
fn names_have_eight_hexadecimal_digits() {
    assert_eq!(file_name(1), "tmp00000001.dat");
    assert_eq!(file_name(0), "tmp00000000.dat");
    assert_eq!(file_name(26), "tmp0000001a.dat");
    assert_eq!(file_name(0xdead_beef), "tmpdeadbeef.dat");
    assert_eq!(file_name(0x0123_4567), "tmp01234567.dat");
    assert_eq!(file_name(0x89ab_cdef), "tmp89abcdef.dat");
}

#[test]
fn names_grow_beyond_eight_digits() {
    assert_eq!(file_name(0x1_0000_0000), "tmp100000000.dat");
    assert_eq!(file_name(usize::MAX), format!("tmp{:08x}.dat", usize::MAX));
}

#[test]
fn names_agree_with_the_formatter() {
    for n in [2usize, 9, 10, 15, 16, 255, 256, 4095, 65_536, 1 << 31, (1 << 32) - 1] {
        assert_eq!(file_name(n), format!("tmp{:08x}.dat", n));
    }
}

#[test]
fn create_counts_up_from_one() {
    let mut tmp = TmpDir::new("some/dir");
    assert_eq!(tmp.dir(), "some/dir");
    assert_eq!(tmp.count(), 1);
    assert_eq!(tmp.create(), "tmp00000001.dat");
    assert_eq!(tmp.create(), "tmp00000002.dat");
    assert_eq!(tmp.count(), 3);
}

#[test]
fn retry_gives_the_next_name_while_names_are_taken() {
    let mut tmp = TmpDir::new(".");
    assert_eq!(tmp.create(), "tmp00000001.dat");
    assert_eq!(tmp.retry(true), Some("tmp00000002.dat".to_string()));
    assert_eq!(tmp.retry(true), Some("tmp00000003.dat".to_string()));
    assert_eq!(tmp.retry(false), None);
    assert_eq!(tmp.count(), 4);
    assert_eq!(tmp.create(), "tmp00000004.dat");
}

#[test]
fn retry_gives_up_after_999_names() {
    let mut tmp = TmpDir::new(".");
    let mut tried = vec![tmp.create()];
    while let Some(name) = tmp.retry(true) {
        tried.push(name);
    }
    assert_eq!(MAX_TRIES, 999);
    assert_eq!(tried.len(), 999);
    assert_eq!(tried[998], format!("tmp{:08x}.dat", 999));
    assert_eq!(tmp.retry(true), None);
    assert_eq!(tmp.count(), 1000);
    assert_eq!(tmp.create(), format!("tmp{:08x}.dat", 1000));
    assert_eq!(tmp.retry(true), Some(format!("tmp{:08x}.dat", 1001)));
}

#[test]
fn clone_keeps_the_count() {
    let mut tmp = TmpDir::new(".");
    tmp.create();
    let mut other = tmp.clone();
    assert_eq!(other.create(), tmp.create());
}
