use adabt_engine::unique::{checksum, read, UniqueConstraints};

#[test]
fn a_constraint_set_round_trips() {
    let mut c = UniqueConstraints::default();
    c.add("users", "email");
    c.add("users", "handle");
    c.add("orders", "external_id");
    let saved = adabt_engine::unique::write(&c);
    assert_eq!(read(Some(&saved)), c);
}

#[test]
fn an_absent_file_reads_as_no_constraints() {
    assert!(read(None).is_empty());
}

#[test]
fn removing_a_constraint_and_reloading_reflects_it() {
    let mut c = UniqueConstraints::default();
    c.add("users", "email");
    assert!(!read(Some(&adabt_engine::unique::write(&c))).is_empty());
    c.remove("users", "email");
    assert!(read(Some(&adabt_engine::unique::write(&c))).is_empty());
}

#[test]
fn corruption_and_truncation_read_as_no_constraints_rather_than_crash() {
    let mut c = UniqueConstraints::default();
    c.add("users", "email");
    let good = adabt_engine::unique::write(&c);
    for cut in 0..good.len() {
        assert!(read(Some(&good[..cut])).is_empty(), "length {cut} was accepted");
    }
    for at in 0..good.len() {
        let mut damaged = good.clone();
        damaged[at] ^= 0x11;
        assert!(read(Some(&damaged)).is_empty(), "damage at {at} was accepted");
    }
}

#[test]
fn on_filters_by_collection() {
    let mut c = UniqueConstraints::default();
    c.add("users", "email");
    c.add("orders", "external_id");
    let users: Vec<&str> = c.on("users");
    assert_eq!(users, vec!["email"]);
}

#[test]
fn a_constraint_is_listed_once_and_in_order() {
    let mut c = UniqueConstraints::default();
    assert!(c.add("users", "email"));
    assert!(!c.add("users", "email"));
    c.add("orders", "external_id");
    assert_eq!(c.iter(), vec![("orders", "external_id"), ("users", "email")]);
    assert!(c.contains("users", "email"));
    assert!(!c.remove("users", "handle"));
}

#[test]
fn one_changed_byte_changes_the_checksum() {
    let bytes = b"aDaBtUnq some bytes".to_vec();
    for at in 0..bytes.len() {
        for flip in [1u8, 0x80, 0xff] {
            let mut other = bytes.clone();
            other[at] ^= flip;
            assert_ne!(checksum(&bytes), checksum(&other));
        }
    }
    assert_eq!(checksum(b""), 0xcbf2_9ce4_8422_2325);
}

#[test]
fn no_more_bytes_are_taken_than_there_are() {
    let bytes = [1u8, 2, 3, 4];
    assert_eq!(adabt_engine::unique::take(&bytes, 1, 2), Some(&bytes[1..3]));
    assert_eq!(adabt_engine::unique::take(&bytes, 4, 0), Some(&bytes[4..]));
    assert_eq!(adabt_engine::unique::take(&bytes, 3, 2), None);
    assert_eq!(adabt_engine::unique::take(&bytes, 5, 0), None);
    assert_eq!(adabt_engine::unique::take(&bytes, 1, usize::MAX), None);
}
