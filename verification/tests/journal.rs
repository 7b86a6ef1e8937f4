use adabt_engine::error::Error;
use adabt_engine::journal::{commit_coordinated, load_journal, write_journal, CrossShardWrite};
use adabt_engine::record::Record;
use adabt_engine::value::Value;

fn put(id: u64) -> CrossShardWrite {
    CrossShardWrite {
        collection: "c".into(),
        id,
        record: Some(
            Record::new()
                .with("n", Value::I64(-3))
                .with("s", Value::text("é"))
                .with("b", Value::Bytes(vec![0, 255]))
                .with("l", Value::List(vec![Value::Null, Value::Bool(true), Value::U64(7)]))
                .with("f", Value::F64(1.5f64.to_bits())),
        ),
    }
}

fn delete(id: u64) -> CrossShardWrite {
    CrossShardWrite { collection: "c".into(), id, record: None }
}

#[test]
fn a_journal_reads_back() {
    let writes = vec![put(1), delete(2), put(3)];
    let bytes = write_journal(&writes);
    assert_eq!(&bytes[..4], b"XSH1");
    assert_eq!(load_journal(Some(&bytes)), Ok(writes));
    assert_eq!(load_journal(None), Ok(vec![]));
}

#[test]
fn a_torn_tail_loses_nothing_before_it() {
    let whole = write_journal(&vec![put(1), delete(2)]);
    let first = write_journal(&vec![put(1)]).len();
    for cut in first..whole.len() {
        assert_eq!(load_journal(Some(&whole[..cut])), Ok(vec![put(1)]), "cut at {cut}");
    }
}

#[test]
fn a_file_that_is_no_journal_is_refused() {
    assert!(matches!(load_journal(Some(b"nope")), Err(Error::Corruption(_))));
}

#[test]
fn a_commit_keeps_what_was_promised_before_it() {
    let pending = write_journal(&vec![put(1)]);
    assert_eq!(
        commit_coordinated(Some(&pending), vec![delete(2)]),
        Ok(vec![put(1), delete(2)])
    );
    assert_eq!(commit_coordinated(Some(&pending), vec![]), Ok(vec![]));
    assert_eq!(commit_coordinated(None, vec![put(4)]), Ok(vec![put(4)]));
}

#[test]
fn a_write_that_does_not_decode_says_why() {
    let mut bytes = Vec::new();
    put(1).encode(&mut bytes);
    let (back, used) = CrossShardWrite::decode(&bytes).unwrap();
    assert_eq!(back, put(1));
    assert_eq!(used, bytes.len());
    let mut kind = Vec::new();
    delete(1).encode(&mut kind);
    let last = kind.len() - 1;
    kind[last] = 9;
    assert_eq!(
        CrossShardWrite::decode(&kind).err(),
        Some(Error::Corruption("coordinator journal: unknown write kind 9".into()))
    );
    // A write that is not all there could not be read, which is no damage.
    for cut in 0..kind.len() {
        assert_eq!(
            CrossShardWrite::decode(&kind[..cut]).err(),
            Some(Error::Io("failed to fill whole buffer".into())),
            "cut at {cut}"
        );
    }
    assert!(matches!(CrossShardWrite::decode(&bytes[..3]), Err(Error::Io(_))));
    assert!(matches!(
        CrossShardWrite::decode(&bytes[..bytes.len() - 1]),
        Err(Error::Corruption(_))
    ));
    // A write starts with its collection's name, after the name's length.
    let at = bytes.iter().position(|b| *b == b'c').unwrap();
    bytes[at] = 0xc3;
    assert_eq!(
        CrossShardWrite::decode(&bytes).err(),
        Some(Error::Corruption(
            "coordinator journal name: incomplete utf-8 byte sequence from index 0".into()
        ))
    );
}
