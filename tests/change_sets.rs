use move_transition::changes::{ChangeSet, Op};
use move_transition::codec::{deserialize_changes, serialize_changes, DecodeError};

fn addr(b: u8) -> Vec<u8> {
    vec![b; 32]
}

fn sample() -> ChangeSet {
    let mut cs = ChangeSet::new();
    cs.add_module_op(addr(2), b"m".to_vec(), Op::Create(vec![1, 2, 3]));
    cs.add_resource_op(addr(2), b"{\"T\":1}".to_vec(), Op::Update(vec![9]));
    cs.add_module_op(addr(1), b"z".to_vec(), Op::Delete);
    cs.add_module_op(addr(1), b"a".to_vec(), Op::Create(vec![]));
    cs
}

#[test]
fn empty_change_set_encodes_to_zero_count() {
    let cs = ChangeSet::new();
    let bytes = serialize_changes(&cs).ok().unwrap();
    assert_eq!(bytes, vec![0u8, 0, 0, 0]);
    let back = deserialize_changes(&bytes).ok().unwrap();
    assert_eq!(back.num_accounts(), 0);
}

#[test]
fn single_create_encoding_is_exact() {
    let mut cs = ChangeSet::new();
    cs.add_module_op(addr(7), b"m".to_vec(), Op::Create(vec![1, 2, 3]));
    let bytes = serialize_changes(&cs).ok().unwrap();
    let mut expected = vec![1u8, 0, 0, 0];
    expected.extend(vec![7u8; 32]);
    expected.extend(vec![1u8, 0, 0, 0, 1, 0, 0, 0, b'm', 0, 3, 0, 0, 0, 1, 2, 3]);
    expected.extend(vec![0u8, 0, 0, 0]);
    assert_eq!(bytes, expected);
}

#[test]
fn round_trip_keeps_change_set() {
    let cs = sample();
    let bytes = serialize_changes(&cs).ok().unwrap();
    let back = deserialize_changes(&bytes).ok().unwrap();
    assert_eq!(serialize_changes(&back).ok().unwrap(), bytes);
    assert_eq!(back.accounts.len(), 2);
    assert_eq!(back.accounts[0].0, addr(1));
    assert_eq!(back.accounts[0].1.modules.len(), 2);
    assert_eq!(back.accounts[0].1.modules[0].0, b"a".to_vec());
    assert!(matches!(back.accounts[0].1.modules[1].1, Op::Delete));
    assert!(matches!(&back.accounts[1].1.resources[0].1, Op::Update(v) if v == &vec![9u8]));
}

#[test]
fn insertion_order_does_not_change_encoding() {
    let mut other = ChangeSet::new();
    other.add_module_op(addr(1), b"a".to_vec(), Op::Create(vec![]));
    other.add_module_op(addr(1), b"z".to_vec(), Op::Delete);
    other.add_resource_op(addr(2), b"{\"T\":1}".to_vec(), Op::Update(vec![9]));
    other.add_module_op(addr(2), b"m".to_vec(), Op::Create(vec![1, 2, 3]));
    assert_eq!(serialize_changes(&sample()).ok().unwrap(), serialize_changes(&other).ok().unwrap());
}

#[test]
fn later_op_on_same_slot_replaces_earlier() {
    let mut cs = ChangeSet::new();
    cs.add_module_op(addr(1), b"m".to_vec(), Op::Create(vec![1]));
    cs.add_module_op(addr(1), b"m".to_vec(), Op::Update(vec![2]));
    assert_eq!(cs.accounts[0].1.modules.len(), 1);
    assert!(matches!(&cs.accounts[0].1.modules[0].1, Op::Update(v) if v == &vec![2u8]));
}

#[test]
fn truncated_input_is_rejected() {
    let bytes = serialize_changes(&sample()).ok().unwrap();
    let cut = bytes[..bytes.len() - 1].to_vec();
    assert!(matches!(deserialize_changes(&cut), Err(DecodeError::Truncated)));
    assert!(matches!(deserialize_changes(&vec![1u8, 0]), Err(DecodeError::Truncated)));
}

#[test]
fn unknown_op_is_rejected() {
    let mut bytes = serialize_changes(&{
        let mut cs = ChangeSet::new();
        cs.add_module_op(addr(7), b"m".to_vec(), Op::Delete);
        cs
    })
    .ok()
    .unwrap();
    // the discriminant follows count, address, module count and the name
    let at = 4 + 32 + 4 + 4 + 1;
    assert_eq!(bytes[at], 2);
    bytes[at] = 7;
    assert!(matches!(deserialize_changes(&bytes), Err(DecodeError::UnknownOp(7))));
}

#[test]
fn unsorted_addresses_are_rejected() {
    let mut bytes = vec![2u8, 0, 0, 0];
    for b in [5u8, 3u8] {
        bytes.extend(vec![b; 32]);
        bytes.extend(vec![0u8, 0, 0, 0, 0, 0, 0, 0]);
    }
    assert!(matches!(deserialize_changes(&bytes), Err(DecodeError::NotCanonical)));
}

#[test]
fn trailing_bytes_are_rejected() {
    let mut bytes = serialize_changes(&sample()).ok().unwrap();
    bytes.push(0);
    assert!(matches!(deserialize_changes(&bytes), Err(DecodeError::TrailingBytes)));
}
