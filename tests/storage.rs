use move_transition::changes::{ChangeSet, Op};
use move_transition::storage::{ApplyError, InMemoryAccountStorage, InMemoryStorage};

fn addr(b: u8) -> Vec<u8> {
    vec![b; 32]
}

fn create_m() -> ChangeSet {
    let mut cs = ChangeSet::new();
    cs.add_module_op(addr(0xA), b"m".to_vec(), Op::Create(vec![1, 2, 3]));
    cs
}

#[test]
fn create_on_empty_storage_publishes_module() {
    let mut st = InMemoryStorage::new();
    assert!(st.apply(create_m()).is_ok());
    assert_eq!(st.get_module(&addr(0xA), &b"m".to_vec()), Some(vec![1, 2, 3]));
    assert_eq!(st.get_module(&addr(0xB), &b"m".to_vec()), None);
}

#[test]
fn second_create_fails_with_key_already_exists() {
    let mut st = InMemoryStorage::new();
    assert!(st.apply(create_m()).is_ok());
    match st.apply(create_m()) {
        Err(ApplyError::KeyAlreadyExists(k)) => assert_eq!(k, b"m".to_vec()),
        _ => panic!("expected KeyAlreadyExists"),
    }
    assert_eq!(st.get_module(&addr(0xA), &b"m".to_vec()), Some(vec![1, 2, 3]));
}

#[test]
fn update_of_missing_key_fails_with_key_not_found() {
    let mut st = InMemoryStorage::new();
    let mut cs = ChangeSet::new();
    cs.add_resource_op(addr(1), b"T".to_vec(), Op::Update(vec![5]));
    match st.apply(cs) {
        Err(ApplyError::KeyNotFound(k)) => assert_eq!(k, b"T".to_vec()),
        _ => panic!("expected KeyNotFound"),
    }
    let mut del = ChangeSet::new();
    del.add_module_op(addr(1), b"gone".to_vec(), Op::Delete);
    assert!(matches!(st.apply(del), Err(ApplyError::KeyNotFound(_))));
}

#[test]
fn failed_apply_leaves_storage_unchanged() {
    let mut st = InMemoryStorage::new();
    st.publish_or_overwrite_module(addr(2), b"x".to_vec(), vec![7]);
    let mut cs = ChangeSet::new();
    // account 1 sorts first and would be created; account 2 then conflicts
    cs.add_module_op(addr(1), b"new".to_vec(), Op::Create(vec![1]));
    cs.add_module_op(addr(2), b"x".to_vec(), Op::Create(vec![8]));
    assert!(st.apply(cs).is_err());
    assert_eq!(st.get_module(&addr(1), &b"new".to_vec()), None);
    assert_eq!(st.get_module(&addr(2), &b"x".to_vec()), Some(vec![7]));
    assert!(st.get_account(&addr(1)).is_none());
}

#[test]
fn apply_creates_updates_and_deletes() {
    let mut st = InMemoryStorage::new();
    st.publish_or_overwrite_module(addr(1), b"keep".to_vec(), vec![1]);
    st.publish_or_overwrite_module(addr(1), b"del".to_vec(), vec![2]);
    st.publish_or_overwrite_resource(addr(1), b"R".to_vec(), vec![3]);
    let mut cs = ChangeSet::new();
    cs.add_module_op(addr(1), b"del".to_vec(), Op::Delete);
    cs.add_module_op(addr(1), b"new".to_vec(), Op::Create(vec![4]));
    cs.add_resource_op(addr(1), b"R".to_vec(), Op::Update(vec![5, 6]));
    assert!(st.apply(cs).is_ok());
    assert_eq!(st.get_module(&addr(1), &b"keep".to_vec()), Some(vec![1]));
    assert_eq!(st.get_module(&addr(1), &b"del".to_vec()), None);
    assert_eq!(st.get_module(&addr(1), &b"new".to_vec()), Some(vec![4]));
    assert_eq!(st.get_resource(&addr(1), &b"R".to_vec()), (Some(vec![5, 6]), 2));
    assert_eq!(st.get_resource(&addr(1), &b"S".to_vec()), (None, 0));
}

#[test]
fn publish_overwrites() {
    let mut st = InMemoryStorage::new();
    st.publish_or_overwrite_resource(addr(3), b"R".to_vec(), vec![1]);
    st.publish_or_overwrite_resource(addr(3), b"R".to_vec(), vec![2]);
    assert_eq!(st.get_resource(&addr(3), &b"R".to_vec()), (Some(vec![2]), 1));
}

#[test]
fn apply_extended_applies_across_accounts() {
    let mut st = InMemoryStorage::new();
    st.publish_or_overwrite_resource(addr(9), b"R".to_vec(), vec![1]);
    let mut cs = ChangeSet::new();
    cs.add_module_op(addr(4), b"m".to_vec(), Op::Create(vec![2]));
    cs.add_resource_op(addr(5), b"R".to_vec(), Op::Create(vec![3]));
    assert!(st.apply_extended(cs).is_ok());
    assert_eq!(st.get_module(&addr(4), &b"m".to_vec()), Some(vec![2]));
    assert_eq!(st.get_resource(&addr(5), &b"R".to_vec()), (Some(vec![3]), 1));
    assert_eq!(st.get_resource(&addr(9), &b"R".to_vec()), (Some(vec![1]), 1));
}

#[test]
fn snapshot_bytes_do_not_depend_on_publish_order() {
    let mut s1 = InMemoryStorage::new();
    s1.publish_or_overwrite_module(addr(1), b"b".to_vec(), vec![2]);
    s1.publish_or_overwrite_module(addr(1), b"a".to_vec(), vec![1]);
    s1.publish_or_overwrite_resource(addr(1), b"S".to_vec(), vec![4]);
    s1.publish_or_overwrite_resource(addr(1), b"R".to_vec(), vec![3]);
    let mut s2 = InMemoryStorage::new();
    s2.publish_or_overwrite_resource(addr(1), b"R".to_vec(), vec![3]);
    s2.publish_or_overwrite_module(addr(1), b"a".to_vec(), vec![1]);
    s2.publish_or_overwrite_resource(addr(1), b"S".to_vec(), vec![4]);
    s2.publish_or_overwrite_module(addr(1), b"b".to_vec(), vec![2]);
    let b1 = s1.get_account(&addr(1)).unwrap().to_bytes().ok().unwrap();
    let b2 = s2.get_account(&addr(1)).unwrap().to_bytes().ok().unwrap();
    assert_eq!(b1, b2);
}

#[test]
fn account_apply_rejects_conflict_and_keeps_account() {
    let mut st = InMemoryStorage::new();
    st.publish_or_overwrite_module(addr(1), b"m".to_vec(), vec![1]);
    let mut acct = InMemoryAccountStorage::new();
    let before = st.get_account(&addr(1)).unwrap().to_bytes().ok().unwrap();
    let mut cs = ChangeSet::new();
    cs.add_resource_op(addr(1), b"R".to_vec(), Op::Create(vec![2]));
    cs.add_module_op(addr(1), b"m".to_vec(), Op::Create(vec![3]));
    let ch = &cs.accounts[0].1;
    acct.modules.push((b"m".to_vec(), vec![1]));
    match acct.apply(ch) {
        Err(ApplyError::KeyAlreadyExists(k)) => assert_eq!(k, b"m".to_vec()),
        _ => panic!("expected KeyAlreadyExists"),
    }
    assert_eq!(acct.to_bytes().ok().unwrap(), before);
    let mut fresh = InMemoryAccountStorage::new();
    let mut ok = ChangeSet::new();
    ok.add_module_op(addr(1), b"n".to_vec(), Op::Create(vec![5]));
    assert!(fresh.apply(&ok.accounts[0].1).is_ok());
    assert_eq!(fresh.modules, vec![(b"n".to_vec(), vec![5u8])]);
}

#[test]
fn first_conflict_in_order_is_reported() {
    let mut st = InMemoryStorage::new();
    st.publish_or_overwrite_module(addr(2), b"x".to_vec(), vec![1]);
    let mut cs = ChangeSet::new();
    cs.add_module_op(addr(2), b"x".to_vec(), Op::Create(vec![2]));
    cs.add_module_op(addr(2), b"y".to_vec(), Op::Delete);
    cs.add_module_op(addr(1), b"ok".to_vec(), Op::Create(vec![3]));
    cs.add_module_op(addr(3), b"z".to_vec(), Op::Update(vec![4]));
    match st.apply(cs) {
        Err(ApplyError::KeyAlreadyExists(k)) => assert_eq!(k, b"x".to_vec()),
        _ => panic!("expected the conflict on x"),
    }
}
