use move_transition::changes::{ChangeSet, Op};
use move_transition::codec::serialize_changes;
use move_transition::resolver::{digest_of, AccountCache, AccountLookup, Cached, ResolveError, SmtStorage};
use move_transition::storage::InMemoryAccountStorage;
use move_transition::transition::{finalize, step, Action, Event, Phase};

fn snapshot() -> InMemoryAccountStorage {
    let mut a = InMemoryAccountStorage::new();
    a.modules.push((b"m".to_vec(), vec![1, 2, 3]));
    a.resources.push((b"R".to_vec(), vec![4]));
    a
}

#[test]
fn digest_is_sha256() {
    let d = digest_of(&b"abc".to_vec());
    let expected: Vec<u8> = vec![
        0xba, 0x78, 0x16, 0xbf, 0x8f, 0x01, 0xcf, 0xea, 0x41, 0x41, 0x40, 0xde, 0x5d, 0xae, 0x22,
        0x23, 0xb0, 0x03, 0x61, 0xa3, 0x96, 0x17, 0x7a, 0x9c, 0xb4, 0x10, 0xff, 0x61, 0xf2, 0x00,
        0x15, 0xad,
    ];
    assert_eq!(d, expected);
    let smt = SmtStorage::new(vec![0; 32]);
    assert_eq!(smt.account_key(&b"abc".to_vec()), expected);
}

#[test]
fn snapshot_round_trip() {
    let bytes = snapshot().to_bytes().ok().unwrap();
    let back = InMemoryAccountStorage::try_from_bytes(&bytes).ok().unwrap();
    assert_eq!(back.modules, snapshot().modules);
    assert_eq!(back.resources, snapshot().resources);
}

#[test]
fn honest_host_yields_committed_snapshot() {
    let smt = SmtStorage::new(vec![1; 32]);
    let bytes = snapshot().to_bytes().ok().unwrap();
    let value = digest_of(&bytes);
    assert!(matches!(smt.check_lookup(true, &value), Ok(AccountLookup::Fetch)));
    let got = smt.authenticate_account(&value, &bytes).ok().unwrap();
    assert_eq!(got.modules, snapshot().modules);
    assert_eq!(got.resources, snapshot().resources);
}

#[test]
fn empty_value_means_absent_account() {
    let smt = SmtStorage::new(vec![1; 32]);
    assert!(matches!(smt.check_lookup(true, &vec![0u8; 32]), Ok(AccountLookup::Absent)));
}

#[test]
fn failed_proof_is_authentication_failure() {
    let smt = SmtStorage::new(vec![1; 32]);
    assert!(matches!(
        smt.check_lookup(false, &vec![0u8; 32]),
        Err(ResolveError::AuthenticationFailure)
    ));
}

#[test]
fn tampered_bytes_are_dishonest_host() {
    let smt = SmtStorage::new(vec![1; 32]);
    let bytes = snapshot().to_bytes().ok().unwrap();
    let value = digest_of(&bytes);
    let mut tampered = bytes.clone();
    let last = tampered.len() - 1;
    tampered[last] ^= 1;
    assert!(matches!(
        smt.authenticate_account(&value, &tampered),
        Err(ResolveError::DishonestHost)
    ));
}

#[test]
fn authentic_garbage_is_malformed_account() {
    let smt = SmtStorage::new(vec![1; 32]);
    let bytes = vec![9u8, 9];
    let value = digest_of(&bytes);
    assert!(matches!(
        smt.authenticate_account(&value, &bytes),
        Err(ResolveError::MalformedAccount(_))
    ));
}

#[test]
fn finalize_concatenates_and_digests() {
    let mut cs = ChangeSet::new();
    cs.add_module_op(vec![2; 32], b"m".to_vec(), Op::Delete);
    let out = finalize(&vec![vec![1u8, 2], vec![3u8]], &cs).ok().unwrap();
    let mut expected = vec![1u8, 2, 3];
    expected.extend(serialize_changes(&cs).ok().unwrap());
    assert_eq!(out.bytes, expected);
    assert_eq!(out.digest, digest_of(&expected));
}

#[test]
fn unsorted_snapshot_bytes_are_rejected() {
    let mut bytes = vec![2u8, 0, 0, 0];
    for name in [b'b', b'a'] {
        bytes.extend(vec![1u8, 0, 0, 0, name, 1, 0, 0, 0, 7]);
    }
    bytes.extend(vec![0u8, 0, 0, 0]);
    assert!(matches!(
        InMemoryAccountStorage::try_from_bytes(&bytes),
        Err(move_transition::codec::DecodeError::NotCanonical)
    ));
}

#[test]
fn transition_commits_root_before_output() {
    let (p, a) = step(Phase::Start, Event::Begin);
    assert!(matches!(a, Action::CommitRoot));
    let (p, a) = step(p, Event::RootCommitted);
    assert!(matches!(a, Action::Execute));
    let (p, a) = step(p, Event::Succeeded);
    assert!(matches!(a, Action::CommitOutput));
    assert!(matches!(p, Phase::Finalized));
    let (_, a) = step(Phase::Start, Event::Succeeded);
    assert!(matches!(a, Action::Abort));
    let (p, a) = step(Phase::Executing, Event::Failed);
    assert!(matches!((p, a), (Phase::Aborted, Action::Abort)));
}

#[test]
fn cache_answers_repeat_reads() {
    let mut cache = AccountCache::new();
    let a = vec![1u8; 32];
    let b = vec![2u8; 32];
    assert!(matches!(cache.lookup(&a), Cached::Unknown));
    cache.record(a.clone(), Some(snapshot()));
    cache.record(b.clone(), None);
    match cache.lookup(&a) {
        Cached::Present(s) => assert_eq!(s.modules, snapshot().modules),
        _ => panic!("expected the recorded snapshot"),
    }
    assert!(matches!(cache.lookup(&b), Cached::Absent));
    assert!(matches!(cache.lookup(&vec![3u8; 32]), Cached::Unknown));
}
