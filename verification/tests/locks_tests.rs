use totalrecall::locks::{
    exhausted_refusal, holder_silence, lock_contents, lock_is_ours, next_lock_move,
    parse_lock_field, parse_u64, stale, LockAttempt, LockMove, LockToken,
};

#[test]
fn the_holder_record_has_its_session_last() {
    let t = LockToken { pid: 42, nonce: 7, epoch: 1000 };
    assert_eq!(lock_contents(&t, "s 1"), "pid=42 nonce=7 epoch=1000 session=s 1\n");
}

#[test]
fn lock_fields_read_back() {
    let t = LockToken { pid: 42, nonce: 7, epoch: 1_789_302_131 };
    let c = lock_contents(&t, "append_signoff");
    assert_eq!(parse_lock_field(&c, "pid"), Some("42".to_string()));
    assert_eq!(parse_lock_field(&c, "nonce"), Some("7".to_string()));
    assert_eq!(parse_lock_field(&c, "epoch"), Some("1789302131".to_string()));
    assert_eq!(parse_lock_field(&c, "session"), Some("append_signoff".to_string()));
    assert_eq!(parse_lock_field(&c, "missing"), None);
    assert_eq!(parse_lock_field("pid= nonce=1", "pid"), None);
}

#[test]
fn a_release_removes_only_its_own_lock() {
    let t = LockToken { pid: 1, nonce: 2, epoch: 3 };
    let c = lock_contents(&t, "x");
    assert!(lock_is_ours(&c, &t));
    assert!(!lock_is_ours(&c, &LockToken { pid: 1, nonce: 9, epoch: 3 }));
    assert!(!lock_is_ours("", &t));
}

#[test]
fn u64_parsing_follows_from_str() {
    assert_eq!(parse_u64("+12"), Some(12));
    assert_eq!(parse_u64("0"), Some(0));
    assert_eq!(parse_u64(""), None);
    assert_eq!(parse_u64("+"), None);
    assert_eq!(parse_u64("-1"), None);
    assert_eq!(parse_u64("1 2"), None);
    assert_eq!(parse_u64("18446744073709551615"), Some(u64::MAX));
    assert_eq!(parse_u64("18446744073709551616"), None);
    for s in ["7", "+7", "007", "99999999999"] {
        assert_eq!(parse_u64(s), s.parse::<u64>().ok());
    }
}

#[test]
fn silence_comes_from_the_record_then_the_mtime() {
    let c = Some("pid=1 nonce=2 epoch=1000 session=x\n".to_string());
    assert_eq!(holder_silence(&c, Some(1030), None), Some(30));
    assert_eq!(holder_silence(&c, Some(999), Some(5)), Some(5));
    assert_eq!(holder_silence(&Some("garbage".to_string()), Some(1030), Some(4)), Some(4));
    assert_eq!(holder_silence(&None, Some(1030), None), None);
    assert!(stale(Some(30)));
    assert!(!stale(Some(29)));
    assert!(!stale(None));
}

#[test]
fn the_acquire_loop_is_bounded() {
    assert!(next_lock_move(1, LockAttempt::Created) == LockMove::Publish);
    assert!(next_lock_move(50, LockAttempt::Held { took_over: true }) == LockMove::RetryNow);
    assert!(next_lock_move(49, LockAttempt::Held { took_over: false }) == LockMove::Wait);
    assert!(next_lock_move(50, LockAttempt::Held { took_over: false }) == LockMove::GiveUp);
    assert!(exhausted_refusal("append_signoff", "signoff.md.lock").starts_with(
        "append_signoff refused: .locks/signoff.md.lock is held by another writer"
    ));
}
