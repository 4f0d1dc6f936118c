use totalrecall::session::{handshake_refusal, Sessions};

#[test]
fn the_gate_refuses_and_counts_until_the_handshake() {
    let mut st = Sessions::new();
    let s = "s-1".to_string();
    assert_eq!(st.gate(&s), Err(handshake_refusal()));
    assert_eq!(st.gate(&s), Err(handshake_refusal()));
    assert_eq!(st.refused_count(&s), 2);
    assert!(!st.handshake(&s, false));
    assert!(st.gate(&s).is_err());
    assert!(st.handshake(&s, true));
    assert_eq!(st.gate(&s), Ok(()));
    assert_eq!(st.refused_count(&s), 3);
    assert!(st.handshake(&s, false));
}

#[test]
fn a_handshake_opens_the_gate_for_its_own_session_only() {
    let mut st = Sessions::new();
    let a = "a".to_string();
    let b = "b".to_string();
    assert!(st.handshake(&a, true));
    assert!(st.is_handshaken(&a));
    assert!(!st.is_handshaken(&b));
    assert!(st.gate(&b).is_err());
    assert_eq!(st.refused_count(&a), 0);
    assert_eq!(st.refused_count(&b), 1);
}

#[test]
fn claim_tokens_are_kept_per_session() {
    let mut st = Sessions::new();
    let a = "a".to_string();
    st.store_claim_token(&a, &"t1".to_string());
    st.store_claim_token(&a, &"t2".to_string());
    assert_eq!(st.claim_token(&a), Some("t2".to_string()));
    assert_eq!(st.claim_token(&"b".to_string()), None);
}

#[test]
fn the_refusal_restates_the_rule() {
    assert!(handshake_refusal().starts_with("handshake incomplete — call read_signoff first"));
}
