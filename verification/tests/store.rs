use rustleak::store::FillResult;
use rustleak::store::GetOutcome;
use rustleak::store::SessionStore;

fn code() -> Vec<u8> {
    b"job1".to_vec()
}

#[test]
fn fresh_store_knows_nothing() {
    let store = SessionStore::new();
    assert_eq!(store.count(&code()), None);
    assert_eq!(store.get(&code(), 0), GetOutcome::UnknownCode);
}

#[test]
fn fill_without_session_is_unknown_code() {
    let mut store = SessionStore::new();
    assert_eq!(store.fill(&code(), 0, b"AA".to_vec()), FillResult::UnknownCode);
}

#[test]
fn upload_creates_and_fills() {
    let mut store = SessionStore::new();
    assert_eq!(store.upload(&code(), 1, 3, b"BB".to_vec()), FillResult::Accepted);
    assert_eq!(store.count(&code()), Some(3));
    assert_eq!(store.get(&code(), 1), GetOutcome::Present { fragment: b"BB".to_vec() });
    assert_eq!(store.get(&code(), 0), GetOutcome::Empty);
    assert_eq!(store.get(&code(), 3), GetOutcome::SeqOutOfBounds);
}

#[test]
fn duplicate_fill_is_rejected_whatever_the_content() {
    let mut store = SessionStore::new();
    assert_eq!(store.upload(&code(), 0, 2, b"AA".to_vec()), FillResult::Accepted);
    assert_eq!(store.upload(&code(), 0, 2, b"AA".to_vec()), FillResult::DuplicateSlot);
    assert_eq!(store.upload(&code(), 0, 2, b"ZZ".to_vec()), FillResult::DuplicateSlot);
    // The first fragment is untouched.
    assert_eq!(store.get(&code(), 0), GetOutcome::Present { fragment: b"AA".to_vec() });
}

#[test]
fn out_of_bounds_fill_never_mutates() {
    let mut store = SessionStore::new();
    assert_eq!(store.upload(&code(), 0, 2, b"AA".to_vec()), FillResult::Accepted);
    assert_eq!(store.upload(&code(), 2, 2, b"CC".to_vec()), FillResult::SeqOutOfBounds);
    assert_eq!(store.upload(&code(), 9, 2, b"CC".to_vec()), FillResult::SeqOutOfBounds);
    assert_eq!(store.count(&code()), Some(2));
    assert_eq!(store.get(&code(), 0), GetOutcome::Present { fragment: b"AA".to_vec() });
    assert_eq!(store.get(&code(), 1), GetOutcome::Empty);
}

#[test]
fn maxseq_is_fixed_at_creation() {
    let mut store = SessionStore::new();
    assert_eq!(store.upload(&code(), 0, 2, b"AA".to_vec()), FillResult::Accepted);
    // A later upload claiming a larger session does not resize it.
    assert_eq!(store.upload(&code(), 4, 9, b"EE".to_vec()), FillResult::SeqOutOfBounds);
    assert_eq!(store.count(&code()), Some(2));
}

#[test]
fn close_removes_visibility_and_a_new_upload_starts_fresh() {
    let mut store = SessionStore::new();
    assert_eq!(store.upload(&code(), 0, 2, b"AA".to_vec()), FillResult::Accepted);
    assert!(store.close(&code()));
    assert_eq!(store.count(&code()), None);
    assert_eq!(store.get(&code(), 0), GetOutcome::UnknownCode);
    // Filling again behaves as if the code had never existed: a fresh
    // session is created, with a fresh size and all other slots empty.
    assert_eq!(store.upload(&code(), 2, 5, b"NN".to_vec()), FillResult::Accepted);
    assert_eq!(store.count(&code()), Some(5));
    assert_eq!(store.get(&code(), 0), GetOutcome::Empty);
    assert_eq!(store.get(&code(), 2), GetOutcome::Present { fragment: b"NN".to_vec() });
}

#[test]
fn close_of_unknown_code_reports_false() {
    let mut store = SessionStore::new();
    assert!(!store.close(&code()));
    assert_eq!(store.upload(&code(), 0, 1, b"AA".to_vec()), FillResult::Accepted);
    assert!(store.close(&code()));
    assert!(!store.close(&code()));
}

#[test]
fn sessions_are_independent() {
    let mut store = SessionStore::new();
    let other = b"job2".to_vec();
    assert_eq!(store.upload(&code(), 0, 1, b"AA".to_vec()), FillResult::Accepted);
    assert_eq!(store.upload(&other, 0, 4, b"BB".to_vec()), FillResult::Accepted);
    assert!(store.close(&code()));
    assert_eq!(store.count(&code()), None);
    assert_eq!(store.count(&other), Some(4));
    assert_eq!(store.get(&other, 0), GetOutcome::Present { fragment: b"BB".to_vec() });
}

#[test]
fn zero_slot_session_exists_but_accepts_nothing() {
    let mut store = SessionStore::new();
    assert_eq!(store.upload(&code(), 0, 0, b"AA".to_vec()), FillResult::SeqOutOfBounds);
    // The session was still created by the ensure step, with zero slots.
    assert_eq!(store.count(&code()), Some(0));
}
