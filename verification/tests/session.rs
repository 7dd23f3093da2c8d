//! Tests of the access session: PIN assembly, commit, cancel, overflow,
//! timeout, card taps and feedback.
use doorsys::session::{
    feedback_pattern, keys_to_int, AuditEntry, CodeType, Session, HASH_KEY, STAR_KEY,
};
use doorsys::user::UserDB;
use doorsys::wiegand::Packet;

fn enter_digits(session: &mut Session, db: &UserDB, digits: &[u8]) {
    for &digit in digits {
        let out = session.handle_packet(&Packet::Key { key: digit }, db, 0);
        assert!(!out.open_door);
        assert!(out.audit.is_none());
    }
}

#[test]
fn pin_commit_success() {
    let mut session = Session::new();
    let mut db = UserDB::new();
    let _ = db.add(123);
    enter_digits(&mut session, &db, &[1, 2, 3]);
    let out = session.handle_packet(&Packet::Key { key: HASH_KEY }, &db, 42);
    assert!(out.open_door);
    assert_eq!(
        out.audit,
        Some(AuditEntry {
            code: 123,
            code_type: CodeType::Pin,
            timestamp: 42,
            success: true,
        })
    );
    assert_eq!(out.feedback, Some(true));
}

#[test]
fn pin_commit_failure() {
    let mut session = Session::new();
    let db = UserDB::new();
    enter_digits(&mut session, &db, &[1, 2, 3]);
    let out = session.handle_packet(&Packet::Key { key: HASH_KEY }, &db, 42);
    assert!(!out.open_door);
    assert_eq!(
        out.audit,
        Some(AuditEntry {
            code: 123,
            code_type: CodeType::Pin,
            timestamp: 42,
            success: false,
        })
    );
    assert_eq!(out.feedback, Some(false));
}

#[test]
fn overflow_clears_buffer_without_audit() {
    let mut session = Session::new();
    let mut db = UserDB::new();
    let _ = db.add(7);
    // Eight digits fill the buffer; the ninth overflows.
    enter_digits(&mut session, &db, &[1, 2, 3, 4, 5, 6, 7, 8]);
    let out = session.handle_packet(&Packet::Key { key: 9 }, &db, 0);
    assert!(!out.open_door);
    assert!(out.audit.is_none());
    assert_eq!(out.feedback, Some(false));
    // The buffer was cleared: a fresh entry starts from nothing.
    enter_digits(&mut session, &db, &[7]);
    let out = session.handle_packet(&Packet::Key { key: HASH_KEY }, &db, 0);
    assert!(out.open_door);
    assert_eq!(out.audit.unwrap().code, 7);
}

#[test]
fn timeout_abandons_pending_entry() {
    let mut session = Session::new();
    let db = UserDB::new();
    enter_digits(&mut session, &db, &[4, 5]);
    let out = session.handle_timeout();
    assert!(!out.open_door);
    assert!(out.audit.is_none());
    assert_eq!(out.feedback, Some(false));
    // The next timeout finds an empty buffer: idle waiting is a no-op.
    let out = session.handle_timeout();
    assert!(out.audit.is_none());
    assert!(out.feedback.is_none());
}

#[test]
fn star_cancels_entry() {
    let mut session = Session::new();
    let db = UserDB::new();
    enter_digits(&mut session, &db, &[9, 9]);
    let out = session.handle_packet(&Packet::Key { key: STAR_KEY }, &db, 0);
    assert!(!out.open_door);
    assert!(out.audit.is_none());
    assert_eq!(out.feedback, Some(false));
}

#[test]
fn card_tap_checks_and_audits() {
    let mut session = Session::new();
    let mut db = UserDB::new();
    let _ = db.add(0xABCDEF);
    let out = session.handle_packet(&Packet::Card { rfid: 0xABCDEF }, &db, 9);
    assert!(out.open_door);
    assert_eq!(
        out.audit,
        Some(AuditEntry {
            code: 0xABCDEF,
            code_type: CodeType::Fob,
            timestamp: 9,
            success: true,
        })
    );
    let out = session.handle_packet(&Packet::Card { rfid: 0x111111 }, &db, 9);
    assert!(!out.open_door);
    assert_eq!(out.audit.unwrap().success, false);
}

#[test]
fn card_tap_interrupts_pending_entry() {
    let mut session = Session::new();
    let mut db = UserDB::new();
    let _ = db.add(5);
    enter_digits(&mut session, &db, &[1, 2]);
    let _ = session.handle_packet(&Packet::Card { rfid: 99 }, &db, 0);
    // The pending digits are gone: committing now checks the empty PIN.
    enter_digits(&mut session, &db, &[5]);
    let out = session.handle_packet(&Packet::Key { key: HASH_KEY }, &db, 0);
    assert_eq!(out.audit.unwrap().code, 5);
    assert!(out.open_door);
}

#[test]
fn unknown_packet_changes_nothing() {
    let mut session = Session::new();
    let db = UserDB::new();
    enter_digits(&mut session, &db, &[3]);
    let out = session.handle_packet(&Packet::Unknown { bits: 11, data: 5 }, &db, 0);
    assert!(!out.open_door);
    assert!(out.audit.is_none());
    assert!(out.feedback.is_none());
    // The buffered digit is still there.
    let out = session.handle_packet(&Packet::Key { key: HASH_KEY }, &db, 0);
    assert_eq!(out.audit.unwrap().code, 3);
}

#[test]
fn keys_to_int_values() {
    assert_eq!(keys_to_int(&[]), 0);
    assert_eq!(keys_to_int(&[1, 2, 3]), 123);
    assert_eq!(keys_to_int(&[0, 0, 7]), 7);
    assert_eq!(keys_to_int(&[9, 9, 9, 9, 9, 9, 9, 9]), 99_999_999);
    // The widest possible entry of 4-bit values still fits a code.
    assert_eq!(keys_to_int(&[15, 15, 15, 15, 15, 15, 15, 15]), 166_666_665);
}

#[test]
fn feedback_patterns() {
    let success = feedback_pattern(true);
    assert_eq!(
        success,
        vec![false, false, false, false, false, false, false, false, true]
    );
    let failure = feedback_pattern(false);
    assert_eq!(
        failure,
        vec![false, true, false, true, false, true, false, true, true]
    );
}
