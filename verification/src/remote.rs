//! Remote credential commands: the decisions behind the message-bus
//! subscription that keeps the credential store up to date.
//!
//! The wire decoding of a command is done by the surrounding program;
//! the routing decision and the mutation of the store are verified here.
use crate::user::{codes_of_blob, UserDB};
use vstd::prelude::*;

verus! {

/// A remote command mutating the credential store.
#[derive(Clone, Debug, PartialEq, Eq)]
pub enum UserAction {
    Add(i32),
    Del(i32),
    Replace { prev: i32, next: i32 },
    Bulk(Vec<i32>),
}

/// The authorized set after one remote command.
pub open spec fn apply_action_spec(codes: Set<i32>, action: UserAction) -> Set<i32> {
    match action {
        UserAction::Add(code) => codes.insert(code),
        UserAction::Del(code) => codes.remove(code),
        UserAction::Replace { prev, next } => codes.remove(prev).insert(next),
        UserAction::Bulk(list) => list@.to_set(),
    }
}

/// Applies one remote command to the store.  The result is the
/// serialized image of the new set to be written to durable storage; the
/// in-memory set is updated before any such write.
pub fn apply_user_action(db: &mut UserDB, action: &UserAction) -> (blob: Option<Vec<u8>>)
    requires
        old(db).wf(),
    ensures
        final(db).wf(),
        final(db)@ == apply_action_spec(old(db)@, *action),
        blob is Some,
        blob matches Some(b) ==> (codes_of_blob(b@) matches Some(s) && s.to_set()
            == final(db)@),
{
    match action {
        UserAction::Add(code) => db.add(*code),
        UserAction::Del(code) => db.delete(*code),
        UserAction::Replace { prev, next } => db.replace(*prev, *next),
        UserAction::Bulk(list) => db.bulk(list),
    }
}

/// Whether a message topic is the one that carries credential commands;
/// messages on any other topic are ignored.
pub fn is_user_topic(topic: &String) -> (r: bool)
    ensures
        r == (topic@ == "doorsys/user"@),
{
    let user_topic: String = "doorsys/user".to_owned();
    *topic == user_topic
}

} // verus!
