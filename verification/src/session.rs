//! Access session: the per-reader state machine that assembles keypad
//! digits into PIN entries, classifies decoded packets, checks them
//! against the credential store, and decides on door triggers, audit
//! records and operator feedback.
use crate::user::UserDB;
use crate::wiegand::Packet;
use vstd::arithmetic::power::{lemma_pow_increases, lemma_pow_positive, pow};
use vstd::prelude::*;

verus! {

/// Maximum number of buffered PIN digits.
pub const MAX_PIN_LENGTH: usize = 8;

/// How long the session waits for a packet before abandoning a pending
/// PIN entry, in milliseconds.
pub const PIN_TIMEOUT_MS: u64 = 10000;

/// Keypad code of the cancel marker.
pub const STAR_KEY: u8 = 0x0A;

/// Keypad code of the commit marker.
pub const HASH_KEY: u8 = 0x0B;

/// Whether an audited code was entered as a PIN or read from a fob.
#[derive(Clone, Copy, Debug, PartialEq, Eq, Structural)]
pub enum CodeType {
    Pin,
    Fob,
}

/// One audit record, emitted per completed PIN commit or card tap.
#[derive(Clone, Copy, Debug, PartialEq, Eq, Structural)]
pub struct AuditEntry {
    pub code: i32,
    pub code_type: CodeType,
    pub timestamp: u64,
    pub success: bool,
}

/// What the session decides on one event: whether to trigger the door,
/// the audit record to publish, and the feedback pattern to play
/// (`Some(success)`), if any.
#[derive(Clone, Copy, Debug)]
pub struct Outcome {
    pub open_door: bool,
    pub audit: Option<AuditEntry>,
    pub feedback: Option<bool>,
}

/// The decimal value of a digit sequence, first digit most significant.
pub open spec fn pin_value(digits: Seq<u8>) -> int
    decreases digits.len(),
{
    if digits.len() == 0 {
        0
    } else {
        pin_value(digits.drop_last()) * 10 + digits.last()
    }
}

/// The credential code a committed digit sequence stands for.
pub open spec fn pin_code(digits: Seq<u8>) -> i32 {
    pin_value(digits) as i32
}

/// A digit sequence the session may hold: at most eight digits, each a
/// 4-bit keypad value.
pub open spec fn valid_digits(digits: Seq<u8>) -> bool {
    digits.len() <= MAX_PIN_LENGTH && forall|k: int| 0 <= k < digits.len() ==> digits[k] < 16
}

/// Concrete powers of ten used to bound PIN values.
proof fn lemma_pow10_concrete()
    ensures
        pow(10, 7) == 10000000,
        pow(10, 8) == 100000000,
{
    reveal(pow);
    assert(pow(10, 0) == 1);
    assert(pow(10, 1) == 10);
    assert(pow(10, 2) == 100);
    assert(pow(10, 3) == 1000);
    assert(pow(10, 4) == 10000);
    assert(pow(10, 5) == 100000);
    assert(pow(10, 6) == 1000000);
    assert(pow(10, 7) == 10000000);
    assert(pow(10, 8) == 100000000);
}

/// The value of a valid digit sequence is nonnegative and small enough
/// for a credential code.
pub proof fn lemma_pin_value_bound(digits: Seq<u8>)
    requires
        forall|k: int| 0 <= k < digits.len() ==> digits[k] < 16,
    ensures
        0 <= pin_value(digits),
        pin_value(digits) + 2 <= 2 * pow(10, digits.len()),
    decreases digits.len(),
{
    reveal(pow);
    lemma_pow_positive(10, digits.len());
    if digits.len() == 0 {
    } else {
        let rest = digits.drop_last();
        lemma_pin_value_bound(rest);
        assert(pow(10, digits.len()) == 10 * pow(10, rest.len()));
    }
}

/// Converts a key press sequence into its credential code: the decimal
/// integer formed by the digits in entry order.
pub fn keys_to_int(keys: &[u8]) -> (code: i32)
    requires
        valid_digits(keys@),
    ensures
        code == pin_code(keys@),
        code == pin_value(keys@),
{
    let ghost whole: Seq<u8> = keys@;
    let mut value: i32 = 0;
    let mut i: usize = 0;
    proof {
        reveal(pow);
        assert(whole.subrange(0, 0) =~= Seq::<u8>::empty());
    }
    while i < keys.len()
        invariant
            i <= keys@.len(),
            keys@ == whole,
            valid_digits(whole),
            value == pin_value(whole.subrange(0, i as int)),
            0 <= value,
            value + 2 <= 2 * pow(10, i as nat),
        decreases keys@.len() - i,
    {
        proof {
            reveal(pow);
            lemma_pow_increases(10, i as nat, 7);
            lemma_pow10_concrete();
            let prefix = whole.subrange(0, i + 1);
            assert(prefix.drop_last() =~= whole.subrange(0, i as int));
            assert(prefix.last() == whole[i as int]);
            assert(pow(10, (i + 1) as nat) == 10 * pow(10, i as nat));
        }
        value = value * 10 + (keys[i] as i32);
        i = i + 1;
    }
    proof {
        assert(whole.subrange(0, whole.len() as int) =~= whole);
    }
    value
}

/// The session's PIN entry buffer.
pub struct Session {
    keys: Vec<u8>,
}

impl View for Session {
    type V = Seq<u8>;

    closed spec fn view(&self) -> Seq<u8> {
        self.keys@
    }
}

/// What the session decides for one packet, given the buffered digits,
/// the authorized codes and the current time: the new buffer and the
/// outcome.
///
/// A commit marker turns the buffer into a PIN, checks it, triggers the
/// door on success, audits the attempt and clears the buffer.  A cancel
/// marker clears the buffer.  Another digit with the buffer full is an
/// overflow: the buffer is cleared with failure feedback and no audit.
/// A card tap is checked and audited like a commit and interrupts any
/// pending entry.  An unclassified frame changes nothing.
pub open spec fn step(state: Seq<u8>, packet: Packet, codes: Set<i32>, now: u64) -> (Seq<
    u8,
>, Outcome) {
    match packet {
        Packet::Key { key } => {
            if key == HASH_KEY {
                let success = codes.contains(pin_code(state));
                (
                    Seq::empty(),
                    Outcome {
                        open_door: success,
                        audit: Some(
                            AuditEntry {
                                code: pin_code(state),
                                code_type: CodeType::Pin,
                                timestamp: now,
                                success,
                            },
                        ),
                        feedback: Some(success),
                    },
                )
            } else if key == STAR_KEY {
                (
                    Seq::empty(),
                    Outcome { open_door: false, audit: None, feedback: Some(false) },
                )
            } else if state.len() >= MAX_PIN_LENGTH {
                (
                    Seq::empty(),
                    Outcome { open_door: false, audit: None, feedback: Some(false) },
                )
            } else {
                (state.push(key), Outcome { open_door: false, audit: None, feedback: None })
            }
        },
        Packet::Card { rfid } => {
            let success = codes.contains(rfid);
            (
                Seq::empty(),
                Outcome {
                    open_door: success,
                    audit: Some(
                        AuditEntry {
                            code: rfid,
                            code_type: CodeType::Fob,
                            timestamp: now,
                            success,
                        },
                    ),
                    feedback: Some(success),
                },
            )
        },
        Packet::Unknown { .. } => (
            state,
            Outcome { open_door: false, audit: None, feedback: None },
        ),
    }
}

/// What the session decides when no packet arrives within the PIN entry
/// timeout: a pending entry is abandoned with failure feedback; an empty
/// buffer is left alone.
pub open spec fn timeout_step(state: Seq<u8>) -> (Seq<u8>, Outcome) {
    if state.len() > 0 {
        (Seq::empty(), Outcome { open_door: false, audit: None, feedback: Some(false) })
    } else {
        (state, Outcome { open_door: false, audit: None, feedback: None })
    }
}

impl Session {
    /// The buffer never exceeds capacity and holds 4-bit digits only.
    pub open spec fn wf(self) -> bool {
        valid_digits(self@)
    }

    /// A session with an empty PIN buffer.
    pub fn new() -> (session: Session)
        ensures
            session.wf(),
            session@ == Seq::<u8>::empty(),
    {
        Session { keys: Vec::new() }
    }

    /// Handles one decoded packet as [`step`] describes.
    pub fn handle_packet(&mut self, packet: &Packet, db: &UserDB, now: u64) -> (out: Outcome)
        requires
            old(self).wf(),
            db.wf(),
            packet.wf(),
        ensures
            final(self).wf(),
            (final(self)@, out) == step(old(self)@, *packet, db@, now),
    {
        match *packet {
            Packet::Key { key } => {
                if key == HASH_KEY {
                    proof {
                        lemma_pin_value_bound(self.keys@);
                    }
                    let pin = keys_to_int(self.keys.as_slice());
                    let success = db.contains(pin);
                    self.keys.clear();
                    Outcome {
                        open_door: success,
                        audit: Some(
                            AuditEntry {
                                code: pin,
                                code_type: CodeType::Pin,
                                timestamp: now,
                                success,
                            },
                        ),
                        feedback: Some(success),
                    }
                } else if key == STAR_KEY {
                    self.keys.clear();
                    Outcome { open_door: false, audit: None, feedback: Some(false) }
                } else if self.keys.len() == MAX_PIN_LENGTH {
                    self.keys.clear();
                    Outcome { open_door: false, audit: None, feedback: Some(false) }
                } else {
                    self.keys.push(key);
                    Outcome { open_door: false, audit: None, feedback: None }
                }
            },
            Packet::Card { rfid } => {
                let success = db.contains(rfid);
                self.keys.clear();
                Outcome {
                    open_door: success,
                    audit: Some(
                        AuditEntry {
                            code: rfid,
                            code_type: CodeType::Fob,
                            timestamp: now,
                            success,
                        },
                    ),
                    feedback: Some(success),
                }
            },
            Packet::Unknown { .. } => {
                Outcome { open_door: false, audit: None, feedback: None }
            },
        }
    }

    /// Handles a receive timeout as [`timeout_step`] describes.
    pub fn handle_timeout(&mut self) -> (out: Outcome)
        requires
            old(self).wf(),
        ensures
            final(self).wf(),
            (final(self)@, out) == timeout_step(old(self)@),
    {
        if self.keys.len() > 0 {
            self.keys.clear();
            Outcome { open_door: false, audit: None, feedback: Some(false) }
        } else {
            Outcome { open_door: false, audit: None, feedback: None }
        }
    }
}

/// The buffer the session holds after a sequence of key presses.
pub open spec fn feed(state: Seq<u8>, digits: Seq<u8>, codes: Set<i32>, now: u64) -> Seq<u8>
    decreases digits.len(),
{
    if digits.len() == 0 {
        state
    } else {
        feed(
            step(state, Packet::Key { key: digits[0] }, codes, now).0,
            digits.drop_first(),
            codes,
            now,
        )
    }
}

/// Plain digits (neither marker) accumulate in entry order as long as
/// the buffer has room.
pub proof fn lemma_digits_accumulate(state: Seq<u8>, digits: Seq<u8>, codes: Set<i32>, now: u64)
    requires
        state.len() + digits.len() <= MAX_PIN_LENGTH,
        forall|k: int|
            0 <= k < digits.len() ==> #[trigger] digits[k] != STAR_KEY && digits[k] != HASH_KEY,
    ensures
        feed(state, digits, codes, now) == state + digits,
    decreases digits.len(),
{
    if digits.len() == 0 {
        assert(state + digits =~= state);
    } else {
        let pushed = state.push(digits[0]);
        assert(step(state, Packet::Key { key: digits[0] }, codes, now).0 == pushed);
        lemma_digits_accumulate(pushed, digits.drop_first(), codes, now);
        assert(pushed + digits.drop_first() =~= state + digits);
    }
}

/// Entering a sequence of plain digits from an empty buffer and then the
/// commit marker audits exactly the decimal PIN the digits form, and
/// opens the door if and only if that PIN is authorized.
pub proof fn lemma_pin_entry_commit(digits: Seq<u8>, codes: Set<i32>, now: u64)
    requires
        valid_digits(digits),
        forall|k: int|
            0 <= k < digits.len() ==> #[trigger] digits[k] != STAR_KEY && digits[k] != HASH_KEY,
    ensures
        feed(Seq::empty(), digits, codes, now) == digits,
        ({
            let (cleared, out) = step(digits, Packet::Key { key: HASH_KEY }, codes, now);
            &&& cleared.len() == 0
            &&& out.open_door == codes.contains(pin_code(digits))
            &&& out.audit == Some(
                AuditEntry {
                    code: pin_code(digits),
                    code_type: CodeType::Pin,
                    timestamp: now,
                    success: codes.contains(pin_code(digits)),
                },
            )
            &&& out.feedback == Some(codes.contains(pin_code(digits)))
            &&& pin_code(digits) == pin_value(digits)
        }),
{
    lemma_digits_accumulate(Seq::empty(), digits, codes, now);
    assert(Seq::empty() + digits =~= digits);
    lemma_pin_value_bound(digits);
    assert(pin_value(digits) + 2 <= 2 * pow(10, 8)) by {
        lemma_pow_increases(10, digits.len(), 8);
    }
    lemma_pow10_concrete();
}

/// The operator feedback pattern, as the sequence of levels the signal
/// line is driven to, one per fixed interval: success holds the line low
/// for eight intervals, failure toggles it each interval; either pattern
/// ends with the line released high.
pub fn feedback_pattern(success: bool) -> (levels: Vec<bool>)
    ensures
        levels@.len() == 9,
        levels@[8] == true,
        success ==> forall|k: int| 0 <= k < 8 ==> levels@[k] == false,
        !success ==> forall|k: int| 0 <= k < 8 ==> levels@[k] == (k % 2 == 1),
{
    let mut levels: Vec<bool> = Vec::new();
    let mut line: bool = true;
    let mut i: usize = 0;
    while i < 8
        invariant
            i <= 8,
            levels@.len() == i,
            success ==> forall|k: int| 0 <= k < i ==> levels@[k] == false,
            !success ==> forall|k: int| 0 <= k < i ==> levels@[k] == (k % 2 == 1),
            !success ==> line == (i % 2 == 0),
        decreases 8 - i,
    {
        if success {
            line = false;
        } else {
            line = !line;
        }
        levels.push(line);
        i = i + 1;
    }
    levels.push(true);
    levels
}

} // verus!
