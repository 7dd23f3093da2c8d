//! Credential store: the set of authorized codes.
//!
//! A code identifies either a PIN (the decimal value of the digit
//! sequence) or a card id.  The store is a set with unique membership,
//! kept sorted internally; every mutation also yields the serialized
//! image of the new set, which the caller writes to durable storage.
//! Should that write fail, the in-memory set has already changed and no
//! rollback occurs.
use vstd::prelude::*;

verus! {

/// The serialized image of a sequence of codes.
pub uninterp spec fn codes_blob(codes: Seq<i32>) -> Seq<u8>;

/// What decoding a stored image yields: the code sequence it holds, or
/// nothing if the bytes are not a valid image.
pub uninterp spec fn codes_of_blob(blob: Seq<u8>) -> Option<Seq<i32>>;

/// Relies on postcard::to_allocvec: the encoding of a sequence of codes
/// depends on the sequence alone and always succeeds (the growable
/// buffer flavor never reports fullness and integers always encode), and
/// postcard::from_bytes decodes the encoding back to the value that was
/// encoded.
#[verifier::external_body]
fn encode_codes(codes: &Vec<i32>) -> (blob: Option<Vec<u8>>)
    ensures
        blob is Some,
        blob matches Some(b) ==> (b@ == codes_blob(codes@) && codes_of_blob(b@) == Some(codes@)),
{
    postcard::to_allocvec(codes).ok()
}

/// Relies on postcard::from_bytes: decoding depends on the bytes alone,
/// and fails exactly where the bytes are not a valid image.
#[verifier::external_body]
fn decode_codes(blob: &[u8]) -> (codes: Option<Vec<i32>>)
    ensures
        match codes {
            Some(v) => codes_of_blob(blob@) == Some(v@),
            None => codes_of_blob(blob@) is None,
        },
{
    postcard::from_bytes::<Vec<i32>>(blob).ok()
}

/// Strictly increasing order: sorted with no duplicates.
spec fn sorted_strict(s: Seq<i32>) -> bool {
    forall|i: int, j: int| 0 <= i < j < s.len() ==> s[i] < s[j]
}

/// The set of authorized credential codes.
pub struct UserDB {
    codes: Vec<i32>,
}

impl View for UserDB {
    type V = Set<i32>;

    closed spec fn view(&self) -> Set<i32> {
        self.codes@.to_set()
    }
}

/// First index whose element is at least `code`, in a sorted vector.
fn find_lower(codes: &Vec<i32>, code: i32) -> (index: usize)
    requires
        sorted_strict(codes@),
    ensures
        index <= codes@.len(),
        forall|k: int| 0 <= k < index ==> codes@[k] < code,
        index < codes@.len() ==> codes@[index as int] >= code,
{
    let mut i: usize = 0;
    while i < codes.len() && codes[i] < code
        invariant
            i <= codes@.len(),
            forall|k: int| 0 <= k < i ==> codes@[k] < code,
        decreases codes@.len() - i,
    {
        i = i + 1;
    }
    i
}

/// Inserts a code into a sorted vector, keeping order and uniqueness.
fn insert_code(codes: &mut Vec<i32>, code: i32)
    requires
        sorted_strict(old(codes)@),
    ensures
        sorted_strict(final(codes)@),
        final(codes)@.to_set() == old(codes)@.to_set().insert(code),
{
    let i = find_lower(codes, code);
    if i == codes.len() || codes[i] > code {
        codes.insert(i, code);
        assert(final(codes)@.to_set() =~= old(codes)@.to_set().insert(code)) by {
            assert(forall|x: i32| final(codes)@.contains(x) <==> (old(codes)@.contains(x) || x
                == code)) by {
                assert forall|x: i32| old(codes)@.contains(x) implies final(codes)@.contains(
                    x,
                ) by {
                    let k = choose|k: int| 0 <= k < old(codes)@.len() && old(codes)@[k] == x;
                    if k < i {
                        assert(final(codes)@[k] == x);
                    } else {
                        assert(final(codes)@[k + 1] == x);
                    }
                }
                assert(final(codes)@[i as int] == code);
                assert forall|x: i32| final(codes)@.contains(x) implies (old(codes)@.contains(x)
                    || x == code) by {
                    let k = choose|k: int|
                        0 <= k < final(codes)@.len() && final(codes)@[k] == x;
                    if k < i {
                        assert(old(codes)@[k] == x);
                    } else if k > i {
                        assert(old(codes)@[k - 1] == x);
                    }
                }
            }
        }
    } else {
        assert(codes@.to_set() =~= codes@.to_set().insert(code)) by {
            assert(codes@[i as int] == code);
            assert(codes@.contains(code));
        }
    }
}

/// Removes a code from a sorted vector, keeping order; absent codes are
/// left alone.
fn remove_code(codes: &mut Vec<i32>, code: i32)
    requires
        sorted_strict(old(codes)@),
    ensures
        sorted_strict(final(codes)@),
        final(codes)@.to_set() == old(codes)@.to_set().remove(code),
{
    let i = find_lower(codes, code);
    if i < codes.len() && codes[i] == code {
        codes.remove(i);
        assert(final(codes)@.to_set() =~= old(codes)@.to_set().remove(code)) by {
            assert forall|x: i32| final(codes)@.contains(x) implies (old(codes)@.contains(x) && x
                != code) by {
                let k = choose|k: int| 0 <= k < final(codes)@.len() && final(codes)@[k] == x;
                if k < i {
                    assert(old(codes)@[k] == x);
                } else {
                    assert(old(codes)@[k + 1] == x);
                }
            }
            assert forall|x: i32| old(codes)@.contains(x) && x != code implies final(codes)@.contains(x) by {
                let k = choose|k: int| 0 <= k < old(codes)@.len() && old(codes)@[k] == x;
                if k < i {
                    assert(final(codes)@[k] == x);
                } else {
                    assert(k != i);
                    assert(final(codes)@[k - 1] == x);
                }
            }
        }
    } else {
        assert(codes@.to_set() =~= codes@.to_set().remove(code)) by {
            assert(forall|k: int| 0 <= k < codes@.len() ==> codes@[k] != code);
            assert(!codes@.contains(code));
        }
    }
}

impl UserDB {
    /// The store's internal order is maintained by every operation.
    pub closed spec fn wf(self) -> bool {
        sorted_strict(self.codes@)
    }

    /// An empty store.
    pub fn new() -> (db: UserDB)
        ensures
            db.wf(),
            db@ == Set::<i32>::empty(),
    {
        let db = UserDB { codes: Vec::new() };
        proof {
            assert(db.codes@.to_set() =~= Set::<i32>::empty());
        }
        db
    }

    /// Rebuilds the store from a stored image: the set of codes the image
    /// holds, or nothing if the bytes are not a valid image.  A fresh
    /// device with no stored image starts from [`UserDB::new`] instead.
    pub fn load(blob: &[u8]) -> (db: Option<UserDB>)
        ensures
            match db {
                Some(d) => d.wf() && (codes_of_blob(blob@) matches Some(s) && d@ == s.to_set()),
                None => codes_of_blob(blob@) is None,
            },
    {
        match decode_codes(blob) {
            Some(list) => Some(UserDB::from_list(&list)),
            None => None,
        }
    }

    /// Builds a store holding exactly the codes of the list, duplicates
    /// collapsed.
    fn from_list(list: &Vec<i32>) -> (db: UserDB)
        ensures
            db.wf(),
            db@ == list@.to_set(),
    {
        let mut codes: Vec<i32> = Vec::new();
        let mut i: usize = 0;
        proof {
            assert(codes@.to_set() =~= list@.subrange(0, 0).to_set());
        }
        while i < list.len()
            invariant
                i <= list@.len(),
                sorted_strict(codes@),
                codes@.to_set() == list@.subrange(0, i as int).to_set(),
            decreases list@.len() - i,
        {
            insert_code(&mut codes, list[i]);
            proof {
                assert(list@.subrange(0, i + 1 as int).to_set() =~= list@.subrange(
                    0,
                    i as int,
                ).to_set().insert(list@[i as int])) by {
                    let prefix = list@.subrange(0, i + 1 as int);
                    let shorter = list@.subrange(0, i as int);
                    assert(forall|k: int| 0 <= k < shorter.len() ==> prefix[k] == shorter[k]);
                    assert(prefix[i as int] == list@[i as int]);
                    assert forall|x: i32| prefix.contains(x) implies (shorter.contains(x) || x
                        == list@[i as int]) by {
                        let k = choose|k: int| 0 <= k < prefix.len() && prefix[k] == x;
                        if k < i {
                            assert(shorter[k] == x);
                        }
                    }
                }
            }
            i = i + 1;
        }
        proof {
            assert(list@.subrange(0, list@.len() as int) =~= list@);
        }
        UserDB { codes }
    }

    /// Read-only membership test.
    pub fn contains(&self, code: i32) -> (present: bool)
        requires
            self.wf(),
        ensures
            present == self@.contains(code),
    {
        let i = find_lower(&self.codes, code);
        if i < self.codes.len() && self.codes[i] == code {
            assert(self.codes@.contains(code));
            true
        } else {
            assert(!self.codes@.contains(code)) by {
                assert(forall|k: int|
                    0 <= k < self.codes@.len() ==> self.codes@[k] != code);
            }
            false
        }
    }

    /// Adds a code; adding a present code changes nothing.  The result is
    /// the serialized image of the new set, to be written to durable
    /// storage; the in-memory set is updated before any such write.
    pub fn add(&mut self, code: i32) -> (blob: Option<Vec<u8>>)
        requires
            old(self).wf(),
        ensures
            final(self).wf(),
            final(self)@ == old(self)@.insert(code),
            blob is Some,
            blob matches Some(b) ==> (codes_of_blob(b@) matches Some(s) && s.to_set()
                == final(self)@),
    {
        insert_code(&mut self.codes, code);
        encode_codes(&self.codes)
    }

    /// Deletes a code; deleting an absent code changes nothing.  The
    /// result is as for [`UserDB::add`].
    pub fn delete(&mut self, code: i32) -> (blob: Option<Vec<u8>>)
        requires
            old(self).wf(),
        ensures
            final(self).wf(),
            final(self)@ == old(self)@.remove(code),
            blob is Some,
            blob matches Some(b) ==> (codes_of_blob(b@) matches Some(s) && s.to_set()
                == final(self)@),
    {
        remove_code(&mut self.codes, code);
        encode_codes(&self.codes)
    }

    /// Removes `prev` (if present) and inserts `next`, as one operation.
    /// The result is as for [`UserDB::add`].
    pub fn replace(&mut self, prev: i32, next: i32) -> (blob: Option<Vec<u8>>)
        requires
            old(self).wf(),
        ensures
            final(self).wf(),
            final(self)@ == old(self)@.remove(prev).insert(next),
            blob is Some,
            blob matches Some(b) ==> (codes_of_blob(b@) matches Some(s) && s.to_set()
                == final(self)@),
    {
        remove_code(&mut self.codes, prev);
        insert_code(&mut self.codes, next);
        encode_codes(&self.codes)
    }

    /// Replaces the whole set with the given codes, duplicates collapsed.
    /// The result is as for [`UserDB::add`].
    pub fn bulk(&mut self, list: &Vec<i32>) -> (blob: Option<Vec<u8>>)
        requires
            old(self).wf(),
        ensures
            final(self).wf(),
            final(self)@ == list@.to_set(),
            blob is Some,
            blob matches Some(b) ==> (codes_of_blob(b@) matches Some(s) && s.to_set()
                == final(self)@),
    {
        *self = UserDB::from_list(list);
        encode_codes(&self.codes)
    }
}

/// Adding a code twice leaves the store as after the first add, and
/// deleting an absent code is a no-op: the store is a set.
pub proof fn lemma_store_idempotent(s: Set<i32>, code: i32)
    ensures
        s.insert(code).insert(code) == s.insert(code),
        !s.contains(code) ==> s.remove(code) == s,
{
    assert(s.insert(code).insert(code) =~= s.insert(code));
    if !s.contains(code) {
        assert(s.remove(code) =~= s);
    }
}

/// Membership after each mutation: an added code is present, a deleted
/// code absent; after a replace the old code is gone (unless it equals
/// the new one) and the new one present.
pub proof fn lemma_store_membership(s: Set<i32>, code: i32, prev: i32, next: i32)
    ensures
        s.insert(code).contains(code),
        !s.remove(code).contains(code),
        s.remove(prev).insert(next).contains(next),
        prev != next ==> !s.remove(prev).insert(next).contains(prev),
{
}

} // verus!
