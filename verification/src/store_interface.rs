//! The shape of the scores interface: identifiers, records handed back by
//! queries, the error taxonomy, and the opaque hashed password.

use vstd::prelude::*;
use crate::password;

verus! {

/// Relies on uuid::Uuid::new_v4 (and as_u128, which converts the result): a
/// freshly drawn random identifier — 122 random bits, with the six UUID
/// version and variant bits fixed. Nothing is promised of the value.
#[verifier::external_body]
fn random_id_bits() -> u128 {
    uuid::Uuid::new_v4().as_u128()
}

/// Identifies a group of scorables: 128 opaque bits, drawn at random when the
/// group is created.
#[derive(Clone, Copy, Debug, PartialEq, Eq, Structural)]
pub struct GroupId(pub u128);

impl GroupId {
    /// Draw a fresh identifier. Nothing is promised of its value.
    pub fn new() -> GroupId {
        GroupId(random_id_bits())
    }
}

/// Identifies a scorable: 128 opaque bits, drawn at random on creation.
#[derive(Clone, Copy, Debug, PartialEq, Eq, Structural)]
pub struct ScorableId(pub u128);

impl ScorableId {
    /// Draw a fresh identifier. Nothing is promised of its value.
    pub fn new() -> ScorableId {
        ScorableId(random_id_bits())
    }
}

/// Identifies a score: 128 opaque bits, drawn at random on creation.
#[derive(Clone, Copy, Debug, PartialEq, Eq, Structural)]
pub struct ScoreId(pub u128);

impl ScoreId {
    /// Draw a fresh identifier. Nothing is promised of its value.
    pub fn new() -> ScoreId {
        ScoreId(random_id_bits())
    }
}

/// A password hash as produced by [`password::hash`]: an opaque encoded
/// string, compared and stored but never inspected.
#[derive(Debug, PartialEq)]
pub struct HashedPassword(String);

impl Clone for HashedPassword {
    fn clone(&self) -> (r: Self)
        ensures
            r@ == self@,
    {
        HashedPassword(self.0.clone())
    }
}

impl View for HashedPassword {
    type V = Seq<char>;

    closed spec fn view(&self) -> Seq<char> {
        self.0@
    }
}

impl HashedPassword {
    /// Adopt an already-encoded hash, as read back from the event log.
    pub fn from_encoded(encoded: String) -> (r: HashedPassword)
        ensures
            r@ == encoded@,
    {
        HashedPassword(encoded)
    }

    /// The encoded hash as it is written to the event log.
    pub fn encoded_str(&self) -> (r: &str)
        ensures
            r@ == self@,
    {
        self.0.as_str()
    }

    /// Hash a plaintext password under a fresh random salt. The hash is
    /// opaque, but it verifies against the password it was made from.
    pub fn from_plain_password(plain: &str) -> (r: HashedPassword)
        requires
            plain@.len() < 0x3FFF_FFFF,
        ensures
            password::verify_of(r@, plain@),
    {
        HashedPassword(password::hash(plain))
    }

    /// Check a plaintext password against this hash.
    pub fn verify_plain_password(&self, plain: &str) -> (r: bool)
        ensures
            r == password::verify_of(self@, plain@),
    {
        password::verify(self.0.as_str(), plain)
    }
}

/// The recoverable, caller-facing failures: each names the entity that a
/// mutation or query expected to find.
#[derive(Clone, Debug, PartialEq)]
pub enum StoreError {
    UserNotFound(String),
    GroupNotFound(GroupId),
    ScorableNotFound(ScorableId),
    ScoreNotFound(ScoreId),
}

/// The one-line description of an error.
pub open spec fn error_message(e: StoreError) -> Seq<char> {
    match e {
        StoreError::UserNotFound(n) => "user '"@ + n@ + "' not found"@,
        StoreError::GroupNotFound(g) => "group '"@ + crate::numbers::u128_digits(g.0)
            + "' not found"@,
        StoreError::ScorableNotFound(s) => "scorable '"@ + crate::numbers::u128_digits(s.0)
            + "' not found"@,
        StoreError::ScoreNotFound(s) => "score '"@ + crate::numbers::u128_digits(s.0)
            + "' not found"@,
    }
}

impl StoreError {
    /// The error as one line of text.
    pub fn message(&self) -> (r: String)
        ensures
            r@ == error_message(*self),
    {
        match self {
            StoreError::UserNotFound(n) => String::from_str("user '").concat(n.as_str()).concat(
                "' not found",
            ),
            StoreError::GroupNotFound(g) => String::from_str("group '").concat(
                crate::numbers::u128_to_string(g.0).as_str(),
            ).concat("' not found"),
            StoreError::ScorableNotFound(s) => String::from_str("scorable '").concat(
                crate::numbers::u128_to_string(s.0).as_str(),
            ).concat("' not found"),
            StoreError::ScoreNotFound(s) => String::from_str("score '").concat(
                crate::numbers::u128_to_string(s.0).as_str(),
            ).concat("' not found"),
        }
    }
}

/// What a query reports about a group.
#[derive(Debug, PartialEq)]
pub struct Group {
    pub id: GroupId,
    pub name: String,
}

impl Clone for Group {
    fn clone(&self) -> (r: Self)
        ensures
            r@ == self@,
    {
        Group { id: self.id, name: self.name.clone() }
    }
}

/// The mathematical content of a [`Group`].
pub struct GroupV {
    pub id: u128,
    pub name: Seq<char>,
}

impl View for Group {
    type V = GroupV;

    open spec fn view(&self) -> GroupV {
        GroupV { id: self.id.0, name: self.name@ }
    }
}

/// What a query reports about a scorable.
#[derive(Debug, PartialEq)]
pub struct Scorable {
    pub name: String,
    pub id: ScorableId,
}

impl Clone for Scorable {
    fn clone(&self) -> (r: Self)
        ensures
            r@ == self@,
    {
        Scorable { name: self.name.clone(), id: self.id }
    }
}

/// The mathematical content of a [`Scorable`].
pub struct ScorableV {
    pub id: u128,
    pub name: Seq<char>,
}

impl View for Scorable {
    type V = ScorableV;

    open spec fn view(&self) -> ScorableV {
        ScorableV { id: self.id.0, name: self.name@ }
    }
}

/// What a query reports about a score. The date is milliseconds since the
/// Unix epoch.
#[derive(Debug, PartialEq)]
pub struct Score {
    pub id: ScoreId,
    pub username: String,
    pub value: i64,
    pub date: i64,
}

impl Clone for Score {
    fn clone(&self) -> (r: Self)
        ensures
            r@ == self@,
    {
        Score {
            id: self.id,
            username: self.username.clone(),
            value: self.value,
            date: self.date,
        }
    }
}

/// The mathematical content of a [`Score`].
pub struct ScoreV {
    pub id: u128,
    pub username: Seq<char>,
    pub value: i64,
    pub date: i64,
}

impl View for Score {
    type V = ScoreV;

    open spec fn view(&self) -> ScoreV {
        ScoreV { id: self.id.0, username: self.username@, value: self.value, date: self.date }
    }
}

} // verus!
