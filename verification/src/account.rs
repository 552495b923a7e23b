//! The account record: the engine's minimal identity and authorization
//! surface for one account. It holds an opaque credential hash, capability
//! names, the superuser bit, a binary status the engine enforces itself, and an
//! opaque app-owned JSON value the engine stores but never reads.

use vstd::prelude::*;
use crate::text::str_eq;
use uuid::Uuid;
use serde_json::Value as JsonValue;

verus! {

/// Whether an account may authenticate.
#[derive(Clone, Copy, Debug, PartialEq, Eq, Structural, Hash)]
pub enum AccountStatus {
    /// May authenticate and hold authority, subject to the app's login veto.
    Active,
    /// The engine hard-refuses authentication.
    Disabled,
}

/// A stored status string named no known status.
#[derive(Debug, PartialEq, Eq)]
pub struct ParseStatusError(pub String);

/// The stable string form of a status.
pub open spec fn status_text(s: AccountStatus) -> Seq<char> {
    match s {
        AccountStatus::Active => "active"@,
        AccountStatus::Disabled => "disabled"@,
    }
}

impl AccountStatus {
    /// The default status of a fresh account.
    pub fn default_status() -> (r: Self)
        ensures
            r == AccountStatus::Active,
    {
        AccountStatus::Active
    }

    /// The stable string form, the same tag the store column holds.
    pub fn as_str(self) -> (r: &'static str)
        ensures
            r@ == status_text(self),
    {
        match self {
            AccountStatus::Active => "active",
            AccountStatus::Disabled => "disabled",
        }
    }

    /// Parse the stable string form; anything else is an error naming the text.
    pub fn parse(s: &str) -> (r: Result<AccountStatus, ParseStatusError>)
        ensures
            s@ == "active"@ ==> r == Ok::<AccountStatus, ParseStatusError>(AccountStatus::Active),
            s@ == "disabled"@ ==> r == Ok::<AccountStatus, ParseStatusError>(AccountStatus::Disabled),
            s@ != "active"@ && s@ != "disabled"@ ==> (r matches Err(e) && e.0@ == s@),
    {
        proof {
            reveal_strlit("active");
            reveal_strlit("disabled");
            assert("active"@.len() == 6);
            assert("disabled"@.len() == 8);
        }
        if str_eq(s, "active") {
            Ok(AccountStatus::Active)
        } else if str_eq(s, "disabled") {
            Ok(AccountStatus::Disabled)
        } else {
            Err(ParseStatusError(s.to_owned()))
        }
    }
}

/// Parsing the stable string form of a status gives the status back.
pub proof fn lemma_status_text_roundtrip(s: AccountStatus)
    ensures
        status_text(s) == "active"@ <==> s == AccountStatus::Active,
        status_text(s) == "disabled"@ <==> s == AccountStatus::Disabled,
{
    reveal_strlit("active");
    reveal_strlit("disabled");
    assert("active"@.len() == 6);
    assert("disabled"@.len() == 8);
}

impl std::str::FromStr for AccountStatus {
    type Err = ParseStatusError;

    fn from_str(s: &str) -> Result<Self, Self::Err> {
        AccountStatus::parse(s)
    }
}

#[verifier::external_type_specification]
#[verifier::external_body]
pub struct ExUuidError(uuid::Error);

#[verifier::external_type_specification]
#[verifier::external_body]
pub struct ExJsonValue(JsonValue);

/// The 128-bit value `Uuid::parse_str` reads from `s`, if `s` parses.
pub uninterp spec fn uuid_parse_spec(s: Seq<char>) -> Option<u128>;

/// The lowercase hexadecimal digit of `d`, for `d` below 16.
pub open spec fn hex_digit(d: u128) -> char {
    if d == 0 { '0' } else if d == 1 { '1' } else if d == 2 { '2' } else if d == 3 { '3' } else if d == 4 {
        '4'
    } else if d == 5 { '5' } else if d == 6 { '6' } else if d == 7 { '7' } else if d == 8 { '8' } else if d
        == 9 { '9' } else if d == 10 { 'a' } else if d == 11 { 'b' } else if d == 12 { 'c' } else if d == 13 {
        'd'
    } else if d == 14 { 'e' } else { 'f' }
}

/// Hex digit `i` of `v`, counting from the most significant of its 32.
pub open spec fn nibble(v: u128, i: int) -> u128 {
    (v >> (((31 - i) * 4) as u128)) & 0xfu128
}

/// The text `Uuid`'s `Display` renders for the 128-bit value `v`: its 32
/// lowercase hex digits, most significant first, in groups of 8, 4, 4, 4 and
/// 12 joined by hyphens.
pub open spec fn uuid_text_spec(v: u128) -> Seq<char> {
    Seq::new(
        36,
        |k: int|
            if k == 8 || k == 13 || k == 18 || k == 23 {
                '-'
            } else {
                hex_digit(
                    nibble(
                        v,
                        if k < 8 {
                            k
                        } else if k < 13 {
                            k - 1
                        } else if k < 18 {
                            k - 2
                        } else if k < 23 {
                            k - 3
                        } else {
                            k - 4
                        },
                    ),
                )
            },
    )
}

/// Mints a fresh id with `Uuid::now_v7` and reads its 128-bit big-endian
/// value (`Uuid::as_u128`). Claimed: the version nibble is 7. Nothing else:
/// the value comes from the clock and a random source.
#[verifier::external_body]
fn mint_v7() -> (r: u128)
    ensures
        (r >> 76u128) & 0xfu128 == 7,
{
    Uuid::now_v7().as_u128()
}

/// Parses `s` with `Uuid::parse_str` and reads the 128-bit value. Claimed: the
/// outcome is the parse of `s`, a function of `s` alone.
#[verifier::external_body]
fn uuid_parse(s: &str) -> (r: Result<u128, uuid::Error>)
    ensures
        match uuid_parse_spec(s@) {
            Some(v) => r matches Ok(x) && x == v,
            None => r is Err,
        },
{
    match Uuid::parse_str(s) {
        Ok(u) => Ok(u.as_u128()),
        Err(e) => Err(e),
    }
}

/// Renders the 128-bit value `v` through `Uuid::from_u128` and `Display` (the
/// hyphenated lowercase form). Claimed: the text is that form of `v`, and
/// `Uuid::parse_str`, which accepts that form, reads `v` back from it.
#[verifier::external_body]
fn uuid_text(v: u128) -> (r: String)
    ensures
        r@ == uuid_text_spec(v),
        uuid_parse_spec(r@) == Some(v),
{
    Uuid::from_u128(v).to_string()
}

/// Builds an empty JSON object (`Value::Object` of `Map::new()`).
#[verifier::external_body]
fn empty_json_object() -> (r: JsonValue) {
    JsonValue::Object(serde_json::Map::new())
}

/// A stable, opaque account id: a time-ordered v7 UUID minted at creation,
/// held as its 128-bit value; never reused.
#[derive(Clone, Copy, Debug, PartialEq, Eq, Structural, Hash)]
pub struct AccountId(u128);

impl AccountId {
    pub closed spec fn value(&self) -> u128 {
        self.0
    }

    /// Mint a fresh id; v7 ids sort by creation.
    pub fn generate() -> (r: Self)
        ensures
            (r.value() >> 76u128) & 0xfu128 == 7,
    {
        AccountId(mint_v7())
    }

    /// The id's text form.
    pub fn to_text(&self) -> (r: String)
        ensures
            r@ == uuid_text_spec(self.value()),
            uuid_parse_spec(r@) == Some(self.value()),
    {
        uuid_text(self.0)
    }

    /// Parse an id from its text form.
    pub fn parse(s: &str) -> (r: Result<AccountId, uuid::Error>)
        ensures
            match uuid_parse_spec(s@) {
                Some(v) => r matches Ok(id) && id.value() == v,
                None => r is Err,
            },
    {
        match uuid_parse(s) {
            Ok(v) => Ok(AccountId(v)),
            Err(e) => Err(e),
        }
    }
}

impl std::str::FromStr for AccountId {
    type Err = uuid::Error;

    fn from_str(s: &str) -> Result<Self, Self::Err> {
        AccountId::parse(s)
    }
}

/// One account, built with `Account::new` and changed through focused
/// setters. Usernames are unique across accounts, which the store enforces.
#[derive(Debug)]
pub struct Account {
    id: AccountId,
    username: String,
    credential: Option<String>,
    caps: Vec<String>,
    su: bool,
    status: AccountStatus,
    app_data: JsonValue,
}

/// Model of an optional string.
pub open spec fn opt_view(o: Option<String>) -> Option<Seq<char>> {
    match o {
        Some(s) => Some(s@),
        None => None,
    }
}

impl Account {
    pub closed spec fn id_view(&self) -> AccountId {
        self.id
    }

    pub closed spec fn username_view(&self) -> Seq<char> {
        self.username@
    }

    pub closed spec fn credential_view(&self) -> Option<Seq<char>> {
        opt_view(self.credential)
    }

    pub closed spec fn caps_view(&self) -> Seq<Seq<char>> {
        self.caps@.map_values(|c: String| c@)
    }

    pub closed spec fn su_view(&self) -> bool {
        self.su
    }

    pub closed spec fn status_view(&self) -> AccountStatus {
        self.status
    }

    pub closed spec fn app_data_view(&self) -> JsonValue {
        self.app_data
    }

    /// A fresh account: minted id, the given username, not su, active, no
    /// credential, no caps, and an empty app-data object.
    pub fn new(username: &str) -> (r: Self)
        ensures
            r.username_view() == username@,
            r.credential_view() is None,
            r.caps_view().len() == 0,
            !r.su_view(),
            r.status_view() == AccountStatus::Active,
    {
        let r = Account {
            id: AccountId::generate(),
            username: username.to_owned(),
            credential: None,
            caps: Vec::new(),
            su: false,
            status: AccountStatus::Active,
            app_data: empty_json_object(),
        };
        assert(r.caps_view() =~= Seq::<Seq<char>>::empty());
        r
    }

    /// Rebuild a record from stored parts.
    pub fn from_stored(
        id: AccountId,
        username: String,
        credential: Option<String>,
        caps: Vec<String>,
        su: bool,
        status: AccountStatus,
        app_data: JsonValue,
    ) -> (r: Self)
        ensures
            r.id_view() == id,
            r.username_view() == username@,
            r.credential_view() == opt_view(credential),
            r.caps_view() == caps@.map_values(|c: String| c@),
            r.su_view() == su,
            r.status_view() == status,
            r.app_data_view() == app_data,
    {
        Account { id, username, credential, caps, su, status, app_data }
    }

    /// The stable surrogate key.
    pub fn id(&self) -> (r: AccountId)
        ensures
            r == self.id_view(),
    {
        self.id
    }

    /// The login name; mutable, not the key.
    pub fn username(&self) -> (r: &str)
        ensures
            r@ == self.username_view(),
    {
        self.username.as_str()
    }

    pub fn set_username(&mut self, username: &str)
        ensures
            final(self).username_view() == username@,
            final(self).id_view() == old(self).id_view(),
            final(self).credential_view() == old(self).credential_view(),
            final(self).caps_view() == old(self).caps_view(),
            final(self).su_view() == old(self).su_view(),
            final(self).status_view() == old(self).status_view(),
    {
        self.username = username.to_owned();
    }

    /// The stored PHC credential hash, if any.
    pub fn credential(&self) -> (r: Option<&str>)
        ensures
            match self.credential_view() {
                Some(c) => r matches Some(x) && x@ == c,
                None => r is None,
            },
    {
        match &self.credential {
            Some(c) => Some(c.as_str()),
            None => None,
        }
    }

    /// Set or clear the credential, an already hashed PHC string.
    pub fn set_credential(&mut self, hash: Option<String>)
        ensures
            final(self).credential_view() == opt_view(hash),
            final(self).id_view() == old(self).id_view(),
            final(self).app_data_view() == old(self).app_data_view(),
            final(self).username_view() == old(self).username_view(),
            final(self).caps_view() == old(self).caps_view(),
            final(self).su_view() == old(self).su_view(),
            final(self).status_view() == old(self).status_view(),
    {
        self.credential = hash;
    }

    /// The capability names held, in grant order.
    pub fn caps(&self) -> (r: &[String])
        ensures
            r@.map_values(|c: String| c@) == self.caps_view(),
    {
        self.caps.as_slice()
    }

    fn cap_position(&self, cap: &str) -> (r: Option<usize>)
        ensures
            match r {
                Some(i) => i < self.caps_view().len() && self.caps_view()[i as int] == cap@ && forall|j: int|
                    0 <= j < i ==> self.caps_view()[j] != cap@,
                None => !self.caps_view().contains(cap@),
            },
    {
        let mut i: usize = 0;
        while i < self.caps.len()
            invariant
                i <= self.caps@.len(),
                forall|j: int| 0 <= j < i ==> self.caps_view()[j] != cap@,
            decreases self.caps.len() - i,
        {
            if str_eq(self.caps[i].as_str(), cap) {
                return Some(i);
            }
            i = i + 1;
        }
        None
    }

    /// Add a capability name; returns whether it was newly added, so a repeat
    /// grant is a no-op reporting `false`.
    pub fn grant(&mut self, cap: &str) -> (r: bool)
        ensures
            r == !old(self).caps_view().contains(cap@),
            final(self).caps_view() == if r {
                old(self).caps_view().push(cap@)
            } else {
                old(self).caps_view()
            },
            final(self).id_view() == old(self).id_view(),
            final(self).username_view() == old(self).username_view(),
            final(self).credential_view() == old(self).credential_view(),
            final(self).su_view() == old(self).su_view(),
            final(self).status_view() == old(self).status_view(),
            final(self).app_data_view() == old(self).app_data_view(),
    {
        if self.cap_position(cap).is_some() {
            return false;
        }
        self.caps.push(cap.to_owned());
        assert(self.caps_view() =~= old(self).caps_view().push(cap@));
        true
    }

    /// Remove a capability name; returns whether it was present.
    pub fn revoke(&mut self, cap: &str) -> (r: bool)
        ensures
            r == old(self).caps_view().contains(cap@),
            !r ==> final(self).caps_view() == old(self).caps_view(),
            r ==> exists|i: int|
                0 <= i < old(self).caps_view().len() && old(self).caps_view()[i] == cap@ && (forall|j: int|
                    0 <= j < i ==> old(self).caps_view()[j] != cap@) && final(self).caps_view()
                    == old(self).caps_view().remove(i),
            final(self).id_view() == old(self).id_view(),
            final(self).username_view() == old(self).username_view(),
            final(self).credential_view() == old(self).credential_view(),
            final(self).su_view() == old(self).su_view(),
            final(self).status_view() == old(self).status_view(),
            final(self).app_data_view() == old(self).app_data_view(),
    {
        match self.cap_position(cap) {
            Some(i) => {
                self.caps.remove(i);
                assert(self.caps_view() =~= old(self).caps_view().remove(i as int));
                true
            },
            None => false,
        }
    }

    /// Whether this account is a superuser.
    pub fn is_su(&self) -> (r: bool)
        ensures
            r == self.su_view(),
    {
        self.su
    }

    pub fn set_su(&mut self, su: bool)
        ensures
            final(self).su_view() == su,
            final(self).username_view() == old(self).username_view(),
            final(self).caps_view() == old(self).caps_view(),
            final(self).status_view() == old(self).status_view(),
    {
        self.su = su;
    }

    pub fn status(&self) -> (r: AccountStatus)
        ensures
            r == self.status_view(),
    {
        self.status
    }

    pub fn set_status(&mut self, status: AccountStatus)
        ensures
            final(self).status_view() == status,
            final(self).username_view() == old(self).username_view(),
            final(self).caps_view() == old(self).caps_view(),
            final(self).su_view() == old(self).su_view(),
    {
        self.status = status;
    }

    /// The opaque app-owned data.
    pub fn app_data(&self) -> (r: &JsonValue)
        ensures
            *r == self.app_data_view(),
    {
        &self.app_data
    }

    pub fn set_app_data(&mut self, data: JsonValue)
        ensures
            final(self).app_data_view() == data,
            final(self).username_view() == old(self).username_view(),
            final(self).caps_view() == old(self).caps_view(),
            final(self).su_view() == old(self).su_view(),
            final(self).status_view() == old(self).status_view(),
    {
        self.app_data = data;
    }
}

} // verus!
