//! What a room's version decides for the room services.
//!
//! Room versions are named by strings. The rules each one carries are the
//! spec's, as the `ruma` crate tabulates them; the few of them the room
//! services consult are read out here.

use vstd::prelude::*;

verus! {

/// The room version a version string names, counted from one, for the
/// versions the spec defines.
pub open spec fn known_room_version(v: Seq<char>) -> Option<nat> {
    if v == seq!['1'] {
        Some(1)
    } else if v == seq!['2'] {
        Some(2)
    } else if v == seq!['3'] {
        Some(3)
    } else if v == seq!['4'] {
        Some(4)
    } else if v == seq!['5'] {
        Some(5)
    } else if v == seq!['6'] {
        Some(6)
    } else if v == seq!['7'] {
        Some(7)
    } else if v == seq!['8'] {
        Some(8)
    } else if v == seq!['9'] {
        Some(9)
    } else if v == seq!['1', '0'] {
        Some(10)
    } else if v == seq!['1', '1'] {
        Some(11)
    } else if v == seq!['1', '2'] {
        Some(12)
    } else {
        None
    }
}

/// The rules of one room version that the room services consult.
#[derive(Debug, Clone, Copy, PartialEq, Eq, Structural)]
pub struct RoomVersionRules {
    /// Room ids are derived from the create event's reference hash, from
    /// version 12 on.
    pub v2_room_ids: bool,
    /// Events carry their own id, in versions 1 and 2.
    pub require_event_id: bool,
    /// Users may knock, from version 7 on.
    pub knocking: bool,
    /// Join rules may restrict joining to members of other rooms, from
    /// version 8 on.
    pub restricted_join_rule: bool,
}

/// The rules of room version `n`.
pub open spec fn rules_of_version(n: nat) -> RoomVersionRules {
    RoomVersionRules {
        v2_room_ids: n >= 12,
        require_event_id: n <= 2,
        knocking: n >= 7,
        restricted_join_rule: n >= 8,
    }
}

/// The rules of the room version a string names, if it names one the spec
/// defines.
pub open spec fn spec_room_version_rules(v: Seq<char>) -> Option<RoomVersionRules> {
    match known_room_version(v) {
        Some(n) => Some(rules_of_version(n)),
        None => None,
    }
}

/// `ruma::RoomVersionId::rules`, on the version parsed from `version`.
///
/// ruma tabulates the rules of the spec's versions 1 to 12 and has none for
/// any other version, or for a string that is not a version at all.
#[verifier::external_body]
fn room_version_rules(version: &str) -> (r: Option<RoomVersionRules>)
    ensures
        r == spec_room_version_rules(version@),
{
    let rules = ruma::RoomVersionId::try_from(version).ok()?.rules()?;
    Some(RoomVersionRules {
        v2_room_ids: matches!(rules.room_id_format, ruma::room_version_rules::RoomIdFormatVersion::V2),
        require_event_id: rules.event_format.require_event_id,
        knocking: rules.authorization.knocking,
        restricted_join_rule: rules.authorization.restricted_join_rule,
    })
}

/// Whether rooms of this version take their id from the create event, which is
/// version 12's room id format.
pub fn v12_room_ids(room_version: &str) -> (r: bool)
    ensures
        r == (known_room_version(room_version@) == Some(12nat)),
{
    match room_version_rules(room_version) {
        Some(rules) => rules.v2_room_ids,
        None => false,
    }
}

/// Why a room refuses a knock.
#[derive(Debug, Clone, Copy, PartialEq, Eq, Structural)]
pub enum KnockError {
    /// The room's version has no knocking.
    Unsupported,
}

/// Refuses a knock into a room whose version has no knocking.
pub fn ensure_room_version_supports_knock(room_version_id: &str) -> (r: Result<(), KnockError>)
    ensures
        r is Ok <==> (known_room_version(room_version_id@) matches Some(n) && n >= 7),
        r matches Err(e) ==> e == KnockError::Unsupported,
{
    let knocking = match room_version_rules(room_version_id) {
        Some(rules) => rules.knocking,
        None => false,
    };
    if !knocking {
        return Err(KnockError::Unsupported);
    }
    Ok(())
}

/// Whether a PDU sent into a room of this version keeps its `event_id` field,
/// which only versions 1 and 2 carry.
pub fn keeps_event_id(room_version: &str) -> (r: bool)
    ensures
        r == (known_room_version(room_version@) matches Some(n) && n <= 2),
{
    match room_version_rules(room_version) {
        Some(rules) => rules.require_event_id,
        None => false,
    }
}

/// Whether join rules in rooms of this version may restrict joining to members
/// of other rooms.
pub fn has_restricted_join_rule(room_version: &str) -> (r: bool)
    ensures
        r == (known_room_version(room_version@) matches Some(n) && n >= 8),
{
    match room_version_rules(room_version) {
        Some(rules) => rules.restricted_join_rule,
        None => false,
    }
}

/// The number of the room version a string names, for the versions the spec
/// defines.
pub fn room_version_number(version: &str) -> (r: Option<u8>)
    ensures
        match r {
            Some(n) => known_room_version(version@) == Some(n as nat),
            None => known_room_version(version@) is None,
        },
{
    let v = version.to_owned();
    proof {
        reveal_strlit("1");
        reveal_strlit("2");
        reveal_strlit("3");
        reveal_strlit("4");
        reveal_strlit("5");
        reveal_strlit("6");
        reveal_strlit("7");
        reveal_strlit("8");
        reveal_strlit("9");
        reveal_strlit("10");
        reveal_strlit("11");
        reveal_strlit("12");
        assert("1"@ =~= seq!['1']);
        assert("2"@ =~= seq!['2']);
        assert("3"@ =~= seq!['3']);
        assert("4"@ =~= seq!['4']);
        assert("5"@ =~= seq!['5']);
        assert("6"@ =~= seq!['6']);
        assert("7"@ =~= seq!['7']);
        assert("8"@ =~= seq!['8']);
        assert("9"@ =~= seq!['9']);
        assert("10"@ =~= seq!['1', '0']);
        assert("11"@ =~= seq!['1', '1']);
        assert("12"@ =~= seq!['1', '2']);
    }
    if v == "1".to_owned() {
        Some(1)
    } else if v == "2".to_owned() {
        Some(2)
    } else if v == "3".to_owned() {
        Some(3)
    } else if v == "4".to_owned() {
        Some(4)
    } else if v == "5".to_owned() {
        Some(5)
    } else if v == "6".to_owned() {
        Some(6)
    } else if v == "7".to_owned() {
        Some(7)
    } else if v == "8".to_owned() {
        Some(8)
    } else if v == "9".to_owned() {
        Some(9)
    } else if v == "10".to_owned() {
        Some(10)
    } else if v == "11".to_owned() {
        Some(11)
    } else if v == "12".to_owned() {
        Some(12)
    } else {
        None
    }
}

} // verus!
