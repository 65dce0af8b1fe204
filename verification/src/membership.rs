//! The decisions of joining, knocking and inviting.
//!
//! Each membership change may be done locally, when this server is in the
//! room, or with the help of another server. What to try, in what order, when
//! to give up, and what to send are decided here; the federation requests and
//! the database writes are made by the caller.

use crate::json_object::{is_text, JsonObject, JsonValue};
use crate::room_version::{has_restricted_join_rule, keeps_event_id};
use crate::state_accessor::server_part;
use crate::stripped_state::{
    canonical_string_field, json_string_field, read_canonical_string_field, read_string_field, RawStrippedState,
};
use crate::text_order::texts;
use vstd::prelude::*;

verus! {

/// Whether a list of servers leaves nothing to ask but this server: it is
/// empty, or it names only this server.
pub fn is_local_only(servers: &Vec<String>, own_server: &str) -> (r: bool)
    ensures
        r == (servers.len() == 0 || (servers.len() == 1 && servers@[0]@ == own_server@)),
{
    servers.len() == 0 || (servers.len() == 1 && servers[0] == own_server.to_owned())
}

/// A rule of a restricted join rule.
#[derive(Debug, Clone, PartialEq, Eq)]
pub enum AllowRule {
    /// Members of this room may join.
    RoomMembership(String),
    /// A rule of another kind.
    Other,
}

/// A room's join rule.
#[derive(Debug, Clone, PartialEq, Eq)]
pub enum JoinRule {
    /// Anyone may join.
    Public,
    /// Only those invited may join.
    Invite,
    /// Anyone may knock.
    Knock,
    /// Nobody may join.
    Private,
    /// Those the rules allow may join.
    Restricted(Vec<AllowRule>),
    /// Those the rules allow may join, and anyone may knock.
    KnockRestricted(Vec<AllowRule>),
}

/// The rooms whose members may join under a set of allow rules, in order.
pub open spec fn allowed_rooms(rules: Seq<AllowRule>) -> Seq<Seq<char>>
    decreases rules.len(),
{
    if rules.len() == 0 {
        Seq::empty()
    } else {
        match rules.last() {
            AllowRule::RoomMembership(room) => allowed_rooms(rules.drop_last()).push(room@),
            AllowRule::Other => allowed_rooms(rules.drop_last()),
        }
    }
}

/// The rooms whose membership lets a user join a room with this join rule:
/// those a restricted rule names, and none for any other rule.
pub fn restriction_rooms(join_rule: &JoinRule) -> (r: Vec<String>)
    ensures
        texts(r@) == match join_rule {
            JoinRule::Restricted(rules) => allowed_rooms(rules@),
            JoinRule::KnockRestricted(rules) => allowed_rooms(rules@),
            _ => Seq::empty(),
        },
{
    let rules = match join_rule {
        JoinRule::Restricted(rules) => rules,
        JoinRule::KnockRestricted(rules) => rules,
        _ => {
            let r: Vec<String> = Vec::new();
            proof {
                assert(texts(r@) =~= Seq::empty());
            }
            return r;
        },
    };
    let mut r: Vec<String> = Vec::new();
    let mut i: usize = 0;
    while i < rules.len()
        invariant
            i <= rules.len(),
            texts(r@) == allowed_rooms(rules@.take(i as int)),
        decreases rules.len() - i,
    {
        proof {
            assert(rules@.take(i + 1).drop_last() == rules@.take(i as int));
            assert(rules@.take(i + 1).last() == rules@[i as int]);
        }
        match &rules[i] {
            AllowRule::RoomMembership(room) => {
                let ghost before = r@;
                r.push(room.clone());
                proof {
                    assert(texts(r@) == texts(before).push(room@));
                }
            },
            AllowRule::Other => {},
        }
        i += 1;
    }
    proof {
        assert(rules@.take(i as int) == rules@);
    }
    r
}

/// What follows a local join or knock attempt.
#[derive(Debug, Clone, Copy, PartialEq, Eq, Structural)]
pub enum Fallback {
    /// It went through; nothing more to do.
    Done,
    /// It failed, and its error is the answer.
    Fail,
    /// It failed, and another server may be able to help.
    TryFederation,
}

/// What follows a local join: on failure, a room with no restriction and no
/// other server to ask fails with the local error, and anything else is tried
/// over federation, since a remote server may satisfy the restriction.
pub fn after_local_join(succeeded: bool, no_restriction_rooms: bool, local_only: bool) -> (r: Fallback)
    ensures
        r == if succeeded {
            Fallback::Done
        } else if no_restriction_rooms && local_only {
            Fallback::Fail
        } else {
            Fallback::TryFederation
        },
{
    if succeeded {
        Fallback::Done
    } else if no_restriction_rooms && local_only {
        Fallback::Fail
    } else {
        Fallback::TryFederation
    }
}

/// What follows a local knock: on failure, with no other server to ask, the
/// local error is the answer.
pub fn after_local_knock(succeeded: bool, local_only: bool) -> (r: Fallback)
    ensures
        r == if succeeded {
            Fallback::Done
        } else if local_only {
            Fallback::Fail
        } else {
            Fallback::TryFederation
        },
{
    if succeeded {
        Fallback::Done
    } else if local_only {
        Fallback::Fail
    } else {
        Fallback::TryFederation
    }
}

/// How a knock proceeds, or why it is refused.
#[derive(Debug, Clone, Copy, PartialEq, Eq, Structural)]
pub enum KnockRoute {
    /// The user is invited already.
    AlreadyInvited,
    /// The user is joined already.
    AlreadyJoined,
    /// The user has knocked already; nothing to do.
    AlreadyKnocked,
    /// The user is banned.
    Banned,
    /// Knock through this server.
    Local,
    /// Knock through another server.
    Remote,
}

/// How a knock proceeds: refused to a user who is invited, joined or banned;
/// nothing to do for one who knocked already where this server is in the
/// room; local where this server is in the room or there is no other server
/// to ask; remote otherwise.
pub fn knock_route(invited: bool, joined: bool, server_in_room: bool, knocked: bool, banned: bool, local_only: bool) -> (r: KnockRoute)
    ensures
        r == if invited {
            KnockRoute::AlreadyInvited
        } else if joined {
            KnockRoute::AlreadyJoined
        } else if server_in_room && knocked {
            KnockRoute::AlreadyKnocked
        } else if banned {
            KnockRoute::Banned
        } else if server_in_room || local_only {
            KnockRoute::Local
        } else {
            KnockRoute::Remote
        },
{
    if invited {
        KnockRoute::AlreadyInvited
    } else if joined {
        KnockRoute::AlreadyJoined
    } else if server_in_room && knocked {
        KnockRoute::AlreadyKnocked
    } else if banned {
        KnockRoute::Banned
    } else if server_in_room || local_only {
        KnockRoute::Local
    } else {
        KnockRoute::Remote
    }
}

/// How many servers answering that the room version is incompatible make a
/// join give up on the room version.
pub const INCOMPATIBLE_ROOM_VERSION_LIMIT: usize = 15;

/// How many servers a knock asks at most before giving up, less one.
pub const MAKE_KNOCK_ATTEMPTS: usize = 40;

/// What follows a failed `make_join` or `make_knock` request.
#[derive(Debug, Clone, Copy, PartialEq, Eq, Structural)]
pub enum SearchStep {
    /// Ask the next server.
    Continue,
    /// Give up: too many servers find the room version incompatible.
    Unsupported,
    /// Give up: too many servers failed.
    NoServer,
}

/// The count of servers asked for a `make_join`, and of those that found the
/// room version incompatible.
#[derive(Debug, Clone, Copy, PartialEq, Eq, Structural)]
pub struct MakeJoinSearch {
    /// The servers asked so far.
    pub attempts: usize,
    /// Of those, the ones that answered the room version is incompatible.
    pub incompatible: usize,
    /// The most servers asked before giving up.
    pub max_attempts: usize,
}

impl MakeJoinSearch {
    /// A search that has asked nobody yet.
    pub fn new(max_attempts: usize) -> (r: Self)
        ensures
            r == (MakeJoinSearch { attempts: 0, incompatible: 0, max_attempts }),
    {
        MakeJoinSearch { attempts: 0, incompatible: 0, max_attempts }
    }

    /// Records a failed request, whose error said the room version was
    /// incompatible or not, and says what follows: more than
    /// `INCOMPATIBLE_ROOM_VERSION_LIMIT` such answers mean the room version is
    /// not supported, and `max_attempts` failures end the search.
    pub fn after_failure(&mut self, incompatible_version: bool) -> (r: SearchStep)
        ensures
            final(self).max_attempts == old(self).max_attempts,
            final(self).attempts == if old(self).attempts < usize::MAX { (old(self).attempts + 1) as usize } else { usize::MAX },
            final(self).incompatible == if incompatible_version && old(self).incompatible < usize::MAX {
                (old(self).incompatible + 1) as usize
            } else {
                old(self).incompatible
            },
            r == if final(self).incompatible > INCOMPATIBLE_ROOM_VERSION_LIMIT {
                SearchStep::Unsupported
            } else if final(self).attempts >= final(self).max_attempts {
                SearchStep::NoServer
            } else {
                SearchStep::Continue
            },
    {
        self.attempts = self.attempts.saturating_add(1);
        if incompatible_version {
            self.incompatible = self.incompatible.saturating_add(1);
        }
        if self.incompatible > INCOMPATIBLE_ROOM_VERSION_LIMIT {
            SearchStep::Unsupported
        } else if self.attempts >= self.max_attempts {
            SearchStep::NoServer
        } else {
            SearchStep::Continue
        }
    }
}

/// What follows a failed `make_knock` request, the `attempts`-th: more than
/// `MAKE_KNOCK_ATTEMPTS` failures end the search.
pub fn after_knock_failure(attempts: usize) -> (r: SearchStep)
    ensures
        r == if attempts > MAKE_KNOCK_ATTEMPTS {
            SearchStep::NoServer
        } else {
            SearchStep::Continue
        },
{
    if attempts > MAKE_KNOCK_ATTEMPTS {
        SearchStep::NoServer
    } else {
        SearchStep::Continue
    }
}

/// The kind of error a remote server answered an invite with.
#[derive(Debug, Clone, Copy, PartialEq, Eq, Structural)]
pub enum InviteErrorKind {
    /// `M_INCOMPATIBLE_ROOM_VERSION`.
    IncompatibleRoomVersion,
    /// `M_UNSUPPORTED_ROOM_VERSION`.
    UnsupportedRoomVersion,
    /// `M_MISSING_PARAM`.
    MissingParam,
    /// Any other.
    Other,
}

/// What an invite's failure is reported as.
#[derive(Debug, Clone, Copy, PartialEq, Eq, Structural)]
pub enum InviteFailure {
    /// The invitee's server does not support the room's version.
    UnsupportedRoomVersion,
    /// The invitee's server could not validate the invite's create event.
    CreateNotValidated,
    /// The remote error, passed on.
    Remote,
}

/// What a remote server's refusal of an invite is reported as.
pub fn invite_failure(kind: InviteErrorKind) -> (r: InviteFailure)
    ensures
        r == match kind {
            InviteErrorKind::IncompatibleRoomVersion | InviteErrorKind::UnsupportedRoomVersion => InviteFailure::UnsupportedRoomVersion,
            InviteErrorKind::MissingParam => InviteFailure::CreateNotValidated,
            InviteErrorKind::Other => InviteFailure::Remote,
        },
{
    match kind {
        InviteErrorKind::IncompatibleRoomVersion | InviteErrorKind::UnsupportedRoomVersion => InviteFailure::UnsupportedRoomVersion,
        InviteErrorKind::MissingParam => InviteFailure::CreateNotValidated,
        InviteErrorKind::Other => InviteFailure::Remote,
    }
}

/// The state cells whose events travel with an invite: the create event, the
/// join rules, the canonical alias, the name, the avatar, the inviter's own
/// membership, the encryption settings and the topic.
pub fn summary_cells(sender: &str) -> (r: Vec<(String, String)>)
    ensures
        r@.len() == 8,
        r@[0].0@ == "m.room.create"@ && r@[0].1@ == ""@,
        r@[1].0@ == "m.room.join_rules"@ && r@[1].1@ == ""@,
        r@[2].0@ == "m.room.canonical_alias"@ && r@[2].1@ == ""@,
        r@[3].0@ == "m.room.name"@ && r@[3].1@ == ""@,
        r@[4].0@ == "m.room.avatar"@ && r@[4].1@ == ""@,
        r@[5].0@ == "m.room.member"@ && r@[5].1@ == sender@,
        r@[6].0@ == "m.room.encryption"@ && r@[6].1@ == ""@,
        r@[7].0@ == "m.room.topic"@ && r@[7].1@ == ""@,
{
    let mut r: Vec<(String, String)> = Vec::new();
    r.push(("m.room.create".to_owned(), "".to_owned()));
    r.push(("m.room.join_rules".to_owned(), "".to_owned()));
    r.push(("m.room.canonical_alias".to_owned(), "".to_owned()));
    r.push(("m.room.name".to_owned(), "".to_owned()));
    r.push(("m.room.avatar".to_owned(), "".to_owned()));
    r.push(("m.room.member".to_owned(), sender.to_owned()));
    r.push(("m.room.encryption".to_owned(), "".to_owned()));
    r.push(("m.room.topic".to_owned(), "".to_owned()));
    r
}

/// Whether `ruma` accepts a text as a user id.
pub uninterp spec fn valid_user_id(s: Seq<char>) -> bool;

/// Whether `ruma` accepts a text as a server name.
pub uninterp spec fn valid_server_name(s: Seq<char>) -> bool;

/// `ruma::UserId::parse`, then `UserId::server_name`.
///
/// Claimed: the id parses exactly when the name `valid_user_id` holds of it,
/// and then its server name is what follows its first colon, as the ruma
/// source takes it.
#[verifier::external_body]
fn parse_user_server(s: &str) -> (r: Option<String>)
    ensures
        r is Some <==> valid_user_id(s@),
        r matches Some(server) ==> server_part(s@) == Some(server@),
{
    ruma::UserId::parse(s).ok().map(|user| user.server_name().as_str().to_owned())
}

/// `ruma::OwnedServerName::try_from`.
///
/// Claimed: the name parses exactly when the name `valid_server_name` holds
/// of it, and then it is the same text.
#[verifier::external_body]
fn parse_server_name(s: &str) -> (r: Option<String>)
    ensures
        r is Some <==> valid_server_name(s@),
        r matches Some(server) ==> server@ == s@,
{
    ruma::OwnedServerName::try_from(s).ok().map(|server| server.as_str().to_owned())
}

/// The server the invitee's server says signed an invite: the event's
/// `origin`, read from the event as canonical JSON, where it is a server
/// name, else the invitee's own server.
pub fn invite_origin(event_json: &str, invitee_server: &str) -> (r: String)
    ensures
        r@ == match canonical_string_field(event_json@, "origin"@) {
            Some(origin) if valid_server_name(origin) => origin,
            _ => invitee_server@,
        },
{
    match read_canonical_string_field(event_json, "origin") {
        Some(origin) => match parse_server_name(origin.as_str()) {
            Some(server) => server,
            None => invitee_server.to_owned(),
        },
        None => invitee_server.to_owned(),
    }
}

/// The server named by the `sender` of a stripped event, where it has one
/// that parses as a user id.
pub open spec fn sender_server(event_json: Seq<char>) -> Option<Seq<char>> {
    match json_string_field(event_json, "sender"@) {
        Some(sender) if valid_user_id(sender) => server_part(sender),
        _ => None,
    }
}

/// The servers of the senders of some stripped events, skipping those whose
/// sender is missing or not a user id.
pub open spec fn sender_servers_of(events: Seq<Seq<char>>) -> Seq<Seq<char>>
    decreases events.len(),
{
    if events.len() == 0 {
        Seq::empty()
    } else {
        match sender_server(events.last()) {
            Some(server) => sender_servers_of(events.drop_last()).push(server),
            None => sender_servers_of(events.drop_last()),
        }
    }
}

/// The servers of the senders of some stripped events, in order.
pub fn sender_servers(events: &Vec<String>) -> (r: Vec<String>)
    ensures
        texts(r@) == sender_servers_of(texts(events@)),
{
    let ghost all = texts(events@);
    let mut r: Vec<String> = Vec::new();
    let mut i: usize = 0;
    while i < events.len()
        invariant
            i <= events.len(),
            all == texts(events@),
            texts(r@) == sender_servers_of(all.take(i as int)),
        decreases events.len() - i,
    {
        proof {
            assert(all.take(i + 1).drop_last() == all.take(i as int));
            assert(all.take(i + 1).last() == events@[i as int]@);
        }
        match read_string_field(events[i].as_str(), "sender") {
            Some(sender) => match parse_user_server(sender.as_str()) {
                Some(server) => {
                    let ghost before = r@;
                    let ghost sv = server@;
                    r.push(server);
                    proof {
                        assert(texts(r@) == texts(before).push(sv));
                    }
                },
                None => {},
            },
            None => {},
        }
        i += 1;
    }
    proof {
        assert(all.take(i as int) == all);
    }
    r
}

/// Whether a room version's events carry their own id: only versions 1 and 2.
pub open spec fn version_keeps_event_id(room_version: Seq<char>) -> bool {
    crate::room_version::known_room_version(room_version) matches Some(n) && n <= 2
}

/// A PDU as it is sent to another server: never with the transaction id in
/// its `unsigned` section, and with its `event_id` only in room versions
/// whose events carry their id. Everything else is sent as it is.
pub fn outgoing_pdu(pdu_json: JsonObject, room_version: &str) -> (r: JsonObject)
    ensures
        r@.remove("unsigned"@) == (if version_keeps_event_id(room_version@) {
            pdu_json@
        } else {
            pdu_json@.remove("event_id"@)
        }).remove("unsigned"@),
        r@.dom().contains("unsigned"@) == pdu_json@.dom().contains("unsigned"@),
        pdu_json@.dom().contains("unsigned"@) ==> match pdu_json@["unsigned"@] {
            JsonValue::Object(unsigned) => r@["unsigned"@] matches JsonValue::Object(sent)
                && sent@ == unsigned@.remove("transaction_id"@),
            other => r@["unsigned"@] == other,
        },
{
    let mut pdu = pdu_json;
    let ghost start = pdu@;
    match pdu.remove("unsigned") {
        Some(JsonValue::Object(mut unsigned)) => {
            unsigned.remove("transaction_id");
            pdu.insert("unsigned".to_owned(), JsonValue::Object(unsigned));
        },
        Some(other) => pdu.insert("unsigned".to_owned(), other),
        None => {},
    }
    proof {
        assert(pdu@.remove("unsigned"@) =~= start.remove("unsigned"@));
    }
    if !keeps_event_id(room_version) {
        let ghost kept = pdu@;
        pdu.remove("event_id");
        proof {
            reveal_strlit("unsigned");
            reveal_strlit("event_id");
            assert("unsigned"@[0] != "event_id"@[0]);
            assert(pdu@.remove("unsigned"@) =~= start.remove("event_id"@).remove("unsigned"@));
        }
    }
    pdu
}

/// The stripped state entries a knock records, by index into the entries:
/// those whose JSON holds a `type` and a `state_key`, leaving out the create
/// event where it is to be dropped.
pub open spec fn knock_entry_kept(e: RawStrippedState, drop_create: bool) -> bool {
    match crate::stripped_state::cell_of(e) {
        Some((kind, key)) => !(drop_create && kind == "m.room.create"@ && key == ""@),
        None => false,
    }
}

/// The indices of the stripped state entries a knock records, in order.
pub fn knock_state_entries(state: &Vec<RawStrippedState>, drop_create: bool) -> (r: Vec<usize>)
    ensures
        forall|k: int| 0 <= k < r.len() ==> (#[trigger] r@[k]) < state.len() && knock_entry_kept(state@[r@[k] as int], drop_create),
        forall|k1: int, k2: int| 0 <= k1 < k2 < r.len() ==> #[trigger] r@[k1] < #[trigger] r@[k2],
        forall|i: int| 0 <= i < state.len() && knock_entry_kept(#[trigger] state@[i], drop_create) ==> r@.contains(i as usize),
{
    let mut r: Vec<usize> = Vec::new();
    let mut i: usize = 0;
    while i < state.len()
        invariant
            i <= state.len(),
            forall|k: int| 0 <= k < r.len() ==> (#[trigger] r@[k]) < i && knock_entry_kept(state@[r@[k] as int], drop_create),
            forall|k1: int, k2: int| 0 <= k1 < k2 < r.len() ==> #[trigger] r@[k1] < #[trigger] r@[k2],
            forall|j: int| 0 <= j < i && knock_entry_kept(#[trigger] state@[j], drop_create) ==> r@.contains(j as usize),
        decreases state.len() - i,
    {
        let keep = match crate::stripped_state::state_cell(&state[i]) {
            Some((kind, key)) => !(drop_create && kind == "m.room.create".to_owned() && key == "".to_owned()),
            None => false,
        };
        if keep {
            let ghost before = r@;
            r.push(i);
            proof {
                assert(r@[r@.len() - 1] == i);
                assert forall|j: int| 0 <= j < i + 1 && knock_entry_kept(#[trigger] state@[j], drop_create) implies r@.contains(j as usize) by {
                    if j < i {
                        let k = choose|k: int| 0 <= k < before.len() && before[k] == j as usize;
                        assert(r@[k] == j as usize);
                    } else {
                        assert(r@[r@.len() - 1] == j as usize);
                    }
                }
            }
        }
        i += 1;
    }
    r
}


/// The string at `inner` of the object at `outer` of the canonical JSON
/// object that `json` spells, if it spells one and there is such a string.
pub uninterp spec fn json_nested_string_field(json: Seq<char>, outer: Seq<char>, inner: Seq<char>) -> Option<Seq<char>>;

/// Parses `json` as a `ruma::CanonicalJsonObject` with `serde_json`, and
/// reads the string at `inner` of the object at `outer`.
///
/// Claimed: the result is the name `json_nested_string_field` applied to the
/// text and the two keys; nothing more is stated of what parses.
#[verifier::external_body]
fn read_nested_string_field(json: &str, outer: &str, inner: &str) -> (r: Option<String>)
    ensures
        r.deep_view() == json_nested_string_field(json@, outer@, inner@),
{
    let object: ruma::CanonicalJsonObject = serde_json::from_str(json).ok()?;
    object.get(outer)?.as_object()?.get(inner)?.as_str().map(str::to_owned)
}

/// The user through whom a remote join is authorised, as the `make_join`
/// template names it: only in room versions with restricted join rules, and
/// only where the name is a user id.
pub fn remote_join_authorizer(join_event_stub: &str, room_version: &str) -> (r: Option<String>)
    ensures
        r.deep_view() == if crate::room_version::known_room_version(room_version@) matches Some(n) && n >= 8 {
            match json_nested_string_field(join_event_stub@, "content"@, "join_authorised_via_users_server"@) {
                Some(user) if valid_user_id(user) => Some(user),
                _ => None,
            }
        } else {
            None
        },
{
    if !has_restricted_join_rule(room_version) {
        return None;
    }
    match read_nested_string_field(join_event_stub, "content", "join_authorised_via_users_server") {
        Some(user) => match parse_user_server(user.as_str()) {
            Some(_) => Some(user),
            None => None,
        },
        None => None,
    }
}

/// The index of the first flag that is set.
pub open spec fn first_set(flags: Seq<bool>, i: int) -> bool {
    &&& 0 <= i < flags.len()
    &&& flags[i]
    &&& forall|j: int| 0 <= j < i ==> !flags[j]
}

/// The local user who authorises a join to a restricted room: none unless the
/// joining user is in one of the rooms the join rule allows; then the first
/// local member of the room who may invite, if any may.
pub fn authorizing_user(joined_allowed_room: bool, local_users: &Vec<String>, can_invite: &Vec<bool>) -> (r: Option<String>)
    requires
        local_users.len() == can_invite.len(),
    ensures
        !joined_allowed_room ==> r is None,
        joined_allowed_room ==> match r {
            Some(user) => exists|i: int| first_set(can_invite@, i) && user@ == #[trigger] local_users@[i]@,
            None => forall|i: int| 0 <= i < can_invite.len() ==> !#[trigger] can_invite@[i],
        },
{
    if !joined_allowed_room {
        return None;
    }
    let mut i: usize = 0;
    while i < local_users.len()
        invariant
            i <= local_users.len(),
            joined_allowed_room,
            local_users.len() == can_invite.len(),
            forall|j: int| 0 <= j < i ==> !#[trigger] can_invite@[j],
        decreases local_users.len() - i,
    {
        if can_invite[i] {
            let user = local_users[i].clone();
            proof {
                assert(first_set(can_invite@, i as int));
                assert(user@ == local_users@[i as int]@);
            }
            return Some(user);
        }
        i += 1;
    }
    None
}


/// The content of a member event with a caller's extra content merged in: the
/// extra keys fill only what the content lacks, so nothing the server put in
/// it is overridden. Content that is not an object is left as it is.
pub fn merge_member_content(content: JsonValue, extra_content: Option<JsonObject>) -> (r: JsonValue)
    ensures
        match (content, extra_content) {
            (JsonValue::Object(own), Some(extra)) => r matches JsonValue::Object(merged) && merged@ == extra@.union_prefer_right(own@),
            _ => r == content,
        },
{
    match content {
        JsonValue::Object(mut own) => match extra_content {
            Some(extra) => {
                own.fill_from(extra);
                JsonValue::Object(own)
            },
            None => JsonValue::Object(own),
        },
        other => other,
    }
}

/// The largest integer canonical JSON holds: 2^53 - 1.
pub const MAX_CANONICAL_INT: u64 = 9007199254740991;

/// Why a member event could not be completed.
#[derive(Debug, Clone, Copy, PartialEq, Eq, Structural)]
pub enum MemberEventError {
    /// The clock reads past what an `i64` holds.
    ClockOutOfRange,
    /// The timestamp is past what canonical JSON holds.
    TimestampOutOfRange,
}

/// The keys that completing a member event sets.
pub open spec fn member_event_keys() -> Set<Seq<char>> {
    set!["content"@, "origin"@, "origin_server_ts"@, "room_id"@, "sender"@, "state_key"@, "type"@]
}

/// A member event template completed with this server's fields: the content,
/// this server as origin, the time, the room, and the user as both sender and
/// state key of an `m.room.member` event; every other key as it was.
pub open spec fn member_event_completed(
    after: Map<Seq<char>, JsonValue>,
    before: Map<Seq<char>, JsonValue>,
    content: JsonValue,
    origin: Seq<char>,
    now_millis: u64,
    room_id: Seq<char>,
    user_id: Seq<char>,
) -> bool {
    &&& after.dom() == before.dom().union(member_event_keys())
    &&& forall|k: Seq<char>| #[trigger] before.dom().contains(k) && !member_event_keys().contains(k) ==> after[k] == before[k]
    &&& after["content"@] == content
    &&& is_text(after["origin"@], origin)
    &&& after["origin_server_ts"@] == JsonValue::Integer(now_millis as i64)
    &&& is_text(after["room_id"@], room_id)
    &&& is_text(after["sender"@], user_id)
    &&& is_text(after["state_key"@], user_id)
    &&& is_text(after["type"@], "m.room.member"@)
}

/// Completes a member event template for this server, as `origin`, at
/// `now_millis`. A time past `i64` fails before anything is set; one past
/// canonical JSON's integers fails once the content and origin are set.
pub fn complete_member_event(
    event: &mut JsonObject,
    room_id: &str,
    user_id: &str,
    origin: &str,
    now_millis: u64,
    content: JsonValue,
) -> (r: Result<(), MemberEventError>)
    ensures
        now_millis > i64::MAX ==> r == Err::<(), MemberEventError>(MemberEventError::ClockOutOfRange) && final(event)@ == old(event)@,
        i64::MAX >= now_millis > MAX_CANONICAL_INT ==> r == Err::<(), MemberEventError>(MemberEventError::TimestampOutOfRange)
            && final(event)@.dom() == old(event)@.dom().insert("content"@).insert("origin"@)
            && final(event)@["content"@] == content
            && is_text(final(event)@["origin"@], origin@)
            && forall|k: Seq<char>| #[trigger] old(event)@.dom().contains(k) && k != "content"@ && k != "origin"@ ==> final(event)@[k] == old(event)@[k],
        now_millis <= MAX_CANONICAL_INT ==> r is Ok && member_event_completed(final(event)@, old(event)@, content, origin@, now_millis, room_id@, user_id@),
{
    if now_millis > 9223372036854775807u64 {
        return Err(MemberEventError::ClockOutOfRange);
    }
    let ghost start = event@;
    proof {
        reveal_strlit("content");
        reveal_strlit("origin");
        reveal_strlit("origin_server_ts");
        reveal_strlit("room_id");
        reveal_strlit("sender");
        reveal_strlit("state_key");
        reveal_strlit("type");
    }
    event.insert("content".to_owned(), content);
    event.insert("origin".to_owned(), JsonValue::Str(origin.to_owned()));
    if now_millis > MAX_CANONICAL_INT {
        proof {
            assert("origin"@ != "content"@) by {
                assert("origin"@.len() != "content"@.len());
            }
            assert(event@.dom() =~= start.dom().insert("content"@).insert("origin"@));
        }
        return Err(MemberEventError::TimestampOutOfRange);
    }
    event.insert("origin_server_ts".to_owned(), JsonValue::Integer(now_millis as i64));
    event.insert("room_id".to_owned(), JsonValue::Str(room_id.to_owned()));
    event.insert("sender".to_owned(), JsonValue::Str(user_id.to_owned()));
    event.insert("state_key".to_owned(), JsonValue::Str(user_id.to_owned()));
    event.insert("type".to_owned(), JsonValue::Str("m.room.member".to_owned()));
    proof {
        let keys = seq!["content"@, "origin"@, "origin_server_ts"@, "room_id"@, "sender"@, "state_key"@, "type"@];
        assert forall|a: int, b: int| 0 <= a < b < 7 implies keys[a] != keys[b] by {
            if keys[a].len() == keys[b].len() {
                assert(keys[a][0] != keys[b][0] || keys[a][1] != keys[b][1]);
            }
        }
        assert(keys[0] != keys[1] && keys[0] != keys[2] && keys[0] != keys[3] && keys[0] != keys[4] && keys[0] != keys[5] && keys[0] != keys[6]);
        assert(keys[1] != keys[2] && keys[1] != keys[3] && keys[1] != keys[4] && keys[1] != keys[5] && keys[1] != keys[6]);
        assert(keys[2] != keys[3] && keys[2] != keys[4] && keys[2] != keys[5] && keys[2] != keys[6]);
        assert(keys[3] != keys[4] && keys[3] != keys[5] && keys[3] != keys[6]);
        assert(keys[4] != keys[5] && keys[4] != keys[6]);
        assert(keys[5] != keys[6]);
        assert(event@.dom() =~= start.dom().union(member_event_keys()));
    }
    Ok(())
}


/// Why a user cannot be unbanned.
#[derive(Debug, Clone, Copy, PartialEq, Eq, Structural)]
pub enum UnbanError {
    /// The user's membership is not a ban.
    NotBanned,
}

/// Whether a member event's content records a ban.
pub open spec fn is_ban(content: Option<JsonObject>) -> bool {
    content matches Some(c) && c@.dom().contains("membership"@) && is_text(c@["membership"@], "ban"@)
}

/// The content of the event that lifts a ban, from the content of the ban
/// (`None` where the user has no member event): the membership becomes
/// `leave` with the given reason, and the fields that belong to joins and
/// invites go; anything else the ban's content held stays. Only a banned user
/// can be unbanned.
pub fn unban_content(current: Option<JsonObject>, reason: Option<String>) -> (r: Result<JsonObject, UnbanError>)
    ensures
        r is Ok <==> is_ban(current),
        r matches Err(e) ==> e == UnbanError::NotBanned,
        r matches Ok(content) ==> current matches Some(c) && {
            &&& content@.remove("membership"@).remove("reason"@) == c@.remove("membership"@).remove("reason"@)
                .remove("join_authorised_via_users_server"@).remove("third_party_invite"@).remove("is_direct"@)
            &&& content@.dom().contains("membership"@)
            &&& is_text(content@["membership"@], "leave"@)
            &&& match reason {
                Some(text) => content@.dom().contains("reason"@) && is_text(content@["reason"@], text@),
                None => !content@.dom().contains("reason"@),
            }
        },
{
    let mut content = match current {
        Some(c) => c,
        None => return Err(UnbanError::NotBanned),
    };
    let ban = "ban".to_owned();
    let banned = match content.get("membership") {
        Some(JsonValue::Str(m)) => *m == ban,
        _ => false,
    };
    if !banned {
        return Err(UnbanError::NotBanned);
    }
    let ghost start = content@;
    content.insert("membership".to_owned(), JsonValue::Str("leave".to_owned()));
    match reason {
        Some(text) => content.insert("reason".to_owned(), JsonValue::Str(text)),
        None => {
            content.remove("reason");
        },
    }
    content.remove("join_authorised_via_users_server");
    content.remove("third_party_invite");
    content.remove("is_direct");
    proof {
        reveal_strlit("membership");
        reveal_strlit("reason");
        reveal_strlit("join_authorised_via_users_server");
        reveal_strlit("third_party_invite");
        reveal_strlit("is_direct");
        assert("membership"@.len() == 10 && "reason"@.len() == 6 && "join_authorised_via_users_server"@.len() == 32
            && "third_party_invite"@.len() == 18 && "is_direct"@.len() == 9);
        assert(content@.remove("membership"@).remove("reason"@) =~= start.remove("membership"@).remove("reason"@)
            .remove("join_authorised_via_users_server"@).remove("third_party_invite"@).remove("is_direct"@));
    }
    Ok(content)
}

} // verus!
