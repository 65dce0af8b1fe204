//! Who may see and redact what in a room.
//!
//! A room's history visibility, read from its state as of an event or as of
//! now, decides who sees the event; a room with no history visibility event,
//! or one that does not read, is treated as `shared`. Power levels, or the
//! room's creator where the room has none, decide who may redact.

use vstd::prelude::*;
use vstd::std_specs::iter::IteratorSpec;

verus! {

broadcast use {vstd::string::axiom_spec_iter, vstd::string::next_postcondition};

/// A room's history visibility setting.
#[derive(Debug, Clone, Copy, PartialEq, Eq, Structural)]
pub enum HistoryVisibility {
    /// Members see the events from the point they were invited.
    Invited,
    /// Members see the events from the point they joined.
    Joined,
    /// Members see all the events, even those before they joined.
    Shared,
    /// Anyone sees the events.
    WorldReadable,
    /// A value the spec does not define.
    Unknown,
}

/// The setting the value of a history visibility event names.
pub open spec fn spec_history_visibility(value: Seq<char>) -> HistoryVisibility {
    if value == "invited"@ {
        HistoryVisibility::Invited
    } else if value == "joined"@ {
        HistoryVisibility::Joined
    } else if value == "shared"@ {
        HistoryVisibility::Shared
    } else if value == "world_readable"@ {
        HistoryVisibility::WorldReadable
    } else {
        HistoryVisibility::Unknown
    }
}

/// A room's history visibility from the `history_visibility` value of its
/// event, `shared` where there is no event or it does not read.
pub fn history_visibility_of(value: Option<&str>) -> (r: HistoryVisibility)
    ensures
        r == match value {
            Some(v) => spec_history_visibility(v@),
            None => HistoryVisibility::Shared,
        },
{
    let v = match value {
        Some(v) => v.to_owned(),
        None => return HistoryVisibility::Shared,
    };
    if v == "invited".to_owned() {
        HistoryVisibility::Invited
    } else if v == "joined".to_owned() {
        HistoryVisibility::Joined
    } else if v == "shared".to_owned() {
        HistoryVisibility::Shared
    } else if v == "world_readable".to_owned() {
        HistoryVisibility::WorldReadable
    } else {
        HistoryVisibility::Unknown
    }
}

/// What has to be known of a user before an event is shown to it.
#[derive(Debug, Clone, Copy, PartialEq, Eq, Structural)]
pub enum UserCheck {
    /// The event is shown.
    Visible,
    /// The event is hidden.
    Hidden,
    /// Shown if the user was invited as of the event.
    InvitedAtEvent,
    /// Shown if the user was joined as of the event.
    JoinedAtEvent,
}

/// What decides whether a user sees an event: an event whose state is not
/// known is shown; otherwise the history visibility as of the event decides,
/// with `shared` showing it to current members and a value the spec does not
/// define hiding it.
pub fn user_can_see_event(state_known: bool, visibility: HistoryVisibility, currently_member: bool) -> (r: UserCheck)
    ensures
        r == if !state_known {
            UserCheck::Visible
        } else {
            match visibility {
                HistoryVisibility::Invited => UserCheck::InvitedAtEvent,
                HistoryVisibility::Joined => UserCheck::JoinedAtEvent,
                HistoryVisibility::WorldReadable => UserCheck::Visible,
                HistoryVisibility::Shared => if currently_member {
                    UserCheck::Visible
                } else {
                    UserCheck::Hidden
                },
                HistoryVisibility::Unknown => UserCheck::Hidden,
            }
        },
{
    if !state_known {
        return UserCheck::Visible;
    }
    match visibility {
        HistoryVisibility::Invited => UserCheck::InvitedAtEvent,
        HistoryVisibility::Joined => UserCheck::JoinedAtEvent,
        HistoryVisibility::WorldReadable => UserCheck::Visible,
        HistoryVisibility::Shared => {
            if currently_member {
                UserCheck::Visible
            } else {
                UserCheck::Hidden
            }
        },
        HistoryVisibility::Unknown => UserCheck::Hidden,
    }
}

/// What has to be known of a server before an event is shared with it.
#[derive(Debug, Clone, Copy, PartialEq, Eq, Structural)]
pub enum ServerCheck {
    /// The event is shared.
    Visible,
    /// The event is withheld.
    Hidden,
    /// Shared if one of the server's current members was invited as of the
    /// event.
    AnyMemberInvitedAtEvent,
    /// Shared if one of the server's current members was joined as of the
    /// event.
    AnyMemberJoinedAtEvent,
}

/// What decides whether a server sees an event: an event whose state is not
/// known is shared; `shared` and `world_readable` share it; a value the spec
/// does not define withholds it.
pub fn server_can_see_event(state_known: bool, visibility: HistoryVisibility) -> (r: ServerCheck)
    ensures
        r == if !state_known {
            ServerCheck::Visible
        } else {
            match visibility {
                HistoryVisibility::Invited => ServerCheck::AnyMemberInvitedAtEvent,
                HistoryVisibility::Joined => ServerCheck::AnyMemberJoinedAtEvent,
                HistoryVisibility::WorldReadable | HistoryVisibility::Shared => ServerCheck::Visible,
                HistoryVisibility::Unknown => ServerCheck::Hidden,
            }
        },
{
    if !state_known {
        return ServerCheck::Visible;
    }
    match visibility {
        HistoryVisibility::Invited => ServerCheck::AnyMemberInvitedAtEvent,
        HistoryVisibility::Joined => ServerCheck::AnyMemberJoinedAtEvent,
        HistoryVisibility::WorldReadable | HistoryVisibility::Shared => ServerCheck::Visible,
        HistoryVisibility::Unknown => ServerCheck::Hidden,
    }
}

/// What decides whether a user sees a room's state events.
#[derive(Debug, Clone, Copy, PartialEq, Eq, Structural)]
pub enum StateCheck {
    /// They are shown.
    Visible,
    /// They are hidden.
    Hidden,
    /// Shown if the user is invited now.
    InvitedNow,
}

/// Whether a user sees a room's state events: members do; others only where
/// the room is world readable, or where it is `invited` and they are.
pub fn user_can_see_state_events(joined: bool, visibility: HistoryVisibility) -> (r: StateCheck)
    ensures
        r == if joined {
            StateCheck::Visible
        } else {
            match visibility {
                HistoryVisibility::Invited => StateCheck::InvitedNow,
                HistoryVisibility::WorldReadable => StateCheck::Visible,
                _ => StateCheck::Hidden,
            }
        },
{
    if joined {
        return StateCheck::Visible;
    }
    match visibility {
        HistoryVisibility::Invited => StateCheck::InvitedNow,
        HistoryVisibility::WorldReadable => StateCheck::Visible,
        _ => StateCheck::Hidden,
    }
}

/// An event a redaction targets, as far as the decision goes.
#[derive(Debug, Clone, PartialEq, Eq)]
pub struct RedactedEvent {
    /// The event's type.
    pub kind: String,
    /// The user who sent it.
    pub sender: String,
}


/// What a room's create event says of who created it: its sender, the room
/// version its content names, and the additional creators it lists.
#[derive(Debug, Clone, PartialEq, Eq)]
pub struct CreateInfo {
    /// The user who sent the create event.
    pub sender: String,
    /// The room version its content names.
    pub room_version: String,
    /// The additional creators its content lists.
    pub additional_creators: Vec<String>,
}

/// The room version whose authorization rules a room's power levels are read
/// under: the create event's, where ruma knows its rules, and version 1's
/// otherwise, also when there is no create event.
pub open spec fn rules_version(create: Option<&CreateInfo>) -> Seq<char> {
    match create {
        Some(c) if crate::room_version::known_room_version(c.room_version@) is Some => c.room_version@,
        _ => "1"@,
    }
}

/// The room's creators: the create event's sender, then its additional
/// creators in order; nobody without a create event.
pub open spec fn creators_of(create: Option<&CreateInfo>) -> Seq<Seq<char>> {
    match create {
        Some(c) => seq![c.sender@] + c.additional_creators@.map_values(|u: String| u@),
        None => Seq::empty(),
    }
}

/// The context a room's power levels are read in: the room version whose
/// authorization rules apply, and the room's creators.
pub fn power_level_context(create: Option<&CreateInfo>) -> (r: (String, Vec<String>))
    ensures
        r.0@ == rules_version(create),
        r.1.deep_view() == creators_of(create),
{
    match create {
        Some(c) => {
            let version = match crate::room_version::room_version_number(c.room_version.as_str()) {
                Some(_) => c.room_version.clone(),
                None => "1".to_owned(),
            };
            let mut creators: Vec<String> = Vec::new();
            creators.push(c.sender.clone());
            let mut i: usize = 0;
            while i < c.additional_creators.len()
                invariant
                    i <= c.additional_creators.len(),
                    creators.deep_view() == seq![c.sender@] + c.additional_creators@.take(i as int).map_values(|u: String| u@),
                decreases c.additional_creators.len() - i,
            {
                let ghost before = creators.deep_view();
                creators.push(c.additional_creators[i].clone());
                proof {
                    assert(c.additional_creators@.take(i + 1).map_values(|u: String| u@)
                        =~= c.additional_creators@.take(i as int).map_values(|u: String| u@).push(c.additional_creators@[i as int]@));
                    assert(creators.deep_view() =~= before.push(c.additional_creators@[i as int]@));
                }
                i += 1;
            }
            proof {
                assert(c.additional_creators@.take(i as int) =~= c.additional_creators@);
            }
            (version, creators)
        },
        None => {
            let creators: Vec<String> = Vec::new();
            proof {
                assert(creators.deep_view() =~= Seq::<Seq<char>>::empty());
            }
            ("1".to_owned(), creators)
        },
    }
}

/// What ruma's power levels say of `user` redacting events, read from the
/// JSON of a power levels event's content under the authorization rules of
/// `room_version`, with the room's `creators`: whether the user may redact
/// others' events, and its own. `None` where the content does not read as
/// power levels, or the version or an id does not parse.
pub uninterp spec fn pl_redaction(content: Seq<char>, room_version: Seq<char>, creators: Seq<Seq<char>>, user: Seq<char>) -> Option<(bool, bool)>;

/// Builds ruma's `RoomPowerLevels` from a power levels content, as the room
/// reads it, and asks `user_can_redact_event_of_other` and
/// `user_can_redact_own_event`.
///
/// Claimed: the result is the name `pl_redaction` applied to the arguments;
/// and, as the ruma source shows, one who may redact others' events may redact
/// its own. What the power levels decide is not stated otherwise.
#[verifier::external_body]
fn power_levels_redaction(content_json: &str, room_version: &str, creators: &Vec<String>, user: &str) -> (r: Option<(bool, bool)>)
    ensures
        r == pl_redaction(content_json@, room_version@, creators.deep_view(), user@),
        r matches Some((others, own)) ==> (others ==> own),
{
    let content: ruma::events::room::power_levels::RoomPowerLevelsEventContent = serde_json::from_str(content_json).ok()?;
    let rules = ruma::RoomVersionId::try_from(room_version).ok()?.rules()?.authorization;
    let creators = creators.iter().map(|c| ruma::OwnedUserId::try_from(c.as_str()).ok()).collect::<Option<Vec<_>>>()?;
    let user = <&ruma::UserId>::try_from(user).ok()?;
    let source = ruma::events::room::power_levels::RoomPowerLevelsSource::Original(content);
    let levels = ruma::events::room::power_levels::RoomPowerLevels::new(source, &rules, creators);
    Some((levels.user_can_redact_event_of_other(user), levels.user_can_redact_own_event(user)))
}

/// What ruma's power levels say of `user` sending a state event of type
/// `state_type`, read as for `pl_redaction`. `None` where the content does
/// not read as power levels, or the version or an id does not parse.
pub uninterp spec fn pl_send_state(content: Seq<char>, room_version: Seq<char>, creators: Seq<Seq<char>>, user: Seq<char>, state_type: Seq<char>) -> Option<bool>;

/// Builds ruma's `RoomPowerLevels` as for `power_levels_redaction`, and asks
/// `user_can_send_state` for the state event type `state_type`.
///
/// Claimed: the result is the name `pl_send_state` applied to the arguments.
#[verifier::external_body]
pub(crate) fn power_levels_can_send_state(content_json: &str, room_version: &str, creators: &Vec<String>, user: &str, state_type: &str) -> (r: Option<bool>)
    ensures
        r == pl_send_state(content_json@, room_version@, creators.deep_view(), user@, state_type@),
{
    let content: ruma::events::room::power_levels::RoomPowerLevelsEventContent = serde_json::from_str(content_json).ok()?;
    let rules = ruma::RoomVersionId::try_from(room_version).ok()?.rules()?.authorization;
    let creators = creators.iter().map(|c| ruma::OwnedUserId::try_from(c.as_str()).ok()).collect::<Option<Vec<_>>>()?;
    let user = <&ruma::UserId>::try_from(user).ok()?;
    let source = ruma::events::room::power_levels::RoomPowerLevelsSource::Original(content);
    let levels = ruma::events::room::power_levels::RoomPowerLevels::new(source, &rules, creators);
    Some(levels.user_can_send_state(user, ruma::events::StateEventType::from(state_type)))
}

/// Why a redaction is refused outright.
#[derive(Debug, Clone, Copy, PartialEq, Eq, Structural)]
pub enum RedactError {
    /// Redacting a create event is not safe.
    CreateEvent,
    /// Redacting the server ACL would lock everyone out of the room.
    ServerAcl,
    /// The room's state holds neither readable power levels nor a create
    /// event.
    NoAuthority,
}

/// The server name of a user id: what follows its first colon.
pub open spec fn server_part(user_id: Seq<char>) -> Option<Seq<char>> {
    if exists|i: int| 0 <= i < user_id.len() && user_id[i] == ':' {
        let i = choose|i: int| 0 <= i < user_id.len() && user_id[i] == ':' && forall|j: int| 0 <= j < i ==> user_id[j] != ':';
        Some(user_id.skip(i + 1))
    } else {
        None
    }
}

/// Where the first colon of `s` is, if it has one.
fn first_colon(s: &Vec<char>) -> (r: Option<usize>)
    ensures
        match r {
            Some(i) => i < s.len() && s@[i as int] == ':' && forall|j: int| 0 <= j < i ==> s@[j] != ':',
            None => forall|j: int| 0 <= j < s.len() ==> s@[j] != ':',
        },
{
    let mut i: usize = 0;
    while i < s.len()
        invariant
            i <= s.len(),
            forall|j: int| 0 <= j < i ==> s@[j] != ':',
        decreases s.len() - i,
    {
        if s[i] == ':' {
            return Some(i);
        }
        i += 1;
    }
    None
}

/// The characters of a string.
fn chars_of(s: &str) -> (r: Vec<char>)
    ensures
        r@ == s@,
{
    let mut r: Vec<char> = Vec::new();
    let mut it = s.chars();
    let ghost mut n: int = 0;
    loop
        invariant
            0 <= n <= s@.len(),
            it.obeys_prophetic_iter_laws(),
            it.remaining() == s@.skip(n),
            r@ == s@.take(n),
        ensures
            r@ == s@,
        decreases s@.len() - n,
    {
        let ghost before = it.remaining();
        match it.next() {
            Some(c) => {
                proof {
                    assert(c == s@[n]);
                    assert(s@.take(n + 1) == s@.take(n).push(c));
                    assert(it.remaining() == s@.skip(n + 1));
                }
                r.push(c);
                proof {
                    n = n + 1;
                }
            },
            None => {
                proof {
                    assert(before.len() == 0);
                    assert(s@.take(n) == s@);
                }
                break;
            },
        }
    }
    r
}

/// Whether two user ids name the same server.
pub fn same_server(a: &str, b: &str) -> (r: bool)
    ensures
        r == (server_part(a@) == server_part(b@)),
{
    let ca = chars_of(a);
    let cb = chars_of(b);
    let ia = first_colon(&ca);
    let ib = first_colon(&cb);
    proof {
        if let Some(i) = ia {
            assert(exists|k: int| 0 <= k < a@.len() && a@[k] == ':') by {
                assert(a@[i as int] == ':');
            }
            let w = choose|k: int| 0 <= k < a@.len() && a@[k] == ':' && forall|j: int| 0 <= j < k ==> a@[j] != ':';
            assert(w == i) by {
                if w < i {
                    assert(a@[w] != ':');
                } else if i < w {
                    assert(a@[i as int] != ':');
                }
            }
        }
        if let Some(i) = ib {
            assert(exists|k: int| 0 <= k < b@.len() && b@[k] == ':') by {
                assert(b@[i as int] == ':');
            }
            let w = choose|k: int| 0 <= k < b@.len() && b@[k] == ':' && forall|j: int| 0 <= j < k ==> b@[j] != ':';
            assert(w == i) by {
                if w < i {
                    assert(b@[w] != ':');
                } else if i < w {
                    assert(b@[i as int] != ':');
                }
            }
        }
    }
    match (ia, ib) {
        (None, None) => true,
        (Some(i), Some(j)) => {
            let la = ca.len() - (i + 1);
            let lb = cb.len() - (j + 1);
            if la != lb {
                proof {
                    assert(ca@.skip(i + 1).len() != cb@.skip(j + 1).len());
                }
                return false;
            }
            let mut k: usize = 0;
            while k < la
                invariant
                    la == ca.len() - (i + 1),
                    lb == cb.len() - (j + 1),
                    la == lb,
                    i < ca.len(),
                    j < cb.len(),
                    k <= la,
                    server_part(a@) == Some(ca@.skip(i + 1)),
                    server_part(b@) == Some(cb@.skip(j + 1)),
                    forall|m: int| 0 <= m < k ==> #[trigger] ca@.skip(i + 1)[m] == cb@.skip(j + 1)[m],
                decreases la - k,
            {
                if ca[i + 1 + k] != cb[j + 1 + k] {
                    proof {
                        assert(ca@.skip(i + 1)[k as int] == ca@[i + 1 + k]);
                        assert(cb@.skip(j + 1)[k as int] == cb@[j + 1 + k]);
                        assert(ca@.skip(i + 1) != cb@.skip(j + 1));
                    }
                    return false;
                }
                proof {
                    assert(ca@.skip(i + 1)[k as int] == ca@[i + 1 + k]);
                    assert(cb@.skip(j + 1)[k as int] == cb@[j + 1 + k]);
                }
                k += 1;
            }
            proof {
                assert(ca@.skip(i + 1) =~= cb@.skip(j + 1));
            }
            true
        },
        _ => false,
    }
}

/// Whether `sender` may redact an event (`None` where the event is not
/// known), or why the redaction is refused outright. Create and server ACL
/// events are never redacted. Where the room's power levels (their content's
/// JSON) read, a sender who may redact others' events may; one who may redact
/// its own may where it sent the event, or over federation where its server
/// did. Otherwise the room's creator may, and so may the event's own sender;
/// without a create event either, the redaction is refused.
pub fn user_can_redact(
    redacted: Option<RedactedEvent>,
    sender: &str,
    federation: bool,
    power_levels: Option<&str>,
    create: Option<&CreateInfo>,
) -> (r: Result<bool, RedactError>)
    ensures
        r == match redacted {
            Some(e) if e.kind@ == "m.room.create"@ => Err(RedactError::CreateEvent),
            Some(e) if e.kind@ == "m.room.server_acl"@ => Err(RedactError::ServerAcl),
            _ => {
                let read = match power_levels {
                    Some(content) => pl_redaction(content@, rules_version(create), creators_of(create), sender@),
                    None => None,
                };
                match read {
                    Some((others, own)) => Ok(others || (own && match redacted {
                        Some(e) => if federation {
                            server_part(e.sender@) == server_part(sender@)
                        } else {
                            e.sender@ == sender@
                        },
                        None => false,
                    })),
                    None => match create {
                        Some(c) => Ok(c.sender@ == sender@ || (redacted matches Some(e) && e.sender@ == sender@)),
                        None => Err(RedactError::NoAuthority),
                    },
                }
            },
        },
{
    let me = sender.to_owned();
    if let Some(e) = &redacted {
        if e.kind == "m.room.create".to_owned() {
            return Err(RedactError::CreateEvent);
        }
        if e.kind == "m.room.server_acl".to_owned() {
            return Err(RedactError::ServerAcl);
        }
    }
    let read = match power_levels {
        Some(content) => {
            let (version, creators) = power_level_context(create);
            power_levels_redaction(content, version.as_str(), &creators, sender)
        },
        None => None,
    };
    match read {
        Some((others, own)) => {
            let is_own = match &redacted {
                Some(e) => {
                    if federation {
                        same_server(e.sender.as_str(), sender)
                    } else {
                        e.sender == me
                    }
                },
                None => false,
            };
            Ok(others || (own && is_own))
        },
        None => match create {
            Some(c) => {
                let theirs = match &redacted {
                    Some(e) => e.sender == me,
                    None => false,
                };
                Ok(c.sender == me || theirs)
            },
            None => Err(RedactError::NoAuthority),
        },
    }
}

} // verus!
