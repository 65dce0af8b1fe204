//! Room aliases: who may set and remove them, and how one is resolved.
//!
//! Only aliases on this server are set or removed here. The server's admin
//! room alias is the server user's alone. An alias is removed by whoever
//! created it, by a server admin, or by whoever may set the room's canonical
//! alias.

use crate::state_accessor::{
    creators_of, pl_send_state, power_level_context, power_levels_can_send_state, rules_version, CreateInfo,
};
use vstd::prelude::*;

verus! {

/// Why an alias change is refused.
#[derive(Debug, Clone, Copy, PartialEq, Eq, Structural)]
pub enum AliasError {
    /// The alias belongs to another server.
    NotLocal,
    /// Only the server user may set this alias.
    AdminAlias,
    /// The alias does not exist.
    NotFound,
    /// The user may not remove the alias.
    Forbidden,
    /// The room has neither power levels nor a create event.
    NoRoomState,
    /// The alias lies in an appservice's namespace, and the request is not
    /// that appservice's.
    Exclusive,
}

/// Whether an alias may be set by `user`: it must be on this server, and the
/// admin room's alias may be set by the server user alone.
pub fn check_set_alias(alias_is_local: bool, is_admin_alias: bool, user_is_server_user: bool) -> (r: Result<(), AliasError>)
    ensures
        r == if !alias_is_local {
            Err(AliasError::NotLocal)
        } else if is_admin_alias && !user_is_server_user {
            Err(AliasError::AdminAlias)
        } else {
            Ok(())
        },
{
    if !alias_is_local {
        return Err(AliasError::NotLocal);
    }
    if is_admin_alias && !user_is_server_user {
        return Err(AliasError::AdminAlias);
    }
    Ok(())
}

/// Whether `user` may remove a local alias: its creator and server admins
/// may; otherwise whoever the room's power levels (their content's JSON), where
/// they read, let send a canonical alias event, or, where they do not, the
/// room's creator. A room with neither is refused.
pub fn user_can_remove_alias(
    alias_is_local: bool,
    alias_exists: bool,
    user_created_it: bool,
    user_is_admin: bool,
    power_levels: Option<&str>,
    create: Option<&CreateInfo>,
    user: &str,
) -> (r: Result<bool, AliasError>)
    ensures
        r == if !alias_is_local {
            Err(AliasError::NotLocal)
        } else if !alias_exists {
            Err(AliasError::NotFound)
        } else if user_created_it || user_is_admin {
            Ok(true)
        } else {
            let read = match power_levels {
                Some(content) => pl_send_state(content@, rules_version(create), creators_of(create), user@, "m.room.canonical_alias"@),
                None => None,
            };
            match read {
                Some(may) => Ok(may),
                None => match create {
                    Some(c) => Ok(c.sender@ == user@),
                    None => Err(AliasError::NoRoomState),
                },
            }
        },
{
    if !alias_is_local {
        return Err(AliasError::NotLocal);
    }
    if !alias_exists {
        return Err(AliasError::NotFound);
    }
    if user_created_it || user_is_admin {
        return Ok(true);
    }
    let read = match power_levels {
        Some(content) => {
            let (version, creators) = power_level_context(create);
            power_levels_can_send_state(content, version.as_str(), &creators, user, "m.room.canonical_alias")
        },
        None => None,
    };
    match read {
        Some(may) => Ok(may),
        None => match create {
            Some(c) => Ok(c.sender == user.to_owned()),
            None => Err(AliasError::NoRoomState),
        },
    }
}

/// Whether removing an alias goes ahead: the check must pass and allow it.
pub fn check_remove_alias(can_remove: Result<bool, AliasError>) -> (r: Result<(), AliasError>)
    ensures
        r == match can_remove {
            Ok(true) => Ok(()),
            Ok(false) => Err(AliasError::Forbidden),
            Err(e) => Err(e),
        },
{
    match can_remove {
        Ok(true) => Ok(()),
        Ok(false) => Err(AliasError::Forbidden),
        Err(e) => Err(e),
    }
}

/// Where an alias is resolved.
#[derive(Debug, Clone, Copy, PartialEq, Eq, Structural)]
pub enum AliasSource {
    /// Ask the alias's own server.
    Remote,
    /// This server's alias table names the room.
    Local,
    /// An appservice that claims the alias made it exist.
    Appservice,
    /// Nothing names a room for it.
    NotFound,
}

/// Where an alias is resolved: an alias of another server by that server;
/// a local one by this server's table, else by an appservice that claims it.
pub fn alias_source(alias_is_local: bool, in_local_table: bool, appservice_created: bool) -> (r: AliasSource)
    ensures
        r == if !alias_is_local {
            AliasSource::Remote
        } else if in_local_table {
            AliasSource::Local
        } else if appservice_created {
            AliasSource::Appservice
        } else {
            AliasSource::NotFound
        },
{
    if !alias_is_local {
        AliasSource::Remote
    } else if in_local_table {
        AliasSource::Local
    } else if appservice_created {
        AliasSource::Appservice
    } else {
        AliasSource::NotFound
    }
}

/// Whether a request may set a local alias, as far as appservices go: an
/// appservice's request only within its own alias namespace, and anyone
/// else's only outside every appservice's exclusive namespace.
pub fn appservice_checks(alias_is_local: bool, from_appservice: bool, in_its_namespace: bool, exclusive_elsewhere: bool) -> (r: Result<(), AliasError>)
    ensures
        r == if !alias_is_local {
            Err(AliasError::NotLocal)
        } else if from_appservice {
            if in_its_namespace { Ok(()) } else { Err(AliasError::Exclusive) }
        } else if exclusive_elsewhere {
            Err(AliasError::Exclusive)
        } else {
            Ok(())
        },
{
    if !alias_is_local {
        return Err(AliasError::NotLocal);
    }
    if from_appservice {
        if !in_its_namespace {
            return Err(AliasError::Exclusive);
        }
    } else if exclusive_elsewhere {
        return Err(AliasError::Exclusive);
    }
    Ok(())
}

} // verus!
