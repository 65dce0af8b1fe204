//! The stripped state that an invite or a knock carries.
//!
//! Each entry of such an array is either a legacy stripped event or a full
//! PDU, both as JSON text. An entry occupies a state cell, the pair of its
//! `type` and `state_key`; an entry whose cell cannot be read is dropped.

use vstd::prelude::*;

verus! {

/// One entry of a stripped state array, as the JSON text it arrived as.
#[derive(Debug, Clone, PartialEq, Eq)]
pub enum RawStrippedState {
    /// A legacy stripped state event.
    Stripped(String),
    /// A full PDU.
    Pdu(String),
    /// A shape this server does not know.
    Unknown,
}

/// What `serde_json` reads as the string at `key` of the JSON object that
/// `json` spells, if it spells one and that value is a string.
pub uninterp spec fn json_string_field(json: Seq<char>, key: Seq<char>) -> Option<Seq<char>>;

/// Parses `json` with `serde_json` and reads the string value at `key`.
///
/// Claimed: the result is the name `json_string_field` applied to the text and
/// the key; nothing more is stated of what `serde_json` accepts.
#[verifier::external_body]
pub(crate) fn read_string_field(json: &str, key: &str) -> (r: Option<String>)
    ensures
        r.deep_view() == json_string_field(json@, key@),
{
    let value: serde_json::Value = serde_json::from_str(json).ok()?;
    value.get(key).and_then(serde_json::Value::as_str).map(str::to_owned)
}

/// The JSON text of an entry, for the shapes that have one.
pub open spec fn entry_json(e: RawStrippedState) -> Option<Seq<char>> {
    match e {
        RawStrippedState::Stripped(s) => Some(s@),
        RawStrippedState::Pdu(s) => Some(s@),
        RawStrippedState::Unknown => None,
    }
}

/// The state cell an entry occupies: its `type` and its `state_key`.
pub open spec fn cell_of(e: RawStrippedState) -> Option<(Seq<char>, Seq<char>)> {
    match entry_json(e) {
        Some(j) => match (json_string_field(j, "type"@), json_string_field(j, "state_key"@)) {
            (Some(kind), Some(key)) => Some((kind, key)),
            _ => None,
        },
        None => None,
    }
}

/// Whether entry `i` of `s` occupies cell `c`.
pub open spec fn at_cell(s: Seq<RawStrippedState>, i: int, c: (Seq<char>, Seq<char>)) -> bool {
    0 <= i < s.len() && cell_of(s[i]) == Some(c)
}

/// Whether entry `i` is the first of `s` to occupy cell `c`.
pub open spec fn first_at(s: Seq<RawStrippedState>, c: (Seq<char>, Seq<char>), i: int) -> bool {
    at_cell(s, i, c) && forall|j: int| 0 <= j < i ==> !#[trigger] at_cell(s, j, c)
}

/// Whether entry `i` is the one that stands for cell `c` once `s` is
/// deduplicated: the first PDU at the cell, or, where the cell holds no PDU,
/// the first entry at it.
pub open spec fn kept_at(s: Seq<RawStrippedState>, c: (Seq<char>, Seq<char>), i: int) -> bool {
    &&& at_cell(s, i, c)
    &&& {
        ||| (s[i] is Pdu && forall|j: int| 0 <= j < i && #[trigger] at_cell(s, j, c) ==> !(s[j] is Pdu))
        ||| (first_at(s, c, i) && forall|j: int| #[trigger] at_cell(s, j, c) ==> !(s[j] is Pdu))
    }
}

/// The pair of strings a cell holds, as a cell.
pub open spec fn cell_pair(c: (String, String)) -> (Seq<char>, Seq<char>) {
    (c.0@, c.1@)
}

/// A copy of an entry.
fn copy_entry(e: &RawStrippedState) -> (r: RawStrippedState)
    ensures
        r == *e,
{
    match e {
        RawStrippedState::Stripped(s) => RawStrippedState::Stripped(s.clone()),
        RawStrippedState::Pdu(s) => RawStrippedState::Pdu(s.clone()),
        RawStrippedState::Unknown => RawStrippedState::Unknown,
    }
}

/// The JSON text of an entry.
pub fn entry_text(e: &RawStrippedState) -> (r: Option<&str>)
    ensures
        match r {
            Some(t) => entry_json(*e) == Some(t@),
            None => entry_json(*e) is None,
        },
{
    match e {
        RawStrippedState::Stripped(s) => Some(s.as_str()),
        RawStrippedState::Pdu(s) => Some(s.as_str()),
        RawStrippedState::Unknown => None,
    }
}

/// The cell an entry occupies, read out of its JSON.
pub fn state_cell(e: &RawStrippedState) -> (r: Option<(String, String)>)
    ensures
        match r {
            Some(c) => cell_of(*e) == Some(cell_pair(c)),
            None => cell_of(*e) is None,
        },
{
    let json = match entry_text(e) {
        Some(json) => json,
        None => return None,
    };
    let kind = match read_string_field(json, "type") {
        Some(kind) => kind,
        None => return None,
    };
    let key = match read_string_field(json, "state_key") {
        Some(key) => key,
        None => return None,
    };
    Some((kind, key))
}

/// Whether an entry is a legacy stripped event rather than a PDU.
pub fn is_legacy(e: &RawStrippedState) -> (r: bool)
    ensures
        r == (*e is Stripped),
{
    match e {
        RawStrippedState::Stripped(_) => true,
        _ => false,
    }
}

/// Finds the index of cell `c` among `cells`.
fn position_of(cells: &Vec<(String, String)>, c: &(String, String)) -> (r: Option<usize>)
    ensures
        match r {
            Some(k) => k < cells.len() && cell_pair(cells@[k as int]) == cell_pair(*c),
            None => forall|k: int| 0 <= k < cells.len() ==> cell_pair(#[trigger] cells@[k]) != cell_pair(*c),
        },
{
    let mut k: usize = 0;
    while k < cells.len()
        invariant
            k <= cells.len(),
            forall|m: int| 0 <= m < k ==> cell_pair(#[trigger] cells@[m]) != cell_pair(*c),
        decreases cells.len() - k,
    {
        if cells[k].0 == c.0 && cells[k].1 == c.1 {
            return Some(k);
        }
        k += 1;
    }
    None
}

/// Keeps one entry for each state cell, in the order the cells first occur.
///
/// A cell's first PDU wins over any legacy entry at it; a cell that holds no
/// PDU keeps its first legacy entry. Entries whose cell cannot be read drop.
pub fn dedup_stripped_state(state: Vec<RawStrippedState>) -> (r: Vec<RawStrippedState>)
    ensures
        forall|k: int| 0 <= k < r.len() ==> (#[trigger] cell_of(r@[k])) is Some,
        forall|k: int| 0 <= k < r.len() ==> exists|i: int| kept_at(state@, cell_of(#[trigger] r@[k])->0, i) && r@[k] == state@[i],
        forall|k1: int, k2: int| 0 <= k1 < k2 < r.len() ==> cell_of(#[trigger] r@[k1]) != cell_of(#[trigger] r@[k2]),
        forall|k1: int, k2: int, i1: int, i2: int|
            0 <= k1 < k2 < r.len() && #[trigger] first_at(state@, cell_of(r@[k1])->0, i1)
                && #[trigger] first_at(state@, cell_of(r@[k2])->0, i2) ==> i1 < i2,
        forall|i: int| 0 <= i < state.len() && (#[trigger] cell_of(state@[i])) is Some
            ==> exists|k: int| 0 <= k < r.len() && cell_of(r@[k]) == cell_of(state@[i]),
{
    let ghost s = state@;
    let mut kept: Vec<RawStrippedState> = Vec::new();
    let mut cells: Vec<(String, String)> = Vec::new();
    let ghost mut pos: Seq<int> = Seq::empty();
    let ghost mut firsts: Seq<int> = Seq::empty();
    let mut n: usize = 0;
    while n < state.len()
        invariant
            s == state@,
            n <= s.len(),
            kept.len() == cells.len(),
            pos.len() == kept.len(),
            firsts.len() == kept.len(),
            forall|k: int| 0 <= k < kept.len() ==> cell_of(#[trigger] kept@[k]) == Some(cell_pair(cells@[k])),
            forall|k: int| 0 <= k < kept.len() ==> 0 <= #[trigger] pos[k] < n && kept@[k] == s[pos[k]]
                && kept_at(s.take(n as int), cell_pair(cells@[k]), pos[k]),
            forall|k: int| 0 <= k < kept.len() ==> first_at(s.take(n as int), cell_pair(cells@[k]), #[trigger] firsts[k]),
            forall|k1: int, k2: int| 0 <= k1 < k2 < kept.len() ==> #[trigger] firsts[k1] < #[trigger] firsts[k2],
            forall|k1: int, k2: int| 0 <= k1 < k2 < kept.len() ==> cell_pair(#[trigger] cells@[k1]) != cell_pair(#[trigger] cells@[k2]),
            forall|i: int| 0 <= i < n && (#[trigger] cell_of(s[i])) is Some
                ==> exists|k: int| 0 <= k < kept.len() && Some(cell_pair(cells@[k])) == cell_of(s[i]),
        decreases s.len() - n,
    {
        let ghost t0 = s.take(n as int);
        let ghost t1 = s.take(n + 1);
        assert forall|j: int, c: (Seq<char>, Seq<char>)| 0 <= j < n implies #[trigger] at_cell(t1, j, c) == at_cell(t0, j, c) by {
            assert(t1[j] == t0[j]);
        }
        assert(t1[n as int] == s[n as int]);
        let entry = &state[n];
        match state_cell(entry) {
            None => {
                proof {
                    assert forall|k: int| 0 <= k < kept.len() implies kept_at(t1, cell_pair(cells@[k]), #[trigger] pos[k]) by {
                        let c = cell_pair(cells@[k]);
                        assert(!at_cell(t1, n as int, c));
                        assert(at_cell(t1, pos[k], c) == at_cell(t0, pos[k], c));
                        assert(t1[pos[k]] == t0[pos[k]]);
                    }
                    assert forall|k: int| 0 <= k < kept.len() implies first_at(t1, cell_pair(cells@[k]), #[trigger] firsts[k]) by {
                        let c = cell_pair(cells@[k]);
                        assert(at_cell(t1, firsts[k], c) == at_cell(t0, firsts[k], c));
                    }
                }
            },
            Some(c) => {
                let ghost cv = cell_pair(c);
                match position_of(&cells, &c) {
                    None => {
                        proof {
                            assert forall|j: int| 0 <= j < n implies !#[trigger] at_cell(t1, j, cv) by {
                                if at_cell(t0, j, cv) {
                                    assert(t0[j] == s[j]);
                                    let k = choose|k: int| 0 <= k < kept.len() && Some(cell_pair(cells@[k])) == cell_of(s[j]);
                                    assert(cell_pair(cells@[k]) == cv);
                                }
                            }
                            assert(first_at(t1, cv, n as int));
                            assert(kept_at(t1, cv, n as int));
                            assert forall|k: int| 0 <= k < kept.len() implies kept_at(t1, cell_pair(cells@[k]), #[trigger] pos[k]) by {
                                let ck = cell_pair(cells@[k]);
                                assert(ck != cv);
                                assert(!at_cell(t1, n as int, ck));
                                assert(at_cell(t1, pos[k], ck) == at_cell(t0, pos[k], ck));
                                assert(t1[pos[k]] == t0[pos[k]]);
                            }
                            assert forall|k: int| 0 <= k < kept.len() implies first_at(t1, cell_pair(cells@[k]), #[trigger] firsts[k]) by {
                                let ck = cell_pair(cells@[k]);
                                assert(at_cell(t1, firsts[k], ck) == at_cell(t0, firsts[k], ck));
                            }
                        }
                        let ghost cells0 = cells@;
                        kept.push(copy_entry(entry));
                        cells.push(c);
                        proof {
                            pos = pos.push(n as int);
                            firsts = firsts.push(n as int);
                            let last = kept.len() - 1;
                            assert(Some(cell_pair(cells@[last as int])) == cell_of(s[n as int]));
                            assert forall|i: int| 0 <= i < n + 1 && (#[trigger] cell_of(s[i])) is Some
                                implies exists|k: int| 0 <= k < kept.len() && Some(cell_pair(cells@[k])) == cell_of(s[i]) by {
                                if i == n {
                                    assert(Some(cell_pair(cells@[last as int])) == cell_of(s[i]));
                                } else {
                                    let k = choose|k: int| 0 <= k < kept.len() - 1 && Some(cell_pair(cells0[k])) == cell_of(s[i]);
                                    assert(cells@[k] == cells0[k]);
                                }
                            }
                        }
                    },
                    Some(k) => {
                        let replace = is_legacy(&kept[k]) && !is_legacy(entry);
                        proof {
                            assert(cell_pair(cells@[k as int]) == cv);
                            assert forall|m: int| 0 <= m < kept.len() && m != k implies kept_at(t1, cell_pair(cells@[m]), #[trigger] pos[m]) by {
                                let cm = cell_pair(cells@[m]);
                                if m < k {
                                    assert(cell_pair(cells@[m]) != cell_pair(cells@[k as int]));
                                } else {
                                    assert(cell_pair(cells@[k as int]) != cell_pair(cells@[m]));
                                }
                                assert(!at_cell(t1, n as int, cm));
                                assert(at_cell(t1, pos[m], cm) == at_cell(t0, pos[m], cm));
                                assert(t1[pos[m]] == t0[pos[m]]);
                            }
                            assert forall|m: int| 0 <= m < kept.len() implies first_at(t1, cell_pair(cells@[m]), #[trigger] firsts[m]) by {
                                let cm = cell_pair(cells@[m]);
                                assert(at_cell(t1, firsts[m], cm) == at_cell(t0, firsts[m], cm));
                            }
                            let p = pos[k as int];
                            assert(at_cell(t1, p, cv) == at_cell(t0, p, cv));
                            assert(t1[p] == t0[p]);
                            if replace {
                                assert(forall|j: int| 0 <= j < n && #[trigger] at_cell(t1, j, cv) ==> !(t1[j] is Pdu));
                                assert(kept_at(t1, cv, n as int));
                            } else {
                                assert(kept_at(t1, cv, p));
                            }
                        }
                        if replace {
                            kept.set(k, copy_entry(entry));
                            proof {
                                pos = pos.update(k as int, n as int);
                            }
                        }
                        proof {
                            assert(Some(cell_pair(cells@[k as int])) == cell_of(s[n as int]));
                        }
                    },
                }
            },
        }
        n += 1;
    }
    proof {
        assert(s.take(s.len() as int) == s);
        assert forall|k: int| 0 <= k < kept.len() implies exists|i: int| kept_at(s, cell_of(#[trigger] kept@[k])->0, i) && kept@[k] == s[i] by {
            assert(kept_at(s, cell_pair(cells@[k]), pos[k]));
        }
        assert forall|k1: int, k2: int, i1: int, i2: int|
            0 <= k1 < k2 < kept.len() && #[trigger] first_at(s, cell_of(kept@[k1])->0, i1)
                && #[trigger] first_at(s, cell_of(kept@[k2])->0, i2) implies i1 < i2 by {
            lemma_first_unique(s, cell_pair(cells@[k1]), i1, firsts[k1]);
            lemma_first_unique(s, cell_pair(cells@[k2]), i2, firsts[k2]);
        }
        assert forall|i: int| 0 <= i < s.len() && (#[trigger] cell_of(s[i])) is Some
            implies exists|k: int| 0 <= k < kept.len() && cell_of(kept@[k]) == cell_of(s[i]) by {
            let k = choose|k: int| 0 <= k < kept.len() && Some(cell_pair(cells@[k])) == cell_of(s[i]);
            assert(cell_of(kept@[k]) == cell_of(s[i]));
        }
    }
    kept
}

/// A cell has one first entry.
proof fn lemma_first_unique(s: Seq<RawStrippedState>, c: (Seq<char>, Seq<char>), i: int, j: int)
    requires
        first_at(s, c, i),
        first_at(s, c, j),
    ensures
        i == j,
{
    if i < j {
        assert(at_cell(s, i, c));
    } else if j < i {
        assert(at_cell(s, j, c));
    }
}

/// Whether an entry occupies the membership cell of `user_id`.
pub fn occupies_member_cell(e: &RawStrippedState, user_id: &str) -> (r: bool)
    ensures
        r == (cell_of(*e) == Some(("m.room.member"@, user_id@))),
{
    match state_cell(e) {
        Some((kind, key)) => {
            let member = "m.room.member".to_owned();
            let user = user_id.to_owned();
            kind == member && key == user
        },
        None => false,
    }
}

/// The entries of `state` in order, without any that occupies the membership
/// cell of `user_id`.
pub fn without_member(state: Vec<RawStrippedState>, user_id: &str) -> (r: Vec<RawStrippedState>)
    ensures
        r@ == state@.filter(|e: RawStrippedState| cell_of(e) != Some(("m.room.member"@, user_id@))),
{
    let ghost keep = |e: RawStrippedState| cell_of(e) != Some(("m.room.member"@, user_id@));
    let mut r: Vec<RawStrippedState> = Vec::new();
    let mut n: usize = 0;
    while n < state.len()
        invariant
            n <= state.len(),
            keep == (|e: RawStrippedState| cell_of(e) != Some(("m.room.member"@, user_id@))),
            r@ == state@.take(n as int).filter(keep),
        decreases state.len() - n,
    {
        proof {
            assert(state@.take(n + 1).drop_last() == state@.take(n as int));
            reveal(Seq::filter);
        }
        if !occupies_member_cell(&state[n], user_id) {
            r.push(copy_entry(&state[n]));
        }
        n += 1;
    }
    proof {
        assert(state@.take(state.len() as int) == state@);
    }
    r
}

/// How a stripped create event stands up to the checks made on it.
#[derive(Clone, Copy, Debug, PartialEq, Eq, Structural)]
pub enum StrippedCreateVerdict {
    /// A PDU create event for this room, signed by its sender's server.
    Valid,
    /// No create event at all.
    Missing,
    /// A create event only in the legacy stripped shape.
    NotPdu,
    /// A create event that belongs to another room.
    WrongRoom,
    /// A create event whose signatures do not verify.
    BadSignature,
}

/// Whether an invite or a knock is refused for the verdict on its stripped
/// create event. A create event of another room is refused in rooms whose ids
/// come from the create event even where enforcement is off; the rest of the
/// failures only where it is on.
pub fn enforce_stripped_create(verdict: StrippedCreateVerdict, v12_room_ids: bool, enforce: bool) -> (r: bool)
    ensures
        r == match verdict {
            StrippedCreateVerdict::Valid => false,
            StrippedCreateVerdict::WrongRoom => v12_room_ids || enforce,
            _ => enforce,
        },
{
    match verdict {
        StrippedCreateVerdict::Valid => false,
        StrippedCreateVerdict::WrongRoom => v12_room_ids || enforce,
        StrippedCreateVerdict::Missing | StrippedCreateVerdict::NotPdu | StrippedCreateVerdict::BadSignature => enforce,
    }
}

/// The string at `key` of the canonical JSON object that `json` spells, if it
/// spells one and that value is a string.
pub uninterp spec fn canonical_string_field(json: Seq<char>, key: Seq<char>) -> Option<Seq<char>>;

/// Parses `json` as a `ruma::CanonicalJsonObject` with `serde_json`, and reads
/// the string at `key`.
///
/// Claimed: the result is the name `canonical_string_field` applied to the
/// text and the key; nothing more is stated of what parses.
#[verifier::external_body]
pub(crate) fn read_canonical_string_field(json: &str, key: &str) -> (r: Option<String>)
    ensures
        r.deep_view() == canonical_string_field(json@, key@),
{
    let object: ruma::CanonicalJsonObject = serde_json::from_str(json).ok()?;
    object.get(key)?.as_str().map(str::to_owned)
}

/// Whether a JSON text is a room's create event: read as canonical JSON, its
/// `type` is `m.room.create` and its `state_key` is empty.
pub open spec fn is_create_json(json: Seq<char>) -> bool {
    canonical_string_field(json, "type"@) == Some("m.room.create"@)
        && canonical_string_field(json, "state_key"@) == Some(""@)
}

/// Whether an entry is a PDU create event.
pub open spec fn is_pdu_create(e: RawStrippedState) -> bool {
    e matches RawStrippedState::Pdu(j) && is_create_json(j@)
}

/// Whether an entry is a create event in the legacy shape.
pub open spec fn is_legacy_create(e: RawStrippedState) -> bool {
    e matches RawStrippedState::Stripped(j) && is_create_json(j@)
}

/// Where the create event of a stripped state array was found.
#[derive(Clone, Copy, Debug, PartialEq, Eq, Structural)]
pub enum CreateSearch {
    /// At this index, as a PDU.
    Found(usize),
    /// Only in the legacy shape.
    NotPdu,
    /// Nowhere.
    Missing,
}

/// Whether a JSON text is a create event.
pub fn is_create(json: &str) -> (r: bool)
    ensures
        r == is_create_json(json@),
{
    let kind = read_canonical_string_field(json, "type");
    let key = read_canonical_string_field(json, "state_key");
    match (kind, key) {
        (Some(kind), Some(key)) => {
            let create = "m.room.create".to_owned();
            let empty = "".to_owned();
            kind == create && key == empty
        },
        _ => false,
    }
}

/// Looks for the create event among the entries: the first PDU create event,
/// else whether a legacy one is there.
pub fn locate_stripped_create(state: &Vec<RawStrippedState>) -> (r: CreateSearch)
    ensures
        match r {
            CreateSearch::Found(i) => i < state.len() && is_pdu_create(state@[i as int])
                && forall|j: int| 0 <= j < i ==> !is_pdu_create(#[trigger] state@[j]),
            CreateSearch::NotPdu => (forall|j: int| 0 <= j < state.len() ==> !is_pdu_create(#[trigger] state@[j]))
                && exists|j: int| 0 <= j < state.len() && is_legacy_create(#[trigger] state@[j]),
            CreateSearch::Missing => forall|j: int| 0 <= j < state.len()
                ==> !is_pdu_create(#[trigger] state@[j]) && !is_legacy_create(state@[j]),
        },
{
    let mut legacy = false;
    let mut i: usize = 0;
    while i < state.len()
        invariant
            i <= state.len(),
            forall|j: int| 0 <= j < i ==> !is_pdu_create(#[trigger] state@[j]),
            legacy <==> exists|j: int| 0 <= j < i && is_legacy_create(#[trigger] state@[j]),
        decreases state.len() - i,
    {
        match &state[i] {
            RawStrippedState::Pdu(json) => {
                if is_create(json.as_str()) {
                    return CreateSearch::Found(i);
                }
            },
            RawStrippedState::Stripped(json) => {
                if is_create(json.as_str()) {
                    legacy = true;
                }
            },
            RawStrippedState::Unknown => {},
        }
        proof {
            if legacy {
                if is_legacy_create(state@[i as int]) {
                    assert(exists|j: int| 0 <= j < i + 1 && is_legacy_create(#[trigger] state@[j]));
                } else {
                    let w = choose|j: int| 0 <= j < i && is_legacy_create(#[trigger] state@[j]);
                    assert(0 <= w < i + 1 && is_legacy_create(state@[w]));
                }
            }
        }
        i += 1;
    }
    if legacy {
        CreateSearch::NotPdu
    } else {
        CreateSearch::Missing
    }
}

/// Whether a create event belongs to `room_id`. In rooms whose ids come from
/// the create event, the id derived from the event's reference hash must be
/// the room's; elsewhere the event's own `room_id` field must name it.
pub fn create_is_bound(create_json: &str, room_id: &str, v12_room_ids: bool, derived_room_id: Option<&str>) -> (r: bool)
    ensures
        r == if v12_room_ids {
            derived_room_id matches Some(d) && d@ == room_id@
        } else {
            canonical_string_field(create_json@, "room_id"@) == Some(room_id@)
        },
{
    let wanted = room_id.to_owned();
    if v12_room_ids {
        match derived_room_id {
            Some(derived) => derived.to_owned() == wanted,
            None => false,
        }
    } else {
        match read_canonical_string_field(create_json, "room_id") {
            Some(id) => id == wanted,
            None => false,
        }
    }
}

/// The verdict on a stripped create event: where it was found, whether it
/// belongs to the room, and whether its signatures verified. The signatures
/// are only asked about for a create event that was found and is bound.
pub fn stripped_create_verdict(search: CreateSearch, bound: bool, signature_valid: bool) -> (r: StrippedCreateVerdict)
    ensures
        r == match search {
            CreateSearch::Missing => StrippedCreateVerdict::Missing,
            CreateSearch::NotPdu => StrippedCreateVerdict::NotPdu,
            CreateSearch::Found(_) => if !bound {
                StrippedCreateVerdict::WrongRoom
            } else if !signature_valid {
                StrippedCreateVerdict::BadSignature
            } else {
                StrippedCreateVerdict::Valid
            },
        },
{
    match search {
        CreateSearch::Missing => StrippedCreateVerdict::Missing,
        CreateSearch::NotPdu => StrippedCreateVerdict::NotPdu,
        CreateSearch::Found(_) => {
            if !bound {
                StrippedCreateVerdict::WrongRoom
            } else if !signature_valid {
                StrippedCreateVerdict::BadSignature
            } else {
                StrippedCreateVerdict::Valid
            }
        },
    }
}

} // verus!
