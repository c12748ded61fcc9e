//! The saved game state: its starting value and the record of each game.
use vstd::prelude::*;
use crate::json::{
    Json,
    json_field,
    json_array,
    json_str,
    member_value,
    is_empty_object,
    lemma_member_value_skip,
    json_text_value,
    parse_json_text,
};
use crate::config::GameConfig;
use crate::text::{decimal, decimal_text, to_uppercase, uppercase_text};

verus! {

/// Why the saved state could not be used.
#[derive(Debug, Clone, Copy, PartialEq, Eq, Structural)]
pub enum StateError {
    InvalidGames,
    InvalidAnswer,
    InvalidGuesses,
    InvalidGuess,
    /// The state file's text is not valid JSON.
    InvalidJson,
}

/// The message text of each error.
pub open spec fn state_error_text(e: StateError) -> &'static str {
    match e {
        StateError::InvalidGames => "Error! invalid state games",
        StateError::InvalidAnswer => "Error! invalid state answer",
        StateError::InvalidGuesses => "Error! invalid state guesses",
        StateError::InvalidGuess => "Error! invalid state guess",
        StateError::InvalidJson => "Error! invalid state json",
    }
}

impl StateError {
    /// The message reported for this error.
    pub fn message(&self) -> (r: String)
        ensures
            r@ == state_error_text(*self)@,
    {
        match self {
            StateError::InvalidGames => String::from_str("Error! invalid state games"),
            StateError::InvalidAnswer => String::from_str("Error! invalid state answer"),
            StateError::InvalidGuesses => String::from_str("Error! invalid state guesses"),
            StateError::InvalidGuess => String::from_str("Error! invalid state guess"),
            StateError::InvalidJson => String::from_str("Error! invalid state json"),
        }
    }
}

/// The state of a session with no saved game: `{"total_rounds": 0,
/// "games": []}`.
pub open spec fn is_fresh_state(v: Json) -> bool {
    match v {
        Json::Object(members) => {
            &&& members.len() == 2
            &&& members[0].0@ == "total_rounds"@
            &&& members[0].1 matches Json::Number(n) && n@ == "0"@
            &&& members[1].0@ == "games"@
            &&& members[1].1 matches Json::Array(items) && items.len() == 0
        },
        _ => false,
    }
}

/// `{"total_rounds": 0, "games": []}`.
pub fn fresh_state() -> (r: Json)
    ensures
        is_fresh_state(r),
{
    let mut members: Vec<(String, Json)> = Vec::new();
    members.push((String::from_str("total_rounds"), Json::Number(String::from_str("0"))));
    members.push((String::from_str("games"), Json::Array(Vec::new())));
    Json::Object(members)
}

/// The state a session starts from. `content` is the text of the state
/// file, read only when a state file is configured. Without a state file or
/// without content the state is fresh; otherwise the text must be JSON
/// (`InvalidJson` if not), and the state is its value, or a fresh state when
/// the value is an empty object.
pub fn parse_states(config: &GameConfig, content: Option<&str>) -> (r: Result<Json, StateError>)
    ensures
        config.state@.len() == 0 || content is None ==> (r matches Ok(v) && is_fresh_state(v)),
        config.state@.len() != 0 && content is Some ==> match json_text_value(content->0@) {
            None => r == Err::<Json, StateError>(StateError::InvalidJson),
            Some(v) => if is_empty_object(v) {
                r matches Ok(f) && is_fresh_state(f)
            } else {
                r == Ok::<Json, StateError>(v)
            },
        },
{
    if config.state.as_str().unicode_len() == 0 {
        return Ok(fresh_state());
    }
    match content {
        Some(text) => match parse_json_text(text) {
            Some(value) => {
                let empty = match &value {
                    Json::Object(members) => members.len() == 0,
                    _ => false,
                };
                if empty {
                    Ok(fresh_state())
                } else {
                    Ok(value)
                }
            },
            None => Err(StateError::InvalidJson),
        },
        None => Ok(fresh_state()),
    }
}

/// `v` is the record of one game: `{"answer": A, "guesses": [G, ...]}` with
/// the answer and each guess in upper case.
pub open spec fn is_game_record(v: Json, answer: Seq<char>, guesses: Seq<String>) -> bool {
    match v {
        Json::Object(members) => {
            &&& members.len() == 2
            &&& members[0].0@ == "answer"@
            &&& json_str(members[0].1) == Some(uppercase_text(answer))
            &&& members[1].0@ == "guesses"@
            &&& json_array(members[1].1) matches Some(items) && items.len() == guesses.len() && (
            forall|i: int|
                0 <= i < items.len() ==> json_str(#[trigger] items[i]) == Some(
                    uppercase_text(guesses[i]@),
                ))
        },
        _ => false,
    }
}

/// The record of one game, answer and guesses in upper case.
pub fn game_record(answer: &str, guesses: &Vec<String>) -> (r: Json)
    ensures
        is_game_record(r, answer@, guesses@),
{
    let mut items: Vec<Json> = Vec::new();
    let mut i: usize = 0;
    while i < guesses.len()
        invariant
            0 <= i <= guesses.len(),
            items.len() == i,
            forall|k: int|
                0 <= k < i ==> json_str(#[trigger] items@[k]) == Some(uppercase_text(guesses@[k]@)),
        decreases guesses.len() - i,
    {
        items.push(Json::Str(to_uppercase(guesses[i].as_str())));
        i = i + 1;
    }
    let mut members: Vec<(String, Json)> = Vec::new();
    members.push((String::from_str("answer"), Json::Str(to_uppercase(answer))));
    members.push((String::from_str("guesses"), Json::Array(items)));
    Json::Object(members)
}

proof fn lemma_member_value_update_other(
    members: Seq<(String, Json)>,
    p: int,
    entry: (String, Json),
    key: Seq<char>,
)
    requires
        0 <= p < members.len(),
        entry.0@ == members[p].0@,
        members[p].0@ != key,
    ensures
        member_value(members.update(p, entry), key) == member_value(members, key),
    decreases members.len(),
{
    let u = members.update(p, entry);
    if p == 0 {
        assert(u.drop_first() =~= members.drop_first());
    } else {
        assert(u[0] == members[0]);
        if members[0].0@ != key {
            lemma_member_value_update_other(members.drop_first(), p - 1, entry, key);
            assert(u.drop_first() =~= members.drop_first().update(p - 1, entry));
        }
    }
}

proof fn lemma_member_value_update_first(
    members: Seq<(String, Json)>,
    p: int,
    entry: (String, Json),
)
    requires
        0 <= p < members.len(),
        entry.0@ == members[p].0@,
        forall|k: int| 0 <= k < p ==> #[trigger] members[k].0@ != members[p].0@,
    ensures
        member_value(members.update(p, entry), entry.0@) == entry.1,
        member_value(members, entry.0@) == members[p].1,
    decreases p,
{
    if p > 0 {
        assert(members[0].0@ != members[p].0@);
        assert forall|k: int| 0 <= k < p - 1 implies #[trigger] members.drop_first()[k].0@
            != members.drop_first()[p - 1].0@ by {
            assert(members[k + 1].0@ != members[p].0@);
        }
        lemma_member_value_update_first(members.drop_first(), p - 1, entry);
        assert(members.update(p, entry).drop_first() =~= members.drop_first().update(p - 1, entry));
        assert(members.update(p, entry)[0] == members[0]);
    }
}

proof fn lemma_member_value_push(members: Seq<(String, Json)>, entry: (String, Json), key: Seq<char>)
    requires
        forall|k: int| 0 <= k < members.len() ==> #[trigger] members[k].0@ != entry.0@,
    ensures
        member_value(members.push(entry), key) == if key == entry.0@ {
            entry.1
        } else {
            member_value(members, key)
        },
    decreases members.len(),
{
    let q = members.push(entry);
    if members.len() > 0 {
        assert(members[0].0@ != entry.0@);
        assert(q[0] == members[0]);
        assert forall|k: int| 0 <= k < members.len() - 1 implies #[trigger] members.drop_first()[k].0@
            != entry.0@ by {
            assert(members[k + 1].0@ != entry.0@);
        }
        lemma_member_value_push(members.drop_first(), entry, key);
        assert(q.drop_first() =~= members.drop_first().push(entry));
    } else {
        assert(q[0] == entry);
        assert(q.drop_first().len() == 0);
        assert(member_value(q.drop_first(), key) == Json::Null);
        assert(member_value(members, key) == Json::Null);
    }
}

/// Index of the first member named `key`.
fn find_member(members: &Vec<(String, Json)>, key: &str) -> (r: Option<usize>)
    ensures
        match r {
            Some(p) => p < members.len() && members@[p as int].0@ == key@ && forall|k: int|
                0 <= k < p ==> #[trigger] members@[k].0@ != key@,
            None => forall|k: int| 0 <= k < members.len() ==> #[trigger] members@[k].0@ != key@,
        },
{
    let k = String::from_str(key);
    let mut i: usize = 0;
    while i < members.len()
        invariant
            0 <= i <= members.len(),
            k@ == key@,
            forall|t: int| 0 <= t < i ==> #[trigger] members@[t].0@ != key@,
        decreases members.len() - i,
    {
        if members[i].0 == k {
            return Some(i);
        }
        i = i + 1;
    }
    None
}

/// `after` is `before` with the record of a game with `answer` and `guesses`
/// appended to its saved games and `total_rounds` set to their new number;
/// every other member is the same.
pub open spec fn is_appended(before: Json, after: Json, answer: Seq<char>, guesses: Seq<String>) -> bool {
    json_array(json_field(before, "games"@)) matches Some(games) && {
        &&& after is Object
        &&& json_array(json_field(after, "games"@)) matches Some(now) && now.len() == games.len()
            + 1 && now.take(games.len() as int) == games && is_game_record(
            now.last(),
            answer,
            guesses,
        )
        &&& json_field(after, "total_rounds"@) matches Json::Number(n) && n@ == decimal_text(
            (games.len() + 1) as nat,
        )
        &&& forall|key: Seq<char>|
            key != "games"@ && key != "total_rounds"@ ==> #[trigger] json_field(after, key)
                == json_field(before, key)
    }
}

/// Appends the record of a finished game to the saved games and sets
/// `total_rounds` to their new number. Every other member stays. When the
/// state's `games` is not an array the state is left as it is and the result
/// is `InvalidGames`.
pub fn append_game_record(state: &mut Json, answer: &str, guesses: &Vec<String>) -> (r: Result<
    (),
    StateError,
>)
    ensures
        json_array(json_field(*old(state), "games"@)) is None ==> r == Err::<(), StateError>(
            StateError::InvalidGames,
        ) && *final(state) == *old(state),
        json_array(json_field(*old(state), "games"@)) is Some ==> r is Ok && is_appended(
            *old(state),
            *final(state),
            answer@,
            guesses@,
        ),
{
    let record = game_record(answer, guesses);
    let ghost rec = record;
    let mut taken = Json::Null;
    std::mem::swap(&mut taken, state);
    let mut members = match taken {
        Json::Object(members) => members,
        other => {
            *state = other;
            return Err(StateError::InvalidGames);
        },
    };
    let ghost m0 = members@;
    let gi = match find_member(&members, "games") {
        Some(p) => p,
        None => {
            proof {
                lemma_member_value_skip(m0, "games"@, m0.len() as int);
            }
            *state = Json::Object(members);
            return Err(StateError::InvalidGames);
        },
    };
    proof {
        lemma_member_value_update_first(m0, gi as int, m0[gi as int]);
    }
    let is_array = match &members[gi].1 {
        Json::Array(_) => true,
        _ => false,
    };
    if !is_array {
        *state = Json::Object(members);
        return Err(StateError::InvalidGames);
    }
    let (gkey, gval) = members.remove(gi);
    let mut items = match gval {
        Json::Array(items) => items,
        other => {
            members.insert(gi, (gkey, other));
            proof {
                assert(members@ =~= m0);
            }
            *state = Json::Object(members);
            return Err(StateError::InvalidGames);
        },
    };
    let ghost games0 = items@;
    items.push(record);
    let rounds = items.len();
    members.insert(gi, (gkey, Json::Array(items)));
    let ghost m1 = members@;
    proof {
        reveal_strlit("games");
        reveal_strlit("total_rounds");
        assert(m1 =~= m0.update(gi as int, m1[gi as int]));
        lemma_member_value_update_first(m0, gi as int, m1[gi as int]);
        assert forall|key: Seq<char>| key != "games"@ implies #[trigger] member_value(m1, key)
            == member_value(m0, key) by {
            lemma_member_value_update_other(m0, gi as int, m1[gi as int], key);
        }
        assert(json_array(member_value(m1, "games"@)) == Some(games0.push(rec)));
    }
    let count = decimal(rounds as u64);
    match find_member(&members, "total_rounds") {
        Some(ti) => {
            let tkey = String::from_str("total_rounds");
            members.set(ti, (tkey, Json::Number(count)));
            proof {
                reveal_strlit("games");
                reveal_strlit("total_rounds");
                let m2 = members@;
                assert(m2 =~= m1.update(ti as int, m2[ti as int]));
                lemma_member_value_update_first(m1, ti as int, m2[ti as int]);
                assert forall|key: Seq<char>| key != "total_rounds"@ implies #[trigger] member_value(
                    m2,
                    key,
                ) == member_value(m1, key) by {
                    lemma_member_value_update_other(m1, ti as int, m2[ti as int], key);
                }
                assert("games"@.len() != "total_rounds"@.len());
                assert(member_value(m2, "games"@) == member_value(m1, "games"@));
            }
        },
        None => {
            let tkey = String::from_str("total_rounds");
            members.push((tkey, Json::Number(count)));
            proof {
                reveal_strlit("games");
                reveal_strlit("total_rounds");
                let m2 = members@;
                assert(m2 =~= m1.push(m2.last()));
                assert forall|key: Seq<char>| #[trigger] member_value(m2, key) == if key
                    == "total_rounds"@ {
                    m2.last().1
                } else {
                    member_value(m1, key)
                } by {
                    lemma_member_value_push(m1, m2.last(), key);
                }
                assert("games"@.len() != "total_rounds"@.len());
                lemma_member_value_push(m1, m2.last(), "games"@);
                assert(m2.last().0@ == "total_rounds"@);
                assert(member_value(m2, "games"@) == member_value(m1, "games"@));
            }
        },
    }
    proof {
        assert(games0.push(rec).take(games0.len() as int) =~= games0);
    }
    *state = Json::Object(members);
    Ok(())
}

} // verus!
