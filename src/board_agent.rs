use vstd::prelude::*;

use crate::askit::{drop_id, ASKit};
use crate::definition::{AgentConfigEntry, AgentDefinition};
use crate::value::AgentValue;
use crate::text::owned;

verus! {

/// The board that carries variable `var_name` of stream `stream_id`:
/// `%{stream_id}/{var_name}`.
pub open spec fn var_board(stream_id: Seq<char>, var_name: Seq<char>) -> Seq<char> {
    seq!['%'] + stream_id + seq!['/'] + var_name
}

/// The board name of a stream variable.
pub fn board_name_for_var(stream_id: &str, var_name: &str) -> (r: String)
    ensures
        r@ == var_board(stream_id@, var_name@),
{
    proof {
        reveal_strlit("%");
        reveal_strlit("/");
    }
    let mut r = owned("%");
    r.append(stream_id);
    r.append("/");
    r.append(var_name);
    assert(r@ =~= var_board(stream_id@, var_name@));
    r
}

/// Where a board-in agent with the configured board name sends its input:
/// nowhere while the name is unset or empty.
pub fn board_in_target(board_name: &Option<String>) -> (r: Option<String>)
    ensures
        r is Some <==> (board_name is Some && board_name->0@.len() > 0),
        r is Some ==> r->0@ == board_name->0@,
{
    match board_name {
        Some(n) => if n.as_str().unicode_len() > 0 {
            Some(n.clone())
        } else {
            None
        },
        None => None,
    }
}

/// Where a var-in agent of stream `stream_id` sends its input: the board of
/// its variable, nowhere while the name is unset or empty.
pub fn var_in_target(stream_id: &str, var_name: &Option<String>) -> (r: Option<String>)
    ensures
        r is Some <==> (var_name is Some && var_name->0@.len() > 0),
        r is Some ==> r->0@ == var_board(stream_id@, var_name->0@),
{
    match var_name {
        Some(n) => if n.as_str().unicode_len() > 0 {
            Some(board_name_for_var(stream_id, n.as_str()))
        } else {
            None
        },
        None => None,
    }
}

pub open spec fn opt_view(o: Option<String>) -> Option<Seq<char>> {
    match o {
        Some(s) => Some(s@),
        None => None,
    }
}

/// A board-out agent starts: it subscribes to its board, if it has one.
pub fn board_out_start(hub: &mut ASKit, id: &String, board: &Option<String>)
    requires
        old(hub).wf(),
    ensures
        final(hub).wf(),
        board is Some ==> final(hub).subscribers(board->0@) == old(hub).subscribers(board->0@).push(id@),
        board is Some ==> forall|b: Seq<char>| b != board->0@ ==> #[trigger] final(hub).subscribers(b) == old(hub).subscribers(b),
        board is None ==> *final(hub) == *old(hub),
        final(hub).entries() == old(hub).entries(),
        final(hub).table() == old(hub).table(),
{
    if let Some(b) = board {
        hub.subscribe_board(b, id);
    }
}

/// A board-out agent stops: it leaves its board, if it has one.
pub fn board_out_stop(hub: &mut ASKit, id: &String, board: &Option<String>)
    requires
        old(hub).wf(),
    ensures
        final(hub).wf(),
        board is Some ==> final(hub).subscribers(board->0@) == drop_id(old(hub).subscribers(board->0@), id@),
        board is Some ==> forall|b: Seq<char>| b != board->0@ ==> #[trigger] final(hub).subscribers(b) == old(hub).subscribers(b),
        board is None ==> *final(hub) == *old(hub),
        final(hub).entries() == old(hub).entries(),
        final(hub).table() == old(hub).table(),
{
    if let Some(b) = board {
        hub.unsubscribe_board(b, id);
    }
}

/// A board-out agent's board changes from `old_board` to `new_board`: it
/// leaves the old board and subscribes to the new one. The board it is on
/// afterwards comes back.
pub fn board_out_rename(hub: &mut ASKit, id: &String, old_board: Option<String>, new_board: Option<String>) -> (r:
    Option<String>)
    requires
        old(hub).wf(),
    ensures
        final(hub).wf(),
        r == new_board,
        final(hub).entries() == old(hub).entries(),
        final(hub).table() == old(hub).table(),
        opt_view(old_board) == opt_view(new_board) ==> *final(hub) == *old(hub),
        opt_view(old_board) != opt_view(new_board) && old_board is Some ==> final(hub).subscribers(
            old_board->0@,
        ) == drop_id(old(hub).subscribers(old_board->0@), id@),
        opt_view(old_board) != opt_view(new_board) && new_board is Some ==> final(hub).subscribers(
            new_board->0@,
        ) == old(hub).subscribers(new_board->0@).push(id@),
        opt_view(old_board) != opt_view(new_board) ==> forall|b: Seq<char>|
            opt_view(old_board) != Some(b) && opt_view(new_board) != Some(b) ==> #[trigger] final(hub).subscribers(b)
                == old(hub).subscribers(b),
{
    let same = match (&old_board, &new_board) {
        (Some(a), Some(b)) => *a == *b,
        (None, None) => true,
        _ => false,
    };
    if same {
        return new_board;
    }
    board_out_stop(hub, id, &old_board);
    board_out_start(hub, id, &new_board);
    new_board
}

/// A variable of one stream never shares its board with the variable of the
/// same name of another stream.
pub proof fn law_var_boards_apart(s: Seq<char>, t: Seq<char>, x: Seq<char>)
    requires
        s != t,
    ensures
        var_board(s, x) != var_board(t, x),
{
    if var_board(s, x) == var_board(t, x) {
        let a = var_board(s, x);
        let b = var_board(t, x);
        assert(a.subrange(1, a.len() - x.len() - 1) =~= s);
        assert(b.subrange(1, b.len() - x.len() - 1) =~= t);
    }
}

fn board_definition(name: &str, title: &str, input: bool, config: &str, config_title: &str) -> (r: AgentDefinition)
    ensures
        r.name@ == name@,
{
    let mut def = AgentDefinition::new("Board", name);
    def.title = Some(owned(title));
    def.category = Some(owned("Core"));
    let mut pins: Vec<String> = Vec::new();
    pins.push(owned("*"));
    if input {
        def.inputs = Some(pins);
    } else {
        def.outputs = Some(pins);
    }
    let mut entry = AgentConfigEntry::new(AgentValue::string_default(), "string");
    entry.title = Some(owned(config_title));
    let mut configs: Vec<(String, AgentConfigEntry)> = Vec::new();
    configs.push((owned(config), entry));
    def.configs = Some(configs);
    def
}

pub open spec fn board_in_name() -> Seq<char> {
    seq!['a', 'g', 'e', 'n', 't', '_', 's', 't', 'r', 'e', 'a', 'm', '_', 'k', 'i', 't', ':', ':', 'b', 'o', 'a', 'r', 'd', '_', 'a', 'g', 'e', 'n', 't', ':', ':', 'B', 'o', 'a', 'r', 'd', 'I', 'n', 'A', 'g', 'e', 'n', 't']
}

pub open spec fn board_out_name() -> Seq<char> {
    seq!['a', 'g', 'e', 'n', 't', '_', 's', 't', 'r', 'e', 'a', 'm', '_', 'k', 'i', 't', ':', ':', 'b', 'o', 'a', 'r', 'd', '_', 'a', 'g', 'e', 'n', 't', ':', ':', 'B', 'o', 'a', 'r', 'd', 'O', 'u', 't', 'A', 'g', 'e', 'n', 't']
}

pub open spec fn var_in_name() -> Seq<char> {
    seq!['a', 'g', 'e', 'n', 't', '_', 's', 't', 'r', 'e', 'a', 'm', '_', 'k', 'i', 't', ':', ':', 'b', 'o', 'a', 'r', 'd', '_', 'a', 'g', 'e', 'n', 't', ':', ':', 'V', 'a', 'r', 'I', 'n', 'A', 'g', 'e', 'n', 't']
}

pub open spec fn var_out_name() -> Seq<char> {
    seq!['a', 'g', 'e', 'n', 't', '_', 's', 't', 'r', 'e', 'a', 'm', '_', 'k', 'i', 't', ':', ':', 'b', 'o', 'a', 'r', 'd', '_', 'a', 'g', 'e', 'n', 't', ':', ':', 'V', 'a', 'r', 'O', 'u', 't', 'A', 'g', 'e', 'n', 't']
}

/// The names of the built-in board agents, in registration order.
pub open spec fn builtin_names() -> Seq<Seq<char>> {
    seq![board_in_name(), board_out_name(), var_in_name(), var_out_name()]
}

/// The definitions of the four built-in board agents: board in and out,
/// which read and write a named board, and var in and out, which do the same
/// with a variable of their stream.
pub fn board_definitions() -> (r: Vec<AgentDefinition>)
    ensures
        r@.len() == 4,
        Seq::new(r@.len(), |i: int| r[i].name@) == builtin_names(),
{
    proof {
        reveal_strlit("agent_stream_kit::board_agent::BoardInAgent");
        reveal_strlit("agent_stream_kit::board_agent::BoardOutAgent");
        reveal_strlit("agent_stream_kit::board_agent::VarInAgent");
        reveal_strlit("agent_stream_kit::board_agent::VarOutAgent");
    }
    assert("agent_stream_kit::board_agent::BoardInAgent"@ =~= board_in_name());
    assert("agent_stream_kit::board_agent::BoardOutAgent"@ =~= board_out_name());
    assert("agent_stream_kit::board_agent::VarInAgent"@ =~= var_in_name());
    assert("agent_stream_kit::board_agent::VarOutAgent"@ =~= var_out_name());
    let mut defs: Vec<AgentDefinition> = Vec::new();
    defs.push(board_definition("agent_stream_kit::board_agent::BoardInAgent", "Board In", true, "name", "Board Name"));
    defs.push(board_definition("agent_stream_kit::board_agent::BoardOutAgent", "Board Out", false, "name", "Board Name"));
    defs.push(board_definition("agent_stream_kit::board_agent::VarInAgent", "Var In", true, "name", "Var Name"));
    defs.push(board_definition("agent_stream_kit::board_agent::VarOutAgent", "Var Out", false, "name", "Var Name"));
    assert(Seq::new(defs@.len(), |i: int| defs[i].name@) =~= builtin_names());
    defs
}

} // verus!
