use vstd::prelude::*;

use crate::error::AgentError;
use crate::text::owned;
use crate::value::{
    decodable, get_spec, json_form, lemma_json_value_round_trip, lookup, put, value_form, AgentValue,
    Json, JsonValue, Value,
};

verus! {

/// The function a model asks to call.
#[derive(Debug, PartialEq)]
pub struct ToolCallFunction {
    pub name: String,
    pub parameters: JsonValue,
    pub id: Option<String>,
}

/// A call of a tool that a message carries.
#[derive(Debug, PartialEq)]
pub struct ToolCall {
    pub function: ToolCallFunction,
}

/// A chat message exchanged with a language model.
#[derive(Debug, PartialEq)]
pub struct Message {
    pub id: Option<String>,
    pub role: String,
    pub content: String,
    pub thinking: Option<String>,
    pub streaming: bool,
    pub tool_calls: Option<Vec<ToolCall>>,
    pub tool_name: Option<String>,
}

pub struct ToolCallModel {
    pub id: Option<Seq<char>>,
    pub name: Seq<char>,
    pub parameters: Json,
}

pub struct MessageModel {
    pub id: Option<Seq<char>>,
    pub role: Seq<char>,
    pub content: Seq<char>,
    pub thinking: Option<Seq<char>>,
    pub streaming: bool,
    pub tool_calls: Option<Seq<ToolCallModel>>,
    pub tool_name: Option<Seq<char>>,
}

pub open spec fn opt_str(o: Option<String>) -> Option<Seq<char>> {
    match o {
        Some(s) => Some(s@),
        None => None,
    }
}

pub open spec fn call_model(c: ToolCall) -> ToolCallModel {
    ToolCallModel { id: opt_str(c.function.id), name: c.function.name@, parameters: c.function.parameters@ }
}

pub open spec fn calls_model(v: Vec<ToolCall>) -> Seq<ToolCallModel> {
    Seq::new(v@.len(), |i: int| call_model(v[i]))
}

impl View for Message {
    type V = MessageModel;

    open spec fn view(&self) -> MessageModel {
        MessageModel {
            id: opt_str(self.id),
            role: self.role@,
            content: self.content@,
            thinking: opt_str(self.thinking),
            streaming: self.streaming,
            tool_calls: match self.tool_calls {
                Some(v) => Some(calls_model(v)),
                None => None,
            },
            tool_name: opt_str(self.tool_name),
        }
    }
}

pub open spec fn key_role() -> Seq<char> { seq!['r', 'o', 'l', 'e'] }
pub open spec fn key_content() -> Seq<char> { seq!['c', 'o', 'n', 't', 'e', 'n', 't'] }
pub open spec fn key_id() -> Seq<char> { seq!['i', 'd'] }
pub open spec fn key_thinking() -> Seq<char> { seq!['t', 'h', 'i', 'n', 'k', 'i', 'n', 'g'] }
pub open spec fn key_streaming() -> Seq<char> { seq!['s', 't', 'r', 'e', 'a', 'm', 'i', 'n', 'g'] }
pub open spec fn key_tool_name() -> Seq<char> { seq!['t', 'o', 'o', 'l', '_', 'n', 'a', 'm', 'e'] }
pub open spec fn key_tool_calls() -> Seq<char> { seq!['t', 'o', 'o', 'l', '_', 'c', 'a', 'l', 'l', 's'] }
pub open spec fn key_function() -> Seq<char> { seq!['f', 'u', 'n', 'c', 't', 'i', 'o', 'n'] }
pub open spec fn key_name() -> Seq<char> { seq!['n', 'a', 'm', 'e'] }
pub open spec fn key_parameters() -> Seq<char> { seq!['p', 'a', 'r', 'a', 'm', 'e', 't', 'e', 'r', 's'] }
pub open spec fn role_user() -> Seq<char> { seq!['u', 's', 'e', 'r'] }

/// A message with only a role and a content.
pub open spec fn plain_message(role: Seq<char>, content: Seq<char>) -> MessageModel {
    MessageModel {
        id: None,
        role,
        content,
        thinking: None,
        streaming: false,
        tool_calls: None,
        tool_name: None,
    }
}

/// The string of a value, if it is one.
pub open spec fn str_of(v: Option<Value>) -> Option<Seq<char>> {
    match v {
        Some(Value::Str(s)) => Some(s),
        _ => None,
    }
}

/// The tool call a value describes: an optional string `id` and a
/// `function` with a string `name` and some `parameters`.
pub open spec fn call_of(v: Value) -> Option<ToolCallModel> {
    match get_spec(v, key_function()) {
        None => None,
        Some(f) => match (str_of(get_spec(f, key_name())), get_spec(f, key_parameters())) {
            (Some(n), Some(p)) => Some(
                ToolCallModel { id: str_of(get_spec(v, key_id())), name: n, parameters: json_form(p) },
            ),
            _ => None,
        },
    }
}

/// The tool calls that a sequence of values describes, when each does.
pub open spec fn calls_of(items: Seq<Value>) -> Option<Seq<ToolCallModel>>
    decreases items.len(),
{
    if items.len() == 0 {
        Some(Seq::empty())
    } else {
        match (calls_of(items.drop_last()), call_of(items.last())) {
            (Some(prev), Some(c)) => Some(prev.push(c)),
            _ => None,
        }
    }
}

/// The message that a value stands for: a string is a user message; an
/// object needs a string `content` and may give a `role` (else `user`), an
/// `id`, a `thinking`, a boolean `streaming`, a string `tool_name` and an
/// array of `tool_calls`.
pub open spec fn message_of(v: Value) -> Option<MessageModel> {
    match v {
        Value::Str(s) => Some(plain_message(role_user(), s)),
        Value::Object(o) => {
            let tool_name: Option<Option<Seq<char>>> = match lookup(o, key_tool_name()) {
                None => Some(None),
                Some(Value::Str(t)) => Some(Some(t)),
                Some(_) => None,
            };
            let tool_calls: Option<Option<Seq<ToolCallModel>>> = match lookup(o, key_tool_calls()) {
                None => Some(None),
                Some(Value::Array(items)) => match calls_of(items) {
                    Some(c) => Some(Some(c)),
                    None => None,
                },
                Some(_) => None,
            };
            match (str_of(lookup(o, key_content())), tool_name, tool_calls) {
                (Some(content), Some(tn), Some(tc)) => Some(MessageModel {
                    id: str_of(lookup(o, key_id())),
                    role: match str_of(lookup(o, key_role())) {
                        Some(r) => r,
                        None => role_user(),
                    },
                    content,
                    thinking: str_of(lookup(o, key_thinking())),
                    streaming: match lookup(o, key_streaming()) {
                        Some(Value::Boolean(b)) => b,
                        _ => false,
                    },
                    tool_calls: tc,
                    tool_name: tn,
                }),
                _ => None,
            }
        },
        _ => None,
    }
}

fn lit_key_role() -> (r: &'static str)
    ensures
        r@ == key_role(),
{
    proof {
        reveal_strlit("role");
    }
    let r = "role";
    assert(r@ =~= key_role());
    r
}

fn lit_key_content() -> (r: &'static str)
    ensures
        r@ == key_content(),
{
    proof {
        reveal_strlit("content");
    }
    let r = "content";
    assert(r@ =~= key_content());
    r
}

fn lit_key_id() -> (r: &'static str)
    ensures
        r@ == key_id(),
{
    proof {
        reveal_strlit("id");
    }
    let r = "id";
    assert(r@ =~= key_id());
    r
}

fn lit_key_thinking() -> (r: &'static str)
    ensures
        r@ == key_thinking(),
{
    proof {
        reveal_strlit("thinking");
    }
    let r = "thinking";
    assert(r@ =~= key_thinking());
    r
}

fn lit_key_streaming() -> (r: &'static str)
    ensures
        r@ == key_streaming(),
{
    proof {
        reveal_strlit("streaming");
    }
    let r = "streaming";
    assert(r@ =~= key_streaming());
    r
}

fn lit_key_tool_name() -> (r: &'static str)
    ensures
        r@ == key_tool_name(),
{
    proof {
        reveal_strlit("tool_name");
    }
    let r = "tool_name";
    assert(r@ =~= key_tool_name());
    r
}

fn lit_key_tool_calls() -> (r: &'static str)
    ensures
        r@ == key_tool_calls(),
{
    proof {
        reveal_strlit("tool_calls");
    }
    let r = "tool_calls";
    assert(r@ =~= key_tool_calls());
    r
}

fn lit_key_function() -> (r: &'static str)
    ensures
        r@ == key_function(),
{
    proof {
        reveal_strlit("function");
    }
    let r = "function";
    assert(r@ =~= key_function());
    r
}

fn lit_key_name() -> (r: &'static str)
    ensures
        r@ == key_name(),
{
    proof {
        reveal_strlit("name");
    }
    let r = "name";
    assert(r@ =~= key_name());
    r
}

fn lit_key_parameters() -> (r: &'static str)
    ensures
        r@ == key_parameters(),
{
    proof {
        reveal_strlit("parameters");
    }
    let r = "parameters";
    assert(r@ =~= key_parameters());
    r
}

fn lit_role_user() -> (r: &'static str)
    ensures
        r@ == role_user(),
{
    proof {
        reveal_strlit("user");
    }
    let r = "user";
    assert(r@ =~= role_user());
    r
}

fn opt_copy(o: &Option<String>) -> (r: Option<String>)
    ensures
        opt_str(r) == opt_str(*o),
{
    match o {
        Some(s) => Some(s.clone()),
        None => None,
    }
}

fn str_at(v: &AgentValue, key: &str) -> (r: Option<String>)
    ensures
        opt_str(r) == str_of(get_spec(v@, key@)),
{
    match v.get_str(key) {
        Some(s) => Some(owned(s)),
        None => None,
    }
}

impl Message {
    /// A message with the given role and content and nothing else.
    pub fn new(role: String, content: String) -> (r: Self)
        ensures
            r@ == plain_message(role@, content@),
    {
        Message { id: None, role, content, thinking: None, streaming: false, tool_calls: None, tool_name: None }
    }

    pub fn assistant(content: String) -> (r: Self)
        ensures
            r@ == plain_message(seq!['a', 's', 's', 'i', 's', 't', 'a', 'n', 't'], content@),
    {
        proof {
            reveal_strlit("assistant");
        }
        assert("assistant"@ =~= seq!['a', 's', 's', 'i', 's', 't', 'a', 'n', 't']);
        Message::new(owned("assistant"), content)
    }

    pub fn system(content: String) -> (r: Self)
        ensures
            r@ == plain_message(seq!['s', 'y', 's', 't', 'e', 'm'], content@),
    {
        proof {
            reveal_strlit("system");
        }
        assert("system"@ =~= seq!['s', 'y', 's', 't', 'e', 'm']);
        Message::new(owned("system"), content)
    }

    pub fn user(content: String) -> (r: Self)
        ensures
            r@ == plain_message(role_user(), content@),
    {
        Message::new(owned(lit_role_user()), content)
    }

    /// The answer of tool `tool_name`.
    pub fn tool(tool_name: String, content: String) -> (r: Self)
        ensures
            r@ == (MessageModel { tool_name: Some(tool_name@), ..plain_message(seq!['t', 'o', 'o', 'l'], content@) }),
    {
        proof {
            reveal_strlit("tool");
        }
        assert("tool"@ =~= seq!['t', 'o', 'o', 'l']);
        let mut m = Message::new(owned("tool"), content);
        m.tool_name = Some(tool_name);
        m
    }

    fn call_from_value(v: &AgentValue) -> (r: Result<ToolCall, AgentError>)
        ensures
            r is Ok <==> call_of(v@) is Some,
            r is Ok ==> call_of(v@) == Some(call_model(r->Ok_0)),
            r is Err ==> r->Err_0 is InvalidValue,
    {
        let id = str_at(v, lit_key_id());
        let function = match v.get(lit_key_function()) {
            Some(f) => f,
            None => {
                return Err(AgentError::InvalidValue(owned("Tool call missing 'function' field")));
            },
        };
        let name = match str_at(function, lit_key_name()) {
            Some(n) => n,
            None => {
                return Err(AgentError::InvalidValue(owned("Tool call function missing 'name' field")));
            },
        };
        let parameters = match function.get(lit_key_parameters()) {
            Some(p) => p.to_json(),
            None => {
                return Err(AgentError::InvalidValue(owned("Tool call function missing 'parameters' field")));
            },
        };
        Ok(ToolCall { function: ToolCallFunction { name, parameters, id } })
    }

    /// The message a value stands for: see `message_of`. Anything else
    /// fails with `InvalidValue`.
    pub fn try_from_value(value: &AgentValue) -> (r: Result<Message, AgentError>)
        ensures
            r is Ok <==> message_of(value@) is Some,
            r is Ok ==> message_of(value@) == Some(r->Ok_0@),
            r is Err ==> r->Err_0 is InvalidValue,
    {
        match value {
            AgentValue::String(s) => Ok(Message::user(s.clone())),
            AgentValue::Object(_) => {
                let ghost o = value@->Object_0;
                let content = match str_at(value, lit_key_content()) {
                    Some(c) => c,
                    None => {
                        return Err(AgentError::InvalidValue(owned("Message object missing 'content' field")));
                    },
                };
                let role = match str_at(value, lit_key_role()) {
                    Some(r) => r,
                    None => owned(lit_role_user()),
                };
                let mut message = Message::new(role, content);
                message.id = str_at(value, lit_key_id());
                message.thinking = str_at(value, lit_key_thinking());
                message.streaming = match value.get(lit_key_streaming()) {
                    Some(AgentValue::Boolean(b)) => *b,
                    _ => false,
                };
                match value.get(lit_key_tool_name()) {
                    Some(t) => match t.as_str() {
                        Some(t) => {
                            message.tool_name = Some(owned(t));
                        },
                        None => {
                            return Err(AgentError::InvalidValue(owned("'tool_name' field must be a string")));
                        },
                    },
                    None => {},
                }
                match value.get(lit_key_tool_calls()) {
                    Some(calls) => match calls.as_array() {
                        Some(items) => {
                            let ghost m = AgentValue::Array(*items)@->Array_0;
                            assert(lookup(value@->Object_0, key_tool_calls()) == Some(Value::Array(m)));
                            let mut out: Vec<ToolCall> = Vec::new();
                            let mut i: usize = 0;
                            assert(m.subrange(0, 0) =~= Seq::<Value>::empty());
                            assert(calls_model(out) =~= Seq::<ToolCallModel>::empty());
                            while i < items.len()
                                invariant
                                    i <= items.len(),
                                    m == AgentValue::Array(*items)@->Array_0,
                                    value@ is Object,
                                    lookup(value@->Object_0, key_tool_calls()) == Some(Value::Array(m)),
                                    calls_of(m.subrange(0, i as int)) == Some(calls_model(out)),
                                decreases items.len() - i,
                            {
                                let ghost sub = m.subrange(0, i as int + 1);
                                assert(sub.drop_last() =~= m.subrange(0, i as int));
                                assert(sub.last() == items[i as int]@);
                                match Message::call_from_value(&items[i]) {
                                    Ok(c) => {
                                        let ghost before = calls_model(out);
                                        let ghost cm = call_model(c);
                                        out.push(c);
                                        assert(calls_model(out) =~= before.push(cm));
                                    },
                                    Err(e) => {
                                        proof {
                                            assert(calls_of(sub) is None);
                                            lemma_calls_fail(m, i as int + 1);
                                            assert(m.subrange(0, m.len() as int) =~= m);
                                        }
                                        return Err(e);
                                    },
                                }
                                i = i + 1;
                            }
                            assert(m.subrange(0, m.len() as int) =~= m);
                            message.tool_calls = Some(out);
                        },
                        None => {
                            return Err(AgentError::InvalidValue(owned("'tool_calls' field must be an array")));
                        },
                    },
                    None => {},
                }
                Ok(message)
            },
            _ => Err(AgentError::InvalidValue(owned("Cannot convert AgentValue to Message"))),
        }
    }
}

proof fn lemma_calls_fail(m: Seq<Value>, i: int)
    requires
        0 < i <= m.len(),
        calls_of(m.subrange(0, i)) is None,
    ensures
        calls_of(m) is None,
    decreases m.len() - i,
{
    if i < m.len() {
        let pre = m.subrange(0, i + 1);
        assert(pre.drop_last() =~= m.subrange(0, i));
        lemma_calls_fail(m, i + 1);
    } else {
        assert(m.subrange(0, i) =~= m);
    }
}

/// The value that describes a tool call.
pub open spec fn call_value(c: ToolCallModel) -> Value {
    let f = Value::Object(seq![(key_name(), Value::Str(c.name)), (key_parameters(), value_form(c.parameters))]);
    match c.id {
        Some(x) => Value::Object(seq![(key_id(), Value::Str(x)), (key_function(), f)]),
        None => Value::Object(seq![(key_function(), f)]),
    }
}

pub open spec fn put_opt(o: Seq<(Seq<char>, Value)>, k: Seq<char>, v: Option<Seq<char>>) -> Seq<(Seq<char>, Value)> {
    match v {
        Some(x) => put(o, k, Value::Str(x)),
        None => o,
    }
}

/// The entries of the object that describes a message: `role`, `content`,
/// then the fields that are set.
pub open spec fn message_entries(m: MessageModel) -> Seq<(Seq<char>, Value)> {
    let e0 = put(put(Seq::empty(), key_role(), Value::Str(m.role)), key_content(), Value::Str(m.content));
    let e1 = put_opt(e0, key_id(), m.id);
    let e2 = put_opt(e1, key_thinking(), m.thinking);
    let e3 = if m.streaming { put(e2, key_streaming(), Value::Boolean(true)) } else { e2 };
    let e4 = put_opt(e3, key_tool_name(), m.tool_name);
    match m.tool_calls {
        Some(cs) => put(e4, key_tool_calls(), Value::Array(Seq::new(cs.len(), |i: int| call_value(cs[i])))),
        None => e4,
    }
}

/// Every tool call's parameters can be read as a value.
pub open spec fn params_decodable(m: MessageModel) -> bool {
    match m.tool_calls {
        Some(cs) => forall|i: int| 0 <= i < cs.len() ==> decodable(#[trigger] cs[i].parameters),
        None => true,
    }
}

pub proof fn lemma_lookup_put(o: Seq<(Seq<char>, Value)>, k: Seq<char>, v: Value, x: Seq<char>)
    ensures
        lookup(put(o, k, v), x) == if x == k { Some(v) } else { lookup(o, x) },
    decreases o.len(),
{
    if o.len() == 0 {
        let p = put(o, k, v);
        assert(p.drop_first() =~= Seq::<(Seq<char>, Value)>::empty());
        assert(lookup(p.drop_first(), x) is None);
    } else {
        if o[0].0 != k {
            let p = put(o, k, v);
            assert(p[0] == o[0]);
            assert(p.drop_first() =~= put(o.drop_first(), k, v));
            lemma_lookup_put(o.drop_first(), k, v, x);
        } else {
            let p = put(o, k, v);
            assert(p.drop_first() =~= o.drop_first());
        }
    }
}

proof fn lemma_call_round_trip(c: ToolCallModel)
    requires
        decodable(c.parameters),
    ensures
        call_of(call_value(c)) == Some(c),
{
    lemma_json_value_round_trip(c.parameters);
    let f = Value::Object(seq![(key_name(), Value::Str(c.name)), (key_parameters(), value_form(c.parameters))]);
    let fe = seq![(key_name(), Value::Str(c.name)), (key_parameters(), value_form(c.parameters))];
    assert(fe.drop_first() =~= seq![(key_parameters(), value_form(c.parameters))]);
    assert(fe.drop_first().drop_first() =~= Seq::<(Seq<char>, Value)>::empty());
    assert(key_name().len() != key_parameters().len());
    assert(lookup(fe, key_name()) == Some(Value::Str(c.name)));
    assert(lookup(fe.drop_first(), key_parameters()) == Some(value_form(c.parameters)));
    assert(lookup(fe, key_parameters()) == Some(value_form(c.parameters)));
    match c.id {
        Some(x) => {
            let e = seq![(key_id(), Value::Str(x)), (key_function(), f)];
            assert(e.drop_first() =~= seq![(key_function(), f)]);
            assert(e.drop_first().drop_first() =~= Seq::<(Seq<char>, Value)>::empty());
            assert(key_id().len() != key_function().len());
            assert(lookup(e.drop_first(), key_function()) == Some(f));
            assert(lookup(e, key_function()) == Some(f));
            assert(lookup(e, key_id()) == Some(Value::Str(x)));
        },
        None => {
            let e = seq![(key_function(), f)];
            assert(e.drop_first() =~= Seq::<(Seq<char>, Value)>::empty());
            assert(key_id().len() != key_function().len());
            assert(lookup(e, key_function()) == Some(f));
            assert(lookup(e.drop_first(), key_id()) is None);
            assert(lookup(e, key_id()) is None);
        },
    }
}

proof fn lemma_calls_round_trip(cs: Seq<ToolCallModel>)
    requires
        forall|i: int| 0 <= i < cs.len() ==> decodable(#[trigger] cs[i].parameters),
    ensures
        calls_of(Seq::new(cs.len(), |i: int| call_value(cs[i]))) == Some(cs),
    decreases cs.len(),
{
    let vs = Seq::new(cs.len(), |i: int| call_value(cs[i]));
    if cs.len() > 0 {
        let d = cs.drop_last();
        assert forall|i: int| 0 <= i < d.len() implies decodable(#[trigger] d[i].parameters) by {
            assert(d[i] == cs[i]);
        }
        lemma_calls_round_trip(d);
        assert(vs.drop_last() =~= Seq::new(d.len(), |i: int| call_value(d[i])));
        lemma_call_round_trip(cs.last());
        assert(vs.last() == call_value(cs.last()));
        assert(d.push(cs.last()) =~= cs);
    } else {
        assert(cs =~= Seq::<ToolCallModel>::empty());
    }
}

/// Reading back the value that describes a message gives the message, when
/// the parameters of its tool calls can be read as values.
pub proof fn law_message_round_trip(m: MessageModel)
    requires
        params_decodable(m),
    ensures
        message_of(Value::Object(message_entries(m))) == Some(m),
{
    broadcast use lemma_lookup_put_broadcast;
    let o = message_entries(m);
    assert(lookup(Seq::<(Seq<char>, Value)>::empty(), key_role()) is None);
    assert forall|k: Seq<char>| #[trigger] lookup(Seq::<(Seq<char>, Value)>::empty(), k) is None by {}
    if m.tool_calls is Some {
        lemma_calls_round_trip(m.tool_calls->0);
    }
    assert(key_role() != key_content());
    assert(str_of(lookup(o, key_content())) == Some(m.content));
    assert(str_of(lookup(o, key_role())) == Some(m.role));
    assert(str_of(lookup(o, key_id())) == m.id);
    assert(str_of(lookup(o, key_thinking())) == m.thinking);
}

pub broadcast proof fn lemma_lookup_put_broadcast(o: Seq<(Seq<char>, Value)>, k: Seq<char>, v: Value, x: Seq<char>)
    ensures
        #[trigger] lookup(put(o, k, v), x) == if x == k { Some(v) } else { lookup(o, x) },
{
    lemma_lookup_put(o, k, v, x);
}

proof fn lemma_put_two(k1: Seq<char>, v1: Value, k2: Seq<char>, v2: Value)
    requires
        k1 != k2,
    ensures
        put(put(Seq::empty(), k1, v1), k2, v2) == seq![(k1, v1), (k2, v2)],
{
    let a = put(Seq::<(Seq<char>, Value)>::empty(), k1, v1);
    assert(a == seq![(k1, v1)]);
    assert(a.drop_first() =~= Seq::<(Seq<char>, Value)>::empty());
    assert(put(a.drop_first(), k2, v2) == seq![(k2, v2)]);
    assert(seq![a[0]] + seq![(k2, v2)] =~= seq![(k1, v1), (k2, v2)]);
}

fn call_to_value(c: &ToolCall) -> (r: Result<AgentValue, AgentError>)
    ensures
        r is Ok <==> decodable(c.function.parameters@),
        r is Ok ==> r->Ok_0@ == call_value(call_model(*c)),
        r is Err ==> r->Err_0 is InvalidValue,
{
    let params = match AgentValue::from_json(c.function.parameters.deep_copy()) {
        Ok(p) => p,
        Err(e) => {
            return Err(e);
        },
    };
    let ghost pm = params@;
    let mut f = AgentValue::object_default();
    let _ = f.set(owned(lit_key_name()), AgentValue::String(c.function.name.clone()));
    let _ = f.set(owned(lit_key_parameters()), params);
    proof {
        assert(key_name().len() != key_parameters().len());
        lemma_put_two(key_name(), Value::Str(c.function.name@), key_parameters(), pm);
    }
    let ghost fm = f@;
    let mut call = AgentValue::object_default();
    match &c.function.id {
        Some(x) => {
            let _ = call.set(owned(lit_key_id()), AgentValue::String(x.clone()));
            let _ = call.set(owned(lit_key_function()), f);
            proof {
                assert(key_id().len() != key_function().len());
                lemma_put_two(key_id(), Value::Str(x@), key_function(), fm);
            }
        },
        None => {
            let _ = call.set(owned(lit_key_function()), f);
            assert(put(Seq::<(Seq<char>, Value)>::empty(), key_function(), fm) == seq![(key_function(), fm)]);
        },
    }
    Ok(call)
}

impl Message {
    /// The object that describes this message (see `message_entries`).
    /// Fails with `InvalidValue` when the parameters of a tool call hold a
    /// float that is not finite.
    pub fn to_value(&self) -> (r: Result<AgentValue, AgentError>)
        ensures
            r is Ok <==> params_decodable(self@),
            r is Ok ==> r->Ok_0@ == Value::Object(message_entries(self@)),
            r is Err ==> r->Err_0 is InvalidValue,
    {
        let mut v = AgentValue::object_default();
        let _ = v.set(owned(lit_key_role()), AgentValue::String(self.role.clone()));
        let _ = v.set(owned(lit_key_content()), AgentValue::String(self.content.clone()));
        if let Some(x) = &self.id {
            let _ = v.set(owned(lit_key_id()), AgentValue::String(x.clone()));
        }
        if let Some(x) = &self.thinking {
            let _ = v.set(owned(lit_key_thinking()), AgentValue::String(x.clone()));
        }
        if self.streaming {
            let _ = v.set(owned(lit_key_streaming()), AgentValue::Boolean(true));
        }
        if let Some(x) = &self.tool_name {
            let _ = v.set(owned(lit_key_tool_name()), AgentValue::String(x.clone()));
        }
        if let Some(calls) = &self.tool_calls {
            let ghost cs = calls_model(*calls);
            assert(self@.tool_calls == Some(cs));
            let mut items: Vec<AgentValue> = Vec::new();
            let mut i: usize = 0;
            while i < calls.len()
                invariant
                    i <= calls.len(),
                    cs == calls_model(*calls),
                    self@.tool_calls == Some(cs),
                    items.len() == i,
                    forall|k: int| 0 <= k < i ==> (#[trigger] items[k])@ == call_value(cs[k]),
                    forall|k: int| 0 <= k < i ==> decodable(#[trigger] cs[k].parameters),
                decreases calls.len() - i,
            {
                match call_to_value(&calls[i]) {
                    Ok(item) => items.push(item),
                    Err(e) => {
                        assert(!decodable(cs[i as int].parameters));
                        return Err(e);
                    },
                }
                i = i + 1;
            }
            let arr = AgentValue::Array(items);
            assert(arr@->Array_0 =~= Seq::new(cs.len(), |i: int| call_value(cs[i])));
            let _ = v.set(owned(lit_key_tool_calls()), arr);
        }
        Ok(v)
    }
}

} // verus!
