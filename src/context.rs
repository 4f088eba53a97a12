use vstd::prelude::*;

use crate::error::AgentError;
use crate::id::IdGen;
use crate::text::{decimal, owned, str_eq, to_decimal};
use crate::value::{as_i64_spec, get_spec, put, lookup, AgentValue, Value};

verus! {

/// A named entry of a context's frame stack.
#[derive(Debug)]
pub struct Frame {
    pub name: String,
    pub data: AgentValue,
}

/// Event-scoped context: the identity of one externally triggered event, a
/// bag of variables and a stack of frames that records fan-out lineage.
/// Every derivation returns a new context and leaves this one unchanged.
#[derive(Debug)]
pub struct AgentContext {
    id: usize,
    vars: Option<Vec<(String, AgentValue)>>,
    frames: Option<Vec<Frame>>,
}

/// The mathematical form of a context.
pub struct ContextModel {
    pub id: usize,
    pub vars: Option<Seq<(Seq<char>, Value)>>,
    pub frames: Option<Seq<(Seq<char>, Value)>>,
}

pub open spec fn entries_model(v: Vec<(String, AgentValue)>) -> Seq<(Seq<char>, Value)> {
    Seq::new(v@.len(), |i: int| (v[i].0@, v[i].1@))
}

pub open spec fn frames_model(v: Vec<Frame>) -> Seq<(Seq<char>, Value)> {
    Seq::new(v@.len(), |i: int| (v[i].name@, v[i].data@))
}

impl View for AgentContext {
    type V = ContextModel;

    closed spec fn view(&self) -> ContextModel {
        ContextModel {
            id: self.id,
            vars: match self.vars {
                Some(v) => Some(entries_model(v)),
                None => None,
            },
            frames: match self.frames {
                Some(f) => Some(frames_model(f)),
                None => None,
            },
        }
    }
}

/// The frame stack as a sequence; an absent stack is empty.
pub open spec fn stack_of(c: ContextModel) -> Seq<(Seq<char>, Value)> {
    match c.frames {
        Some(f) => f,
        None => Seq::empty(),
    }
}

/// The stack that a context keeps for `s`: none when `s` is empty.
pub open spec fn stack_opt(s: Seq<(Seq<char>, Value)>) -> Option<Seq<(Seq<char>, Value)>> {
    if s.len() == 0 { None } else { Some(s) }
}

pub open spec fn map_name() -> Seq<char> {
    seq!['m', 'a', 'p']
}

pub open spec fn index_key() -> Seq<char> {
    seq!['i', 'n', 'd', 'e', 'x']
}

pub open spec fn length_key() -> Seq<char> {
    seq!['l', 'e', 'n', 'g', 't', 'h']
}

/// The `(index, length)` that the data of a map frame holds, when it holds
/// integers with `0 <= index < length`.
pub open spec fn map_frame_of(data: Value) -> Option<(usize, usize)> {
    match (
        match get_spec(data, index_key()) { Some(v) => as_i64_spec(v), None => None },
        match get_spec(data, length_key()) { Some(v) => as_i64_spec(v), None => None },
    ) {
        (Some(i), Some(n)) => if 0 <= i < n { Some((i as usize, n as usize)) } else { None },
        _ => None,
    }
}

/// The `(index, length)` of every map frame of a stack, bottom first; none
/// when a map frame does not hold a valid pair.
pub open spec fn map_indices(fs: Seq<(Seq<char>, Value)>) -> Option<Seq<(usize, usize)>>
    decreases fs.len(),
{
    if fs.len() == 0 {
        Some(Seq::empty())
    } else {
        match map_indices(fs.drop_last()) {
            None => None,
            Some(prev) => if fs.last().0 == map_name() {
                match map_frame_of(fs.last().1) {
                    Some(p) => Some(prev.push(p)),
                    None => None,
                }
            } else {
                Some(prev)
            },
        }
    }
}

/// `i:n` for one map frame.
pub open spec fn pair_key(p: (usize, usize)) -> Seq<char> {
    decimal(p.0 as nat) + seq![':'] + decimal(p.1 as nat)
}

/// The pairs joined with commas.
pub open spec fn joined_pairs(s: Seq<(usize, usize)>) -> Seq<char>
    decreases s.len(),
{
    if s.len() == 0 {
        Seq::empty()
    } else if s.len() == 1 {
        pair_key(s[0])
    } else {
        joined_pairs(s.drop_last()) + seq![','] + pair_key(s.last())
    }
}

/// The key of a context with the given id and map frames.
pub open spec fn key_of(id: usize, pairs: Seq<(usize, usize)>) -> Seq<char> {
    if pairs.len() == 0 {
        decimal(id as nat)
    } else {
        decimal(id as nat) + seq![':'] + joined_pairs(pairs)
    }
}

/// Hands out the next context id.
pub fn new_id(ids: &mut IdGen) -> (r: usize)
    requires
        old(ids).wf(),
        old(ids).next < usize::MAX,
    ensures
        r == old(ids).next,
        final(ids).next == old(ids).next + 1,
        final(ids).wf(),
{
    ids.fresh()
}

fn copy_entries(v: &Vec<(String, AgentValue)>) -> (r: Vec<(String, AgentValue)>)
    ensures
        entries_model(r) == entries_model(*v),
{
    let mut out: Vec<(String, AgentValue)> = Vec::new();
    let mut i: usize = 0;
    while i < v.len()
        invariant
            i <= v.len(),
            out.len() == i,
            forall|k: int| 0 <= k < i ==> (#[trigger] out[k]).0@ == v[k].0@ && out[k].1@ == v[k].1@,
        decreases v.len() - i,
    {
        out.push((v[i].0.clone(), v[i].1.deep_copy()));
        i = i + 1;
    }
    assert(entries_model(out) =~= entries_model(*v));
    out
}

fn copy_frames(v: &Vec<Frame>, n: usize) -> (r: Vec<Frame>)
    requires
        n <= v.len(),
    ensures
        frames_model(r) == frames_model(*v).subrange(0, n as int),
{
    let mut out: Vec<Frame> = Vec::new();
    let mut i: usize = 0;
    while i < n
        invariant
            n <= v.len(),
            i <= n,
            out.len() == i,
            forall|k: int|
                0 <= k < i ==> (#[trigger] out[k]).name@ == v[k].name@ && out[k].data@ == v[k].data@,
        decreases n - i,
    {
        out.push(Frame { name: v[i].name.clone(), data: v[i].data.deep_copy() });
        i = i + 1;
    }
    assert(frames_model(out) =~= frames_model(*v).subrange(0, n as int));
    out
}

impl Frame {
    pub fn copy(&self) -> (r: Frame)
        ensures
            r.name@ == self.name@,
            r.data@ == self.data@,
    {
        Frame { name: self.name.clone(), data: self.data.deep_copy() }
    }
}

fn map_str() -> (r: &'static str)
    ensures
        r@ == map_name(),
{
    proof {
        reveal_strlit("map");
    }
    let r = "map";
    assert(r@ =~= map_name());
    r
}

fn index_str() -> (r: &'static str)
    ensures
        r@ == index_key(),
{
    proof {
        reveal_strlit("index");
    }
    let r = "index";
    assert(r@ =~= index_key());
    r
}

fn length_str() -> (r: &'static str)
    ensures
        r@ == length_key(),
{
    proof {
        reveal_strlit("length");
    }
    let r = "length";
    assert(r@ =~= length_key());
    r
}

/// A context with `v` stored under `k`.
pub open spec fn with_var_model(c: ContextModel, k: Seq<char>, v: Value) -> ContextModel {
    ContextModel { id: c.id, vars: Some(put(vars_of(c), k, v)), frames: c.frames }
}

/// A context with the frame `(n, d)` pushed.
pub open spec fn push_frame_model(c: ContextModel, n: Seq<char>, d: Value) -> ContextModel {
    ContextModel { id: c.id, vars: c.vars, frames: Some(stack_of(c).push((n, d))) }
}

/// Deriving contexts keeps the id, however the derivations are chained.
pub proof fn law_derivations_keep_id(c: ContextModel, k: Seq<char>, v: Value, n: Seq<char>, d: Value)
    ensures
        with_var_model(c, k, v).id == c.id,
        push_frame_model(c, n, d).id == c.id,
        push_frame_model(with_var_model(c, k, v), n, d).id == c.id,
        with_var_model(push_frame_model(c, n, d), k, v).id == c.id,
        with_var_model(c, k, v).frames == c.frames,
        push_frame_model(c, n, d).vars == c.vars,
{
}

/// The variables of a context, as entries.
pub open spec fn vars_of(c: ContextModel) -> Seq<(Seq<char>, Value)> {
    match c.vars {
        Some(v) => v,
        None => Seq::empty(),
    }
}

/// The data of a map frame.
pub open spec fn map_data(index: usize, len: usize) -> Value {
    Value::Object(seq![(index_key(), Value::Integer(index as i64)), (length_key(), Value::Integer(len as i64))])
}

/// Builds the data of a map frame.
pub fn map_frame_data(index: usize, len: usize) -> (r: AgentValue)
    ensures
        r@ == map_data(index, len),
{
    let mut data = AgentValue::object_default();
    let _ = data.set(owned(index_str()), AgentValue::integer(index as i64));
    let _ = data.set(owned(length_str()), AgentValue::integer(len as i64));
    proof {
        let e0 = seq![(index_key(), Value::Integer(index as i64))];
        assert(put(Seq::empty(), index_key(), Value::Integer(index as i64)) == e0);
        assert(e0[0].0 != length_key());
        assert(put(e0.drop_first(), length_key(), Value::Integer(len as i64)) == seq![(length_key(), Value::Integer(len as i64))]);
        assert(put(e0, length_key(), Value::Integer(len as i64)) =~= map_data(index, len)->Object_0);
    }
    data
}

/// Reads the `(index, length)` that a map frame holds.
pub fn read_map_frame(frame: &Frame) -> (r: Result<(usize, usize), AgentError>)
    ensures
        r is Ok <==> map_frame_of(frame.data@) is Some,
        r is Ok ==> Some(r->Ok_0) == map_frame_of(frame.data@),
        r is Err ==> r->Err_0 is InvalidValue,
{
    let idx = match frame.data.get_i64(index_str()) {
        Some(i) => i,
        None => {
            return Err(AgentError::InvalidValue(owned("map frame missing integer index")));
        },
    };
    let len = match frame.data.get_i64(length_str()) {
        Some(n) => n,
        None => {
            return Err(AgentError::InvalidValue(owned("map frame missing integer length")));
        },
    };
    if idx < 0 || len < 1 {
        return Err(AgentError::InvalidValue(owned("Invalid map frame values")));
    }
    if idx >= len {
        return Err(AgentError::InvalidValue(owned("map frame index is out of bounds")));
    }
    Ok((idx as usize, len as usize))
}

impl AgentContext {
    /// A context with a fresh id, no variables and no frames.
    pub fn new(ids: &mut IdGen) -> (r: Self)
        requires
            old(ids).wf(),
            old(ids).next < usize::MAX,
        ensures
            r@ == (ContextModel { id: old(ids).next, vars: None, frames: None }),
            final(ids).next == old(ids).next + 1,
            final(ids).wf(),
    {
        AgentContext { id: new_id(ids), vars: None, frames: None }
    }

    pub fn id(&self) -> (r: usize)
        ensures
            r == self@.id,
    {
        self.id
    }

    /// The first variable stored under `key`.
    pub fn get_var(&self, key: &str) -> (r: Option<&AgentValue>)
        ensures
            r is Some <==> lookup(vars_of(self@), key@) is Some,
            r is Some ==> lookup(vars_of(self@), key@) == Some(r->0@),
    {
        match &self.vars {
            Some(v) => {
                let ghost m = entries_model(*v);
                assert(m.subrange(0, m.len() as int) =~= m);
                let mut i: usize = 0;
                while i < v.len()
                    invariant
                        m == entries_model(*v),
                        m == vars_of(self@),
                        i <= v.len(),
                        lookup(m, key@) == lookup(m.subrange(i as int, m.len() as int), key@),
                    decreases v.len() - i,
                {
                    let ghost rest = m.subrange(i as int, m.len() as int);
                    assert(rest[0] == m[i as int]);
                    if str_eq(v[i].0.as_str(), key) {
                        return Some(&v[i].1);
                    }
                    assert(rest.drop_first() =~= m.subrange(i + 1, m.len() as int));
                    i = i + 1;
                }
                None
            },
            None => None,
        }
    }

    /// This context with `value` stored under `key`.
    pub fn with_var(&self, key: String, value: AgentValue) -> (r: Self)
        ensures
            r@ == with_var_model(self@, key@, value@),
    {
        let entries = match &self.vars {
            Some(v) => copy_entries(v),
            None => Vec::new(),
        };
        assert(entries_model(entries) =~= vars_of(self@));
        let mut obj = AgentValue::Object(entries);
        assert(obj@->Object_0 =~= entries_model(entries));
        let _ = obj.set(key, value);
        let vars = match obj {
            AgentValue::Object(o) => o,
            _ => Vec::new(),
        };
        assert(entries_model(vars) =~= AgentValue::Object(vars)@->Object_0);
        let frames = match &self.frames {
            Some(f) => Some(copy_frames(f, f.len())),
            None => None,
        };
        proof {
            if self.frames is Some {
                assert(frames_model(self.frames->0).subrange(0, self.frames->0.len() as int) =~= frames_model(self.frames->0));
            }
        }
        AgentContext { id: self.id, vars: Some(vars), frames }
    }

    /// The frame stack, bottom first, or none when no frame was pushed.
    pub fn frames(&self) -> (r: Option<&Vec<Frame>>)
        ensures
            r is Some <==> self@.frames is Some,
            r is Some ==> self@.frames == Some(frames_model(*r->0)),
    {
        match &self.frames {
            Some(f) => Some(f),
            None => None,
        }
    }

    fn copy_vars(&self) -> (r: Option<Vec<(String, AgentValue)>>)
        ensures
            r is Some <==> self@.vars is Some,
            r is Some ==> self@.vars == Some(entries_model(r->0)),
    {
        match &self.vars {
            Some(v) => Some(copy_entries(v)),
            None => None,
        }
    }

    /// This context with a frame pushed on top of its stack.
    pub fn push_frame(&self, name: String, data: AgentValue) -> (r: Self)
        ensures
            r@ == push_frame_model(self@, name@, data@),
    {
        let mut frames = match &self.frames {
            Some(f) => copy_frames(f, f.len()),
            None => Vec::new(),
        };
        proof {
            if self.frames is Some {
                assert(frames_model(self.frames->0).subrange(0, self.frames->0.len() as int) =~= frames_model(self.frames->0));
            }
        }
        assert(frames_model(frames) =~= stack_of(self@));
        frames.push(Frame { name, data });
        let r = AgentContext { id: self.id, vars: self.copy_vars(), frames: Some(frames) };
        assert(frames_model(frames) =~= stack_of(self@).push((name@, data@)));
        r
    }

    /// Removes the top frame. On an empty stack nothing is removed and the
    /// context stays as it is.
    pub fn pop_frame(&self) -> (r: (Option<Frame>, Self))
        ensures
            stack_of(self@).len() == 0 ==> r.0 is None && r.1@ == self@,
            stack_of(self@).len() > 0 ==> r.0 is Some && (r.0->0.name@, r.0->0.data@) == stack_of(
                self@,
            ).last() && r.1@ == (ContextModel {
                id: self@.id,
                vars: self@.vars,
                frames: stack_opt(stack_of(self@).drop_last()),
            }),
    {
        match &self.frames {
            Some(f) => {
                if f.len() == 0 {
                    assert(stack_of(self@).len() == 0);
                    return (None, self.copy());
                }
                let n = f.len() - 1;
                let top = f[n].copy();
                let rest = copy_frames(f, n);
                assert(frames_model(rest) =~= stack_of(self@).drop_last());
                let frames = if n == 0 { None } else { Some(rest) };
                (Some(top), AgentContext { id: self.id, vars: self.copy_vars(), frames })
            },
            None => (None, self.copy()),
        }
    }

    /// A copy of this context.
    pub fn copy(&self) -> (r: Self)
        ensures
            r@ == self@,
    {
        let frames = match &self.frames {
            Some(f) => Some(copy_frames(f, f.len())),
            None => None,
        };
        proof {
            if self.frames is Some {
                assert(frames_model(self.frames->0).subrange(0, self.frames->0.len() as int) =~= frames_model(self.frames->0));
            }
        }
        AgentContext { id: self.id, vars: self.copy_vars(), frames }
    }
}

fn pair_string(p: (usize, usize)) -> (r: String)
    ensures
        r@ == pair_key(p),
{
    let mut s = to_decimal(p.0);
    proof {
        reveal_strlit(":");
    }
    s.append(":");
    let t = to_decimal(p.1);
    s.append(t.as_str());
    assert(s@ =~= pair_key(p));
    s
}

impl AgentContext {
    /// This context with a map frame `{index, length}` pushed. Fails with
    /// `InvalidValue` when `len == 0` or `index >= len`, and when the length
    /// does not fit the `i64` it is stored as.
    pub fn push_map_frame(&self, index: usize, len: usize) -> (r: Result<Self, AgentError>)
        ensures
            r is Err <==> (len == 0 || index >= len || len > i64::MAX),
            r is Err ==> r->Err_0 is InvalidValue,
            r is Ok ==> r->Ok_0@ == (ContextModel {
                id: self@.id,
                vars: self@.vars,
                frames: Some(stack_of(self@).push((map_name(), map_data(index, len)))),
            }),
    {
        if len == 0 {
            return Err(AgentError::InvalidValue(owned("map frame length must be positive")));
        }
        if index >= len {
            return Err(AgentError::InvalidValue(owned("map frame index is out of bounds")));
        }
        if len as u128 > i64::MAX as u128 {
            return Err(AgentError::InvalidValue(owned("map frame length is too large")));
        }
        Ok(self.push_frame(owned(map_str()), map_frame_data(index, len)))
    }

    /// The `(index, length)` of the top frame when it is a map frame.
    pub fn current_map_frame(&self) -> (r: Result<Option<(usize, usize)>, AgentError>)
        ensures
            ({
                let s = stack_of(self@);
                if s.len() == 0 || s.last().0 != map_name() {
                    r == Ok::<Option<(usize, usize)>, AgentError>(None)
                } else {
                    &&& r is Ok <==> map_frame_of(s.last().1) is Some
                    &&& r is Ok ==> r->Ok_0 == map_frame_of(s.last().1)
                    &&& r is Err ==> r->Err_0 is InvalidValue
                }
            }),
    {
        let f = match &self.frames {
            Some(f) => f,
            None => {
                return Ok(None);
            },
        };
        if f.len() == 0 {
            return Ok(None);
        }
        let top = &f[f.len() - 1];
        assert((top.name@, top.data@) == stack_of(self@).last());
        if !str_eq(top.name.as_str(), map_str()) {
            return Ok(None);
        }
        match read_map_frame(top) {
            Ok(p) => Ok(Some(p)),
            Err(e) => Err(e),
        }
    }

    /// This context with its top frame removed, which must be a map frame.
    /// Fails with `InvalidValue` when the stack is empty or its top frame is
    /// not a map frame.
    pub fn pop_map_frame(&self) -> (r: Result<AgentContext, AgentError>)
        ensures
            r is Ok <==> (stack_of(self@).len() > 0 && stack_of(self@).last().0 == map_name()),
            r is Err ==> r->Err_0 is InvalidValue,
            r is Ok ==> r->Ok_0@ == (ContextModel {
                id: self@.id,
                vars: self@.vars,
                frames: stack_opt(stack_of(self@).drop_last()),
            }),
    {
        let (frame, next) = self.pop_frame();
        match frame {
            Some(f) => {
                if str_eq(f.name.as_str(), map_str()) {
                    Ok(next)
                } else {
                    Err(AgentError::InvalidValue(owned("Unexpected frame, expected map")))
                }
            },
            None => Err(AgentError::InvalidValue(owned("Missing map frame in context"))),
        }
    }

    /// The `(index, length)` of every map frame, bottom first. Fails with
    /// `InvalidValue` when a map frame does not hold a valid pair.
    pub fn map_frame_indices(&self) -> (r: Result<Vec<(usize, usize)>, AgentError>)
        ensures
            r is Ok <==> map_indices(stack_of(self@)) is Some,
            r is Ok ==> r->Ok_0@ == map_indices(stack_of(self@))->0,
            r is Err ==> r->Err_0 is InvalidValue,
    {
        let mut indices: Vec<(usize, usize)> = Vec::new();
        let f = match &self.frames {
            Some(f) => f,
            None => {
                assert(indices@ =~= Seq::empty());
                return Ok(indices);
            },
        };
        let ghost s = frames_model(*f);
        assert(s == stack_of(self@));
        assert(s.subrange(0, 0) =~= Seq::<(Seq<char>, Value)>::empty());
        let mut i: usize = 0;
        while i < f.len()
            invariant
                s == frames_model(*f),
                s == stack_of(self@),
                i <= f.len(),
                map_indices(s.subrange(0, i as int)) == Some(indices@),
            decreases f.len() - i,
        {
            let ghost pre = s.subrange(0, i as int + 1);
            assert(pre.drop_last() =~= s.subrange(0, i as int));
            assert(pre.last() == (f[i as int].name@, f[i as int].data@));
            if str_eq(f[i].name.as_str(), map_str()) {
                match read_map_frame(&f[i]) {
                    Ok(p) => indices.push(p),
                    Err(e) => {
                        proof {
                            assert(map_indices(pre) is None);
                            lemma_map_indices_fail(s, i as int + 1);
                            assert(s.subrange(0, s.len() as int) =~= s);
                        }
                        return Err(e);
                    },
                }
            }
            i = i + 1;
        }
        assert(s.subrange(0, s.len() as int) =~= s);
        Ok(indices)
    }

    /// A key for this context: its id, then `:i1:n1,i2:n2,...` over its map
    /// frames when there are any.
    pub fn ctx_key(&self) -> (r: Result<String, AgentError>)
        ensures
            r is Ok <==> map_indices(stack_of(self@)) is Some,
            r is Ok ==> r->Ok_0@ == key_of(self@.id, map_indices(stack_of(self@))->0),
            r is Err ==> r->Err_0 is InvalidValue,
    {
        let pairs = match self.map_frame_indices() {
            Ok(p) => p,
            Err(e) => {
                return Err(e);
            },
        };
        let mut key = to_decimal(self.id);
        if pairs.len() == 0 {
            return Ok(key);
        }
        proof {
            reveal_strlit(":");
            reveal_strlit(",");
        }
        key.append(":");
        let mut i: usize = 0;
        let ghost head = decimal(self.id as nat) + seq![':'];
        while i < pairs.len()
            invariant
                i <= pairs.len(),
                pairs.len() > 0,
                i == 0 ==> key@ == head,
                i > 0 ==> key@ == head + joined_pairs(pairs@.subrange(0, i as int)),
            decreases pairs.len() - i,
        {
            let ghost sub = pairs@.subrange(0, i as int + 1);
            assert(sub.drop_last() =~= pairs@.subrange(0, i as int));
            assert(sub.last() == pairs@[i as int]);
            proof {
                reveal_strlit(",");
            }
            if i > 0 {
                key.append(",");
            }
            let p = pair_string(pairs[i]);
            key.append(p.as_str());
            proof {
                if i == 0 {
                    assert(sub.len() == 1);
                    assert(key@ =~= head + joined_pairs(sub));
                } else {
                    assert(key@ =~= head + joined_pairs(sub));
                }
            }
            i = i + 1;
        }
        assert(pairs@.subrange(0, pairs.len() as int) =~= pairs@);
        Ok(key)
    }
}

proof fn lemma_map_indices_fail(s: Seq<(Seq<char>, Value)>, i: int)
    requires
        0 < i <= s.len(),
        map_indices(s.subrange(0, i)) is None,
    ensures
        map_indices(s) is None,
    decreases s.len() - i,
{
    if i < s.len() {
        let pre = s.subrange(0, i + 1);
        assert(pre.drop_last() =~= s.subrange(0, i));
        lemma_map_indices_fail(s, i + 1);
    } else {
        assert(s.subrange(0, i) =~= s);
    }
}

/// A map frame that `push_map_frame` writes reads back as the pair it was
/// given.
pub proof fn law_map_frame_reads_back(index: usize, len: usize)
    requires
        index < len,
        len <= i64::MAX,
    ensures
        map_frame_of(map_data(index, len)) == Some((index, len)),
{
    let o = seq![(index_key(), Value::Integer(index as i64)), (length_key(), Value::Integer(len as i64))];
    assert(index_key().len() != length_key().len());
    assert(o.drop_first() =~= seq![(length_key(), Value::Integer(len as i64))]);
    assert(o.drop_first().drop_first() =~= Seq::<(Seq<char>, Value)>::empty());
    assert(lookup(o, index_key()) == Some(Value::Integer(index as i64)));
    assert(lookup(o.drop_first(), length_key()) == Some(Value::Integer(len as i64)));
    assert(lookup(o, length_key()) == Some(Value::Integer(len as i64)));
}

} // verus!
