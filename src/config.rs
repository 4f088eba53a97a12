use vstd::prelude::*;

use crate::error::AgentError;
use crate::text::owned;
use crate::value::{lookup, put, AgentValue, Value};

verus! {

/// Configuration values of an agent, one entry per key, in insertion order.
#[derive(Debug)]
pub struct AgentConfigs {
    pub entries: Vec<(String, AgentValue)>,
}

pub open spec fn configs_model(v: Vec<(String, AgentValue)>) -> Seq<(Seq<char>, Value)> {
    Seq::new(v@.len(), |i: int| (v[i].0@, v[i].1@))
}

impl View for AgentConfigs {
    type V = Seq<(Seq<char>, Value)>;

    open spec fn view(&self) -> Seq<(Seq<char>, Value)> {
        configs_model(self.entries)
    }
}

impl AgentConfigs {
    pub fn new() -> (r: Self)
        ensures
            r@ == Seq::<(Seq<char>, Value)>::empty(),
    {
        let r = AgentConfigs { entries: Vec::new() };
        assert(r@ =~= Seq::<(Seq<char>, Value)>::empty());
        r
    }

    /// A copy that shares nothing with this one.
    pub fn copy(&self) -> (r: Self)
        ensures
            r@ == self@,
    {
        let mut out: Vec<(String, AgentValue)> = Vec::new();
        let mut i: usize = 0;
        while i < self.entries.len()
            invariant
                i <= self.entries.len(),
                out.len() == i,
                forall|k: int|
                    0 <= k < i ==> (#[trigger] out[k]).0@ == self.entries[k].0@ && out[k].1@
                        == self.entries[k].1@,
            decreases self.entries.len() - i,
        {
            out.push((self.entries[i].0.clone(), self.entries[i].1.deep_copy()));
            i = i + 1;
        }
        let r = AgentConfigs { entries: out };
        assert(r@ =~= self@);
        r
    }

    /// The value under `key`.
    pub fn get(&self, key: &str) -> (r: Option<&AgentValue>)
        ensures
            r is Some <==> lookup(self@, key@) is Some,
            r is Some ==> lookup(self@, key@) == Some(r->0@),
    {
        let ghost m = self@;
        assert(m.subrange(0, m.len() as int) =~= m);
        let mut i: usize = 0;
        while i < self.entries.len()
            invariant
                m == self@,
                i <= self.entries.len(),
                lookup(m, key@) == lookup(m.subrange(i as int, m.len() as int), key@),
            decreases self.entries.len() - i,
        {
            let ghost rest = m.subrange(i as int, m.len() as int);
            assert(rest[0] == m[i as int]);
            if crate::text::str_eq(self.entries[i].0.as_str(), key) {
                return Some(&self.entries[i].1);
            }
            assert(rest.drop_first() =~= m.subrange(i + 1, m.len() as int));
            i = i + 1;
        }
        None
    }

    /// Stores `value` under `key`.
    pub fn set(&mut self, key: String, value: AgentValue)
        ensures
            final(self)@ == put(old(self)@, key@, value@),
    {
        let mut taken: Vec<(String, AgentValue)> = Vec::new();
        std::mem::swap(&mut self.entries, &mut taken);
        let mut obj = AgentValue::Object(taken);
        assert(obj@->Object_0 =~= old(self)@);
        let _ = obj.set(key, value);
        let entries = match obj {
            AgentValue::Object(o) => o,
            _ => Vec::new(),
        };
        assert(configs_model(entries) =~= AgentValue::Object(entries)@->Object_0);
        self.entries = entries;
    }

    /// The string under `key`. Fails with `UnknownConfig` when there is no
    /// such entry and with `InvalidConfig` when it is not a string.
    pub fn get_string(&self, key: &str) -> (r: Result<String, AgentError>)
        ensures
            lookup(self@, key@) is None ==> r is Err && r->Err_0 is UnknownConfig,
            lookup(self@, key@) matches Some(Value::Str(s)) ==> r is Ok && r->Ok_0@ == s,
            lookup(self@, key@) matches Some(v) && !(v is Str) ==> r is Err && r->Err_0 is InvalidConfig,
    {
        match self.get(key) {
            Some(v) => match v.as_str() {
                Some(s) => Ok(owned(s)),
                None => Err(AgentError::InvalidConfig(owned(key))),
            },
            None => Err(AgentError::UnknownConfig(owned(key))),
        }
    }
}

} // verus!
