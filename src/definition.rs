use vstd::prelude::*;

use crate::config::AgentConfigs;
use crate::id::IdGen;
use crate::spec::{copy_strings, strings_model, AgentSpec, AgentSpecModel};
use crate::text::{decimal, owned};
use crate::value::{put, AgentValue, Value};

verus! {

/// A typed configuration entry of a definition: its default value and how
/// it is shown.
#[derive(Debug)]
pub struct AgentConfigEntry {
    pub value: AgentValue,
    /// `unit`, `boolean`, `integer`, `number`, `string`, `text`, `object`
    /// or a custom type tag.
    pub type_: String,
    pub title: Option<String>,
    pub description: Option<String>,
    pub hide_title: bool,
    pub readonly: bool,
}

/// Metadata of an agent type; `name` is its key.
#[derive(Debug)]
pub struct AgentDefinition {
    pub kind: String,
    pub name: String,
    pub title: Option<String>,
    pub category: Option<String>,
    pub description: Option<String>,
    pub inputs: Option<Vec<String>>,
    pub outputs: Option<Vec<String>>,
    pub configs: Option<Vec<(String, AgentConfigEntry)>>,
    pub global_configs: Option<Vec<(String, AgentConfigEntry)>>,
    pub native_thread: bool,
}

pub open spec fn agent_kind() -> Seq<char> {
    seq!['A', 'g', 'e', 'n', 't']
}

/// The default values of config entries, as configs.
pub open spec fn defaults_of(entries: Seq<(Seq<char>, Value)>) -> Seq<(Seq<char>, Value)>
    decreases entries.len(),
{
    if entries.len() == 0 {
        Seq::empty()
    } else {
        put(defaults_of(entries.drop_last()), entries.last().0, entries.last().1)
    }
}

pub open spec fn entry_values(v: Vec<(String, AgentConfigEntry)>) -> Seq<(Seq<char>, Value)> {
    Seq::new(v@.len(), |i: int| (v[i].0@, v[i].1.value@))
}

impl AgentConfigEntry {
    pub fn new(value: AgentValue, type_: &str) -> (r: Self)
        ensures
            r.value == value,
            r.type_@ == type_@,
            r.title is None,
            r.description is None,
            !r.hide_title,
            !r.readonly,
    {
        AgentConfigEntry {
            value,
            type_: owned(type_),
            title: None,
            description: None,
            hide_title: false,
            readonly: false,
        }
    }
}

/// The default values of a list of config entries; a later entry under the
/// same key wins.
pub fn default_configs(entries: &Vec<(String, AgentConfigEntry)>) -> (r: AgentConfigs)
    ensures
        r@ == defaults_of(entry_values(*entries)),
{
    let ghost all = entry_values(*entries);
    let mut configs = AgentConfigs::new();
    let mut i: usize = 0;
    assert(all.subrange(0, 0) =~= Seq::<(Seq<char>, Value)>::empty());
    while i < entries.len()
        invariant
            i <= entries.len(),
            all == entry_values(*entries),
            configs@ == defaults_of(all.subrange(0, i as int)),
        decreases entries.len() - i,
    {
        let ghost sub = all.subrange(0, i as int + 1);
        assert(sub.drop_last() =~= all.subrange(0, i as int));
        configs.set(entries[i].0.clone(), entries[i].1.value.deep_copy());
        i = i + 1;
    }
    assert(all.subrange(0, all.len() as int) =~= all);
    configs
}

impl AgentDefinition {
    /// A definition with the given kind and name and nothing else set.
    pub fn new(kind: &str, name: &str) -> (r: Self)
        ensures
            r.kind@ == kind@,
            r.name@ == name@,
            r.title is None && r.category is None && r.description is None,
            r.inputs is None && r.outputs is None,
            r.configs is None && r.global_configs is None,
            !r.native_thread,
    {
        AgentDefinition {
            kind: owned(kind),
            name: owned(name),
            title: None,
            category: None,
            description: None,
            inputs: None,
            outputs: None,
            configs: None,
            global_configs: None,
            native_thread: false,
        }
    }

    /// The definition of an agent type declared as `ident` in the module at
    /// `mod_path`: named `mod_path::ident`, of kind `Agent`.
    pub fn for_type(mod_path: &str, ident: &str) -> (r: Self)
        ensures
            r.kind@ == agent_kind(),
            r.name@ == mod_path@ + seq![':', ':'] + ident@,
            r.title is None && r.category is None && r.description is None,
            r.inputs is None && r.outputs is None,
            r.configs is None && r.global_configs is None,
            !r.native_thread,
    {
        proof {
            reveal_strlit("Agent");
            reveal_strlit("::");
        }
        let mut name = owned(mod_path);
        name.append("::");
        name.append(ident);
        assert(name@ =~= mod_path@ + seq![':', ':'] + ident@);
        let mut r = AgentDefinition::new("Agent", "");
        assert(r.kind@ =~= agent_kind());
        r.name = name;
        r
    }

    /// A spec of an instance of this definition, with an empty id.
    pub fn to_spec(&self) -> (r: AgentSpec)
        ensures
            r.id@ == Seq::<char>::empty(),
            r.def_name@ == self.name@,
            r.inputs is Some <==> self.inputs is Some,
            self.inputs is Some ==> strings_model(r.inputs->0) == strings_model(self.inputs->0),
            r.outputs is Some <==> self.outputs is Some,
            self.outputs is Some ==> strings_model(r.outputs->0) == strings_model(self.outputs->0),
            r.configs is Some <==> self.configs is Some,
            self.configs is Some ==> r.configs->0@ == defaults_of(entry_values(self.configs->0)),
            !r.disabled,
            r.extensions@.len() == 0,
    {
        AgentSpec {
            id: String::new(),
            def_name: self.name.clone(),
            inputs: match &self.inputs {
                Some(v) => Some(copy_strings(v)),
                None => None,
            },
            outputs: match &self.outputs {
                Some(v) => Some(copy_strings(v)),
                None => None,
            },
            configs: match &self.configs {
                Some(c) => Some(default_configs(c)),
                None => None,
            },
            disabled: false,
            extensions: Vec::new(),
        }
    }
}

impl AgentSpec {
    /// A spec of a new instance of `def`, under a fresh id.
    pub fn from_def(def: &AgentDefinition, ids: &mut IdGen) -> (r: AgentSpec)
        requires
            old(ids).wf(),
            old(ids).next < usize::MAX,
        ensures
            r.id@ == decimal(old(ids).next as nat),
            r@ == (AgentSpecModel { id: r.id@, ..def.to_spec_model() }),
            final(ids).next == old(ids).next + 1,
            final(ids).wf(),
    {
        let spec = def.to_spec();
        let id = crate::id::new_id(ids);
        let r = spec.with_id(id);
        proof {
            def.lemma_to_spec_model(spec);
        }
        r
    }
}

impl AgentDefinition {
    /// The model of the spec that `to_spec` gives.
    pub open spec fn to_spec_model(&self) -> AgentSpecModel {
        AgentSpecModel {
            id: Seq::empty(),
            def_name: self.name@,
            inputs: match self.inputs {
                Some(v) => Some(strings_model(v)),
                None => None,
            },
            outputs: match self.outputs {
                Some(v) => Some(strings_model(v)),
                None => None,
            },
            configs: match self.configs {
                Some(c) => Some(defaults_of(entry_values(c))),
                None => None,
            },
            disabled: false,
            extensions: Seq::empty(),
        }
    }

    proof fn lemma_to_spec_model(&self, s: AgentSpec)
        requires
            s.id@ == Seq::<char>::empty(),
            s.def_name@ == self.name@,
            s.inputs is Some <==> self.inputs is Some,
            self.inputs is Some ==> strings_model(s.inputs->0) == strings_model(self.inputs->0),
            s.outputs is Some <==> self.outputs is Some,
            self.outputs is Some ==> strings_model(s.outputs->0) == strings_model(self.outputs->0),
            s.configs is Some <==> self.configs is Some,
            self.configs is Some ==> s.configs->0@ == defaults_of(entry_values(self.configs->0)),
            !s.disabled,
            s.extensions@.len() == 0,
        ensures
            s@ == self.to_spec_model(),
    {
        assert(s@.extensions =~= Seq::<(Seq<char>, crate::value::Json)>::empty());
    }
}

} // verus!
