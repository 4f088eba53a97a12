use vstd::prelude::*;

use crate::channels::{list_for, holds, targets_model, ChannelTable, Table, Target};
use crate::config::AgentConfigs;
use crate::context::AgentContext;
use crate::definition::{default_configs, entry_values, defaults_of, AgentDefinition};
use crate::error::AgentError;
use crate::id::IdGen;
use crate::spec::{copy_sub_stream, strings_model, AgentSpec, AgentStreamSpec, ChannelSpec};
use crate::stream::{is_unique_name, is_valid_stream_name, unique_name, valid_stream_name, AgentStream};
use crate::text::{owned, str_eq};
use crate::value::{put, AgentValue, Value};

verus! {

/// Lifecycle state of an agent instance.
#[derive(PartialEq, Eq, Structural, Clone, Copy, Debug)]
pub enum AgentStatus {
    Init,
    Start,
    Stop,
}

/// A message for an agent's mailbox.
pub enum AgentMessage {
    Input { ctx: AgentContext, pin: String, value: AgentValue },
    Config { key: String, value: AgentValue },
    Configs { configs: AgentConfigs },
    Stop,
}

/// What became of an input handed to an agent.
pub enum InputAction {
    /// The message goes to the running agent's mailbox.
    Enqueue(AgentMessage),
    /// The agent is not running; the config value was stored in its spec.
    ConfigApplied { key: String, value: AgentValue },
    /// The agent is not running; the input is dropped.
    Dropped,
}

/// An agent instance held by the hub.
pub struct AgentEntry {
    pub spec: AgentSpec,
    pub stream_id: String,
    pub status: AgentStatus,
}

pub open spec fn wildcard() -> Seq<char> {
    seq!['*']
}

/// Deliveries `(target, pin)` of a value emitted on `pin` by a source with
/// targets `l`, in order: a target takes the value when its source pin is
/// `pin` or `*` and the target agent exists; a target pin `*` becomes `pin`.
pub open spec fn route(l: Seq<Target>, pin: Seq<char>, present: spec_fn(Seq<char>) -> bool) -> Seq<
    (Seq<char>, Seq<char>),
>
    decreases l.len(),
{
    if l.len() == 0 {
        Seq::empty()
    } else {
        let prev = route(l.drop_last(), pin, present);
        let (target, sp, tp) = l.last();
        if (sp == pin || sp == wildcard()) && present(target) {
            prev.push((target, if tp == wildcard() { pin } else { tp }))
        } else {
            prev
        }
    }
}

/// Deliveries of a board value: for each subscriber in order, each of its
/// targets; a target pin `*` becomes the board name.
pub open spec fn board_route(subs: Seq<Seq<char>>, t: Table, name: Seq<char>) -> Seq<(Seq<char>, Seq<char>)>
    decreases subs.len(),
{
    if subs.len() == 0 {
        Seq::empty()
    } else {
        board_route(subs.drop_last(), t, name) + pins_to(list_for(t, subs.last()), name)
    }
}

/// Every target of `l`, a target pin `*` replaced by `name`.
pub open spec fn pins_to(l: Seq<Target>, name: Seq<char>) -> Seq<(Seq<char>, Seq<char>)> {
    Seq::new(l.len(), |i: int| (l[i].0, if l[i].2 == wildcard() { name } else { l[i].2 }))
}

/// The hub: agent definitions, agent instances, channels, boards, streams
/// and global configs.
pub struct ASKit {
    defs: Vec<AgentDefinition>,
    agents: Vec<AgentEntry>,
    channels: ChannelTable,
    board_value: Vec<(String, AgentValue)>,
    board_out_agents: Vec<(String, Vec<String>)>,
    streams: Vec<crate::stream::AgentStream>,
    global_configs: Vec<(String, AgentConfigs)>,
    ready: bool,
    ids: IdGen,
    ctx_ids: IdGen,
    observer_ids: IdGen,
}

/// Every id of `s` is a decimal number below `n`.
pub open spec fn minted_below(s: Seq<Seq<char>>, n: nat) -> bool {
    forall|i: int| 0 <= i < s.len() ==> #[trigger] has_mint(s[i], n)
}

/// `x` is the decimal rendering of a number below `n`.
pub open spec fn has_mint(x: Seq<char>, n: nat) -> bool {
    exists|k: nat| k < n && #[trigger] crate::text::decimal(k) == x
}

proof fn lemma_minted_mono(s: Seq<Seq<char>>, n: nat, m: nat)
    requires
        minted_below(s, n),
        n <= m,
    ensures
        minted_below(s, m),
{
    assert forall|i: int| 0 <= i < s.len() implies #[trigger] has_mint(s[i], m) by {
        assert(has_mint(s[i], n));
        let k = choose|k: nat| k < n && #[trigger] crate::text::decimal(k) == s[i];
        assert(crate::text::decimal(k) == s[i]);
    }
}

proof fn lemma_minted_remove(s: Seq<Seq<char>>, n: nat, j: int)
    requires
        minted_below(s, n),
        0 <= j < s.len(),
    ensures
        minted_below(s.remove(j), n),
{
    let t = s.remove(j);
    assert forall|i: int| 0 <= i < t.len() implies #[trigger] has_mint(t[i], n) by {
        let i2 = if i < j { i } else { i + 1 };
        assert(t[i] == s[i2]);
        assert(has_mint(s[i2], n));
        let k = choose|k: nat| k < n && #[trigger] crate::text::decimal(k) == s[i2];
        assert(crate::text::decimal(k) == t[i]);
    }
}

/// `x` is none of the ids of `s` when every id of `s` is a number below `n`
/// and `x` renders a number at least `n`.
proof fn lemma_minted_fresh(s: Seq<Seq<char>>, n: nat, m: nat)
    requires
        minted_below(s, n),
        n <= m,
    ensures
        !s.contains(crate::text::decimal(m)),
{
    if s.contains(crate::text::decimal(m)) {
        let i = choose|i: int| 0 <= i < s.len() && s[i] == crate::text::decimal(m);
        assert(has_mint(s[i], n));
        let k = choose|k: nat| k < n && #[trigger] crate::text::decimal(k) == s[i];
        crate::text::lemma_decimal_injective(k, m);
    }
}

pub open spec fn ids_unique(s: Seq<Seq<char>>) -> bool {
    forall|i: int, j: int| 0 <= i < j < s.len() ==> s[i] != s[j]
}

impl ASKit {
    pub closed spec fn agent_ids(&self) -> Seq<Seq<char>> {
        Seq::new(self.agents@.len(), |i: int| self.agents[i].spec.id@)
    }

    pub closed spec fn streams_view(&self) -> Seq<AgentStream> {
        self.streams@
    }

    pub closed spec fn entries(&self) -> Seq<AgentEntry> {
        self.agents@
    }

    /// The definition registered under `name`.
    pub closed spec fn def_named(&self, name: Seq<char>) -> AgentDefinition {
        self.defs[self.def_names().index_of(name)]
    }

    pub closed spec fn defs_view(&self) -> Seq<AgentDefinition> {
        self.defs@
    }

    pub closed spec fn def_names(&self) -> Seq<Seq<char>> {
        Seq::new(self.defs@.len(), |i: int| self.defs[i].name@)
    }

    pub closed spec fn table(&self) -> Table {
        self.channels@
    }

    pub open spec fn has_agent(&self, id: Seq<char>) -> bool {
        self.agent_ids().contains(id)
    }

    /// The entry of agent `id`.
    pub closed spec fn agent(&self, id: Seq<char>) -> AgentEntry {
        self.agents[self.agent_ids().index_of(id)]
    }

    pub open spec fn status_of(&self, id: Seq<char>) -> AgentStatus {
        self.agent(id).status
    }

    pub open spec fn has_def(&self, name: Seq<char>) -> bool {
        self.def_names().contains(name)
    }

    pub closed spec fn wf(&self) -> bool {
        &&& self.channels.wf()
        &&& ids_unique(self.agent_ids())
        &&& ids_unique(self.def_names())
        &&& self.ids.wf()
        &&& self.ctx_ids.wf()
        &&& self.observer_ids.wf()
        &&& minted_below(self.stream_ids(), self.ids.next as nat)
        &&& forall|i: int| 0 <= i < self.agents@.len() ==> (#[trigger] self.agents[i]).status != AgentStatus::Stop
    }

    /// A hub with nothing registered.
    pub fn new() -> (r: Self)
        ensures
            r.wf(),
            r.agent_ids().len() == 0,
            r.def_names().len() == 0,
            r.table().len() == 0,
            r.globals().len() == 0,
    {
        let r = ASKit {
            defs: Vec::new(),
            agents: Vec::new(),
            channels: ChannelTable::new(),
            board_value: Vec::new(),
            board_out_agents: Vec::new(),
            streams: Vec::new(),
            global_configs: Vec::new(),
            ready: false,
            ids: IdGen::new(),
            ctx_ids: IdGen::new(),
            observer_ids: IdGen::new(),
        };
        assert(r.agent_ids() =~= Seq::<Seq<char>>::empty());
        assert(r.def_names() =~= Seq::<Seq<char>>::empty());
        r
    }

    fn find_agent(&self, id: &str) -> (r: Option<usize>)
        requires
            self.wf(),
        ensures
            r is Some <==> self.has_agent(id@),
            r is Some ==> r->0 < self.agents.len() && self.agent_ids().index_of(id@) == r->0 as int
                && self.agents[r->0 as int].spec.id@ == id@,
    {
        let mut i: usize = 0;
        while i < self.agents.len()
            invariant
                self.wf(),
                i <= self.agents.len(),
                forall|j: int| 0 <= j < i ==> self.agent_ids()[j] != id@,
            decreases self.agents.len() - i,
        {
            if str_eq(self.agents[i].spec.id.as_str(), id) {
                proof {
                    assert(self.agent_ids()[i as int] == id@);
                    self.agent_ids().index_of_first_ensures(id@);
                    assert(self.agent_ids().contains(id@));
                    let k = self.agent_ids().index_of(id@);
                    assert(k == i as int) by {
                        if k != i as int {
                            assert(self.agent_ids()[k] == self.agent_ids()[i as int]);
                        }
                    }
                }
                return Some(i);
            }
            i = i + 1;
        }
        proof {
            if self.agent_ids().contains(id@) {
                let k = choose|k: int| 0 <= k < self.agent_ids().len() && self.agent_ids()[k] == id@;
                assert(self.agent_ids()[k] == id@);
            }
        }
        None
    }

    fn find_def(&self, name: &str) -> (r: Option<usize>)
        ensures
            r is Some <==> self.has_def(name@),
            r is Some ==> r->0 < self.defs.len() && self.defs[r->0 as int].name@ == name@,
    {
        let mut i: usize = 0;
        while i < self.defs.len()
            invariant
                i <= self.defs.len(),
                forall|j: int| 0 <= j < i ==> self.def_names()[j] != name@,
            decreases self.defs.len() - i,
        {
            if str_eq(self.defs[i].name.as_str(), name) {
                assert(self.def_names()[i as int] == name@);
                return Some(i);
            }
            assert(self.def_names()[i as int] == self.defs[i as int].name@);
            i = i + 1;
        }
        proof {
            if self.def_names().contains(name@) {
                let k = choose|k: int| 0 <= k < self.def_names().len() && self.def_names()[k] == name@;
                assert(self.def_names()[k] == name@);
            }
        }
        None
    }
}

/// The value of the first entry under `k`.
pub open spec fn first_for<V>(t: Seq<(Seq<char>, V)>, k: Seq<char>) -> Option<V>
    decreases t.len(),
{
    if t.len() == 0 {
        None
    } else if t[0].0 == k {
        Some(t[0].1)
    } else {
        first_for(t.drop_first(), k)
    }
}

proof fn lemma_first_for_at<V>(t: Seq<(Seq<char>, V)>, i: int)
    requires
        0 <= i < t.len(),
        forall|j: int| 0 <= j < i ==> (#[trigger] t[j]).0 != t[i].0,
    ensures
        first_for(t, t[i].0) == Some(t[i].1),
    decreases i,
{
    if i > 0 {
        let d = t.drop_first();
        assert(t[0].0 != t[i].0);
        assert forall|j: int| 0 <= j < i - 1 implies (#[trigger] d[j]).0 != d[i - 1].0 by {
            assert(d[j] == t[j + 1]);
        }
        lemma_first_for_at(d, i - 1);
    }
}

proof fn lemma_first_for_absent<V>(t: Seq<(Seq<char>, V)>, k: Seq<char>)
    requires
        forall|j: int| 0 <= j < t.len() ==> (#[trigger] t[j]).0 != k,
    ensures
        first_for(t, k) is None,
    decreases t.len(),
{
    if t.len() > 0 {
        let d = t.drop_first();
        assert(t[0].0 != k);
        assert forall|j: int| 0 <= j < d.len() implies (#[trigger] d[j]).0 != k by {
            assert(d[j] == t[j + 1]);
        }
        lemma_first_for_absent(d, k);
    }
}

proof fn lemma_first_for_other<V>(t: Seq<(Seq<char>, V)>, i: int, k: Seq<char>, v: V, b: Seq<char>)
    requires
        0 <= i < t.len(),
        t[i].0 == k,
        b != k,
    ensures
        first_for(t.update(i, (k, v)), b) == first_for(t, b),
    decreases t.len(),
{
    let u = t.update(i, (k, v));
    if i == 0 {
        assert(u.drop_first() =~= t.drop_first());
    } else {
        assert(u[0] == t[0]);
        assert(u.drop_first() =~= t.drop_first().update(i - 1, (k, v)));
        lemma_first_for_other(t.drop_first(), i - 1, k, v, b);
    }
}

proof fn lemma_first_for_push_other<V>(t: Seq<(Seq<char>, V)>, k: Seq<char>, v: V, b: Seq<char>)
    requires
        b != k,
    ensures
        first_for(t.push((k, v)), b) == first_for(t, b),
    decreases t.len(),
{
    let w = t.push((k, v));
    if t.len() == 0 {
        assert(w.drop_first() =~= Seq::<(Seq<char>, V)>::empty());
    } else {
        assert(w[0] == t[0]);
        assert(w.drop_first() =~= t.drop_first().push((k, v)));
        lemma_first_for_push_other(t.drop_first(), k, v, b);
    }
}

proof fn lemma_index_unique(s: Seq<Seq<char>>, i: int)
    requires
        ids_unique(s),
        0 <= i < s.len(),
    ensures
        s.index_of(s[i]) == i,
{
    s.index_of_first_ensures(s[i]);
    assert(s.contains(s[i]));
    let k = s.index_of(s[i]);
    if k != i {
        assert(s[k] == s[i]);
    }
}

/// Definition `i` of `defs` is the only one with its name, and no built-in
/// definition has it.
pub open spec fn only_carrier(defs: Seq<AgentDefinition>, i: int) -> bool {
    &&& !crate::board_agent::builtin_names().contains(defs[i].name@)
    &&& forall|j: int| 0 <= j < defs.len() && j != i ==> (#[trigger] defs[j]).name@ != defs[i].name@
}

/// The global configs that registering `d` on its own gives its name.
pub open spec fn seeded(d: AgentDefinition) -> Option<Seq<(Seq<char>, Value)>> {
    match d.global_configs {
        Some(g) => Some(merged(Seq::empty(), defaults_of(entry_values(g)))),
        None => None,
    }
}

/// Names after registering a definition named `n`: a new name is appended,
/// a known one keeps its place.
pub open spec fn register_name(names: Seq<Seq<char>>, n: Seq<char>) -> Seq<Seq<char>> {
    if names.contains(n) { names } else { names.push(n) }
}

/// Names after registering definitions named `ns`, in order, on an empty hub.
pub open spec fn registered(ns: Seq<Seq<char>>) -> Seq<Seq<char>>
    decreases ns.len(),
{
    if ns.len() == 0 {
        Seq::empty()
    } else {
        register_name(registered(ns.drop_last()), ns.last())
    }
}

/// `configs` merged key by key into `base`.
pub open spec fn merged(base: Seq<(Seq<char>, Value)>, configs: Seq<(Seq<char>, Value)>) -> Seq<(Seq<char>, Value)>
    decreases configs.len(),
{
    if configs.len() == 0 {
        base
    } else {
        put(merged(base, configs.drop_last()), configs.last().0, configs.last().1)
    }
}

/// Registering definitions with distinct names on an empty hub leaves
/// exactly those names, in registration order.
pub proof fn law_registration(ns: Seq<Seq<char>>)
    requires
        ids_unique(ns),
    ensures
        registered(ns) == ns,
    decreases ns.len(),
{
    if ns.len() > 0 {
        let d = ns.drop_last();
        assert forall|i: int, j: int| 0 <= i < j < d.len() implies d[i] != d[j] by {
            assert(d[i] == ns[i] && d[j] == ns[j]);
        }
        law_registration(d);
        assert(!d.contains(ns.last())) by {
            if d.contains(ns.last()) {
                let k = choose|k: int| 0 <= k < d.len() && d[k] == ns.last();
                assert(ns[k] == ns[ns.len() - 1]);
            }
        }
        assert(d.push(ns.last()) =~= ns);
    }
}

impl ASKit {
    pub closed spec fn globals(&self) -> Seq<(Seq<char>, Seq<(Seq<char>, Value)>)> {
        Seq::new(self.global_configs@.len(), |i: int| (self.global_configs[i].0@, self.global_configs[i].1@))
    }

    /// The global configs of definition `name`, if any.
    pub open spec fn global_for(&self, name: Seq<char>) -> Option<Seq<(Seq<char>, Value)>> {
        first_for(self.globals(), name)
    }

    fn find_global(&self, name: &str) -> (r: Option<usize>)
        ensures
            r is None ==> forall|i: int| 0 <= i < self.globals().len() ==> (#[trigger] self.globals()[i]).0 != name@,
            r is Some ==> r->0 < self.global_configs.len() && self.globals()[r->0 as int].0 == name@
                && forall|j: int| 0 <= j < r->0 ==> self.globals()[j].0 != name@,
    {
        let mut i: usize = 0;
        while i < self.global_configs.len()
            invariant
                i <= self.global_configs.len(),
                forall|j: int| 0 <= j < i ==> self.globals()[j].0 != name@,
            decreases self.global_configs.len() - i,
        {
            assert(self.globals()[i as int].0 == self.global_configs[i as int].0@);
            if str_eq(self.global_configs[i].0.as_str(), name) {
                return Some(i);
            }
            i = i + 1;
        }
        None
    }

    /// A copy of the global configs of definition `def_name`.
    pub fn get_global_configs(&self, def_name: &str) -> (r: Option<AgentConfigs>)
        ensures
            r is Some <==> self.global_for(def_name@) is Some,
            r is Some ==> Some(r->0@) == self.global_for(def_name@),
    {
        proof {
            if forall|i: int| 0 <= i < self.globals().len() ==> (#[trigger] self.globals()[i]).0 != def_name@ {
                lemma_first_for_absent(self.globals(), def_name@);
            }
        }
        match self.find_global(def_name) {
            Some(i) => {
                proof {
                    lemma_first_for_at(self.globals(), i as int);
                }
                Some(self.global_configs[i].1.copy())
            },
            None => None,
        }
    }

    /// Merges `configs` key by key into the global configs of `def_name`,
    /// creating them when there are none.
    pub fn set_global_configs(&mut self, def_name: String, configs: AgentConfigs)
        ensures
            final(self).global_for(def_name@) == Some(merged(
                match old(self).global_for(def_name@) { Some(g) => g, None => Seq::empty() },
                configs@,
            )),
            forall|b: Seq<char>| b != def_name@ ==> #[trigger] final(self).global_for(b) == old(self).global_for(b),
            final(self).defs_view() == old(self).defs_view(),
            final(self).agent_ids() == old(self).agent_ids(),
            final(self).def_names() == old(self).def_names(),
            final(self).table() == old(self).table(),
            final(self).wf() == old(self).wf(),
    {
        let ghost old_g = self.globals();
        match self.find_global(def_name.as_str()) {
            Some(i) => {
                let (k, mut existing) = self.global_configs.remove(i);
                let ghost base = existing@;
                let mut n: usize = 0;
                assert(configs@.subrange(0, 0) =~= Seq::<(Seq<char>, Value)>::empty());
                while n < configs.entries.len()
                    invariant
                        n <= configs.entries.len(),
                        existing@ == merged(base, configs@.subrange(0, n as int)),
                    decreases configs.entries.len() - n,
                {
                    let ghost sub = configs@.subrange(0, n as int + 1);
                    assert(sub.drop_last() =~= configs@.subrange(0, n as int));
                    existing.set(configs.entries[n].0.clone(), configs.entries[n].1.deep_copy());
                    n = n + 1;
                }
                assert(configs@.subrange(0, configs@.len() as int) =~= configs@);
                self.global_configs.insert(i, (k, existing));
                proof {
                    let g = self.globals();
                    assert(g =~= old_g.update(i as int, (def_name@, merged(base, configs@))));
                    lemma_first_for_at(old_g, i as int);
                    assert forall|j: int| 0 <= j < i implies (#[trigger] g[j]).0 != def_name@ by {
                        assert(g[j] == old_g[j]);
                    }
                    lemma_first_for_at(g, i as int);
                    assert forall|b: Seq<char>| b != def_name@ implies #[trigger] first_for(g, b) == first_for(old_g, b) by {
                        lemma_first_for_other(old_g, i as int, def_name@, merged(base, configs@), b);
                    }
                }
            },
            None => {
                let mut fresh = AgentConfigs::new();
                let mut n: usize = 0;
                assert(configs@.subrange(0, 0) =~= Seq::<(Seq<char>, Value)>::empty());
                while n < configs.entries.len()
                    invariant
                        n <= configs.entries.len(),
                        fresh@ == merged(Seq::empty(), configs@.subrange(0, n as int)),
                    decreases configs.entries.len() - n,
                {
                    let ghost sub = configs@.subrange(0, n as int + 1);
                    assert(sub.drop_last() =~= configs@.subrange(0, n as int));
                    fresh.set(configs.entries[n].0.clone(), configs.entries[n].1.deep_copy());
                    n = n + 1;
                }
                assert(configs@.subrange(0, configs@.len() as int) =~= configs@);
                let ghost name = def_name@;
                self.global_configs.push((def_name, fresh));
                proof {
                    let g = self.globals();
                    assert(g =~= old_g.push((name, merged(Seq::empty(), configs@))));
                    lemma_first_for_absent(old_g, name);
                    assert forall|j: int| 0 <= j < old_g.len() implies (#[trigger] g[j]).0 != name by {
                        assert(g[j] == old_g[j]);
                    }
                    lemma_first_for_at(g, old_g.len() as int);
                    assert forall|b: Seq<char>| b != name implies #[trigger] first_for(g, b) == first_for(old_g, b) by {
                        lemma_first_for_push_other(old_g, name, merged(Seq::empty(), configs@), b);
                    }
                }
            },
        }
    }
}

impl ASKit {
    /// Registers a definition under its name, replacing one of the same name.
    /// Its global config entries, if any, are merged into the global configs
    /// of that name.
    #[verifier::rlimit(40)]
    pub fn register_agent_definiton(&mut self, def: AgentDefinition)
        requires
            old(self).wf(),
        ensures
            final(self).wf(),
            final(self).def_names() == register_name(old(self).def_names(), def.name@),
            def.global_configs is Some ==> final(self).global_for(def.name@) == Some(merged(
                match old(self).global_for(def.name@) { Some(g) => g, None => Seq::empty() },
                defaults_of(entry_values(def.global_configs->0)),
            )),
            def.global_configs is None ==> final(self).global_for(def.name@) == old(self).global_for(def.name@),
            forall|b: Seq<char>| b != def.name@ ==> #[trigger] final(self).global_for(b) == old(self).global_for(b),
            final(self).def_named(def.name@) == def,
            forall|n: Seq<char>| n != def.name@ && old(self).has_def(n) ==> #[trigger] final(self).def_named(n)
                == old(self).def_named(n),
            final(self).agent_ids() == old(self).agent_ids(),
            final(self).table() == old(self).table(),
    {
        let ghost names = self.def_names();
        let ghost d0 = def;
        let name = def.name.clone();
        let seed = match &def.global_configs {
            Some(g) => Some(default_configs(g)),
            None => None,
        };
        match self.find_def(name.as_str()) {
            Some(i) => {
                self.defs.remove(i);
                self.defs.insert(i, def);
                assert(self.def_names() =~= names.update(i as int, name@));
                assert(names[i as int] == name@);
                assert(self.def_names() =~= names);
                proof {
                    lemma_index_unique(names, i as int);
                    assert(self.defs[i as int] == d0);
                    assert forall|n: Seq<char>| n != name@ && old(self).has_def(n) implies #[trigger] self.def_named(n)
                        == old(self).def_named(n) by {
                        let j = choose|j: int| 0 <= j < names.len() && names[j] == n;
                        lemma_index_unique(names, j);
                    }
                }
            },
            None => {
                self.defs.push(def);
                assert(self.def_names() =~= names.push(name@));
                assert forall|a: int, b: int| 0 <= a < b < names.len() + 1 implies self.def_names()[a]
                    != self.def_names()[b] by {
                    if b == names.len() {
                        assert(names[a] == self.def_names()[a]);
                        if names[a] == name@ {
                            assert(names.contains(name@));
                        }
                    }
                }
                proof {
                    let nn = self.def_names();
                    assert(nn[names.len() as int] == name@);
                    lemma_index_unique(nn, names.len() as int);
                    assert(self.defs[names.len() as int] == d0);
                    assert forall|n: Seq<char>| n != name@ && old(self).has_def(n) implies #[trigger] self.def_named(n)
                        == old(self).def_named(n) by {
                        let j = choose|j: int| 0 <= j < names.len() && names[j] == n;
                        lemma_index_unique(names, j);
                        assert(nn[j] == n);
                        lemma_index_unique(nn, j);
                    }
                }
            },
        }
        assert(self.agent_ids() =~= old(self).agent_ids());
        assert(self.globals() == old(self).globals());
        let ghost mid = *self;
        if let Some(configs) = seed {
            self.set_global_configs(name, configs);
        }
        assert(self.defs@ == mid.defs@);
        assert(self.def_names() =~= mid.def_names());
        assert forall|n: Seq<char>| n != d0.name@ && old(self).has_def(n) implies #[trigger] self.def_named(n)
            == old(self).def_named(n) by {
            assert(self.def_named(n) == mid.def_named(n));
        }
    }

    /// The definition named `def_name`.
    pub fn get_agent_definition(&self, def_name: &str) -> (r: Option<&AgentDefinition>)
        requires
            self.wf(),
        ensures
            r is Some <==> self.has_def(def_name@),
            r is Some ==> r->0.name@ == def_name@ && *r->0 == self.def_named(def_name@),
    {
        match self.find_def(def_name) {
            Some(i) => {
                proof {
                    assert(self.def_names()[i as int] == def_name@);
                    lemma_index_unique(self.def_names(), i as int);
                }
                Some(&self.defs[i])
            },
            None => None,
        }
    }

    /// All definitions, in registration order.
    pub fn get_agent_definitions(&self) -> (r: &Vec<AgentDefinition>)
        requires
            self.wf(),
        ensures
            Seq::new(r@.len(), |i: int| r[i].name@) == self.def_names(),
            forall|i: int| 0 <= i < r@.len() ==> #[trigger] r[i] == self.def_named(self.def_names()[i]),
    {
        assert(Seq::new(self.defs@.len(), |i: int| self.defs[i].name@) =~= self.def_names());
        assert forall|i: int| 0 <= i < self.defs@.len() implies #[trigger] self.defs[i] == self.def_named(self.def_names()[i]) by {
            lemma_index_unique(self.def_names(), i);
        }
        &self.defs
    }

    /// Adds an agent instance, in state `Init`. Fails with
    /// `AgentAlreadyExists` when its id is taken and with `UnknownDefName`
    /// when its definition is not registered.
    pub fn add_agent_internal(&mut self, stream_id: String, spec: AgentSpec) -> (r: Result<(), AgentError>)
        requires
            old(self).wf(),
        ensures
            final(self).wf(),
            final(self).id_room() == old(self).id_room(),
            final(self).streams_view() == old(self).streams_view(),
            old(self).has_agent(spec.id@) ==> r is Err && r->Err_0 is AgentAlreadyExists,
            !old(self).has_agent(spec.id@) && !old(self).has_def(spec.def_name@) ==> r is Err
                && r->Err_0 is UnknownDefName,
            r is Err ==> final(self).agent_ids() == old(self).agent_ids(),
            r is Ok <==> !old(self).has_agent(spec.id@) && old(self).has_def(spec.def_name@),
            r is Ok ==> final(self).agent_ids() == old(self).agent_ids().push(spec.id@)
                && final(self).status_of(spec.id@) == AgentStatus::Init,
            r is Ok ==> forall|x: Seq<char>| #[trigger] old(self).has_agent(x) ==> final(self).agent(x) == old(self).agent(x),
            final(self).def_names() == old(self).def_names(),
            final(self).table() == old(self).table(),
    {
        if self.find_agent(spec.id.as_str()).is_some() {
            return Err(AgentError::AgentAlreadyExists(spec.id.clone()));
        }
        if self.find_def(spec.def_name.as_str()).is_none() {
            return Err(AgentError::UnknownDefName(spec.def_name.clone()));
        }
        let ghost ids = self.agent_ids();
        let ghost id = spec.id@;
        self.agents.push(AgentEntry { spec, stream_id, status: AgentStatus::Init });
        proof {
            assert(self.agent_ids() =~= ids.push(id));
            assert forall|a: int, b: int| 0 <= a < b < ids.len() + 1 implies self.agent_ids()[a]
                != self.agent_ids()[b] by {
                if b == ids.len() {
                    assert(ids[a] == self.agent_ids()[a]);
                    if ids[a] == id {
                        assert(ids.contains(id));
                    }
                }
            }
            self.agent_ids().index_of_first_ensures(id);
            assert(self.agent_ids()[ids.len() as int] == id);
            let k = self.agent_ids().index_of(id);
            if k < ids.len() {
                assert(ids[k] == id);
                assert(ids.contains(id));
            }
            assert forall|x: Seq<char>| #[trigger] old(self).has_agent(x) implies self.agent(x) == old(self).agent(x) by {
                let j = choose|j: int| 0 <= j < ids.len() && ids[j] == x;
                lemma_index_unique(ids, j);
                assert(self.agent_ids()[j] == x);
                lemma_index_unique(self.agent_ids(), j);
            }
        }
        Ok(())
    }

    /// Adds a channel to the table. Fails with `SourceAgentNotFound` when
    /// the source agent does not exist, with `EmptySourceHandle` or
    /// `EmptyTargetHandle` for an empty pin and with `ChannelAlreadyExists`
    /// when the table holds the channel.
    pub fn add_channel_internal(&mut self, channel: &ChannelSpec) -> (r: Result<(), AgentError>)
        requires
            old(self).wf(),
        ensures
            final(self).wf(),
            final(self).id_room() == old(self).id_room(),
            final(self).entries() == old(self).entries(),
            final(self).streams_view() == old(self).streams_view(),
            final(self).agent_ids() == old(self).agent_ids(),
            final(self).def_names() == old(self).def_names(),
            !old(self).has_agent(channel.source@) ==> r is Err && r->Err_0 is SourceAgentNotFound,
            old(self).has_agent(channel.source@) && channel.source_handle@.len() == 0 ==> r is Err
                && r->Err_0 is EmptySourceHandle,
            old(self).has_agent(channel.source@) && channel.source_handle@.len() > 0
                && channel.target_handle@.len() == 0 ==> r is Err && r->Err_0 is EmptyTargetHandle,
            old(self).has_agent(channel.source@) && channel.source_handle@.len() > 0
                && channel.target_handle@.len() > 0 && holds(old(self).table(), channel@) ==> r is Err
                && r->Err_0 is ChannelAlreadyExists,
            r is Err ==> final(self).table() == old(self).table(),
            r is Ok <==> old(self).has_agent(channel.source@) && channel.source_handle@.len() > 0
                && channel.target_handle@.len() > 0 && !holds(old(self).table(), channel@),
            r is Ok ==> crate::channels::changed_only(
                final(self).table(),
                old(self).table(),
                channel.source@,
                list_for(old(self).table(), channel.source@).push(
                    (channel.target@, channel.source_handle@, channel.target_handle@),
                ),
            ),
    {
        if self.find_agent(channel.source.as_str()).is_none() {
            return Err(AgentError::SourceAgentNotFound(channel.source.clone()));
        }
        if channel.source_handle.as_str().unicode_len() == 0 {
            return Err(AgentError::EmptySourceHandle);
        }
        if channel.target_handle.as_str().unicode_len() == 0 {
            return Err(AgentError::EmptyTargetHandle);
        }
        self.channels.insert(channel)
    }

    /// Removes a channel from the table.
    pub fn remove_channel_internal(&mut self, channel: &ChannelSpec)
        requires
            old(self).wf(),
        ensures
            final(self).wf(),
            final(self).entries() == old(self).entries(),
            final(self).streams_view() == old(self).streams_view(),
            final(self).agent_ids() == old(self).agent_ids(),
            final(self).def_names() == old(self).def_names(),
            crate::channels::changed_only(
                final(self).table(),
                old(self).table(),
                channel.source@,
                crate::channels::without(
                    list_for(old(self).table(), channel.source@),
                    (channel.target@, channel.source_handle@, channel.target_handle@),
                ),
            ),
            !holds(final(self).table(), channel@),
    {
        self.channels.remove(channel);
    }
}

pub open spec fn config_prefix() -> Seq<char> {
    seq!['c', 'o', 'n', 'f', 'i', 'g', ':']
}

/// The pin names a config key: `config:<key>`.
pub open spec fn is_config_pin(pin: Seq<char>) -> bool {
    pin.len() >= 7 && pin.subrange(0, 7) == config_prefix()
}

/// Tests for the `config:` prefix and returns the key after it.
pub fn config_key(pin: &str) -> (r: Option<String>)
    ensures
        r is Some <==> is_config_pin(pin@),
        r is Some ==> r->0@ == pin@.subrange(7, pin@.len() as int),
{
    let n = pin.unicode_len();
    if n < 7 {
        return None;
    }
    proof {
        reveal_strlit("config:");
    }
    let head = pin.substring_char(0, 7);
    assert("config:"@ =~= config_prefix());
    if str_eq(head, "config:") {
        Some(owned(pin.substring_char(7, n)))
    } else {
        None
    }
}

impl ASKit {
    fn set_status(&mut self, i: usize, status: AgentStatus)
        requires
            old(self).wf(),
            status != AgentStatus::Stop,
            i < old(self).agents.len(),
        ensures
            final(self).wf(),
            final(self).agent_ids() == old(self).agent_ids(),
            final(self).def_names() == old(self).def_names(),
            final(self).table() == old(self).table(),
            final(self).agents@ == old(self).agents@.update(
                i as int,
                AgentEntry { status, ..old(self).agents[i as int] },
            ),
            final(self).streams@ == old(self).streams@,
            final(self).defs@ == old(self).defs@,
    {
        let mut e = self.agents.remove(i);
        e.status = status;
        self.agents.insert(i, e);
        assert(self.agent_ids() =~= old(self).agent_ids());
        assert(self.agents@ =~= old(self).agents@.update(
            i as int,
            AgentEntry { status, ..old(self).agents[i as int] },
        ));
    }

    /// Statuses of agents other than `id` are those of `old`.
    pub open spec fn others_unchanged(&self, old: &ASKit, id: Seq<char>) -> bool {
        forall|x: Seq<char>| #[trigger] self.has_agent(x) && x != id ==> self.agent(x) == old.agent(x)
    }

    /// The status of agent `id`.
    pub fn agent_status(&self, id: &str) -> (r: Option<AgentStatus>)
        requires
            self.wf(),
        ensures
            r is Some <==> self.has_agent(id@),
            r is Some ==> r->0 == self.status_of(id@),
    {
        match self.find_agent(id) {
            Some(i) => Some(self.agents[i].status),
            None => None,
        }
    }

    /// Moves agent `id` from `Init` to `Start`; `true` when it moved and a
    /// worker is to be started for it. Fails with `AgentNotFound` and, when
    /// its definition is gone, with `AgentDefinitionNotFound`.
    pub fn start_agent(&mut self, id: &str) -> (r: Result<bool, AgentError>)
        requires
            old(self).wf(),
        ensures
            final(self).wf(),
            final(self).agent_ids() == old(self).agent_ids(),
            final(self).table() == old(self).table(),
            final(self).others_unchanged(old(self), id@),
            final(self).streams_view() == old(self).streams_view(),
            final(self).def_names() == old(self).def_names(),
            !old(self).has_agent(id@) ==> r is Err && r->Err_0 is AgentNotFound,
            old(self).has_agent(id@) && !old(self).has_def(old(self).agent(id@).spec.def_name@) ==> r is Err
                && r->Err_0 is AgentDefinitionNotFound,
            r is Err ==> final(self).entries() == old(self).entries(),
            r is Ok ==> r->Ok_0 == (old(self).status_of(id@) == AgentStatus::Init),
            r is Ok ==> final(self).agent(id@) == (if old(self).status_of(id@) == AgentStatus::Init {
                AgentEntry { status: AgentStatus::Start, ..old(self).agent(id@) }
            } else {
                old(self).agent(id@)
            }),
            r is Ok <==> old(self).has_agent(id@) && old(self).has_def(old(self).agent(id@).spec.def_name@),
    {
        let i = match self.find_agent(id) {
            Some(i) => i,
            None => {
                return Err(AgentError::AgentNotFound(owned(id)));
            },
        };
        if self.find_def(self.agents[i].spec.def_name.as_str()).is_none() {
            return Err(AgentError::AgentDefinitionNotFound(owned(id)));
        }
        if self.agents[i].status == AgentStatus::Init {
            self.set_status(i, AgentStatus::Start);
            proof { self.lemma_same_index(old(self), id@); }
            Ok(true)
        } else {
            Ok(false)
        }
    }

    /// Moves a running agent back to `Init`; `true` when it was running and
    /// its worker is to be told to stop. Fails with `AgentNotFound`.
    pub fn stop_agent(&mut self, id: &str) -> (r: Result<bool, AgentError>)
        requires
            old(self).wf(),
        ensures
            final(self).wf(),
            final(self).agent_ids() == old(self).agent_ids(),
            final(self).table() == old(self).table(),
            final(self).others_unchanged(old(self), id@),
            final(self).streams_view() == old(self).streams_view(),
            final(self).def_names() == old(self).def_names(),
            r is Err <==> !old(self).has_agent(id@),
            r is Err ==> r->Err_0 is AgentNotFound && final(self).entries() == old(self).entries(),
            r is Ok ==> r->Ok_0 == (old(self).status_of(id@) == AgentStatus::Start),
            r is Ok ==> final(self).agent(id@) == (if old(self).status_of(id@) == AgentStatus::Start {
                AgentEntry { status: AgentStatus::Init, ..old(self).agent(id@) }
            } else {
                old(self).agent(id@)
            }),
    {
        let i = match self.find_agent(id) {
            Some(i) => i,
            None => {
                return Err(AgentError::AgentNotFound(owned(id)));
            },
        };
        if self.agents[i].status == AgentStatus::Start {
            self.set_status(i, AgentStatus::Init);
            proof { self.lemma_same_index(old(self), id@); }
            Ok(true)
        } else {
            Ok(false)
        }
    }

    proof fn lemma_no_stop(&self, x: Seq<char>)
        requires
            self.wf(),
            self.has_agent(x),
        ensures
            self.status_of(x) != AgentStatus::Stop,
    {
        self.agent_ids().index_of_first_ensures(x);
        let k = self.agent_ids().index_of(x);
        let j = choose|j: int| 0 <= j < self.agent_ids().len() && self.agent_ids()[j] == x;
        assert(self.agent_ids()[k] == x);
        assert(0 <= k < self.agents@.len());
        assert(self.agents[k].status != AgentStatus::Stop);
    }

    proof fn lemma_same_index(&self, old: &ASKit, id: Seq<char>)
        requires
            self.agent_ids() == old.agent_ids(),
            old.has_agent(id),
            self.agents@ == old.agents@.update(
                old.agent_ids().index_of(id),
                AgentEntry { status: self.agents[old.agent_ids().index_of(id)].status, ..old.agent(id) },
            ),
        ensures
            self.others_unchanged(old, id),
            self.agent(id) == (AgentEntry { status: self.agents[old.agent_ids().index_of(id)].status, ..old.agent(id) }),
    {
        old.agent_ids().index_of_first_ensures(id);
        assert forall|x: Seq<char>| #[trigger] self.has_agent(x) && x != id implies self.agent(x) == old.agent(x) by {
            old.agent_ids().index_of_first_ensures(x);
        }
    }
}

impl ASKit {
    pub closed spec fn configs_of(&self, id: Seq<char>) -> Option<Seq<(Seq<char>, Value)>> {
        match self.agent(id).spec.configs {
            Some(c) => Some(c@),
            None => None,
        }
    }

    /// Hands a value to agent `id` on `pin`. A pin `config:<key>` carries a
    /// config value: a running agent gets it through its mailbox, and a
    /// stopped one has it stored in its spec at once. Any other input goes
    /// to the mailbox of a running agent and is dropped for a stopped one.
    /// Fails with `AgentNotFound`, and with `NoConfig` for a config value
    /// to a stopped agent whose spec has no configs.
    pub fn agent_input(&mut self, id: &str, ctx: AgentContext, pin: String, value: AgentValue) -> (r: Result<
        InputAction,
        AgentError,
    >)
        requires
            old(self).wf(),
        ensures
            final(self).wf(),
            final(self).agent_ids() == old(self).agent_ids(),
            final(self).table() == old(self).table(),
            final(self).others_unchanged(old(self), id@),
            !old(self).has_agent(id@) ==> r is Err && r->Err_0 is AgentNotFound,
            old(self).has_agent(id@) && is_config_pin(pin@) && old(self).status_of(id@) != AgentStatus::Start
                && old(self).configs_of(id@) is None ==> r is Err && r->Err_0 is NoConfig,
            r is Err ==> final(self).entries() == old(self).entries(),
            r is Ok <==> old(self).has_agent(id@) && !(is_config_pin(pin@) && old(self).status_of(id@)
                != AgentStatus::Start && old(self).configs_of(id@) is None),
            r is Ok && is_config_pin(pin@) && old(self).status_of(id@) == AgentStatus::Start ==> (
            r->Ok_0 matches InputAction::Enqueue(AgentMessage::Config { key: k, value: v }) && k@
                == pin@.subrange(7, pin@.len() as int) && v@ == value@),
            r is Ok && is_config_pin(pin@) && old(self).status_of(id@) != AgentStatus::Start ==> (
            r->Ok_0 matches InputAction::ConfigApplied { key: k, value: v } && k@ == pin@.subrange(
                7,
                pin@.len() as int,
            ) && v@ == value@ && final(self).configs_of(id@) == Some(put(
                old(self).configs_of(id@)->0,
                k@,
                v@,
            )) && final(self).status_of(id@) == old(self).status_of(id@)),
            r is Ok && !is_config_pin(pin@) && old(self).status_of(id@) == AgentStatus::Start ==> (
            r->Ok_0 matches InputAction::Enqueue(AgentMessage::Input { ctx: c, pin: p, value: v })
                && c == ctx && p == pin && v == value),
            r is Ok && !is_config_pin(pin@) && old(self).status_of(id@) != AgentStatus::Start ==> r->Ok_0
                is Dropped,
            r is Ok && !(is_config_pin(pin@) && old(self).status_of(id@) != AgentStatus::Start)
                ==> final(self).entries() == old(self).entries(),
    {
        let i = match self.find_agent(id) {
            Some(i) => i,
            None => {
                return Err(AgentError::AgentNotFound(owned(id)));
            },
        };
        let running = self.agents[i].status == AgentStatus::Start;
        match config_key(pin.as_str()) {
            Some(key) => {
                if running {
                    Ok(InputAction::Enqueue(AgentMessage::Config { key, value }))
                } else if self.agents[i].spec.configs.is_none() {
                    Err(AgentError::NoConfig)
                } else {
                    let mut e = self.agents.remove(i);
                    let applied = value.deep_copy();
                    let k2 = key.clone();
                    match e.spec.configs {
                        Some(mut c) => {
                            c.set(k2, applied);
                            e.spec.configs = Some(c);
                        },
                        None => {},
                    }
                    self.agents.insert(i, e);
                    proof {
                        assert(self.agent_ids() =~= old(self).agent_ids());
                        old(self).agent_ids().index_of_first_ensures(id@);
                        assert forall|x: Seq<char>| #[trigger] self.has_agent(x) && x != id@ implies self.agent(x) == old(self).agent(x) by {
                            old(self).agent_ids().index_of_first_ensures(x);
                        }
                    }
                    Ok(InputAction::ConfigApplied { key, value })
                }
            },
            None => {
                if running {
                    Ok(InputAction::Enqueue(AgentMessage::Input { ctx, pin, value }))
                } else {
                    Ok(InputAction::Dropped)
                }
            },
        }
    }

    /// Where a value that `source` emits on `pin` goes: `(target, pin)`
    /// pairs in channel order.
    pub fn agent_out_deliveries(&self, source: &String, pin: &String) -> (r: Vec<(String, String)>)
        requires
            self.wf(),
        ensures
            Seq::new(r@.len(), |i: int| (r[i].0@, r[i].1@)) == route(
                list_for(self.table(), source@),
                pin@,
                |x: Seq<char>| self.has_agent(x),
            ),
    {
        let targets = self.channels.targets_of(source);
        let ghost l = targets_model(targets);
        let ghost present = |x: Seq<char>| self.has_agent(x);
        let mut out: Vec<(String, String)> = Vec::new();
        let mut k: usize = 0;
        proof {
            reveal_strlit("*");
        }
        assert(l.subrange(0, 0) =~= Seq::<Target>::empty());
        assert(Seq::new(out@.len(), |i: int| (out[i].0@, out[i].1@)) =~= Seq::<(Seq<char>, Seq<char>)>::empty());
        while k < targets.len()
            invariant
                self.wf(),
                k <= targets.len(),
                l == targets_model(targets),
                present == (|x: Seq<char>| self.has_agent(x)),
                Seq::new(out@.len(), |i: int| (out[i].0@, out[i].1@)) == route(l.subrange(0, k as int), pin@, present),
            decreases targets.len() - k,
        {
            proof {
                reveal_strlit("*");
            }
            let ghost before = Seq::new(out@.len(), |i: int| (out[i].0@, out[i].1@));
            let ghost sub = l.subrange(0, k as int + 1);
            assert(sub.drop_last() =~= l.subrange(0, k as int));
            assert(sub.last() == (targets[k as int].0@, targets[k as int].1@, targets[k as int].2@));
            assert("*"@ =~= wildcard());
            let t = &targets[k];
            let matches = str_eq(t.1.as_str(), pin.as_str()) || str_eq(t.1.as_str(), "*");
            if matches && self.find_agent(t.0.as_str()).is_some() {
                let p = if str_eq(t.2.as_str(), "*") { pin.clone() } else { t.2.clone() };
                out.push((t.0.clone(), p));
                assert(Seq::new(out@.len(), |i: int| (out[i].0@, out[i].1@)) =~= before.push((t.0@, p@)));
            }
            k = k + 1;
        }
        assert(l.subrange(0, l.len() as int) =~= l);
        out
    }
}

pub open spec fn subs_model(v: Vec<(String, Vec<String>)>) -> Seq<(Seq<char>, Seq<Seq<char>>)> {
    Seq::new(v@.len(), |i: int| (v[i].0@, crate::spec::strings_model(v[i].1)))
}

/// `s` without the entries equal to `x`.
pub open spec fn drop_id(s: Seq<Seq<char>>, x: Seq<char>) -> Seq<Seq<char>>
    decreases s.len(),
{
    if s.len() == 0 {
        s
    } else if s.last() == x {
        drop_id(s.drop_last(), x)
    } else {
        drop_id(s.drop_last(), x).push(s.last())
    }
}

impl ASKit {
    /// The subscribers of board `name`, in the order they subscribed.
    pub closed spec fn subscribers(&self, name: Seq<char>) -> Seq<Seq<char>> {
        match first_for(subs_model(self.board_out_agents), name) {
            Some(s) => s,
            None => Seq::empty(),
        }
    }

    /// The last value written to each board.
    pub closed spec fn boards(&self) -> Seq<(Seq<char>, Value)> {
        Seq::new(self.board_value@.len(), |i: int| (self.board_value[i].0@, self.board_value[i].1@))
    }

    fn find_board(&self, name: &String) -> (r: Option<usize>)
        ensures
            r is Some ==> r->0 < self.board_out_agents.len() && first_for(subs_model(self.board_out_agents), name@)
                == Some(subs_model(self.board_out_agents)[r->0 as int].1)
                && subs_model(self.board_out_agents)[r->0 as int].0 == name@
                && forall|j: int| 0 <= j < r->0 ==> (#[trigger] subs_model(self.board_out_agents)[j]).0 != name@,
            r is None ==> first_for(subs_model(self.board_out_agents), name@) is None,
            r is None ==> forall|j: int| 0 <= j < self.board_out_agents.len() ==> (#[trigger] subs_model(self.board_out_agents)[j]).0 != name@,
    {
        let ghost m = subs_model(self.board_out_agents);
        let mut i: usize = 0;
        while i < self.board_out_agents.len()
            invariant
                i <= self.board_out_agents.len(),
                m == subs_model(self.board_out_agents),
                forall|j: int| 0 <= j < i ==> (#[trigger] m[j]).0 != name@,
            decreases self.board_out_agents.len() - i,
        {
            assert(m[i as int].0 == self.board_out_agents[i as int].0@);
            if self.board_out_agents[i].0 == *name {
                proof { lemma_first_for_at(m, i as int); }
                return Some(i);
            }
            i = i + 1;
        }
        proof { lemma_first_for_absent(m, name@); }
        None
    }

    /// Subscribes agent `id` to board `name`.
    pub fn subscribe_board(&mut self, name: &String, id: &String)
        requires
            old(self).wf(),
        ensures
            final(self).wf(),
            final(self).subscribers(name@) == old(self).subscribers(name@).push(id@),
            forall|b: Seq<char>| b != name@ ==> #[trigger] final(self).subscribers(b) == old(self).subscribers(b),
            final(self).agent_ids() == old(self).agent_ids(),
            final(self).entries() == old(self).entries(),
            final(self).table() == old(self).table(),
            final(self).boards() == old(self).boards(),
    {
        let ghost m = subs_model(self.board_out_agents);
        match self.find_board(name) {
            Some(i) => {
                let (k, mut subs) = self.board_out_agents.remove(i);
                let ghost before = crate::spec::strings_model(subs);
                subs.push(id.clone());
                assert(crate::spec::strings_model(subs) =~= before.push(id@));
                self.board_out_agents.insert(i, (k, subs));
                proof {
                    let n = subs_model(self.board_out_agents);
                    assert(n =~= m.update(i as int, (name@, before.push(id@))));
                    lemma_first_for_at(m, i as int);
                    assert forall|j: int| 0 <= j < i implies (#[trigger] n[j]).0 != name@ by {
                        assert(n[j] == m[j]);
                    }
                    lemma_first_for_at(n, i as int);
                    assert forall|b: Seq<char>| b != name@ implies #[trigger] self.subscribers(b) == old(self).subscribers(b) by {
                        lemma_first_for_other(m, i as int, name@, before.push(id@), b);
                    }
                }
            },
            None => {
                let mut subs: Vec<String> = Vec::new();
                subs.push(id.clone());
                assert(crate::spec::strings_model(subs) =~= seq![id@]);
                self.board_out_agents.push((name.clone(), subs));
                proof {
                    let n = subs_model(self.board_out_agents);
                    assert(n =~= m.push((name@, seq![id@])));
                    assert forall|j: int| 0 <= j < m.len() implies (#[trigger] n[j]).0 != name@ by {
                        assert(n[j] == m[j]);
                    }
                    lemma_first_for_at(n, m.len() as int);
                    assert(seq![id@] =~= Seq::<Seq<char>>::empty().push(id@));
                    assert forall|b: Seq<char>| b != name@ implies #[trigger] self.subscribers(b) == old(self).subscribers(b) by {
                        lemma_first_for_push_other(m, name@, seq![id@], b);
                    }
                }
            },
        }
    }

    /// Removes agent `id` from the subscribers of board `name`.
    pub fn unsubscribe_board(&mut self, name: &String, id: &String)
        requires
            old(self).wf(),
        ensures
            final(self).wf(),
            final(self).subscribers(name@) == drop_id(old(self).subscribers(name@), id@),
            forall|b: Seq<char>| b != name@ ==> #[trigger] final(self).subscribers(b) == old(self).subscribers(b),
            final(self).agent_ids() == old(self).agent_ids(),
            final(self).entries() == old(self).entries(),
            final(self).table() == old(self).table(),
            final(self).boards() == old(self).boards(),
    {
        let ghost m = subs_model(self.board_out_agents);
        match self.find_board(name) {
            Some(i) => {
                let (k, subs) = self.board_out_agents.remove(i);
                let ghost l = crate::spec::strings_model(subs);
                let mut kept: Vec<String> = Vec::new();
                let mut n: usize = 0;
                assert(l.subrange(0, 0) =~= Seq::<Seq<char>>::empty());
                assert(crate::spec::strings_model(kept) =~= Seq::<Seq<char>>::empty());
                while n < subs.len()
                    invariant
                        n <= subs.len(),
                        l == crate::spec::strings_model(subs),
                        crate::spec::strings_model(kept) == drop_id(l.subrange(0, n as int), id@),
                    decreases subs.len() - n,
                {
                    let ghost sub = l.subrange(0, n as int + 1);
                    assert(sub.drop_last() =~= l.subrange(0, n as int));
                    let ghost before = crate::spec::strings_model(kept);
                    if subs[n] != *id {
                        kept.push(subs[n].clone());
                        assert(crate::spec::strings_model(kept) =~= before.push(subs[n as int]@));
                    }
                    n = n + 1;
                }
                assert(l.subrange(0, l.len() as int) =~= l);
                self.board_out_agents.insert(i, (k, kept));
                proof {
                    let nm = subs_model(self.board_out_agents);
                    assert(nm =~= m.update(i as int, (name@, drop_id(l, id@))));
                    lemma_first_for_at(m, i as int);
                    assert forall|j: int| 0 <= j < i implies (#[trigger] nm[j]).0 != name@ by {
                        assert(nm[j] == m[j]);
                    }
                    lemma_first_for_at(nm, i as int);
                    assert forall|b: Seq<char>| b != name@ implies #[trigger] self.subscribers(b) == old(self).subscribers(b) by {
                        lemma_first_for_other(m, i as int, name@, drop_id(l, id@), b);
                    }
                }
            },
            None => {
                assert(drop_id(Seq::<Seq<char>>::empty(), id@) == Seq::<Seq<char>>::empty());
            },
        }
    }

    /// Stores `value` as the last value of board `name` and returns where it
    /// goes: to each target of each subscriber, in order; a target pin `*`
    /// becomes the board name.
    pub fn board_out(&mut self, name: &String, value: &AgentValue) -> (r: Vec<(String, String)>)
        requires
            old(self).wf(),
        ensures
            final(self).wf(),
            final(self).boards() == put(old(self).boards(), name@, value@),
            Seq::new(r@.len(), |i: int| (r[i].0@, r[i].1@)) == board_route(
                old(self).subscribers(name@),
                old(self).table(),
                name@,
            ),
            final(self).agent_ids() == old(self).agent_ids(),
            final(self).entries() == old(self).entries(),
            final(self).table() == old(self).table(),
            forall|b: Seq<char>| #[trigger] final(self).subscribers(b) == old(self).subscribers(b),
    {
        let ghost old_subs = self.subscribers(name@);
        let mut taken: Vec<(String, AgentValue)> = Vec::new();
        std::mem::swap(&mut self.board_value, &mut taken);
        let mut obj = AgentValue::Object(taken);
        assert(obj@->Object_0 =~= old(self).boards());
        let _ = obj.set(name.clone(), value.deep_copy());
        let cache = match obj {
            AgentValue::Object(o) => o,
            _ => Vec::new(),
        };
        assert(AgentValue::Object(cache)@->Object_0 =~= Seq::new(cache@.len(), |i: int| (cache[i].0@, cache[i].1@)));
        self.board_value = cache;
        let subs = match self.find_board(name) {
            Some(i) => crate::spec::copy_strings(&self.board_out_agents[i].1),
            None => {
                let e: Vec<String> = Vec::new();
                assert(crate::spec::strings_model(e) =~= Seq::<Seq<char>>::empty());
                e
            },
        };
        let ghost sm = crate::spec::strings_model(subs);
        assert(sm == old_subs);
        proof {
            reveal_strlit("*");
        }
        assert("*"@ =~= wildcard());
        let mut out: Vec<(String, String)> = Vec::new();
        assert(sm.subrange(0, 0) =~= Seq::<Seq<char>>::empty());
        assert(Seq::new(out@.len(), |i: int| (out[i].0@, out[i].1@)) =~= Seq::<(Seq<char>, Seq<char>)>::empty());
        let mut n: usize = 0;
        while n < subs.len()
            invariant
                self.wf(),
                n <= subs.len(),
                sm == crate::spec::strings_model(subs),
                self.table() == old(self).table(),
                Seq::new(out@.len(), |i: int| (out[i].0@, out[i].1@)) == board_route(sm.subrange(0, n as int), self.table(), name@),
            decreases subs.len() - n,
        {
            let targets = self.channels.targets_of(&subs[n]);
            let ghost l = targets_model(targets);
            let ghost base = Seq::new(out@.len(), |i: int| (out[i].0@, out[i].1@));
            let mut k: usize = 0;
            assert(pins_to(l.subrange(0, 0), name@) =~= Seq::<(Seq<char>, Seq<char>)>::empty());
            assert(base + pins_to(l.subrange(0, 0), name@) =~= base);
            while k < targets.len()
                invariant
                    k <= targets.len(),
                    l == targets_model(targets),
                    Seq::new(out@.len(), |i: int| (out[i].0@, out[i].1@)) == base + pins_to(l.subrange(0, k as int), name@),
                decreases targets.len() - k,
            {
                proof {
                    reveal_strlit("*");
                }
                assert("*"@ =~= wildcard());
                let ghost before = Seq::new(out@.len(), |i: int| (out[i].0@, out[i].1@));
                let t = &targets[k];
                assert(l[k as int] == (t.0@, t.1@, t.2@));
                let p = if str_eq(t.2.as_str(), "*") { name.clone() } else { t.2.clone() };
                out.push((t.0.clone(), p));
                assert(pins_to(l.subrange(0, k as int + 1), name@) =~= pins_to(l.subrange(0, k as int), name@).push((t.0@, p@)));
                assert(Seq::new(out@.len(), |i: int| (out[i].0@, out[i].1@)) =~= before.push((t.0@, p@)));
                k = k + 1;
            }
            assert(l.subrange(0, l.len() as int) =~= l);
            let ghost sub = sm.subrange(0, n as int + 1);
            assert(sub.drop_last() =~= sm.subrange(0, n as int));
            assert(sub.last() == subs[n as int]@);
            n = n + 1;
        }
        assert(sm.subrange(0, sm.len() as int) =~= sm);
        out
    }
}

/// Position of the first `x` in `s`, or -1.
pub open spec fn first_pos<A>(s: Seq<A>, x: A) -> int
    decreases s.len(),
{
    if s.len() == 0 {
        -1
    } else if s[0] == x {
        0
    } else {
        let r = first_pos(s.drop_first(), x);
        if r < 0 { -1 } else { r + 1 }
    }
}

proof fn lemma_first_pos_at<A>(s: Seq<A>, i: int)
    requires
        0 <= i < s.len(),
        forall|j: int| 0 <= j < i ==> #[trigger] s[j] != s[i],
    ensures
        first_pos(s, s[i]) == i,
    decreases i,
{
    if i > 0 {
        let d = s.drop_first();
        assert(s[0] != s[i]);
        assert forall|j: int| 0 <= j < i - 1 implies #[trigger] d[j] != d[i - 1] by {
            assert(d[j] == s[j + 1]);
        }
        lemma_first_pos_at(d, i - 1);
    }
}

proof fn lemma_first_pos_neg<A>(s: Seq<A>, x: A)
    requires
        first_pos(s, x) < 0,
    ensures
        forall|j: int| 0 <= j < s.len() ==> #[trigger] s[j] != x,
    decreases s.len(),
{
    if s.len() > 0 {
        let d = s.drop_first();
        lemma_first_pos_neg(d, x);
        assert forall|j: int| 0 <= j < s.len() implies #[trigger] s[j] != x by {
            if j > 0 {
                assert(s[j] == d[j - 1]);
            }
        }
    }
}

proof fn lemma_first_pos_absent<A>(s: Seq<A>, x: A)
    requires
        forall|j: int| 0 <= j < s.len() ==> s[j] != x,
    ensures
        first_pos(s, x) == -1,
    decreases s.len(),
{
    if s.len() > 0 {
        let d = s.drop_first();
        assert(s[0] != x);
        assert forall|j: int| 0 <= j < d.len() implies d[j] != x by {
            assert(d[j] == s[j + 1]);
        }
        lemma_first_pos_absent(d, x);
    }
}

/// What a stream reports of itself.
pub struct AgentStreamInfo {
    pub id: String,
    pub name: String,
    pub running: bool,
    pub run_on_start: bool,
}

impl ASKit {
    pub closed spec fn stream_ids(&self) -> Seq<Seq<char>> {
        Seq::new(self.streams@.len(), |i: int| self.streams[i].id@)
    }

    pub closed spec fn stream_names(&self) -> Seq<Seq<char>> {
        Seq::new(self.streams@.len(), |i: int| self.streams[i].name@)
    }

    /// Whether stream `id` runs.
    pub closed spec fn stream_running(&self, id: Seq<char>) -> bool {
        self.streams[first_pos(self.stream_ids(), id)].running
    }

    /// Ids that can still be minted.
    pub closed spec fn id_room(&self) -> nat {
        (usize::MAX - self.ids.next) as nat
    }

    pub closed spec fn is_ready(&self) -> bool {
        self.ready
    }

    fn find_stream(&self, id: &str) -> (r: Option<usize>)
        ensures
            r is Some <==> first_pos(self.stream_ids(), id@) >= 0,
            r is Some ==> r->0 < self.streams.len() && first_pos(self.stream_ids(), id@) == r->0 as int
                && self.streams[r->0 as int].id@ == id@,
    {
        let mut i: usize = 0;
        while i < self.streams.len()
            invariant
                i <= self.streams.len(),
                forall|j: int| 0 <= j < i ==> self.stream_ids()[j] != id@,
            decreases self.streams.len() - i,
        {
            if str_eq(self.streams[i].id.as_str(), id) {
                proof {
                    assert(self.stream_ids()[i as int] == id@);
                    lemma_first_pos_at(self.stream_ids(), i as int);
                }
                return Some(i);
            }
            i = i + 1;
        }
        proof {
            lemma_first_pos_absent(self.stream_ids(), id@);
        }
        None
    }

    fn names_of_streams(&self) -> (r: Vec<String>)
        ensures
            strings_model(r) == self.stream_names(),
    {
        let mut out: Vec<String> = Vec::new();
        let mut i: usize = 0;
        while i < self.streams.len()
            invariant
                i <= self.streams.len(),
                out.len() == i,
                forall|k: int| 0 <= k < i ==> (#[trigger] out[k])@ == self.streams[k].name@,
            decreases self.streams.len() - i,
        {
            out.push(self.streams[i].name.clone());
            i = i + 1;
        }
        assert(strings_model(out) =~= self.stream_names());
        out
    }

    /// The name a new stream called `name` gets: see `is_unique_name`.
    pub fn unique_stream_name(&self, name: &str) -> (r: String)
        requires
            self.stream_names().len() + 3 <= usize::MAX,
        ensures
            is_unique_name(r@, name@, self.stream_names()),
    {
        let names = self.names_of_streams();
        unique_name(name, &names)
    }

    /// Starts the event loop: messages may flow from now on.
    pub fn ready(&mut self)
        ensures
            final(self).is_ready(),
            final(self).agent_ids() == old(self).agent_ids(),
            final(self).entries() == old(self).entries(),
            final(self).table() == old(self).table(),
            final(self).wf() == old(self).wf(),
    {
        self.ready = true;
    }

    /// Stops the event loop: no message flows any more.
    pub fn quit(&mut self)
        ensures
            !final(self).is_ready(),
            final(self).agent_ids() == old(self).agent_ids(),
            final(self).entries() == old(self).entries(),
            final(self).table() == old(self).table(),
            final(self).wf() == old(self).wf(),
    {
        self.ready = false;
    }

    /// Whether the event loop runs.
    pub fn is_running(&self) -> (r: bool)
        ensures
            r == self.is_ready(),
    {
        self.ready
    }

    /// The id the next context gets.
    pub closed spec fn next_ctx_id(&self) -> usize {
        self.ctx_ids.next
    }

    /// How many more context ids can be handed out.
    pub fn ctx_ids_left(&self) -> (r: usize)
        ensures
            r == usize::MAX - self.next_ctx_id(),
    {
        usize::MAX - self.ctx_ids.next
    }

    /// How many more observer ids can be handed out.
    pub fn observer_ids_left(&self) -> (r: usize)
        ensures
            r == usize::MAX - self.next_observer_id(),
    {
        usize::MAX - self.observer_ids.next
    }

    /// The id the next observer gets.
    pub closed spec fn next_observer_id(&self) -> usize {
        self.observer_ids.next
    }

    /// A context for a new external event, with a fresh id.
    pub fn new_context(&mut self) -> (r: AgentContext)
        requires
            old(self).wf(),
            old(self).next_ctx_id() < usize::MAX,
        ensures
            final(self).wf(),
            r@ == (crate::context::ContextModel { id: old(self).next_ctx_id(), vars: None, frames: None }),
            final(self).next_ctx_id() == old(self).next_ctx_id() + 1,
            final(self).agent_ids() == old(self).agent_ids(),
            final(self).entries() == old(self).entries(),
            final(self).table() == old(self).table(),
            final(self).streams_view() == old(self).streams_view(),
    {
        AgentContext::new(&mut self.ctx_ids)
    }

    /// Checks that messages can be sent. Fails with `TxNotInitialized`
    /// before `ready` and after `quit`.
    pub fn tx(&self) -> (r: Result<(), AgentError>)
        ensures
            r is Ok <==> self.is_ready(),
            r is Err ==> r->Err_0 is TxNotInitialized,
    {
        if self.ready {
            Ok(())
        } else {
            Err(AgentError::TxNotInitialized)
        }
    }

    /// The board-out event for writing `value` to board `name` from outside,
    /// with a fresh context. Fails with `TxNotInitialized` before `ready`.
    pub fn write_board_value(&mut self, name: String) -> (r: Result<(String, AgentContext), AgentError>)
        requires
            old(self).wf(),
            old(self).next_ctx_id() < usize::MAX,
        ensures
            final(self).wf(),
            r is Ok <==> old(self).is_ready(),
            r is Err ==> r->Err_0 is TxNotInitialized,
            r is Ok ==> r->Ok_0.1@ == (crate::context::ContextModel { id: old(self).next_ctx_id(), vars: None, frames: None }),
            r is Ok ==> r->Ok_0.0@ == name@,
            final(self).entries() == old(self).entries(),
            final(self).table() == old(self).table(),
    {
        if !self.ready {
            return Err(AgentError::TxNotInitialized);
        }
        let ctx = self.new_context();
        Ok((name, ctx))
    }

    /// The board-out event for writing variable `name` of stream `stream_id`:
    /// it goes to board `%{stream_id}/{name}`. Fails with `TxNotInitialized`
    /// before `ready`.
    pub fn write_var_value(&mut self, stream_id: &str, name: &str) -> (r: Result<(String, AgentContext), AgentError>)
        requires
            old(self).wf(),
            old(self).next_ctx_id() < usize::MAX,
        ensures
            final(self).wf(),
            r is Ok <==> old(self).is_ready(),
            r is Err ==> r->Err_0 is TxNotInitialized,
            r is Ok ==> r->Ok_0.1@ == (crate::context::ContextModel { id: old(self).next_ctx_id(), vars: None, frames: None }),
            r is Ok ==> r->Ok_0.0@ == crate::board_agent::var_board(stream_id@, name@),
            final(self).entries() == old(self).entries(),
            final(self).table() == old(self).table(),
    {
        let var = crate::board_agent::board_name_for_var(stream_id, name);
        self.write_board_value(var)
    }

    /// Subscribes an observer; its id comes back.
    pub fn subscribe(&mut self) -> (r: usize)
        requires
            old(self).wf(),
            old(self).next_observer_id() < usize::MAX,
        ensures
            final(self).wf(),
            r >= 1,
            r == old(self).next_observer_id(),
            final(self).next_observer_id() == old(self).next_observer_id() + 1,
            final(self).entries() == old(self).entries(),
            final(self).table() == old(self).table(),
    {
        new_observer_id(&mut self.observer_ids)
    }
}

/// Hands out the next observer id.
pub fn new_observer_id(ids: &mut IdGen) -> (r: usize)
    requires
        old(ids).wf(),
        old(ids).next < usize::MAX,
    ensures
        r == old(ids).next,
        final(ids).next == old(ids).next + 1,
        final(ids).wf(),
        r >= 1,
{
    ids.fresh()
}

fn empty_pin(chs: &Vec<ChannelSpec>) -> (r: Option<AgentError>)
    ensures
        r is None <==> forall|k: int| 0 <= k < chs@.len() ==> (#[trigger] chs[k]).source_handle@.len() > 0
            && chs[k].target_handle@.len() > 0,
        r is Some ==> r->0 is EmptySourceHandle || r->0 is EmptyTargetHandle,
{
    let mut h: usize = 0;
    while h < chs.len()
        invariant
            h <= chs.len(),
            forall|k: int| 0 <= k < h ==> (#[trigger] chs[k]).source_handle@.len() > 0
                && chs[k].target_handle@.len() > 0,
        decreases chs.len() - h,
    {
        if chs[h].source_handle.as_str().unicode_len() == 0 {
            return Some(AgentError::EmptySourceHandle);
        }
        if chs[h].target_handle.as_str().unicode_len() == 0 {
            return Some(AgentError::EmptyTargetHandle);
        }
        h = h + 1;
    }
    None
}

/// The ids `base`, `base + 1`, ... minted for `n` agents.
pub open spec fn minted_ids(base: nat, n: nat) -> Seq<Seq<char>> {
    Seq::new(n, |i: int| crate::text::decimal((base + i) as nat))
}

/// The channels of a copy of `spec` made by hub `h`.
pub open spec fn copied_of(h: ASKit, spec: AgentStreamSpec) -> Seq<crate::spec::ChannelModel> {
    crate::spec::copied_channels(
        crate::spec::channels_model(spec.channels),
        crate::spec::ids_of(crate::spec::agents_model(spec.agents)),
        (usize::MAX - h.id_room()) as nat,
    )
}

/// Hub `h` can install a copy of `spec`: every definition is registered,
/// no minted id is already an agent id, and every copied channel has both
/// pins.
pub open spec fn stream_copy_ok(h: ASKit, spec: AgentStreamSpec) -> bool {
    let base = (usize::MAX - h.id_room()) as nat;
    &&& forall|i: int| 0 <= i < spec.agents@.len() ==> h.has_def(#[trigger] spec.agents[i].def_name@)
    &&& forall|i: int| 0 <= i < spec.agents@.len() ==> !h.has_agent(#[trigger] minted_ids(base, spec.agents@.len())[i])
    &&& forall|k: int| 0 <= k < copied_of(h, spec).len() ==> (#[trigger] copied_of(h, spec)[k]).1.len() > 0
        && copied_of(h, spec)[k].3.len() > 0
}

/// An agent entry in another state.
pub open spec fn with_status(e: AgentEntry, status: AgentStatus) -> AgentEntry {
    AgentEntry { status, ..e }
}

/// The members that starting a stream starts, in order: each enabled
/// member that exists, has its definition registered and is in `Init`,
/// once.
pub open spec fn to_start(ms: Seq<(Seq<char>, bool)>, h: ASKit) -> Seq<Seq<char>>
    decreases ms.len(),
{
    if ms.len() == 0 {
        Seq::empty()
    } else {
        let prev = to_start(ms.drop_last(), h);
        let x = ms.last().0;
        if !ms.last().1 && h.has_agent(x) && h.has_def(h.agent(x).spec.def_name@) && h.status_of(x)
            == AgentStatus::Init && !prev.contains(x) {
            prev.push(x)
        } else {
            prev
        }
    }
}

/// The members that stopping a stream stops, in order: each member that
/// exists and runs, once.
pub open spec fn to_stop(ms: Seq<(Seq<char>, bool)>, h: ASKit) -> Seq<Seq<char>>
    decreases ms.len(),
{
    if ms.len() == 0 {
        Seq::empty()
    } else {
        let prev = to_stop(ms.drop_last(), h);
        let x = ms.last().0;
        if h.has_agent(x) && h.status_of(x) == AgentStatus::Start && !prev.contains(x) {
            prev.push(x)
        } else {
            prev
        }
    }
}

/// `(id, disabled)` of each agent of a stream spec.
pub open spec fn members(v: Vec<AgentSpec>) -> Seq<(Seq<char>, bool)> {
    Seq::new(v@.len(), |i: int| (v[i].id@, v[i].disabled))
}

impl ASKit {
    /// The `(id, disabled)` of the agents of stream `id`, in order.
    pub closed spec fn stream_members(&self, id: Seq<char>) -> Seq<(Seq<char>, bool)> {
        members(self.streams[first_pos(self.stream_ids(), id)].spec.agents)
    }

    /// The spec of stream `id`.
    pub closed spec fn stream_spec(&self, id: Seq<char>) -> AgentStreamSpec {
        self.streams[first_pos(self.stream_ids(), id)].spec
    }

    /// The channels of stream `id`, as its spec lists them.
    pub closed spec fn stream_channels(&self, id: Seq<char>) -> Seq<crate::spec::ChannelModel> {
        crate::spec::channels_model(self.streams[first_pos(self.stream_ids(), id)].spec.channels)
    }

    /// The agent specs of stream `id`.
    pub closed spec fn stream_agents(&self, id: Seq<char>) -> Seq<crate::spec::AgentSpecModel> {
        crate::spec::agents_model(self.streams[first_pos(self.stream_ids(), id)].spec.agents)
    }

    pub open spec fn has_stream(&self, id: Seq<char>) -> bool {
        first_pos(self.stream_ids(), id) >= 0
    }

    fn member_list(&self, si: usize) -> (r: Vec<(String, bool)>)
        requires
            si < self.streams.len(),
        ensures
            Seq::new(r@.len(), |i: int| (r[i].0@, r[i].1)) == members(self.streams[si as int].spec.agents),
    {
        let agents = &self.streams[si].spec.agents;
        let mut out: Vec<(String, bool)> = Vec::new();
        let mut i: usize = 0;
        while i < agents.len()
            invariant
                i <= agents.len(),
                out.len() == i,
                forall|k: int| 0 <= k < i ==> (#[trigger] out[k]).0@ == agents[k].id@ && out[k].1 == agents[k].disabled,
            decreases agents.len() - i,
        {
            out.push((agents[i].id.clone(), agents[i].disabled));
            i = i + 1;
        }
        assert(Seq::new(out@.len(), |i: int| (out[i].0@, out[i].1)) =~= members(*agents));
        out
    }

    /// Starts every enabled agent of stream `id`, in order, and marks the
    /// stream running; the ids of the agents whose worker is to be started
    /// come back (see `to_start`). A running stream is left as it is. An
    /// agent that cannot be started is skipped. Fails with `StreamNotFound`.
    pub fn start_agent_stream(&mut self, id: &str) -> (r: Result<Vec<String>, AgentError>)
        requires
            old(self).wf(),
        ensures
            final(self).wf(),
            final(self).agent_ids() == old(self).agent_ids(),
            final(self).table() == old(self).table(),
            final(self).stream_ids() == old(self).stream_ids(),
            r is Err <==> !old(self).has_stream(id@),
            r is Err ==> r->Err_0 is StreamNotFound,
            r is Ok ==> final(self).has_stream(id@) && final(self).stream_running(id@),
            r is Ok ==> final(self).stream_members(id@) == old(self).stream_members(id@),
            r is Ok && old(self).stream_running(id@) ==> r->Ok_0@.len() == 0 && final(self).entries()
                == old(self).entries(),
            r is Ok && !old(self).stream_running(id@) ==> strings_model(r->Ok_0) == to_start(
                old(self).stream_members(id@),
                *old(self),
            ),
            r is Ok && !old(self).stream_running(id@) ==> forall|x: Seq<char>| #[trigger] final(self).has_agent(x)
                ==> final(self).agent(x) == (if to_start(old(self).stream_members(id@), *old(self)).contains(x) {
                with_status(old(self).agent(x), AgentStatus::Start)
            } else {
                old(self).agent(x)
            }),
    {
        let si = match self.find_stream(id) {
            Some(si) => si,
            None => {
                return Err(AgentError::StreamNotFound(owned(id)));
            },
        };
        if self.streams[si].running {
            let r: Vec<String> = Vec::new();
            return Ok(r);
        }
        let list = self.member_list(si);
        let ghost ms = members(self.streams[si as int].spec.agents);
        let ghost o = *old(self);
        let mut started: Vec<String> = Vec::new();
        let mut i: usize = 0;
        assert(ms.subrange(0, 0) =~= Seq::<(Seq<char>, bool)>::empty());
        assert(strings_model(started) =~= Seq::<Seq<char>>::empty());
        while i < list.len()
            invariant
                self.wf(),
                i <= list.len(),
                self.agent_ids() == o.agent_ids(),
                self.table() == o.table(),
                self.streams_view() == o.streams_view(),
                self.def_names() == o.def_names(),
                ms == Seq::new(list@.len(), |i: int| (list[i].0@, list[i].1)),
                strings_model(started) == to_start(ms.subrange(0, i as int), o),
                forall|x: Seq<char>| #[trigger] self.has_agent(x) ==> self.agent(x) == (if to_start(
                    ms.subrange(0, i as int),
                    o,
                ).contains(x) {
                    with_status(o.agent(x), AgentStatus::Start)
                } else {
                    o.agent(x)
                }),
            decreases list.len() - i,
        {
            let ghost sub = ms.subrange(0, i as int + 1);
            let ghost prev = to_start(ms.subrange(0, i as int), o);
            assert(sub.drop_last() =~= ms.subrange(0, i as int));
            assert(sub.last() == ms[i as int]);
            let ghost x = list[i as int].0@;
            assert(ms[i as int] == (x, list[i as int].1));
            if !list[i].1 {
                let ghost before = *self;
                let res = self.start_agent(list[i].0.as_str());
                proof {
                    if o.has_agent(x) {
                        assert(before.agent(x).spec == o.agent(x).spec);
                    }
                    if res is Err {
                        assert(self.agents@ == before.agents@);
                    }
                    assert(to_start(sub, o) == (if o.has_agent(x) && o.has_def(o.agent(x).spec.def_name@)
                        && o.status_of(x) == AgentStatus::Init && !prev.contains(x) { prev.push(x) } else { prev }));
                    assert((res == Ok::<bool, AgentError>(true)) == (o.has_agent(x) && o.has_def(o.agent(x).spec.def_name@)
                        && o.status_of(x) == AgentStatus::Init && !prev.contains(x)));
                }
                let push = match res {
                    Ok(b) => b,
                    Err(_) => false,
                };
                if push {
                    let ghost b0 = strings_model(started);
                    started.push(list[i].0.clone());
                    assert(strings_model(started) =~= b0.push(x));
                }
                proof {
                    let now = to_start(sub, o);
                    assert forall|y: Seq<char>| #[trigger] self.has_agent(y) implies self.agent(y) == (if now.contains(y) {
                        with_status(o.agent(y), AgentStatus::Start)
                    } else {
                        o.agent(y)
                    }) by {
                        assert(before.has_agent(y));
                        if y != x {
                            if res is Ok {
                                assert(self.agent(y) == before.agent(y));
                            } else {
                                assert(self.agents@ == before.agents@);
                            }
                            if push {
                                assert(now.contains(y) == prev.contains(y)) by {
                                    if now.contains(y) {
                                        let k = choose|k: int| 0 <= k < now.len() && now[k] == y;
                                        assert(k < prev.len());
                                        assert(prev[k] == y);
                                    }
                                    if prev.contains(y) {
                                        let k = choose|k: int| 0 <= k < prev.len() && prev[k] == y;
                                        assert(now[k] == y);
                                    }
                                }
                            }
                        } else {
                            if push {
                                assert(now[prev.len() as int] == x);
                            }
                        }
                    }
                }
            } else {
                assert(to_start(sub, o) == to_start(ms.subrange(0, i as int), o));
            }
            i = i + 1;
        }
        assert(ms.subrange(0, ms.len() as int) =~= ms);
        let ghost mid = *self;
        let mut st = self.streams.remove(si);
        st.running = true;
        self.streams.insert(si, st);
        proof {
            assert(self.stream_ids() =~= o.stream_ids());
            assert(self.streams[si as int].spec == o.streams[si as int].spec);
            assert(o.stream_members(id@) == ms);
            assert(self.agents == mid.agents);
            assert(self.agent_ids() == mid.agent_ids());
            assert forall|x: Seq<char>| #[trigger] self.has_agent(x) implies self.agent(x) == (if to_start(ms, o).contains(x) {
                with_status(o.agent(x), AgentStatus::Start)
            } else {
                o.agent(x)
            }) by {
                assert(mid.has_agent(x));
                assert(self.agent(x) == mid.agent(x));
            }
        }
        Ok(started)
    }

    /// Stops every running agent of stream `id` and marks the stream
    /// stopped; the ids of the agents whose worker is to be told to stop
    /// come back (see `to_stop`). Fails with `StreamNotFound`.
    pub fn stop_agent_stream(&mut self, id: &str) -> (r: Result<Vec<String>, AgentError>)
        requires
            old(self).wf(),
        ensures
            final(self).wf(),
            final(self).agent_ids() == old(self).agent_ids(),
            final(self).table() == old(self).table(),
            final(self).stream_ids() == old(self).stream_ids(),
            r is Err <==> !old(self).has_stream(id@),
            r is Err ==> r->Err_0 is StreamNotFound,
            r is Ok ==> final(self).has_stream(id@) && !final(self).stream_running(id@),
            r is Ok ==> final(self).stream_channels(id@) == old(self).stream_channels(id@),
            r is Ok ==> final(self).stream_members(id@) == old(self).stream_members(id@),
            r is Ok ==> strings_model(r->Ok_0) == to_stop(old(self).stream_members(id@), *old(self)),
            r is Ok ==> forall|x: Seq<char>| #[trigger] final(self).has_agent(x) ==> final(self).agent(x) == (if to_stop(
                old(self).stream_members(id@),
                *old(self),
            ).contains(x) {
                with_status(old(self).agent(x), AgentStatus::Init)
            } else {
                old(self).agent(x)
            }),
            r is Ok ==> forall|k: int| 0 <= k < old(self).stream_members(id@).len() && final(self).has_agent(
                old(self).stream_members(id@)[k].0,
            ) ==> #[trigger] final(self).status_of(old(self).stream_members(id@)[k].0) == AgentStatus::Init,
    {
        let si = match self.find_stream(id) {
            Some(si) => si,
            None => {
                return Err(AgentError::StreamNotFound(owned(id)));
            },
        };
        let list = self.member_list(si);
        let ghost ms = members(self.streams[si as int].spec.agents);
        let ghost o = *old(self);
        let mut stopped: Vec<String> = Vec::new();
        let mut i: usize = 0;
        assert(ms.subrange(0, 0) =~= Seq::<(Seq<char>, bool)>::empty());
        assert(strings_model(stopped) =~= Seq::<Seq<char>>::empty());
        while i < list.len()
            invariant
                self.wf(),
                i <= list.len(),
                self.agent_ids() == o.agent_ids(),
                self.table() == o.table(),
                self.streams_view() == o.streams_view(),
                self.def_names() == o.def_names(),
                ms == Seq::new(list@.len(), |i: int| (list[i].0@, list[i].1)),
                strings_model(stopped) == to_stop(ms.subrange(0, i as int), o),
                forall|x: Seq<char>| #[trigger] self.has_agent(x) ==> self.agent(x) == (if to_stop(
                    ms.subrange(0, i as int),
                    o,
                ).contains(x) {
                    with_status(o.agent(x), AgentStatus::Init)
                } else {
                    o.agent(x)
                }),
                forall|k: int| 0 <= k < i && self.has_agent(ms[k].0) ==> #[trigger] self.status_of(ms[k].0)
                    != AgentStatus::Start,
            decreases list.len() - i,
        {
            let ghost sub = ms.subrange(0, i as int + 1);
            let ghost prev = to_stop(ms.subrange(0, i as int), o);
            assert(sub.drop_last() =~= ms.subrange(0, i as int));
            assert(sub.last() == ms[i as int]);
            let ghost x = list[i as int].0@;
            assert(ms[i as int] == (x, list[i as int].1));
            let ghost before = *self;
            let res = self.stop_agent(list[i].0.as_str());
            proof {
                if res is Err {
                    assert(self.agents@ == before.agents@);
                }
                assert(to_stop(sub, o) == (if o.has_agent(x) && o.status_of(x) == AgentStatus::Start && !prev.contains(x) {
                    prev.push(x)
                } else {
                    prev
                }));
                assert((res == Ok::<bool, AgentError>(true)) == (o.has_agent(x) && o.status_of(x) == AgentStatus::Start
                    && !prev.contains(x)));
            }
            let push = match res {
                Ok(b) => b,
                Err(_) => false,
            };
            if push {
                let ghost b0 = strings_model(stopped);
                stopped.push(list[i].0.clone());
                assert(strings_model(stopped) =~= b0.push(x));
            }
            proof {
                let now = to_stop(sub, o);
                assert forall|y: Seq<char>| #[trigger] self.has_agent(y) implies self.agent(y) == (if now.contains(y) {
                    with_status(o.agent(y), AgentStatus::Init)
                } else {
                    o.agent(y)
                }) by {
                    assert(before.has_agent(y));
                    if y != x {
                        if res is Ok {
                            assert(self.agent(y) == before.agent(y));
                        } else {
                            assert(self.agents@ == before.agents@);
                        }
                        if push {
                            assert(now.contains(y) == prev.contains(y)) by {
                                if now.contains(y) {
                                    let k = choose|k: int| 0 <= k < now.len() && now[k] == y;
                                    assert(k < prev.len());
                                    assert(prev[k] == y);
                                }
                                if prev.contains(y) {
                                    let k = choose|k: int| 0 <= k < prev.len() && prev[k] == y;
                                    assert(now[k] == y);
                                }
                            }
                        }
                    } else {
                        if push {
                            assert(now[prev.len() as int] == x);
                        }
                    }
                }
                assert forall|k: int| 0 <= k < i + 1 && self.has_agent(ms[k].0) implies #[trigger] self.status_of(ms[k].0)
                    != AgentStatus::Start by {
                    if ms[k].0 != x {
                        assert(before.has_agent(ms[k].0));
                        assert(k < i);
                        assert(before.status_of(ms[k].0) != AgentStatus::Start);
                        if res is Ok {
                            assert(self.agent(ms[k].0) == before.agent(ms[k].0));
                        } else {
                            assert(self.agents@ == before.agents@);
                        }
                    } else if res is Ok && before.status_of(x) != AgentStatus::Start {
                        assert(self.agent(x) == before.agent(x));
                    } else if res is Err {
                        assert(self.agents@ == before.agents@);
                    }
                }
            }
            i = i + 1;
        }
        assert(ms.subrange(0, ms.len() as int) =~= ms);
        let ghost mid = *self;
        let mut st = self.streams.remove(si);
        st.running = false;
        self.streams.insert(si, st);
        proof {
            assert(self.stream_ids() =~= o.stream_ids());
            assert(self.streams[si as int].spec == o.streams[si as int].spec);
            assert(o.stream_members(id@) == ms);
            assert(self.agents == mid.agents);
            assert(self.agent_ids() == mid.agent_ids());
            assert forall|x: Seq<char>| #[trigger] self.has_agent(x) implies self.agent(x) == (if to_stop(ms, o).contains(x) {
                with_status(o.agent(x), AgentStatus::Init)
            } else {
                o.agent(x)
            }) by {
                assert(mid.has_agent(x));
                assert(self.agent(x) == mid.agent(x));
            }
            assert forall|k: int| 0 <= k < o.stream_members(id@).len() && self.has_agent(o.stream_members(id@)[k].0)
                implies #[trigger] self.status_of(o.stream_members(id@)[k].0) == AgentStatus::Init by {
                assert(o.stream_members(id@)[k] == ms[k]);
                assert(mid.has_agent(ms[k].0));
                assert(mid.status_of(ms[k].0) != AgentStatus::Start);
                assert(self.agent(ms[k].0) == mid.agent(ms[k].0));
                self.lemma_no_stop(ms[k].0);
            }
        }
        Ok(stopped)
    }

    /// Stops agent `id` if it runs and removes it with every channel from or
    /// to it. `true` when its worker is to be told to stop. Fails with
    /// `AgentNotFound`.
    pub fn remove_agent_internal(&mut self, id: &String) -> (r: Result<bool, AgentError>)
        requires
            old(self).wf(),
        ensures
            final(self).wf(),
            final(self).streams_view() == old(self).streams_view(),
            r is Err ==> final(self).agent_ids() == old(self).agent_ids(),
            r is Err <==> !old(self).has_agent(id@),
            r is Err ==> r->Err_0 is AgentNotFound,
            r is Ok ==> !final(self).has_agent(id@),
            r is Ok ==> r->Ok_0 == (old(self).status_of(id@) == AgentStatus::Start),
            r is Ok ==> list_for(final(self).table(), id@) == Seq::<Target>::empty(),
            r is Ok ==> forall|x: Seq<char>| x != id@ ==> #[trigger] list_for(final(self).table(), x)
                == crate::channels::drop_target(list_for(old(self).table(), x), id@),
            r is Ok ==> forall|x: Seq<char>| #[trigger] final(self).has_agent(x) <==> old(self).has_agent(x) && x != id@,
    {
        let was_running = match self.stop_agent(id.as_str()) {
            Ok(b) => b,
            Err(e) => {
                return Err(e);
            },
        };
        self.channels.remove_agent(id);
        let i = match self.find_agent(id.as_str()) {
            Some(i) => i,
            None => {
                return Err(AgentError::AgentNotFound(id.clone()));
            },
        };
        let ghost ids = self.agent_ids();
        self.agents.remove(i);
        proof {
            assert(self.agent_ids() =~= ids.remove(i as int));
            assert forall|a: int, b: int| 0 <= a < b < self.agent_ids().len() implies self.agent_ids()[a]
                != self.agent_ids()[b] by {
                let a2 = if a < i { a } else { a + 1 };
                let b2 = if b < i { b } else { b + 1 };
                assert(self.agent_ids()[a] == ids[a2] && self.agent_ids()[b] == ids[b2]);
            }
            assert forall|x: Seq<char>| #[trigger] self.has_agent(x) <==> old(self).has_agent(x) && x != id@ by {
                if self.has_agent(x) {
                    let k = choose|k: int| 0 <= k < self.agent_ids().len() && self.agent_ids()[k] == x;
                    let k2 = if k < i { k } else { k + 1 };
                    assert(ids[k2] == x);
                    assert(ids.contains(x));
                    if x == id@ {
                        assert(ids[i as int] == id@);
                    }
                }
                if old(self).has_agent(x) && x != id@ {
                    let k = choose|k: int| 0 <= k < ids.len() && ids[k] == x;
                    assert(k != i);
                    let k2 = if k < i { k } else { k - 1 };
                    assert(self.agent_ids()[k2] == x);
                }
            }
        }
        Ok(was_running)
    }
}

impl ASKit {
    fn unknown_def(&self, agents: &Vec<AgentSpec>) -> (r: Option<usize>)
        ensures
            r is None <==> forall|i: int| 0 <= i < agents@.len() ==> self.has_def(#[trigger] agents[i].def_name@),
            r is Some ==> r->0 < agents@.len() && !self.has_def(agents[r->0 as int].def_name@),
    {
        let mut i: usize = 0;
        while i < agents.len()
            invariant
                i <= agents.len(),
                forall|k: int| 0 <= k < i ==> self.has_def(#[trigger] agents[k].def_name@),
            decreases agents.len() - i,
        {
            if self.find_def(agents[i].def_name.as_str()).is_none() {
                return Some(i);
            }
            i = i + 1;
        }
        None
    }

    fn taken_id(&self, fresh: &Vec<AgentSpec>) -> (r: Option<usize>)
        requires
            self.wf(),
        ensures
            r is None <==> forall|i: int| 0 <= i < fresh@.len() ==> !self.has_agent(#[trigger] fresh[i].id@),
            r is Some ==> r->0 < fresh@.len(),
    {
        let mut i: usize = 0;
        while i < fresh.len()
            invariant
                self.wf(),
                i <= fresh.len(),
                forall|k: int| 0 <= k < i ==> !self.has_agent(#[trigger] fresh[k].id@),
            decreases fresh.len() - i,
        {
            if self.find_agent(fresh[i].id.as_str()).is_some() {
                return Some(i);
            }
            i = i + 1;
        }
        None
    }

    /// Installs a stream named `name` holding a copy of `spec` in which every
    /// agent has a fresh id and every channel follows its agents (see
    /// `copy_sub_stream`), and adds those agents and channels to the hub.
    /// Before anything is added it fails with `UnknownDefName` when an
    /// agent's definition is not registered, with `DuplicateId` when a
    /// minted id is already an agent id, and with
    /// `EmptySourceHandle` or `EmptyTargetHandle` for a copied channel with
    /// an empty pin; a failure leaves agents, channels and streams as they
    /// were. The new stream id comes back.
    pub fn add_agent_stream(&mut self, name: String, spec: AgentStreamSpec) -> (r: Result<String, AgentError>)
        requires
            old(self).wf(),
            old(self).id_room() > spec.agents@.len() + 1,
        ensures
            final(self).wf(),
            r is Err ==> final(self).entries() == old(self).entries() && final(self).table() == old(self).table()
                && final(self).streams_view() == old(self).streams_view() && final(self).agent_ids() == old(self).agent_ids(),
            r is Err ==> r->Err_0 is UnknownDefName || r->Err_0 is DuplicateId || r->Err_0 is EmptySourceHandle
                || r->Err_0 is EmptyTargetHandle,
            r is Ok <==> stream_copy_ok(*old(self), spec),
            r is Ok ==> r->Ok_0@ == crate::text::decimal((usize::MAX - old(self).id_room() + spec.agents@.len()) as nat),
            r is Ok ==> final(self).stream_ids() == old(self).stream_ids().push(r->Ok_0@)
                && final(self).stream_names() == old(self).stream_names().push(name@),
            r is Ok ==> final(self).agent_ids() == old(self).agent_ids() + minted_ids(
                (usize::MAX - old(self).id_room()) as nat,
                spec.agents@.len(),
            ),
            r is Ok ==> forall|x: Seq<char>| #[trigger] old(self).has_agent(x) ==> final(self).agent(x) == old(self).agent(x),
            r is Ok ==> final(self).stream_members(r->Ok_0@).len() == spec.agents@.len(),
            r is Ok ==> forall|i: int| 0 <= i < spec.agents@.len() ==> #[trigger] final(self).stream_members(r->Ok_0@)[i]
                == (crate::text::decimal((usize::MAX - old(self).id_room() + i) as nat), spec.agents[i].disabled),
            r is Ok ==> final(self).stream_channels(r->Ok_0@) == copied_of(*old(self), spec),
            r is Ok ==> forall|k: int| 0 <= k < copied_of(*old(self), spec).len() ==> holds(
                final(self).table(),
                #[trigger] copied_of(*old(self), spec)[k],
            ),
            r is Ok ==> !final(self).stream_running(r->Ok_0@),
    {
        let ghost o = *old(self);
        let ghost base = self.ids.next as nat;
        let ghost cc = copied_of(o, spec);
        let ghost n = spec.agents@.len();
        let (agents, channels) = copy_sub_stream(&spec.agents, &spec.channels, &mut self.ids);
        proof {
            lemma_minted_mono(self.stream_ids(), base, self.ids.next as nat);
            assert(self.agent_ids() == o.agent_ids());
            assert(self.def_names() == o.def_names());
            assert(base == (usize::MAX - o.id_room()) as nat);
            assert forall|k: int| 0 <= k < n implies (#[trigger] minted_ids(base, n)[k]) == agents[k].id@ by {}
        }
        match self.unknown_def(&spec.agents) {
            Some(i) => {
                return Err(AgentError::UnknownDefName(spec.agents[i].def_name.clone()));
            },
            None => {},
        }
        match self.taken_id(&agents) {
            Some(i) => {
                proof {
                    let k = choose|k: int| 0 <= k < agents@.len() && self.has_agent(#[trigger] agents[k].id@);
                    assert(minted_ids(base, n)[k] == agents[k].id@);
                    assert(!stream_copy_ok(o, spec));
                }
                return Err(AgentError::DuplicateId(agents[i].id.clone()));
            },
            None => {},
        }
        match empty_pin(&channels) {
            Some(e) => {
                proof {
                    assert(crate::spec::channels_model(channels) == cc);
                    let k = choose|k: int| 0 <= k < channels@.len() && ((#[trigger] channels[k]).source_handle@.len() == 0
                        || channels[k].target_handle@.len() == 0);
                    assert(cc[k] == channels[k]@);
                }
                return Err(e);
            },
            None => {},
        }
        proof {
            assert(crate::spec::channels_model(channels) == cc);
            assert forall|k: int| 0 <= k < n implies (#[trigger] minted_ids(base, n)[k]) == agents[k].id@ by {}
            assert forall|k: int| 0 <= k < cc.len() implies (#[trigger] cc[k]).1.len() > 0 && cc[k].3.len() > 0 by {
                assert(cc[k] == channels[k]@);
            }
            assert(stream_copy_ok(o, spec));
        }
        let ghost ids_before = self.agent_ids();
        let id = crate::id::new_id(&mut self.ids);
        assert(id@ == crate::text::decimal((base + n) as nat));
        proof {
            lemma_minted_mono(self.stream_ids(), base, self.ids.next as nat);
        }
        let mut i: usize = 0;
        while i < agents.len()
            invariant
                self.wf(),
                i <= agents.len(),
                agents@.len() == n,
                base + n + 1 == self.ids.next,
                self.streams_view() == o.streams_view(),
                self.table() == o.table(),
                self.def_names() == o.def_names(),
                o.wf(),
                self.agent_ids() == o.agent_ids() + minted_ids(base, n).subrange(0, i as int),
                forall|x: Seq<char>| #[trigger] o.has_agent(x) ==> self.agent(x) == o.agent(x),
                forall|k: int| 0 <= k < n ==> (#[trigger] agents[k])@ == (crate::spec::AgentSpecModel {
                    id: crate::text::decimal((base + k) as nat),
                    ..spec.agents[k]@
                }),
                forall|k: int| 0 <= k < n ==> self.has_def(#[trigger] spec.agents[k].def_name@),
                forall|k: int| 0 <= k < n ==> !o.has_agent(#[trigger] agents[k].id@),
            decreases agents.len() - i,
        {
            let ghost before = *self;
            let ghost x = agents[i as int].id@;
            proof {
                assert(x == crate::text::decimal((base + i) as nat));
                assert(!before.has_agent(x)) by {
                    if before.has_agent(x) {
                        let k = choose|k: int| 0 <= k < before.agent_ids().len() && before.agent_ids()[k] == x;
                        if k >= o.agent_ids().len() {
                            let j = k - o.agent_ids().len();
                            assert(minted_ids(base, n)[j] == crate::text::decimal((base + j) as nat));
                            crate::text::lemma_decimal_injective((base + j) as nat, (base + i) as nat);
                        } else {
                            assert(o.agent_ids()[k] == x);
                            assert(o.has_agent(agents[i as int].id@));
                        }
                    }
                }
                assert(agents[i as int].def_name@ == spec.agents[i as int].def_name@);
            }
            let res = self.add_agent_internal(id.clone(), agents[i].copy());
            proof {
                assert(res is Ok);
                assert(self.agent_ids() =~= o.agent_ids() + minted_ids(base, n).subrange(0, i as int + 1));
                assert forall|y: Seq<char>| #[trigger] o.has_agent(y) implies self.agent(y) == o.agent(y) by {
                    let k = choose|k: int| 0 <= k < o.agent_ids().len() && o.agent_ids()[k] == y;
                    assert(before.agent_ids()[k] == y);
                    assert(before.has_agent(y));
                }
            }
            i = i + 1;
        }
        assert(minted_ids(base, n).subrange(0, n as int) =~= minted_ids(base, n));
        let ghost agent_set = self.agent_ids();
        let mut c: usize = 0;
        while c < channels.len()
            invariant
                self.wf(),
                c <= channels.len(),
                self.streams_view() == o.streams_view(),
                self.agent_ids() == agent_set,
                agent_set == o.agent_ids() + minted_ids(base, n),
                self.entries() == self.entries(),
                forall|x: Seq<char>| #[trigger] o.has_agent(x) ==> self.agent(x) == o.agent(x),
                base + n + 1 == self.ids.next,
                cc == crate::spec::channels_model(channels),
                cc == copied_of(o, spec),
                base == (usize::MAX - o.id_room()) as nat,
                n == spec.agents@.len(),
                forall|k: int| 0 <= k < cc.len() ==> (#[trigger] cc[k]).1.len() > 0 && cc[k].3.len() > 0,
                forall|k: int| 0 <= k < c ==> holds(self.table(), #[trigger] cc[k]),
            decreases channels.len() - c,
        {
            let ghost before = *self;
            proof {
                crate::spec::lemma_copied_ends(
                    crate::spec::channels_model(spec.channels),
                    crate::spec::ids_of(crate::spec::agents_model(spec.agents)),
                    base,
                    c as int,
                );
                let j = choose|j: int| 0 <= j < crate::spec::ids_of(crate::spec::agents_model(spec.agents)).len()
                    && cc[c as int].0 == #[trigger] crate::text::decimal((base + j) as nat);
                assert(crate::spec::ids_of(crate::spec::agents_model(spec.agents)).len() == n);
                assert(minted_ids(base, n)[j] == crate::text::decimal((base + j) as nat));
                assert(agent_set[o.agent_ids().len() + j] == cc[c as int].0);
                assert(self.has_agent(cc[c as int].0));
                assert(cc[c as int] == channels[c as int]@);
            }
            let res = self.add_channel_internal(&channels[c]);
            proof {
                let t = (cc[c as int].2, cc[c as int].1, cc[c as int].3);
                if res is Ok {
                    let l = list_for(self.table(), cc[c as int].0);
                    assert(l[l.len() - 1] == t);
                }
                assert forall|k: int| 0 <= k < c + 1 implies holds(self.table(), #[trigger] cc[k]) by {
                    if k < c && res is Ok {
                        let tk = (cc[k].2, cc[k].1, cc[k].3);
                        assert(holds(before.table(), cc[k]));
                        if cc[k].0 == cc[c as int].0 {
                            let l0 = list_for(before.table(), cc[k].0);
                            let m = choose|m: int| 0 <= m < l0.len() && l0[m] == tk;
                            assert(list_for(self.table(), cc[k].0)[m] == tk);
                        }
                    }
                }
            }
            c = c + 1;
        }
        assert(self.stream_ids() =~= o.stream_ids());
        assert(self.stream_names() =~= o.stream_names());
        proof {
            lemma_minted_fresh(o.stream_ids(), base, base + n);
        }
        match self.find_stream(id.as_str()) {
            Some(k) => {
                proof {
                    assert(self.stream_ids()[k as int] == id@);
                    assert(o.stream_ids().contains(id@));
                }
                return Err(AgentError::DuplicateId(id));
            },
            None => {},
        }
        let ghost ids = self.stream_ids();
        let ghost names = self.stream_names();
        let ghost mid = *self;
        let stream = AgentStream {
            id: id.clone(),
            name,
            running: false,
            spec: AgentStreamSpec { agents, channels, run_on_start: spec.run_on_start, extensions: spec.extensions },
        };
        let ghost agents_now = stream.spec.agents;
        let ghost chans_now = stream.spec.channels;
        self.streams.push(stream);
        assert(self.stream_ids() =~= ids.push(id@));
        assert(self.stream_names() =~= names.push(name@));
        proof {
            assert(self.agents == mid.agents);
            assert(self.channels == mid.channels);
            lemma_minted_fresh(ids, base, base + n);
            lemma_first_pos_absent(ids, id@);
            assert forall|j: int| 0 <= j < ids.len() implies #[trigger] self.stream_ids()[j] != self.stream_ids()[ids.len() as int] by {
                assert(self.stream_ids()[j] == ids[j]);
                assert(ids.contains(ids[j]));
            }
            lemma_first_pos_at(self.stream_ids(), ids.len() as int);
            assert(self.streams[ids.len() as int].spec.agents == agents_now);
            assert forall|k: int| 0 <= k < n implies #[trigger] members(agents_now)[k]
                == (crate::text::decimal((base + k) as nat), spec.agents[k].disabled) by {
                assert(agents_now[k]@.id == crate::text::decimal((base + k) as nat));
            }
            assert(has_mint(id@, self.ids.next as nat));
            assert forall|k: int| 0 <= k < self.stream_ids().len() implies #[trigger] has_mint(self.stream_ids()[k], self.ids.next as nat) by {
                if k < ids.len() {
                    assert(self.stream_ids()[k] == ids[k]);
                }
            }
        }
        Ok(id)
    }

    /// Creates an empty stream under a valid name, made unique among the
    /// stream names (see `is_unique_name`). Fails with `InvalidStreamName`
    /// when the name is not valid.
    pub fn new_agent_stream(&mut self, name: &str) -> (r: Result<String, AgentError>)
        requires
            old(self).wf(),
            old(self).id_room() > 1,
            old(self).stream_names().len() + 3 <= usize::MAX,
        ensures
            final(self).wf(),
            !valid_stream_name(name@) ==> r is Err && r->Err_0 is InvalidStreamName
                && final(self).stream_names() == old(self).stream_names(),
            valid_stream_name(name@) ==> r is Ok,
            r is Ok ==> exists|u: Seq<char>| #[trigger] is_unique_name(u, name@, old(self).stream_names())
                && final(self).stream_names() == old(self).stream_names().push(u),
            r is Ok ==> final(self).stream_ids() == old(self).stream_ids().push(r->Ok_0@),
            r is Ok ==> final(self).stream_members(r->Ok_0@).len() == 0
                && final(self).stream_channels(r->Ok_0@).len() == 0 && !final(self).stream_running(r->Ok_0@),
            final(self).agent_ids() == old(self).agent_ids(),
    {
        if !is_valid_stream_name(name) {
            return Err(AgentError::InvalidStreamName(owned(name)));
        }
        let new_name = self.unique_stream_name(name);
        let ghost u = new_name@;
        let spec = AgentStreamSpec { agents: Vec::new(), channels: Vec::new(), run_on_start: false, extensions: Vec::new() };
        proof {
            let cc = copied_of(*self, spec);
            assert(crate::spec::channels_model(spec.channels) =~= Seq::<crate::spec::ChannelModel>::empty());
            assert(cc.len() == 0);
            assert(stream_copy_ok(*self, spec));
        }
        let r = self.add_agent_stream(new_name, spec);
        proof {
            if r is Ok {
                assert(is_unique_name(u, name@, old(self).stream_names()));
                assert(minted_ids((usize::MAX - old(self).id_room()) as nat, 0) =~= Seq::<Seq<char>>::empty());
                assert(self.agent_ids() =~= old(self).agent_ids());
            }
        }
        r
    }

    /// What stream `id` reports of itself.
    pub fn get_agent_stream_info(&self, id: &str) -> (r: Option<AgentStreamInfo>)
        ensures
            r is Some <==> self.has_stream(id@),
            r is Some ==> r->0.id@ == id@ && r->0.running == self.stream_running(id@),
    {
        match self.find_stream(id) {
            Some(i) => {
                let st = &self.streams[i];
                Some(AgentStreamInfo {
                    id: st.id.clone(),
                    name: st.name.clone(),
                    running: st.running,
                    run_on_start: st.spec.run_on_start,
                })
            },
            None => None,
        }
    }

    /// Adds agent `spec` to stream `stream_id` and to the hub. Fails with
    /// `StreamNotFound`, or as `add_agent_internal` does.
    pub fn add_agent(&mut self, stream_id: &str, spec: AgentSpec) -> (r: Result<(), AgentError>)
        requires
            old(self).wf(),
        ensures
            final(self).wf(),
            !old(self).has_stream(stream_id@) ==> r is Err && r->Err_0 is StreamNotFound,
            r is Ok <==> old(self).has_stream(stream_id@) && !old(self).has_agent(spec.id@) && old(self).has_def(spec.def_name@),
            r is Ok ==> final(self).agent_ids() == old(self).agent_ids().push(spec.id@)
                && final(self).status_of(spec.id@) == AgentStatus::Init
                && final(self).stream_members(stream_id@) == old(self).stream_members(stream_id@).push((spec.id@, spec.disabled)),
    {
        let si = match self.find_stream(stream_id) {
            Some(si) => si,
            None => {
                return Err(AgentError::StreamNotFound(owned(stream_id)));
            },
        };
        let copy = spec.copy();
        let ghost before = *self;
        match self.add_agent_internal(owned(stream_id), spec) {
            Ok(()) => {},
            Err(e) => {
                return Err(e);
            },
        }
        let ghost mid = *self;
        let mut st = self.streams.remove(si);
        let ghost old_agents = st.spec.agents;
        st.spec.agents.push(copy);
        self.streams.insert(si, st);
        proof {
            assert(self.stream_ids() =~= before.stream_ids());
            assert(members(self.streams[si as int].spec.agents) =~= members(old_agents).push((copy.id@, copy.disabled)));
            assert(self.agent_ids() == mid.agent_ids());
            assert(self.agents == mid.agents);
        }
        Ok(())
    }

    /// Adds `channel` to stream `stream_id` and to the channel table. Fails
    /// with `StreamNotFound`, or as `add_channel_internal` does, and then
    /// changes nothing.
    pub fn add_channel(&mut self, stream_id: &str, channel: ChannelSpec) -> (r: Result<(), AgentError>)
        requires
            old(self).wf(),
        ensures
            final(self).wf(),
            final(self).agent_ids() == old(self).agent_ids(),
            final(self).entries() == old(self).entries(),
            final(self).stream_ids() == old(self).stream_ids(),
            !old(self).has_stream(stream_id@) ==> r is Err && r->Err_0 is StreamNotFound,
            old(self).has_stream(stream_id@) && !old(self).has_agent(channel.source@) ==> r is Err
                && r->Err_0 is SourceAgentNotFound,
            old(self).has_stream(stream_id@) && old(self).has_agent(channel.source@) && channel.source_handle@.len()
                == 0 ==> r is Err && r->Err_0 is EmptySourceHandle,
            old(self).has_stream(stream_id@) && old(self).has_agent(channel.source@) && channel.source_handle@.len()
                > 0 && channel.target_handle@.len() == 0 ==> r is Err && r->Err_0 is EmptyTargetHandle,
            old(self).has_stream(stream_id@) && old(self).has_agent(channel.source@) && channel.source_handle@.len()
                > 0 && channel.target_handle@.len() > 0 && holds(old(self).table(), channel@) ==> r is Err
                && r->Err_0 is ChannelAlreadyExists,
            r is Ok <==> old(self).has_stream(stream_id@) && old(self).has_agent(channel.source@)
                && channel.source_handle@.len() > 0 && channel.target_handle@.len() > 0 && !holds(old(self).table(), channel@),
            r is Err ==> final(self).table() == old(self).table() && final(self).streams_view() == old(self).streams_view(),
            r is Ok ==> crate::channels::changed_only(
                final(self).table(),
                old(self).table(),
                channel.source@,
                list_for(old(self).table(), channel.source@).push(
                    (channel.target@, channel.source_handle@, channel.target_handle@),
                ),
            ),
            r is Ok ==> final(self).stream_channels(stream_id@) == old(self).stream_channels(stream_id@).push(channel@),
            r is Ok ==> final(self).stream_members(stream_id@) == old(self).stream_members(stream_id@),
    {
        let si = match self.find_stream(stream_id) {
            Some(si) => si,
            None => {
                return Err(AgentError::StreamNotFound(owned(stream_id)));
            },
        };
        match self.add_channel_internal(&channel) {
            Ok(()) => {},
            Err(e) => {
                assert(self.stream_ids() =~= old(self).stream_ids());
                return Err(e);
            },
        }
        let ghost ids = self.stream_ids();
        let ghost before = crate::spec::channels_model(self.streams[si as int].spec.channels);
        let ghost cm = channel@;
        let mut st = self.streams.remove(si);
        st.spec.channels.push(channel);
        self.streams.insert(si, st);
        assert(self.stream_ids() =~= ids);
        assert(crate::spec::channels_model(self.streams[si as int].spec.channels) =~= before.push(cm));
        Ok(())
    }
}

/// A channel with source pin `*` delivers whatever pin the source emits on;
/// with target pin `*` as well, the pin passes through unchanged.
pub proof fn law_wildcard_delivery(target: Seq<char>, tp: Seq<char>, pin: Seq<char>, present: spec_fn(Seq<char>) -> bool)
    requires
        present(target),
    ensures
        route(seq![(target, wildcard(), tp)], pin, present) == seq![(target, if tp == wildcard() { pin } else { tp })],
        route(seq![(target, wildcard(), wildcard())], pin, present) == seq![(target, pin)],
{
    let l1 = seq![(target, wildcard(), tp)];
    let l2 = seq![(target, wildcard(), wildcard())];
    assert(l1.drop_last() =~= Seq::<Target>::empty());
    assert(l2.drop_last() =~= Seq::<Target>::empty());
    assert(route(Seq::<Target>::empty(), pin, present) == Seq::<(Seq<char>, Seq<char>)>::empty());
    assert(l1.last() == (target, wildcard(), tp));
    assert(l2.last() == (target, wildcard(), wildcard()));
    assert(route(l1, pin, present) =~= seq![(target, if tp == wildcard() { pin } else { tp })]);
    assert(route(l2, pin, present) =~= seq![(target, pin)]);
}

/// A channel A→B on pin `p` delivers a value emitted on `p` to B, under the
/// target pin (or `p` for `*`), when B exists; when B does not exist
/// nothing is delivered.
pub proof fn law_routing(target: Seq<char>, p: Seq<char>, tp: Seq<char>, present: spec_fn(Seq<char>) -> bool)
    ensures
        present(target) ==> route(seq![(target, p, tp)], p, present) == seq![(target, if tp == wildcard() { p } else { tp })],
        !present(target) ==> route(seq![(target, p, tp)], p, present) == Seq::<(Seq<char>, Seq<char>)>::empty(),
{
    let l = seq![(target, p, tp)];
    assert(l.drop_last() =~= Seq::<Target>::empty());
    assert(route(Seq::<Target>::empty(), p, present) == Seq::<(Seq<char>, Seq<char>)>::empty());
    if present(target) {
        assert(route(l, p, present) =~= seq![(target, if tp == wildcard() { p } else { tp })]);
    }
}

/// A value written to a board reaches every target of every subscriber of
/// that board, under the board name where the target pin is `*`.
pub proof fn law_board_reaches_subscribers(subs: Seq<Seq<char>>, t: Table, name: Seq<char>, k: int, j: int)
    requires
        0 <= k < subs.len(),
        0 <= j < list_for(t, subs[k]).len(),
    ensures
        board_route(subs, t, name).contains(pins_to(list_for(t, subs[k]), name)[j]),
    decreases subs.len(),
{
    let l = list_for(t, subs[k]);
    if k == subs.len() - 1 {
        let prev = board_route(subs.drop_last(), t, name);
        let b = board_route(subs, t, name);
        assert(b[prev.len() + j] == pins_to(l, name)[j]);
    } else {
        let d = subs.drop_last();
        assert(d[k] == subs[k]);
        law_board_reaches_subscribers(d, t, name, k, j);
        let prev = board_route(d, t, name);
        let x = pins_to(l, name)[j];
        let m = choose|m: int| 0 <= m < prev.len() && prev[m] == x;
        assert(board_route(subs, t, name)[m] == x);
    }
}

impl ASKit {
    /// A hub with the built-in board definitions and then `defs` registered,
    /// in that order. A given definition whose name nothing else carries is
    /// stored as it is, with its global config entries as the global
    /// configs of its name.
    pub fn init(defs: Vec<AgentDefinition>) -> (r: Self)
        ensures
            r.wf(),
            r.def_names() == registered(
                crate::board_agent::builtin_names() + Seq::new(defs@.len(), |i: int| defs[i].name@),
            ),
            r.agent_ids().len() == 0,
            r.table().len() == 0,
            forall|i: int| 0 <= i < defs@.len() && only_carrier(defs@, i) ==> r.def_named(#[trigger] defs[i].name@) == defs[i]
                && r.global_for(defs[i].name@) == seeded(defs[i]),
    {
        let mut hub = ASKit::new();
        let mut all = crate::board_agent::board_definitions();
        let ghost b = Seq::new(all@.len(), |i: int| all[i].name@);
        assert(b =~= crate::board_agent::builtin_names());
        let ghost d = Seq::new(defs@.len(), |i: int| defs[i].name@);
        let ghost given = defs@;
        let mut given_vec = defs;
        all.append(&mut given_vec);
        let ghost allg = all@;
        let ghost ns = Seq::new(all@.len(), |i: int| all[i].name@);
        assert(ns =~= b + d);
        let ghost total = all@.len();
        assert(allg.len() == 4 + given.len());
        assert forall|i: int| 0 <= i < given.len() implies allg[4 + i] == #[trigger] given[i] by {}
        assert(ns.subrange(0, 0) =~= Seq::<Seq<char>>::empty());
        assert(hub.def_names() =~= registered(Seq::<Seq<char>>::empty()));
        assert forall|x: Seq<char>| #[trigger] hub.global_for(x) is None by {
            assert(hub.globals() =~= Seq::<(Seq<char>, Seq<(Seq<char>, Value)>)>::empty());
            assert(first_for(Seq::<(Seq<char>, Seq<(Seq<char>, Value)>)>::empty(), x) is None);
        }
        while all.len() > 0
            invariant
                hub.wf(),
                hub.agent_ids().len() == 0,
                hub.table().len() == 0,
                all@.len() <= total,
                total == ns.len(),
                total == allg.len(),
                allg.len() == 4 + given.len(),
                forall|i: int| 0 <= i < given.len() ==> allg[4 + i] == #[trigger] given[i],
                forall|k: int| 0 <= k < total ==> ns[k] == (#[trigger] allg[k]).name@,
                forall|k: int| 0 <= k < 4 ==> ns[k] == #[trigger] crate::board_agent::builtin_names()[k],
                forall|k: int| 0 <= k < all@.len() ==> (#[trigger] all[k]) == allg[total - all@.len() + k],
                hub.def_names() == registered(ns.subrange(0, total - all@.len())),
                forall|k: int| 0 <= k < total - all@.len() ==> hub.has_def(#[trigger] ns[k]),
                forall|x: Seq<char>| !ns.subrange(0, total - all@.len()).contains(x) ==> #[trigger] hub.global_for(x) is None,
                forall|i: int| 0 <= i < given.len() && 4 + i < total - all@.len() && only_carrier(given, i)
                    ==> hub.def_named(#[trigger] given[i].name@) == given[i] && hub.global_for(given[i].name@) == seeded(given[i]),
            decreases all.len(),
        {
            let ghost done = total - all@.len();
            let ghost before = all@;
            let ghost h0 = hub;
            let d0 = all.remove(0);
            assert(d0 == allg[done]);
            assert(d0.name@ == ns[done]);
            assert forall|k: int| 0 <= k < all@.len() implies (#[trigger] all[k]) == allg[total - all@.len() + k] by {
                assert(all[k] == before[k + 1]);
            }
            let ghost pre = ns.subrange(0, done);
            hub.register_agent_definiton(d0);
            let ghost sub = ns.subrange(0, done + 1);
            assert(sub.drop_last() =~= pre);
            assert(sub.last() == ns[done]);
            proof {
                assert(hub.def_names() == register_name(h0.def_names(), ns[done]));
                assert forall|k: int| 0 <= k < done + 1 implies hub.has_def(#[trigger] ns[k]) by {
                    if k < done {
                        assert(h0.has_def(ns[k]));
                        let j = choose|j: int| 0 <= j < h0.def_names().len() && h0.def_names()[j] == ns[k];
                        if !h0.def_names().contains(ns[done]) {
                            assert(h0.def_names().push(ns[done])[j] == ns[k]);
                        }
                    } else {
                        assert(register_name(h0.def_names(), ns[done]).contains(ns[done])) by {
                            if !h0.def_names().contains(ns[done]) {
                                assert(h0.def_names().push(ns[done])[h0.def_names().len() as int] == ns[done]);
                            }
                        }
                    }
                }
                assert forall|x: Seq<char>| !sub.contains(x) implies #[trigger] hub.global_for(x) is None by {
                    if pre.contains(x) {
                        let k = choose|k: int| 0 <= k < pre.len() && pre[k] == x;
                        assert(sub[k] == x);
                    }
                    assert(x != ns[done]) by {
                        assert(sub[done] == ns[done]);
                    }
                }
                assert forall|i: int| 0 <= i < given.len() && 4 + i < done + 1 && only_carrier(given, i)
                    implies hub.def_named(#[trigger] given[i].name@) == given[i] && hub.global_for(given[i].name@) == seeded(given[i]) by {
                    if 4 + i < done {
                        assert(ns[4 + i] == given[i].name@);
                        if done < 4 {
                            assert(ns[done] == crate::board_agent::builtin_names()[done]);
                        } else {
                            assert(allg[done] == given[done - 4]);
                            assert(done - 4 != i);
                        }
                        assert(ns[done] != given[i].name@);
                        assert(h0.has_def(ns[4 + i]));
                    } else {
                        assert(given[i] == d0);
                        assert(!pre.contains(given[i].name@)) by {
                            if pre.contains(given[i].name@) {
                                let k = choose|k: int| 0 <= k < pre.len() && pre[k] == given[i].name@;
                                if k < 4 {
                                    assert(ns[k] == crate::board_agent::builtin_names()[k]);
                                    assert(crate::board_agent::builtin_names().contains(given[i].name@));
                                } else {
                                    assert(allg[k] == given[k - 4]);
                                    assert(given[k - 4].name@ == given[i].name@);
                                }
                            }
                        }
                        assert(h0.global_for(given[i].name@) is None);
                    }
                }
            }
        }
        assert(ns.subrange(0, total as int) =~= ns);
        assert forall|i: int| 0 <= i < defs@.len() && only_carrier(defs@, i) implies hub.def_named(#[trigger] defs[i].name@) == defs[i]
            && hub.global_for(defs[i].name@) == seeded(defs[i]) by {
            assert(given[i] == defs[i]);
        }
        hub
    }
}

impl ASKit {
    /// Copies agents and channels under ids minted by the hub: see
    /// `copy_sub_stream`.
    pub fn copy_sub_stream(&mut self, agents: &Vec<AgentSpec>, channels: &Vec<ChannelSpec>) -> (r: (
        Vec<AgentSpec>,
        Vec<ChannelSpec>,
    ))
        requires
            old(self).wf(),
            old(self).id_room() > agents@.len(),
        ensures
            final(self).wf(),
            r.0@.len() == agents@.len(),
            forall|i: int| 0 <= i < agents@.len() ==> (#[trigger] r.0[i])@ == (crate::spec::AgentSpecModel {
                id: crate::text::decimal((usize::MAX - old(self).id_room() + i) as nat),
                ..agents[i]@
            }),
            crate::spec::channels_model(r.1) == crate::spec::copied_channels(
                crate::spec::channels_model(*channels),
                crate::spec::ids_of(crate::spec::agents_model(*agents)),
                (usize::MAX - old(self).id_room()) as nat,
            ),
            final(self).agent_ids() == old(self).agent_ids(),
            final(self).table() == old(self).table(),
            final(self).id_room() == old(self).id_room() - agents@.len(),
    {
        let r = copy_sub_stream(agents, channels, &mut self.ids);
        proof {
            lemma_minted_mono(self.stream_ids(), old(self).ids.next as nat, self.ids.next as nat);
        }
        r
    }
}

impl ASKit {
    /// The spec of stream `id`.
    pub fn get_agent_stream_spec(&self, id: &str) -> (r: Option<&AgentStreamSpec>)
        ensures
            r is Some <==> self.has_stream(id@),
            r is Some ==> members(r->0.agents) == self.stream_members(id@),
    {
        match self.find_stream(id) {
            Some(i) => Some(&self.streams[i].spec),
            None => None,
        }
    }

    /// What every stream reports of itself, in order.
    pub fn get_agent_stream_infos(&self) -> (r: Vec<AgentStreamInfo>)
        ensures
            Seq::new(r@.len(), |i: int| r[i].id@) == self.stream_ids(),
            Seq::new(r@.len(), |i: int| r[i].name@) == self.stream_names(),
            r@.len() == self.streams_view().len(),
            forall|i: int| 0 <= i < r@.len() ==> (#[trigger] r[i]).running == self.streams_view()[i].running
                && r[i].run_on_start == self.streams_view()[i].spec.run_on_start,
    {
        let mut out: Vec<AgentStreamInfo> = Vec::new();
        let mut i: usize = 0;
        while i < self.streams.len()
            invariant
                i <= self.streams.len(),
                out.len() == i,
                forall|k: int| 0 <= k < i ==> (#[trigger] out[k]).id@ == self.streams[k].id@ && out[k].name@
                    == self.streams[k].name@ && out[k].running == self.streams[k].running
                    && out[k].run_on_start == self.streams[k].spec.run_on_start,
            decreases self.streams.len() - i,
        {
            let st = &self.streams[i];
            out.push(AgentStreamInfo {
                id: st.id.clone(),
                name: st.name.clone(),
                running: st.running,
                run_on_start: st.spec.run_on_start,
            });
            i = i + 1;
        }
        assert(Seq::new(out@.len(), |i: int| out[i].id@) =~= self.stream_ids());
        assert(Seq::new(out@.len(), |i: int| out[i].name@) =~= self.stream_names());
        out
    }
}

impl ASKit {
    /// The spec of agent `id`.
    pub fn get_agent_spec(&self, id: &str) -> (r: Option<&AgentSpec>)
        requires
            self.wf(),
        ensures
            r is Some <==> self.has_agent(id@),
            r is Some ==> *r->0 == self.agent(id@).spec,
    {
        match self.find_agent(id) {
            Some(i) => Some(&self.agents[i].spec),
            None => None,
        }
    }

    /// The last value written to board `name`.
    pub fn get_board_value(&self, name: &str) -> (r: Option<&AgentValue>)
        ensures
            r is Some <==> crate::value::lookup(self.boards(), name@) is Some,
            r is Some ==> crate::value::lookup(self.boards(), name@) == Some(r->0@),
    {
        let ghost m = self.boards();
        assert(m.subrange(0, m.len() as int) =~= m);
        let mut i: usize = 0;
        while i < self.board_value.len()
            invariant
                m == self.boards(),
                i <= self.board_value.len(),
                crate::value::lookup(m, name@) == crate::value::lookup(m.subrange(i as int, m.len() as int), name@),
            decreases self.board_value.len() - i,
        {
            let ghost rest = m.subrange(i as int, m.len() as int);
            assert(rest[0] == m[i as int]);
            if str_eq(self.board_value[i].0.as_str(), name) {
                return Some(&self.board_value[i].1);
            }
            assert(rest.drop_first() =~= m.subrange(i + 1, m.len() as int));
            i = i + 1;
        }
        None
    }

    /// Stores `value` under `key` in the configs of agent `id`. Fails with
    /// `AgentNotFound`, or with `NoConfig` when its spec has no configs.
    pub fn set_agent_config(&mut self, id: &str, key: String, value: AgentValue) -> (r: Result<(), AgentError>)
        requires
            old(self).wf(),
        ensures
            final(self).wf(),
            final(self).agent_ids() == old(self).agent_ids(),
            final(self).table() == old(self).table(),
            final(self).others_unchanged(old(self), id@),
            !old(self).has_agent(id@) ==> r is Err && r->Err_0 is AgentNotFound,
            old(self).has_agent(id@) && old(self).configs_of(id@) is None ==> r is Err && r->Err_0 is NoConfig,
            r is Ok <==> old(self).has_agent(id@) && old(self).configs_of(id@) is Some,
            r is Err ==> final(self).entries() == old(self).entries(),
            r is Ok ==> final(self).configs_of(id@) == Some(put(old(self).configs_of(id@)->0, key@, value@))
                && final(self).status_of(id@) == old(self).status_of(id@),
    {
        let i = match self.find_agent(id) {
            Some(i) => i,
            None => {
                return Err(AgentError::AgentNotFound(owned(id)));
            },
        };
        if self.agents[i].spec.configs.is_none() {
            return Err(AgentError::NoConfig);
        }
        let mut e = self.agents.remove(i);
        match e.spec.configs {
            Some(mut c) => {
                c.set(key, value);
                e.spec.configs = Some(c);
            },
            None => {},
        }
        self.agents.insert(i, e);
        proof {
            assert(self.agent_ids() =~= old(self).agent_ids());
            old(self).agent_ids().index_of_first_ensures(id@);
            assert forall|x: Seq<char>| #[trigger] self.has_agent(x) && x != id@ implies self.agent(x) == old(self).agent(x) by {
                old(self).agent_ids().index_of_first_ensures(x);
            }
        }
        Ok(())
    }

    /// Replaces the configs of agent `id`: at once when it is not running,
    /// through its mailbox when it is (the message comes back). Fails with
    /// `AgentNotFound`.
    pub fn set_agent_configs(&mut self, id: &str, configs: AgentConfigs) -> (r: Result<Option<AgentMessage>, AgentError>)
        requires
            old(self).wf(),
        ensures
            final(self).wf(),
            final(self).agent_ids() == old(self).agent_ids(),
            final(self).table() == old(self).table(),
            final(self).others_unchanged(old(self), id@),
            r is Err <==> !old(self).has_agent(id@),
            r is Err ==> r->Err_0 is AgentNotFound,
            r is Ok && old(self).status_of(id@) == AgentStatus::Start ==> (r->Ok_0 matches Some(
                AgentMessage::Configs { configs: c },
            ) && c@ == configs@) && final(self).entries() == old(self).entries(),
            r is Ok && old(self).status_of(id@) != AgentStatus::Start ==> r->Ok_0 is None
                && final(self).configs_of(id@) == Some(configs@)
                && final(self).status_of(id@) == old(self).status_of(id@),
    {
        let i = match self.find_agent(id) {
            Some(i) => i,
            None => {
                return Err(AgentError::AgentNotFound(owned(id)));
            },
        };
        if self.agents[i].status == AgentStatus::Start {
            return Ok(Some(AgentMessage::Configs { configs }));
        }
        let mut e = self.agents.remove(i);
        e.spec.configs = Some(configs);
        self.agents.insert(i, e);
        proof {
            assert(self.agent_ids() =~= old(self).agent_ids());
            old(self).agent_ids().index_of_first_ensures(id@);
            assert forall|x: Seq<char>| #[trigger] self.has_agent(x) && x != id@ implies self.agent(x) == old(self).agent(x) by {
                old(self).agent_ids().index_of_first_ensures(x);
            }
        }
        Ok(None)
    }

    /// The config entries of definition `def_name`.
    pub fn get_agent_config_specs(&self, def_name: &str) -> (r: Option<&Vec<(String, crate::definition::AgentConfigEntry)>>)
        requires
            self.wf(),
        ensures
            r is Some <==> self.has_def(def_name@) && self.def_named(def_name@).configs is Some,
            r is Some ==> *r->0 == self.def_named(def_name@).configs->0,
    {
        match self.find_def(def_name) {
            Some(i) => {
                proof {
                    assert(self.def_names()[i as int] == def_name@);
                    self.def_names().index_of_first_ensures(def_name@);
                    let k = self.def_names().index_of(def_name@);
                    assert(self.def_names().contains(def_name@));
                    assert(k == i as int) by {
                        if k != i as int {
                            assert(self.def_names()[k] == self.def_names()[i as int]);
                        }
                    }
                }
                match &self.defs[i].configs {
                    Some(c) => Some(c),
                    None => None,
                }
            },
            None => None,
        }
    }

    /// The ids of the streams that run, in order.
    pub fn get_running_agent_streams(&self) -> (r: Vec<String>)
        ensures
            strings_model(r) == selected_streams(self.streams_view(), true),
    {
        self.stream_ids_where(true)
    }

    /// The ids of the streams to start when the hub gets ready, in order.
    pub fn run_on_start_streams(&self) -> (r: Vec<String>)
        ensures
            strings_model(r) == selected_streams(self.streams_view(), false),
    {
        self.stream_ids_where(false)
    }

    fn stream_ids_where(&self, running: bool) -> (r: Vec<String>)
        ensures
            strings_model(r) == selected_streams(self.streams@, running),
    {
        let ghost all = self.streams@;
        let mut out: Vec<String> = Vec::new();
        let mut i: usize = 0;
        assert(all.subrange(0, 0) =~= Seq::<AgentStream>::empty());
        assert(strings_model(out) =~= Seq::<Seq<char>>::empty());
        while i < self.streams.len()
            invariant
                i <= self.streams.len(),
                all == self.streams@,
                strings_model(out) == selected_streams(all.subrange(0, i as int), running),
            decreases self.streams.len() - i,
        {
            let ghost sub = all.subrange(0, i as int + 1);
            assert(sub.drop_last() =~= all.subrange(0, i as int));
            assert(sub.last() == self.streams[i as int]);
            let pick = if running { self.streams[i].running } else { self.streams[i].spec.run_on_start };
            if pick {
                let ghost before = strings_model(out);
                out.push(self.streams[i].id.clone());
                assert(strings_model(out) =~= before.push(self.streams[i as int].id@));
            }
            i = i + 1;
        }
        assert(all.subrange(0, all.len() as int) =~= all);
        out
    }
}

/// Ids of the streams that run (`running`) or that start with the hub.
pub open spec fn selected_streams(streams: Seq<AgentStream>, running: bool) -> Seq<Seq<char>>
    decreases streams.len(),
{
    if streams.len() == 0 {
        Seq::empty()
    } else {
        let prev = selected_streams(streams.drop_last(), running);
        let st = streams.last();
        if (if running { st.running } else { st.spec.run_on_start }) {
            prev.push(st.id@)
        } else {
            prev
        }
    }
}

impl ASKit {
    /// Stops stream `id`, removes its agents with their channels and its
    /// channels, then the stream itself; the ids of the agents whose worker
    /// is to be told to stop come back. Fails with `StreamNotFound`.
    pub fn remove_agent_stream(&mut self, id: &str) -> (r: Result<Vec<String>, AgentError>)
        requires
            old(self).wf(),
        ensures
            final(self).wf(),
            r is Err <==> !old(self).has_stream(id@),
            r is Err ==> r->Err_0 is StreamNotFound,
            r is Ok ==> strings_model(r->Ok_0) == to_stop(old(self).stream_members(id@), *old(self)),
            r is Ok ==> final(self).stream_ids() == old(self).stream_ids().remove(first_pos(old(self).stream_ids(), id@)),
            r is Ok ==> forall|k: int| 0 <= k < old(self).stream_channels(id@).len()
                ==> !holds(final(self).table(), #[trigger] old(self).stream_channels(id@)[k]),
            r is Ok ==> forall|k: int| 0 <= k < old(self).stream_members(id@).len()
                ==> !final(self).has_agent(#[trigger] old(self).stream_members(id@)[k].0),
    {
        let stopped = match self.stop_agent_stream(id) {
            Ok(v) => v,
            Err(e) => {
                return Err(e);
            },
        };
        let si = match self.find_stream(id) {
            Some(si) => si,
            None => {
                return Err(AgentError::StreamNotFound(owned(id)));
            },
        };
        let ghost o = *old(self);
        let ghost ids0 = self.stream_ids();
        assert(ids0 == o.stream_ids());
        let ghost ms = self.stream_members(id@);
        assert(ms == members(self.streams[si as int].spec.agents));
        assert(self.stream_channels(id@) == crate::spec::channels_model(self.streams[si as int].spec.channels));
        let ghost nx = self.ids.next as nat;
        let st = self.streams.remove(si);
        assert(ms == o.stream_members(id@));
        proof {
            assert(self.stream_ids() =~= ids0.remove(si as int));
            lemma_minted_remove(ids0, nx, si as int);
        }
        let mut i: usize = 0;
        while i < st.spec.agents.len()
            invariant
                self.wf(),
                i <= st.spec.agents.len(),
                ms == members(st.spec.agents),
                self.stream_ids() == ids0.remove(si as int),
                forall|k: int| 0 <= k < i ==> !self.has_agent(#[trigger] ms[k].0),
            decreases st.spec.agents.len() - i,
        {
            let ghost before = *self;
            let _ = self.remove_agent_internal(&st.spec.agents[i].id);
            assert(ms[i as int].0 == st.spec.agents[i as int].id@);
            assert forall|k: int| 0 <= k < i + 1 implies !self.has_agent(#[trigger] ms[k].0) by {
                if k < i {
                    assert(!before.has_agent(ms[k].0));
                }
            }
            assert(self.stream_ids() =~= before.stream_ids());
            i = i + 1;
        }
        let ghost chs = crate::spec::channels_model(st.spec.channels);
        let mut c: usize = 0;
        while c < st.spec.channels.len()
            invariant
                self.wf(),
                c <= st.spec.channels.len(),
                chs == crate::spec::channels_model(st.spec.channels),
                self.stream_ids() == ids0.remove(si as int),
                forall|k: int| 0 <= k < ms.len() ==> !self.has_agent(#[trigger] ms[k].0),
                forall|k: int| 0 <= k < c ==> !holds(self.table(), #[trigger] chs[k]),
            decreases st.spec.channels.len() - c,
        {
            let ghost before = *self;
            self.remove_channel_internal(&st.spec.channels[c]);
            assert(self.stream_ids() =~= before.stream_ids());
            proof {
                let cur = chs[c as int];
                assert(cur == st.spec.channels[c as int]@);
                assert forall|k: int| 0 <= k < c + 1 implies !holds(self.table(), #[trigger] chs[k]) by {
                    if k < c {
                        let e = (chs[k].2, chs[k].1, chs[k].3);
                        if chs[k].0 == cur.0 && holds(self.table(), chs[k]) {
                            crate::channels::lemma_without_within(
                                list_for(before.table(), cur.0),
                                (cur.2, cur.1, cur.3),
                                e,
                            );
                            assert(holds(before.table(), chs[k]));
                        }
                    }
                }
            }
            c = c + 1;
        }
        proof {
            assert(chs == o.stream_channels(id@));
        }
        Ok(stopped)
    }

    /// Renames stream `id` to a valid name made unique among the stream
    /// names (its own included); the new name comes back. Fails with
    /// `InvalidStreamName` or, for an unknown stream, `RenameStreamFailed`.
    pub fn rename_agent_stream(&mut self, id: &str, new_name: &str) -> (r: Result<String, AgentError>)
        requires
            old(self).wf(),
            old(self).stream_names().len() + 3 <= usize::MAX,
        ensures
            final(self).wf(),
            !valid_stream_name(new_name@) ==> r is Err && r->Err_0 is InvalidStreamName,
            valid_stream_name(new_name@) && !old(self).has_stream(id@) ==> r is Err && r->Err_0 is RenameStreamFailed,
            r is Ok <==> valid_stream_name(new_name@) && old(self).has_stream(id@),
            r is Ok ==> is_unique_name(r->Ok_0@, new_name@, old(self).stream_names())
                && final(self).stream_names() == old(self).stream_names().update(first_pos(old(self).stream_ids(), id@), r->Ok_0@)
                && final(self).stream_ids() == old(self).stream_ids(),
    {
        if !is_valid_stream_name(new_name) {
            return Err(AgentError::InvalidStreamName(owned(new_name)));
        }
        let name = self.unique_stream_name(new_name);
        let si = match self.find_stream(id) {
            Some(si) => si,
            None => {
                return Err(AgentError::RenameStreamFailed(owned(id)));
            },
        };
        let ghost names = self.stream_names();
        let ghost ids = self.stream_ids();
        let mut st = self.streams.remove(si);
        st.name = name.clone();
        self.streams.insert(si, st);
        assert(self.stream_names() =~= names.update(si as int, name@));
        assert(self.stream_ids() =~= ids);
        Ok(name)
    }

    /// Replaces the spec of stream `id`. Fails with `StreamNotFound`.
    pub fn set_agent_stream_spec(&mut self, id: &str, spec: AgentStreamSpec) -> (r: Result<(), AgentError>)
        requires
            old(self).wf(),
        ensures
            final(self).wf(),
            r is Err <==> !old(self).has_stream(id@),
            r is Err ==> r->Err_0 is StreamNotFound,
            r is Ok ==> final(self).stream_ids() == old(self).stream_ids()
                && final(self).stream_members(id@) == members(spec.agents),
            r is Ok ==> final(self).stream_spec(id@) == spec,
            final(self).entries() == old(self).entries(),
            final(self).table() == old(self).table(),
    {
        let si = match self.find_stream(id) {
            Some(si) => si,
            None => {
                return Err(AgentError::StreamNotFound(owned(id)));
            },
        };
        let ghost ids = self.stream_ids();
        let mut st = self.streams.remove(si);
        st.spec = spec;
        self.streams.insert(si, st);
        assert(self.stream_ids() =~= ids);
        Ok(())
    }

    /// Removes agent `agent_id` from stream `stream_id` and from the hub,
    /// with every channel from or to it. `true` when its worker is to be
    /// told to stop. Fails with `StreamNotFound` or `AgentNotFound`, and
    /// then changes nothing.
    pub fn remove_agent(&mut self, stream_id: &str, agent_id: &String) -> (r: Result<bool, AgentError>)
        requires
            old(self).wf(),
        ensures
            final(self).wf(),
            final(self).stream_ids() == old(self).stream_ids(),
            !old(self).has_stream(stream_id@) ==> r is Err && r->Err_0 is StreamNotFound,
            old(self).has_stream(stream_id@) && !old(self).has_agent(agent_id@) ==> r is Err && r->Err_0 is AgentNotFound,
            r is Ok <==> old(self).has_stream(stream_id@) && old(self).has_agent(agent_id@),
            r is Err ==> final(self).entries() == old(self).entries() && final(self).table() == old(self).table()
                && final(self).streams_view() == old(self).streams_view(),
            r is Ok ==> r->Ok_0 == (old(self).status_of(agent_id@) == AgentStatus::Start),
            r is Ok ==> forall|x: Seq<char>| #[trigger] final(self).has_agent(x) <==> old(self).has_agent(x) && x != agent_id@,
            r is Ok ==> list_for(final(self).table(), agent_id@) == Seq::<Target>::empty(),
            r is Ok ==> forall|x: Seq<char>| x != agent_id@ ==> #[trigger] list_for(final(self).table(), x)
                == crate::channels::drop_target(list_for(old(self).table(), x), agent_id@),
            r is Ok ==> final(self).stream_agents(stream_id@) == old(self).stream_agents(stream_id@).filter(
                |a: crate::spec::AgentSpecModel| a.id != agent_id@,
            ),
    {
        let si = match self.find_stream(stream_id) {
            Some(si) => si,
            None => {
                return Err(AgentError::StreamNotFound(owned(stream_id)));
            },
        };
        if self.find_agent(agent_id.as_str()).is_none() {
            return Err(AgentError::AgentNotFound(agent_id.clone()));
        }
        let ghost ids = self.stream_ids();
        let mut st = self.streams.remove(si);
        st.spec.remove_agent(agent_id.as_str());
        self.streams.insert(si, st);
        assert(self.stream_ids() =~= ids);
        assert(self.agent_ids() == old(self).agent_ids());
        assert(self.table() == old(self).table());
        let ghost mid = *self;
        let r = self.remove_agent_internal(agent_id);
        assert(self.stream_ids() =~= mid.stream_ids());
        r
    }

    /// Removes `channel` from stream `stream_id` and from the channel table.
    /// Fails with `StreamNotFound`, or with `ChannelNotFound` when the
    /// stream's spec does not list the channel; a failure changes nothing.
    pub fn remove_channel(&mut self, stream_id: &str, channel: &ChannelSpec) -> (r: Result<(), AgentError>)
        requires
            old(self).wf(),
        ensures
            final(self).wf(),
            final(self).agent_ids() == old(self).agent_ids(),
            final(self).entries() == old(self).entries(),
            final(self).stream_ids() == old(self).stream_ids(),
            !old(self).has_stream(stream_id@) ==> r is Err && r->Err_0 is StreamNotFound,
            old(self).has_stream(stream_id@) && !old(self).stream_channels(stream_id@).contains(channel@) ==> r is Err
                && r->Err_0 is ChannelNotFound,
            r is Ok <==> old(self).has_stream(stream_id@) && old(self).stream_channels(stream_id@).contains(channel@),
            r is Err ==> final(self).table() == old(self).table() && final(self).streams_view() == old(self).streams_view(),
            r is Ok ==> crate::channels::changed_only(
                final(self).table(),
                old(self).table(),
                channel.source@,
                crate::channels::without(
                    list_for(old(self).table(), channel.source@),
                    (channel.target@, channel.source_handle@, channel.target_handle@),
                ),
            ),
            r is Ok ==> !holds(final(self).table(), channel@),
            r is Ok ==> final(self).stream_members(stream_id@) == old(self).stream_members(stream_id@),
            r is Ok ==> exists|i: int| 0 <= i < old(self).stream_channels(stream_id@).len()
                && old(self).stream_channels(stream_id@)[i] == channel@
                && (forall|j: int| 0 <= j < i ==> (#[trigger] old(self).stream_channels(stream_id@)[j]) != channel@)
                && final(self).stream_channels(stream_id@) == old(self).stream_channels(stream_id@).remove(i),
    {
        let si = match self.find_stream(stream_id) {
            Some(si) => si,
            None => {
                return Err(AgentError::StreamNotFound(owned(stream_id)));
            },
        };
        let ghost ids = self.stream_ids();
        let ghost old_streams = self.streams@;
        let ghost before_ch = crate::spec::channels_model(self.streams[si as int].spec.channels);
        assert(old(self).stream_channels(stream_id@) == before_ch);
        let mut st = self.streams.remove(si);
        let removed = st.spec.remove_channel(channel);
        let ghost after_ch = crate::spec::channels_model(st.spec.channels);
        let ghost st_agents = st.spec.agents;
        self.streams.insert(si, st);
        assert(self.stream_ids() =~= ids);
        match removed {
            Some(_) => {
                let ghost mid = *self;
                self.remove_channel_internal(channel);
                proof {
                    assert(self.stream_ids() =~= mid.stream_ids());
                    assert(self.stream_channels(stream_id@) == after_ch);
                    let w = choose|i: int| 0 <= i < before_ch.len() && before_ch[i] == channel@
                        && (forall|j: int| 0 <= j < i ==> (#[trigger] before_ch[j]) != channel@)
                        && after_ch == before_ch.remove(i);
                    assert(before_ch[w] == channel@);
                }
                Ok(())
            },
            None => {
                assert(self.streams@ =~= old_streams);
                proof {
                    let m = old(self).stream_channels(stream_id@);
                    if m.contains(channel@) {
                        let k = choose|k: int| 0 <= k < m.len() && m[k] == channel@;
                        assert(m[k] == channel@);
                    }
                }
                Err(AgentError::ChannelNotFound(channel.source.clone()))
            },
        }
    }

    /// How many more ids can be minted.
    pub fn ids_left(&self) -> (r: usize)
        ensures
            r == self.id_room(),
    {
        usize::MAX - self.ids.next
    }

    /// How many streams there are.
    pub fn stream_count(&self) -> (r: usize)
        ensures
            r == self.stream_names().len(),
    {
        self.streams.len()
    }
}

impl ASKit {
    /// Replaces the configs of agent `id` in its spec, whatever its state;
    /// a running agent's worker does this with configs it was sent. Fails
    /// with `AgentNotFound`.
    pub fn store_agent_configs(&mut self, id: &str, configs: AgentConfigs) -> (r: Result<(), AgentError>)
        requires
            old(self).wf(),
        ensures
            final(self).wf(),
            final(self).agent_ids() == old(self).agent_ids(),
            final(self).table() == old(self).table(),
            final(self).others_unchanged(old(self), id@),
            r is Err <==> !old(self).has_agent(id@),
            r is Err ==> r->Err_0 is AgentNotFound && final(self).entries() == old(self).entries(),
            r is Ok ==> final(self).configs_of(id@) == Some(configs@)
                && final(self).status_of(id@) == old(self).status_of(id@),
    {
        let i = match self.find_agent(id) {
            Some(i) => i,
            None => {
                return Err(AgentError::AgentNotFound(owned(id)));
            },
        };
        let mut e = self.agents.remove(i);
        e.spec.configs = Some(configs);
        self.agents.insert(i, e);
        proof {
            assert(self.agent_ids() =~= old(self).agent_ids());
            old(self).agent_ids().index_of_first_ensures(id@);
            assert forall|x: Seq<char>| #[trigger] self.has_agent(x) && x != id@ implies self.agent(x) == old(self).agent(x) by {
                old(self).agent_ids().index_of_first_ensures(x);
            }
        }
        Ok(())
    }
}

/// Starting a stream leaves alone an agent that is a member only as a
/// disabled one.
pub proof fn law_disabled_not_started(ms: Seq<(Seq<char>, bool)>, h: ASKit, x: Seq<char>)
    requires
        forall|k: int| 0 <= k < ms.len() && (#[trigger] ms[k]).0 == x ==> ms[k].1,
    ensures
        !to_start(ms, h).contains(x),
    decreases ms.len(),
{
    if ms.len() > 0 {
        let d = ms.drop_last();
        assert forall|k: int| 0 <= k < d.len() && (#[trigger] d[k]).0 == x implies d[k].1 by {
            assert(d[k] == ms[k]);
        }
        law_disabled_not_started(d, h, x);
        let prev = to_start(d, h);
        if to_start(ms, h).contains(x) {
            let i = choose|i: int| 0 <= i < to_start(ms, h).len() && to_start(ms, h)[i] == x;
            if i < prev.len() {
                assert(prev[i] == x);
            } else {
                assert(ms[ms.len() - 1].0 == x);
            }
        }
    }
}

/// Starting a stream starts every member that is enabled, exists, has its
/// definition registered and is in `Init`.
pub proof fn law_enabled_started(ms: Seq<(Seq<char>, bool)>, h: ASKit, k: int)
    requires
        0 <= k < ms.len(),
        !ms[k].1,
        h.has_agent(ms[k].0),
        h.has_def(h.agent(ms[k].0).spec.def_name@),
        h.status_of(ms[k].0) == AgentStatus::Init,
    ensures
        to_start(ms, h).contains(ms[k].0),
    decreases ms.len(),
{
    let d = ms.drop_last();
    let prev = to_start(d, h);
    if k < ms.len() - 1 {
        assert(d[k] == ms[k]);
        law_enabled_started(d, h, k);
        let i = choose|i: int| 0 <= i < prev.len() && prev[i] == ms[k].0;
        assert(to_start(ms, h)[i] == ms[k].0);
    } else if prev.contains(ms[k].0) {
        let i = choose|i: int| 0 <= i < prev.len() && prev[i] == ms[k].0;
        assert(to_start(ms, h)[i] == ms[k].0);
    } else {
        assert(to_start(ms, h) == prev.push(ms[k].0));
        assert(to_start(ms, h)[prev.len() as int] == ms[k].0);
    }
}

impl ASKit {
    /// A spec of a new instance of definition `def_name`, under a fresh id.
    /// Fails with `AgentDefinitionNotFound`.
    pub fn new_agent_spec(&mut self, def_name: &str) -> (r: Result<AgentSpec, AgentError>)
        requires
            old(self).wf(),
            old(self).id_room() > 0,
        ensures
            final(self).wf(),
            r is Err <==> !old(self).has_def(def_name@),
            r is Err ==> r->Err_0 is AgentDefinitionNotFound,
            r is Ok ==> r->Ok_0.id@ == crate::text::decimal((usize::MAX - old(self).id_room()) as nat)
                && r->Ok_0@ == (crate::spec::AgentSpecModel {
                    id: r->Ok_0.id@,
                    ..old(self).def_named(def_name@).to_spec_model()
                }),
            final(self).agent_ids() == old(self).agent_ids(),
            final(self).entries() == old(self).entries(),
            final(self).table() == old(self).table(),
            final(self).streams_view() == old(self).streams_view(),
    {
        let i = match self.find_def(def_name) {
            Some(i) => i,
            None => {
                return Err(AgentError::AgentDefinitionNotFound(owned(def_name)));
            },
        };
        proof {
            assert(self.def_names()[i as int] == def_name@);
            lemma_index_unique(self.def_names(), i as int);
        }
        let ghost n0 = self.ids.next as nat;
        let spec = AgentSpec::from_def(&self.defs[i], &mut self.ids);
        proof {
            lemma_minted_mono(self.stream_ids(), n0, self.ids.next as nat);
        }
        Ok(spec)
    }

    /// The global configs of every definition, in the order they were made.
    pub fn get_global_configs_map(&self) -> (r: Vec<(String, AgentConfigs)>)
        ensures
            Seq::new(r@.len(), |i: int| (r[i].0@, r[i].1@)) == self.globals(),
    {
        let mut out: Vec<(String, AgentConfigs)> = Vec::new();
        let mut i: usize = 0;
        while i < self.global_configs.len()
            invariant
                i <= self.global_configs.len(),
                out.len() == i,
                forall|k: int| 0 <= k < i ==> (#[trigger] out[k]).0@ == self.global_configs[k].0@
                    && out[k].1@ == self.global_configs[k].1@,
            decreases self.global_configs.len() - i,
        {
            out.push((self.global_configs[i].0.clone(), self.global_configs[i].1.copy()));
            i = i + 1;
        }
        assert(Seq::new(out@.len(), |i: int| (out[i].0@, out[i].1@)) =~= self.globals());
        out
    }

    /// Merges each entry of `map` into the global configs of its name, in
    /// order (see `set_global_configs`).
    pub fn set_global_configs_map(&mut self, map: Vec<(String, AgentConfigs)>)
        requires
            old(self).wf(),
        ensures
            final(self).wf(),
            final(self).globals_after(*old(self), Seq::new(map@.len(), |i: int| (map[i].0@, map[i].1@))),
            final(self).agent_ids() == old(self).agent_ids(),
            final(self).table() == old(self).table(),
            final(self).defs_view() == old(self).defs_view(),
    {
        let ghost m = Seq::new(map@.len(), |i: int| (map[i].0@, map[i].1@));
        let ghost o = *old(self);
        let mut rest = map;
        let ghost total = m.len();
        assert(m.subrange(0, 0) =~= Seq::<(Seq<char>, Seq<(Seq<char>, Value)>)>::empty());
        assert forall|x: Seq<char>| #[trigger] self.global_for(x) == merged_globals(o.global_for(x), m.subrange(0, 0), x) by {}
        while rest.len() > 0
            invariant
                self.wf(),
                rest@.len() <= total,
                total == m.len(),
                forall|k: int| 0 <= k < rest@.len() ==> ((#[trigger] rest[k]).0@, rest[k].1@) == m[total - rest@.len() + k],
                forall|x: Seq<char>| #[trigger] self.global_for(x) == merged_globals(o.global_for(x), m.subrange(0, total - rest@.len()), x),
                self.agent_ids() == o.agent_ids(),
                self.table() == o.table(),
                self.defs_view() == o.defs_view(),
            decreases rest.len(),
        {
            let ghost done = total - rest@.len();
            let ghost before = rest@;
            let ghost h0 = *self;
            let (name, configs) = rest.remove(0);
            assert((name@, configs@) == m[done]);
            assert forall|k: int| 0 <= k < rest@.len() implies ((#[trigger] rest[k]).0@, rest[k].1@) == m[total - rest@.len() + k] by {
                assert(rest[k] == before[k + 1]);
            }
            self.set_global_configs(name, configs);
            let ghost sub = m.subrange(0, done + 1);
            assert(sub.drop_last() =~= m.subrange(0, done));
            assert(sub.last() == m[done]);
        }
        assert(m.subrange(0, total as int) =~= m);
    }

    /// The global configs are those of `old` with the entries of `m` merged
    /// in order.
    pub open spec fn globals_after(&self, old: ASKit, m: Seq<(Seq<char>, Seq<(Seq<char>, Value)>)>) -> bool {
        forall|x: Seq<char>| #[trigger] self.global_for(x) == merged_globals(old.global_for(x), m, x)
    }
}

/// The global configs of `x` after merging the entries of `m` under `x`, in
/// order, into `g`.
pub open spec fn merged_globals(
    g: Option<Seq<(Seq<char>, Value)>>,
    m: Seq<(Seq<char>, Seq<(Seq<char>, Value)>)>,
    x: Seq<char>,
) -> Option<Seq<(Seq<char>, Value)>>
    decreases m.len(),
{
    if m.len() == 0 {
        g
    } else {
        let prev = merged_globals(g, m.drop_last(), x);
        if m.last().0 == x {
            Some(merged(match prev { Some(p) => p, None => Seq::empty() }, m.last().1))
        } else {
            prev
        }
    }
}

impl ASKit {
    /// Copies of the specs of all streams, in order.
    pub fn get_agent_streams(&self) -> (r: Vec<AgentStreamSpec>)
        ensures
            r@.len() == self.streams_view().len(),
            forall|i: int| 0 <= i < r@.len() ==> crate::spec::same_stream_spec(#[trigger] r[i], self.streams_view()[i].spec),
    {
        let mut out: Vec<AgentStreamSpec> = Vec::new();
        let mut i: usize = 0;
        while i < self.streams.len()
            invariant
                i <= self.streams.len(),
                out.len() == i,
                forall|k: int| 0 <= k < i ==> crate::spec::same_stream_spec(#[trigger] out[k], self.streams[k].spec),
            decreases self.streams.len() - i,
        {
            out.push(self.streams[i].spec.copy());
            i = i + 1;
        }
        out
    }
}

/// Names after registering definitions named `ns`, in order, on a hub whose
/// names are `names`.
pub open spec fn register_all(names: Seq<Seq<char>>, ns: Seq<Seq<char>>) -> Seq<Seq<char>>
    decreases ns.len(),
{
    if ns.len() == 0 {
        names
    } else {
        register_name(register_all(names, ns.drop_last()), ns.last())
    }
}

/// Registering definitions whose names are new and distinct on a hub adds
/// exactly those names, in order, after the names it had.
pub proof fn law_register_new_names(names: Seq<Seq<char>>, ns: Seq<Seq<char>>)
    requires
        ids_unique(names + ns),
    ensures
        register_all(names, ns) == names + ns,
    decreases ns.len(),
{
    if ns.len() > 0 {
        let d = ns.drop_last();
        assert(names + d =~= (names + ns).drop_last());
        assert forall|i: int, j: int| 0 <= i < j < (names + d).len() implies (names + d)[i] != (names + d)[j] by {
            assert((names + d)[i] == (names + ns)[i] && (names + d)[j] == (names + ns)[j]);
        }
        law_register_new_names(names, d);
        assert(!(names + d).contains(ns.last())) by {
            if (names + d).contains(ns.last()) {
                let k = choose|k: int| 0 <= k < (names + d).len() && (names + d)[k] == ns.last();
                assert((names + ns)[k] == (names + ns)[(names + ns).len() - 1]);
            }
        }
        assert((names + d).push(ns.last()) =~= names + ns);
    } else {
        assert(names + ns =~= names);
    }
}

} // verus!
