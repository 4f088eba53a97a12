use vstd::prelude::*;

use crate::config::AgentConfigs;
use crate::id::IdGen;
use crate::text::decimal;
use crate::value::{Json, JsonValue, Value};

verus! {

/// A channel from a source pin to a target pin. The four fields together
/// are its identity; `*` as a pin is a wildcard.
#[derive(Debug)]
pub struct ChannelSpec {
    pub source: String,
    pub source_handle: String,
    pub target: String,
    pub target_handle: String,
}

/// `(source, source_pin, target, target_pin)`.
pub type ChannelModel = (Seq<char>, Seq<char>, Seq<char>, Seq<char>);

impl View for ChannelSpec {
    type V = ChannelModel;

    open spec fn view(&self) -> ChannelModel {
        (self.source@, self.source_handle@, self.target@, self.target_handle@)
    }
}

/// The structural description of one agent instance.
#[derive(Debug)]
pub struct AgentSpec {
    pub id: String,
    pub def_name: String,
    pub inputs: Option<Vec<String>>,
    pub outputs: Option<Vec<String>>,
    pub configs: Option<AgentConfigs>,
    pub disabled: bool,
    /// Fields the runtime does not interpret, kept for round trips.
    pub extensions: Vec<(String, JsonValue)>,
}

pub struct AgentSpecModel {
    pub id: Seq<char>,
    pub def_name: Seq<char>,
    pub inputs: Option<Seq<Seq<char>>>,
    pub outputs: Option<Seq<Seq<char>>>,
    pub configs: Option<Seq<(Seq<char>, Value)>>,
    pub disabled: bool,
    pub extensions: Seq<(Seq<char>, Json)>,
}

pub open spec fn strings_model(v: Vec<String>) -> Seq<Seq<char>> {
    Seq::new(v@.len(), |i: int| v[i]@)
}

pub open spec fn ext_model(v: Vec<(String, JsonValue)>) -> Seq<(Seq<char>, Json)> {
    Seq::new(v@.len(), |i: int| (v[i].0@, v[i].1@))
}

impl View for AgentSpec {
    type V = AgentSpecModel;

    open spec fn view(&self) -> AgentSpecModel {
        AgentSpecModel {
            id: self.id@,
            def_name: self.def_name@,
            inputs: match self.inputs {
                Some(v) => Some(strings_model(v)),
                None => None,
            },
            outputs: match self.outputs {
                Some(v) => Some(strings_model(v)),
                None => None,
            },
            configs: match self.configs {
                Some(c) => Some(c@),
                None => None,
            },
            disabled: self.disabled,
            extensions: ext_model(self.extensions),
        }
    }
}

/// The agents and channels of a stream.
#[derive(Debug)]
pub struct AgentStreamSpec {
    pub agents: Vec<AgentSpec>,
    pub channels: Vec<ChannelSpec>,
    pub run_on_start: bool,
    /// Fields the runtime does not interpret, kept for round trips.
    pub extensions: Vec<(String, JsonValue)>,
}

pub open spec fn agents_model(v: Vec<AgentSpec>) -> Seq<AgentSpecModel> {
    Seq::new(v@.len(), |i: int| v[i]@)
}

pub open spec fn channels_model(v: Vec<ChannelSpec>) -> Seq<ChannelModel> {
    Seq::new(v@.len(), |i: int| v[i]@)
}

pub fn copy_strings(v: &Vec<String>) -> (r: Vec<String>)
    ensures
        strings_model(r) == strings_model(*v),
{
    let mut out: Vec<String> = Vec::new();
    let mut i: usize = 0;
    while i < v.len()
        invariant
            i <= v.len(),
            out.len() == i,
            forall|k: int| 0 <= k < i ==> (#[trigger] out[k])@ == v[k]@,
        decreases v.len() - i,
    {
        out.push(v[i].clone());
        i = i + 1;
    }
    assert(strings_model(out) =~= strings_model(*v));
    out
}

fn copy_ext(v: &Vec<(String, JsonValue)>) -> (r: Vec<(String, JsonValue)>)
    ensures
        ext_model(r) == ext_model(*v),
{
    let mut out: Vec<(String, JsonValue)> = Vec::new();
    let mut i: usize = 0;
    while i < v.len()
        invariant
            i <= v.len(),
            out.len() == i,
            forall|k: int| 0 <= k < i ==> (#[trigger] out[k]).0@ == v[k].0@ && out[k].1@ == v[k].1@,
        decreases v.len() - i,
    {
        out.push((v[i].0.clone(), v[i].1.deep_copy()));
        i = i + 1;
    }
    assert(ext_model(out) =~= ext_model(*v));
    out
}

impl ChannelSpec {
    pub fn copy(&self) -> (r: Self)
        ensures
            r@ == self@,
    {
        ChannelSpec {
            source: self.source.clone(),
            source_handle: self.source_handle.clone(),
            target: self.target.clone(),
            target_handle: self.target_handle.clone(),
        }
    }
}

impl AgentSpec {
    /// A copy that shares nothing with this one.
    pub fn copy(&self) -> (r: Self)
        ensures
            r@ == self@,
    {
        AgentSpec {
            id: self.id.clone(),
            def_name: self.def_name.clone(),
            inputs: match &self.inputs {
                Some(v) => Some(copy_strings(v)),
                None => None,
            },
            outputs: match &self.outputs {
                Some(v) => Some(copy_strings(v)),
                None => None,
            },
            configs: match &self.configs {
                Some(c) => Some(c.copy()),
                None => None,
            },
            disabled: self.disabled,
            extensions: copy_ext(&self.extensions),
        }
    }

    /// This spec under another id.
    pub fn with_id(&self, id: String) -> (r: Self)
        ensures
            r@ == (AgentSpecModel { id: id@, ..self@ }),
    {
        let mut r = self.copy();
        r.id = id;
        r
    }
}

/// The id minted for an old agent id when the agents with `old_ids` got ids
/// counted from `base`: the one of the last agent that carried it.
pub open spec fn remapped(old_ids: Seq<Seq<char>>, base: nat, x: Seq<char>) -> Option<Seq<char>>
    decreases old_ids.len(),
{
    if old_ids.len() == 0 {
        None
    } else if old_ids.last() == x {
        Some(decimal((base + old_ids.len() - 1) as nat))
    } else {
        remapped(old_ids.drop_last(), base, x)
    }
}

/// The channels whose two ends both name copied agents, with their ends
/// moved to the new ids, in their order.
pub open spec fn copied_channels(
    chs: Seq<ChannelModel>,
    old_ids: Seq<Seq<char>>,
    base: nat,
) -> Seq<ChannelModel>
    decreases chs.len(),
{
    if chs.len() == 0 {
        Seq::empty()
    } else {
        let prev = copied_channels(chs.drop_last(), old_ids, base);
        let c = chs.last();
        match (remapped(old_ids, base, c.0), remapped(old_ids, base, c.2)) {
            (Some(s), Some(t)) => prev.push((s, c.1, t, c.3)),
            _ => prev,
        }
    }
}

pub open spec fn ids_of(agents: Seq<AgentSpecModel>) -> Seq<Seq<char>> {
    Seq::new(agents.len(), |i: int| agents[i].id)
}

fn find_new_id(agents: &Vec<AgentSpec>, fresh: &Vec<AgentSpec>, x: &String, base: Ghost<nat>) -> (r:
    Option<String>)
    requires
        fresh.len() == agents.len(),
        forall|i: int| 0 <= i < fresh.len() ==> (#[trigger] fresh[i]).id@ == decimal((base@ + i) as nat),
    ensures
        r is Some <==> remapped(ids_of(agents_model(*agents)), base@, x@) is Some,
        r is Some ==> remapped(ids_of(agents_model(*agents)), base@, x@) == Some(r->0@),
{
    let ghost ids = ids_of(agents_model(*agents));
    let mut j: usize = agents.len();
    assert(ids.subrange(0, j as int) =~= ids);
    while j > 0
        invariant
            j <= agents.len(),
            fresh.len() == agents.len(),
            ids == ids_of(agents_model(*agents)),
            forall|i: int| 0 <= i < fresh.len() ==> (#[trigger] fresh[i]).id@ == decimal((base@ + i) as nat),
            remapped(ids, base@, x@) == remapped(ids.subrange(0, j as int), base@, x@),
        decreases j,
    {
        let ghost sub = ids.subrange(0, j as int);
        assert(sub.last() == agents[j - 1].id@);
        if agents[j - 1].id == *x {
            return Some(fresh[j - 1].id.clone());
        }
        assert(sub.drop_last() =~= ids.subrange(0, j - 1));
        j = j - 1;
    }
    None
}

/// Copies agents and channels under fresh ids. The `i`-th agent gets the id
/// `base + i`, where `base` is the next id of `ids`; a channel keeps its pins
/// and has its ends moved to the new ids, and a channel with an end outside
/// the copied agents is dropped.
pub fn copy_sub_stream(agents: &Vec<AgentSpec>, channels: &Vec<ChannelSpec>, ids: &mut IdGen) -> (r: (
    Vec<AgentSpec>,
    Vec<ChannelSpec>,
))
    requires
        old(ids).wf(),
        old(ids).next + agents.len() < usize::MAX,
    ensures
        final(ids).wf(),
        final(ids).next == old(ids).next + agents.len(),
        r.0.len() == agents.len(),
        forall|i: int|
            0 <= i < agents.len() ==> (#[trigger] r.0[i])@ == (AgentSpecModel {
                id: decimal((old(ids).next + i) as nat),
                ..agents[i]@
            }),
        channels_model(r.1) == copied_channels(
            channels_model(*channels),
            ids_of(agents_model(*agents)),
            old(ids).next as nat,
        ),
{
    let ghost base = old(ids).next as nat;
    let mut fresh: Vec<AgentSpec> = Vec::new();
    let mut i: usize = 0;
    while i < agents.len()
        invariant
            i <= agents.len(),
            fresh.len() == i,
            ids.wf(),
            ids.next == base + i,
            base + agents.len() < usize::MAX,
            forall|k: int|
                0 <= k < i ==> (#[trigger] fresh[k])@ == (AgentSpecModel {
                    id: decimal((base + k) as nat),
                    ..agents[k]@
                }),
        decreases agents.len() - i,
    {
        let id = crate::id::new_id(ids);
        fresh.push(agents[i].with_id(id));
        i = i + 1;
    }
    let ghost old_ids = ids_of(agents_model(*agents));
    let ghost chs = channels_model(*channels);
    let mut out: Vec<ChannelSpec> = Vec::new();
    let mut c: usize = 0;
    assert(chs.subrange(0, 0) =~= Seq::<ChannelModel>::empty());
    assert(channels_model(out) =~= Seq::<ChannelModel>::empty());
    while c < channels.len()
        invariant
            c <= channels.len(),
            fresh.len() == agents.len(),
            forall|k: int| 0 <= k < fresh.len() ==> (#[trigger] fresh[k]).id@ == decimal((base + k) as nat),
            old_ids == ids_of(agents_model(*agents)),
            chs == channels_model(*channels),
            channels_model(out) == copied_channels(chs.subrange(0, c as int), old_ids, base),
        decreases channels.len() - c,
    {
        assert forall|k: int| 0 <= k < fresh.len() implies (#[trigger] fresh[k]).id@ == decimal((base + k) as nat) by {}
        let ghost pre = chs.subrange(0, c as int + 1);
        assert(pre.drop_last() =~= chs.subrange(0, c as int));
        assert(pre.last() == channels[c as int]@);
        let s = find_new_id(agents, &fresh, &channels[c].source, Ghost(base));
        let t = find_new_id(agents, &fresh, &channels[c].target, Ghost(base));
        match (s, t) {
            (Some(s), Some(t)) => {
                let ch = ChannelSpec {
                    source: s,
                    source_handle: channels[c].source_handle.clone(),
                    target: t,
                    target_handle: channels[c].target_handle.clone(),
                };
                let ghost before = channels_model(out);
                out.push(ch);
                assert(channels_model(out) =~= before.push(ch@));
            },
            _ => {},
        }
        c = c + 1;
    }
    assert(chs.subrange(0, chs.len() as int) =~= chs);
    (fresh, out)
}

/// The agents of a copied stream get pairwise different ids.
pub proof fn law_copied_ids_distinct(base: nat, i: nat, j: nat)
    requires
        i != j,
    ensures
        decimal(base + i) != decimal(base + j),
{
    if decimal(base + i) == decimal(base + j) {
        crate::text::lemma_decimal_injective(base + i, base + j);
    }
}

impl AgentStreamSpec {
    /// A spec with no agents and no channels.
    pub fn new() -> (r: Self)
        ensures
            r.agents@.len() == 0,
            r.channels@.len() == 0,
            !r.run_on_start,
            r.extensions@.len() == 0,
    {
        AgentStreamSpec { agents: Vec::new(), channels: Vec::new(), run_on_start: false, extensions: Vec::new() }
    }

    /// Appends an agent.
    pub fn add_agent(&mut self, agent: AgentSpec)
        ensures
            agents_model(final(self).agents) == agents_model(old(self).agents).push(agent@),
            final(self).channels == old(self).channels,
    {
        let ghost before = agents_model(self.agents);
        let ghost m = agent@;
        self.agents.push(agent);
        assert(agents_model(self.agents) =~= before.push(m));
    }

    /// Removes every agent with id `agent_id`.
    pub fn remove_agent(&mut self, agent_id: &str)
        ensures
            agents_model(final(self).agents) == agents_model(old(self).agents).filter(
                |a: AgentSpecModel| a.id != agent_id@,
            ),
            final(self).channels == old(self).channels,
    {
        let ghost all = agents_model(self.agents);
        let mut taken: Vec<AgentSpec> = Vec::new();
        std::mem::swap(&mut self.agents, &mut taken);
        let ghost f = |a: AgentSpecModel| a.id != agent_id@;
        let mut kept: Vec<AgentSpec> = Vec::new();
        let mut i: usize = 0;
        assert(all.subrange(0, 0) =~= Seq::<AgentSpecModel>::empty());
        assert(agents_model(kept) =~= Seq::<AgentSpecModel>::empty());
        while i < taken.len()
            invariant
                i <= taken.len(),
                all == agents_model(taken),
                f == (|a: AgentSpecModel| a.id != agent_id@),
                agents_model(kept) == all.subrange(0, i as int).filter(f),
            decreases taken.len() - i,
        {
            let ghost sub = all.subrange(0, i as int + 1);
            assert(sub.drop_last() =~= all.subrange(0, i as int));
            assert(sub.last() == taken[i as int]@);
            let ghost before = agents_model(kept);
            if !crate::text::str_eq(taken[i].id.as_str(), agent_id) {
                kept.push(taken[i].copy());
                assert(agents_model(kept) =~= before.push(taken[i as int]@));
            }
            assert(sub.filter(f) == if f(sub.last()) { sub.drop_last().filter(f).push(sub.last()) } else { sub.drop_last().filter(f) }) by {
                reveal(Seq::filter);
            }
            i = i + 1;
        }
        assert(all.subrange(0, all.len() as int) =~= all);
        self.agents = kept;
    }

    /// Appends a channel.
    pub fn add_channels(&mut self, channel: ChannelSpec)
        ensures
            channels_model(final(self).channels) == channels_model(old(self).channels).push(channel@),
            final(self).agents == old(self).agents,
    {
        let ghost before = channels_model(self.channels);
        let ghost m = channel@;
        self.channels.push(channel);
        assert(channels_model(self.channels) =~= before.push(m));
    }

    /// Removes the first channel equal to `channel` and returns it.
    pub fn remove_channel(&mut self, channel: &ChannelSpec) -> (r: Option<ChannelSpec>)
        ensures
            r is None <==> forall|j: int| 0 <= j < old(self).channels@.len() ==> (#[trigger] channels_model(old(self).channels)[j]) != channel@,
            r is None ==> *final(self) == *old(self),
            final(self).agents == old(self).agents,
            r is Some ==> r->0@ == channel@ && exists|i: int| 0 <= i < old(self).channels@.len()
                && channels_model(old(self).channels)[i] == channel@
                && (forall|j: int| 0 <= j < i ==> (#[trigger] channels_model(old(self).channels)[j]) != channel@)
                && channels_model(final(self).channels) == channels_model(old(self).channels).remove(i),
    {
        let ghost m = channels_model(self.channels);
        let mut i: usize = 0;
        while i < self.channels.len()
            invariant
                i <= self.channels.len(),
                *self == *old(self),
                m == channels_model(self.channels),
                forall|j: int| 0 <= j < i ==> m[j] != channel@,
            decreases self.channels.len() - i,
        {
            let c = &self.channels[i];
            if c.source == channel.source && c.source_handle == channel.source_handle && c.target == channel.target
                && c.target_handle == channel.target_handle {
                assert(m[i as int] == channel@);
                let r = self.channels.remove(i);
                assert(channels_model(self.channels) =~= m.remove(i as int));
                return Some(r);
            }
            i = i + 1;
        }
        None
    }
}

/// A remapped id is one of the minted ids.
pub proof fn lemma_remapped_minted(old_ids: Seq<Seq<char>>, base: nat, x: Seq<char>)
    requires
        remapped(old_ids, base, x) is Some,
    ensures
        exists|j: int| 0 <= j < old_ids.len() && remapped(old_ids, base, x)->0 == #[trigger] decimal((base + j) as nat),
    decreases old_ids.len(),
{
    if old_ids.last() == x {
        let j = old_ids.len() - 1;
        assert(remapped(old_ids, base, x)->0 == decimal((base + j) as nat));
    } else {
        lemma_remapped_minted(old_ids.drop_last(), base, x);
        let j = choose|j: int| 0 <= j < old_ids.drop_last().len() && remapped(old_ids.drop_last(), base, x)->0
            == #[trigger] decimal((base + j) as nat);
        assert(remapped(old_ids, base, x)->0 == decimal((base + j) as nat));
    }
}

/// Both ends of a copied channel are minted ids; its pins are kept.
pub proof fn lemma_copied_ends(chs: Seq<ChannelModel>, old_ids: Seq<Seq<char>>, base: nat, k: int)
    requires
        0 <= k < copied_channels(chs, old_ids, base).len(),
    ensures
        exists|j: int| 0 <= j < old_ids.len() && copied_channels(chs, old_ids, base)[k].0 == #[trigger] decimal((base + j) as nat),
        exists|i: int| 0 <= i < chs.len() && copied_channels(chs, old_ids, base)[k].1 == (#[trigger] chs[i]).1
            && copied_channels(chs, old_ids, base)[k].3 == chs[i].3,
    decreases chs.len(),
{
    let prev = copied_channels(chs.drop_last(), old_ids, base);
    let c = chs.last();
    let d = chs.drop_last();
    if k < prev.len() {
        lemma_copied_ends(d, old_ids, base, k);
        assert(copied_channels(chs, old_ids, base)[k] == prev[k]);
        let i = choose|i: int| 0 <= i < d.len() && prev[k].1 == (#[trigger] d[i]).1 && prev[k].3 == d[i].3;
        assert(d[i] == chs[i]);
    } else {
        lemma_remapped_minted(old_ids, base, c.0);
        assert(chs[chs.len() - 1] == c);
    }
}

/// The two stream specs hold the same agents, channels and fields.
pub open spec fn same_stream_spec(a: AgentStreamSpec, b: AgentStreamSpec) -> bool {
    &&& agents_model(a.agents) == agents_model(b.agents)
    &&& channels_model(a.channels) == channels_model(b.channels)
    &&& a.run_on_start == b.run_on_start
    &&& ext_model(a.extensions) == ext_model(b.extensions)
}

impl AgentStreamSpec {
    /// A copy that shares nothing with this one.
    pub fn copy(&self) -> (r: Self)
        ensures
            same_stream_spec(r, *self),
    {
        let mut agents: Vec<AgentSpec> = Vec::new();
        let mut i: usize = 0;
        while i < self.agents.len()
            invariant
                i <= self.agents.len(),
                agents.len() == i,
                forall|k: int| 0 <= k < i ==> (#[trigger] agents[k])@ == self.agents[k]@,
            decreases self.agents.len() - i,
        {
            agents.push(self.agents[i].copy());
            i = i + 1;
        }
        let mut channels: Vec<ChannelSpec> = Vec::new();
        let mut c: usize = 0;
        while c < self.channels.len()
            invariant
                c <= self.channels.len(),
                channels.len() == c,
                forall|k: int| 0 <= k < c ==> (#[trigger] channels[k])@ == self.channels[k]@,
            decreases self.channels.len() - c,
        {
            channels.push(self.channels[c].copy());
            c = c + 1;
        }
        let r = AgentStreamSpec {
            agents,
            channels,
            run_on_start: self.run_on_start,
            extensions: copy_ext(&self.extensions),
        };
        assert(agents_model(r.agents) =~= agents_model(self.agents));
        assert(channels_model(r.channels) =~= channels_model(self.channels));
        r
    }
}

} // verus!
