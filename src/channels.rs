use vstd::prelude::*;

use crate::error::AgentError;
use crate::spec::ChannelSpec;

verus! {

/// `(target, source_pin, target_pin)`: where a channel leaves its source.
pub type Target = (Seq<char>, Seq<char>, Seq<char>);

pub type Table = Seq<(Seq<char>, Seq<Target>)>;

/// The channels of a hub, grouped by source agent: one entry per source, in
/// the order sources first got a channel, each with its targets in the order
/// they were added.
pub struct ChannelTable {
    entries: Vec<(String, Vec<(String, String, String)>)>,
}

pub open spec fn target_of(t: (String, String, String)) -> Target {
    (t.0@, t.1@, t.2@)
}

pub open spec fn targets_model(v: Vec<(String, String, String)>) -> Seq<Target> {
    Seq::new(v@.len(), |i: int| target_of(v[i]))
}

pub open spec fn table_model(v: Vec<(String, Vec<(String, String, String)>)>) -> Table {
    Seq::new(v@.len(), |i: int| (v[i].0@, targets_model(v[i].1)))
}

/// The targets of `source`: the list of its entry, or nothing.
pub open spec fn list_for(t: Table, source: Seq<char>) -> Seq<Target>
    decreases t.len(),
{
    if t.len() == 0 {
        Seq::empty()
    } else if t[0].0 == source {
        t[0].1
    } else {
        list_for(t.drop_first(), source)
    }
}

/// The table holds the channel `(source, sp, target, tp)`.
pub open spec fn holds(t: Table, c: (Seq<char>, Seq<char>, Seq<char>, Seq<char>)) -> bool {
    list_for(t, c.0).contains((c.2, c.1, c.3))
}

/// One entry per source, no empty entry, no target twice in an entry.
pub open spec fn table_wf(t: Table) -> bool {
    &&& forall|i: int, j: int| 0 <= i < j < t.len() ==> (#[trigger] t[i]).0 != (#[trigger] t[j]).0
    &&& forall|i: int| 0 <= i < t.len() ==> (#[trigger] t[i]).1.len() > 0
    &&& forall|i: int| 0 <= i < t.len() ==> (#[trigger] t[i]).1.no_duplicates()
}

impl View for ChannelTable {
    type V = Table;

    closed spec fn view(&self) -> Table {
        table_model(self.entries)
    }
}

proof fn lemma_list_for_at(t: Table, i: int)
    requires
        0 <= i < t.len(),
        forall|j: int| 0 <= j < i ==> (#[trigger] t[j]).0 != t[i].0,
    ensures
        list_for(t, t[i].0) == t[i].1,
    decreases i,
{
    if i > 0 {
        let d = t.drop_first();
        assert forall|j: int| 0 <= j < i - 1 implies (#[trigger] d[j]).0 != d[i - 1].0 by {
            assert(d[j] == t[j + 1]);
        }
        lemma_list_for_at(d, i - 1);
    }
}

proof fn lemma_list_for_absent(t: Table, s: Seq<char>)
    requires
        forall|j: int| 0 <= j < t.len() ==> (#[trigger] t[j]).0 != s,
    ensures
        list_for(t, s) == Seq::<Target>::empty(),
    decreases t.len(),
{
    if t.len() > 0 {
        let d = t.drop_first();
        assert forall|j: int| 0 <= j < d.len() implies (#[trigger] d[j]).0 != s by {
            assert(d[j] == t[j + 1]);
        }
        lemma_list_for_absent(d, s);
    }
}

/// In a well-formed table the list of a source is the one of its entry.
proof fn lemma_list_for_wf(t: Table, s: Seq<char>)
    requires
        table_wf(t),
    ensures
        forall|i: int| 0 <= i < t.len() && (#[trigger] t[i]).0 == s ==> list_for(t, s) == t[i].1,
        (forall|i: int| 0 <= i < t.len() ==> (#[trigger] t[i]).0 != s) ==> list_for(t, s)
            == Seq::<Target>::empty(),
{
    assert forall|i: int| 0 <= i < t.len() && (#[trigger] t[i]).0 == s implies list_for(t, s)
        == t[i].1 by {
        assert forall|j: int| 0 <= j < i implies (#[trigger] t[j]).0 != t[i].0 by {
            assert(t[j].0 != t[i].0);
        }
        lemma_list_for_at(t, i);
    }
    if forall|i: int| 0 <= i < t.len() ==> (#[trigger] t[i]).0 != s {
        lemma_list_for_absent(t, s);
    }
}

fn copy_targets(v: &Vec<(String, String, String)>) -> (r: Vec<(String, String, String)>)
    ensures
        targets_model(r) == targets_model(*v),
{
    let mut out: Vec<(String, String, String)> = Vec::new();
    let mut i: usize = 0;
    while i < v.len()
        invariant
            i <= v.len(),
            out.len() == i,
            forall|k: int| 0 <= k < i ==> target_of(#[trigger] out[k]) == target_of(v[k]),
        decreases v.len() - i,
    {
        out.push((v[i].0.clone(), v[i].1.clone(), v[i].2.clone()));
        i = i + 1;
    }
    assert(targets_model(out) =~= targets_model(*v));
    out
}

impl ChannelTable {
    pub closed spec fn wf(&self) -> bool {
        table_wf(self@)
    }

    pub fn new() -> (r: Self)
        ensures
            r@ == Seq::<(Seq<char>, Seq<Target>)>::empty(),
            r.wf(),
    {
        let r = ChannelTable { entries: Vec::new() };
        assert(r@ =~= Seq::<(Seq<char>, Seq<Target>)>::empty());
        r
    }

    /// Position of the entry of `source`.
    fn find(&self, source: &String) -> (r: Option<usize>)
        requires
            self.wf(),
        ensures
            r is Some ==> r->0 < self@.len() && self@[r->0 as int].0 == source@ && list_for(
                self@,
                source@,
            ) == self@[r->0 as int].1,
            r is None ==> forall|j: int| 0 <= j < self@.len() ==> (#[trigger] self@[j]).0 != source@,
            r is None ==> list_for(self@, source@) == Seq::<Target>::empty(),
    {
        proof {
            lemma_list_for_wf(self@, source@);
        }
        let mut i: usize = 0;
        while i < self.entries.len()
            invariant
                self.wf(),
                i <= self.entries.len(),
                self@.len() == self.entries.len(),
                forall|j: int| 0 <= j < i ==> (#[trigger] self@[j]).0 != source@,
            decreases self.entries.len() - i,
        {
            assert(self@[i as int].0 == self.entries[i as int].0@);
            if self.entries[i].0 == *source {
                proof {
                    lemma_list_for_wf(self@, source@);
                }
                return Some(i);
            }
            i = i + 1;
        }
        None
    }

    /// The targets of `source`, in the order they were added.
    pub fn targets_of(&self, source: &String) -> (r: Vec<(String, String, String)>)
        requires
            self.wf(),
        ensures
            targets_model(r) == list_for(self@, source@),
    {
        match self.find(source) {
            Some(i) => {
                assert(self@[i as int].1 == targets_model(self.entries[i as int].1));
                copy_targets(&self.entries[i].1)
            },
            None => {
                let r: Vec<(String, String, String)> = Vec::new();
                assert(targets_model(r) =~= Seq::<Target>::empty());
                r
            },
        }
    }
}

/// `l` without the entries equal to `t`.
pub open spec fn without(l: Seq<Target>, t: Target) -> Seq<Target>
    decreases l.len(),
{
    if l.len() == 0 {
        l
    } else if l.last() == t {
        without(l.drop_last(), t)
    } else {
        without(l.drop_last(), t).push(l.last())
    }
}

/// `l` without the entries that lead to `agent`.
pub open spec fn drop_target(l: Seq<Target>, agent: Seq<char>) -> Seq<Target>
    decreases l.len(),
{
    if l.len() == 0 {
        l
    } else if l.last().0 == agent {
        drop_target(l.drop_last(), agent)
    } else {
        drop_target(l.drop_last(), agent).push(l.last())
    }
}

proof fn lemma_list_for_push(t: Table, k: Seq<char>, l: Seq<Target>, x: Seq<char>)
    ensures
        x != k ==> list_for(t.push((k, l)), x) == list_for(t, x),
        x == k && (forall|j: int| 0 <= j < t.len() ==> (#[trigger] t[j]).0 != k) ==> list_for(
            t.push((k, l)),
            x,
        ) == l,
    decreases t.len(),
{
    let u = t.push((k, l));
    if t.len() == 0 {
        assert(u.drop_first() =~= Seq::<(Seq<char>, Seq<Target>)>::empty());
        assert(list_for(u.drop_first(), x) == Seq::<Target>::empty());
    } else {
        assert(u.drop_first() =~= t.drop_first().push((k, l)));
        assert(u[0] == t[0]);
        lemma_list_for_push(t.drop_first(), k, l, x);
        if x == k && (forall|j: int| 0 <= j < t.len() ==> (#[trigger] t[j]).0 != k) {
            assert(t[0].0 != k);
            let d = t.drop_first();
            assert forall|j: int| 0 <= j < d.len() implies (#[trigger] d[j]).0 != k by {
                assert(d[j] == t[j + 1]);
            }
        }
    }
}

proof fn lemma_without_facts(l: Seq<Target>, t: Target)
    requires
        l.no_duplicates(),
    ensures
        !without(l, t).contains(t),
        without(l, t).no_duplicates(),
        forall|e: Target| #[trigger] without(l, t).contains(e) ==> l.contains(e),
    decreases l.len(),
{
    if l.len() > 0 {
        let d = l.drop_last();
        assert forall|i: int, j: int| 0 <= i < j < d.len() implies d[i] != d[j] by {
            assert(d[i] == l[i] && d[j] == l[j]);
        }
        lemma_without_facts(d, t);
        assert forall|e: Target| #[trigger] d.contains(e) implies l.contains(e) by {
            let i = choose|i: int| 0 <= i < d.len() && d[i] == e;
            assert(l[i] == e);
        }
        if l.last() != t {
            let w = without(d, t);
            assert(!w.contains(l.last())) by {
                if w.contains(l.last()) {
                    assert(d.contains(l.last()));
                    let i = choose|i: int| 0 <= i < d.len() && d[i] == l.last();
                    assert(l[i] == l[l.len() - 1]);
                }
            }
            assert forall|e: Target| #[trigger] w.push(l.last()).contains(e) implies l.contains(e) by {
                if e != l.last() {
                    let i = choose|i: int| 0 <= i < w.len() + 1 && w.push(l.last())[i] == e;
                    assert(w[i] == e);
                    assert(w.contains(e));
                } else {
                    assert(l[l.len() - 1] == e);
                }
            }
            assert forall|e: Target| w.push(l.last()).contains(e) && e == t implies false by {
                let i = choose|i: int| 0 <= i < w.len() + 1 && w.push(l.last())[i] == e;
                if i < w.len() {
                    assert(w[i] == e);
                }
            }
            assert forall|i: int, j: int| 0 <= i < j < w.len() + 1 implies w.push(l.last())[i]
                != w.push(l.last())[j] by {
                if j == w.len() {
                    assert(w.push(l.last())[i] == w[i]);
                    assert(w.contains(w[i]));
                }
            }
        }
    }
}

/// Lists of sources other than `s` are those of `old`; `s` has `l`.
pub open spec fn changed_only(new: Table, old: Table, s: Seq<char>, l: Seq<Target>) -> bool {
    &&& list_for(new, s) == l
    &&& forall|x: Seq<char>| x != s ==> #[trigger] list_for(new, x) == list_for(old, x)
}

impl ChannelTable {
    /// Adds a channel at the end of its source's list. Fails with
    /// `ChannelAlreadyExists` when the table holds it already.
    pub fn insert(&mut self, c: &ChannelSpec) -> (r: Result<(), AgentError>)
        requires
            old(self).wf(),
        ensures
            final(self).wf(),
            r is Err <==> holds(old(self)@, c@),
            r is Err ==> r->Err_0 is ChannelAlreadyExists && final(self)@ == old(self)@,
            r is Ok ==> changed_only(
                final(self)@,
                old(self)@,
                c.source@,
                list_for(old(self)@, c.source@).push((c.target@, c.source_handle@, c.target_handle@)),
            ),
    {
        let ghost t: Target = (c.target@, c.source_handle@, c.target_handle@);
        let ghost old_t = self@;
        proof {
            lemma_list_for_wf(old_t, c.source@);
        }
        let item = (c.target.clone(), c.source_handle.clone(), c.target_handle.clone());
        assert(target_of(item) == t);
        match self.find(&c.source) {
            Some(i) => {
                let ghost l = self@[i as int].1;
                let mut k: usize = 0;
                while k < self.entries[i].1.len()
                    invariant
                        i < self.entries.len(),
                        self@ == old_t,
                        table_wf(old_t),
                        t == (c.target@, c.source_handle@, c.target_handle@),
                        l == list_for(old_t, c.source@),
                        old_t == old(self)@,
                        l == targets_model(self.entries[i as int].1),
                        k <= l.len(),
                        forall|m: int| 0 <= m < k ==> l[m] != t,
                    decreases self.entries[i as int].1.len() - k,
                {
                    let e = &self.entries[i].1[k];
                    assert(l[k as int] == target_of(*e));
                    if e.0 == c.target && e.1 == c.source_handle && e.2 == c.target_handle {
                        assert(l[k as int] == t);
                        assert(l.contains(t));
                        return Err(AgentError::ChannelAlreadyExists);
                    }
                    k = k + 1;
                }
                assert(!l.contains(t));
                let mut entry = self.entries.remove(i);
                entry.1.push(item);
                self.entries.insert(i, entry);
                let ghost nl = l.push(t);
                assert(targets_model(entry.1) =~= nl);
                assert(self@ =~= old_t.update(i as int, (c.source@, nl)));
                assert forall|a: int, b: int| 0 <= a < b < nl.len() implies nl[a] != nl[b] by {
                    if b == l.len() {
                        assert(l.contains(nl[a]));
                    }
                }
                assert(table_wf(self@));
                assert(l == list_for(old_t, c.source@));
                proof {
                    lemma_list_for_wf(self@, c.source@);
                    assert(self@[i as int].0 == c.source@);
                    assert(list_for(self@, c.source@) == nl);
                    assert forall|x: Seq<char>| x != c.source@ implies #[trigger] list_for(self@, x)
                        == list_for(old_t, x) by {
                        lemma_list_for_wf(self@, x);
                        lemma_list_for_wf(old_t, x);
                        if exists|j: int| 0 <= j < old_t.len() && (#[trigger] old_t[j]).0 == x {
                            let j = choose|j: int| 0 <= j < old_t.len() && (#[trigger] old_t[j]).0 == x;
                            assert(self@[j] == old_t[j]);
                        } else {
                            assert forall|j: int| 0 <= j < self@.len() implies (#[trigger] self@[j]).0 != x by {
                                if j != i {
                                    assert(self@[j] == old_t[j]);
                                }
                            }
                        }
                    }
                }
                Ok(())
            },
            None => {
                let mut v: Vec<(String, String, String)> = Vec::new();
                v.push(item);
                self.entries.push((c.source.clone(), v));
                assert(targets_model(v) =~= seq![t]);
                assert(self@ =~= old_t.push((c.source@, seq![t])));
                assert(list_for(old_t, c.source@) =~= Seq::<Target>::empty());
                assert(seq![t] =~= list_for(old_t, c.source@).push(t));
                proof {
                    assert forall|x: Seq<char>| x != c.source@ implies #[trigger] list_for(self@, x)
                        == list_for(old_t, x) by {
                        lemma_list_for_push(old_t, c.source@, seq![t], x);
                    }
                    lemma_list_for_push(old_t, c.source@, seq![t], c.source@);
                }
                assert(table_wf(self@));
                Ok(())
            },
        }
    }
}

proof fn lemma_drop_target_facts(l: Seq<Target>, agent: Seq<char>)
    requires
        l.no_duplicates(),
    ensures
        drop_target(l, agent).no_duplicates(),
        forall|e: Target| #[trigger] drop_target(l, agent).contains(e) ==> l.contains(e) && e.0 != agent,
    decreases l.len(),
{
    if l.len() > 0 {
        let d = l.drop_last();
        assert forall|i: int, j: int| 0 <= i < j < d.len() implies d[i] != d[j] by {
            assert(d[i] == l[i] && d[j] == l[j]);
        }
        lemma_drop_target_facts(d, agent);
        assert forall|e: Target| #[trigger] d.contains(e) implies l.contains(e) by {
            let i = choose|i: int| 0 <= i < d.len() && d[i] == e;
            assert(l[i] == e);
        }
        if l.last().0 != agent {
            let w = drop_target(d, agent);
            assert(!w.contains(l.last())) by {
                if w.contains(l.last()) {
                    assert(d.contains(l.last()));
                    let i = choose|i: int| 0 <= i < d.len() && d[i] == l.last();
                    assert(l[i] == l[l.len() - 1]);
                }
            }
            assert forall|e: Target| #[trigger] w.push(l.last()).contains(e) implies l.contains(e)
                && e.0 != agent by {
                let i = choose|i: int| 0 <= i < w.len() + 1 && w.push(l.last())[i] == e;
                if i < w.len() {
                    assert(w[i] == e);
                    assert(w.contains(e));
                } else {
                    assert(l[l.len() - 1] == e);
                }
            }
            assert forall|i: int, j: int| 0 <= i < j < w.len() + 1 implies w.push(l.last())[i]
                != w.push(l.last())[j] by {
                if j == w.len() {
                    assert(w.push(l.last())[i] == w[i]);
                    assert(w.contains(w[i]));
                }
            }
        }
    }
}

/// The lists of a table rebuilt from a prefix of `old` by `f` on each kept
/// entry; every key of `new` comes from that prefix.
pub open spec fn rebuilt_from(new: Table, old: Table, n: int, f: spec_fn(Seq<char>, Seq<Target>) -> Seq<Target>) -> bool {
    &&& table_wf(new)
    &&& forall|x: Seq<char>| #[trigger] list_for(new, x) == f(x, list_for(old.subrange(0, n), x))
    &&& forall|m: int| 0 <= m < new.len() ==> exists|j: int| 0 <= j < n && old[j].0 == (#[trigger] new[m]).0
}

/// One more entry of `old` taken into a rebuilt table, kept as `(k, nl)` or
/// left out when `nl` is empty.
proof fn lemma_rebuild_step(
    new: Table,
    old: Table,
    i: int,
    f: spec_fn(Seq<char>, Seq<Target>) -> Seq<Target>,
    nl: Seq<Target>,
)
    requires
        table_wf(old),
        0 <= i < old.len(),
        rebuilt_from(new, old, i, f),
        nl == f(old[i].0, old[i].1),
        nl.no_duplicates(),
        forall|x: Seq<char>| #[trigger] f(x, Seq::<Target>::empty()) == Seq::<Target>::empty(),
    ensures
        nl.len() > 0 ==> rebuilt_from(new.push((old[i].0, nl)), old, i + 1, f),
        nl.len() == 0 ==> rebuilt_from(new, old, i + 1, f),
{
    let k = old[i].0;
    let p = old.subrange(0, i);
    let q = old.subrange(0, i + 1);
    assert(q =~= p.push(old[i]));
    assert forall|j: int| 0 <= j < p.len() implies (#[trigger] p[j]).0 != k by {
        assert(old[j].0 != old[i].0);
    }
    assert forall|m: int| 0 <= m < new.len() implies (#[trigger] new[m]).0 != k by {
        let j = choose|j: int| 0 <= j < i && old[j].0 == new[m].0;
        assert(old[j].0 != old[i].0);
    }
    lemma_list_for_push(p, k, old[i].1, k);
    lemma_list_for_absent(p, k);
    lemma_list_for_absent(new, k);
    assert forall|x: Seq<char>| x != k implies #[trigger] list_for(q, x) == list_for(p, x) by {
        lemma_list_for_push(p, k, old[i].1, x);
    }
    if nl.len() > 0 {
        let u = new.push((k, nl));
        assert forall|x: Seq<char>| #[trigger] list_for(u, x) == f(x, list_for(q, x)) by {
            lemma_list_for_push(new, k, nl, x);
        }
        assert forall|m: int| 0 <= m < u.len() implies exists|j: int| 0 <= j < i + 1 && old[j].0
            == (#[trigger] u[m]).0 by {
            if m < new.len() {
                assert(u[m] == new[m]);
                let j = choose|j: int| 0 <= j < i && old[j].0 == new[m].0;
                assert(old[j].0 == u[m].0);
            } else {
                assert(old[i].0 == u[m].0);
            }
        }
        assert forall|a: int, b: int| 0 <= a < b < u.len() implies (#[trigger] u[a]).0 != (
        #[trigger] u[b]).0 by {
            if b == new.len() {
                assert(u[a] == new[a]);
            } else {
                assert(u[a] == new[a] && u[b] == new[b]);
            }
        }
        assert forall|a: int| 0 <= a < u.len() implies (#[trigger] u[a]).1.len() > 0
            && u[a].1.no_duplicates() by {
            if a < new.len() {
                assert(u[a] == new[a]);
            }
        }
    } else {
        assert forall|x: Seq<char>| #[trigger] list_for(new, x) == f(x, list_for(q, x)) by {
            if x == k {
                assert(list_for(new, x) == f(x, list_for(p, x)));
            }
        }
        assert forall|m: int| 0 <= m < new.len() implies exists|j: int| 0 <= j < i + 1 && old[j].0
            == (#[trigger] new[m]).0 by {
            let j = choose|j: int| 0 <= j < i && old[j].0 == new[m].0;
            assert(old[j].0 == new[m].0);
        }
    }
}

pub open spec fn remove_fn(s: Seq<char>, t: Target) -> spec_fn(Seq<char>, Seq<Target>) -> Seq<Target> {
    |x: Seq<char>, l: Seq<Target>| if x == s { without(l, t) } else { l }
}

pub open spec fn drop_agent_fn(agent: Seq<char>) -> spec_fn(Seq<char>, Seq<Target>) -> Seq<Target> {
    |x: Seq<char>, l: Seq<Target>| if x == agent { Seq::<Target>::empty() } else { drop_target(l, agent) }
}

fn without_vec(v: &Vec<(String, String, String)>, c: &ChannelSpec) -> (r: Vec<(String, String, String)>)
    ensures
        targets_model(r) == without(targets_model(*v), (c.target@, c.source_handle@, c.target_handle@)),
{
    let ghost t: Target = (c.target@, c.source_handle@, c.target_handle@);
    let ghost l = targets_model(*v);
    let mut out: Vec<(String, String, String)> = Vec::new();
    let mut k: usize = 0;
    assert(l.subrange(0, 0) =~= Seq::<Target>::empty());
    assert(targets_model(out) =~= Seq::<Target>::empty());
    while k < v.len()
        invariant
            k <= v.len(),
            l == targets_model(*v),
            t == (c.target@, c.source_handle@, c.target_handle@),
            targets_model(out) == without(l.subrange(0, k as int), t),
        decreases v.len() - k,
    {
        let ghost sub = l.subrange(0, k as int + 1);
        assert(sub.drop_last() =~= l.subrange(0, k as int));
        assert(sub.last() == target_of(v[k as int]));
        let e = &v[k];
        if !(e.0 == c.target && e.1 == c.source_handle && e.2 == c.target_handle) {
            let ghost before = targets_model(out);
            out.push((e.0.clone(), e.1.clone(), e.2.clone()));
            assert(targets_model(out) =~= before.push(target_of(v[k as int])));
        }
        k = k + 1;
    }
    assert(l.subrange(0, l.len() as int) =~= l);
    out
}

fn drop_target_vec(v: &Vec<(String, String, String)>, agent: &String) -> (r: Vec<(String, String, String)>)
    ensures
        targets_model(r) == drop_target(targets_model(*v), agent@),
{
    let ghost l = targets_model(*v);
    let mut out: Vec<(String, String, String)> = Vec::new();
    let mut k: usize = 0;
    assert(l.subrange(0, 0) =~= Seq::<Target>::empty());
    assert(targets_model(out) =~= Seq::<Target>::empty());
    while k < v.len()
        invariant
            k <= v.len(),
            l == targets_model(*v),
            targets_model(out) == drop_target(l.subrange(0, k as int), agent@),
        decreases v.len() - k,
    {
        let ghost sub = l.subrange(0, k as int + 1);
        assert(sub.drop_last() =~= l.subrange(0, k as int));
        assert(sub.last() == target_of(v[k as int]));
        let e = &v[k];
        if e.0 != *agent {
            let ghost before = targets_model(out);
            out.push((e.0.clone(), e.1.clone(), e.2.clone()));
            assert(targets_model(out) =~= before.push(target_of(v[k as int])));
        }
        k = k + 1;
    }
    assert(l.subrange(0, l.len() as int) =~= l);
    out
}

impl ChannelTable {
    /// Removes the channel `c`: its source's list loses that target, and a
    /// source left with no target leaves the table.
    pub fn remove(&mut self, c: &ChannelSpec)
        requires
            old(self).wf(),
        ensures
            final(self).wf(),
            changed_only(
                final(self)@,
                old(self)@,
                c.source@,
                without(list_for(old(self)@, c.source@), (c.target@, c.source_handle@, c.target_handle@)),
            ),
            !holds(final(self)@, c@),
    {
        let ghost old_t = self@;
        let ghost t: Target = (c.target@, c.source_handle@, c.target_handle@);
        let ghost f = remove_fn(c.source@, t);
        let mut out: Vec<(String, Vec<(String, String, String)>)> = Vec::new();
        let mut i: usize = 0;
        assert(table_model(out) =~= Seq::<(Seq<char>, Seq<Target>)>::empty());
        assert forall|x: Seq<char>| #[trigger] list_for(table_model(out), x) == f(x, list_for(old_t.subrange(0, 0), x)) by {
            assert(old_t.subrange(0, 0) =~= Seq::<(Seq<char>, Seq<Target>)>::empty());
        }
        while i < self.entries.len()
            invariant
                self@ == old_t,
                table_wf(old_t),
                i <= self.entries.len(),
                old_t.len() == self.entries.len(),
                t == (c.target@, c.source_handle@, c.target_handle@),
                f == remove_fn(c.source@, t),
                rebuilt_from(table_model(out), old_t, i as int, f),
            decreases self.entries.len() - i,
        {
            let ghost before = table_model(out);
            assert(old_t[i as int] == (self.entries[i as int].0@, targets_model(self.entries[i as int].1)));
            let nl = if self.entries[i].0 == c.source {
                without_vec(&self.entries[i].1, c)
            } else {
                copy_targets(&self.entries[i].1)
            };
            proof {
                lemma_without_facts(old_t[i as int].1, t);
                assert forall|x: Seq<char>| #[trigger] f(x, Seq::<Target>::empty()) == Seq::<Target>::empty() by {
                    assert(without(Seq::<Target>::empty(), t) == Seq::<Target>::empty());
                }
                lemma_rebuild_step(before, old_t, i as int, f, targets_model(nl));
            }
            if nl.len() > 0 {
                out.push((self.entries[i].0.clone(), nl));
                assert(table_model(out) =~= before.push((old_t[i as int].0, targets_model(nl))));
            }
            i = i + 1;
        }
        assert(old_t.subrange(0, old_t.len() as int) =~= old_t);
        self.entries = out;
        proof {
            let s = c.source@;
            assert(list_for(self@, s) == f(s, list_for(old_t, s)));
            assert forall|x: Seq<char>| x != s implies #[trigger] list_for(self@, x) == list_for(old_t, x) by {
                assert(list_for(self@, x) == f(x, list_for(old_t, x)));
            }
            lemma_list_for_wf(old_t, s);
            if exists|j: int| 0 <= j < old_t.len() && (#[trigger] old_t[j]).0 == s {
                let j = choose|j: int| 0 <= j < old_t.len() && (#[trigger] old_t[j]).0 == s;
                assert(list_for(old_t, s) == old_t[j].1);
            } else {
                assert(list_for(old_t, s) =~= Seq::<Target>::empty());
            }
            lemma_without_facts(list_for(old_t, s), t);
        }
    }

    /// Removes every channel from or to `agent`.
    pub fn remove_agent(&mut self, agent: &String)
        requires
            old(self).wf(),
        ensures
            final(self).wf(),
            list_for(final(self)@, agent@) == Seq::<Target>::empty(),
            forall|x: Seq<char>|
                x != agent@ ==> #[trigger] list_for(final(self)@, x) == drop_target(
                    list_for(old(self)@, x),
                    agent@,
                ),
    {
        let ghost old_t = self@;
        let ghost f = drop_agent_fn(agent@);
        let mut out: Vec<(String, Vec<(String, String, String)>)> = Vec::new();
        let mut i: usize = 0;
        assert(table_model(out) =~= Seq::<(Seq<char>, Seq<Target>)>::empty());
        assert forall|x: Seq<char>| #[trigger] list_for(table_model(out), x) == f(x, list_for(old_t.subrange(0, 0), x)) by {
            assert(old_t.subrange(0, 0) =~= Seq::<(Seq<char>, Seq<Target>)>::empty());
        }
        while i < self.entries.len()
            invariant
                self@ == old_t,
                table_wf(old_t),
                i <= self.entries.len(),
                old_t.len() == self.entries.len(),
                f == drop_agent_fn(agent@),
                rebuilt_from(table_model(out), old_t, i as int, f),
            decreases self.entries.len() - i,
        {
            let ghost before = table_model(out);
            assert(old_t[i as int] == (self.entries[i as int].0@, targets_model(self.entries[i as int].1)));
            let nl = if self.entries[i].0 == *agent {
                let e: Vec<(String, String, String)> = Vec::new();
                assert(targets_model(e) =~= Seq::<Target>::empty());
                e
            } else {
                drop_target_vec(&self.entries[i].1, agent)
            };
            proof {
                lemma_drop_target_facts(old_t[i as int].1, agent@);
                assert forall|x: Seq<char>| #[trigger] f(x, Seq::<Target>::empty()) == Seq::<Target>::empty() by {
                    assert(drop_target(Seq::<Target>::empty(), agent@) == Seq::<Target>::empty());
                }
                lemma_rebuild_step(before, old_t, i as int, f, targets_model(nl));
            }
            if nl.len() > 0 {
                out.push((self.entries[i].0.clone(), nl));
                assert(table_model(out) =~= before.push((old_t[i as int].0, targets_model(nl))));
            }
            i = i + 1;
        }
        assert(old_t.subrange(0, old_t.len() as int) =~= old_t);
        self.entries = out;
        proof {
            assert(list_for(self@, agent@) == f(agent@, list_for(old_t, agent@)));
            assert forall|x: Seq<char>| x != agent@ implies #[trigger] list_for(self@, x) == drop_target(list_for(old_t, x), agent@) by {
                assert(list_for(self@, x) == f(x, list_for(old_t, x)));
            }
        }
    }
}

/// Once a channel is added, the table holds it; adding the same quadruple
/// again is then refused.
pub proof fn law_added_channel_is_held(new: Table, old: Table, c: (Seq<char>, Seq<char>, Seq<char>, Seq<char>))
    requires
        changed_only(new, old, c.0, list_for(old, c.0).push((c.2, c.1, c.3))),
    ensures
        holds(new, c),
{
    let l = list_for(new, c.0);
    assert(l[l.len() - 1] == (c.2, c.1, c.3));
}

/// Removing entries adds none.
pub proof fn lemma_without_within(l: Seq<Target>, t: Target, e: Target)
    requires
        without(l, t).contains(e),
    ensures
        l.contains(e),
    decreases l.len(),
{
    if l.len() > 0 {
        let d = l.drop_last();
        let w = without(d, t);
        if w.contains(e) {
            lemma_without_within(d, t, e);
            let i = choose|i: int| 0 <= i < d.len() && d[i] == e;
            assert(l[i] == e);
        } else {
            assert(l.last() != t);
            assert(without(l, t) == w.push(l.last()));
            let i = choose|i: int| 0 <= i < w.len() + 1 && w.push(l.last())[i] == e;
            if i < w.len() {
                assert(w[i] == e);
            }
            assert(l[l.len() - 1] == e);
        }
    }
}

} // verus!
