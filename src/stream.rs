use vstd::prelude::*;

use crate::text::{all_white, decimal, has_char, is_white_space, lead_white, owned, to_decimal, trail_run, trimmed, white_space};

verus! {

/// A character that a stream name may not hold.
pub open spec fn forbidden_char(c: char) -> bool {
    c == '\\' || c == ':' || c == '*' || c == '?' || c == '"' || c == '<' || c == '>' || c == '|'
}

/// A path segment of `s` starts at `k`.
pub open spec fn segment_start(s: Seq<char>, k: int) -> bool {
    k == 0 || s[k - 1] == '/'
}

/// A path segment of `s` ends at `k`.
pub open spec fn segment_end(s: Seq<char>, k: int) -> bool {
    k == s.len() || s[k] == '/'
}

/// At `k` the path `s` has a leading, trailing or doubled `/`, or a segment
/// `.` or `..` starts there.
pub open spec fn path_defect_at(s: Seq<char>, k: int) -> bool {
    ||| k == 0 && s[0] == '/'
    ||| k == s.len() - 1 && s[k] == '/'
    ||| k + 1 < s.len() && s[k] == '/' && s[k + 1] == '/'
    ||| segment_start(s, k) && s[k] == '.' && segment_end(s, k + 1)
    ||| segment_start(s, k) && k + 1 < s.len() && s[k] == '.' && s[k + 1] == '.' && segment_end(
        s,
        k + 2,
    )
}

/// A stream name is valid when it is not blank, a name with `/` in it is a
/// clean relative path, and no forbidden character occurs.
pub open spec fn valid_stream_name(s: Seq<char>) -> bool {
    &&& !all_white(s)
    &&& (has_char(s, '/') ==> (forall|k: int| 0 <= k < s.len() ==> !path_defect_at(s, k)))
    &&& (forall|k: int| 0 <= k < s.len() ==> !forbidden_char(#[trigger] s[k]))
}

/// Tests a stream name.
pub fn is_valid_stream_name(name: &str) -> (r: bool)
    ensures
        r == valid_stream_name(name@),
{
    let n = name.unicode_len();
    let mut blank = true;
    let mut slash = false;
    let mut i: usize = 0;
    while i < n
        invariant
            n == name@.len(),
            i <= n,
            blank == (forall|k: int| 0 <= k < i ==> white_space(#[trigger] name@[k])),
            slash == (exists|k: int| 0 <= k < i && name@[k] == '/'),
            forall|k: int| 0 <= k < i ==> !forbidden_char(#[trigger] name@[k]),
        decreases n - i,
    {
        let c = name.get_char(i);
        if c == '\\' || c == ':' || c == '*' || c == '?' || c == '"' || c == '<' || c == '>' || c
            == '|' {
            assert(forbidden_char(name@[i as int]));
            assert(!(forall|k: int| 0 <= k < name@.len() ==> !forbidden_char(#[trigger] name@[k])));
            assert(!valid_stream_name(name@));
            return false;
        }
        if !is_white_space(c) {
            blank = false;
        }
        if c == '/' {
            slash = true;
        }
        i = i + 1;
    }
    if blank {
        return false;
    }
    if !slash {
        return true;
    }
    assert(has_char(name@, '/'));
    let mut k: usize = 0;
    while k < n
        invariant
            n == name@.len(),
            k <= n,
            forall|j: int| 0 <= j < k ==> !path_defect_at(name@, j),
            has_char(name@, '/'),
            !all_white(name@),
            forall|j: int| 0 <= j < name@.len() ==> !forbidden_char(#[trigger] name@[j]),
        decreases n - k,
    {
        let c = name.get_char(k);
        if k == 0 && c == '/' {
            assert(path_defect_at(name@, k as int));
            return false;
        }
        if k + 1 == n && c == '/' {
            assert(path_defect_at(name@, k as int));
            return false;
        }
        let start = k == 0 || name.get_char(k - 1) == '/';
        let next: Option<char> = if k + 1 < n { Some(name.get_char(k + 1)) } else { None };
        let next2: Option<char> = if k + 1 < n && k + 2 < n { Some(name.get_char(k + 2)) } else { None };
        if c == '/' && next == Some('/') {
            assert(path_defect_at(name@, k as int));
            return false;
        }
        if start && c == '.' && (next.is_none() || next == Some('/')) {
            assert(path_defect_at(name@, k as int));
            return false;
        }
        if start && c == '.' && next == Some('.') && (next2.is_none() || next2 == Some('/')) {
            assert(path_defect_at(name@, k as int));
            return false;
        }
        k = k + 1;
    }
    true
}

} // verus!

verus! {

/// A stream: its spec with an id, a display name and whether it runs.
pub struct AgentStream {
    pub id: String,
    pub name: String,
    pub running: bool,
    pub spec: crate::spec::AgentStreamSpec,
}

/// `name` with the number `i` appended.
pub open spec fn candidate(name: Seq<char>, i: nat) -> Seq<char> {
    name + decimal(i)
}

/// `x` is `name` with a number of at least `i` appended.
pub open spec fn later_candidate(name: Seq<char>, x: Seq<char>, i: nat) -> bool {
    exists|j: nat| j >= i && x == #[trigger] candidate(name, j)
}

/// How many of `names` are `name` with a number of at least `i` appended.
pub open spec fn count_later(names: Seq<Seq<char>>, name: Seq<char>, i: nat) -> nat
    decreases names.len(),
{
    if names.len() == 0 {
        0
    } else {
        count_later(names.drop_last(), name, i) + if later_candidate(name, names.last(), i) { 1nat } else { 0nat }
    }
}

/// The name that a new stream called `name` gets among streams named
/// `names`: the name trimmed when that is free, else `name` followed by the
/// least number from 2 on that gives a free name.
pub open spec fn is_unique_name(r: Seq<char>, name: Seq<char>, names: Seq<Seq<char>>) -> bool {
    if !names.contains(trimmed(name)) {
        r == trimmed(name)
    } else {
        exists|i: nat| #![trigger candidate(trimmed(name), i)] i >= 2 && r == candidate(trimmed(name), i)
            && !names.contains(r) && forall|j: nat| 2 <= j < i ==> names.contains(
            #[trigger] candidate(trimmed(name), j),
        )
    }
}

proof fn lemma_candidate_injective(name: Seq<char>, a: nat, b: nat)
    requires
        candidate(name, a) == candidate(name, b),
    ensures
        a == b,
{
    let ca = candidate(name, a);
    let cb = candidate(name, b);
    assert(ca.subrange(name.len() as int, ca.len() as int) =~= decimal(a));
    assert(cb.subrange(name.len() as int, cb.len() as int) =~= decimal(b));
    crate::text::lemma_decimal_injective(a, b);
}

proof fn lemma_count_later(names: Seq<Seq<char>>, name: Seq<char>, i: nat)
    ensures
        count_later(names, name, i) <= names.len(),
        count_later(names, name, i + 1) <= count_later(names, name, i),
        names.contains(candidate(name, i)) ==> count_later(names, name, i + 1) < count_later(names, name, i),
    decreases names.len(),
{
    if names.len() > 0 {
        let d = names.drop_last();
        lemma_count_later(d, name, i);
        let x = names.last();
        if later_candidate(name, x, i + 1) {
            let j = choose|j: nat| j >= i + 1 && x == #[trigger] candidate(name, j);
            assert(later_candidate(name, x, i));
        }
        if names.contains(candidate(name, i)) {
            if x == candidate(name, i) {
                assert(later_candidate(name, x, i));
                if later_candidate(name, x, i + 1) {
                    let j = choose|j: nat| j >= i + 1 && x == #[trigger] candidate(name, j);
                    lemma_candidate_injective(name, i, j);
                }
            } else {
                let k = choose|k: int| 0 <= k < names.len() && names[k] == candidate(name, i);
                assert(d[k] == names[k]);
                assert(d.contains(candidate(name, i)));
            }
        }
    }
}

fn contains_name(names: &Vec<String>, x: &String) -> (r: bool)
    ensures
        r == crate::spec::strings_model(*names).contains(x@),
{
    let ghost m = crate::spec::strings_model(*names);
    let mut i: usize = 0;
    while i < names.len()
        invariant
            i <= names.len(),
            m == crate::spec::strings_model(*names),
            forall|j: int| 0 <= j < i ==> m[j] != x@,
        decreases names.len() - i,
    {
        if names[i] == *x {
            assert(m[i as int] == x@);
            return true;
        }
        i = i + 1;
    }
    false
}

proof fn lemma_lead_white(s: Seq<char>, m: int)
    requires
        0 <= m <= s.len(),
        forall|k: int| 0 <= k < m ==> white_space(#[trigger] s[k]),
        m == s.len() || !white_space(s[m]),
    ensures
        lead_white(s) == m,
    decreases m,
{
    if m > 0 {
        let d = s.drop_first();
        assert forall|k: int| 0 <= k < m - 1 implies white_space(#[trigger] d[k]) by {
            assert(d[k] == s[k + 1]);
        }
        if m < s.len() {
            assert(d[m - 1] == s[m]);
        }
        lemma_lead_white(d, m - 1);
    }
}

proof fn lemma_trail_run(s: Seq<char>, m: int)
    requires
        0 <= m <= s.len(),
        forall|k: int| s.len() - m <= k < s.len() ==> white_space(#[trigger] s[k]),
        m == s.len() || !white_space(s[s.len() - m - 1]),
    ensures
        trail_run(s) == m,
    decreases m,
{
    if m > 0 {
        let d = s.drop_last();
        assert forall|k: int| d.len() - (m - 1) <= k < d.len() implies white_space(#[trigger] d[k]) by {
            assert(d[k] == s[k]);
        }
        if m < s.len() {
            assert(d[d.len() - (m - 1) - 1] == s[s.len() - m - 1]);
        }
        lemma_trail_run(d, m - 1);
    }
}

/// `s` without white space at either end.
pub fn trim(s: &str) -> (r: String)
    ensures
        r@ == trimmed(s@),
{
    let n = s.unicode_len();
    let mut a: usize = 0;
    while a < n && is_white_space(s.get_char(a))
        invariant
            n == s@.len(),
            a <= n,
            forall|k: int| 0 <= k < a ==> white_space(#[trigger] s@[k]),
        decreases n - a,
    {
        a = a + 1;
    }
    proof {
        lemma_lead_white(s@, a as int);
    }
    if a == n {
        assert(all_white(s@));
        return owned(s.substring_char(n, n));
    }
    assert(!all_white(s@));
    let mut b: usize = 0;
    while b < n && is_white_space(s.get_char(n - 1 - b))
        invariant
            n == s@.len(),
            a < n,
            !white_space(s@[a as int]),
            b <= n - 1 - a,
            forall|k: int| n - b <= k < n ==> white_space(#[trigger] s@[k]),
        decreases n - b,
    {
        b = b + 1;
    }
    proof {
        lemma_trail_run(s@, b as int);
    }
    owned(s.substring_char(a, n - b))
}

/// The name a new stream called `name` gets when `names` are taken: see
/// `is_unique_name`.
pub fn unique_name(name: &str, names: &Vec<String>) -> (r: String)
    requires
        names@.len() + 3 <= usize::MAX,
    ensures
        is_unique_name(r@, name@, crate::spec::strings_model(*names)),
{
    let ghost m = crate::spec::strings_model(*names);
    let first = trim(name);
    if !contains_name(names, &first) {
        return first;
    }
    let ghost t = first@;
    let mut i: usize = 2;
    proof {
        lemma_count_later(m, t, 2);
    }
    loop
        invariant
            2 <= i,
            m == crate::spec::strings_model(*names),
            m.contains(trimmed(name@)),
            names@.len() + 3 <= usize::MAX,
            t == first@,
            t == trimmed(name@),
            count_later(m, t, i as nat) + i <= names@.len() + 2,
            forall|j: nat| 2 <= j < i ==> m.contains(#[trigger] candidate(t, j)),
        decreases count_later(m, t, i as nat),
    {
        let mut c = first.clone();
        let d = to_decimal(i);
        c.append(d.as_str());
        assert(c@ == candidate(t, i as nat));
        if !contains_name(names, &c) {
            assert(is_unique_name(c@, name@, m));
            return c;
        }
        proof {
            lemma_count_later(m, t, i as nat);
            lemma_count_later(m, t, (i + 1) as nat);
        }
        i = i + 1;
    }
}

impl AgentStream {
    /// A stopped stream named `name` with `spec`, under a fresh id.
    pub fn new(name: String, spec: crate::spec::AgentStreamSpec, ids: &mut crate::id::IdGen) -> (r: Self)
        requires
            old(ids).wf(),
            old(ids).next < usize::MAX,
        ensures
            r.id@ == decimal(old(ids).next as nat),
            r.name == name,
            !r.running,
            r.spec == spec,
            final(ids).next == old(ids).next + 1,
            final(ids).wf(),
    {
        AgentStream { id: crate::id::new_id(ids), name, running: false, spec }
    }

    pub fn id(&self) -> (r: &str)
        ensures
            r@ == self.id@,
    {
        self.id.as_str()
    }

    pub fn spec(&self) -> (r: &crate::spec::AgentStreamSpec)
        ensures
            *r == self.spec,
    {
        &self.spec
    }

    pub fn spec_mut(&mut self) -> (r: &mut crate::spec::AgentStreamSpec)
        ensures
            *r == old(self).spec,
            *final(self) == (AgentStream { spec: *final(r), ..*old(self) }),
    {
        &mut self.spec
    }

    pub fn name(&self) -> (r: &str)
        ensures
            r@ == self.name@,
    {
        self.name.as_str()
    }

    pub fn set_name(&mut self, name: String)
        ensures
            *final(self) == (AgentStream { name, ..*old(self) }),
    {
        self.name = name;
    }

    pub fn running(&self) -> (r: bool)
        ensures
            r == self.running,
    {
        self.running
    }
}

} // verus!
