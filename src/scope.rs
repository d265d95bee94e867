//! The variable environment: a mapping from names to values.
use vstd::prelude::*;

verus! {

/// Names bound to values, each name at most once.
pub struct Scope<V> {
    entries: Vec<(String, V)>,
}

/// The mapping that a list of entries with distinct names stands for.
pub open spec fn entries_map<V>(s: Seq<(String, V)>) -> Map<Seq<char>, V>
    decreases s.len(),
{
    if s.len() == 0 {
        Map::empty()
    } else {
        entries_map(s.drop_last()).insert(s.last().0@, s.last().1)
    }
}

pub open spec fn distinct_names<V>(s: Seq<(String, V)>) -> bool {
    forall|i: int, j: int| 0 <= i < j < s.len() ==> s[i].0@ != s[j].0@
}

proof fn lemma_entries_map<V>(s: Seq<(String, V)>)
    requires
        distinct_names(s),
    ensures
        forall|k: Seq<char>|
            entries_map(s).contains_key(k) <==> exists|i: int| 0 <= i < s.len() && s[i].0@ == k,
        forall|i: int|
            0 <= i < s.len() ==> entries_map(s).contains_key(#[trigger] s[i].0@) && entries_map(
                s,
            )[s[i].0@] == s[i].1,
    decreases s.len(),
{
    if s.len() > 0 {
        let t = s.drop_last();
        assert(distinct_names(t));
        lemma_entries_map(t);
        assert forall|k: Seq<char>|
            entries_map(s).contains_key(k) implies exists|i: int|
                0 <= i < s.len() && s[i].0@ == k by {
            if k != s.last().0@ {
                assert(entries_map(t).contains_key(k));
                let i = choose|i: int| 0 <= i < t.len() && t[i].0@ == k;
                assert(s[i] == t[i]);
            } else {
                assert(s[s.len() - 1].0@ == k);
            }
        }
        assert forall|i: int| 0 <= i < s.len() implies entries_map(s).contains_key(
            #[trigger] s[i].0@,
        ) && entries_map(s)[s[i].0@] == s[i].1 by {
            if i < s.len() - 1 {
                assert(s[i] == t[i]);
            }
        }
    }
}

/// Replacing the value of an entry rebinds its name.
proof fn lemma_entries_update<V>(s: Seq<(String, V)>, i: int, k: Seq<char>, v: V)
    requires
        distinct_names(s),
        0 <= i < s.len(),
        s[i].0@ == k,
    ensures
        forall|e: (String, V)|
            e.0@ == k && e.1 == v ==> distinct_names(#[trigger] s.update(i, e)) && entries_map(
                s.update(i, e),
            ) == entries_map(s).insert(k, v),
{
    assert forall|e: (String, V)| e.0@ == k && e.1 == v implies distinct_names(
        #[trigger] s.update(i, e),
    ) && entries_map(s.update(i, e)) == entries_map(s).insert(k, v) by {
        let u = s.update(i, e);
        assert forall|a: int, b: int| 0 <= a < b < u.len() implies u[a].0@ != u[b].0@ by {
            assert(u[a].0@ == s[a].0@);
            assert(u[b].0@ == s[b].0@);
        }
        lemma_entries_map(s);
        lemma_entries_map(u);
        let m = entries_map(s).insert(k, v);
        assert forall|x: Seq<char>| #[trigger] entries_map(u).contains_key(x) <==> m.contains_key(x) by {
            if entries_map(u).contains_key(x) {
                let j = choose|j: int| 0 <= j < u.len() && u[j].0@ == x;
                assert(u[j].0@ == s[j].0@);
                assert(entries_map(s).contains_key(s[j].0@));
            }
            if m.contains_key(x) {
                if x == k {
                    assert(entries_map(u).contains_key(u[i].0@));
                } else {
                    let j = choose|j: int| 0 <= j < s.len() && s[j].0@ == x;
                    assert(u[j].0@ == s[j].0@);
                    assert(entries_map(u).contains_key(u[j].0@));
                }
            }
        }
        assert forall|x: Seq<char>| #[trigger] entries_map(u).contains_key(x) implies entries_map(u)[x] == m[x] by {
            if x == k {
                assert(entries_map(u).contains_key(u[i].0@));
            } else {
                let j = choose|j: int| 0 <= j < u.len() && u[j].0@ == x;
                assert(u[j] == s[j]);
                assert(entries_map(s).contains_key(s[j].0@));
            }
        }
        assert(entries_map(u) =~= m);
    }
}

impl<V> View for Scope<V> {
    type V = Map<Seq<char>, V>;

    closed spec fn view(&self) -> Map<Seq<char>, V> {
        entries_map(self.entries@)
    }
}

impl<V: Copy> Scope<V> {
    /// Each name is bound at most once.
    pub closed spec fn wf(&self) -> bool {
        distinct_names(self.entries@)
    }

    pub fn new() -> (r: Scope<V>)
        ensures
            r.wf(),
            r@ == Map::<Seq<char>, V>::empty(),
    {
        Scope { entries: Vec::new() }
    }

    /// The index of the entry for `name`, if there is one.
    fn position(&self, name: &String) -> (r: Option<usize>)
        requires
            self.wf(),
        ensures
            match r {
                Some(i) => i < self.entries@.len() && self.entries@[i as int].0@ == name@,
                None => !self@.contains_key(name@),
            },
    {
        proof {
            lemma_entries_map(self.entries@);
        }
        let mut i: usize = 0;
        while i < self.entries.len()
            invariant
                i <= self.entries@.len(),
                forall|k: int| 0 <= k < i ==> self.entries@[k].0@ != name@,
            decreases self.entries@.len() - i,
        {
            if self.entries[i].0 == *name {
                return Some(i);
            }
            i = i + 1;
        }
        None
    }

    /// The value bound to `name`, if any.
    pub fn get(&self, name: &String) -> (r: Option<V>)
        requires
            self.wf(),
        ensures
            match r {
                Some(v) => self@.contains_key(name@) && self@[name@] == v,
                None => !self@.contains_key(name@),
            },
    {
        proof {
            lemma_entries_map(self.entries@);
        }
        match self.position(name) {
            Some(i) => Some(self.entries[i].1),
            None => None,
        }
    }

    /// Binds `name` to `value`, replacing any earlier value.
    pub fn insert(&mut self, name: String, value: V)
        requires
            old(self).wf(),
        ensures
            final(self).wf(),
            final(self)@ == old(self)@.insert(name@, value),
    {
        proof {
            lemma_entries_map(self.entries@);
        }
        let ghost before = self.entries@;
        match self.position(&name) {
            Some(i) => {
                self.entries.set(i, (name, value));
                assert(distinct_names(self.entries@));
                proof {
                    lemma_entries_map(self.entries@);
                }
                proof {
                    lemma_entries_update(before, i as int, name@, value);
                }
            },
            None => {
                self.entries.push((name, value));
                assert(self.entries@.drop_last() =~= before);
                assert(distinct_names(self.entries@)) by {
                    assert forall|a: int, b: int| 0 <= a < b < self.entries@.len() implies self.entries@[a].0@ != self.entries@[b].0@ by {
                        if b == self.entries@.len() - 1 {
                            assert(before[a] == self.entries@[a]);
                        } else {
                            assert(before[a] == self.entries@[a]);
                            assert(before[b] == self.entries@[b]);
                        }
                    }
                }
            },
        }
    }
}

} // verus!
