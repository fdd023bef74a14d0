//! The table of aliases: names bound to replacement texts.
use vstd::prelude::*;
use crate::text::str_eq;

verus! {

/// Aliases, each name bound at most once.
#[derive(Debug)]
pub struct AliasTable {
    entries: Vec<(String, String)>,
}

/// The entries of the table as a map from name to value.
pub open spec fn entries_map(es: Seq<(String, String)>) -> Map<Seq<char>, Seq<char>>
    decreases es.len(),
{
    if es.len() == 0 {
        Map::empty()
    } else {
        entries_map(es.drop_last()).insert(es.last().0@, es.last().1@)
    }
}

/// No name occurs twice.
pub open spec fn unique_names(es: Seq<(String, String)>) -> bool {
    forall|i: int, j: int| 0 <= i < j < es.len() ==> es[i].0@ != es[j].0@
}

proof fn lemma_map_domain(es: Seq<(String, String)>, name: Seq<char>)
    ensures
        entries_map(es).contains_key(name) <==> exists|i: int| 0 <= i < es.len() && es[i].0@ == name,
    decreases es.len(),
{
    if es.len() > 0 {
        lemma_map_domain(es.drop_last(), name);
        if entries_map(es.drop_last()).contains_key(name) {
            let i = choose|i: int| 0 <= i < es.drop_last().len() && es.drop_last()[i].0@ == name;
            assert(es[i].0@ == name);
        }
        if exists|i: int| 0 <= i < es.len() && es[i].0@ == name {
            let i = choose|i: int| 0 <= i < es.len() && es[i].0@ == name;
            if i < es.len() - 1 {
                assert(es.drop_last()[i].0@ == name);
            }
        }
    }
}

proof fn lemma_map_value(es: Seq<(String, String)>, i: int)
    requires
        unique_names(es),
        0 <= i < es.len(),
    ensures
        entries_map(es).contains_key(es[i].0@),
        entries_map(es)[es[i].0@] == es[i].1@,
    decreases es.len(),
{
    if i < es.len() - 1 {
        lemma_map_value(es.drop_last(), i);
        assert(es.drop_last()[i] == es[i]);
        assert(es[i].0@ != es.last().0@);
    }
}

proof fn lemma_map_remove(es: Seq<(String, String)>, i: int)
    requires
        unique_names(es),
        0 <= i < es.len(),
    ensures
        entries_map(es.remove(i)) == entries_map(es).remove(es[i].0@),
    decreases es.len(),
{
    let name = es[i].0@;
    if i == es.len() - 1 {
        assert(es.remove(i) =~= es.drop_last());
        lemma_map_domain(es.drop_last(), name);
        if entries_map(es.drop_last()).contains_key(name) {
            let k = choose|k: int| 0 <= k < es.drop_last().len() && es.drop_last()[k].0@ == name;
            assert(es[k].0@ == es[i].0@);
        }
        assert(entries_map(es.drop_last()) =~= entries_map(es).remove(name));
    } else {
        let short = es.drop_last();
        assert(unique_names(short));
        lemma_map_remove(short, i);
        assert(es.remove(i).drop_last() =~= short.remove(i));
        assert(es.remove(i).last() == es.last());
        assert(es.last().0@ != name);
        assert(entries_map(es.remove(i)) =~= entries_map(es).remove(name));
    }
}

impl AliasTable {
    /// The aliases as a map from name to value.
    pub closed spec fn map(&self) -> Map<Seq<char>, Seq<char>> {
        entries_map(self.entries@)
    }

    pub closed spec fn wf(&self) -> bool {
        unique_names(self.entries@)
    }

    /// An empty table.
    pub fn new() -> (t: AliasTable)
        ensures
            t.wf(),
            t.map() == Map::<Seq<char>, Seq<char>>::empty(),
    {
        AliasTable { entries: Vec::new() }
    }

    fn find(&self, name: &str) -> (r: Option<usize>)
        requires
            self.wf(),
        ensures
            match r {
                Some(i) => i < self.entries@.len() && self.entries@[i as int].0@ == name@,
                None => !self.map().contains_key(name@),
            },
    {
        let mut i: usize = 0;
        while i < self.entries.len()
            invariant
                i <= self.entries@.len(),
                forall|k: int| 0 <= k < i ==> self.entries@[k].0@ != name@,
            decreases self.entries.len() - i,
        {
            if str_eq(self.entries[i].0.as_str(), name) {
                return Some(i);
            }
            i = i + 1;
        }
        proof {
            lemma_map_domain(self.entries@, name@);
        }
        None
    }

    /// The value bound to `name`, if any.
    pub fn get_alias(&self, name: &str) -> (r: Option<String>)
        requires
            self.wf(),
        ensures
            match r {
                Some(v) => self.map().contains_key(name@) && self.map()[name@] == v@,
                None => !self.map().contains_key(name@),
            },
    {
        match self.find(name) {
            Some(i) => {
                proof {
                    lemma_map_value(self.entries@, i as int);
                }
                Some(self.entries[i].1.clone())
            },
            None => None,
        }
    }

    /// Binds `name` to `value`, replacing an earlier binding.
    pub fn set_alias(&mut self, name: String, value: String)
        requires
            old(self).wf(),
        ensures
            final(self).wf(),
            final(self).map() == old(self).map().insert(name@, value@),
    {
        match self.find(name.as_str()) {
            Some(i) => {
                proof {
                    lemma_map_remove(self.entries@, i as int);
                }
                let ghost rest = self.entries@.remove(i as int);
                self.entries.remove(i);
                assert(self.entries@ == rest);
                proof {
                    lemma_map_domain(rest, name@);
                    if exists|k: int| 0 <= k < rest.len() && rest[k].0@ == name@ {
                        let k = choose|k: int| 0 <= k < rest.len() && rest[k].0@ == name@;
                        if k < i {
                            assert(old(self).entries@[k].0@ == name@);
                        } else {
                            assert(old(self).entries@[k + 1].0@ == name@);
                        }
                    }
                }
            },
            None => {
                proof {
                    lemma_map_domain(self.entries@, name@);
                }
            },
        }
        let ghost before = self.entries@;
        assert(!entries_map(before).contains_key(name@));
        self.entries.push((name, value));
        proof {
            lemma_map_domain(before, name@);
            assert(self.entries@.drop_last() =~= before);
            assert(self.map() =~= old(self).map().insert(name@, value@));
            assert forall|i: int, j: int| 0 <= i < j < self.entries@.len() implies self.entries@[i].0@
                != self.entries@[j].0@ by {
                if j == self.entries@.len() - 1 {
                    assert(before[i].0@ != name@);
                } else {
                    assert(self.entries@[i] == before[i]);
                    assert(self.entries@[j] == before[j]);
                }
            }
        }
    }

    /// Removes the binding of `name`; says whether there was one.
    pub fn remove_alias(&mut self, name: &str) -> (removed: bool)
        requires
            old(self).wf(),
        ensures
            final(self).wf(),
            removed == old(self).map().contains_key(name@),
            final(self).map() == old(self).map().remove(name@),
    {
        match self.find(name) {
            Some(i) => {
                proof {
                    lemma_map_remove(self.entries@, i as int);
                    lemma_map_value(self.entries@, i as int);
                }
                let ghost before = self.entries@;
                self.entries.remove(i);
                assert(self.entries@ == before.remove(i as int));
                assert forall|a: int, b: int| 0 <= a < b < self.entries@.len() implies self.entries@[a].0@
                    != self.entries@[b].0@ by {
                    let a0 = if a < i { a } else { a + 1 };
                    let b0 = if b < i { b } else { b + 1 };
                    assert(self.entries@[a] == before[a0]);
                    assert(self.entries@[b] == before[b0]);
                }
                true
            },
            None => {
                assert(old(self).map().remove(name@) =~= old(self).map());
                false
            },
        }
    }

    /// The names of all aliases.
    pub fn get_alias_names(&self) -> (names: Vec<String>)
        requires
            self.wf(),
        ensures
            names@.len() == self.map().dom().len(),
            forall|n: Seq<char>| #[trigger] self.map().contains_key(n) <==> exists|i: int|
                0 <= i < names@.len() && names@[i]@ == n,
            forall|i: int, j: int|
                0 <= i < j < names@.len() ==> #[trigger] names@[i]@ != #[trigger] names@[j]@,
    {
        let mut names: Vec<String> = Vec::new();
        for i in 0..self.entries.len()
            invariant
                names@.len() == i,
                forall|k: int| 0 <= k < i ==> #[trigger] names@[k]@ == self.entries@[k].0@,
        {
            names.push(self.entries[i].0.clone());
        }
        proof {
            lemma_dom_len(self.entries@);
            assert forall|n: Seq<char>| #[trigger] self.map().contains_key(n) <==> exists|i: int|
                0 <= i < names@.len() && names@[i]@ == n by {
                lemma_map_domain(self.entries@, n);
                if self.map().contains_key(n) {
                    let i = choose|i: int| 0 <= i < self.entries@.len() && self.entries@[i].0@ == n;
                    assert(names@[i]@ == n);
                }
            }
        }
        names
    }
}

proof fn lemma_dom_len(es: Seq<(String, String)>)
    requires
        unique_names(es),
    ensures
        entries_map(es).dom().finite(),
        entries_map(es).dom().len() == es.len(),
    decreases es.len(),
{
    if es.len() > 0 {
        let short = es.drop_last();
        assert(unique_names(short));
        lemma_dom_len(short);
        lemma_map_domain(short, es.last().0@);
        if entries_map(short).contains_key(es.last().0@) {
            let k = choose|k: int| 0 <= k < short.len() && short[k].0@ == es.last().0@;
            assert(es[k].0@ == es[es.len() - 1].0@);
        }
    }
}

/// After `set_alias(name, value)` the name reads back as `value`, and
/// every other name keeps its binding.
pub proof fn law_get_after_set(
    before: AliasTable,
    after: AliasTable,
    name: Seq<char>,
    value: Seq<char>,
    other: Seq<char>,
)
    requires
        after.map() == before.map().insert(name, value),
    ensures
        after.map().contains_key(name),
        after.map()[name] == value,
        other != name ==> after.map().contains_key(other) == before.map().contains_key(other),
        other != name && before.map().contains_key(other) ==> after.map()[other] == before.map()[other],
{
}

/// After `remove_alias(name)` the name is unbound, and every other name
/// keeps its binding.
pub proof fn law_remove_unbinds(before: AliasTable, after: AliasTable, name: Seq<char>, other: Seq<char>)
    requires
        after.map() == before.map().remove(name),
    ensures
        !after.map().contains_key(name),
        other != name ==> after.map().contains_key(other) == before.map().contains_key(other),
        other != name && before.map().contains_key(other) ==> after.map()[other] == before.map()[other],
{
}

} // verus!
