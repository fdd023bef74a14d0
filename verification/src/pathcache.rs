//! The names of the commands found on the search path, kept sorted and
//! without repeats; the caller reads the directories.
use vstd::prelude::*;
use crate::text::{chars_of, str_eq};
use crate::tab::{lex_le, lex_le_chars, lemma_lex_le_total, lemma_lex_le_trans};
use crate::commands::lines_view;

verus! {

/// `a` sorts strictly before `b`.
pub open spec fn lex_lt(a: Seq<char>, b: Seq<char>) -> bool {
    lex_le(a, b) && a != b
}

/// Each name sorts strictly before the next ones.
pub open spec fn strictly_sorted(s: Seq<Seq<char>>) -> bool {
    forall|i: int, j: int| 0 <= i < j < s.len() ==> lex_lt(#[trigger] s[i], #[trigger] s[j])
}

proof fn lemma_lex_le_antisym(a: Seq<char>, b: Seq<char>)
    requires
        lex_le(a, b),
        lex_le(b, a),
    ensures
        a == b,
    decreases a.len(),
{
    if a.len() > 0 && b.len() > 0 {
        lemma_lex_le_antisym(a.skip(1), b.skip(1));
        assert(a =~= seq![a[0]] + a.skip(1));
        assert(b =~= seq![b[0]] + b.skip(1));
    } else {
        assert(a =~= b);
    }
}

/// The command names found on the search path.
#[derive(Debug)]
pub struct PathCache {
    names: Vec<String>,
}

impl PathCache {
    /// The names, in order.
    pub closed spec fn names(&self) -> Seq<Seq<char>> {
        lines_view(self.names@)
    }

    /// The names are strictly sorted: in order, and each once. Every cache
    /// keeps this.
    #[verifier::type_invariant]
    pub open spec fn wf(&self) -> bool {
        strictly_sorted(self.names())
    }

    /// A cache of the names found, each once, in order.
    pub fn from_names(found: &Vec<String>) -> (c: PathCache)
        ensures
            c.wf(),
            c.names().to_set() == lines_view(found@).to_set(),
    {
        let ghost fv = lines_view(found@);
        let mut names: Vec<String> = Vec::new();
        let mut i: usize = 0;
        assert(lines_view(names@).to_set() =~= fv.take(0).to_set());
        while i < found.len()
            invariant
                i <= found.len(),
                fv == lines_view(found@),
                fv.len() == found.len(),
                strictly_sorted(lines_view(names@)),
                lines_view(names@).to_set() == fv.take(i as int).to_set(),
            decreases found.len() - i,
        {
            let x = chars_of(found[i].as_str());
            assert(fv[i as int] == x@);
            let ghost t = lines_view(names@);
            let mut j: usize = 0;
            while j < names.len() && lex_le_chars(&chars_of(names[j].as_str()), &x) && !str_eq(
                names[j].as_str(),
                found[i].as_str(),
            )
                invariant
                    j <= names.len(),
                    i < found.len(),
                    x@ == found@[i as int]@,
                    t == lines_view(names@),
                    t.len() == names.len(),
                    forall|k: int| 0 <= k < j ==> lex_lt(#[trigger] t[k], x@),
                decreases names.len() - j,
            {
                assert(t[j as int] == names@[j as int]@);
                j = j + 1;
            }
            assert(fv.take(i + 1) =~= fv.take(i as int).push(x@));
            if j < names.len() && str_eq(names[j].as_str(), found[i].as_str()) {
                assert(t[j as int] == names@[j as int]@);
                assert(lines_view(names@).to_set() =~= fv.take(i + 1).to_set()) by {
                    assert(t.contains(x@));
                    assert(t.to_set().contains(x@));
                    fv.take(i as int).lemma_push_to_set_commute(x@);
                }
            } else {
                proof {
                    if j < names.len() {
                        assert(t[j as int] == names@[j as int]@);
                        lemma_lex_le_total(t[j as int], x@);
                    }
                }
                let ghost before = names@;
                names.insert(j, found[i].clone());
                let ghost u = lines_view(names@);
                assert(u =~= t.insert(j as int, x@));
                assert forall|a: int, b: int| 0 <= a < b < u.len() implies lex_lt(
                    #[trigger] u[a],
                    #[trigger] u[b],
                ) by {
                    if b < j {
                        assert(u[a] == t[a] && u[b] == t[b]);
                    } else if b == j {
                        assert(u[a] == t[a]);
                    } else if a == j {
                        assert(u[b] == t[b - 1]);
                        if b - 1 > j {
                            assert(lex_lt(t[j as int], t[b - 1]));
                            lemma_lex_le_trans(x@, t[j as int], t[b - 1]);
                            if x@ == t[b - 1] {
                                lemma_lex_le_antisym(t[j as int], x@);
                            }
                        }
                    } else if a < j {
                        assert(u[a] == t[a] && u[b] == t[b - 1]);
                    } else {
                        assert(u[a] == t[a - 1] && u[b] == t[b - 1]);
                    }
                }
                assert(u.to_set() =~= fv.take(i + 1).to_set()) by {
                    let ft = fv.take(i + 1);
                    let f0 = fv.take(i as int);
                    assert(ft =~= f0.push(x@));
                    assert forall|y: Seq<char>| u.contains(y) <==> ft.contains(y) by {
                        assert(t.to_set().contains(y) == f0.to_set().contains(y));
                        if u.contains(y) {
                            let k = choose|k: int| 0 <= k < u.len() && u[k] == y;
                            if k < j {
                                assert(t[k] == y);
                            } else if k > j {
                                assert(t[k - 1] == y);
                            }
                            if y != x@ {
                                assert(t.contains(y));
                                let m = choose|m: int| 0 <= m < f0.len() && f0[m] == y;
                                assert(ft[m] == y);
                            } else {
                                assert(ft[i as int] == y);
                            }
                        }
                        if ft.contains(y) {
                            let k = choose|k: int| 0 <= k < ft.len() && #[trigger] ft[k] == y;
                            if k < i {
                                assert(f0[k] == y);
                                assert(t.contains(y));
                                let m = choose|m: int| 0 <= m < t.len() && t[m] == y;
                                if m < j {
                                    assert(u[m] == y);
                                } else {
                                    assert(u[m + 1] == y);
                                }
                            } else {
                                assert(u[j as int] == y);
                            }
                        }
                    }
                }
            }
            i = i + 1;
        }
        assert(fv.take(found.len() as int) =~= fv);
        PathCache { names }
    }

    /// Whether `cmd` is one of the names.
    pub fn contains(&self, cmd: &str) -> (r: bool)
        ensures
            r == self.names().contains(cmd@),
    {
        let ghost nv = self.names();
        let mut i: usize = 0;
        while i < self.names.len()
            invariant
                i <= self.names.len(),
                nv == lines_view(self.names@),
                nv.len() == self.names.len(),
                forall|k: int| 0 <= k < i ==> nv[k] != cmd@,
            decreases self.names.len() - i,
        {
            assert(nv[i as int] == self.names@[i as int]@);
            if str_eq(self.names[i].as_str(), cmd) {
                return true;
            }
            i = i + 1;
        }
        false
    }
}

/// The names of the commands found on the search path, sorted.
pub fn get_cached_commands(cache: &PathCache) -> (r: Vec<String>)
    ensures
        lines_view(r@) == cache.names(),
        strictly_sorted(lines_view(r@)),
{
    proof {
        use_type_invariant(cache);
    }
    let mut r: Vec<String> = Vec::new();
    let mut i: usize = 0;
    while i < cache.names.len()
        invariant
            i <= cache.names.len(),
            lines_view(r@) == lines_view(cache.names@).take(i as int),
        decreases cache.names.len() - i,
    {
        let ghost before = r@;
        r.push(cache.names[i].clone());
        assert(lines_view(r@) =~= lines_view(before).push(cache.names@[i as int]@));
        assert(lines_view(cache.names@).take(i + 1) =~= lines_view(cache.names@).take(i as int).push(
            cache.names@[i as int]@,
        ));
        i = i + 1;
    }
    assert(lines_view(cache.names@).take(cache.names.len() as int) =~= lines_view(cache.names@));
    r
}

} // verus!
