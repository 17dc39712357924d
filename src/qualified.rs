use vstd::prelude::*;
use crate::order::{lemma_path_lt_irreflexive, lemma_path_lt_total, lemma_path_lt_transitive, path_less, path_lt, path_view};

verus! {

/// A map keyed by qualified names, always held in lexicographic order of the
/// names.
#[derive(Clone, Debug)]
pub struct QualifiedMap<V> {
    entries: Vec<(Vec<String>, V)>,
}

/// Whether the names of `s` are in strictly increasing lexicographic order.
pub open spec fn paths_sorted<V>(s: Seq<(Seq<Seq<char>>, V)>) -> bool {
    forall|i: int, j: int| 0 <= i < j < s.len() ==> path_lt(#[trigger] s[i].0, #[trigger] s[j].0)
}

/// Whether the entries `s` define the container `k` with format `c`.
pub open spec fn path_defines<V>(s: Seq<(Seq<Seq<char>>, V)>, k: Seq<Seq<char>>, c: V) -> bool {
    exists|i: int| 0 <= i < s.len() && #[trigger] s[i] == (k, c)
}

/// Whether the entries `s` define a container named `k`.
pub open spec fn has_path<V>(s: Seq<(Seq<Seq<char>>, V)>, k: Seq<Seq<char>>) -> bool {
    exists|i: int| 0 <= i < s.len() && (#[trigger] s[i]).0 == k
}

impl<V> View for QualifiedMap<V> {
    type V = Seq<(Seq<Seq<char>>, V)>;

    closed spec fn view(&self) -> Seq<(Seq<Seq<char>>, V)> {
        self.entries@.map_values(|e: (Vec<String>, V)| (path_view(e.0@), e.1))
    }
}

impl<V> QualifiedMap<V> {
    /// The map's invariant: names are unique and in canonical order.
    pub open spec fn wf(&self) -> bool {
        paths_sorted(self@)
    }

    pub fn new() -> (r: QualifiedMap<V>)
        ensures
            r.wf(),
            r@.len() == 0,
    {
        QualifiedMap { entries: Vec::new() }
    }

    /// Number of entries.
    pub fn len(&self) -> (r: usize)
        ensures
            r == self@.len(),
    {
        self.entries.len()
    }

    /// Name of the `i`-th entry in canonical order.
    pub fn key(&self, i: usize) -> (r: &Vec<String>)
        requires
            i < self@.len(),
        ensures
            path_view(r@) == self@[i as int].0,
    {
        &self.entries[i].0
    }

    /// Value of the `i`-th entry in canonical order.
    pub fn value(&self, i: usize) -> (r: &V)
        requires
            i < self@.len(),
        ensures
            *r == self@[i as int].1,
    {
        &self.entries[i].1
    }

    /// Position of the entry named `name`, if there is one.
    pub fn position(&self, name: &Vec<String>) -> (r: Option<usize>)
        ensures
            r matches Some(i) ==> i < self@.len() && self@[i as int].0 == path_view(name@),
            r is None <==> !has_path(self@, path_view(name@)),
    {
        let mut i: usize = 0;
        while i < self.entries.len()
            invariant
                i <= self@.len(),
                self@.len() == self.entries@.len(),
                forall|j: int| 0 <= j < i ==> self@[j].0 != path_view(name@),
            decreases self.entries.len() - i,
        {
            if !path_less(&self.entries[i].0, name) && !path_less(name, &self.entries[i].0) {
                proof {
                    lemma_path_lt_total(self@[i as int].0, path_view(name@));
                }
                assert(self@[i as int].0 == path_view(name@));
                return Some(i);
            }
            proof {
                assert(self@[i as int].0 == path_view(self.entries@[i as int].0@));
                lemma_path_lt_irreflexive(path_view(name@));
            }
            i = i + 1;
        }
        None
    }

    /// Replaces the value of the `i`-th entry.
    pub fn set_value(&mut self, i: usize, v: V)
        requires
            i < old(self)@.len(),
        ensures
            final(self)@ == old(self)@.update(i as int, (old(self)@[i as int].0, v)),
    {
        let (k, _) = self.entries.remove(i);
        self.entries.insert(i, (k, v));
        assert(self@ =~= old(self)@.update(i as int, (old(self)@[i as int].0, v)));
    }

    /// Maps `name` to `format`, replacing an earlier entry of the same name.
    pub fn insert(&mut self, name: Vec<String>, format: V)
        requires
            old(self).wf(),
        ensures
            final(self).wf(),
            forall|k: Seq<Seq<char>>, c: V| #[trigger] path_defines(final(self)@, k, c) <==> if k == path_view(name@) {
                c == format
            } else {
                path_defines(old(self)@, k, c)
            },
    {
        let ghost s0 = self@;
        let mut p: usize = 0;
        while p < self.entries.len() && path_less(&self.entries[p].0, &name)
            invariant
                p <= self@.len(),
                self@ == s0,
                self@.len() == self.entries@.len(),
                forall|j: int| 0 <= j < p ==> path_lt(s0[j].0, path_view(name@)),
            decreases self.entries.len() - p,
        {
            p = p + 1;
        }
        let ghost nk = path_view(name@);
        if p < self.entries.len() && !path_less(&name, &self.entries[p].0) {
            proof {
                lemma_path_lt_total(s0[p as int].0, nk);
            }
            assert(s0[p as int].0 == nk);
            self.entries.remove(p);
            self.entries.insert(p, (name, format));
            proof {
                assert(self@ =~= s0.update(p as int, (nk, format)));
                assert forall|i: int, j: int| 0 <= i < j < self@.len() implies path_lt(#[trigger] self@[i].0, #[trigger] self@[j].0) by {
                    assert(self@[i].0 == s0[i].0);
                    assert(self@[j].0 == s0[j].0);
                }
                assert forall|k: Seq<Seq<char>>, c: V| #[trigger] path_defines(self@, k, c) <==> if k == nk {
                    c == format
                } else {
                    path_defines(s0, k, c)
                } by {
                    if path_defines(self@, k, c) {
                        let i = choose|i: int| 0 <= i < self@.len() && #[trigger] self@[i] == (k, c);
                        if i != p && k == nk {
                            if i < p {
                                lemma_path_lt_irreflexive(nk);
                            } else {
                                assert(path_lt(s0[p as int].0, s0[i].0));
                                lemma_path_lt_irreflexive(nk);
                            }
                        }
                        if i != p {
                            assert(s0[i] == self@[i]);
                        }
                    }
                    if k != nk && path_defines(s0, k, c) {
                        let i = choose|i: int| 0 <= i < s0.len() && #[trigger] s0[i] == (k, c);
                        assert(self@[i] == s0[i]);
                    }
                    if k == nk && c == format {
                        assert(self@[p as int] == (k, c));
                    }
                }
            }
        } else {
            self.entries.insert(p, (name, format));
            proof {
                assert(self@ =~= s0.insert(p as int, (nk, format)));
                if p < s0.len() {
                    lemma_path_lt_total(s0[p as int].0, nk);
                }
                assert forall|i: int, j: int| 0 <= i < j < self@.len() implies path_lt(#[trigger] self@[i].0, #[trigger] self@[j].0) by {
                    if j == p {
                    } else if i == p {
                        if j - 1 > p {
                            lemma_path_lt_transitive(nk, s0[p as int].0, s0[j - 1].0);
                        }
                    } else if i < p && j > p {
                        assert(path_lt(s0[i].0, nk));
                        lemma_path_lt_total(s0[p as int].0, nk);
                        if j - 1 > p {
                            lemma_path_lt_transitive(nk, s0[p as int].0, s0[j - 1].0);
                        }
                        lemma_path_lt_transitive(s0[i].0, nk, s0[j - 1].0);
                    } else if i > p {
                        assert(path_lt(s0[i - 1].0, s0[j - 1].0));
                    } else {
                        assert(path_lt(s0[i].0, s0[j].0));
                    }
                }
                assert forall|k: Seq<Seq<char>>, c: V| #[trigger] path_defines(self@, k, c) <==> if k == nk {
                    c == format
                } else {
                    path_defines(s0, k, c)
                } by {
                    if path_defines(self@, k, c) {
                        let i = choose|i: int| 0 <= i < self@.len() && #[trigger] self@[i] == (k, c);
                        if i < p {
                            assert(s0[i] == self@[i]);
                            if k == nk {
                                lemma_path_lt_irreflexive(nk);
                            }
                        } else if i > p {
                            assert(s0[i - 1] == self@[i]);
                            if k == nk {
                                assert(path_lt(nk, s0[i - 1].0));
                                lemma_path_lt_irreflexive(nk);
                            }
                        }
                    }
                    if k != nk && path_defines(s0, k, c) {
                        let i = choose|i: int| 0 <= i < s0.len() && #[trigger] s0[i] == (k, c);
                        if i < p {
                            assert(self@[i] == s0[i]);
                        } else {
                            assert(self@[i + 1] == s0[i]);
                        }
                    }
                    if k == nk && c == format {
                        assert(self@[p as int] == (k, c));
                    }
                }
            }
        }
    }
}

} // verus!
