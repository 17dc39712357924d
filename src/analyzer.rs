use vstd::prelude::*;
use crate::format::{collect_container_refs, container_mentions, has_name, ContainerFormat};
use crate::graph::{adjacency_of, lemma_num_true_bound, lemma_num_true_full, lemma_num_true_none, lemma_num_true_set, num_true, reachable_from, reaches};
use crate::order::lemma_str_lt_irreflexive;
use crate::registry::{defines, has_container, names_sorted, Registry};
use crate::config::CodeGeneratorConfig;

verus! {

/// A reference to a container that neither the registry nor the external
/// definitions provide.
#[derive(Clone, Debug, PartialEq, Eq)]
pub struct UnresolvedReference {
    /// The container whose format holds the reference.
    pub container: String,
    /// The name that could not be resolved.
    pub name: String,
}

/// The edges of the dependency graph of the entries `r`: container `a`
/// references container `b`. Nodes are positions in canonical order.
pub open spec fn registry_edge(r: Seq<(Seq<char>, ContainerFormat)>) -> spec_fn(int, int) -> bool {
    |a: int, b: int| 0 <= a < r.len() && 0 <= b < r.len() && container_mentions(r[a].1, r[b].0)
}

/// Container `i` of `r` references `n`, a name that neither `r` nor the
/// external names `ext` provide.
pub open spec fn unresolved_at(r: Seq<(Seq<char>, ContainerFormat)>, ext: Set<Seq<char>>, i: int, n: Seq<char>) -> bool {
    &&& 0 <= i < r.len()
    &&& container_mentions(r[i].1, n)
    &&& !has_container(r, n)
    &&& !ext.contains(n)
}

/// The names held by the strings of `v`.
pub open spec fn name_set(v: Seq<String>) -> Set<Seq<char>> {
    Set::new(|n: Seq<char>| has_name(v, n))
}

/// Whether some container of `r` holds an unresolved reference.
pub open spec fn has_unresolved(r: Seq<(Seq<char>, ContainerFormat)>, ext: Set<Seq<char>>) -> bool {
    exists|i: int, n: Seq<char>| #[trigger] unresolved_at(r, ext, i, n)
}

/// `u` names the first container of `r`, in canonical order, that holds an
/// unresolved reference, and one such reference in it.
pub open spec fn reports(r: Seq<(Seq<char>, ContainerFormat)>, ext: Set<Seq<char>>, u: UnresolvedReference) -> bool {
    exists|i: int| #[trigger] unresolved_at(r, ext, i, u.name@) && r[i].0 == u.container@
        && forall|j: int, m: Seq<char>| 0 <= j < i ==> !#[trigger] unresolved_at(r, ext, j, m)
}

proof fn lemma_names_unique(r: Seq<(Seq<char>, ContainerFormat)>, i: int, j: int)
    requires
        names_sorted(r),
        0 <= i < r.len(),
        0 <= j < r.len(),
        r[i].0 == r[j].0,
    ensures
        i == j,
{
    if i < j {
        assert(crate::order::str_lt(r[i].0, r[j].0));
        lemma_str_lt_irreflexive(r[i].0);
    } else if j < i {
        assert(crate::order::str_lt(r[j].0, r[i].0));
        lemma_str_lt_irreflexive(r[i].0);
    }
}

fn contains_name(v: &Vec<String>, n: &String) -> (r: bool)
    ensures
        r == has_name(v@, n@),
{
    let mut i: usize = 0;
    while i < v.len()
        invariant
            i <= v.len(),
            forall|k: int| 0 <= k < i ==> v@[k]@ != n@,
        decreases v.len() - i,
    {
        if v[i] == *n {
            return true;
        }
        i = i + 1;
    }
    false
}

/// Builds the adjacency lists of the dependency graph, or reports a
/// reference that nothing resolves. References to external names add no edge.
pub fn dependency_graph(reg: &Registry, ext: &Vec<String>) -> (res: Result<Vec<Vec<usize>>, UnresolvedReference>)
    requires
        reg.wf(),
    ensures
        res is Ok <==> !has_unresolved(reg@, name_set(ext@)),
        res matches Ok(adj) ==> adj.len() == reg@.len() && adjacency_of(registry_edge(reg@), adj@),
        res matches Err(u) ==> reports(reg@, name_set(ext@), u),
{
    let n = reg.len();
    let ghost e = registry_edge(reg@);
    let mut adj: Vec<Vec<usize>> = Vec::new();
    let mut a: usize = 0;
    while a < n
        invariant
            n == reg@.len(),
            reg.wf(),
            a <= n,
            adj.len() == a,
            forall|x: int, j: int| 0 <= x < a && 0 <= j < adj@[x]@.len() ==> (#[trigger] adj@[x]@[j]) < n,
            forall|x: int, b: int| 0 <= x < a && 0 <= b < n ==> (#[trigger] adj@[x]@.contains(b as usize) <==> container_mentions(reg@[x].1, reg@[b].0)),
            forall|x: int, m: Seq<char>| 0 <= x < a ==> !#[trigger] unresolved_at(reg@, name_set(ext@), x, m),
        decreases n - a,
    {
        let mut refs: Vec<String> = Vec::new();
        collect_container_refs(reg.value(a), &mut refs);
        let ghost c = reg@[a as int].1;
        let mut row: Vec<usize> = Vec::new();
        let mut k: usize = 0;
        while k < refs.len()
            invariant
                n == reg@.len(),
                reg.wf(),
                a < n,
                c == reg@[a as int].1,
                forall|m: Seq<char>| #![trigger has_name(refs@, m)] has_name(refs@, m) <==> container_mentions(c, m),
                k <= refs.len(),
                forall|j: int| 0 <= j < row@.len() ==> (#[trigger] row@[j]) < n,
                forall|b: int| 0 <= b < n ==> (#[trigger] row@.contains(b as usize) <==> exists|q: int| 0 <= q < k && (#[trigger] refs@[q])@ == reg@[b].0),
                forall|q: int| 0 <= q < k ==> has_container(reg@, (#[trigger] refs@[q])@) || has_name(ext@, refs@[q]@),
                forall|x: int, m: Seq<char>| 0 <= x < a ==> !#[trigger] unresolved_at(reg@, name_set(ext@), x, m),
            decreases refs.len() - k,
        {
            let ghost rq = refs@[k as int]@;
            assert(has_name(refs@, rq));
            match reg.position(&refs[k]) {
                Some(j) => {
                    let ghost rowp = row@;
                    row.push(j);
                    proof {
                        assert forall|b: int| 0 <= b < n implies (#[trigger] row@.contains(b as usize) <==> exists|q: int| 0 <= q < k + 1 && (#[trigger] refs@[q])@ == reg@[b].0) by {
                            if row@.contains(b as usize) {
                                let t = choose|t: int| 0 <= t < row@.len() && row@[t] == b as usize;
                                if t < rowp.len() {
                                    assert(rowp[t] == b as usize);
                                    assert(rowp.contains(b as usize));
                                } else {
                                    assert(refs@[k as int]@ == reg@[b].0);
                                }
                            }
                            if exists|q: int| 0 <= q < k + 1 && (#[trigger] refs@[q])@ == reg@[b].0 {
                                let q = choose|q: int| 0 <= q < k + 1 && (#[trigger] refs@[q])@ == reg@[b].0;
                                if q == k {
                                    lemma_names_unique(reg@, j as int, b);
                                    assert(row@[rowp.len() as int] == j);
                                } else {
                                    assert(rowp.contains(b as usize));
                                    let t = choose|t: int| 0 <= t < rowp.len() && rowp[t] == b as usize;
                                    assert(row@[t] == b as usize);
                                }
                            }
                        }
                    }
                },
                None => {
                    if !contains_name(ext, &refs[k]) {
                        let u = UnresolvedReference { container: reg.name(a).clone(), name: refs[k].clone() };
                        proof {
                            assert(u.container@ == reg@[a as int].0);
                            assert(unresolved_at(reg@, name_set(ext@), a as int, u.name@) && reg@[a as int].0 == u.container@);
                            assert(reports(reg@, name_set(ext@), u));
                        }
                        return Err(u);
                    }
                    proof {
                        assert forall|b: int| 0 <= b < n implies (#[trigger] row@.contains(b as usize) <==> exists|q: int| 0 <= q < k + 1 && (#[trigger] refs@[q])@ == reg@[b].0) by {
                            if exists|q: int| 0 <= q < k + 1 && (#[trigger] refs@[q])@ == reg@[b].0 {
                                let q = choose|q: int| 0 <= q < k + 1 && (#[trigger] refs@[q])@ == reg@[b].0;
                                if q == k {
                                    assert(has_container(reg@, rq));
                                }
                            }
                        }
                    }
                },
            }
            k = k + 1;
        }
        proof {
            assert forall|b: int| 0 <= b < n implies (#[trigger] row@.contains(b as usize) <==> container_mentions(reg@[a as int].1, reg@[b].0)) by {
                if container_mentions(c, reg@[b].0) {
                    assert(has_name(refs@, reg@[b].0));
                    let q = choose|q: int| 0 <= q < refs@.len() && (#[trigger] refs@[q])@ == reg@[b].0;
                }
                if row@.contains(b as usize) {
                    let q = choose|q: int| 0 <= q < k && (#[trigger] refs@[q])@ == reg@[b].0;
                    assert(has_name(refs@, reg@[b].0));
                }
            }
            assert forall|m: Seq<char>| !#[trigger] unresolved_at(reg@, name_set(ext@), a as int, m) by {
                if unresolved_at(reg@, name_set(ext@), a as int, m) {
                    assert(has_name(refs@, m));
                    let q = choose|q: int| 0 <= q < refs@.len() && (#[trigger] refs@[q])@ == m;
                }
            }
        }
        let ghost adjp = adj@;
        adj.push(row);
        a = a + 1;
        proof {
            assert forall|x: int, b: int| 0 <= x < a && 0 <= b < n implies (#[trigger] adj@[x]@.contains(b as usize) <==> container_mentions(reg@[x].1, reg@[b].0)) by {
                if x < a - 1 {
                    assert(adj@[x] == adjp[x]);
                }
            }
        }
    }
    proof {
        assert forall|x: int, b: int| #[trigger] e(x, b) <==> (0 <= x < adj@.len() && 0 <= b < adj@.len() && adj@[x]@.contains(b as usize)) by {
            if 0 <= x < n && 0 <= b < n {
                assert(adj@[x]@.contains(b as usize) <==> container_mentions(reg@[x].1, reg@[b].0));
            }
        }
        assert(!has_unresolved(reg@, name_set(ext@)));
    }
    Ok(adj)
}

/// `a` and `b` lie in one strongly connected component of `e`.
pub open spec fn same_component(e: spec_fn(int, int) -> bool, a: int, b: int) -> bool {
    a == b || (reaches(e, a, b) && reaches(e, b, a))
}

/// `v` lies on a cycle of one or more edges.
pub open spec fn cyclic(e: spec_fn(int, int) -> bool, v: int) -> bool {
    reaches(e, v, v)
}

/// `l` is the least node of the component of `v`.
pub open spec fn is_leader_of(e: spec_fn(int, int) -> bool, l: int, v: int) -> bool {
    &&& 0 <= l
    &&& same_component(e, l, v)
    &&& forall|u: int| 0 <= u < l ==> !#[trigger] same_component(e, u, v)
}

/// The least node of the component of `v`.
pub open spec fn leader(e: spec_fn(int, int) -> bool, v: int) -> int {
    choose|l: int| is_leader_of(e, l, v)
}

/// `v` together with every node among `0..n` that it reaches.
pub open spec fn closure(e: spec_fn(int, int) -> bool, n: int, v: int) -> Set<int> {
    Set::new(|w: int| 0 <= w < n && (w == v || reaches(e, v, w)))
}

proof fn lemma_leader_unique(e: spec_fn(int, int) -> bool, l: int, v: int)
    requires
        is_leader_of(e, l, v),
    ensures
        leader(e, v) == l,
{
    let l2 = leader(e, v);
    assert(is_leader_of(e, l2, v));
    if l2 < l {
        assert(!same_component(e, l2, v));
    } else if l < l2 {
        assert(!same_component(e, l, v));
    }
}

pub proof fn lemma_same_component_transitive(e: spec_fn(int, int) -> bool, a: int, b: int, c: int)
    requires
        same_component(e, a, b),
        same_component(e, b, c),
    ensures
        same_component(e, a, c),
        same_component(e, c, a),
{
    if a != b && b != c {
        crate::graph::lemma_reach_transitive(e, a, b, c);
        crate::graph::lemma_reach_transitive(e, c, b, a);
    }
}

/// The reachability matrix of the graph given by `adj`.
fn reach_matrix(adj: &Vec<Vec<usize>>, Ghost(e): Ghost<spec_fn(int, int) -> bool>) -> (m: Vec<Vec<bool>>)
    requires
        adjacency_of(e, adj@),
    ensures
        m.len() == adj.len(),
        forall|a: int| 0 <= a < m.len() ==> (#[trigger] m@[a]).len() == adj.len(),
        forall|a: int, b: int| 0 <= a < adj.len() && 0 <= b < adj.len() ==> (#[trigger] m@[a]@[b] <==> reaches(e, a, b)),
{
    let n = adj.len();
    let mut m: Vec<Vec<bool>> = Vec::new();
    let mut a: usize = 0;
    while a < n
        invariant
            n == adj.len(),
            adjacency_of(e, adj@),
            a <= n,
            m.len() == a,
            forall|x: int| 0 <= x < a ==> (#[trigger] m@[x]).len() == n,
            forall|x: int, b: int| 0 <= x < a && 0 <= b < n ==> (#[trigger] m@[x]@[b] <==> reaches(e, x, b)),
        decreases n - a,
    {
        let row = reachable_from(adj, a, Ghost(e));
        m.push(row);
        a = a + 1;
    }
    m
}

/// For every node, the least node of its component.
fn component_leaders(m: &Vec<Vec<bool>>, Ghost(e): Ghost<spec_fn(int, int) -> bool>) -> (ld: Vec<usize>)
    requires
        forall|a: int| 0 <= a < m.len() ==> (#[trigger] m@[a]).len() == m.len(),
        forall|a: int, b: int| 0 <= a < m.len() && 0 <= b < m.len() ==> (#[trigger] m@[a]@[b] <==> reaches(e, a, b)),
    ensures
        ld.len() == m.len(),
        forall|v: int| 0 <= v < m.len() ==> #[trigger] ld@[v] <= v && leader(e, v) == ld@[v] as int && is_leader_of(e, ld@[v] as int, v),
{
    let n = m.len();
    let mut ld: Vec<usize> = Vec::new();
    let mut v: usize = 0;
    while v < n
        invariant
            n == m.len(),
            forall|a: int| 0 <= a < m.len() ==> (#[trigger] m@[a]).len() == m.len(),
            forall|a: int, b: int| 0 <= a < m.len() && 0 <= b < m.len() ==> (#[trigger] m@[a]@[b] <==> reaches(e, a, b)),
            v <= n,
            ld.len() == v,
            forall|x: int| 0 <= x < v ==> #[trigger] ld@[x] <= x && leader(e, x) == ld@[x] as int && is_leader_of(e, ld@[x] as int, x),
        decreases n - v,
    {
        let mut u: usize = 0;
        while u < v && !(m[u][v] && m[v][u])
            invariant
                n == m.len(),
                forall|a: int| 0 <= a < m.len() ==> (#[trigger] m@[a]).len() == m.len(),
                forall|a: int, b: int| 0 <= a < m.len() && 0 <= b < m.len() ==> (#[trigger] m@[a]@[b] <==> reaches(e, a, b)),
                v < n,
                u <= v,
                forall|w: int| 0 <= w < u ==> !#[trigger] same_component(e, w, v as int),
            decreases v - u,
        {
            u = u + 1;
        }
        proof {
            assert(same_component(e, u as int, v as int));
            lemma_leader_unique(e, u as int, v as int);
        }
        let ghost ld0 = ld@;
        ld.push(u);
        proof {
            assert forall|x: int| 0 <= x < v + 1 implies #[trigger] ld@[x] <= x && leader(e, x) == ld@[x] as int && is_leader_of(e, ld@[x] as int, x) by {
                if x < v {
                    assert(ld@[x] == ld0[x]);
                }
            }
        }
        v = v + 1;
    }
    ld
}

/// `l` is the least member of a component that `o` does not hold yet and all
/// of whose references to other components lead into `o`.
pub open spec fn available(e: spec_fn(int, int) -> bool, n: int, o: Seq<usize>, l: int) -> bool {
    &&& 0 <= l < n
    &&& is_leader_of(e, l, l)
    &&& !o.contains(l as usize)
    &&& forall|v: int, w: int| 0 <= v < n && same_component(e, l, v) && #[trigger] e(v, w) && !same_component(e, l, w) ==> o.contains(w as usize)
}

/// `l` is the least available component after `o`.
pub open spec fn least_available(e: spec_fn(int, int) -> bool, n: int, o: Seq<usize>, l: int) -> bool {
    available(e, n, o, l) && forall|k: int| 0 <= k < l ==> !#[trigger] available(e, n, o, k)
}

/// The members of the component of `l` below `v`, in increasing order.
pub open spec fn members_below(e: spec_fn(int, int) -> bool, l: int, v: int) -> Seq<usize> {
    Seq::new(v as nat, |i: int| i as usize).filter(|x: usize| same_component(e, l, x as int))
}

/// Extends `o` by up to `fuel` components, each time the least available one,
/// its members in increasing order.
pub open spec fn kahn(e: spec_fn(int, int) -> bool, n: int, o: Seq<usize>, fuel: nat) -> Seq<usize>
    decreases fuel,
{
    if fuel == 0 {
        o
    } else if exists|l: int| least_available(e, n, o, l) {
        kahn(e, n, o + members_below(e, choose|l: int| least_available(e, n, o, l), n), (fuel - 1) as nat)
    } else {
        o
    }
}

/// The emission order: the least order, by the least member of each
/// component, that places every component after the components it
/// references, with the members of a component together and increasing.
pub open spec fn kahn_order(e: spec_fn(int, int) -> bool, n: int) -> Seq<usize> {
    kahn(e, n, Seq::empty(), n as nat)
}

/// `order` is the emission order, lists each of the nodes `0..n` once, and
/// places every reference to another component after its target.
pub open spec fn order_ok(e: spec_fn(int, int) -> bool, n: int, order: Seq<usize>) -> bool {
    &&& order == kahn_order(e, n)
    &&& forall|i: int| 0 <= i < order.len() ==> (#[trigger] order[i]) < n
    &&& forall|v: int| 0 <= v < n ==> #[trigger] order.contains(v as usize)
    &&& forall|i: int, j: int| 0 <= i < order.len() && 0 <= j < order.len() && #[trigger] e(order[i] as int, order[j] as int)
        && !same_component(e, order[i] as int, order[j] as int) ==> j < i
}

proof fn lemma_member_iff(e: spec_fn(int, int) -> bool, l: int, v: int)
    requires
        is_leader_of(e, l, l),
        is_leader_of(e, leader(e, v), v),
    ensures
        same_component(e, l, v) <==> leader(e, v) == l,
{
    if same_component(e, l, v) {
        assert forall|u: int| 0 <= u < l implies !#[trigger] same_component(e, u, v) by {
            if same_component(e, u, v) {
                lemma_same_component_transitive(e, u, v, l);
            }
        }
        lemma_leader_unique(e, l, v);
    }
}

/// Some component is available whenever a node `x` is not yet placed and
/// `o` holds whole components only.
proof fn lemma_progress(e: spec_fn(int, int) -> bool, n: int, o: Seq<usize>, x: int)
    requires
        0 <= x < n,
        !o.contains(x as usize),
        forall|v: int, w: int| 0 <= v < n && 0 <= w < n && o.contains(v as usize) && #[trigger] same_component(e, v, w) ==> o.contains(w as usize),
        forall|a: int, b: int| #[trigger] e(a, b) ==> 0 <= a < n && 0 <= b < n,
    ensures
        exists|l: int| available(e, n, o, l),
    decreases closure(e, n, x).len(),
{
    lemma_least_in_component(e, x, x);
    let l = leader(e, x);
    let l0 = choose|l0: int| 0 <= l0 <= x && is_leader_of(e, l0, x);
    lemma_leader_unique(e, l0, x);
    assert(same_component(e, l, x));
    if o.contains(l as usize) {
        assert(same_component(e, l, x));
    }
    assert forall|u: int| 0 <= u < l implies !#[trigger] same_component(e, u, l) by {
        if same_component(e, u, l) {
            lemma_same_component_transitive(e, u, l, x);
        }
    }
    assert(is_leader_of(e, l, l));
    if !available(e, n, o, l) {
        let (v, w) = choose|v: int, w: int| 0 <= v < n && same_component(e, l, v) && #[trigger] e(v, w) && !same_component(e, l, w) && !o.contains(w as usize);
        if reaches(e, w, v) {
            crate::graph::lemma_reach_edge(e, v, w);
            assert(same_component(e, v, w));
            lemma_same_component_transitive(e, l, v, w);
        }
        lemma_closure_shrinks(e, n, v, w);
        lemma_same_component_transitive(e, x, l, v);
        lemma_component_same_key(e, n, x, v);
        lemma_progress(e, n, o, w);
    }
}

/// Whether the component of `l` is available after `o`, whose members
/// `placed` marks.
fn is_available(adj: &Vec<Vec<usize>>, ld: &Vec<usize>, placed: &Vec<bool>, l: usize, Ghost(e): Ghost<spec_fn(int, int) -> bool>, Ghost(o): Ghost<Seq<usize>>) -> (r: bool)
    requires
        adjacency_of(e, adj@),
        ld.len() == adj.len(),
        forall|v: int| 0 <= v < adj.len() ==> #[trigger] ld@[v] <= v && leader(e, v) == ld@[v] as int && is_leader_of(e, ld@[v] as int, v),
        placed.len() == adj.len(),
        forall|v: int| 0 <= v < adj.len() ==> (#[trigger] placed@[v] <==> o.contains(v as usize)),
        l < adj.len(),
    ensures
        r == available(e, adj.len() as int, o, l as int),
{
    let n = adj.len();
    let ghost li = l as int;
    if ld[l] != l {
        proof {
            if is_leader_of(e, li, li) {
                lemma_leader_unique(e, li, li);
            }
        }
        return false;
    }
    if placed[l] {
        return false;
    }
    let mut v: usize = 0;
    while v < n
        invariant
            n == adj.len(),
            adjacency_of(e, adj@),
            ld.len() == n,
            forall|x: int| 0 <= x < adj.len() ==> #[trigger] ld@[x] <= x && leader(e, x) == ld@[x] as int && is_leader_of(e, ld@[x] as int, x),
            placed.len() == n,
            forall|x: int| 0 <= x < adj.len() ==> (#[trigger] placed@[x] <==> o.contains(x as usize)),
            l < n,
            li == l,
            is_leader_of(e, li, li),
            v <= n,
            forall|x: int, w: int| 0 <= x < v && same_component(e, li, x) && #[trigger] e(x, w) && !same_component(e, li, w) ==> o.contains(w as usize),
        decreases n - v,
    {
        proof {
            assert(ld@[v as int] <= v);
            lemma_member_iff(e, li, v as int);
        }
        if ld[v] == l {
            let row = &adj[v];
            let mut j: usize = 0;
            while j < row.len()
                invariant
                    n == adj.len(),
                    adjacency_of(e, adj@),
                    ld.len() == n,
                    forall|x: int| 0 <= x < adj.len() ==> #[trigger] ld@[x] <= x && leader(e, x) == ld@[x] as int && is_leader_of(e, ld@[x] as int, x),
                    placed.len() == n,
                    forall|x: int| 0 <= x < adj.len() ==> (#[trigger] placed@[x] <==> o.contains(x as usize)),
                    li == l,
                    is_leader_of(e, li, li),
                    v < n,
                    same_component(e, li, v as int),
                    row == adj@[v as int],
                    j <= row.len(),
                    forall|q: int| 0 <= q < j ==> same_component(e, li, (#[trigger] row@[q]) as int) || o.contains(row@[q]),
                decreases row.len() - j,
            {
                let w = row[j];
                proof {
                    assert(row@[j as int] == w);
                    assert(w < n);
                    assert(ld@[w as int] <= w);
                    lemma_member_iff(e, li, w as int);
                }
                if ld[w] != l && !placed[w] {
                    proof {
                        assert(adj@[v as int]@.contains(w));
                        assert(e(v as int, w as int));
                        assert(same_component(e, li, v as int));
                        assert(!same_component(e, li, w as int));
                        assert(!o.contains(w));
                    }
                    return false;
                }
                j = j + 1;
            }
            proof {
                assert forall|x: int, w: int| 0 <= x < v + 1 && same_component(e, li, x) && #[trigger] e(x, w) && !same_component(e, li, w) implies o.contains(w as usize) by {
                    if x == v {
                        let q = choose|q: int| 0 <= q < row@.len() && row@[q] == w as usize;
                        assert(same_component(e, li, row@[q] as int) || o.contains(row@[q]));
                    }
                }
            }
        }
        v = v + 1;
    }
    true
}

proof fn lemma_append_marks(
    e: spec_fn(int, int) -> bool,
    n: int,
    nn: int,
    l: usize,
    li: int,
    o0: Seq<usize>,
    p0: Seq<bool>,
    o: Seq<usize>,
    p: Seq<bool>,
)
    requires
        nn == n,
        n <= usize::MAX,
        li == l,
        0 <= li < n,
        forall|a: int, b: int| #[trigger] e(a, b) ==> 0 <= a < n && 0 <= b < n,
        available(e, nn, o0, li),
        o == o0 + members_below(e, li, nn),
        p.len() == n,
        forall|x: int| 0 <= x < n ==> (#[trigger] p[x] <==> (p0[x] || (x < n && same_component(e, li, x)))),
        forall|x: int| 0 <= x < n ==> (#[trigger] p0[x] <==> o0.contains(x as usize)),
        forall|k: int| o0.len() <= k < o.len() ==> same_component(e, li, (#[trigger] o[k]) as int),
        forall|x: int, w: int| 0 <= x < n && 0 <= w < n && o0.contains(x as usize) && #[trigger] same_component(e, x, w) ==> o0.contains(w as usize),
        forall|v: int, w: int| 0 <= v < nn && o0.contains(v as usize) && #[trigger] e(v, w) ==> o0.contains(w as usize),
        forall|a: int, b: int| 0 <= a < o0.len() && 0 <= b < o0.len() && #[trigger] e(o0[a] as int, o0[b] as int)
            && !same_component(e, o0[a] as int, o0[b] as int) ==> b < a,
    ensures
        o.len() >= o0.len() + 1,
        forall|v: int| 0 <= v < nn ==> (#[trigger] p[v] <==> o.contains(v as usize)),
{
        let ol = o0.len() as int;
        assert forall|x: int| 0 <= x < n implies (#[trigger] p[x] <==> o.contains(x as usize)) by {
            if p[x] {
                if p0[x] {
                    let q = choose|q: int| 0 <= q < o0.len() && o0[q] == x as usize;
                    assert(o[q] == x as usize);
                } else {
                    assert(members_below(e, li, nn).contains(x as usize)) by {
                        assert(Seq::new(nn as nat, |i: int| i as usize)[x] == x as usize);
                        assert(Seq::new(nn as nat, |i: int| i as usize).contains(x as usize));
                        assert(same_component(e, li, x));
                        assert(((x as usize) as int) == x);
                        assert((|y: usize| same_component(e, li, y as int))(Seq::new(nn as nat, |i: int| i as usize)[x]));
                        Seq::new(nn as nat, |i: int| i as usize).lemma_filter_contains(|y: usize| same_component(e, li, y as int), x);
                        assert(Seq::new(nn as nat, |i: int| i as usize)[x] == x as usize);
                    }
                    let q = choose|q: int| 0 <= q < members_below(e, li, nn).len() && members_below(e, li, nn)[q] == x as usize;
                    assert(o[ol + q] == x as usize);
                }
            }
            if o.contains(x as usize) {
                let q = choose|q: int| 0 <= q < o.len() && o[q] == x as usize;
                if q < ol {
                    assert(o0.contains(x as usize));
                } else {
                    assert(same_component(e, li, o[q] as int));
                    assert(o[q] as int == x);
                }
            }
        }
        assert(p[li]);
        assert(o.contains(l));
        assert(!p0[li]);
        assert(o.len() >= o0.len() + 1) by {
            if o.len() == o0.len() {
                assert(!o0.contains(l));
            }
        }
        if forall|x: int| 0 <= x < n ==> #[trigger] p0[x] {
            assert(p0[li]);
        }
}

#[verifier::rlimit(100)]
#[verifier::spinoff_prover]
proof fn lemma_append_closed(
    e: spec_fn(int, int) -> bool,
    n: int,
    nn: int,
    l: usize,
    li: int,
    o0: Seq<usize>,
    p0: Seq<bool>,
    o: Seq<usize>,
    p: Seq<bool>,
)
    requires
        nn == n,
        n <= usize::MAX,
        li == l,
        0 <= li < n,
        forall|a: int, b: int| #[trigger] e(a, b) ==> 0 <= a < n && 0 <= b < n,
        available(e, nn, o0, li),
        o == o0 + members_below(e, li, nn),
        p.len() == n,
        forall|x: int| 0 <= x < n ==> (#[trigger] p[x] <==> (p0[x] || (x < n && same_component(e, li, x)))),
        forall|x: int| 0 <= x < n ==> (#[trigger] p0[x] <==> o0.contains(x as usize)),
        forall|k: int| o0.len() <= k < o.len() ==> same_component(e, li, (#[trigger] o[k]) as int),
        forall|x: int, w: int| 0 <= x < n && 0 <= w < n && o0.contains(x as usize) && #[trigger] same_component(e, x, w) ==> o0.contains(w as usize),
        forall|v: int, w: int| 0 <= v < nn && o0.contains(v as usize) && #[trigger] e(v, w) ==> o0.contains(w as usize),
        forall|a: int, b: int| 0 <= a < o0.len() && 0 <= b < o0.len() && #[trigger] e(o0[a] as int, o0[b] as int)
            && !same_component(e, o0[a] as int, o0[b] as int) ==> b < a,
        forall|v: int| 0 <= v < nn ==> (#[trigger] p[v] <==> o.contains(v as usize)),
    ensures
        forall|v: int, w: int| 0 <= v < nn && 0 <= w < nn && o.contains(v as usize) && #[trigger] same_component(e, v, w) ==> o.contains(w as usize),
        forall|v: int, w: int| 0 <= v < nn && o.contains(v as usize) && #[trigger] e(v, w) ==> o.contains(w as usize),
        forall|a: int, b: int| 0 <= a < o.len() && 0 <= b < o.len() && #[trigger] e(o[a] as int, o[b] as int)
            && !same_component(e, o[a] as int, o[b] as int) ==> b < a,
{
        let ol = o0.len() as int;
        assert forall|x: int, w: int| 0 <= x < n && 0 <= w < n && o.contains(x as usize) && #[trigger] same_component(e, x, w) implies o.contains(w as usize) by {
            assert(p[x]);
            if p0[x] {
                assert(o0.contains(x as usize));
                assert(o0.contains(w as usize));
                assert(p0[w]);
            } else {
                assert(same_component(e, li, x));
                lemma_same_component_transitive(e, li, x, w);
            }
            assert(p[w]);
        }
        assert forall|x: int, w: int| 0 <= x < n && o.contains(x as usize) && #[trigger] e(x, w) implies o.contains(w as usize) by {
            assert(0 <= w < n);
            assert(p[x]);
            if p0[x] {
                assert(o0.contains(x as usize));
                assert(o0.contains(w as usize));
                assert(p0[w]);
            } else if !same_component(e, li, w) {
                assert(same_component(e, li, x));
                assert(o0.contains(w as usize));
                assert(p0[w]);
            }
            assert(p[w]);
        }
        assert forall|a: int, b: int| 0 <= a < o.len() && 0 <= b < o.len() && #[trigger] e(o[a] as int, o[b] as int)
            && !same_component(e, o[a] as int, o[b] as int) implies b < a by {
            let x = o[a] as int;
            let y = o[b] as int;
            if b >= ol {
                assert(same_component(e, li, y));
                if a < ol {
                    assert(o[a] == o0[a]);
                    assert(o0.contains(x as usize));
                    assert(o0.contains(y as usize));
                    assert(same_component(e, y, li));
                    assert(o0.contains(li as usize));
                } else {
                    assert(same_component(e, li, x));
                    lemma_same_component_transitive(e, x, li, y);
                }
            } else if a < ol {
                assert(o[a] == o0[a]);
                assert(o[b] == o0[b]);
            }
        }}

proof fn lemma_append_facts(
    e: spec_fn(int, int) -> bool,
    n: int,
    nn: int,
    l: usize,
    li: int,
    o0: Seq<usize>,
    p0: Seq<bool>,
    o: Seq<usize>,
    p: Seq<bool>,
)
    requires
        nn == n,
        n <= usize::MAX,
        li == l,
        0 <= li < n,
        forall|a: int, b: int| #[trigger] e(a, b) ==> 0 <= a < n && 0 <= b < n,
        available(e, nn, o0, li),
        o == o0 + members_below(e, li, nn),
        p.len() == n,
        forall|x: int| 0 <= x < n ==> (#[trigger] p[x] <==> (p0[x] || (x < n && same_component(e, li, x)))),
        forall|x: int| 0 <= x < n ==> (#[trigger] p0[x] <==> o0.contains(x as usize)),
        forall|k: int| o0.len() <= k < o.len() ==> same_component(e, li, (#[trigger] o[k]) as int),
        forall|x: int, w: int| 0 <= x < n && 0 <= w < n && o0.contains(x as usize) && #[trigger] same_component(e, x, w) ==> o0.contains(w as usize),
        forall|v: int, w: int| 0 <= v < nn && o0.contains(v as usize) && #[trigger] e(v, w) ==> o0.contains(w as usize),
        forall|a: int, b: int| 0 <= a < o0.len() && 0 <= b < o0.len() && #[trigger] e(o0[a] as int, o0[b] as int)
            && !same_component(e, o0[a] as int, o0[b] as int) ==> b < a,
    ensures
        o.len() >= o0.len() + 1,
        forall|v: int| 0 <= v < nn ==> (#[trigger] p[v] <==> o.contains(v as usize)),
        forall|v: int, w: int| 0 <= v < nn && 0 <= w < nn && o.contains(v as usize) && #[trigger] same_component(e, v, w) ==> o.contains(w as usize),
        forall|v: int, w: int| 0 <= v < nn && o.contains(v as usize) && #[trigger] e(v, w) ==> o.contains(w as usize),
        forall|a: int, b: int| 0 <= a < o.len() && 0 <= b < o.len() && #[trigger] e(o[a] as int, o[b] as int)
            && !same_component(e, o[a] as int, o[b] as int) ==> b < a,
{
    lemma_append_marks(e, n, nn, l, li, o0, p0, o, p);
    lemma_append_closed(e, n, nn, l, li, o0, p0, o, p);
}

/// Appends the members of the available component of `l` to `order`, in
/// increasing order, and marks them in `placed`.
#[verifier::rlimit(100)]
#[verifier::spinoff_prover]
fn append_component(
    adj: &Vec<Vec<usize>>,
    ld: &Vec<usize>,
    order: &mut Vec<usize>,
    placed: &mut Vec<bool>,
    l: usize,
    Ghost(e): Ghost<spec_fn(int, int) -> bool>,
    Ghost(nn): Ghost<int>,
)
    requires
        nn == adj.len(),
        adjacency_of(e, adj@),
        ld.len() == adj.len(),
        forall|v: int| 0 <= v < adj.len() ==> #[trigger] ld@[v] <= v && leader(e, v) == ld@[v] as int && is_leader_of(e, ld@[v] as int, v),
        l < adj.len(),
        ld@[l as int] == l,
        available(e, nn, old(order)@, l as int),
        old(placed).len() == adj.len(),
        forall|v: int| 0 <= v < nn ==> (#[trigger] old(placed)@[v] <==> old(order)@.contains(v as usize)),
        forall|k: int| 0 <= k < old(order).len() ==> (#[trigger] old(order)@[k]) < nn,
        num_true(old(placed)@) == old(order).len(),
        forall|v: int, w: int| 0 <= v < nn && 0 <= w < nn && old(order)@.contains(v as usize) && #[trigger] same_component(e, v, w) ==> old(order)@.contains(w as usize),
        forall|v: int, w: int| 0 <= v < nn && old(order)@.contains(v as usize) && #[trigger] e(v, w) ==> old(order)@.contains(w as usize),
        forall|a: int, b: int| 0 <= a < old(order).len() && 0 <= b < old(order).len() && #[trigger] e(old(order)@[a] as int, old(order)@[b] as int)
            && !same_component(e, old(order)@[a] as int, old(order)@[b] as int) ==> b < a,
    ensures
        final(order)@ == old(order)@ + members_below(e, l as int, nn),
        final(order)@.len() >= old(order)@.len() + 1,
        final(placed).len() == adj.len(),
        forall|v: int| 0 <= v < nn ==> (#[trigger] final(placed)@[v] <==> final(order)@.contains(v as usize)),
        forall|k: int| 0 <= k < final(order).len() ==> (#[trigger] final(order)@[k]) < nn,
        num_true(final(placed)@) == final(order).len(),
        forall|v: int, w: int| 0 <= v < nn && 0 <= w < nn && final(order)@.contains(v as usize) && #[trigger] same_component(e, v, w) ==> final(order)@.contains(w as usize),
        forall|v: int, w: int| 0 <= v < nn && final(order)@.contains(v as usize) && #[trigger] e(v, w) ==> final(order)@.contains(w as usize),
        forall|a: int, b: int| 0 <= a < final(order).len() && 0 <= b < final(order).len() && #[trigger] e(final(order)@[a] as int, final(order)@[b] as int)
            && !same_component(e, final(order)@[a] as int, final(order)@[b] as int) ==> b < a,
{
    let n = adj.len();
    let ghost li = l as int;
    let ghost o0 = order@;
    let ghost p0 = placed@;
    let mut v: usize = 0;
    assert(members_below(e, li, 0) =~= Seq::<usize>::empty());
    assert(o0 + members_below(e, li, 0) =~= o0);
    while v < n
        invariant
            n == adj.len(),
            nn == n,
            adjacency_of(e, adj@),
            ld.len() == n,
            forall|x: int| 0 <= x < adj.len() ==> #[trigger] ld@[x] <= x && leader(e, x) == ld@[x] as int && is_leader_of(e, ld@[x] as int, x),
            li == l,
            l < n,
            available(e, nn, o0, li),
            v <= n,
            placed.len() == n,
            order@ == o0 + members_below(e, li, v as int),
            forall|x: int| 0 <= x < n ==> (#[trigger] placed@[x] <==> (p0[x] || (x < v && same_component(e, li, x)))),
            forall|x: int| 0 <= x < n ==> (#[trigger] p0[x] <==> o0.contains(x as usize)),
            forall|k: int| 0 <= k < order.len() ==> (#[trigger] order@[k]) < n,
            forall|k: int| o0.len() <= k < order.len() ==> same_component(e, li, (#[trigger] order@[k]) as int),
            num_true(placed@) == order.len(),
            forall|x: int, w: int| 0 <= x < n && 0 <= w < n && o0.contains(x as usize) && #[trigger] same_component(e, x, w) ==> o0.contains(w as usize),
        decreases n - v,
    {
        proof {
            assert(ld@[v as int] <= v);
            lemma_member_iff(e, li, v as int);
            assert(Seq::new((v + 1) as nat, |i: int| i as usize) =~= Seq::new(v as nat, |i: int| i as usize).push(v));
            Seq::new(v as nat, |i: int| i as usize).lemma_filter_push(v, |x: usize| same_component(e, li, x as int));
        }
        if ld[v] == l {
            proof {
                if p0[v as int] {
                    assert(o0.contains(v));
                    assert(same_component(e, v as int, li));
                    assert(o0.contains(l));
                }
                lemma_num_true_set(placed@, v as int);
            }
            let ghost ob = order@;
            order.push(v);
            placed.set(v, true);
            proof {
                assert(order@ =~= o0 + members_below(e, li, v + 1));
                assert forall|k: int| 0 <= k < order.len() implies (#[trigger] order@[k]) < n by {
                    if k < ob.len() {
                        assert(order@[k] == ob[k]);
                    }
                }
                assert forall|k: int| o0.len() <= k < order.len() implies same_component(e, li, (#[trigger] order@[k]) as int) by {
                    if k < ob.len() {
                        assert(order@[k] == ob[k]);
                    }
                }
            }
        } else {
            proof {
                assert(order@ =~= o0 + members_below(e, li, v + 1));
            }
        }
        v = v + 1;
    }
    proof {
        lemma_num_true_bound(placed@);
        lemma_append_facts(e, n as int, nn, l, li, o0, p0, order@, placed@);
    }
}

#[verifier::rlimit(100)]
#[verifier::spinoff_prover]
fn emission_order(adj: &Vec<Vec<usize>>, ld: &Vec<usize>, Ghost(e): Ghost<spec_fn(int, int) -> bool>) -> (order: Vec<usize>)
    requires
        adjacency_of(e, adj@),
        ld.len() == adj.len(),
        forall|v: int| 0 <= v < adj.len() ==> #[trigger] ld@[v] <= v && leader(e, v) == ld@[v] as int && is_leader_of(e, ld@[v] as int, v),
    ensures
        order_ok(e, adj.len() as int, order@),
{
    let n = adj.len();
    let ghost nn = n as int;
    let mut placed: Vec<bool> = Vec::new();
    let mut i: usize = 0;
    while i < n
        invariant
            i <= n,
            placed.len() == i,
            forall|v: int| 0 <= v < i ==> !placed@[v],
        decreases n - i,
    {
        placed.push(false);
        i = i + 1;
    }
    proof {
        lemma_num_true_none(placed@);
    }
    let mut order: Vec<usize> = Vec::new();
    let mut r: usize = 0;
    while r < n
        invariant
            n == adj.len(),
            nn == n,
            adjacency_of(e, adj@),
            ld.len() == n,
            forall|v: int| 0 <= v < adj.len() ==> #[trigger] ld@[v] <= v && leader(e, v) == ld@[v] as int && is_leader_of(e, ld@[v] as int, v),
            r <= n,
            placed.len() == n,
            kahn_order(e, nn) == kahn(e, nn, order@, (nn - r) as nat),
            forall|v: int| 0 <= v < n ==> (#[trigger] placed@[v] <==> order@.contains(v as usize)),
            forall|k: int| 0 <= k < order.len() ==> (#[trigger] order@[k]) < n,
            num_true(placed@) == order.len(),
            (forall|v: int| 0 <= v < n ==> #[trigger] placed@[v]) || order.len() >= r,
            forall|v: int, w: int| 0 <= v < n && 0 <= w < n && order@.contains(v as usize) && #[trigger] same_component(e, v, w) ==> order@.contains(w as usize),
            forall|v: int, w: int| 0 <= v < n && order@.contains(v as usize) && #[trigger] e(v, w) ==> order@.contains(w as usize),
            forall|a: int, b: int| 0 <= a < order.len() && 0 <= b < order.len() && #[trigger] e(order@[a] as int, order@[b] as int)
                && !same_component(e, order@[a] as int, order@[b] as int) ==> b < a,
        decreases n - r,
    {
        let ghost o0 = order@;
        let ghost p0 = placed@;
        let mut l: usize = 0;
        let mut found = false;
        while l < n && !found
            invariant
                nn == n,
                found ==> l < n && available(e, nn, o0, l as int),
                n == adj.len(),
                adjacency_of(e, adj@),
                ld.len() == n,
                forall|v: int| 0 <= v < adj.len() ==> #[trigger] ld@[v] <= v && leader(e, v) == ld@[v] as int && is_leader_of(e, ld@[v] as int, v),
                placed.len() == n,
                forall|v: int| 0 <= v < n ==> (#[trigger] placed@[v] <==> o0.contains(v as usize)),
                l <= n,
                forall|k: int| 0 <= k < l ==> !#[trigger] available(e, nn, o0, k),
            decreases n - l + (if found { 0int } else { 1int }),
        {
            if is_available(adj, ld, &placed, l, Ghost(e), Ghost(o0)) {
                found = true;
            } else {
                l = l + 1;
            }
        }
        if found {
            let ghost li = l as int;
            proof {
                assert(least_available(e, nn, o0, li));
                let c = choose|c: int| least_available(e, nn, o0, c);
                assert(c == li);
                assert((nn - r) as nat > 0);
                assert(kahn(e, nn, o0, (nn - r) as nat) == kahn(e, nn, o0 + members_below(e, li, nn), (nn - r - 1) as nat));
                assert(ld@[li] == l);
            }
            proof {
                assert(!placed@[l as int]);
            }
            append_component(adj, ld, &mut order, &mut placed, l, Ghost(e), Ghost(nn));
        } else {
            proof {
                assert(!exists|c: int| least_available(e, nn, o0, c));
                assert(kahn(e, nn, o0, (nn - r) as nat) == o0);
                assert(kahn(e, nn, o0, (nn - r - 1) as nat) == o0);
                if exists|x: int| 0 <= x < n && !placed@[x] {
                    let x = choose|x: int| 0 <= x < n && !placed@[x];
                    lemma_progress(e, nn, o0, x);
                }
            }
        }
        r = r + 1;
    }
    proof {
        assert(kahn(e, nn, order@, 0) == order@);
        lemma_num_true_bound(placed@);
        if order.len() >= n {
            lemma_num_true_full(placed@);
        }
        assert forall|v: int| 0 <= v < n implies #[trigger] order@.contains(v as usize) by {
            assert(placed@[v]);
        }
    }
    order
}

/// Each record lists, in increasing order, the members of one component
/// that lies on a cycle, headed by its least member; records are ordered by
/// their least member, and every node on a cycle is in one of them.
pub open spec fn cycles_ok(e: spec_fn(int, int) -> bool, n: int, cycles: Seq<Vec<usize>>) -> bool {
    &&& forall|k: int| 0 <= k < cycles.len() ==> (#[trigger] cycles[k])@.len() > 0
    &&& forall|k: int| 0 <= k < cycles.len() ==> cyclic(e, (#[trigger] cycles[k])@[0] as int)
    &&& forall|k: int| 0 <= k < cycles.len() ==> is_leader_of(e, (#[trigger] cycles[k])@[0] as int, cycles[k]@[0] as int)
    &&& forall|k: int, i: int| 0 <= k < cycles.len() && 0 <= i < cycles[k]@.len() ==> (#[trigger] cycles[k]@[i]) < n
    &&& forall|k: int, v: int| 0 <= k < cycles.len() && 0 <= v < n ==> ((#[trigger] cycles[k]@.contains(v as usize)) <==> same_component(e, cycles[k]@[0] as int, v))
    &&& forall|k: int, i: int, j: int| 0 <= k < cycles.len() && 0 <= i < j < cycles[k]@.len() ==> #[trigger] cycles[k]@[i] < #[trigger] cycles[k]@[j]
    &&& forall|k: int, j: int| 0 <= k < j < cycles.len() ==> (#[trigger] cycles[k])@[0] < (#[trigger] cycles[j])@[0]
    &&& forall|v: int| 0 <= v < n && #[trigger] cyclic(e, v) ==> exists|k: int| 0 <= k < cycles.len() && (#[trigger] cycles[k])@.contains(v as usize)
}

fn cycle_records(m: &Vec<Vec<bool>>, ld: &Vec<usize>, Ghost(e): Ghost<spec_fn(int, int) -> bool>) -> (cycles: Vec<Vec<usize>>)
    requires
        forall|a: int| 0 <= a < m.len() ==> (#[trigger] m@[a]).len() == m.len(),
        forall|a: int, b: int| 0 <= a < m.len() && 0 <= b < m.len() ==> (#[trigger] m@[a]@[b] <==> reaches(e, a, b)),
        ld.len() == m.len(),
        forall|v: int| 0 <= v < m.len() ==> #[trigger] ld@[v] <= v && leader(e, v) == ld@[v] as int && is_leader_of(e, ld@[v] as int, v),
    ensures
        cycles_ok(e, m.len() as int, cycles@),
{
    let n = m.len();
    let ghost nn = n as int;
    let mut cycles: Vec<Vec<usize>> = Vec::new();
    let mut l: usize = 0;
    while l < n
        invariant
            n == m.len(),
            nn == n,
            forall|a: int| 0 <= a < m.len() ==> (#[trigger] m@[a]).len() == m.len(),
            forall|a: int, b: int| 0 <= a < m.len() && 0 <= b < m.len() ==> (#[trigger] m@[a]@[b] <==> reaches(e, a, b)),
            ld.len() == m.len(),
            forall|v: int| 0 <= v < m.len() ==> #[trigger] ld@[v] <= v && leader(e, v) == ld@[v] as int && is_leader_of(e, ld@[v] as int, v),
            l <= n,
            forall|k: int| 0 <= k < cycles.len() ==> (#[trigger] cycles@[k])@.len() > 0,
            forall|k: int| 0 <= k < cycles.len() ==> cyclic(e, (#[trigger] cycles@[k])@[0] as int),
            forall|k: int| 0 <= k < cycles.len() ==> is_leader_of(e, (#[trigger] cycles@[k])@[0] as int, cycles@[k]@[0] as int),
            forall|k: int| 0 <= k < cycles.len() ==> (#[trigger] cycles@[k])@[0] < l,
            forall|k: int, i: int| 0 <= k < cycles.len() && 0 <= i < cycles@[k]@.len() ==> (#[trigger] cycles@[k]@[i]) < n,
            forall|k: int, v: int| 0 <= k < cycles.len() && 0 <= v < n ==> ((#[trigger] cycles@[k]@.contains(v as usize)) <==> same_component(e, cycles@[k]@[0] as int, v)),
            forall|k: int, i: int, j: int| 0 <= k < cycles.len() && 0 <= i < j < cycles@[k]@.len() ==> #[trigger] cycles@[k]@[i] < #[trigger] cycles@[k]@[j],
            forall|k: int, j: int| 0 <= k < j < cycles.len() ==> (#[trigger] cycles@[k])@[0] < (#[trigger] cycles@[j])@[0],
            forall|v: int| 0 <= v < n && #[trigger] cyclic(e, v) && ld@[v] < l ==> exists|k: int| 0 <= k < cycles.len() && (#[trigger] cycles@[k])@.contains(v as usize),
        decreases n - l,
    {
        let ghost c0 = cycles@;
        if ld[l] == l && m[l][l] {
            let mut members: Vec<usize> = Vec::new();
            let mut v: usize = l;
            while v < n
                invariant
                    n == m.len(),
                    ld.len() == m.len(),
                    forall|v: int| 0 <= v < m.len() ==> #[trigger] ld@[v] <= v && leader(e, v) == ld@[v] as int && is_leader_of(e, ld@[v] as int, v),
                    l < n,
                    ld@[l as int] == l,
                    l <= v <= n,
                    v > l ==> members@.len() > 0 && members@[0] == l,
                    forall|i: int| 0 <= i < members@.len() ==> l <= (#[trigger] members@[i]) < v,
                    forall|i: int, j: int| 0 <= i < j < members@.len() ==> #[trigger] members@[i] < #[trigger] members@[j],
                    forall|u: int| 0 <= u < n ==> (#[trigger] members@.contains(u as usize) <==> (u < v && ld@[u] == l)),
                decreases n - v,
            {
                if ld[v] == l {
                    let ghost mp = members@;
                    members.push(v);
                    proof {
                        assert forall|u: int| 0 <= u < n implies (#[trigger] members@.contains(u as usize) <==> (u < v + 1 && ld@[u] == l)) by {
                            assert(mp.contains(u as usize) <==> (u < v && ld@[u] == l));
                            if u == v {
                                assert(members@[mp.len() as int] == u as usize);
                            } else if members@.contains(u as usize) {
                                let q = choose|q: int| 0 <= q < members@.len() && members@[q] == u as usize;
                                assert(q < mp.len());
                                assert(mp[q] == u as usize);
                            } else if mp.contains(u as usize) {
                                let q = choose|q: int| 0 <= q < mp.len() && mp[q] == u as usize;
                                assert(members@[q] == u as usize);
                            }
                        }
                    }
                }
                v = v + 1;
            }
            proof {
                assert(members@.contains(l));
                assert forall|u: int| 0 <= u < n implies (members@.contains(u as usize) <==> same_component(e, l as int, u)) by {
                    assert(ld@[u] <= u);
                    if same_component(e, l as int, u) {
                        assert(is_leader_of(e, l as int, l as int));
                        assert forall|x: int| 0 <= x < l implies !#[trigger] same_component(e, x, u) by {
                            if same_component(e, x, u) {
                                lemma_same_component_transitive(e, x, u, l as int);
                            }
                        }
                        assert(is_leader_of(e, l as int, u));
                        lemma_leader_unique(e, l as int, u);
                    }
                }
            }
            cycles.push(members);
            proof {
                assert forall|k: int, u: int| 0 <= k < cycles.len() && 0 <= u < n implies ((#[trigger] cycles@[k]@.contains(u as usize)) <==> same_component(e, cycles@[k]@[0] as int, u)) by {
                    if k < c0.len() {
                        assert(cycles@[k] == c0[k]);
                    }
                }
            }
        }
        proof {
            assert forall|v: int| 0 <= v < n && #[trigger] cyclic(e, v) && ld@[v] < l + 1 implies exists|k: int| 0 <= k < cycles.len() && (#[trigger] cycles@[k])@.contains(v as usize) by {
                if ld@[v] == l {
                    let ll = l as int;
                    assert(is_leader_of(e, ll, v));
                    if ll != v {
                        crate::graph::lemma_reach_transitive(e, ll, v, ll);
                    }
                    assert forall|x: int| 0 <= x < ll implies !#[trigger] same_component(e, x, ll) by {
                        if same_component(e, x, ll) {
                            lemma_same_component_transitive(e, x, ll, v);
                        }
                    }
                    assert(is_leader_of(e, ll, ll));
                    lemma_leader_unique(e, ll, ll);
                    assert(m@[ll]@[ll]);
                    let k = cycles.len() - 1;
                    assert(cycles@[k]@[0] == l);
                    assert(cycles@[k]@.contains(v as usize));
                } else {
                    let k = choose|k: int| 0 <= k < c0.len() && (#[trigger] c0[k])@.contains(v as usize);
                    assert(cycles@[k] == c0[k]);
                }
            }
        }
        l = l + 1;
    }
    cycles
}

/// `ind` lists, in increasing order, exactly the edges `a -> b` among `0..n`
/// whose target reaches back to their source.
pub open spec fn indirect_ok(e: spec_fn(int, int) -> bool, n: int, ind: Seq<(usize, usize)>) -> bool {
    &&& forall|a: int, b: int| 0 <= a < n && 0 <= b < n ==> (#[trigger] ind.contains((a as usize, b as usize)) <==> (e(a, b) && reaches(e, b, a)))
    &&& forall|i: int| 0 <= i < ind.len() ==> (#[trigger] ind[i]).0 < n && ind[i].1 < n
    &&& forall|i: int, j: int| 0 <= i < j < ind.len() ==> pair_lt(#[trigger] ind[i], #[trigger] ind[j])
}

pub open spec fn pair_lt(x: (usize, usize), y: (usize, usize)) -> bool {
    x.0 < y.0 || (x.0 == y.0 && x.1 < y.1)
}

fn has_edge(adj: &Vec<Vec<usize>>, a: usize, b: usize) -> (r: bool)
    requires
        a < adj.len(),
    ensures
        r == adj@[a as int]@.contains(b),
{
    let row = &adj[a];
    let mut j: usize = 0;
    while j < row.len()
        invariant
            row == adj@[a as int],
            j <= row.len(),
            forall|q: int| 0 <= q < j ==> row@[q] != b,
        decreases row.len() - j,
    {
        if row[j] == b {
            assert(row@[j as int] == b);
            return true;
        }
        j = j + 1;
    }
    false
}

fn indirection_edges(adj: &Vec<Vec<usize>>, m: &Vec<Vec<bool>>, Ghost(e): Ghost<spec_fn(int, int) -> bool>) -> (ind: Vec<(usize, usize)>)
    requires
        adjacency_of(e, adj@),
        m.len() == adj.len(),
        forall|a: int| 0 <= a < m.len() ==> (#[trigger] m@[a]).len() == m.len(),
        forall|a: int, b: int| 0 <= a < m.len() && 0 <= b < m.len() ==> (#[trigger] m@[a]@[b] <==> reaches(e, a, b)),
    ensures
        indirect_ok(e, adj.len() as int, ind@),
{
    let n = adj.len();
    let mut ind: Vec<(usize, usize)> = Vec::new();
    let mut a: usize = 0;
    while a < n
        invariant
            n == adj.len(),
            adjacency_of(e, adj@),
            m.len() == adj.len(),
            forall|x: int| 0 <= x < m.len() ==> (#[trigger] m@[x]).len() == m.len(),
            forall|x: int, y: int| 0 <= x < m.len() && 0 <= y < m.len() ==> (#[trigger] m@[x]@[y] <==> reaches(e, x, y)),
            a <= n,
            forall|x: int, y: int| 0 <= x < n && 0 <= y < n ==> (#[trigger] ind@.contains((x as usize, y as usize)) <==> (x < a && e(x, y) && reaches(e, y, x))),
            forall|i: int| 0 <= i < ind@.len() ==> (#[trigger] ind@[i]).0 < a && ind@[i].1 < n,
            forall|i: int, j: int| 0 <= i < j < ind@.len() ==> pair_lt(#[trigger] ind@[i], #[trigger] ind@[j]),
        decreases n - a,
    {
        let mut b: usize = 0;
        while b < n
            invariant
                n == adj.len(),
                adjacency_of(e, adj@),
                m.len() == adj.len(),
                forall|x: int| 0 <= x < m.len() ==> (#[trigger] m@[x]).len() == m.len(),
                forall|x: int, y: int| 0 <= x < m.len() && 0 <= y < m.len() ==> (#[trigger] m@[x]@[y] <==> reaches(e, x, y)),
                a < n,
                b <= n,
                forall|x: int, y: int| 0 <= x < n && 0 <= y < n ==> (#[trigger] ind@.contains((x as usize, y as usize)) <==> ((x < a || (x == a && y < b)) && e(x, y) && reaches(e, y, x))),
                forall|i: int| 0 <= i < ind@.len() ==> pair_lt(#[trigger] ind@[i], (a, b)) && ind@[i].1 < n,
                forall|i: int, j: int| 0 <= i < j < ind@.len() ==> pair_lt(#[trigger] ind@[i], #[trigger] ind@[j]),
            decreases n - b,
        {
            if has_edge(adj, a, b) && m[b][a] {
                let ghost i0 = ind@;
                ind.push((a, b));
                proof {
                    assert(ind@[i0.len() as int] == (a, b));
                    assert forall|x: int, y: int| 0 <= x < n && 0 <= y < n implies (#[trigger] ind@.contains((x as usize, y as usize)) <==> ((x < a || (x == a && y < b + 1)) && e(x, y) && reaches(e, y, x))) by {
                        assert(i0.contains((x as usize, y as usize)) <==> ((x < a || (x == a && y < b)) && e(x, y) && reaches(e, y, x)));
                        if x == a && y == b {
                            assert(ind@[i0.len() as int] == (x as usize, y as usize));
                            assert(adj@[a as int]@.contains(b));
                            assert(e(x, y));
                            assert(m@[y]@[x]);
                        } else if ind@.contains((x as usize, y as usize)) {
                            let q = choose|q: int| 0 <= q < ind@.len() && ind@[q] == (x as usize, y as usize);
                            assert(q < i0.len());
                            assert(i0[q] == (x as usize, y as usize));
                        } else if i0.contains((x as usize, y as usize)) {
                            let q = choose|q: int| 0 <= q < i0.len() && i0[q] == (x as usize, y as usize);
                            assert(ind@[q] == (x as usize, y as usize));
                        }
                    }
                    assert forall|i: int, j: int| 0 <= i < j < ind@.len() implies pair_lt(#[trigger] ind@[i], #[trigger] ind@[j]) by {
                        assert(ind@[i] == i0[i]);
                        if j < i0.len() {
                            assert(ind@[j] == i0[j]);
                        }
                    }
                    assert forall|i: int| 0 <= i < ind@.len() implies pair_lt(#[trigger] ind@[i], (a, (b + 1) as usize)) && ind@[i].1 < n by {
                        if i < i0.len() {
                            assert(ind@[i] == i0[i]);
                        }
                    }
                }
            } else {
                proof {
                    if e(a as int, b as int) && reaches(e, b as int, a as int) {
                        assert(adj@[a as int]@.contains(b));
                    }
                }
            }
            b = b + 1;
        }
        a = a + 1;
    }
    ind
}

/// The result of dependency analysis. Nodes are positions of containers in
/// the registry's canonical order.
#[derive(Clone, Debug, PartialEq, Eq)]
pub struct Analysis {
    /// Every container once, dependencies before dependents.
    pub order: Vec<usize>,
    /// One record per component that lies on a cycle.
    pub cycles: Vec<Vec<usize>>,
    /// The references `(from, to)` that close a cycle and so need indirection.
    pub indirect: Vec<(usize, usize)>,
}

/// `a` is the analysis of the entries `r`.
pub open spec fn analysis_ok(r: Seq<(Seq<char>, ContainerFormat)>, a: Analysis) -> bool {
    &&& order_ok(registry_edge(r), r.len() as int, a.order@)
    &&& cycles_ok(registry_edge(r), r.len() as int, a.cycles@)
    &&& indirect_ok(registry_edge(r), r.len() as int, a.indirect@)
}

/// Analyzes the registry, treating the names of `ext` as containers that
/// other modules provide.
pub fn analyze_with_externals(reg: &Registry, ext: &Vec<String>) -> (res: Result<Analysis, UnresolvedReference>)
    requires
        reg.wf(),
    ensures
        res is Ok <==> !has_unresolved(reg@, name_set(ext@)),
        res matches Ok(a) ==> analysis_ok(reg@, a),
        res matches Err(u) ==> reports(reg@, name_set(ext@), u),
{
    let ghost e = registry_edge(reg@);
    let adj = match dependency_graph(reg, ext) {
        Ok(adj) => adj,
        Err(u) => {
            return Err(u);
        },
    };
    let m = reach_matrix(&adj, Ghost(e));
    let ld = component_leaders(&m, Ghost(e));
    let order = emission_order(&adj, &ld, Ghost(e));
    let cycles = cycle_records(&m, &ld, Ghost(e));
    let indirect = indirection_edges(&adj, &m, Ghost(e));
    Ok(Analysis { order, cycles, indirect })
}

/// Analyzes the registry against the external definitions of `config`.
pub fn analyze(registry: &Registry, config: &CodeGeneratorConfig) -> (res: Result<Analysis, UnresolvedReference>)
    requires
        registry.wf(),
    ensures
        res is Ok <==> !has_unresolved(registry@, config.external_set()),
        res matches Ok(a) ==> analysis_ok(registry@, a),
        res matches Err(u) ==> reports(registry@, config.external_set(), u),
{
    let ext = config.external_names();
    analyze_with_externals(registry, &ext)
}

proof fn lemma_closure_shrinks(e: spec_fn(int, int) -> bool, n: int, x: int, y: int)
    requires
        0 <= x < n,
        e(x, y),
        !reaches(e, y, x),
    ensures
        closure(e, n, y).len() < closure(e, n, x).len(),
{
    crate::graph::lemma_reach_edge(e, x, y);
    let cx = closure(e, n, x);
    let cy = closure(e, n, y);
    assert(cx.subset_of(vstd::set_lib::set_int_range(0, n)));
    vstd::set_lib::lemma_int_range(0, n);
    vstd::set_lib::lemma_len_subset(cx, vstd::set_lib::set_int_range(0, n));
    assert forall|w: int| cy.contains(w) implies cx.remove(x).contains(w) by {
        if w != y {
            crate::graph::lemma_reach_transitive(e, x, y, w);
        }
    }
    vstd::set_lib::lemma_len_subset(cy, cx.remove(x));
}

/// Dependencies come first: for a reference from the container at position
/// `j` of the order to the one at position `i`, where the target does not
/// reach back to the source, the target comes earlier.
pub proof fn lemma_dependencies_first(r: Seq<(Seq<char>, ContainerFormat)>, a: Analysis, i: int, j: int)
    requires
        analysis_ok(r, a),
        0 <= i < a.order@.len(),
        0 <= j < a.order@.len(),
        registry_edge(r)(a.order@[j] as int, a.order@[i] as int),
        !reaches(registry_edge(r), a.order@[i] as int, a.order@[j] as int),
    ensures
        i < j,
{
    let e = registry_edge(r);
    let x = a.order@[j] as int;
    let y = a.order@[i] as int;
    crate::graph::lemma_reach_edge(e, x, y);
    assert(!same_component(e, x, y));
}

/// Some cycle record holds both `x` and `y`.
pub open spec fn in_one_record(cycles: Seq<Vec<usize>>, x: usize, y: usize) -> bool {
    exists|k: int| 0 <= k < cycles.len() && (#[trigger] cycles[k])@.contains(x) && cycles[k]@.contains(y)
}

/// Every container on a cycle is in exactly one cycle record; every marked
/// reference joins two members of one record; every reference between two
/// members of one record is marked.
pub proof fn lemma_cycle_completeness(r: Seq<(Seq<char>, ContainerFormat)>, a: Analysis)
    requires
        analysis_ok(r, a),
    ensures
        forall|v: int| 0 <= v < r.len() && #[trigger] cyclic(registry_edge(r), v) ==> exists|k: int|
            0 <= k < a.cycles@.len() && (#[trigger] a.cycles@[k])@.contains(v as usize),
        forall|v: int, k1: int, k2: int| 0 <= v < r.len() && 0 <= k1 < a.cycles@.len() && 0 <= k2 < a.cycles@.len()
            && #[trigger] a.cycles@[k1]@.contains(v as usize) && #[trigger] a.cycles@[k2]@.contains(v as usize) ==> k1 == k2,
        forall|i: int| 0 <= i < a.indirect@.len() ==> in_one_record(a.cycles@, (#[trigger] a.indirect@[i]).0, a.indirect@[i].1),
        forall|k: int, x: int, y: int| 0 <= k < a.cycles@.len() && 0 <= x < r.len() && 0 <= y < r.len()
            && (#[trigger] a.cycles@[k])@.contains(x as usize) && a.cycles@[k]@.contains(y as usize) && #[trigger] registry_edge(r)(x, y)
            ==> a.indirect@.contains((x as usize, y as usize)),
{
    let e = registry_edge(r);
    let n = r.len() as int;
    assert forall|v: int, k1: int, k2: int| 0 <= v < r.len() && 0 <= k1 < a.cycles@.len() && 0 <= k2 < a.cycles@.len()
        && #[trigger] a.cycles@[k1]@.contains(v as usize) && #[trigger] a.cycles@[k2]@.contains(v as usize) implies k1 == k2 by {
        let l1 = a.cycles@[k1]@[0] as int;
        let l2 = a.cycles@[k2]@[0] as int;
        lemma_same_component_transitive(e, l1, v, l2);
        if l1 < l2 {
            assert(is_leader_of(e, l2, l2));
        } else if l2 < l1 {
            assert(is_leader_of(e, l1, l1));
        }
        if k1 < k2 {
            assert(a.cycles@[k1]@[0] < a.cycles@[k2]@[0]);
        } else if k2 < k1 {
            assert(a.cycles@[k2]@[0] < a.cycles@[k1]@[0]);
        }
    }
    assert forall|i: int| 0 <= i < a.indirect@.len() implies in_one_record(a.cycles@, (#[trigger] a.indirect@[i]).0, a.indirect@[i].1) by {
        let x = a.indirect@[i].0 as int;
        let y = a.indirect@[i].1 as int;
        assert(a.indirect@.contains((x as usize, y as usize)));
        crate::graph::lemma_reach_edge(e, x, y);
        crate::graph::lemma_reach_transitive(e, x, y, x);
        assert(0 <= x < n && 0 <= y < n);
        assert(cyclic(e, x));
        let k = choose|k: int| 0 <= k < a.cycles@.len() && (#[trigger] a.cycles@[k])@.contains(x as usize);
        let l = a.cycles@[k]@[0] as int;
        assert(same_component(e, l, x));
        assert(same_component(e, x, y));
        lemma_same_component_transitive(e, l, x, y);
        assert(a.cycles@[k]@.contains(y as usize));
    }
    assert forall|k: int, x: int, y: int| 0 <= k < a.cycles@.len() && 0 <= x < r.len() && 0 <= y < r.len()
        && (#[trigger] a.cycles@[k])@.contains(x as usize) && a.cycles@[k]@.contains(y as usize) && #[trigger] e(x, y)
        implies a.indirect@.contains((x as usize, y as usize)) by {
        let l = a.cycles@[k]@[0] as int;
        assert(same_component(e, l, x));
        assert(same_component(e, l, y));
        lemma_same_component_transitive(e, y, l, x);
        if x == y {
            crate::graph::lemma_reach_edge(e, x, y);
        }
    }
}

/// A name that the registry does not define, such as that of an external
/// container, never stands in the order or in a cycle record.
pub proof fn lemma_external_leaves(r: Seq<(Seq<char>, ContainerFormat)>, a: Analysis, name: Seq<char>)
    requires
        analysis_ok(r, a),
        !has_container(r, name),
    ensures
        forall|i: int| 0 <= i < a.order@.len() ==> r[#[trigger] a.order@[i] as int].0 != name,
        forall|k: int, i: int| 0 <= k < a.cycles@.len() && 0 <= i < a.cycles@[k]@.len() ==> r[#[trigger] a.cycles@[k]@[i] as int].0 != name,
{
    assert forall|i: int| 0 <= i < a.order@.len() implies r[#[trigger] a.order@[i] as int].0 != name by {
        assert(a.order@[i] < r.len());
    }
    assert forall|k: int, i: int| 0 <= k < a.cycles@.len() && 0 <= i < a.cycles@[k]@.len() implies r[#[trigger] a.cycles@[k]@[i] as int].0 != name by {
        assert(a.cycles@[k]@[i] < r.len());
    }
}

proof fn lemma_component_same_key(e: spec_fn(int, int) -> bool, n: int, x: int, z: int)
    requires
        same_component(e, x, z),
        exists|l: int| is_leader_of(e, l, x),
    ensures
        closure(e, n, x) == closure(e, n, z),
        leader(e, x) == leader(e, z),
{
    if x != z {
        assert forall|w: int| closure(e, n, x).contains(w) implies closure(e, n, z).contains(w) by {
            if w != x && w != z {
                crate::graph::lemma_reach_transitive(e, z, x, w);
            }
        }
        assert forall|w: int| closure(e, n, z).contains(w) implies closure(e, n, x).contains(w) by {
            if w != z && w != x {
                crate::graph::lemma_reach_transitive(e, x, z, w);
            }
        }
        assert(closure(e, n, x) =~= closure(e, n, z));
    }
    let l = leader(e, x);
    assert(is_leader_of(e, l, x));
    lemma_same_component_transitive(e, l, x, z);
    assert forall|u: int| 0 <= u < l implies !#[trigger] same_component(e, u, z) by {
        if same_component(e, u, z) {
            lemma_same_component_transitive(e, u, z, x);
        }
    }
    lemma_leader_unique(e, l, z);
}

/// The component of `v` has a least member, no greater than any member `m`.
proof fn lemma_least_in_component(e: spec_fn(int, int) -> bool, v: int, m: int)
    requires
        0 <= m,
        same_component(e, m, v),
    ensures
        exists|l: int| 0 <= l <= m && is_leader_of(e, l, v),
        is_leader_of(e, leader(e, v), v),
    decreases m,
{
    if exists|u: int| 0 <= u < m && same_component(e, u, v) {
        let u = choose|u: int| 0 <= u < m && same_component(e, u, v);
        lemma_least_in_component(e, v, u);
    } else {
        assert(is_leader_of(e, m, v));
    }
}

/// Two sequences that are strictly sorted by the same asymmetric relation and
/// hold the same elements are equal.
pub proof fn lemma_sorted_equal<T>(x: Seq<T>, y: Seq<T>, lt: spec_fn(T, T) -> bool)
    requires
        forall|i: int, j: int| 0 <= i < j < x.len() ==> lt(#[trigger] x[i], #[trigger] x[j]),
        forall|i: int, j: int| 0 <= i < j < y.len() ==> lt(#[trigger] y[i], #[trigger] y[j]),
        forall|a: T| x.contains(a) <==> y.contains(a),
        forall|a: T, b: T| #[trigger] lt(a, b) ==> !lt(b, a),
    ensures
        x == y,
    decreases x.len(),
{
    if x.len() == 0 {
        if y.len() > 0 {
            assert(y.contains(y[0]));
        }
        assert(x =~= y);
    } else {
        assert(x.contains(x[0]));
        let j = choose|j: int| 0 <= j < y.len() && y[j] == x[0];
        assert(y.contains(y[0]));
        let i = choose|i: int| 0 <= i < x.len() && x[i] == y[0];
        if x[0] != y[0] {
            assert(lt(x[0], x[i]));
            assert(lt(y[0], y[j]));
        }
        let x1 = x.drop_first();
        let y1 = y.drop_first();
        assert forall|a: T| x1.contains(a) <==> (x.contains(a) && a != x[0]) by {
            if x1.contains(a) {
                let k = choose|k: int| 0 <= k < x1.len() && x1[k] == a;
                assert(x[k + 1] == a);
                if a == x[0] {
                    assert(lt(x[0], x[k + 1]));
                }
            }
            if x.contains(a) && a != x[0] {
                let k = choose|k: int| 0 <= k < x.len() && x[k] == a;
                assert(x1[k - 1] == a);
            }
        }
        assert forall|a: T| y1.contains(a) <==> (y.contains(a) && a != y[0]) by {
            if y1.contains(a) {
                let k = choose|k: int| 0 <= k < y1.len() && y1[k] == a;
                assert(y[k + 1] == a);
                if a == y[0] {
                    assert(lt(y[0], y[k + 1]));
                }
            }
            if y.contains(a) && a != y[0] {
                let k = choose|k: int| 0 <= k < y.len() && y[k] == a;
                assert(y1[k - 1] == a);
            }
        }
        assert forall|p: int, q: int| 0 <= p < q < x1.len() implies lt(#[trigger] x1[p], #[trigger] x1[q]) by {
            assert(lt(x[p + 1], x[q + 1]));
        }
        assert forall|p: int, q: int| 0 <= p < q < y1.len() implies lt(#[trigger] y1[p], #[trigger] y1[q]) by {
            assert(lt(y[p + 1], y[q + 1]));
        }
        lemma_sorted_equal(x1, y1, lt);
        assert(x =~= seq![x[0]] + x1);
        assert(y =~= seq![y[0]] + y1);
    }
}

pub open spec fn record_views(cycles: Seq<Vec<usize>>) -> Seq<Seq<usize>> {
    cycles.map_values(|v: Vec<usize>| v@)
}

#[verifier::rlimit(90)]
#[verifier::spinoff_prover]
proof fn lemma_record_matches(e: spec_fn(int, int) -> bool, n: int, c1: Seq<Vec<usize>>, c2: Seq<Vec<usize>>, k: int)
    requires
        cycles_ok(e, n, c1),
        cycles_ok(e, n, c2),
        0 <= k < c1.len(),
    ensures
        record_views(c2).contains(c1[k]@),
{
    let l = c1[k]@[0] as int;
    assert(c1[k]@.contains(l as usize));
    assert(c1[k]@[0] < n);
    assert(cyclic(e, l));
    let k2 = choose|k2: int| 0 <= k2 < c2.len() && (#[trigger] c2[k2])@.contains(l as usize);
    let l2 = c2[k2]@[0] as int;
    assert(same_component(e, l2, l));
    assert(is_leader_of(e, l, l));
    assert(is_leader_of(e, l2, l2));
    if l2 < l {
        assert(!same_component(e, l2, l));
    } else if l < l2 {
        assert(!same_component(e, l, l2));
    }
    assert forall|v: usize| c1[k]@.contains(v) <==> c2[k2]@.contains(v) by {
        let vi = v as int;
        if c1[k]@.contains(v) {
            let q = choose|q: int| 0 <= q < c1[k]@.len() && c1[k]@[q] == v;
            assert(c1[k]@[q] < n);
            assert(c1[k]@.contains(vi as usize));
            assert(same_component(e, l, vi));
            assert(c2[k2]@.contains(vi as usize));
        }
        if c2[k2]@.contains(v) {
            let q = choose|q: int| 0 <= q < c2[k2]@.len() && c2[k2]@[q] == v;
            assert(c2[k2]@[q] < n);
            assert(c2[k2]@.contains(vi as usize));
            assert(same_component(e, l2, vi));
            assert(c1[k]@.contains(vi as usize));
        }
    }
    assert forall|i: int, j: int| 0 <= i < j < c1[k]@.len() implies #[trigger] c1[k]@[i] < #[trigger] c1[k]@[j] by {}
    assert forall|i: int, j: int| 0 <= i < j < c2[k2]@.len() implies #[trigger] c2[k2]@[i] < #[trigger] c2[k2]@[j] by {}
    lemma_sorted_equal(c1[k]@, c2[k2]@, |a: usize, b: usize| a < b);
    assert(record_views(c2)[k2] == c1[k]@);
}

proof fn lemma_same_entries(r1: Registry, r2: Registry)
    requires
        r1.wf(),
        r2.wf(),
        forall|k: Seq<char>, c: ContainerFormat| defines(r1@, k, c) <==> defines(r2@, k, c),
    ensures
        r1@ == r2@,
{
    let by_name = |p: (Seq<char>, ContainerFormat), q: (Seq<char>, ContainerFormat)| crate::order::str_lt(p.0, q.0);
    assert forall|p: (Seq<char>, ContainerFormat), q: (Seq<char>, ContainerFormat)| #[trigger] by_name(p, q) implies !by_name(q, p) by {
        crate::order::lemma_str_lt_total(p.0, q.0);
    }
    assert forall|p: (Seq<char>, ContainerFormat)| r1@.contains(p) <==> r2@.contains(p) by {
        assert(defines(r1@, p.0, p.1) == r1@.contains(p));
        assert(defines(r2@, p.0, p.1) == r2@.contains(p));
    }
    lemma_sorted_equal(r1@, r2@, by_name);
}

proof fn lemma_same_order(e: spec_fn(int, int) -> bool, n: int, o1: Seq<usize>, o2: Seq<usize>)
    requires
        order_ok(e, n, o1),
        order_ok(e, n, o2),
    ensures
        o1 == o2,
{
}

proof fn lemma_same_indirect(e: spec_fn(int, int) -> bool, n: int, i1: Seq<(usize, usize)>, i2: Seq<(usize, usize)>)
    requires
        indirect_ok(e, n, i1),
        indirect_ok(e, n, i2),
    ensures
        i1 == i2,
{
    assert forall|p: (usize, usize)| i1.contains(p) <==> i2.contains(p) by {
        if i1.contains(p) {
            let q = choose|q: int| 0 <= q < i1.len() && i1[q] == p;
            assert(i1[q].0 < n);
            assert(i1.contains((p.0 as int as usize, p.1 as int as usize)));
        }
        if i2.contains(p) {
            let q = choose|q: int| 0 <= q < i2.len() && i2[q] == p;
            assert(i2[q].0 < n);
            assert(i2.contains((p.0 as int as usize, p.1 as int as usize)));
        }
    }
    lemma_sorted_equal(i1, i2, |x: (usize, usize), y: (usize, usize)| pair_lt(x, y));
}

proof fn lemma_same_records(e: spec_fn(int, int) -> bool, n: int, c1: Seq<Vec<usize>>, c2: Seq<Vec<usize>>)
    requires
        cycles_ok(e, n, c1),
        cycles_ok(e, n, c2),
    ensures
        record_views(c1) == record_views(c2),
{
    let v1 = record_views(c1);
    let v2 = record_views(c2);
    assert forall|s: Seq<usize>| v1.contains(s) <==> v2.contains(s) by {
        if v1.contains(s) {
            let k = choose|k: int| 0 <= k < v1.len() && v1[k] == s;
            lemma_record_matches(e, n, c1, c2, k);
        }
        if v2.contains(s) {
            let k = choose|k: int| 0 <= k < v2.len() && v2[k] == s;
            lemma_record_matches(e, n, c2, c1, k);
        }
    }
    let by_head = |x: Seq<usize>, y: Seq<usize>| x.len() > 0 && y.len() > 0 && x[0] < y[0];
    assert forall|i: int, j: int| 0 <= i < j < v1.len() implies by_head(#[trigger] v1[i], #[trigger] v1[j]) by {
        assert(c1[i]@.len() > 0 && c1[j]@.len() > 0);
        assert(c1[i]@[0] < c1[j]@[0]);
    }
    assert forall|i: int, j: int| 0 <= i < j < v2.len() implies by_head(#[trigger] v2[i], #[trigger] v2[j]) by {
        assert(c2[i]@.len() > 0 && c2[j]@.len() > 0);
        assert(c2[i]@[0] < c2[j]@[0]);
    }
    lemma_sorted_equal(v1, v2, by_head);
}

/// Analysis depends on the content of the registry alone: two registries
/// that define the same containers, however they were built, have the same
/// entries, and any two analyses of them have the same order, the same cycle
/// records and the same marked references.
pub proof fn lemma_deterministic(r1: Registry, r2: Registry, a1: Analysis, a2: Analysis)
    requires
        r1.wf(),
        r2.wf(),
        forall|k: Seq<char>, c: ContainerFormat| defines(r1@, k, c) <==> defines(r2@, k, c),
        analysis_ok(r1@, a1),
        analysis_ok(r2@, a2),
    ensures
        r1@ == r2@,
        a1.order@ == a2.order@,
        record_views(a1.cycles@) == record_views(a2.cycles@),
        a1.indirect@ == a2.indirect@,
{
    lemma_same_entries(r1, r2);
    let e = registry_edge(r1@);
    let n = r1@.len() as int;
    lemma_same_order(e, n, a1.order@, a2.order@);
    lemma_same_indirect(e, n, a1.indirect@, a2.indirect@);
    lemma_same_records(e, n, a1.cycles@, a2.cycles@);
}

} // verus!
