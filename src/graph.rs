use vstd::prelude::*;

verus! {

/// `p` is a path of one or more edges of `e`.
pub open spec fn is_path(e: spec_fn(int, int) -> bool, p: Seq<int>) -> bool {
    p.len() >= 2 && forall|i: int| 0 <= i < p.len() - 1 ==> e(#[trigger] p[i], p[i + 1])
}

/// `b` is reachable from `a` by a path of one or more edges of `e`.
pub open spec fn reaches(e: spec_fn(int, int) -> bool, a: int, b: int) -> bool {
    exists|p: Seq<int>| #[trigger] is_path(e, p) && p[0] == a && p.last() == b
}

/// The edges of `e` are exactly those listed in the adjacency lists `adj`.
pub open spec fn adjacency_of(e: spec_fn(int, int) -> bool, adj: Seq<Vec<usize>>) -> bool {
    &&& forall|a: int, j: int| 0 <= a < adj.len() && 0 <= j < adj[a].len() ==> (#[trigger] adj[a]@[j]) < adj.len()
    &&& forall|a: int, b: int| #[trigger] e(a, b) <==> (0 <= a < adj.len() && 0 <= b < adj.len() && adj[a]@.contains(b as usize))
}

pub proof fn lemma_reach_edge(e: spec_fn(int, int) -> bool, a: int, b: int)
    requires
        e(a, b),
    ensures
        reaches(e, a, b),
{
    let p = seq![a, b];
    assert(is_path(e, p));
}

pub proof fn lemma_reach_step(e: spec_fn(int, int) -> bool, a: int, w: int, b: int)
    requires
        reaches(e, a, w),
        e(w, b),
    ensures
        reaches(e, a, b),
{
    let p = choose|p: Seq<int>| #[trigger] is_path(e, p) && p[0] == a && p.last() == w;
    let q = p.push(b);
    assert forall|i: int| 0 <= i < q.len() - 1 implies e(#[trigger] q[i], q[i + 1]) by {
        if i < p.len() - 1 {
            assert(q[i] == p[i] && q[i + 1] == p[i + 1]);
        }
    }
    assert(is_path(e, q));
}

/// Reachability is transitive.
pub proof fn lemma_reach_transitive(e: spec_fn(int, int) -> bool, a: int, b: int, c: int)
    requires
        reaches(e, a, b),
        reaches(e, b, c),
    ensures
        reaches(e, a, c),
{
    let p = choose|p: Seq<int>| #[trigger] is_path(e, p) && p[0] == a && p.last() == b;
    let q = choose|q: Seq<int>| #[trigger] is_path(e, q) && q[0] == b && q.last() == c;
    let r = p + q.drop_first();
    assert forall|i: int| 0 <= i < r.len() - 1 implies e(#[trigger] r[i], r[i + 1]) by {
        if i < p.len() - 1 {
            assert(r[i] == p[i] && r[i + 1] == p[i + 1]);
        } else if i == p.len() - 1 {
            assert(r[i] == q[0] && r[i + 1] == q[1]);
        } else {
            let j = i - p.len() + 1;
            assert(r[i] == q[j] && r[i + 1] == q[j + 1]);
        }
    }
    assert(is_path(e, r));
}

proof fn lemma_closed_covers(e: spec_fn(int, int) -> bool, s: int, vis: Seq<bool>, p: Seq<int>)
    requires
        forall|a: int, b: int| #[trigger] e(a, b) ==> 0 <= b < vis.len(),
        forall|b: int| #[trigger] e(s, b) ==> vis[b],
        forall|w: int, b: int| 0 <= w < vis.len() && vis[w] && #[trigger] e(w, b) ==> vis[b],
        is_path(e, p),
        p[0] == s,
    ensures
        0 <= p.last() < vis.len() && vis[p.last()],
    decreases p.len(),
{
    assert(e(p[p.len() - 2], p[p.len() - 1]));
    if p.len() > 2 {
        let q = p.drop_last();
        assert forall|i: int| 0 <= i < q.len() - 1 implies e(#[trigger] q[i], q[i + 1]) by {
            assert(q[i] == p[i] && q[i + 1] == p[i + 1]);
        }
        lemma_closed_covers(e, s, vis, q);
    }
}

pub open spec fn num_true(s: Seq<bool>) -> nat
    decreases s.len(),
{
    if s.len() == 0 {
        0
    } else {
        num_true(s.drop_last()) + if s.last() { 1nat } else { 0nat }
    }
}

pub proof fn lemma_num_true_set(s: Seq<bool>, i: int)
    requires
        0 <= i < s.len(),
        !s[i],
    ensures
        num_true(s.update(i, true)) == num_true(s) + 1,
    decreases s.len(),
{
    if i == s.len() - 1 {
        assert(s.update(i, true).drop_last() =~= s.drop_last());
    } else {
        lemma_num_true_set(s.drop_last(), i);
        assert(s.update(i, true).drop_last() =~= s.drop_last().update(i, true));
    }
}

pub proof fn lemma_num_true_none(s: Seq<bool>)
    requires
        forall|v: int| 0 <= v < s.len() ==> !s[v],
    ensures
        num_true(s) == 0,
    decreases s.len(),
{
    if s.len() > 0 {
        lemma_num_true_none(s.drop_last());
    }
}

pub proof fn lemma_num_true_bound(s: Seq<bool>)
    ensures
        num_true(s) <= s.len(),
    decreases s.len(),
{
    if s.len() > 0 {
        lemma_num_true_bound(s.drop_last());
    }
}

/// Marks the successors of `w` as visited and pushes those that were not on
/// `stack`.
fn visit_successors(
    adj: &Vec<Vec<usize>>,
    w: usize,
    vis: &mut Vec<bool>,
    stack: &mut Vec<usize>,
    Ghost(e): Ghost<spec_fn(int, int) -> bool>,
    Ghost(s): Ghost<int>,
)
    requires
        w < adj.len(),
        adjacency_of(e, adj@),
        old(vis).len() == adj.len(),
        w == s || reaches(e, s, w as int),
    ensures
        final(vis).len() == adj.len(),
        forall|v: int| 0 <= v < adj.len() && old(vis)@[v] ==> final(vis)@[v],
        forall|b: int| #[trigger] e(w as int, b) ==> final(vis)@[b],
        forall|v: int| 0 <= v < adj.len() && #[trigger] final(vis)@[v] && !old(vis)@[v] ==> reaches(e, s, v) && final(stack)@.contains(v as usize),
        final(stack)@.len() >= old(stack)@.len(),
        final(stack)@.subrange(0, old(stack)@.len() as int) == old(stack)@,
        forall|q: int| old(stack)@.len() <= q < final(stack)@.len() ==> (#[trigger] final(stack)@[q]) < adj.len() && final(vis)@[final(stack)@[q] as int],
        num_true(final(vis)@) >= num_true(old(vis)@),
        num_true(final(vis)@) == num_true(old(vis)@) ==> final(stack)@ == old(stack)@,
{
    let ghost vis0 = vis@;
    let ghost st0 = stack@;
    let succ = &adj[w];
    let mut j: usize = 0;
    while j < succ.len()
        invariant
            succ == adj@[w as int],
            w < adj.len(),
            adjacency_of(e, adj@),
            w == s || reaches(e, s, w as int),
            j <= succ.len(),
            vis.len() == adj.len(),
            forall|v: int| 0 <= v < adj.len() && vis0[v] ==> vis@[v],
            forall|q: int| 0 <= q < j ==> vis@[succ@[q] as int],
            forall|v: int| 0 <= v < adj.len() && #[trigger] vis@[v] && !vis0[v] ==> reaches(e, s, v) && stack@.contains(v as usize),
            stack@.len() >= st0.len(),
            stack@.subrange(0, st0.len() as int) == st0,
            forall|q: int| st0.len() <= q < stack@.len() ==> (#[trigger] stack@[q]) < adj.len() && vis@[stack@[q] as int],
            num_true(vis@) >= num_true(vis0),
            num_true(vis@) == num_true(vis0) ==> stack@ == st0,
        decreases succ.len() - j,
    {
        let u = succ[j];
        proof {
            assert(succ@[j as int] == u);
            assert(adj@[w as int]@.contains(u));
            assert(e(w as int, u as int));
            if w == s {
                lemma_reach_edge(e, s, u as int);
            } else {
                lemma_reach_step(e, s, w as int, u as int);
            }
        }
        if !vis[u] {
            proof {
                lemma_num_true_set(vis@, u as int);
            }
            let ghost stp = stack@;
            vis.set(u, true);
            stack.push(u);
            proof {
                assert(stack@[stp.len() as int] == u);
                assert(stack@.subrange(0, st0.len() as int) =~= stp.subrange(0, st0.len() as int));
                assert forall|v: int| 0 <= v < adj.len() && #[trigger] vis@[v] && !vis0[v] implies reaches(e, s, v) && stack@.contains(v as usize) by {
                    if v != u {
                        let q = choose|q: int| 0 <= q < stp.len() && stp[q] == v as usize;
                        assert(stack@[q] == v as usize);
                    }
                }
                assert forall|q: int| st0.len() <= q < stack@.len() implies (#[trigger] stack@[q]) < adj.len() && vis@[stack@[q] as int] by {
                    if q < stp.len() {
                        assert(stack@[q] == stp[q]);
                    }
                }
            }
        }
        j = j + 1;
    }
    proof {
        assert forall|b: int| #[trigger] e(w as int, b) implies vis@[b] by {
            let q = choose|q: int| 0 <= q < succ@.len() && succ@[q] == b as usize;
            assert(vis@[succ@[q] as int]);
        }
    }
}

/// Marks, for every node, whether it is reachable from `s` by one or more
/// edges of the graph given by the adjacency lists `adj`.
pub fn reachable_from(adj: &Vec<Vec<usize>>, s: usize, Ghost(e): Ghost<spec_fn(int, int) -> bool>) -> (vis: Vec<bool>)
    requires
        s < adj.len(),
        adjacency_of(e, adj@),
    ensures
        vis.len() == adj.len(),
        forall|v: int| 0 <= v < adj.len() ==> (vis@[v] <==> reaches(e, s as int, v)),
{
    let n = adj.len();
    let mut vis: Vec<bool> = Vec::new();
    let mut i: usize = 0;
    while i < n
        invariant
            i <= n,
            vis.len() == i,
            forall|v: int| 0 <= v < i ==> !vis@[v],
        decreases n - i,
    {
        vis.push(false);
        i = i + 1;
    }
    proof {
        lemma_num_true_none(vis@);
    }
    let mut stack: Vec<usize> = Vec::new();
    visit_successors(adj, s, &mut vis, &mut stack, Ghost(e), Ghost(s as int));
    proof {
        lemma_num_true_bound(vis@);
    }
    while stack.len() > 0
        invariant
            n == adj.len(),
            adjacency_of(e, adj@),
            vis.len() == n,
            num_true(vis@) <= n,
            forall|q: int| 0 <= q < stack.len() ==> (#[trigger] stack@[q]) < n && vis@[stack@[q] as int],
            forall|v: int| 0 <= v < n && #[trigger] vis@[v] ==> reaches(e, s as int, v),
            forall|b: int| #[trigger] e(s as int, b) ==> vis@[b],
            forall|w: int, b: int| 0 <= w < n && vis@[w] && !stack@.contains(w as usize) && #[trigger] e(w, b) ==> vis@[b],
        decreases n - num_true(vis@), stack.len(),
    {
        let ghost vis0 = vis@;
        let ghost st0 = stack@;
        let w = stack.pop().unwrap();
        proof {
            assert(st0[st0.len() - 1] == w);
            assert(vis@[w as int]);
        }
        let ghost st1 = stack@;
        visit_successors(adj, w, &mut vis, &mut stack, Ghost(e), Ghost(s as int));
        proof {
            lemma_num_true_bound(vis@);
            assert forall|q: int| 0 <= q < stack.len() implies (#[trigger] stack@[q]) < n && vis@[stack@[q] as int] by {
                if q < st1.len() {
                    assert(stack@.subrange(0, st1.len() as int)[q] == st1[q]);
                    assert(st1[q] == st0[q]);
                }
            }
            assert forall|x: int, b: int| 0 <= x < n && vis@[x] && !stack@.contains(x as usize) && #[trigger] e(x, b) implies vis@[b] by {
                if x != w {
                    if vis0[x] {
                        if st0.contains(x as usize) {
                            let q = choose|q: int| 0 <= q < st0.len() && st0[q] == x as usize;
                            assert(q < st1.len());
                            assert(stack@.subrange(0, st1.len() as int)[q] == st1[q]);
                            assert(stack@[q] == x as usize);
                        }
                        assert(adj@[b]@.len() >= 0);
                    }
                }
            }
        }
    }
    proof {
        assert forall|v: int| 0 <= v < n && reaches(e, s as int, v) implies vis@[v] by {
            let p = choose|p: Seq<int>| #[trigger] is_path(e, p) && p[0] == s as int && p.last() == v;
            lemma_closed_covers(e, s as int, vis@, p);
        }
    }
    vis
}

pub proof fn lemma_num_true_full(s: Seq<bool>)
    requires
        num_true(s) == s.len(),
    ensures
        forall|v: int| 0 <= v < s.len() ==> s[v],
    decreases s.len(),
{
    if s.len() > 0 {
        lemma_num_true_bound(s.drop_last());
        lemma_num_true_full(s.drop_last());
        assert forall|v: int| 0 <= v < s.len() implies s[v] by {
            if v < s.len() - 1 {
                assert(s.drop_last()[v] == s[v]);
            }
        }
    }
}

} // verus!
