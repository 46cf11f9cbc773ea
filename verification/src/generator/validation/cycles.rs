//! Containment cycles among sound classes and reference cycles among word
//! generators, found by a depth-first walk.

use super::{collect_pattern_references, gen_keys, pattern_refs, resolve_generator_key, spec_resolve_key, ValidationError};
use crate::config::SoundClassMap;
use crate::generator::pattern::WordPattern;
use crate::generator::WordGenerator;
use crate::sound_class::{is_class_letter, SoundClassKey};
use vstd::prelude::*;

verus! {

// ----- graphs given by successor lists -----

/// A graph's model: the successor list of each node.
pub open spec fn graph_view(g: Seq<Vec<usize>>) -> Seq<Seq<usize>> {
    g.map_values(|v: Vec<usize>| v@)
}

/// Every successor names a node of the graph.
pub open spec fn graph_wf(g: Seq<Seq<usize>>) -> bool {
    forall|a: int, j: int| 0 <= a < g.len() && 0 <= j < g[a].len() ==> #[trigger] g[a][j] < g.len()
}

/// Whether `b` is a successor of `a`.
pub open spec fn is_edge(g: Seq<Seq<usize>>, a: usize, b: usize) -> bool {
    a < g.len() && g[a as int].contains(b)
}

/// Whether the node at `i` in `p` is followed by one of its successors.
pub open spec fn walk_step(g: Seq<Seq<usize>>, p: Seq<usize>, i: int) -> bool {
    is_edge(g, p[i], p[i + 1])
}

/// Whether each node of `p` is followed by one of its successors.
pub open spec fn is_walk(g: Seq<Seq<usize>>, p: Seq<usize>) -> bool {
    forall|i: int| 0 <= i < p.len() - 1 ==> #[trigger] walk_step(g, p, i)
}

/// Whether a walk of at least one step leads from `n` back to `n`.
pub open spec fn on_cycle(g: Seq<Seq<usize>>, n: usize) -> bool {
    exists|p: Seq<usize>| #[trigger] is_walk(g, p) && p.len() >= 2 && p[0] == n && p.last() == n
}

/// Whether some node lies on a cycle.
pub open spec fn has_cycle(g: Seq<Seq<usize>>) -> bool {
    exists|n: usize| #[trigger] on_cycle(g, n)
}

/// The number of nodes that are neither being walked nor finished.
spec fn unmarked(a: Seq<bool>, b: Seq<bool>, k: int) -> nat
    decreases k,
{
    if k <= 0 {
        0
    } else {
        unmarked(a, b, k - 1) + (if !a[k - 1] && !b[k - 1] { 1nat } else { 0nat })
    }
}

proof fn lemma_unmarked_shrinks(a0: Seq<bool>, b0: Seq<bool>, a1: Seq<bool>, b1: Seq<bool>, k: int, u: int)
    requires
        0 <= k,
        forall|x: int| 0 <= x < k && (a0[x] || b0[x]) ==> (a1[x] || b1[x]),
    ensures
        unmarked(a1, b1, k) <= unmarked(a0, b0, k),
        0 <= u < k && !a0[u] && !b0[u] && (a1[u] || b1[u]) ==> unmarked(a1, b1, k) < unmarked(a0, b0, k),
    decreases k,
{
    if k > 0 {
        lemma_unmarked_shrinks(a0, b0, a1, b1, k - 1, u);
    }
}

/// The state of a walk: `path` are the nodes being walked, in order; each
/// finished node has a rank below `time`, above the ranks of its successors.
spec fn walk_inv(
    g: Seq<Seq<usize>>,
    visiting: Seq<bool>,
    visited: Seq<bool>,
    path: Seq<usize>,
    rank: Seq<int>,
    time: int,
) -> bool {
    &&& graph_wf(g)
    &&& visiting.len() == g.len()
    &&& visited.len() == g.len()
    &&& rank.len() == g.len()
    &&& forall|x: int| 0 <= x < g.len() ==> (visiting[x] <==> path.contains(x as usize))
    &&& forall|x: int| 0 <= x < g.len() ==> !(#[trigger] visiting[x] && visited[x])
    &&& forall|i: int| 0 <= i < path.len() ==> path[i] < g.len()
    &&& is_walk(g, path)
    &&& forall|x: int, j: int|
        0 <= x < g.len() && visited[x] && 0 <= j < g[x].len() ==> visited[#[trigger] g[x][j] as int] && rank[g[x][j] as int] < rank[x]
    &&& forall|x: int| 0 <= x < g.len() && #[trigger] visited[x] ==> rank[x] < time
}

/// Walks from `u` depth-first; returns a node that closes a cycle, if one is met.
fn visit(
    g: &Vec<Vec<usize>>,
    u: usize,
    visiting: &mut Vec<bool>,
    visited: &mut Vec<bool>,
    Ghost(path): Ghost<Seq<usize>>,
    Ghost(rank0): Ghost<Seq<int>>,
    Ghost(time0): Ghost<int>,
    Ghost(fuel): Ghost<nat>,
) -> (r: (Option<usize>, Ghost<Seq<int>>, Ghost<int>))
    requires
        fuel == unmarked(old(visiting)@, old(visited)@, g.len() as int),
        walk_inv(graph_view(g@), old(visiting)@, old(visited)@, path, rank0, time0),
        u < g.len(),
        !old(visiting)@[u as int],
        !old(visited)@[u as int],
        path.len() > 0 ==> is_edge(graph_view(g@), path.last(), u),
    ensures
        r.0 matches Some(c) ==> c < g.len() && on_cycle(graph_view(g@), c),
        r.0 is None ==> walk_inv(graph_view(g@), final(visiting)@, final(visited)@, path, r.1@, r.2@),
        r.0 is None ==> final(visiting)@ == old(visiting)@,
        r.0 is None ==> final(visited)@[u as int],
        r.0 is None ==> forall|x: int| 0 <= x < g.len() && #[trigger] old(visited)@[x] ==> final(visited)@[x],
        r.0 is None ==> forall|x: int| 0 <= x < g.len() && #[trigger] old(visited)@[x] ==> r.1@[x] == rank0[x],
    decreases fuel,
{
    let ghost mut rank = rank0;
    let ghost mut time = time0;
    let ghost gv = graph_view(g@);
    let ghost v0 = visiting@;
    let ghost d0 = visited@;
    let ghost r0 = rank;
    visiting[u] = true;
    let ghost path2 = path.push(u);
    proof {
        assert forall|x: int| 0 <= x < g.len() implies (visiting@[x] <==> path2.contains(x as usize)) by {
            if x == u {
                assert(path2[path.len() as int] == u);
            } else if path.contains(x as usize) {
                let k = choose|k: int| 0 <= k < path.len() && path[k] == x as usize;
                assert(path2[k] == x as usize);
            } else if path2.contains(x as usize) {
                let k = choose|k: int| 0 <= k < path2.len() && path2[k] == x as usize;
                assert(path[k] == x as usize);
            }
        }
        assert forall|i: int| 0 <= i < path2.len() - 1 implies #[trigger] walk_step(gv, path2, i) by {
            if i < path.len() - 1 {
                assert(walk_step(gv, path, i));
            }
        }
    }
    let deps = &g[u];
    assert(gv[u as int] == deps@);
    let mut j: usize = 0;
    while j < deps.len()
        invariant
            gv == graph_view(g@),
            u < g.len(),
            deps@ == gv[u as int],
            j <= deps.len(),
            walk_inv(gv, visiting@, visited@, path2, rank, time),
            path2 == path.push(u),
            visiting@ == v0.update(u as int, true),
            !visited@[u as int],
            !v0[u as int],
            !d0[u as int],
            v0.len() == g.len(),
            d0.len() == g.len(),
            r0.len() == g.len(),
            v0 == old(visiting)@,
            d0 == old(visited)@,
            r0 == rank0,
            fuel == unmarked(v0, d0, g.len() as int),
            forall|q: int| 0 <= q < j ==> visited@[#[trigger] deps@[q] as int],
            forall|x: int| 0 <= x < g.len() && #[trigger] d0[x] ==> visited@[x],
            forall|x: int| 0 <= x < g.len() && #[trigger] d0[x] ==> rank[x] == r0[x],
        decreases deps.len() - j,
    {
        let d = deps[j];
        assert(d < g.len());
        if visiting[d] {
            proof {
                let k = choose|k: int| 0 <= k < path2.len() && path2[k] == d;
                let p = seq![u].add(path2.subrange(k, path2.len() as int));
                assert(deps@.contains(d));
                assert forall|i: int| 0 <= i < p.len() - 1 implies #[trigger] walk_step(gv, p, i) by {
                    if i > 0 {
                        assert(p[i] == path2[k + i - 1]);
                        assert(p[i + 1] == path2[k + i]);
                        assert(walk_step(gv, path2, k + i - 1));
                    }
                }
                assert(is_walk(gv, p) && p.len() >= 2 && p[0] == u && p.last() == u);
            }
            return (Some(u), Ghost(rank), Ghost(time));
        }
        if !visited[d] {
            proof {
                assert(deps@.contains(d));
                lemma_unmarked_shrinks(v0, d0, visiting@, visited@, g.len() as int, u as int);
            }
            let ghost vb = visited@;
            let ghost vb_all = visiting@;
            let ghost rb = rank;
            let (r, Ghost(rank2), Ghost(time2)) = visit(g, d, visiting, visited, Ghost(path2), Ghost(rank), Ghost(time), Ghost(unmarked(vb_all, vb, g.len() as int)));
            if r.is_some() {
                return (r, Ghost(rank), Ghost(time));
            }
            proof {
                rank = rank2;
                time = time2;
            }
            assert(visiting@[u as int]);
            assert forall|x: int| 0 <= x < g.len() && #[trigger] d0[x] implies visited@[x] && rank[x] == r0[x] by {
                assert(vb[x]);
            }
        }
        j = j + 1;
    }
    let ghost dl = visited@;
    let ghost rl = rank;
    proof {
        assert forall|x: int| 0 <= x < g.len() implies (v0[x] <==> path.contains(x as usize)) by {
            if x != u {
                if path2.contains(x as usize) {
                    let k = choose|k: int| 0 <= k < path2.len() && path2[k] == x as usize;
                    assert(path[k] == x as usize);
                }
                if path.contains(x as usize) {
                    let k = choose|k: int| 0 <= k < path.len() && path[k] == x as usize;
                    assert(path2[k] == x as usize);
                }
            }
        }
    }
    visiting[u] = false;
    visited[u] = true;
    proof {
        rank = rank.update(u as int, time);
        time = time + 1;
        assert(visiting@ =~= v0);
        assert forall|i: int| 0 <= i < path.len() - 1 implies #[trigger] walk_step(gv, path, i) by {
            assert(path2[i] == path[i] && path2[i + 1] == path[i + 1]);
            assert(walk_step(gv, path2, i));
        }
        assert forall|x: int, q: int|
            0 <= x < g.len() && visited@[x] && 0 <= q < gv[x].len() implies visited@[#[trigger] gv[x][q] as int] && rank[gv[x][q] as int] < rank[x] by {
            if x == u {
                assert(visited@[deps@[q] as int]);
            }
        }
        assert(walk_inv(gv, visiting@, visited@, path, rank, time));
        assert(visited@[u as int]);
        assert forall|x: int| 0 <= x < g.len() && #[trigger] d0[x] implies visited@[x] && rank[x] == r0[x] by {
            assert(dl[x]);
        }
    }
    (None, Ghost(rank), Ghost(time))
}

/// Looks for a cycle, walking from each unfinished node in order; returns a
/// node on a cycle, if there is one.
pub fn find_cycle(g: &Vec<Vec<usize>>) -> (r: Option<usize>)
    requires
        graph_wf(graph_view(g@)),
    ensures
        r matches Some(c) ==> c < g.len() && on_cycle(graph_view(g@), c),
        r is None <==> !has_cycle(graph_view(g@)),
{
    let ghost gv = graph_view(g@);
    let n = g.len();
    let mut visiting: Vec<bool> = Vec::new();
    let mut visited: Vec<bool> = Vec::new();
    let mut i: usize = 0;
    while i < n
        invariant
            n == g.len(),
            i <= n,
            visiting@.len() == i,
            visited@.len() == i,
            forall|x: int| 0 <= x < i ==> !visiting@[x] && !visited@[x],
        decreases n - i,
    {
        visiting.push(false);
        visited.push(false);
        i = i + 1;
    }
    let ghost mut rank: Seq<int> = Seq::new(n as nat, |x: int| 0int);
    let ghost mut time: int = 0;
    let ghost empty = Seq::<usize>::empty();
    assert(walk_inv(gv, visiting@, visited@, empty, rank, time));
    let mut s: usize = 0;
    while s < n
        invariant
            gv == graph_view(g@),
            n == g.len(),
            s <= n,
            walk_inv(gv, visiting@, visited@, empty, rank, time),
            empty == Seq::<usize>::empty(),
            forall|x: int| 0 <= x < s ==> #[trigger] visited@[x],
        decreases n - s,
    {
        if !visited[s] {
            proof {
                if visiting@[s as int] {
                    assert(empty.contains(s));
                }
            }
            let ghost fuel = unmarked(visiting@, visited@, n as int);
            let ghost before = visited@;
            let (r, Ghost(rank2), Ghost(time2)) = visit(g, s, &mut visiting, &mut visited, Ghost(empty), Ghost(rank), Ghost(time), Ghost(fuel));
            proof {
                rank = rank2;
                time = time2;
            }
            if r.is_some() {
                proof {
                    let c = r->Some_0;
                    assert(on_cycle(gv, c));
                }
                return r;
            }
            assert forall|x: int| 0 <= x < s implies #[trigger] visited@[x] by {
                assert(before[x]);
            }
        }
        s = s + 1;
    }
    proof {
        assert forall|c: usize| !#[trigger] on_cycle(gv, c) by {
            if on_cycle(gv, c) {
                let p = choose|p: Seq<usize>| #[trigger] is_walk(gv, p) && p.len() >= 2 && p[0] == c && p.last() == c;
                lemma_walk_ranks(gv, visited@, rank, p);
            }
        }
    }
    None
}

/// Along a walk of finished nodes, ranks fall by at least one at each step.
proof fn lemma_walk_ranks(g: Seq<Seq<usize>>, visited: Seq<bool>, rank: Seq<int>, p: Seq<usize>)
    requires
        graph_wf(g),
        visited.len() == g.len(),
        rank.len() == g.len(),
        forall|x: int| 0 <= x < g.len() ==> #[trigger] visited[x],
        forall|x: int, j: int|
            0 <= x < g.len() && visited[x] && 0 <= j < g[x].len() ==> visited[#[trigger] g[x][j] as int] && rank[g[x][j] as int] < rank[x],
        is_walk(g, p),
        p.len() >= 2,
    ensures
        p[0] < g.len(),
        p.last() < g.len(),
        rank[p.last() as int] <= rank[p[0] as int] - (p.len() - 1),
    decreases p.len(),
{
    assert(walk_step(g, p, 0));
    let j = choose|j: int| 0 <= j < g[p[0] as int].len() && g[p[0] as int][j] == p[1];
    assert(g[p[0] as int][j] < g.len());
    if p.len() > 2 {
        let q = p.drop_first();
        assert forall|i: int| 0 <= i < q.len() - 1 implies #[trigger] walk_step(g, q, i) by {
            assert(walk_step(g, p, i + 1));
        }
        lemma_walk_ranks(g, visited, rank, q);
    }
}

// ----- sound classes -----

/// The first position, from `k` on, of a class recorded under `c`.
pub open spec fn class_index_from(cs: Seq<(char, Seq<Seq<char>>)>, c: char, k: int) -> Option<int>
    decreases cs.len() - k,
{
    if k < 0 || k >= cs.len() {
        None
    } else if cs[k].0 == c {
        Some(k)
    } else {
        class_index_from(cs, c, k + 1)
    }
}

/// The class that a value names: the value is one uppercase letter under
/// which a class is recorded.
pub open spec fn named_class(cs: Seq<(char, Seq<Seq<char>>)>, v: Seq<char>) -> Option<int> {
    if v.len() == 1 && is_class_letter(v[0]) {
        class_index_from(cs, v[0], 0)
    } else {
        None
    }
}

/// The classes that a class's values name, in order.
pub open spec fn class_deps(cs: Seq<(char, Seq<Seq<char>>)>, vs: Seq<Seq<char>>) -> Seq<usize>
    decreases vs.len(),
{
    if vs.len() == 0 {
        Seq::empty()
    } else {
        class_deps(cs, vs.drop_last()) + match named_class(cs, vs.last()) {
            Some(k) => seq![k as usize],
            None => Seq::empty(),
        }
    }
}

/// The containment graph of sound classes: each class leads to the classes
/// that its values name.
pub open spec fn class_graph(cs: Seq<(char, Seq<Seq<char>>)>) -> Seq<Seq<usize>> {
    Seq::new(cs.len(), |i: int| class_deps(cs, cs[i].1))
}

pub proof fn lemma_class_index_from(cs: Seq<(char, Seq<Seq<char>>)>, c: char, k: int)
    ensures
        class_index_from(cs, c, k) matches Some(i) ==> k <= i < cs.len() && cs[i].0 == c,
    decreases cs.len() - k,
{
    if 0 <= k < cs.len() && cs[k].0 != c {
        lemma_class_index_from(cs, c, k + 1);
    }
}

proof fn lemma_class_deps_in_range(cs: Seq<(char, Seq<Seq<char>>)>, vs: Seq<Seq<char>>)
    ensures
        forall|j: int| 0 <= j < class_deps(cs, vs).len() ==> #[trigger] class_deps(cs, vs)[j] < cs.len(),
    decreases vs.len(),
{
    if vs.len() > 0 {
        let d = class_deps(cs, vs.drop_last());
        lemma_class_deps_in_range(cs, vs.drop_last());
        if vs.last().len() == 1 && is_class_letter(vs.last()[0]) {
            lemma_class_index_from(cs, vs.last()[0], 0);
        }
        assert forall|j: int| 0 <= j < class_deps(cs, vs).len() implies #[trigger] class_deps(cs, vs)[j] < cs.len() by {
            if j < d.len() {
                assert(class_deps(cs, vs)[j] == d[j]);
            }
        }
    }
}

proof fn lemma_class_graph_wf(cs: Seq<(char, Seq<Seq<char>>)>)
    ensures
        graph_wf(class_graph(cs)),
{
    assert forall|a: int, j: int| 0 <= a < class_graph(cs).len() && 0 <= j < class_graph(cs)[a].len() implies #[trigger] class_graph(cs)[a][j] < class_graph(cs).len() by {
        lemma_class_deps_in_range(cs, cs[a].1);
    }
}

proof fn lemma_class_deps_members(cs: Seq<(char, Seq<Seq<char>>)>, vs: Seq<Seq<char>>, j: usize)
    requires
        cs.len() <= usize::MAX,
    ensures
        class_deps(cs, vs).contains(j) <==> exists|q: int| 0 <= q < vs.len() && named_class(cs, #[trigger] vs[q]) == Some(j as int),
    decreases vs.len(),
{
    if vs.len() > 0 {
        let pre = vs.drop_last();
        let d = class_deps(cs, pre);
        lemma_class_deps_members(cs, pre, j);
        let last = vs.last();
        if last.len() == 1 && is_class_letter(last[0]) {
            lemma_class_index_from(cs, last[0], 0);
        }
        if let Some(k) = named_class(cs, last) {
            assert(0 <= k < cs.len());
            assert((k as usize) as int == k);
        }
        let tail: Seq<usize> = match named_class(cs, last) {
            Some(k) => seq![k as usize],
            None => Seq::empty(),
        };
        assert(class_deps(cs, vs) == d + tail);
        if class_deps(cs, vs).contains(j) {
            let x = choose|x: int| 0 <= x < (d + tail).len() && (d + tail)[x] == j;
            if x < d.len() {
                assert(d[x] == j);
                assert(d.contains(j));
                let q = choose|q: int| 0 <= q < pre.len() && named_class(cs, #[trigger] pre[q]) == Some(j as int);
                assert(vs[q] == pre[q]);
            } else {
                assert(tail[x - d.len()] == j);
                assert(vs[vs.len() - 1] == last);
            }
        }
        if exists|q: int| 0 <= q < vs.len() && named_class(cs, #[trigger] vs[q]) == Some(j as int) {
            let q = choose|q: int| 0 <= q < vs.len() && named_class(cs, #[trigger] vs[q]) == Some(j as int);
            if q < vs.len() - 1 {
                assert(pre[q] == vs[q]);
                let x = choose|x: int| 0 <= x < d.len() && d[x] == j;
                assert((d + tail)[x] == j);
            } else {
                assert(vs[q] == last);
                assert((d + tail)[d.len() as int] == j);
            }
        }
    }
}

/// In the containment graph of sound classes, class `i` leads to class `j`
/// exactly when one of its values, at whatever position, is the single
/// letter under which `j` is (first) recorded.
pub proof fn lemma_class_graph_edges(cs: Seq<(char, Seq<Seq<char>>)>, i: usize, j: usize)
    requires
        cs.len() <= usize::MAX,
        i < cs.len(),
    ensures
        is_edge(class_graph(cs), i, j) <==> exists|q: int|
            0 <= q < cs[i as int].1.len() && named_class(cs, #[trigger] cs[i as int].1[q]) == Some(j as int),
        (exists|q: int| 0 <= q < cs[i as int].1.len() && cs[i as int].1[q] == seq![cs[j as int].0])
            && j < cs.len() && is_class_letter(cs[j as int].0) && class_index_from(cs, cs[j as int].0, 0) == Some(j as int)
            ==> is_edge(class_graph(cs), i, j),
{
    lemma_class_deps_members(cs, cs[i as int].1, j);
    if exists|q: int| 0 <= q < cs[i as int].1.len() && cs[i as int].1[q] == seq![cs[j as int].0] {
        let q = choose|q: int| 0 <= q < cs[i as int].1.len() && cs[i as int].1[q] == seq![cs[j as int].0];
        assert(cs[i as int].1[q][0] == cs[j as int].0);
    }
}

/// Two classes that each hold the other's letter make sound-class
/// validation fail.
pub proof fn lemma_mutual_containment_is_a_cycle(cs: Seq<(char, Seq<Seq<char>>)>, i: usize, j: usize, qi: int, qj: int)
    requires
        cs.len() <= usize::MAX,
        i < cs.len(),
        j < cs.len(),
        is_class_letter(cs[i as int].0),
        is_class_letter(cs[j as int].0),
        class_index_from(cs, cs[i as int].0, 0) == Some(i as int),
        class_index_from(cs, cs[j as int].0, 0) == Some(j as int),
        0 <= qi < cs[i as int].1.len(),
        cs[i as int].1[qi] == seq![cs[j as int].0],
        0 <= qj < cs[j as int].1.len(),
        cs[j as int].1[qj] == seq![cs[i as int].0],
    ensures
        has_cycle(class_graph(cs)),
{
    lemma_class_graph_edges(cs, i, j);
    lemma_class_graph_edges(cs, j, i);
    let p = seq![i, j, i];
    assert(walk_step(class_graph(cs), p, 0));
    assert(walk_step(class_graph(cs), p, 1));
    assert(is_walk(class_graph(cs), p));
    assert(on_cycle(class_graph(cs), i));
}

/// The position of the first class recorded under a letter.
pub(crate) fn class_index(classes: &SoundClassMap, c: char) -> (r: Option<usize>)
    ensures
        r is Some == class_index_from(classes@, c, 0) is Some,
        r matches Some(i) ==> class_index_from(classes@, c, 0) == Some(i as int),
{
    let ghost cs = classes@;
    let mut i: usize = 0;
    while i < classes.entries.len()
        invariant
            cs == classes@,
            cs.len() == classes.entries@.len(),
            i <= classes.entries.len(),
            class_index_from(cs, c, 0) == class_index_from(cs, c, i as int),
        decreases classes.entries.len() - i,
    {
        assert(cs[i as int].0 == classes.entries@[i as int].0.letter);
        if classes.entries[i].0.letter == c {
            return Some(i);
        }
        i = i + 1;
    }
    None
}

/// Builds the containment graph of sound classes.
fn sound_class_graph(classes: &SoundClassMap) -> (g: Vec<Vec<usize>>)
    ensures
        graph_view(g@) == class_graph(classes@),
{
    let ghost cs = classes@;
    let mut g: Vec<Vec<usize>> = Vec::new();
    let mut i: usize = 0;
    while i < classes.entries.len()
        invariant
            cs == classes@,
            cs.len() == classes.entries@.len(),
            i <= classes.entries.len(),
            g@.len() == i,
            forall|t: int| 0 <= t < i ==> (#[trigger] g@[t])@ == class_deps(cs, cs[t].1),
        decreases classes.entries.len() - i,
    {
        let values = &classes.entries[i].1.values;
        let ghost vs = cs[i as int].1;
        assert(vs == crate::data::strings_view(values@));
        let mut deps: Vec<usize> = Vec::new();
        let mut q: usize = 0;
        while q < values.len()
            invariant
                cs == classes@,
                vs == crate::data::strings_view(values@),
                q <= values.len(),
                deps@ == class_deps(cs, vs.take(q as int)),
            decreases values.len() - q,
        {
            assert(vs.take(q + 1).drop_last() =~= vs.take(q as int));
            assert(vs[q as int] == values@[q as int]@);
            match SoundClassKey::parse(values[q].as_str()) {
                Ok(k) => {
                    match class_index(classes, k.letter) {
                        Some(t) => {
                            deps.push(t);
                        },
                        None => {},
                    }
                },
                Err(_) => {},
            }
            assert(deps@ =~= class_deps(cs, vs.take(q + 1)));
            q = q + 1;
        }
        assert(vs.take(q as int) =~= vs);
        g.push(deps);
        i = i + 1;
    }
    assert(graph_view(g@) =~= class_graph(cs));
    g
}

/// Validates that no sound class contains itself, directly or through the
/// classes that its values name; a class on such a cycle is reported.
pub fn validate_sound_class_cycles(sound_classes: &SoundClassMap) -> (r: Result<(), ValidationError>)
    ensures
        r is Ok <==> !has_cycle(class_graph(sound_classes@)),
        r matches Err(e) ==> (e matches ValidationError::CircularSoundClassContainment(k) && exists|n: usize|
            n < sound_classes@.len() && on_cycle(class_graph(sound_classes@), n) && k@ == seq![sound_classes@[n as int].0]),
{
    let g = sound_class_graph(sound_classes);
    proof {
        lemma_class_graph_wf(sound_classes@);
        assert(g@.len() == graph_view(g@).len());
    }
    match find_cycle(&g) {
        Some(n) => {
            let k = sound_classes.entries[n].0.to_text();
            assert(sound_classes@[n as int].0 == sound_classes.entries@[n as int].0.letter);
            Err(ValidationError::CircularSoundClassContainment(k))
        },
        None => Ok(()),
    }
}

// ----- word generators -----

/// The grammar references of a generator's patterns, in order.
pub open spec fn generator_refs(pats: Seq<WordPattern>) -> Seq<Seq<char>>
    decreases pats.len(),
{
    if pats.len() == 0 {
        Seq::empty()
    } else {
        generator_refs(pats.drop_last()) + pattern_refs(pats.last()@)
    }
}

/// The first reference among `rs` that resolves to no generator.
pub open spec fn first_unresolved(ks: Seq<Seq<char>>, rs: Seq<Seq<char>>) -> Option<Seq<char>>
    decreases rs.len(),
{
    if rs.len() == 0 {
        None
    } else if spec_resolve_key(ks, rs[0]) is None {
        Some(rs[0])
    } else {
        first_unresolved(ks, rs.drop_first())
    }
}

/// The first unresolved reference, generator by generator from the `i`-th.
pub open spec fn first_unresolved_from(gs: Seq<(String, WordGenerator)>, i: int) -> Option<Seq<char>>
    decreases gs.len() - i,
{
    if i < 0 || i >= gs.len() {
        None
    } else {
        match first_unresolved(gen_keys(gs), generator_refs(gs[i].1.patterns@)) {
            Some(r) => Some(r),
            None => first_unresolved_from(gs, i + 1),
        }
    }
}

/// The first position, from `i` on, of a key.
pub open spec fn key_index_from(ks: Seq<Seq<char>>, k: Seq<char>, i: int) -> Option<int>
    decreases ks.len() - i,
{
    if i < 0 || i >= ks.len() {
        None
    } else if ks[i] == k {
        Some(i)
    } else {
        key_index_from(ks, k, i + 1)
    }
}

/// `s` with `x` put before its first element that is not below `x`, unless
/// that element is `x`; on an ascending list, the ascending list of both.
pub open spec fn insert_sorted(s: Seq<usize>, x: usize) -> Seq<usize>
    decreases s.len(),
{
    if s.len() == 0 {
        seq![x]
    } else if s[0] == x {
        s
    } else if x < s[0] {
        seq![x] + s
    } else {
        seq![s[0]] + insert_sorted(s.drop_first(), x)
    }
}

/// The generators that references lead to: their positions, ascending and
/// without repeats.
pub open spec fn ref_deps(ks: Seq<Seq<char>>, rs: Seq<Seq<char>>) -> Seq<usize>
    decreases rs.len(),
{
    if rs.len() == 0 {
        Seq::empty()
    } else {
        let d = ref_deps(ks, rs.drop_last());
        match spec_resolve_key(ks, rs.last()) {
            Some(k) => match key_index_from(ks, k, 0) {
                Some(p) => insert_sorted(d, p as usize),
                None => d,
            },
            None => d,
        }
    }
}

/// The reference graph of generators: each generator leads to those that its
/// patterns' references resolve to.
pub open spec fn generator_graph(gs: Seq<(String, WordGenerator)>) -> Seq<Seq<usize>> {
    Seq::new(gs.len(), |i: int| ref_deps(gen_keys(gs), generator_refs(gs[i].1.patterns@)))
}

pub proof fn lemma_key_index_from(ks: Seq<Seq<char>>, k: Seq<char>, i: int)
    ensures
        key_index_from(ks, k, i) matches Some(p) ==> i <= p < ks.len() && ks[p] == k,
        0 <= i && (exists|q: int| i <= q < ks.len() && ks[q] == k) ==> key_index_from(ks, k, i) is Some,
    decreases ks.len() - i,
{
    if 0 <= i < ks.len() && ks[i] != k {
        lemma_key_index_from(ks, k, i + 1);
        if exists|q: int| i <= q < ks.len() && ks[q] == k {
            let q = choose|q: int| i <= q < ks.len() && ks[q] == k;
            assert(i + 1 <= q);
        }
    }
}

proof fn lemma_insert_sorted_elems(s: Seq<usize>, x: usize, bound: int)
    requires
        x < bound,
        forall|j: int| 0 <= j < s.len() ==> #[trigger] s[j] < bound,
    ensures
        forall|j: int| 0 <= j < insert_sorted(s, x).len() ==> #[trigger] insert_sorted(s, x)[j] < bound,
    decreases s.len(),
{
    if s.len() > 0 && s[0] != x && x >= s[0] {
        lemma_insert_sorted_elems(s.drop_first(), x, bound);
        let t = insert_sorted(s.drop_first(), x);
        assert forall|j: int| 0 <= j < insert_sorted(s, x).len() implies #[trigger] insert_sorted(s, x)[j] < bound by {
            if j > 0 {
                assert(insert_sorted(s, x)[j] == t[j - 1]);
            }
        }
    } else if s.len() > 0 && s[0] != x {
        assert forall|j: int| 0 <= j < insert_sorted(s, x).len() implies #[trigger] insert_sorted(s, x)[j] < bound by {
            if j > 0 {
                assert(insert_sorted(s, x)[j] == s[j - 1]);
            }
        }
    }
}

proof fn lemma_ref_deps_in_range(ks: Seq<Seq<char>>, rs: Seq<Seq<char>>)
    ensures
        forall|j: int| 0 <= j < ref_deps(ks, rs).len() ==> #[trigger] ref_deps(ks, rs)[j] < ks.len(),
    decreases rs.len(),
{
    if rs.len() > 0 {
        lemma_ref_deps_in_range(ks, rs.drop_last());
        match spec_resolve_key(ks, rs.last()) {
            Some(k) => {
                lemma_key_index_from(ks, k, 0);
                match key_index_from(ks, k, 0) {
                    Some(p) => {
                        lemma_insert_sorted_elems(ref_deps(ks, rs.drop_last()), p as usize, ks.len() as int);
                    },
                    None => {},
                }
            },
            None => {},
        }
    }
}

proof fn lemma_generator_graph_wf(gs: Seq<(String, WordGenerator)>)
    ensures
        graph_wf(generator_graph(gs)),
{
    assert forall|a: int, j: int| 0 <= a < generator_graph(gs).len() && 0 <= j < generator_graph(gs)[a].len() implies #[trigger] generator_graph(gs)[a][j] < generator_graph(gs).len() by {
        lemma_ref_deps_in_range(gen_keys(gs), generator_refs(gs[a].1.patterns@));
    }
}

/// Puts `x` into a list before its first element that is not below `x`,
/// unless that element is `x`.
fn insert_sorted_exec(s: &mut Vec<usize>, x: usize)
    ensures
        final(s)@ == insert_sorted(old(s)@, x),
{
    let ghost s0 = s@;
    let mut i: usize = 0;
    assert(s0.take(0) + insert_sorted(s0.skip(0), x) =~= insert_sorted(s0, x)) by {
        assert(s0.skip(0) =~= s0);
    }
    while i < s.len() && s[i] < x
        invariant
            s@ == s0,
            i <= s.len(),
            insert_sorted(s0, x) == s0.take(i as int) + insert_sorted(s0.skip(i as int), x),
        decreases s.len() - i,
    {
        let ghost rest = s0.skip(i as int);
        assert(rest.drop_first() =~= s0.skip(i + 1));
        assert(s0.take(i + 1) =~= s0.take(i as int).push(s0[i as int]));
        assert(insert_sorted(rest, x) == seq![rest[0]] + insert_sorted(rest.drop_first(), x));
        assert(s0.take(i as int) + (seq![rest[0]] + insert_sorted(rest.drop_first(), x)) =~= s0.take(i + 1) + insert_sorted(s0.skip(i + 1), x));
        i = i + 1;
    }
    if i < s.len() && s[i] == x {
        assert(s0.take(i as int) + s0.skip(i as int) =~= s0);
        return;
    }
    s.insert(i, x);
    proof {
        if i < s0.len() {
            assert(s@ =~= s0.take(i as int) + (seq![x] + s0.skip(i as int)));
        } else {
            assert(s0.skip(i as int) =~= Seq::<usize>::empty());
            assert(s@ =~= s0.take(i as int) + seq![x]);
        }
    }
}

/// The position of the first generator under a key.
pub(crate) fn key_index(generators: &Vec<(String, WordGenerator)>, key: &str) -> (r: Option<usize>)
    ensures
        r is Some == key_index_from(gen_keys(generators@), key@, 0) is Some,
        r matches Some(i) ==> key_index_from(gen_keys(generators@), key@, 0) == Some(i as int),
{
    let ghost ks = gen_keys(generators@);
    let mut i: usize = 0;
    while i < generators.len()
        invariant
            ks == gen_keys(generators@),
            ks.len() == generators@.len(),
            i <= generators.len(),
            key_index_from(ks, key@, 0) == key_index_from(ks, key@, i as int),
        decreases generators.len() - i,
    {
        assert(ks[i as int] == generators@[i as int].0@);
        if crate::text::str_eq(generators[i].0.as_str(), key) {
            return Some(i);
        }
        i = i + 1;
    }
    None
}

proof fn lemma_first_unresolved_append(ks: Seq<Seq<char>>, a: Seq<Seq<char>>, b: Seq<Seq<char>>)
    ensures
        first_unresolved(ks, a + b) == (match first_unresolved(ks, a) {
            Some(r) => Some(r),
            None => first_unresolved(ks, b),
        }),
    decreases a.len(),
{
    if a.len() == 0 {
        assert(a + b =~= b);
    } else {
        assert((a + b).drop_first() =~= a.drop_first() + b);
        lemma_first_unresolved_append(ks, a.drop_first(), b);
    }
}

/// The references of a generator's patterns, in order.
fn collect_generator_refs(pats: &Vec<WordPattern>) -> (refs: Vec<String>)
    ensures
        crate::data::strings_view(refs@) == generator_refs(pats@),
{
    let mut refs: Vec<String> = Vec::new();
    let mut classes: Vec<SoundClassKey> = Vec::new();
    let mut j: usize = 0;
    assert(crate::data::strings_view(refs@) =~= generator_refs(pats@.take(0)));
    while j < pats.len()
        invariant
            j <= pats.len(),
            crate::data::strings_view(refs@) == generator_refs(pats@.take(j as int)),
        decreases pats.len() - j,
    {
        collect_pattern_references(pats[j].elements.as_slice(), &mut classes, &mut refs);
        assert(pats@.take(j + 1).drop_last() =~= pats@.take(j as int));
        j = j + 1;
    }
    assert(pats@.take(j as int) =~= pats@);
    refs
}

/// Builds the reference graph of generators, or names the first reference
/// that resolves to no generator.
fn build_generator_graph(generators: &Vec<(String, WordGenerator)>) -> (r: Result<Vec<Vec<usize>>, ValidationError>)
    ensures
        r is Ok <==> first_unresolved_from(generators@, 0) is None,
        r matches Ok(g) ==> graph_view(g@) == generator_graph(generators@),
        r matches Err(e) ==> (e matches ValidationError::UnresolvedGrammarRef(t) && Some(t@) == first_unresolved_from(generators@, 0)),
{
    let ghost ks = gen_keys(generators@);
    let ghost gs = generators@;
    let mut g: Vec<Vec<usize>> = Vec::new();
    let mut i: usize = 0;
    while i < generators.len()
        invariant
            ks == gen_keys(generators@),
            gs == generators@,
            i <= generators.len(),
            g@.len() == i,
            first_unresolved_from(gs, 0) == first_unresolved_from(gs, i as int),
            forall|t: int| 0 <= t < i ==> (#[trigger] g@[t])@ == generator_graph(gs)[t],
        decreases generators.len() - i,
    {
        let refs = collect_generator_refs(&generators[i].1.patterns);
        let ghost rv = crate::data::strings_view(refs@);
        let mut deps: Vec<usize> = Vec::new();
        let mut q: usize = 0;
        assert(rv.take(0) =~= Seq::<Seq<char>>::empty());
        while q < refs.len()
            invariant
                ks == gen_keys(generators@),
                gs == generators@,
                i < generators.len(),
                rv == crate::data::strings_view(refs@),
                rv == generator_refs(gs[i as int].1.patterns@),
                q <= refs.len(),
                first_unresolved_from(gs, 0) == first_unresolved_from(gs, i as int),
                first_unresolved(ks, rv.take(q as int)) is None,
                deps@ == ref_deps(ks, rv.take(q as int)),
            decreases refs.len() - q,
        {
            assert(rv[q as int] == refs@[q as int]@);
            assert(rv.take(q + 1).drop_last() =~= rv.take(q as int));
            proof {
                lemma_first_unresolved_append(ks, rv.take(q as int), rv.skip(q as int));
                assert(rv.take(q as int) + rv.skip(q as int) =~= rv);
                lemma_first_unresolved_append(ks, rv.take(q as int), seq![rv[q as int]]);
                assert(rv.take(q as int) + seq![rv[q as int]] =~= rv.take(q + 1));
            }
            let key = match resolve_generator_key(refs[q].as_str(), generators) {
                Ok(k) => k,
                Err(e) => {
                    assert(first_unresolved(ks, rv) == Some(rv[q as int]));
                    assert(first_unresolved_from(gs, i as int) == Some(rv[q as int]));
                    return Err(e);
                },
            };
            assert(seq![rv[q as int]].drop_first() =~= Seq::<Seq<char>>::empty());
            assert(first_unresolved(ks, Seq::<Seq<char>>::empty()) is None);
            assert(spec_resolve_key(ks, seq![rv[q as int]][0]) is Some);
            assert(first_unresolved(ks, seq![rv[q as int]]) is None);
            proof {
                lemma_key_index_from(ks, key@, 0);
                let w = choose|w: int| 0 <= w < ks.len() && ks[w] == key@;
                assert(0 <= w < ks.len() && ks[w] == key@);
            }
            match key_index(generators, key.as_str()) {
                Some(p) => {
                    insert_sorted_exec(&mut deps, p);
                },
                None => {},
            }
            q = q + 1;
        }
        assert(rv.take(q as int) =~= rv);
        g.push(deps);
        i = i + 1;
    }
    assert(graph_view(g@) =~= generator_graph(gs));
    Ok(g)
}

/// Validates that no generator refers to itself, directly or through the
/// generators that its references resolve to; a reference that resolves to
/// no generator is reported first, else a generator on such a cycle.
pub fn validate_generator_cycles(generators: &Vec<(String, WordGenerator)>) -> (r: Result<(), ValidationError>)
    ensures
        first_unresolved_from(generators@, 0) matches Some(u) ==> (r matches Err(e) && e matches ValidationError::UnresolvedGrammarRef(t) && t@ == u),
        first_unresolved_from(generators@, 0) is None ==> (r is Ok <==> !has_cycle(generator_graph(generators@))),
        first_unresolved_from(generators@, 0) is None && r is Err ==> (r->Err_0 matches ValidationError::CircularPatternReferences(k) && exists|n: usize|
            n < generators@.len() && on_cycle(generator_graph(generators@), n) && k@ == gen_keys(generators@)[n as int]),
{
    let g = build_generator_graph(generators)?;
    proof {
        lemma_generator_graph_wf(generators@);
        assert(g@.len() == graph_view(g@).len());
    }
    match find_cycle(&g) {
        Some(n) => {
            let k = generators[n].0.clone();
            assert(gen_keys(generators@)[n as int] == generators@[n as int].0@);
            Err(ValidationError::CircularPatternReferences(k))
        },
        None => Ok(()),
    }
}

} // verus!
