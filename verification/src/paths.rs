use vstd::prelude::*;

use crate::graph::Graph;
use crate::graph::contains_str;
use crate::graph::has_string;

verus! {

/// The addresses of a path, each as its character sequence.
pub open spec fn strs_view(v: Seq<String>) -> Seq<Seq<char>> {
    Seq::new(v.len(), |i: int| v[i]@)
}

/// The address a stored path currently ends at.
pub open spec fn last_str(p: Seq<String>) -> Seq<char> {
    p[p.len() - 1]@
}

/// `p` is a walk of `g` beginning at `st`: nonempty, starting with `st`,
/// every consecutive pair joined by an edge.
pub open spec fn chain_from(g: Graph, p: Seq<Seq<char>>, st: Seq<char>) -> bool {
    &&& p.len() >= 1
    &&& p[0] == st
    &&& forall|i: int| 0 <= i < p.len() - 1 ==> g.edge(p[i], #[trigger] p[i + 1])
}

/// `p` is a result the search may return for `st`, `en` and `max_depth`:
/// a walk of `g` from `st` that ends at `en` and holds at most `max_depth`
/// nodes.
pub open spec fn is_found_path(
    g: Graph,
    p: Seq<Seq<char>>,
    st: Seq<char>,
    en: Seq<char>,
    max_depth: int,
) -> bool {
    &&& chain_from(g, p, st)
    &&& p[p.len() - 1] == en
    &&& p.len() <= max_depth
}

/// Copy a list of addresses.
fn clone_string_vec(v: &Vec<String>) -> (r: Vec<String>)
    ensures
        r@ == v@,
{
    let mut r: Vec<String> = Vec::new();
    let mut i: usize = 0;
    while i < v.len()
        invariant
            i <= v@.len(),
            r@.len() == i,
            forall|j: int| 0 <= j < i ==> r@[j] == v@[j],
        decreases v@.len() - i,
    {
        r.push(v[i].clone());
        i += 1;
    }
    proof {
        assert(r@ =~= v@);
    }
    r
}

/// Bounded-breadth-first search for a connecting path.
///
/// Starting from `start`, paths are explored in breadth-first order; an
/// address is marked visited the moment a path to it is enqueued, so at
/// most one path ever reaches any address, and at most one path is
/// returned. A branch longer than `max_depth` nodes is abandoned, and a
/// branch that reaches `end` is reported and not extended. When `start`
/// and `end` coincide, the single-node path is the sole result whenever
/// `max_depth` admits it. The search never fails: no connection within
/// the bound simply yields no paths.
pub fn find_paths(graph: &Graph, start: &str, end: &str, max_depth: usize) -> (r: Vec<Vec<String>>)
    requires
        graph.wf(),
    ensures
        forall|i: int|
            0 <= i < r@.len() ==> is_found_path(
                *graph,
                strs_view(#[trigger] r@[i]@),
                start@,
                end@,
                max_depth as int,
            ),
        r@.len() <= 1,
        start@ == end@ && max_depth >= 1 ==> r@.len() == 1 && r@[0]@.len() == 1 && r@[0]@[0]@
            == start@,
        start@ == end@ && max_depth == 0 ==> r@.len() == 0,
        start@ != end@ && graph.edge(start@, end@) && max_depth >= 2 ==> r@.len() == 1,
        start@ != end@ && !(graph.has_node(start@) && graph.has_node(end@)) ==> r@.len() == 0,
        (forall|p: Seq<Seq<char>>|
            !is_found_path(*graph, p, start@, end@, max_depth as int)) ==> r@.len() == 0,
{
    let ghost st = start@;
    let ghost en = end@;
    let start_s: String = start.to_owned();
    let end_s: String = end.to_owned();
    let mut first: Vec<String> = Vec::new();
    first.push(start_s);
    let mut queue: Vec<Vec<String>> = Vec::new();
    queue.push(first);
    let mut paths: Vec<Vec<String>> = Vec::new();
    let mut visited: Vec<String> = Vec::new();

    while queue.len() > 0
        invariant
            graph.wf(),
            en == end_s@,
            forall|qk: int|
                0 <= qk < queue@.len() ==> chain_from(*graph, strs_view(#[trigger] queue@[qk]@), st),
            forall|i: int|
                0 <= i < paths@.len() ==> is_found_path(
                    *graph,
                    strs_view(#[trigger] paths@[i]@),
                    st,
                    en,
                    max_depth as int,
                ),
            forall|i: int, j: int|
                0 <= i < visited@.len() && 0 <= j < visited@.len() && i != j ==> visited@[i]@
                    != visited@[j]@,
            forall|i: int| 0 <= i < visited@.len() ==> graph.has_node(#[trigger] visited@[i]@),
            visited@.len() <= graph.node_count(),
            st != en ==> {
                &&& forall|qk: int|
                    0 <= qk < queue@.len() && last_str(#[trigger] queue@[qk]@) == en
                        ==> contains_str(visited@, en)
                &&& forall|k1: int, k2: int|
                    0 <= k1 < k2 < queue@.len() ==> !(last_str(#[trigger] queue@[k1]@) == en
                        && last_str(#[trigger] queue@[k2]@) == en)
                &&& paths@.len() <= 1
                &&& paths@.len() >= 1 ==> contains_str(visited@, en) && forall|qk: int|
                    0 <= qk < queue@.len() ==> last_str(#[trigger] queue@[qk]@) != en
            },
            st == en ==> {
                ||| (queue@.len() == 1 && queue@[0]@.len() == 1 && queue@[0]@[0]@ == st
                    && paths@.len() == 0)
                ||| (queue@.len() == 0 && ((max_depth >= 1 && paths@.len() == 1 && paths@[0]@.len()
                    == 1 && paths@[0]@[0]@ == st) || (max_depth == 0 && paths@.len() == 0)))
            },
            st != en && graph.edge(st, en) && max_depth >= 2 ==> {
                ||| (queue@.len() == 1 && queue@[0]@.len() == 1 && queue@[0]@[0]@ == st
                    && visited@.len() == 0 && paths@.len() == 0)
                ||| (exists|qk: int|
                    0 <= qk < queue@.len() && last_str((#[trigger] queue@[qk])@) == en
                        && queue@[qk]@.len() == 2)
                ||| paths@.len() >= 1
            },
        decreases queue@.len() + 2 * (graph.node_count() - visited@.len()),
    {
        let ghost old_q = queue@;
        let ghost paths0 = paths@;
        let ghost v0 = visited@;
        let ghost was_pristine = old_q.len() == 1 && old_q[0]@.len() == 1 && old_q[0]@[0]@ == st
            && v0.len() == 0 && paths0.len() == 0;
        let path = queue.remove(0);
        proof {
            assert(queue@ =~= old_q.subrange(1, old_q.len() as int));
            assert(chain_from(*graph, strs_view(path@), st));
        }
        let plen = path.len();
        if plen > max_depth {
            // this branch is abandoned: too deep to report or to extend
            proof {
                if st != en && graph.edge(st, en) && max_depth >= 2 && paths0.len() == 0 {
                    if was_pristine {
                        assert(plen == 1);
                        assert(false);
                    } else {
                        let qk = choose|qk: int|
                            0 <= qk < old_q.len() && last_str((old_q[qk])@) == en
                                && old_q[qk]@.len() == 2;
                        assert(qk >= 1) by {
                            if qk == 0 {
                                assert(plen == 2);
                            }
                        }
                        assert(queue@[qk - 1] == old_q[qk]);
                        assert(last_str((queue@[qk - 1])@) == en && queue@[qk - 1]@.len() == 2);
                    }
                }
            }
        } else if path[plen - 1] == end_s {
            proof {
                assert(strs_view(path@)[plen - 1] == path@[plen - 1]@);
                assert(is_found_path(*graph, strs_view(path@), st, en, max_depth as int));
                if st != en {
                    assert(last_str(old_q[0]@) == en);
                    assert(contains_str(visited@, en));
                    if paths@.len() >= 1 {
                        assert(last_str(old_q[0]@) != en);
                    }
                }
            }
            paths.push(path);
        } else {
            proof {
                if st == en {
                    assert(path@[plen - 1]@ != en);
                    assert(old_q[0]@[0]@ == st);
                    assert(false);
                }
            }
            let node = &path[plen - 1];
            match graph.neighbors(node) {
                Some(row) => {
                    let ghost q1 = queue@;
                    let ghost v1 = visited@;
                    proof {
                        if was_pristine && graph.edge(st, en) {
                            assert(strs_view(path@)[0] == path@[0]@);
                            assert(node@ == st);
                            assert(contains_str(row@, en));
                            let m = choose|m: int| 0 <= m < row@.len() && row@[m]@ == en;
                            assert(0 <= m < row@.len() && (row@[m])@ == en);
                        }
                    }
                    let mut k: usize = 0;
                    while k < row.len()
                        invariant
                            graph.wf(),
                            st != en,
                            en == end_s@,
                            k <= row@.len(),
                            plen == path@.len(),
                            1 <= plen <= max_depth,
                            chain_from(*graph, strs_view(path@), st),
                            path@[plen - 1]@ == node@,
                            forall|m: int|
                                0 <= m < row@.len() ==> graph.edge(node@, #[trigger] row@[m]@),
                            forall|m: int|
                                0 <= m < row@.len() ==> graph.has_node(#[trigger] row@[m]@),
                            forall|qk: int|
                                0 <= qk < queue@.len() ==> chain_from(
                                    *graph,
                                    strs_view(#[trigger] queue@[qk]@),
                                    st,
                                ),
                            forall|i: int, j: int|
                                0 <= i < visited@.len() && 0 <= j < visited@.len() && i != j
                                    ==> visited@[i]@ != visited@[j]@,
                            forall|i: int|
                                0 <= i < visited@.len() ==> graph.has_node(
                                    #[trigger] visited@[i]@,
                                ),
                            visited@.len() <= graph.node_count(),
                            forall|qk: int|
                                0 <= qk < queue@.len() && last_str(#[trigger] queue@[qk]@) == en
                                    ==> contains_str(visited@, en),
                            forall|k1: int, k2: int|
                                0 <= k1 < k2 < queue@.len() ==> !(last_str(
                                    #[trigger] queue@[k1]@,
                                ) == en && last_str(#[trigger] queue@[k2]@) == en),
                            paths@.len() <= 1,
                            paths@.len() >= 1 ==> contains_str(visited@, en) && forall|qk: int|
                                0 <= qk < queue@.len() ==> last_str(#[trigger] queue@[qk]@) != en,
                            queue@.len() + 2 * (graph.node_count() - visited@.len()) <= q1.len()
                                + 2 * (graph.node_count() - v1.len()),
                            q1.len() <= queue@.len(),
                            forall|qk: int| 0 <= qk < q1.len() ==> #[trigger] queue@[qk] == q1[qk],
                            was_pristine ==> plen == 1 && q1.len() == 0 && v1.len() == 0,
                            was_pristine ==> forall|qk: int|
                                0 <= qk < queue@.len() ==> (#[trigger] queue@[qk])@.len() == 2,
                            was_pristine ==> forall|i: int|
                                0 <= i < visited@.len() ==> exists|qk: int|
                                    0 <= qk < queue@.len() && last_str((queue@[qk])@)
                                        == (#[trigger] visited@[i])@,
                            was_pristine && graph.edge(st, en) ==> ((exists|m: int|
                                k <= m < row@.len() && (#[trigger] row@[m])@ == en) || (exists|qk: int|
                                0 <= qk < queue@.len() && last_str((#[trigger] queue@[qk])@)
                                    == en)),
                        decreases row@.len() - k,
                    {
                        let next = &row[k];
                        if !has_string(&visited, next) {
                            let ghost qb = queue@;
                            let ghost vb = visited@;
                            let mut new_path = clone_string_vec(&path);
                            new_path.push(next.clone());
                            proof {
                                let npv = strs_view(new_path@);
                                let pv = strs_view(path@);
                                assert(npv =~= pv.push(next@));
                                assert forall|i: int| 0 <= i < npv.len() - 1 implies graph.edge(
                                    npv[i],
                                    #[trigger] npv[i + 1],
                                ) by {
                                    if i < plen - 1 {
                                        assert(graph.edge(pv[i], pv[i + 1]));
                                    } else {
                                        assert(npv[i] == node@ && npv[i + 1] == next@);
                                        assert(graph.edge(node@, row@[k as int]@));
                                    }
                                }
                                assert(chain_from(*graph, npv, st));
                            }
                            queue.push(new_path);
                            visited.push(next.clone());
                            proof {
                                graph.lemma_distinct_nodes_bound(visited@);
                                assert(visited@[vb.len() as int]@ == next@);
                                assert(last_str(queue@[qb.len() as int]@) == next@);
                                if contains_str(vb, en) {
                                    let i = choose|i: int| 0 <= i < vb.len() && vb[i]@ == en;
                                    assert(visited@[i]@ == en);
                                    assert(contains_str(visited@, en));
                                }
                                assert forall|qk: int|
                                    0 <= qk < queue@.len() && last_str(#[trigger] queue@[qk]@)
                                        == en implies contains_str(visited@, en) by {
                                    if qk < qb.len() {
                                        assert(last_str(qb[qk]@) == en);
                                        assert(contains_str(vb, en));
                                        assert(contains_str(visited@, en));
                                    } else {
                                        assert(visited@[vb.len() as int]@ == en);
                                        assert(contains_str(visited@, en));
                                    }
                                }
                                assert forall|k1: int, k2: int|
                                    0 <= k1 < k2 < queue@.len() implies !(last_str(
                                    #[trigger] queue@[k1]@,
                                ) == en && last_str(#[trigger] queue@[k2]@) == en) by {
                                    if k2 == qb.len() && last_str(queue@[k1]@) == en && last_str(
                                        queue@[k2]@,
                                    ) == en {
                                        assert(last_str(qb[k1]@) == en);
                                        assert(contains_str(vb, en));
                                        assert(next@ == en);
                                        assert(false);
                                    }
                                }
                                if paths@.len() >= 1 {
                                    assert(contains_str(vb, en));
                                    assert(contains_str(visited@, en));
                                    assert forall|qk: int| 0 <= qk < queue@.len() implies last_str(
                                        #[trigger] queue@[qk]@,
                                    ) != en by {
                                        if qk < qb.len() {
                                            assert(last_str(qb[qk]@) != en);
                                        } else {
                                            if next@ == en {
                                                assert(contains_str(vb, en));
                                                assert(false);
                                            }
                                        }
                                    }
                                }
                                if was_pristine {
                                    assert((queue@[qb.len() as int])@.len() == 2);
                                    assert forall|i: int| 0 <= i < visited@.len() implies exists|qk: int|
                                        0 <= qk < queue@.len() && last_str((queue@[qk])@)
                                            == (#[trigger] visited@[i])@ by {
                                        if i < vb.len() {
                                            let qk = choose|qk: int|
                                                0 <= qk < qb.len() && last_str((qb[qk])@)
                                                    == (vb[i])@;
                                            assert(queue@[qk] == qb[qk]);
                                            assert(last_str((queue@[qk])@) == (visited@[i])@);
                                        } else {
                                            assert((visited@[i])@ == next@);
                                            assert(last_str((queue@[qb.len() as int])@)
                                                == next@);
                                        }
                                    }
                                    if graph.edge(st, en) {
                                        if next@ == en {
                                            assert(last_str((queue@[qb.len() as int])@) == en);
                                        } else if exists|m: int|
                                            k <= m < row@.len() && (row@[m])@ == en {
                                            let m = choose|m: int|
                                                k <= m < row@.len() && (row@[m])@ == en;
                                            assert(m != k);
                                            assert(k + 1 <= m < row@.len() && (row@[m])@ == en);
                                        } else {
                                            let qk = choose|qk: int|
                                                0 <= qk < qb.len() && last_str((qb[qk])@) == en;
                                            assert(queue@[qk] == qb[qk]);
                                            assert(last_str((queue@[qk])@) == en);
                                        }
                                    }
                                }
                            }
                        } else {
                            proof {
                                if was_pristine && graph.edge(st, en) {
                                    if (row@[k as int])@ == en {
                                        assert(contains_str(visited@, en));
                                        let i = choose|i: int|
                                            0 <= i < visited@.len() && (visited@[i])@ == en;
                                        let qk = choose|qk: int|
                                            0 <= qk < queue@.len() && last_str((queue@[qk])@)
                                                == (visited@[i])@;
                                        assert(last_str((queue@[qk])@) == en);
                                    } else if exists|m: int|
                                        k <= m < row@.len() && (row@[m])@ == en {
                                        let m = choose|m: int|
                                            k <= m < row@.len() && (row@[m])@ == en;
                                        assert(m != k);
                                        assert(k + 1 <= m < row@.len() && (row@[m])@ == en);
                                    }
                                }
                            }
                        }
                        k += 1;
                    }
                    proof {
                        if st != en && graph.edge(st, en) && max_depth >= 2 {
                            if was_pristine {
                                assert(!(exists|m: int|
                                    k <= m < row@.len() && (row@[m])@ == en));
                            } else if paths0.len() == 0 && paths@.len() == 0 {
                                let qk = choose|qk: int|
                                    0 <= qk < old_q.len() && last_str((old_q[qk])@) == en
                                        && old_q[qk]@.len() == 2;
                                assert(qk >= 1) by {
                                    if qk == 0 {
                                        assert(path@[plen - 1]@ == en);
                                    }
                                }
                                assert(q1[qk - 1] == old_q[qk]);
                                assert(queue@[qk - 1] == q1[qk - 1]);
                                assert(last_str((queue@[qk - 1])@) == en && queue@[qk
                                    - 1]@.len() == 2);
                            }
                        }
                    }
                },
                None => {
                    proof {
                        if st != en && graph.edge(st, en) && max_depth >= 2 {
                            if was_pristine {
                                assert(strs_view(path@)[0] == path@[0]@);
                                assert(node@ == st);
                                assert(false);
                            } else if paths0.len() == 0 && paths@.len() == 0 {
                                let qk = choose|qk: int|
                                    0 <= qk < old_q.len() && last_str((old_q[qk])@) == en
                                        && old_q[qk]@.len() == 2;
                                assert(qk >= 1) by {
                                    if qk == 0 {
                                        assert(path@[plen - 1]@ == en);
                                    }
                                }
                                assert(queue@[qk - 1] == old_q[qk]);
                                assert(last_str((queue@[qk - 1])@) == en && queue@[qk
                                    - 1]@.len() == 2);
                            }
                        }
                    }
                },
            }
        }
    }
    proof {
        if paths@.len() > 0 {
            assert(is_found_path(*graph, strs_view(paths@[0]@), st, en, max_depth as int));
            let p = strs_view(paths@[0]@);
            if st != en {
                assert(p.len() >= 2) by {
                    if p.len() == 1 {
                        assert(p[0] == st && p[p.len() - 1] == en);
                    }
                }
                assert(graph.edge(p[p.len() - 2], p[p.len() - 2 + 1]));
                graph.lemma_edge_endpoints(p[p.len() - 2], en);
                assert(graph.edge(p[0int], p[0int + 1]));
                graph.lemma_edge_endpoints(st, p[1]);
                assert(graph.has_node(st) && graph.has_node(en));
            }
        }
    }
    paths
}

} // verus!
