//! Reachability in a changing graph: the nodes that can be reached from a
//! set of roots along a set of edges, computed round by round until a round
//! changes nothing.

use vstd::prelude::*;
use crate::changes::{
    contains, distinct, indicator, lemma_concat_contains, lemma_multiplicity_concat,
    lemma_multiplicity_of_later, lemma_multiplicity_of_one, lemma_multiplicity_settled,
    lemma_push_contains, lemma_retraction_keeps_present, multiplicity, present, Change, Datum,
};
use crate::lattice::Lattice;
use crate::trace::{beyond, compacted, lemma_import_fidelity};

verus! {

/// The node at `index` of `path` has an edge to the node after it.
pub open spec fn follows<N>(edges: Set<(N, N)>, path: Seq<N>, index: int) -> bool {
    edges.contains((path[index], path[index + 1]))
}

/// `path` is a walk along `edges`: it has a first node, and each node but
/// the last has an edge to the node after it.
pub open spec fn is_path<N>(edges: Set<(N, N)>, path: Seq<N>) -> bool {
    path.len() > 0 && forall|i: int| 0 <= i < path.len() - 1 ==> #[trigger] follows(edges, path, i)
}

/// `node` can be reached from `roots`: some walk along `edges` starts at a
/// root and ends at `node`.
pub open spec fn reachable<N>(roots: Set<N>, edges: Set<(N, N)>, node: N) -> bool {
    exists|path: Seq<N>| #[trigger]
        is_path(edges, path) && roots.contains(path[0]) && path.last() == node
}

/// The nodes that can be reached from `roots` along `edges`.
pub open spec fn reach<N>(roots: Set<N>, edges: Set<(N, N)>) -> Set<N> {
    Set::new(|node: N| reachable(roots, edges, node))
}

/// The nodes to which an edge leads from a node of `from`.
pub open spec fn successors<N>(from: Set<N>, edges: Set<(N, N)>) -> Set<N> {
    Set::new(|target: N| exists|source: N| from.contains(source) && edges.contains((source, target)))
}

/// `nodes` holds every root and every node to which an edge leads from one
/// of its own.
pub open spec fn closed<N>(nodes: Set<N>, roots: Set<N>, edges: Set<(N, N)>) -> bool {
    roots.subset_of(nodes) && successors(nodes, edges).subset_of(nodes)
}

/// Every root can be reached.
pub proof fn lemma_root_is_reachable<N>(roots: Set<N>, edges: Set<(N, N)>, root: N)
    requires
        roots.contains(root),
    ensures
        reachable(roots, edges, root),
{
    let path = seq![root];
    assert(is_path(edges, path) && roots.contains(path[0]) && path.last() == root);
}

/// A node to which an edge leads from a node that can be reached can be
/// reached.
pub proof fn lemma_successor_is_reachable<N>(
    roots: Set<N>,
    edges: Set<(N, N)>,
    source: N,
    target: N,
)
    requires
        reachable(roots, edges, source),
        edges.contains((source, target)),
    ensures
        reachable(roots, edges, target),
{
    let path = choose|path: Seq<N>| #[trigger]
        is_path(edges, path) && roots.contains(path[0]) && path.last() == source;
    let longer = path.push(target);
    assert forall|i: int| 0 <= i < longer.len() - 1 implies #[trigger] follows(
        edges,
        longer,
        i,
    ) by {
        if i < path.len() - 1 {
            assert(follows(edges, path, i));
        }
    }
    assert(is_path(edges, longer) && roots.contains(longer[0]) && longer.last() == target);
}

proof fn lemma_path_stays_inside<N>(
    nodes: Set<N>,
    roots: Set<N>,
    edges: Set<(N, N)>,
    path: Seq<N>,
    upto: int,
)
    requires
        closed(nodes, roots, edges),
        is_path(edges, path),
        roots.contains(path[0]),
        0 <= upto < path.len(),
    ensures
        nodes.contains(path[upto]),
    decreases upto,
{
    if upto > 0 {
        lemma_path_stays_inside(nodes, roots, edges, path, upto - 1);
        assert(follows(edges, path, upto - 1));
        assert(nodes.contains(path[upto - 1]) && edges.contains((path[upto - 1], path[upto])));
        assert(successors(nodes, edges).contains(path[upto]));
    }
}

/// The nodes that can be reached are the least closed set: they form a
/// closed set, and every closed set holds them all.
pub proof fn lemma_reach_is_least_closed<N>(roots: Set<N>, edges: Set<(N, N)>, nodes: Set<N>)
    ensures
        closed(reach(roots, edges), roots, edges),
        closed(nodes, roots, edges) ==> reach(roots, edges).subset_of(nodes),
{
    let all = reach(roots, edges);
    assert forall|root: N| roots.contains(root) implies all.contains(root) by {
        lemma_root_is_reachable(roots, edges, root);
    }
    assert forall|target: N| successors(all, edges).contains(target) implies all.contains(
        target,
    ) by {
        let source = choose|source: N| all.contains(source) && edges.contains((source, target));
        lemma_successor_is_reachable(roots, edges, source, target);
    }
    if closed(nodes, roots, edges) {
        assert forall|node: N| all.contains(node) implies nodes.contains(node) by {
            let path = choose|path: Seq<N>| #[trigger]
                is_path(edges, path) && roots.contains(path[0]) && path.last() == node;
            lemma_path_stays_inside(nodes, roots, edges, path, path.len() - 1);
        }
    }
}

proof fn lemma_predecessor_is_reachable<N>(roots: Set<N>, edges: Set<(N, N)>, path: Seq<N>)
    requires
        is_path(edges, path),
        roots.contains(path[0]),
        path.len() > 1,
    ensures
        reachable(roots, edges, path[path.len() - 2]),
{
    let shorter = path.drop_last();
    assert forall|i: int| 0 <= i < shorter.len() - 1 implies #[trigger] follows(
        edges,
        shorter,
        i,
    ) by {
        assert(follows(edges, path, i));
    }
    assert(is_path(edges, shorter) && roots.contains(shorter[0]) && shorter.last() == path[path.len()
        - 2]);
}

/// The nodes that can be reached are a fixed point of one round: they are
/// the roots together with the successors of the nodes that can be reached.
pub proof fn lemma_reach_is_fixed_point<N>(roots: Set<N>, edges: Set<(N, N)>)
    ensures
        reach(roots, edges) == roots.union(successors(reach(roots, edges), edges)),
{
    let all = reach(roots, edges);
    let once = roots.union(successors(all, edges));
    lemma_reach_is_least_closed(roots, edges, all);
    assert forall|node: N| all.contains(node) implies once.contains(node) by {
        let path = choose|path: Seq<N>| #[trigger]
            is_path(edges, path) && roots.contains(path[0]) && path.last() == node;
        if path.len() > 1 {
            lemma_predecessor_is_reachable(roots, edges, path);
            let source = path[path.len() - 2];
            assert(follows(edges, path, path.len() - 2));
            assert(all.contains(source) && edges.contains((source, node)));
            assert(successors(all, edges).contains(node));
        }
    }
    assert(all =~= once);
}

/// One round: the roots, and the targets of the edges whose source is in
/// `reached`, each node once.
pub fn round<N: Datum + Copy>(roots: &Vec<N>, edges: &Vec<(N, N)>, reached: &Vec<N>) -> (next:
    Vec<N>)
    ensures
        next@.no_duplicates(),
        next@.to_set() == roots@.to_set().union(successors(reached@.to_set(), edges@.to_set())),
        next@.len() <= roots@.len() + edges@.len(),
{
    let mut next: Vec<N> = Vec::new();
    let mut i: usize = 0;
    while i < roots.len()
        invariant
            i <= roots.len(),
            next@.no_duplicates(),
            next@.len() <= i,
            forall|x: N| next@.contains(x) <==> roots@.take(i as int).contains(x),
        decreases roots.len() - i,
    {
        let root = roots[i];
        let ghost before = next@;
        proof {
            assert(roots@.take(i + 1) =~= roots@.take(i as int).push(root));
        }
        if !contains(&next, &root) {
            next.push(root);
        }
        proof {
            assert forall|x: N| next@.contains(x) <==> roots@.take(i + 1).contains(x) by {
                lemma_push_contains(roots@.take(i as int), root, x);
                if next@.len() > before.len() {
                    lemma_push_contains(before, root, x);
                }
            }
        }
        i = i + 1;
    }
    proof {
        assert(roots@.take(i as int) =~= roots@);
    }
    let mut k: usize = 0;
    while k < edges.len()
        invariant
            k <= edges.len(),
            next@.no_duplicates(),
            next@.len() <= roots@.len() + k,
            forall|x: N|
                next@.contains(x) <==> roots@.contains(x) || exists|j: int|
                    0 <= j < k && reached@.contains((#[trigger] edges@[j]).0) && edges@[j].1 == x,
        decreases edges.len() - k,
    {
        let edge = edges[k];
        let ghost before = next@;
        if contains(reached, &edge.0) && !contains(&next, &edge.1) {
            next.push(edge.1);
        }
        proof {
            assert forall|x: N|
                next@.contains(x) <==> roots@.contains(x) || exists|j: int|
                    0 <= j < k + 1 && reached@.contains((#[trigger] edges@[j]).0) && edges@[j].1
                        == x by {
                if next@.len() > before.len() {
                    lemma_push_contains(before, edge.1, x);
                }
                if before.contains(x) && !roots@.contains(x) {
                    let j = choose|j: int|
                        0 <= j < k && reached@.contains((#[trigger] edges@[j]).0) && edges@[j].1
                            == x;
                    assert(0 <= j < k + 1 && reached@.contains(edges@[j].0) && edges@[j].1 == x);
                }
                if exists|j: int|
                    0 <= j < k + 1 && reached@.contains((#[trigger] edges@[j]).0) && edges@[j].1
                        == x {
                    let j = choose|j: int|
                        0 <= j < k + 1 && reached@.contains((#[trigger] edges@[j]).0)
                            && edges@[j].1 == x;
                    if j < k {
                        assert(before.contains(x));
                    }
                }
            }
        }
        k = k + 1;
    }
    proof {
        let target = roots@.to_set().union(successors(reached@.to_set(), edges@.to_set()));
        assert forall|x: N| next@.to_set().contains(x) == target.contains(x) by {
            if next@.contains(x) && !roots@.contains(x) {
                let j = choose|j: int|
                    0 <= j < k && reached@.contains((#[trigger] edges@[j]).0) && edges@[j].1 == x;
                assert(edges@.contains(edges@[j]));
                assert(reached@.to_set().contains(edges@[j].0) && edges@.to_set().contains(
                    (edges@[j].0, x),
                ));
            }
            if successors(reached@.to_set(), edges@.to_set()).contains(x) {
                let source = choose|source: N|
                    reached@.to_set().contains(source) && edges@.to_set().contains((source, x));
                let j = choose|j: int| 0 <= j < edges@.len() && edges@[j] == (source, x);
                assert(reached@.contains(edges@[j].0) && edges@[j].1 == x);
            }
        }
        assert(next@.to_set() =~= target);
    }
    next
}

proof fn lemma_same_size_same_set<N>(smaller: Seq<N>, larger: Seq<N>)
    requires
        smaller.no_duplicates(),
        larger.no_duplicates(),
        smaller.to_set().subset_of(larger.to_set()),
    ensures
        smaller.len() <= larger.len(),
        smaller.len() == larger.len() ==> smaller.to_set() == larger.to_set(),
{
    broadcast use vstd::seq_lib::seq_to_set_is_finite;

    smaller.unique_seq_to_set();
    larger.unique_seq_to_set();
    vstd::set_lib::lemma_len_subset(smaller.to_set(), larger.to_set());
    if smaller.len() == larger.len() {
        vstd::set_lib::lemma_subset_equality(smaller.to_set(), larger.to_set());
    }
}

/// The nodes that can be reached from `roots` along `edges`, each once:
/// rounds are run until one of them adds no node.
pub fn reachable_nodes<N: Datum + Copy>(roots: &Vec<N>, edges: &Vec<(N, N)>) -> (r: Vec<N>)
    ensures
        r@.no_duplicates(),
        r@.to_set() == reach(roots@.to_set(), edges@.to_set()),
{
    let ghost root_set = roots@.to_set();
    let ghost edge_set = edges@.to_set();
    let none: Vec<N> = Vec::new();
    let mut reached = round(roots, edges, &none);
    proof {
        lemma_reach_is_least_closed(root_set, edge_set, Set::empty());
        assert(successors(none@.to_set(), edge_set) =~= Set::<N>::empty());
        assert(reached@.to_set() =~= root_set);
    }
    loop
        invariant
            root_set == roots@.to_set(),
            edge_set == edges@.to_set(),
            reached@.no_duplicates(),
            reached@.len() <= roots@.len() + edges@.len(),
            root_set.subset_of(reached@.to_set()),
            reached@.to_set().subset_of(reach(root_set, edge_set)),
            reached@.to_set().subset_of(root_set.union(successors(reached@.to_set(), edge_set))),
        decreases roots@.len() + edges@.len() - reached@.len(),
    {
        let next = round(roots, edges, &reached);
        proof {
            lemma_reach_is_least_closed(root_set, edge_set, next@.to_set());
            lemma_same_size_same_set(reached@, next@);
            assert forall|x: N| next@.to_set().contains(x) implies root_set.union(
                successors(next@.to_set(), edge_set),
            ).contains(x) by {
                if successors(reached@.to_set(), edge_set).contains(x) {
                    let source = choose|source: N|
                        reached@.to_set().contains(source) && edge_set.contains((source, x));
                    assert(next@.to_set().contains(source) && edge_set.contains((source, x)));
                }
            }
            assert forall|x: N| next@.to_set().contains(x) implies reach(
                root_set,
                edge_set,
            ).contains(x) by {
                if successors(reached@.to_set(), edge_set).contains(x) {
                    let source = choose|source: N|
                        reached@.to_set().contains(source) && edge_set.contains((source, x));
                    lemma_successor_is_reachable(root_set, edge_set, source, x);
                }
            }
        }
        if next.len() == reached.len() {
            proof {
                assert(closed(reached@.to_set(), root_set, edge_set));
                lemma_reach_is_least_closed(root_set, edge_set, reached@.to_set());
                assert(reached@.to_set() =~= reach(root_set, edge_set));
            }
            return reached;
        }
        reached = next;
    }
}

/// The nodes that can be reached at time `at`, each once: those reachable
/// from the roots present at `at` along the edges present at `at`.
pub fn reachable_at<N: Datum + Copy, T: Lattice>(
    roots: &Vec<Change<N, T>>,
    edges: &Vec<Change<(N, N), T>>,
    at: &T,
) -> (r: Vec<N>)
    ensures
        r@.no_duplicates(),
        r@.to_set() == reach(present(roots@, *at), present(edges@, *at)),
{
    let root_nodes = distinct(roots, at);
    let edge_pairs = distinct(edges, at);
    reachable_nodes(&root_nodes, &edge_pairs)
}

/// Import fidelity for reachability: at any time in the future of the
/// floor, the nodes that can be reached through roots and edges that were
/// imported from compacted histories are those that can be reached through
/// the roots and edges that the histories were built from.
pub proof fn lemma_import_keeps_reach<N, T: Lattice>(
    roots: Seq<Change<N, T>>,
    edges: Seq<Change<(N, N), T>>,
    floor: Seq<T>,
    at: T,
)
    requires
        beyond(floor, at),
    ensures
        reach(present(compacted(roots, floor), at), present(compacted(edges, floor), at)) == reach(
            present(roots, at),
            present(edges, at),
        ),
{
    lemma_import_fidelity(roots, floor, at);
    lemma_import_fidelity(edges, floor, at);
}

/// Retraction symmetry for reachability: an edge that is inserted and
/// retracted again, wherever the two changes stand among the others, leaves
/// the nodes that can be reached as they were at every time that both
/// changes have reached.
pub proof fn lemma_retraction_keeps_reach<N, T: Lattice>(
    roots: Seq<Change<N, T>>,
    before: Seq<Change<(N, N), T>>,
    between: Seq<Change<(N, N), T>>,
    after: Seq<Change<(N, N), T>>,
    inserted: Change<(N, N), T>,
    retracted: Change<(N, N), T>,
    at: T,
)
    requires
        inserted.datum == retracted.datum,
        inserted.weight + retracted.weight == 0,
        inserted.time.le(at),
        retracted.time.le(at),
    ensures
        reach(
            present(roots, at),
            present(before + seq![inserted] + between + seq![retracted] + after, at),
        ) == reach(present(roots, at), present(before + between + after, at)),
{
    lemma_retraction_keeps_present(before, between, after, inserted, retracted, at);
}

/// `change` is one of the changes that turn the nodes of `before` into
/// those of `after` at `time`: it asserts a node that only `after` holds, or
/// retracts a node that only `before` holds.
pub open spec fn turns<N, T>(before: Set<N>, after: Set<N>, time: T, change: Change<N, T>) -> bool {
    change.time == time && ((change.weight == 1 && after.contains(change.datum)
        && !before.contains(change.datum)) || (change.weight == -1 && before.contains(
        change.datum,
    ) && !after.contains(change.datum)))
}

/// The changes that turn the nodes of `before` into those of `after` at
/// `time`, each once: a retraction for each node that is no longer there,
/// an assertion for each node that is new.
pub fn changes_between<N: Datum + Copy, T: Copy>(before: &Vec<N>, after: &Vec<N>, time: T) -> (r:
    Vec<Change<N, T>>)
    ensures
        r@.no_duplicates(),
        forall|change: Change<N, T>|
            r@.contains(change) <==> turns(before@.to_set(), after@.to_set(), time, change),
{
    let mut outs: Vec<Change<N, T>> = Vec::new();
    let mut lost: Vec<N> = Vec::new();
    let mut i: usize = 0;
    while i < before.len()
        invariant
            i <= before.len(),
            outs@.len() == lost@.len(),
            lost@.no_duplicates(),
            forall|m: int|
                0 <= m < outs@.len() ==> #[trigger] outs@[m] == (Change {
                    datum: lost@[m],
                    time,
                    weight: -1i64,
                }),
            forall|n: N|
                lost@.contains(n) <==> before@.take(i as int).contains(n) && !after@.contains(n),
        decreases before.len() - i,
    {
        let node = before[i];
        let ghost prior = lost@;
        proof {
            assert(before@.take(i + 1) =~= before@.take(i as int).push(node));
        }
        if !contains(after, &node) && !contains(&lost, &node) {
            lost.push(node);
            outs.push(Change { datum: node, time, weight: -1 });
        }
        proof {
            assert forall|n: N|
                lost@.contains(n) <==> before@.take(i + 1).contains(n) && !after@.contains(n) by {
                lemma_push_contains(before@.take(i as int), node, n);
                if lost@.len() > prior.len() {
                    lemma_push_contains(prior, node, n);
                }
            }
        }
        i = i + 1;
    }
    proof {
        assert(before@.take(i as int) =~= before@);
    }
    let ghost retractions = outs@;
    let mut won: Vec<N> = Vec::new();
    let mut k: usize = 0;
    while k < after.len()
        invariant
            k <= after.len(),
            outs@.len() == retractions.len() + won@.len(),
            won@.no_duplicates(),
            forall|m: int| 0 <= m < retractions.len() ==> #[trigger] outs@[m] == retractions[m],
            forall|m: int|
                0 <= m < won@.len() ==> #[trigger] outs@[retractions.len() + m] == (Change {
                    datum: won@[m],
                    time,
                    weight: 1i64,
                }),
            forall|n: N|
                won@.contains(n) <==> after@.take(k as int).contains(n) && !before@.contains(n),
        decreases after.len() - k,
    {
        let node = after[k];
        let ghost prior = won@;
        proof {
            assert(after@.take(k + 1) =~= after@.take(k as int).push(node));
        }
        if !contains(before, &node) && !contains(&won, &node) {
            won.push(node);
            outs.push(Change { datum: node, time, weight: 1 });
        }
        proof {
            assert forall|n: N|
                won@.contains(n) <==> after@.take(k + 1).contains(n) && !before@.contains(n) by {
                lemma_push_contains(after@.take(k as int), node, n);
                if won@.len() > prior.len() {
                    lemma_push_contains(prior, node, n);
                }
            }
        }
        k = k + 1;
    }
    proof {
        assert(after@.take(k as int) =~= after@);
        let split = retractions.len() as int;
        assert forall|m: int| 0 <= m < split implies #[trigger] outs@[m] == (Change {
            datum: lost@[m],
            time,
            weight: -1i64,
        }) by {
            assert(outs@[m] == retractions[m]);
        }
        assert forall|a: int, b: int|
            0 <= a < outs@.len() && 0 <= b < outs@.len() && a != b implies outs@[a] != outs@[b] by {
            if a < split && b < split {
                assert(lost@[a] != lost@[b]);
            } else if a >= split && b >= split {
                assert(outs@[split + (a - split)].datum == won@[a - split]);
                assert(outs@[split + (b - split)].datum == won@[b - split]);
                assert(won@[a - split] != won@[b - split]);
            } else if a < split {
                assert(outs@[split + (b - split)].weight == 1);
            } else {
                assert(outs@[split + (a - split)].weight == 1);
            }
        }
        assert forall|change: Change<N, T>|
            outs@.contains(change) <==> turns(
                before@.to_set(),
                after@.to_set(),
                time,
                change,
            ) by {
            if outs@.contains(change) {
                let m = choose|m: int| 0 <= m < outs@.len() && outs@[m] == change;
                if m < split {
                    assert(lost@.contains(lost@[m]));
                } else {
                    assert(outs@[split + (m - split)].datum == won@[m - split]);
                    assert(won@.contains(won@[m - split]));
                }
            }
            if turns(before@.to_set(), after@.to_set(), time, change) {
                if change.weight == 1 {
                    assert(won@.contains(change.datum));
                    let m = choose|m: int| 0 <= m < won@.len() && won@[m] == change.datum;
                    assert(outs@[split + m] == change);
                } else {
                    assert(lost@.contains(change.datum));
                    let m = choose|m: int| 0 <= m < lost@.len() && lost@[m] == change.datum;
                    assert(outs@[m] == change);
                }
            }
        }
    }
    outs
}

/// The nodes that can be reached at `epoch`.
pub open spec fn reach_at<N>(
    roots: Seq<Change<N, usize>>,
    edges: Seq<Change<(N, N), usize>>,
    epoch: usize,
) -> Set<N> {
    reach(present(roots, epoch), present(edges, epoch))
}

/// The nodes that can be reached just before `epoch`: none before the
/// first epoch.
pub open spec fn reach_before<N>(
    roots: Seq<Change<N, usize>>,
    edges: Seq<Change<(N, N), usize>>,
    epoch: usize,
) -> Set<N> {
    if epoch == 0 {
        Set::empty()
    } else {
        reach_at(roots, edges, (epoch - 1) as usize)
    }
}

/// Reachability as changes, over the epochs before `epochs`: at each epoch
/// an assertion for each node that can be reached from then on and could
/// not before, and a retraction for each node that no longer can. Each such
/// change is there once and nothing else is, and at every epoch the changes
/// so far add up to one for each node that can be reached then, and to
/// nothing for every other node.
pub fn reachability<N: Datum + Copy>(
    roots: &Vec<Change<N, usize>>,
    edges: &Vec<Change<(N, N), usize>>,
    epochs: usize,
) -> (r: Vec<Change<N, usize>>)
    ensures
        r@.no_duplicates(),
        forall|change: Change<N, usize>|
            r@.contains(change) <==> change.time < epochs && turns(
                reach_before(roots@, edges@, change.time),
                reach_at(roots@, edges@, change.time),
                change.time,
                change,
            ),
        forall|node: N, epoch: usize|
            epoch < epochs ==> #[trigger] multiplicity(r@, node, epoch) == indicator(
                reach_at(roots@, edges@, epoch).contains(node),
            ),
{
    let mut outs: Vec<Change<N, usize>> = Vec::new();
    let mut before: Vec<N> = Vec::new();
    let mut epoch: usize = 0;
    proof {
        assert(before@.to_set() =~= Set::<N>::empty());
    }
    while epoch < epochs
        invariant
            epoch <= epochs,
            before@.to_set() == reach_before(roots@, edges@, epoch),
            outs@.no_duplicates(),
            forall|change: Change<N, usize>|
                outs@.contains(change) <==> change.time < epoch && turns(
                    reach_before(roots@, edges@, change.time),
                    reach_at(roots@, edges@, change.time),
                    change.time,
                    change,
                ),
            forall|node: N, at: usize|
                at < epoch ==> #[trigger] multiplicity(outs@, node, at) == indicator(
                    reach_at(roots@, edges@, at).contains(node),
                ),
        decreases epochs - epoch,
    {
        let after = reachable_at(roots, edges, &epoch);
        let mut step = changes_between(&before, &after, epoch);
        let ghost prior = outs@;
        let ghost added = step@;
        outs.append(&mut step);
        proof {
            let was = reach_before(roots@, edges@, epoch);
            let is = reach_at(roots@, edges@, epoch);
            assert(outs@ =~= prior + added);
            assert forall|i: int| 0 <= i < prior.len() implies (#[trigger] prior[i]).time
                < epoch by {
                assert(prior.contains(prior[i]));
            }
            assert forall|i: int| 0 <= i < added.len() implies turns(
                was,
                is,
                epoch,
                #[trigger] added[i],
            ) by {
                assert(added.contains(added[i]));
            }
            assert forall|change: Change<N, usize>|
                outs@.contains(change) <==> change.time < epoch + 1 && turns(
                    reach_before(roots@, edges@, change.time),
                    reach_at(roots@, edges@, change.time),
                    change.time,
                    change,
                ) by {
                lemma_concat_contains(prior, added, change);
            }
            assert forall|a: int, b: int|
                0 <= a < outs@.len() && 0 <= b < outs@.len() && a != b implies outs@[a]
                != outs@[b] by {
                if a >= prior.len() && b >= prior.len() {
                    assert(added[a - prior.len()] != added[b - prior.len()]);
                } else if a >= prior.len() {
                    assert(added[a - prior.len()].time == epoch);
                } else if b >= prior.len() {
                    assert(added[b - prior.len()].time == epoch);
                }
            }
            assert forall|node: N, at: usize| at < epoch + 1 implies #[trigger] multiplicity(
                outs@,
                node,
                at,
            ) == indicator(reach_at(roots@, edges@, at).contains(node)) by {
                lemma_multiplicity_concat(prior, added, node, at);
                if at < epoch {
                    assert forall|i: int| 0 <= i < added.len() implies !(#[trigger] added[i]).time.le(
                        at,
                    ) by {}
                    lemma_multiplicity_of_later(added, node, at);
                } else {
                    if epoch == 0 {
                        assert(prior.len() == 0) by {
                            if prior.len() > 0 {
                                assert(prior[0].time < epoch);
                            }
                        }
                    } else {
                        let earlier = (epoch - 1) as usize;
                        assert forall|i: int| 0 <= i < prior.len() implies (
                        #[trigger] prior[i]).time.le(earlier) by {}
                        lemma_multiplicity_settled(prior, node, earlier, at);
                    }
                    assert(multiplicity(prior, node, at) == indicator(was.contains(node)));
                    let weight: i64 = if is.contains(node) {
                        1i64
                    } else {
                        -1i64
                    };
                    let only = Change { datum: node, time: epoch, weight };
                    assert forall|i: int|
                        0 <= i < added.len() && (#[trigger] added[i]).datum
                            == only.datum implies added[i] == only by {}
                    lemma_multiplicity_of_one(added, only, at);
                    assert(added.contains(only) <==> turns(was, is, epoch, only));
                }
            }
        }
        before = after;
        epoch = epoch + 1;
    }
    outs
}

} // verus!
