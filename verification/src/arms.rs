//! The arms of a galaxy: the paths of a spanning tree from its leaves towards
//! the center.
use vstd::prelude::*;

use crate::galaxy::{center_of, Galaxy};
use crate::ordered::{ascending, sorted_by_number, Ordered, SortedMap, SortedSet};
use crate::position::{footprint_of, in_turn, Position};
use crate::reach::{
    at_distance,
    lemma_distance_unique,
    lemma_prefix_contains,
    lemma_push_contains,
    reachable,
};
use crate::tree::{parent_in, Tree};

verus! {

/// `p` is a leaf of the tree: a cell that is the parent of no cell.
pub open spec fn tree_leaf(parents: Map<Position, Option<Position>>, p: Position) -> bool {
    parents.contains_key(p) && forall|q: Position|
        #[trigger] parents.contains_key(q) ==> parents[q] != Some(p)
}

/// The distance of `p` from the center of `cells`.
pub open spec fn depth_of(cells: Set<Position>, p: Position) -> nat {
    choose|n: nat| at_distance(cells, Set::empty(), footprint_of(center_of(cells)), p, n)
}

/// `a` is nearer to the center than `b`, or as near and before it in row-major
/// order.
pub open spec fn nearer(cells: Set<Position>, a: Position, b: Position) -> bool {
    depth_of(cells, a) < depth_of(cells, b) || (depth_of(cells, a) == depth_of(cells, b)
        && a.precedes(b))
}

/// `order` lists the leaves of the tree, each once, the nearest to the center
/// first.
pub open spec fn leaf_order(
    order: Seq<Position>,
    parents: Map<Position, Option<Position>>,
    cells: Set<Position>,
) -> bool {
    &&& forall|p: Position| order.contains(p) <==> tree_leaf(parents, p)
    &&& forall|i: int, j: int|
        0 <= i < j < order.len() ==> nearer(cells, #[trigger] order[i], #[trigger] order[j])
}

/// The cells that follow `from` on its way up the tree: its parent, the parent
/// of that, and so on, up to a root or to the first cell that has been visited
/// before.
pub open spec fn climb(
    parents: Map<Position, Option<Position>>,
    visited: Set<Position>,
    from: Position,
) -> Seq<Position>
    decreases parents.dom().difference(visited).len(),
    when parents.dom().finite()
{
    match parent_in(parents, from) {
        Some(q) => if visited.contains(q) {
            Seq::empty()
        } else if parents.contains_key(q) {
            proof {
                lemma_climb_decreases(parents, visited, q);
            }
            seq![q] + climb(parents, visited.insert(q), q)
        } else {
            seq![q]
        },
        None => Seq::empty(),
    }
}

/// The cells that have been visited after the way up from `from`.
pub open spec fn climbed(
    parents: Map<Position, Option<Position>>,
    visited: Set<Position>,
    from: Position,
) -> Set<Position>
    decreases parents.dom().difference(visited).len(),
    when parents.dom().finite()
{
    match parent_in(parents, from) {
        Some(q) => if visited.contains(q) {
            visited
        } else if parents.contains_key(q) {
            proof {
                lemma_climb_decreases(parents, visited, q);
            }
            climbed(parents, visited.insert(q), q)
        } else {
            visited.insert(q)
        },
        None => visited,
    }
}

/// Visiting one more cell of the tree leaves fewer to visit.
pub proof fn lemma_climb_decreases(
    parents: Map<Position, Option<Position>>,
    visited: Set<Position>,
    q: Position,
)
    requires
        parents.dom().finite(),
        parents.contains_key(q),
        !visited.contains(q),
    ensures
        parents.dom().difference(visited.insert(q)).len() < parents.dom().difference(
            visited,
        ).len(),
{
    let more = parents.dom().difference(visited);
    let less = parents.dom().difference(visited.insert(q));
    assert(more.contains(q));
    assert(less =~= more.remove(q));
}

/// The arms of the tree: for the leaves from the last to the first, each leaf
/// with its way up, which ends before the first cell that an earlier arm has
/// visited.
pub open spec fn arms_of(
    parents: Map<Position, Option<Position>>,
    leaves: Seq<Position>,
    visited: Set<Position>,
) -> Seq<Seq<Position>>
    decreases leaves.len(),
{
    if leaves.len() == 0 {
        Seq::empty()
    } else {
        let leaf = leaves.last();
        seq![seq![leaf] + climb(parents, visited, leaf)] + arms_of(
            parents,
            leaves.drop_last(),
            climbed(parents, visited, leaf),
        )
    }
}

/// The way from `leaf` up the tree, with `leaf` itself, up to a root or to the
/// first cell that is in `visited`; the cells on the way are added to `visited`.
pub fn climb_from(tree: &Tree, visited: &mut SortedSet<Position>, leaf: Position) -> (arm: Vec<
    Position,
>)
    requires
        tree.wf(),
        old(visited).wf(),
    ensures
        final(visited).wf(),
        arm@ == seq![leaf] + climb(tree@, old(visited)@, leaf),
        final(visited)@ == climbed(tree@, old(visited)@, leaf),
{
    let mut arm: Vec<Position> = Vec::new();
    arm.push(leaf);
    let mut position = leaf;
    let mut done: bool = false;
    let ghost parents = tree@;
    let ghost first = visited@;
    proof {
        assert(arm@ =~= seq![leaf]);
        tree.lemma_cells();
    }
    while !done
        invariant
            tree.wf(),
            parents == tree@,
            parents.dom().finite(),
            visited.wf(),
            !done ==> seq![leaf] + climb(parents, first, leaf) == arm@ + climb(
                parents,
                visited@,
                position,
            ),
            !done ==> climbed(parents, first, leaf) == climbed(parents, visited@, position),
            done ==> seq![leaf] + climb(parents, first, leaf) == arm@,
            done ==> climbed(parents, first, leaf) == visited@,
        decreases parents.dom().difference(visited@).len() + (if done { 0int } else { 1int }),
    {
        let ghost seen = visited@;
        let ghost before = arm@;
        match tree.get_parent(&position) {
            Some(parent) => {
                if visited.contains(&parent) {
                    assert(arm@ + Seq::<Position>::empty() =~= arm@);
                    done = true;
                } else {
                    visited.insert(parent);
                    arm.push(parent);
                    if tree.contains(&parent) {
                        proof {
                            lemma_climb_decreases(parents, seen, parent);
                            assert(before + (seq![parent] + climb(
                                parents,
                                seen.insert(parent),
                                parent,
                            )) =~= arm@ + climb(parents, visited@, parent));
                        }
                        position = parent;
                    } else {
                        assert(before + seq![parent] =~= arm@);
                        assert(parents.dom().difference(visited@) =~= parents.dom().difference(
                            seen,
                        ));
                        done = true;
                    }
                }
            },
            None => {
                assert(arm@ + Seq::<Position>::empty() =~= arm@);
                done = true;
            },
        }
    }
    arm
}

impl Galaxy {
    /// Every cell can be reached from the cells around the center.
    pub open spec fn anchored(&self) -> bool {
        forall|p: Position|
            #[trigger] self@.contains(p) ==> reachable(
                self@,
                Set::empty(),
                footprint_of(center_of(self@)),
                p,
            )
    }

    /// Whether every cell can be reached from the cells around the center.
    pub fn is_anchored(&self) -> (b: bool)
        requires
            self.wf(),
        ensures
            b == self.anchored(),
    {
        let distances = self.get_hamming_distances();
        let cells = self.get_positions();
        proof {
            self.lemma_elements();
        }
        let mut i: usize = 0;
        while i < cells.len()
            invariant
                i <= cells.len(),
                cells@.to_set() == self@,
                distances.wf(),
                forall|q: Position|
                    #![trigger distances@.contains_key(q)]
                    distances@.contains_key(q) <==> reachable(
                        self@,
                        Set::empty(),
                        footprint_of(center_of(self@)),
                        q,
                    ),
                forall|k: int| 0 <= k < i ==> distances@.contains_key(#[trigger] cells@[k]),
            decreases cells.len() - i,
        {
            if !distances.contains_key(&cells[i]) {
                proof {
                    assert(cells@.to_set().contains(cells@[i as int]));
                    assert(self@.contains(cells@[i as int]));
                }
                return false;
            }
            i += 1;
        }
        proof {
            assert forall|p: Position| #[trigger] self@.contains(p) implies reachable(
                self@,
                Set::empty(),
                footprint_of(center_of(self@)),
                p,
            ) by {
                assert(cells@.to_set().contains(p));
                let k = choose|k: int| 0 <= k < cells@.len() && cells@[k] == p;
                assert(distances@.contains_key(cells@[k]));
            }
        }
        true
    }

    /// `q` is a neighbour of `p` in `cells` that is one step nearer to the
    /// center.
    pub open spec fn one_nearer(&self, p: Position, q: Position) -> bool {
        p.adjacent_to(q) && self@.contains(q) && exists|n: nat|
            #[trigger] at_distance(self@, Set::empty(), footprint_of(center_of(self@)), q, n)
                && at_distance(
                self@,
                Set::empty(),
                footprint_of(center_of(self@)),
                p,
                (n + 1) as nat,
            )
    }

    /// For every cell, its neighbours that are one step nearer to the center, in
    /// the order up, down, left, right. The cells around the center have none.
    pub fn get_parent_candidates(&self) -> (candidates: SortedMap<Position, Vec<Position>>)
        requires
            self.wf(),
            self.anchored(),
        ensures
            candidates.wf(),
            candidates@.dom() == self@,
            forall|p: Position, q: Position|
                #![trigger candidates@[p]@.contains(q)]
                self@.contains(p) ==> (candidates@[p]@.contains(q) <==> self.one_nearer(p, q)),
            forall|p: Position| self@.contains(p) ==> in_turn(p, #[trigger] candidates@[p]@),
    {
        let distances = self.get_hamming_distances();
        let cells = self.get_positions();
        let mut candidates: SortedMap<Position, Vec<Position>> = SortedMap::new();
        let ghost seeds = footprint_of(center_of(self@));
        let ghost none = Set::<crate::border::Border>::empty();
        proof {
            self.lemma_elements();
        }
        let mut i: usize = 0;
        while i < cells.len()
            invariant
                self.wf(),
                self.anchored(),
                i <= cells.len(),
                cells@.to_set() == self@,
                seeds == footprint_of(center_of(self@)),
                none == Set::<crate::border::Border>::empty(),
                distances.wf(),
                forall|q: Position, n: nat|
                    (distances@.contains_key(q) && distances@[q] == n) <==> at_distance(
                        self@,
                        none,
                        seeds,
                        q,
                        n,
                    ),
                forall|q: Position| distances@.contains_key(q) <==> reachable(self@, none, seeds, q),
                candidates.wf(),
                forall|p: Position|
                    #![trigger candidates@.contains_key(p)]
                    candidates@.contains_key(p) <==> cells@.subrange(0, i as int).contains(p),
                forall|p: Position, q: Position|
                    #![trigger candidates@[p]@.contains(q)]
                    candidates@.contains_key(p) ==> (candidates@[p]@.contains(q)
                        <==> self.one_nearer(p, q)),
                forall|p: Position|
                    candidates@.contains_key(p) ==> in_turn(p, #[trigger] candidates@[p]@),
            decreases cells.len() - i,
        {
            let p = cells[i];
            proof {
                assert(cells@.to_set().contains(p));
                assert(self@.contains(p));
                assert(reachable(self@, none, seeds, p));
                lemma_prefix_contains(cells@, i as int);
            }
            let depth: usize = match distances.get(&p) {
                Some(d) => *d,
                None => 0,
            };
            let around = self.get_neighbours(&p);
            let mut nearer: Vec<Position> = Vec::new();
            let mut k: usize = 0;
            while k < around.len()
                invariant
                    self.wf(),
                    self.anchored(),
                    k <= around.len(),
                    self@.contains(p),
                    seeds == footprint_of(center_of(self@)),
                    none == Set::<crate::border::Border>::empty(),
                    distances.wf(),
                    distances@.contains_key(p) && distances@[p] == depth,
                    forall|q: Position, n: nat|
                        (distances@.contains_key(q) && distances@[q] == n) <==> at_distance(
                            self@,
                            none,
                            seeds,
                            q,
                            n,
                        ),
                    forall|q: Position|
                        distances@.contains_key(q) <==> reachable(self@, none, seeds, q),
                    forall|q: Position|
                        #![trigger around@.contains(q)]
                        around@.contains(q) <==> p.adjacent_to(q) && self@.contains(q),
                    forall|q: Position|
                        #![trigger nearer@.contains(q)]
                        nearer@.contains(q) <==> around@.subrange(0, k as int).contains(q)
                            && self.one_nearer(p, q),
                    in_turn(p, around@),
                    in_turn(p, nearer@),
                    forall|a: int, b: int|
                        0 <= a < nearer@.len() && k <= b < around@.len() ==> p.turn_of(
                            #[trigger] nearer@[a],
                        ) < p.turn_of(#[trigger] around@[b]),
                decreases around.len() - k,
            {
                let q = around[k];
                proof {
                    assert(around@.contains(q));
                    assert(self@.contains(q));
                    assert(reachable(self@, none, seeds, q));
                    lemma_prefix_contains(around@, k as int);
                    lemma_push_contains(nearer@, q);
                }
                let other: usize = match distances.get(&q) {
                    Some(d) => *d,
                    None => 0,
                };
                let one_less: bool = depth > 0 && other == depth - 1;
                proof {
                    assert(at_distance(self@, none, seeds, q, other as nat));
                    assert(at_distance(self@, none, seeds, p, depth as nat));
                    if one_less {
                        assert(at_distance(self@, none, seeds, p, (other + 1) as nat));
                    }
                    if self.one_nearer(p, q) {
                        let n = choose|n: nat|
                            #[trigger] at_distance(self@, none, seeds, q, n) && at_distance(
                                self@,
                                none,
                                seeds,
                                p,
                                (n + 1) as nat,
                            );
                        lemma_distance_unique(self@, none, seeds, q, n, other as nat);
                        lemma_distance_unique(self@, none, seeds, p, (n + 1) as nat, depth as nat);
                    }
                    assert(one_less == self.one_nearer(p, q));
                }
                if one_less {
                    nearer.push(q);
                }
                k += 1;
            }
            proof {
                assert(around@.subrange(0, around@.len() as int) =~= around@);
            }
            let ghost before = candidates@;
            let ghost found = nearer@;
            candidates.insert(p, nearer);
            proof {
                assert forall|x: Position, q: Position|
                    #![trigger candidates@[x]@.contains(q)]
                    candidates@.contains_key(x) implies (candidates@[x]@.contains(q)
                    <==> self.one_nearer(x, q)) by {
                    if x == p {
                        assert(candidates@[x]@ == found);
                    } else {
                        assert(before.contains_key(x));
                        assert(candidates@[x] == before[x]);
                    }
                }
            }
            i += 1;
        }
        proof {
            assert(cells@.subrange(0, cells@.len() as int) =~= cells@);
            assert(candidates@.dom() =~= self@) by {
                assert forall|p: Position| candidates@.dom().contains(p) <==> self@.contains(p) by {
                    assert(candidates@.contains_key(p) <==> cells@.contains(p));
                    assert(cells@.to_set().contains(p) <==> cells@.contains(p));
                }
            }
        }
        candidates
    }

    /// The leaves of the tree, in row-major order, each behind its distance from
    /// the center.
    fn measured_leaves(&self, tree: &Tree) -> (leaves: Vec<(usize, Position)>)
        requires
            self.wf(),
            tree.wf(),
            forall|p: Position|
                tree_leaf(tree@, p) ==> reachable(
                    self@,
                    Set::empty(),
                    footprint_of(center_of(self@)),
                    p,
                ),
        ensures
            forall|k: int|
                0 <= k < leaves@.len() ==> tree_leaf(tree@, (#[trigger] leaves@[k]).1)
                    && leaves@[k].0 == depth_of(self@, leaves@[k].1),
            forall|p: Position|
                tree_leaf(tree@, p) ==> exists|k: int|
                    0 <= k < leaves@.len() && (#[trigger] leaves@[k]).1 == p,
            forall|i: int, j: int|
                0 <= i < j < leaves@.len() ==> (#[trigger] leaves@[i]).1.precedes(
                    (#[trigger] leaves@[j]).1,
                ),
    {
        let entries = tree.iter();
        let distances = self.get_hamming_distances();
        let ghost seeds = footprint_of(center_of(self@));
        let ghost none = Set::<crate::border::Border>::empty();
        let ghost parents = tree@;
        let mut used: SortedSet<Position> = SortedSet::new();
        proof {
            tree.lemma_cells();
        }
        let mut i: usize = 0;
        while i < entries.len()
            invariant
                i <= entries.len(),
                tree.wf(),
                parents == tree@,
                entries@.len() == tree.cells().len(),
                forall|k: int|
                    0 <= k < entries@.len() ==> (#[trigger] entries@[k]).0 == tree.cells()[k]
                        && entries@[k].1 == parents[tree.cells()[k]],
                used.wf(),
                forall|p: Position|
                    #![trigger used@.contains(p)]
                    used@.contains(p) <==> exists|k: int|
                        0 <= k < i && (#[trigger] entries@[k]).1 == Some(p),
            decreases entries.len() - i,
        {
            let ghost before = used@;
            match entries[i].1 {
                Some(parent) => {
                    used.insert(parent);
                },
                None => {},
            }
            proof {
                assert forall|p: Position|
                    #![trigger used@.contains(p)]
                    used@.contains(p) <==> exists|k: int|
                        0 <= k < i + 1 && (#[trigger] entries@[k]).1 == Some(p) by {
                    if before.contains(p) {
                        let k = choose|k: int| 0 <= k < i && (#[trigger] entries@[k]).1 == Some(p);
                        assert(entries@[k].1 == Some(p));
                    }
                    if used@.contains(p) && !before.contains(p) {
                        assert(entries@[i as int].1 == Some(p));
                    }
                    if exists|k: int| 0 <= k < i + 1 && (#[trigger] entries@[k]).1 == Some(p) {
                        let k = choose|k: int|
                            0 <= k < i + 1 && (#[trigger] entries@[k]).1 == Some(p);
                        if k < i {
                            assert(before.contains(p));
                        }
                    }
                }
            }
            i += 1;
        }
        proof {
            assert forall|p: Position| parents.contains_key(p) implies (tree_leaf(parents, p)
                <==> !used@.contains(p)) by {
                if used@.contains(p) {
                    let k = choose|k: int|
                        0 <= k < entries@.len() && (#[trigger] entries@[k]).1 == Some(p);
                    assert(tree.cells().to_set().contains(tree.cells()[k]));
                    assert(parents.contains_key(entries@[k].0));
                    assert(parents[entries@[k].0] == Some(p));
                }
                if !tree_leaf(parents, p) {
                    let q = choose|q: Position|
                        #[trigger] parents.contains_key(q) && parents[q] == Some(p);
                    assert(tree.cells().to_set().contains(q));
                    let k = choose|k: int| 0 <= k < tree.cells().len() && tree.cells()[k] == q;
                    assert(entries@[k].1 == Some(p));
                }
            }
        }
        let mut leaves: Vec<(usize, Position)> = Vec::new();
        let mut j: usize = 0;
        while j < entries.len()
            invariant
                j <= entries.len(),
                self.wf(),
                tree.wf(),
                parents == tree@,
                seeds == footprint_of(center_of(self@)),
                none == Set::<crate::border::Border>::empty(),
                entries@.len() == tree.cells().len(),
                tree.cells().to_set() == parents.dom(),
                ascending(tree.cells()),
                forall|k: int|
                    0 <= k < entries@.len() ==> (#[trigger] entries@[k]).0 == tree.cells()[k],
                used.wf(),
                forall|p: Position|
                    parents.contains_key(p) ==> (tree_leaf(parents, p) <==> !used@.contains(p)),
                forall|p: Position| tree_leaf(parents, p) ==> reachable(self@, none, seeds, p),
                distances.wf(),
                forall|q: Position, n: nat|
                    (distances@.contains_key(q) && distances@[q] == n) <==> at_distance(
                        self@,
                        none,
                        seeds,
                        q,
                        n,
                    ),
                forall|q: Position| distances@.contains_key(q) <==> reachable(self@, none, seeds, q),
                forall|k: int|
                    0 <= k < leaves@.len() ==> tree_leaf(parents, (#[trigger] leaves@[k]).1)
                        && leaves@[k].0 == depth_of(self@, leaves@[k].1) && exists|m: int|
                        0 <= m < j && leaves@[k].1 == #[trigger] tree.cells()[m],
                forall|m: int|
                    0 <= m < j && tree_leaf(parents, #[trigger] tree.cells()[m]) ==> exists|k: int|
                        0 <= k < leaves@.len() && (#[trigger] leaves@[k]).1 == tree.cells()[m],
                forall|a: int, b: int|
                    0 <= a < b < leaves@.len() ==> (#[trigger] leaves@[a]).1.precedes(
                        (#[trigger] leaves@[b]).1,
                    ),
            decreases entries.len() - j,
        {
            let p = entries[j].0;
            let ghost before = leaves@;
            proof {
                assert(tree.cells().to_set().contains(tree.cells()[j as int]));
                assert(parents.contains_key(p));
            }
            if !used.contains(&p) {
                proof {
                    assert(tree_leaf(parents, p));
                    assert(reachable(self@, none, seeds, p));
                }
                let depth: usize = match distances.get(&p) {
                    Some(d) => *d,
                    None => 0,
                };
                proof {
                    assert(at_distance(self@, none, seeds, p, depth as nat));
                    lemma_distance_unique(self@, none, seeds, p, depth as nat, depth_of(self@, p));
                }
                leaves.push((depth, p));
                proof {
                    assert forall|a: int, b: int| 0 <= a < b < leaves@.len() implies (
                    #[trigger] leaves@[a]).1.precedes((#[trigger] leaves@[b]).1) by {
                        if b == before.len() {
                            let m = choose|m: int|
                                0 <= m < j && before[a].1 == #[trigger] tree.cells()[m];
                            assert(tree.cells()[m].before(tree.cells()[j as int]));
                        } else {
                            assert(before[a].1.precedes(before[b].1));
                        }
                    }
                    assert forall|k: int| 0 <= k < leaves@.len() implies tree_leaf(
                        parents,
                        (#[trigger] leaves@[k]).1,
                    ) && leaves@[k].0 == depth_of(self@, leaves@[k].1) && exists|m: int|
                        0 <= m < j + 1 && leaves@[k].1 == #[trigger] tree.cells()[m] by {
                        if k < before.len() {
                            let m = choose|m: int|
                                0 <= m < j && before[k].1 == #[trigger] tree.cells()[m];
                            assert(leaves@[k].1 == tree.cells()[m]);
                        } else {
                            assert(leaves@[k].1 == tree.cells()[j as int]);
                        }
                    }
                }
            }
            proof {
                assert forall|m: int|
                    0 <= m < j + 1 && tree_leaf(
                        parents,
                        #[trigger] tree.cells()[m],
                    ) implies exists|k: int|
                    0 <= k < leaves@.len() && (#[trigger] leaves@[k]).1 == tree.cells()[m] by {
                    if m < j {
                        let k = choose|k: int|
                            0 <= k < before.len() && (#[trigger] before[k]).1 == tree.cells()[m];
                        assert(leaves@[k].1 == tree.cells()[m]);
                    } else {
                        assert(leaves@[before.len() as int].1 == tree.cells()[m]);
                    }
                }
            }
            j += 1;
        }
        proof {
            assert forall|p: Position| tree_leaf(parents, p) implies exists|k: int|
                0 <= k < leaves@.len() && (#[trigger] leaves@[k]).1 == p by {
                assert(tree.cells().to_set().contains(p));
                let m = choose|m: int| 0 <= m < tree.cells().len() && tree.cells()[m] == p;
                assert(tree_leaf(parents, tree.cells()[m]));
            }
        }
        leaves
    }

    /// The arms of the galaxy along `spanning_tree`. The leaves of the tree are
    /// taken from the farthest from the center to the nearest, and among equally
    /// far ones from the last in row-major order to the first. Each leaf begins
    /// an arm, which goes up the tree from parent to parent and ends at a root,
    /// or before the first cell that an earlier arm holds.
    pub fn get_arms(&self, spanning_tree: &Tree) -> (arms: Vec<Vec<Position>>)
        requires
            self.wf(),
            spanning_tree.wf(),
            forall|p: Position|
                tree_leaf(spanning_tree@, p) ==> reachable(
                    self@,
                    Set::empty(),
                    footprint_of(center_of(self@)),
                    p,
                ),
        ensures
            exists|order: Seq<Position>|
                leaf_order(order, spanning_tree@, self@) && #[trigger] arms_of(
                    spanning_tree@,
                    order,
                    Set::empty(),
                ) == arms@.map_values(|arm: Vec<Position>| arm@),
    {
        let leaves = self.measured_leaves(spanning_tree);
        let ghost listed = leaves@;
        let sorted = sorted_by_number(leaves);
        let ghost order = sorted@.map_values(|leaf: (usize, Position)| leaf.1);
        let ghost parents = spanning_tree@;
        proof {
            sorted@.to_multiset_ensures();
            listed.to_multiset_ensures();
            assert forall|x: (usize, Position)|
                #![trigger sorted@.contains(x)]
                #![trigger listed.contains(x)]
                sorted@.contains(x) <==> listed.contains(x) by {
                assert(sorted@.to_multiset().count(x) == listed.to_multiset().count(x));
            }
            assert forall|p: Position| order.contains(p) <==> tree_leaf(parents, p) by {
                if order.contains(p) {
                    let k = choose|k: int| 0 <= k < order.len() && order[k] == p;
                    assert(sorted@.contains(sorted@[k]));
                    let m = choose|m: int| 0 <= m < listed.len() && listed[m] == sorted@[k];
                    assert(tree_leaf(parents, listed[m].1));
                }
                if tree_leaf(parents, p) {
                    let m = choose|m: int| 0 <= m < listed.len() && (#[trigger] listed[m]).1 == p;
                    assert(listed.contains(listed[m]));
                    let k = choose|k: int| 0 <= k < sorted@.len() && sorted@[k] == listed[m];
                    assert(order[k] == p);
                }
            }
            assert forall|i: int, j: int| 0 <= i < j < order.len() implies nearer(
                self@,
                #[trigger] order[i],
                #[trigger] order[j],
            ) by {
                assert(sorted@.contains(sorted@[i]) && sorted@.contains(sorted@[j]));
                let a = choose|a: int| 0 <= a < listed.len() && listed[a] == sorted@[i];
                let b = choose|b: int| 0 <= b < listed.len() && listed[b] == sorted@[j];
                assert(listed[a].0 == depth_of(self@, listed[a].1));
                assert(listed[b].0 == depth_of(self@, listed[b].1));
                assert(sorted@[i].0 <= sorted@[j].0);
                if sorted@[i].0 == sorted@[j].0 {
                    let (x, y) = choose|x: int, y: int|
                        #![trigger listed[x], listed[y]]
                        0 <= x < y < listed.len() && listed[x] == sorted@[i] && listed[y]
                            == sorted@[j];
                    assert(listed[x].1.precedes(listed[y].1));
                }
            }
            assert(leaf_order(order, parents, self@));
        }
        let mut arms: Vec<Vec<Position>> = Vec::new();
        let mut visited: SortedSet<Position> = SortedSet::new();
        let mut remaining: usize = sorted.len();
        let ghost whole = arms_of(parents, order, Set::empty());
        proof {
            assert(order.subrange(0, order.len() as int) =~= order);
            assert(arms@.map_values(|arm: Vec<Position>| arm@) =~= Seq::<Seq<Position>>::empty());
        }
        while remaining > 0
            invariant
                remaining <= sorted.len(),
                spanning_tree.wf(),
                parents == spanning_tree@,
                order == sorted@.map_values(|leaf: (usize, Position)| leaf.1),
                visited.wf(),
                whole == arms@.map_values(|arm: Vec<Position>| arm@) + arms_of(
                    parents,
                    order.subrange(0, remaining as int),
                    visited@,
                ),
            decreases remaining,
        {
            let leaf = sorted[remaining - 1].1;
            let ghost seen = visited@;
            let ghost before = arms@.map_values(|arm: Vec<Position>| arm@);
            let arm = climb_from(spanning_tree, &mut visited, leaf);
            let ghost path = arm@;
            arms.push(arm);
            proof {
                let rest = order.subrange(0, remaining as int);
                assert(rest.last() == leaf);
                assert(rest.drop_last() =~= order.subrange(0, remaining - 1));
                assert(arms@.map_values(|arm: Vec<Position>| arm@) =~= before.push(path));
                assert(before + (seq![path] + arms_of(parents, rest.drop_last(), visited@))
                    =~= before.push(path) + arms_of(parents, rest.drop_last(), visited@));
            }
            remaining -= 1;
        }
        proof {
            assert(order.subrange(0, 0) =~= Seq::<Position>::empty());
            assert(whole =~= arms@.map_values(|arm: Vec<Position>| arm@));
        }
        arms
    }
}

} // verus!
