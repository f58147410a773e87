//! Breadth-first distances over the cells of a grid.
use vstd::prelude::*;
use vstd::set_lib::lemma_len_subset;

use crate::border::Border;
use crate::ordered::SortedMap;
use crate::position::Position;

verus! {

/// One move is open: it leads into a neighbouring cell of `cells` and crosses none
/// of `walls`.
pub open spec fn open_move(
    cells: Set<Position>,
    walls: Set<Border>,
    from: Position,
    to: Position,
) -> bool {
    from.adjacent_to(to) && cells.contains(to) && !walls.contains(Border::between(from, to))
}

/// A finite set of cells, some of them parted by walls, that can say which moves
/// are open.
pub trait Terrain {
    /// The terrain is well formed.
    spec fn valid(&self) -> bool;

    /// The cells that a move can lead into.
    spec fn cells(&self) -> Set<Position>;

    /// The walls that no move crosses.
    spec fn walls(&self) -> Set<Border>;

    /// There are finitely many cells, none of them far out.
    proof fn lemma_terrain(&self)
        requires
            self.valid(),
        ensures
            self.cells().finite(),
            forall|p: Position| #[trigger] self.cells().contains(p) ==> p.in_range(),
    ;

    /// The cells that one open move from `from` leads into.
    fn steps_from(&self, from: &Position) -> (targets: Vec<Position>)
        requires
            self.valid(),
            from.in_range(),
        ensures
            forall|q: Position|
                targets@.contains(q) <==> open_move(self.cells(), self.walls(), *from, q),
    ;
}

/// The cells that at most `n` open moves lead to from one of `seeds`.
pub open spec fn within(cells: Set<Position>, walls: Set<Border>, seeds: Set<Position>, n: nat) -> Set<Position>
    decreases n,
{
    if n == 0 {
        seeds
    } else {
        let nearer = within(cells, walls, seeds, (n - 1) as nat);
        Set::new(
            |q: Position|
                nearer.contains(q) || exists|p: Position|
                    nearer.contains(p) && #[trigger] open_move(cells, walls, p, q),
        )
    }
}

/// `n` open moves lead from one of `seeds` to `q`, and no fewer do.
pub open spec fn at_distance(
    cells: Set<Position>,
    walls: Set<Border>,
    seeds: Set<Position>,
    q: Position,
    n: nat,
) -> bool {
    within(cells, walls, seeds, n).contains(q) && (n > 0 ==> !within(
        cells, walls, seeds,
        (n - 1) as nat,
    ).contains(q))
}

/// Some number of open moves leads from one of `seeds` to `q`.
pub open spec fn reachable(cells: Set<Position>, walls: Set<Border>, seeds: Set<Position>, q: Position) -> bool {
    exists|n: nat| within(cells, walls, seeds, n).contains(q)
}

/// More moves reach no less.
pub proof fn lemma_within_grows(cells: Set<Position>, walls: Set<Border>, seeds: Set<Position>, n: nat, m: nat)
    requires
        n <= m,
    ensures
        within(cells, walls, seeds, n).subset_of(within(cells, walls, seeds, m)),
    decreases m,
{
    if n < m {
        lemma_within_grows(cells, walls, seeds, n, (m - 1) as nat);
    }
}

/// Whatever is reached is a seed or a cell of the terrain.
pub proof fn lemma_within_bounded(cells: Set<Position>, walls: Set<Border>, seeds: Set<Position>, n: nat)
    ensures
        within(cells, walls, seeds, n).subset_of(seeds.union(cells)),
    decreases n,
{
    if n > 0 {
        lemma_within_bounded(cells, walls, seeds, (n - 1) as nat);
    }
}

/// Once a further move reaches nothing new, no number of moves does.
pub proof fn lemma_within_settles(cells: Set<Position>, walls: Set<Border>, seeds: Set<Position>, n: nat, m: nat)
    requires
        within(cells, walls, seeds, (n + 1) as nat).subset_of(within(cells, walls, seeds, n)),
        n <= m,
    ensures
        within(cells, walls, seeds, m).subset_of(within(cells, walls, seeds, n)),
    decreases m,
{
    if m > n {
        lemma_within_settles(cells, walls, seeds, n, (m - 1) as nat);
        let before = within(cells, walls, seeds, (m - 1) as nat);
        assert forall|q: Position| within(cells, walls, seeds, m).contains(q) implies within(
            cells, walls, seeds,
            n,
        ).contains(q) by {
            if !before.contains(q) {
                let p = choose|p: Position| before.contains(p) && #[trigger] open_move(cells, walls, p, q);
                assert(within(cells, walls, seeds, n).contains(p));
                assert(within(cells, walls, seeds, (n + 1) as nat).contains(q));
            }
        }
    }
}

/// A cell has at most one distance.
pub proof fn lemma_distance_unique(
    cells: Set<Position>,
    walls: Set<Border>,
    seeds: Set<Position>,
    q: Position,
    n: nat,
    m: nat,
)
    requires
        at_distance(cells, walls, seeds, q, n),
        at_distance(cells, walls, seeds, q, m),
    ensures
        n == m,
{
    if n < m {
        lemma_within_grows(cells, walls, seeds, n, (m - 1) as nat);
    } else if m < n {
        lemma_within_grows(cells, walls, seeds, m, (n - 1) as nat);
    }
}

/// Every reachable cell has a distance.
pub proof fn lemma_reachable_has_distance(
    cells: Set<Position>,
    walls: Set<Border>,
    seeds: Set<Position>,
    q: Position,
    n: nat,
) -> (d: nat)
    requires
        within(cells, walls, seeds, n).contains(q),
    ensures
        d <= n,
        at_distance(cells, walls, seeds, q, d),
    decreases n,
{
    if n > 0 && within(cells, walls, seeds, (n - 1) as nat).contains(q) {
        lemma_reachable_has_distance(cells, walls, seeds, q, (n - 1) as nat)
    } else {
        n
    }
}

/// More cells reach no less.
pub proof fn lemma_within_more_cells(
    fewer: Set<Position>,
    more: Set<Position>,
    walls: Set<Border>,
    seeds: Set<Position>,
    n: nat,
)
    requires
        fewer.subset_of(more),
    ensures
        within(fewer, walls, seeds, n).subset_of(within(more, walls, seeds, n)),
    decreases n,
{
    if n > 0 {
        lemma_within_more_cells(fewer, more, walls, seeds, (n - 1) as nat);
        let a = within(fewer, walls, seeds, (n - 1) as nat);
        assert forall|q: Position|
            within(fewer, walls, seeds, n).contains(q) implies within(more, walls, seeds, n).contains(
            q,
        ) by {
            if !a.contains(q) {
                let p = choose|p: Position| a.contains(p) && #[trigger] open_move(fewer, walls, p, q);
                assert(within(more, walls, seeds, (n - 1) as nat).contains(p));
                assert(open_move(more, walls, p, q));
            }
        }
    }
}

/// One open move reaches its target.
pub proof fn lemma_reachable_step(
    cells: Set<Position>,
    walls: Set<Border>,
    from: Position,
    to: Position,
)
    requires
        open_move(cells, walls, from, to),
    ensures
        reachable(cells, walls, set![from], to),
        reachable(cells, walls, set![from], from),
{
    assert(within(cells, walls, set![from], 0).contains(from));
    assert(within(cells, walls, set![from], 1).contains(to));
}

/// What is reached among fewer cells is reached among more.
pub proof fn lemma_reachable_more_cells(
    fewer: Set<Position>,
    more: Set<Position>,
    walls: Set<Border>,
    seeds: Set<Position>,
    to: Position,
)
    requires
        fewer.subset_of(more),
        reachable(fewer, walls, seeds, to),
    ensures
        reachable(more, walls, seeds, to),
{
    let n = choose|n: nat| within(fewer, walls, seeds, n).contains(to);
    lemma_within_more_cells(fewer, more, walls, seeds, n);
    assert(within(more, walls, seeds, n).contains(to));
}

/// What is reached in one terrain is reached in another that has all its cells
/// and none of its walls where the first has an open move.
pub proof fn lemma_within_transfer(
    cells: Set<Position>,
    walls: Set<Border>,
    wider: Set<Position>,
    others: Set<Border>,
    seeds: Set<Position>,
    n: nat,
)
    requires
        cells.subset_of(wider),
        forall|p: Position, q: Position|
            (seeds.contains(p) || cells.contains(p)) && #[trigger] open_move(cells, walls, p, q)
                ==> !others.contains(Border::between(p, q)),
    ensures
        within(cells, walls, seeds, n).subset_of(within(wider, others, seeds, n)),
    decreases n,
{
    if n > 0 {
        lemma_within_transfer(cells, walls, wider, others, seeds, (n - 1) as nat);
        lemma_within_bounded(cells, walls, seeds, (n - 1) as nat);
        let a = within(cells, walls, seeds, (n - 1) as nat);
        assert forall|q: Position|
            within(cells, walls, seeds, n).contains(q) implies within(wider, others, seeds, n).contains(
            q,
        ) by {
            if !a.contains(q) {
                let p = choose|p: Position| a.contains(p) && #[trigger] open_move(cells, walls, p, q);
                assert(within(wider, others, seeds, (n - 1) as nat).contains(p));
                assert(seeds.union(cells).contains(p));
                assert(open_move(wider, others, p, q));
            }
        }
    }
}

/// More seeds reach no less.
pub proof fn lemma_within_more_seeds(
    cells: Set<Position>,
    walls: Set<Border>,
    fewer: Set<Position>,
    more: Set<Position>,
    n: nat,
)
    requires
        fewer.subset_of(more),
    ensures
        within(cells, walls, fewer, n).subset_of(within(cells, walls, more, n)),
    decreases n,
{
    if n > 0 {
        lemma_within_more_seeds(cells, walls, fewer, more, (n - 1) as nat);
        let a = within(cells, walls, fewer, (n - 1) as nat);
        assert forall|q: Position|
            within(cells, walls, fewer, n).contains(q) implies within(cells, walls, more, n).contains(
            q,
        ) by {
            if !a.contains(q) {
                let p = choose|p: Position| a.contains(p) && #[trigger] open_move(cells, walls, p, q);
                assert(within(cells, walls, more, (n - 1) as nat).contains(p));
            }
        }
    }
}

/// What `m` moves reach from a cell that `n` moves reach, `n + m` moves reach.
pub proof fn lemma_within_chain(
    cells: Set<Position>,
    walls: Set<Border>,
    seeds: Set<Position>,
    via: Position,
    n: nat,
    m: nat,
)
    requires
        within(cells, walls, seeds, n).contains(via),
    ensures
        within(cells, walls, set![via], m).subset_of(within(cells, walls, seeds, n + m)),
    decreases m,
{
    if m > 0 {
        lemma_within_chain(cells, walls, seeds, via, n, (m - 1) as nat);
        let a = within(cells, walls, set![via], (m - 1) as nat);
        let b = within(cells, walls, seeds, (n + m - 1) as nat);
        assert forall|q: Position|
            within(cells, walls, set![via], m).contains(q) implies within(
            cells,
            walls,
            seeds,
            n + m,
        ).contains(q) by {
            if !a.contains(q) {
                let p = choose|p: Position| a.contains(p) && #[trigger] open_move(cells, walls, p, q);
                assert(b.contains(p));
            }
        }
    }
}

/// From a cell of `cells`, moves can be taken back: what is reached from it
/// reaches it.
pub proof fn lemma_within_back(
    cells: Set<Position>,
    walls: Set<Border>,
    from: Position,
    to: Position,
    n: nat,
)
    requires
        cells.contains(from),
        within(cells, walls, set![from], n).contains(to),
    ensures
        within(cells, walls, set![to], n).contains(from),
    decreases n,
{
    if n > 0 {
        let nearer = within(cells, walls, set![from], (n - 1) as nat);
        if nearer.contains(to) {
            lemma_within_back(cells, walls, from, to, (n - 1) as nat);
            lemma_within_grows(cells, walls, set![to], (n - 1) as nat, n);
        } else {
            let p = choose|p: Position| nearer.contains(p) && #[trigger] open_move(cells, walls, p, to);
            lemma_within_bounded(cells, walls, set![from], (n - 1) as nat);
            assert(cells.contains(p));
            lemma_within_back(cells, walls, from, p, (n - 1) as nat);
            assert(Border::between(p, to) == Border::between(to, p));
            assert(open_move(cells, walls, to, p));
            assert(within(cells, walls, set![to], 0).contains(to));
            assert(within(cells, walls, set![to], 1).contains(p));
            lemma_within_chain(cells, walls, set![to], p, 1, (n - 1) as nat);
        }
    }
}

/// Reaching is transitive.
pub proof fn lemma_reachable_chain(
    cells: Set<Position>,
    walls: Set<Border>,
    seeds: Set<Position>,
    via: Position,
    to: Position,
)
    requires
        reachable(cells, walls, seeds, via),
        reachable(cells, walls, set![via], to),
    ensures
        reachable(cells, walls, seeds, to),
{
    let n = choose|n: nat| within(cells, walls, seeds, n).contains(via);
    let m = choose|m: nat| within(cells, walls, set![via], m).contains(to);
    lemma_within_chain(cells, walls, seeds, via, n, m);
    assert(within(cells, walls, seeds, n + m).contains(to));
}

/// Between cells of `cells`, reaching is symmetric.
pub proof fn lemma_reachable_back(
    cells: Set<Position>,
    walls: Set<Border>,
    from: Position,
    to: Position,
)
    requires
        cells.contains(from),
        reachable(cells, walls, set![from], to),
    ensures
        reachable(cells, walls, set![to], from),
{
    let n = choose|n: nat| within(cells, walls, set![from], n).contains(to);
    lemma_within_back(cells, walls, from, to, n);
}

/// One of the first `count` cells of `sources` has an open move into `q`.
pub open spec fn stepped(
    cells: Set<Position>,
    walls: Set<Border>,
    sources: Seq<Position>,
    count: int,
    q: Position,
) -> bool
    decreases count,
{
    count > 0 && (open_move(cells, walls, sources[count - 1], q) || stepped(cells, walls, sources, count - 1, q))
}

proof fn lemma_stepped_witness(
    cells: Set<Position>,
    walls: Set<Border>,
    sources: Seq<Position>,
    count: int,
    q: Position,
) -> (j: int)
    requires
        stepped(cells, walls, sources, count, q),
    ensures
        0 <= j < count,
        open_move(cells, walls, sources[j], q),
    decreases count,
{
    if open_move(cells, walls, sources[count - 1], q) {
        count - 1
    } else {
        lemma_stepped_witness(cells, walls, sources, count - 1, q)
    }
}

proof fn lemma_stepped_from(
    cells: Set<Position>,
    walls: Set<Border>,
    sources: Seq<Position>,
    count: int,
    j: int,
    q: Position,
)
    requires
        0 <= j < count,
        open_move(cells, walls, sources[j], q),
    ensures
        stepped(cells, walls, sources, count, q),
    decreases count,
{
    if j < count - 1 {
        lemma_stepped_from(cells, walls, sources, count - 1, j, q);
    }
}

/// What a sequence holds after one more element is put at its end.
pub proof fn lemma_push_contains<A>(s: Seq<A>, value: A)
    ensures
        forall|x: A| #[trigger] s.push(value).contains(x) <==> (s.contains(x) || x == value),
{
    let t = s.push(value);
    assert forall|x: A| #[trigger] t.contains(x) <==> (s.contains(x) || x == value) by {
        if t.contains(x) {
            let j = choose|j: int| 0 <= j < t.len() && t[j] == x;
            if j < s.len() {
                assert(s[j] == x);
            }
        }
        if s.contains(x) {
            let j = choose|j: int| 0 <= j < s.len() && s[j] == x;
            assert(t[j] == x);
        }
        if x == value {
            assert(t[s.len() as int] == x);
        }
    }
}

/// What the first `n + 1` elements of a sequence hold beyond the first `n`.
pub proof fn lemma_prefix_contains<A>(s: Seq<A>, n: int)
    requires
        0 <= n < s.len(),
    ensures
        forall|x: A|
            #[trigger] s.subrange(0, n + 1).contains(x) <==> (s.subrange(0, n).contains(x) || x
                == s[n]),
{
    assert(s.subrange(0, n + 1) =~= s.subrange(0, n).push(s[n]));
    lemma_push_contains(s.subrange(0, n), s[n]);
}

/// Breadth-first search from `seeds`: maps every cell that open moves lead to
/// from a seed to the least number of moves that does.
pub fn distances<T: Terrain>(terrain: &T, seeds: &Vec<Position>) -> (map: SortedMap<
    Position,
    usize,
>)
    requires
        terrain.valid(),
        forall|i: int| 0 <= i < seeds.len() ==> (#[trigger] seeds[i]).in_range(),
    ensures
        map.wf(),
        forall|q: Position, n: nat|
            (map@.contains_key(q) && map@[q] == n) <==> at_distance(terrain.cells(), terrain.walls(), seeds@.to_set(),
                q,
                n,
            ),
        forall|q: Position| map@.contains_key(q) <==> reachable(terrain.cells(), terrain.walls(), seeds@.to_set(), q),
{
    let ghost start = seeds@.to_set();
    let ghost field = terrain.cells();
    let ghost fences = terrain.walls();
    let ghost all = start.union(field);
    proof {
        terrain.lemma_terrain();
        vstd::seq_lib::seq_to_set_is_finite(seeds@);
    }
    let mut map: SortedMap<Position, usize> = SortedMap::new();
    let mut frontier: Vec<Position> = Vec::new();
    let mut i: usize = 0;
    while i < seeds.len()
        invariant
            i <= seeds.len(),
            map.wf(),
            forall|i: int| 0 <= i < seeds.len() ==> (#[trigger] seeds[i]).in_range(),
            forall|q: Position|
                #![trigger map@.contains_key(q)]
                map@.contains_key(q) <==> seeds@.subrange(0, i as int).contains(q),
            forall|q: Position| #[trigger] map@.contains_key(q) ==> map@[q] == 0 && q.in_range(),
            forall|q: Position| #[trigger] frontier@.contains(q) <==> map@.contains_key(q),
            frontier@.len() == map.key_seq().len(),
        decreases seeds.len() - i,
    {
        let seed = seeds[i];
        proof {
            lemma_prefix_contains(seeds@, i as int);
        }
        if !map.contains_key(&seed) {
            proof {
                lemma_push_contains(frontier@, seed);
            }
            map.insert(seed, 0);
            frontier.push(seed);
        }
        i += 1;
    }
    let mut depth: usize = 0;
    proof {
        assert(seeds@.subrange(0, seeds.len() as int) =~= seeds@);
        assert forall|q: Position|
            #![trigger map@.contains_key(q)]
            map@.contains_key(q) <==> within(field, fences, start, 0).contains(q) by {
            assert(start.contains(q) <==> seeds@.contains(q));
        }
        assert forall|q: Position| #[trigger]
            frontier@.contains(q) <==> at_distance(field, fences, start, q, 0) by {
            assert(start.contains(q) <==> seeds@.contains(q));
        }
        lemma_within_bounded(field, fences, start, 0);
        map.lemma_size();
        assert(map@.dom().subset_of(all)) by {
            assert forall|q: Position| map@.dom().contains(q) implies all.contains(q) by {
                assert(map@.contains_key(q));
            }
        }
        lemma_len_subset(map@.dom(), all);
    }
    while frontier.len() > 0
        invariant
            terrain.valid(),
            start == seeds@.to_set(),
            field == terrain.cells(),
            fences == terrain.walls(),
            all == start.union(field),
            all.finite(),
            map.wf(),
            map.key_seq().len() <= all.len(),
            forall|q: Position| #[trigger] map@.contains_key(q) ==> q.in_range(),
            forall|q: Position|
                #![trigger map@.contains_key(q)]
                #![trigger within(field, fences, start, depth as nat).contains(q)]
                map@.contains_key(q) <==> within(field, fences, start, depth as nat).contains(q),
            forall|q: Position|
                #[trigger] map@.contains_key(q) ==> at_distance(field, fences, start, q, map@[q] as nat),
            forall|q: Position|
                #[trigger] frontier@.contains(q) <==> at_distance(field, fences, start, q, depth as nat),
            depth + frontier@.len() <= map.key_seq().len(),
        decreases all.len() - map.key_seq().len(), frontier@.len(),
    {
        let ghost reached = within(field, fences, start, depth as nat);
        let ghost old_map = map;
        let size: usize = map.len();
        let mut next: Vec<Position> = Vec::new();
        let mut k: usize = 0;
        while k < frontier.len()
            invariant
                terrain.valid(),
                field == terrain.cells(),
                fences == terrain.walls(),
                k <= frontier.len(),
                map.wf(),
                reached == within(field, fences, start, depth as nat),
                depth + frontier@.len() <= size,
                size == old_map.key_seq().len(),
                size + next@.len() == map.key_seq().len(),
                forall|q: Position|
                    #[trigger] frontier@.contains(q) ==> reached.contains(q) && q.in_range(),
                forall|q: Position| #[trigger] map@.contains_key(q) ==> q.in_range(),
                forall|q: Position|
                    #![trigger map@.contains_key(q)]
                    map@.contains_key(q) <==> reached.contains(q) || next@.contains(q),
                forall|q: Position|
                    #[trigger] map@.contains_key(q) ==> map@[q] == (if reached.contains(q) {
                        old_map@[q]
                    } else {
                        (depth + 1) as usize
                    }),
                forall|q: Position|
                    #![trigger next@.contains(q)]
                    next@.contains(q) <==> !reached.contains(q) && stepped(field, fences, frontier@,
                        k as int,
                        q,
                    ),
            decreases frontier.len() - k,
        {
            let from = frontier[k];
            assert(frontier@.contains(from));
            let targets = terrain.steps_from(&from);
            let mut t: usize = 0;
            while t < targets.len()
                invariant
                    terrain.valid(),
                    field == terrain.cells(),
                    fences == terrain.walls(),
                    k < frontier.len(),
                    from == frontier@[k as int],
                    t <= targets.len(),
                    map.wf(),
                    reached == within(field, fences, start, depth as nat),
                    depth + frontier@.len() <= size,
                    size == old_map.key_seq().len(),
                    size + next@.len() == map.key_seq().len(),
                    forall|q: Position| #[trigger] targets@.contains(q) <==> open_move(field, fences, from, q),
                    forall|q: Position| #[trigger] map@.contains_key(q) ==> q.in_range(),
                    forall|q: Position|
                        #![trigger map@.contains_key(q)]
                        map@.contains_key(q) <==> reached.contains(q) || next@.contains(q),
                    forall|q: Position|
                        #[trigger] map@.contains_key(q) ==> map@[q] == (if reached.contains(q) {
                            old_map@[q]
                        } else {
                            (depth + 1) as usize
                        }),
                    forall|q: Position|
                        #![trigger next@.contains(q)]
                        next@.contains(q) <==> !reached.contains(q) && (stepped(field, fences, frontier@,
                            k as int,
                            q,
                        ) || targets@.subrange(0, t as int).contains(q)),
                decreases targets.len() - t,
            {
                let target = targets[t];
                proof {
                    assert(targets@.contains(target));
                    terrain.lemma_terrain();
                    assert(field.contains(target));
                    lemma_prefix_contains(targets@, t as int);
                    lemma_push_contains(next@, target);
                }
                if !map.contains_key(&target) {
                    let current: usize = map.len();
                    map.insert(target, depth + 1);
                    next.push(target);
                }
                t += 1;
            }
            proof {
                assert(targets@.subrange(0, t as int) =~= targets@);
                assert forall|q: Position|
                    #![trigger next@.contains(q)]
                    next@.contains(q) <==> !reached.contains(q) && stepped(field, fences, frontier@,
                        k + 1,
                        q,
                    ) by {
                    assert(targets@.contains(q) <==> open_move(field, fences, from, q));
                }
            }
            k += 1;
        }
        proof {
            let further = within(field, fences, start, (depth + 1) as nat);
            lemma_within_grows(field, fences, start, depth as nat, (depth + 1) as nat);
            assert forall|q: Position|
                #![trigger map@.contains_key(q)]
                map@.contains_key(q) <==> further.contains(q) by {
                if next@.contains(q) {
                    let j = lemma_stepped_witness(field, fences, frontier@, frontier@.len() as int, q);
                    assert(frontier@.contains(frontier@[j]));
                    assert(reached.contains(frontier@[j]));
                    assert(open_move(field, fences, frontier@[j], q));
                }
                if further.contains(q) && !reached.contains(q) {
                    let p = choose|p: Position| reached.contains(p) && #[trigger] open_move(field, fences, p, q);
                    if depth > 0 && within(field, fences, start, (depth - 1) as nat).contains(p) {
                        assert(reached.contains(q));
                    }
                    assert(at_distance(field, fences, start, p, depth as nat));
                    assert(frontier@.contains(p));
                    let j = choose|j: int| 0 <= j < frontier@.len() && frontier@[j] == p;
                    lemma_stepped_from(field, fences, frontier@, frontier@.len() as int, j, q);
                    assert(next@.contains(q));
                }
                if reached.contains(q) {
                    assert(further.contains(q));
                }
            }
            assert forall|q: Position| #[trigger] map@.contains_key(q) implies at_distance(field, fences, start,
                q,
                map@[q] as nat,
            ) by {
                if reached.contains(q) {
                    assert(old_map@.contains_key(q));
                } else {
                    assert(further.contains(q));
                }
            }
            assert forall|q: Position| #[trigger]
                next@.contains(q) <==> at_distance(field, fences, start, q, (depth + 1) as nat) by {
                assert(map@.contains_key(q) <==> further.contains(q));
            }
            lemma_within_bounded(field, fences, start, (depth + 1) as nat);
            map.lemma_size();
            assert(map@.dom().subset_of(all)) by {
                assert forall|q: Position| map@.dom().contains(q) implies all.contains(q) by {
                    assert(map@.contains_key(q));
                    assert(further.contains(q));
                }
            }
            lemma_len_subset(map@.dom(), all);
        }
        depth = depth + 1;
        frontier = next;
    }
    proof {
        let reached = within(field, fences, start, depth as nat);
        assert(within(field, fences, start, (depth + 1) as nat).subset_of(reached)) by {
            assert forall|q: Position|
                within(field, fences, start, (depth + 1) as nat).contains(q) implies reached.contains(
                q,
            ) by {
                if !reached.contains(q) {
                    let p = choose|p: Position| reached.contains(p) && #[trigger] open_move(field, fences, p, q);
                    let d = lemma_reachable_has_distance(field, fences, start, p, depth as nat);
                    if d == depth {
                        assert(frontier@.contains(p));
                    } else {
                        lemma_within_grows(field, fences, start, d, (depth - 1) as nat);
                        assert(within(field, fences, start, (depth - 1) as nat).contains(p));
                        assert(reached.contains(q));
                    }
                }
            }
        }
        assert forall|q: Position| map@.contains_key(q) <==> reachable(field, fences, start, q) by {
            if reachable(field, fences, start, q) {
                let n = choose|n: nat| within(field, fences, start, n).contains(q);
                if n <= depth {
                    lemma_within_grows(field, fences, start, n, depth as nat);
                } else {
                    lemma_within_settles(field, fences, start, depth as nat, n);
                }
                assert(reached.contains(q));
            }
            if map@.contains_key(q) {
                assert(reached.contains(q));
            }
        }
        assert forall|q: Position, n: nat|
            (map@.contains_key(q) && map@[q] == n) <==> at_distance(field, fences, start, q, n) by {
            if at_distance(field, fences, start, q, n) {
                assert(reachable(field, fences, start, q));
                assert(map@.contains_key(q));
                lemma_distance_unique(field, fences, start, q, n, map@[q] as nat);
            }
        }
    }
    map
}

} // verus!
