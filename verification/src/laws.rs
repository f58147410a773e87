//! What holds between the universe, its objective, the board of its walls and the
//! solver.
use vstd::prelude::*;

use crate::board::{anchor_of, center_cut, dangling, walled, Board, BoardError};
use crate::border::Border;
use crate::galaxy::{center_of, connected, valid_shape};
use crate::objective::{centers_apart, centers_inside, has_center, GalaxyCenter, Objective};

use crate::position::{footprint_of, Position};
use crate::reach::{lemma_within_more_seeds, lemma_within_transfer, open_move, reachable, within};
use crate::solver::{Solution, Solver};
use crate::universe::Universe;

verus! {

/// The walls of the board are those of the universe: a wall stands between a
/// cell and each neighbour that lies outside the grid or in another galaxy.
pub open spec fn walls_of(board: &Board, universe: &Universe) -> bool {
    &&& board.rows() == universe.rows()
    &&& board.columns() == universe.columns()
    &&& forall|p: Position, q: Position|
        universe.inside(p) && p.adjacent_to(q) && !universe.together(p, q) ==> board@.contains(
            #[trigger] Border::between(p, q),
        )
    &&& forall|b: Border|
        board@.contains(b) ==> exists|p: Position, q: Position|
            universe.inside(p) && p.adjacent_to(q) && !universe.together(p, q) && b
                == #[trigger] Border::between(p, q)
}

/// The centers are those of the galaxies of the universe, without sizes.
pub open spec fn centers_of(centers: Set<GalaxyCenter>, universe: &Universe) -> bool {
    forall|c: GalaxyCenter|
        centers.contains(c) <==> c.size is None && exists|p: Position|
            universe.inside(p) && c.position == center_of(#[trigger] universe.galaxy_at(p))
}

/// On the board of the walls of a universe, a wall stands between two
/// neighbours just where one of them is a cell and they are not cells of one
/// galaxy.
pub proof fn lemma_wall(board: &Board, universe: &Universe, x: Position, y: Position)
    requires
        walls_of(board, universe),
        x.adjacent_to(y),
    ensures
        walled(board@, x, y) <==> (universe.inside(x) || universe.inside(y)) && !universe.together(
            x,
            y,
        ),
{
    let b = Border::between(x, y);
    Border::lemma_of(x, y);
    Border::lemma_of(y, x);
    if board@.contains(b) {
        let (p, q) = choose|p: Position, q: Position|
            universe.inside(p) && p.adjacent_to(q) && !universe.together(p, q) && b
                == #[trigger] Border::between(p, q);
        Border::lemma_of(p, q);
        Border::lemma_of(q, p);
        assert((p == x && q == y) || (p == y && q == x));
    }
    if (universe.inside(x) || universe.inside(y)) && !universe.together(x, y) {
        if universe.inside(x) {
            assert(board@.contains(Border::between(x, y)));
        } else {
            assert(board@.contains(Border::between(y, x)));
            assert(Border::between(y, x) == Border::between(x, y));
        }
    }
}

/// On the board of the walls of a universe, moves only lead to cells of the
/// galaxy that they start in.
proof fn lemma_region_in_galaxy(
    board: &Board,
    universe: &Universe,
    p: Position,
    q: Position,
    n: nat,
)
    requires
        universe.wf(),
        walls_of(board, universe),
        universe.inside(p),
        within(board.grid(), board@, set![p], n).contains(q),
    ensures
        universe.galaxy_at(p).contains(q),
    decreases n,
{
    if n > 0 {
        let nearer = within(board.grid(), board@, set![p], (n - 1) as nat);
        if nearer.contains(q) {
            lemma_region_in_galaxy(board, universe, p, q, (n - 1) as nat);
        } else {
            let x = choose|x: Position|
                nearer.contains(x) && #[trigger] open_move(board.grid(), board@, x, q);
            lemma_region_in_galaxy(board, universe, p, x, (n - 1) as nat);
            lemma_wall(board, universe, x, q);
        }
    }
}

/// On the board of the walls of a universe with connected galaxies, the region
/// of a cell is its galaxy.
pub proof fn lemma_region_is_galaxy(board: &Board, universe: &Universe, p: Position)
    requires
        universe.wf(),
        walls_of(board, universe),
        universe.inside(p),
        connected(universe.galaxy_at(p)),
    ensures
        board.region(p) == universe.galaxy_at(p),
{
    let galaxy = universe.galaxy_at(p);
    let none = Set::<Border>::empty();
    assert forall|q: Position| board.region(p).contains(q) <==> galaxy.contains(q) by {
        if board.region(p).contains(q) {
            let n = choose|n: nat| within(board.grid(), board@, set![p], n).contains(q);
            lemma_region_in_galaxy(board, universe, p, q, n);
        }
        if galaxy.contains(q) {
            assert(galaxy.contains(p));
            assert(reachable(galaxy, none, set![p], q));
            let n = choose|n: nat| within(galaxy, none, set![p], n).contains(q);
            assert(galaxy.subset_of(board.grid()));
            assert forall|x: Position, y: Position|
                (set![p].contains(x) || galaxy.contains(x)) && #[trigger] open_move(
                    galaxy,
                    none,
                    x,
                    y,
                ) implies !board@.contains(Border::between(x, y)) by {
                lemma_wall(board, universe, x, y);
            }
            lemma_within_transfer(galaxy, none, board.grid(), board@, set![p], n);
            assert(within(board.grid(), board@, set![p], n).contains(q));
        }
    }
    assert(board.region(p) =~= universe.galaxy_at(p));
}

/// The first of the cells around the center of a valid galaxy of the universe
/// is a cell of the galaxy.
proof fn lemma_anchor(universe: &Universe, p: Position)
    requires
        universe.wf(),
        universe.inside(p),
        valid_shape(universe.galaxy_at(p)),
    ensures
        universe.galaxy_at(p).contains(anchor_of(center_of(universe.galaxy_at(p)))),
        universe.galaxy_at(anchor_of(center_of(universe.galaxy_at(p)))) == universe.galaxy_at(p),
{
    let galaxy = universe.galaxy_at(p);
    let center = center_of(galaxy);
    universe.lemma_galaxy(universe.id_at(p));
    crate::galaxy::lemma_bounds_exist(galaxy);
    crate::galaxy::lemma_center_range(galaxy, crate::rectangle::bounding_of(galaxy));
    let anchor = anchor_of(center);
    assert(center.surrounds(anchor));
    assert(galaxy.contains(anchor));
    assert(universe.galaxy_at(anchor) =~= galaxy);
}

/// The board of the walls of a valid universe is free of errors, measured
/// against the centers of the galaxies of the universe: no wall is loose at an
/// end; no center is cut by a wall; every center has a region that is a valid
/// galaxy around it; and every cell lies in the region of a center.
pub proof fn lemma_solution_has_no_errors(
    board: &Board,
    universe: &Universe,
    centers: Set<GalaxyCenter>,
)
    requires
        universe.wf(),
        universe.valid(),
        board.wf(),
        walls_of(board, universe),
        centers_of(centers, universe),
    ensures
        centers_inside(centers, board.rows(), board.columns()),
        forall|b: Border|
            #[trigger] board@.contains(b) ==> !dangling(board@, board.rows(), board.columns(), b),
        forall|p: Position| #[trigger] has_center(centers, p) ==> !center_cut(board@, p),
        forall|c: GalaxyCenter| centers.contains(c) ==> !#[trigger] board.wrong_size(c),
        forall|p: Position| #[trigger] has_center(centers, p) ==> !board.askew(p),
        forall|q: Position| board.inside(q) ==> #[trigger] board.covered(centers, q),
{
    assert forall|c: GalaxyCenter, x: Position|
        centers.contains(c) && #[trigger] c.position.surrounds(x) implies 0 <= x.row < board.rows()
        && 0 <= x.column < board.columns() by {
        let p = choose|p: Position|
            universe.inside(p) && c.position == center_of(#[trigger] universe.galaxy_at(p));
        assert(valid_shape(universe.galaxy_at(p)));
        assert(universe.galaxy_at(p).contains(x));
    }
    assert forall|b: Border| #[trigger] board@.contains(b) implies !dangling(
        board@,
        board.rows(),
        board.columns(),
        b,
    ) by {
        lemma_wall_is_held(board, universe, b);
    }
    assert forall|c: Position| #[trigger] has_center(centers, c) implies !center_cut(board@, c)
        && !board.askew(c) by {
        let gc = choose|gc: GalaxyCenter| centers.contains(gc) && gc.position == c;
        let p = choose|p: Position|
            universe.inside(p) && gc.position == center_of(#[trigger] universe.galaxy_at(p));
        let galaxy = universe.galaxy_at(p);
        assert(valid_shape(galaxy));
        lemma_anchor(universe, p);
        let anchor = anchor_of(c);
        assert(universe.inside(anchor));
        lemma_region_is_galaxy(board, universe, anchor);
        if center_cut(board@, c) {
            let (x, y) = choose|x: Position, y: Position|
                c.surrounds(x) && c.surrounds(y) && x.adjacent_to(y) && board@.contains(
                    #[trigger] Border::between(x, y),
                );
            assert(galaxy.contains(x) && galaxy.contains(y));
            lemma_wall(board, universe, x, y);
        }
    }
    assert forall|q: Position| board.inside(q) implies #[trigger] board.covered(centers, q) by {
        let galaxy = universe.galaxy_at(q);
        assert(universe.inside(q));
        assert(valid_shape(galaxy));
        lemma_anchor(universe, q);
        let c = center_of(galaxy);
        let gc = GalaxyCenter { position: c, size: None };
        assert(centers.contains(gc));
        lemma_region_is_galaxy(board, universe, anchor_of(c));
        assert(galaxy.contains(q));
        assert(board.region(anchor_of(gc.position)).contains(q));
    }
}

/// On the board of the walls of a universe, every wall meets another wall or
/// the frame at both of its ends.
proof fn lemma_wall_is_held(board: &Board, universe: &Universe, b: Border)
    requires
        universe.wf(),
        board.wf(),
        walls_of(board, universe),
        board@.contains(b),
    ensures
        !dangling(board@, board.rows(), board.columns(), b),
{
    let (p, q) = choose|p: Position, q: Position|
        universe.inside(p) && p.adjacent_to(q) && !universe.together(p, q) && b
            == #[trigger] Border::between(p, q);
    Border::lemma_of(p, q);
    Border::lemma_of(q, p);
    let p1 = b.first();
    let p2 = b.second();
    assert(p1.adjacent_to(p2));
    assert(universe.inside(p1) || universe.inside(p2));
    assert(!universe.together(p1, p2));
    if p1.row == p2.row {
        if p1.row != 0 {
            lemma_corner(board, universe, p1, p1.shift(-1, 0), p2.shift(-1, 0), p2);
        }
        if p1.row != board.rows() - 1 {
            lemma_corner(board, universe, p1, p1.shift(1, 0), p2.shift(1, 0), p2);
        }
    } else {
        if p1.column != 0 {
            lemma_corner(board, universe, p1, p1.shift(0, -1), p2.shift(0, -1), p2);
        }
        if p1.column != board.columns() - 1 {
            lemma_corner(board, universe, p1, p1.shift(0, 1), p2.shift(0, 1), p2);
        }
    }
}

/// Around a corner of the grid: where a wall parts the cells `a` and `d`, one of
/// the three other walls at the corner stands.
proof fn lemma_corner(
    board: &Board,
    universe: &Universe,
    a: Position,
    b: Position,
    c: Position,
    d: Position,
)
    requires
        walls_of(board, universe),
        a.adjacent_to(b),
        b.adjacent_to(c),
        c.adjacent_to(d),
        a.adjacent_to(d),
        universe.inside(a) || universe.inside(d),
        !universe.together(a, d),
    ensures
        walled(board@, a, b) || walled(board@, b, c) || walled(board@, c, d),
{
    lemma_wall(board, universe, a, b);
    lemma_wall(board, universe, b, c);
    lemma_wall(board, universe, c, d);
    assert(Border::between(c, d) == Border::between(d, c));
}

/// An error report that says what `compute_error` finds is empty where none
/// of the five faults occurs.
pub proof fn lemma_no_errors_reported(
    error: &BoardError,
    board: &Board,
    centers: Set<GalaxyCenter>,
)
    requires
        forall|b: Border|
            #![trigger error.dangling_borders@.contains(b)]
            error.dangling_borders@.contains(b) <==> board@.contains(b) && dangling(
                board@,
                board.rows(),
                board.columns(),
                b,
            ),
        forall|p: Position|
            #![trigger error.cut_centers@.contains(p)]
            error.cut_centers@.contains(p) <==> has_center(centers, p) && center_cut(board@, p),
        forall|p: Position|
            #![trigger error.incorrect_galaxy_sizes@.contains(p)]
            error.incorrect_galaxy_sizes@.contains(p) <==> exists|c: GalaxyCenter|
                centers.contains(c) && c.position == p && #[trigger] board.wrong_size(c),
        forall|p: Position|
            #![trigger error.asymmetric_centers@.contains(p)]
            error.asymmetric_centers@.contains(p) <==> has_center(centers, p) && board.askew(p),
        forall|q: Position|
            #![trigger error.centerless_cells@.contains(q)]
            error.centerless_cells@.contains(q) <==> board.inside(q) && !board.covered(centers, q),
        forall|b: Border|
            #[trigger] board@.contains(b) ==> !dangling(board@, board.rows(), board.columns(), b),
        forall|p: Position| #[trigger] has_center(centers, p) ==> !center_cut(board@, p),
        forall|c: GalaxyCenter| centers.contains(c) ==> !#[trigger] board.wrong_size(c),
        forall|p: Position| #[trigger] has_center(centers, p) ==> !board.askew(p),
        forall|q: Position| board.inside(q) ==> #[trigger] board.covered(centers, q),
    ensures
        error.error_free(),
{
    assert(error.dangling_borders@ =~= Set::<Border>::empty()) by {
        assert forall|b: Border| !error.dangling_borders@.contains(b) by {
            if error.dangling_borders@.contains(b) {
                assert(board@.contains(b));
            }
        }
    }
    assert(error.cut_centers@ =~= Set::<Position>::empty()) by {
        assert forall|p: Position| !error.cut_centers@.contains(p) by {
            if error.cut_centers@.contains(p) {
                assert(has_center(centers, p));
            }
        }
    }
    assert(error.incorrect_galaxy_sizes@ =~= Set::<Position>::empty()) by {
        assert forall|p: Position| !error.incorrect_galaxy_sizes@.contains(p) by {
            if error.incorrect_galaxy_sizes@.contains(p) {
                let c = choose|c: GalaxyCenter|
                    centers.contains(c) && c.position == p && #[trigger] board.wrong_size(c);
                assert(!board.wrong_size(c));
            }
        }
    }
    assert(error.asymmetric_centers@ =~= Set::<Position>::empty()) by {
        assert forall|p: Position| !error.asymmetric_centers@.contains(p) by {
            if error.asymmetric_centers@.contains(p) {
                assert(has_center(centers, p));
            }
        }
    }
    assert(error.centerless_cells@ =~= Set::<Position>::empty()) by {
        assert forall|q: Position| !error.centerless_cells@.contains(q) by {
            if error.centerless_cells@.contains(q) {
                assert(board.covered(centers, q));
            }
        }
    }
}

/// The index, among `centers`, of the center of the galaxy of the cell `p`.
pub open spec fn index_in(centers: Seq<GalaxyCenter>, universe: &Universe, p: Position) -> usize {
    choose|k: usize|
        k < centers.len() && centers[k as int].position == center_of(universe.galaxy_at(p))
}

/// The assignment of galaxies to cells that the universe stands for, with
/// every galaxy named by the index of its center among `centers`.
pub open spec fn assignment_of(centers: Seq<GalaxyCenter>, universe: &Universe) -> spec_fn(
    Position,
) -> usize {
    |p: Position| index_in(centers, universe, p)
}

/// The solver is in the state in which it starts for the centers of the
/// universe.
pub open spec fn starts_for(solver: &Solver, universe: &Universe) -> bool {
    &&& solver.wf()
    &&& solver.rows() == universe.rows()
    &&& solver.columns() == universe.columns()
    &&& centers_of(solver.centers().to_set(), universe)
    &&& forall|b: Border|
        #[trigger] solver.known().contains_key(b) ==> b.well_formed() && solver.on_frame(b)
            && solver.known()[b]
    &&& forall|p: Position, id: usize|
        solver.inside(p) ==> (#[trigger] solver.possible(p).contains(id) <==> id
            < solver.centers().len() && forall|k: int|
            0 <= k < solver.centers().len() && #[trigger] solver.centers()[k].position.surrounds(
                p,
            ) ==> k == id)
}

/// In a valid universe, the center of the galaxy of every cell is one of the
/// centers, and cells have the same index just where they are cells of one
/// galaxy.
pub proof fn lemma_index(centers: Seq<GalaxyCenter>, universe: &Universe, p: Position)
    requires
        universe.wf(),
        universe.valid(),
        centers.len() <= usize::MAX,
        centers_of(centers.to_set(), universe),
        universe.inside(p),
    ensures
        index_in(centers, universe, p) < centers.len(),
        centers[index_in(centers, universe, p) as int].position == center_of(
            universe.galaxy_at(p),
        ),
        forall|q: Position|
            universe.inside(q) ==> (#[trigger] index_in(centers, universe, q) == index_in(
                centers,
                universe,
                p,
            ) <==> universe.together(p, q)),
{
    lemma_index_exists(centers, universe, p);
    assert forall|q: Position| universe.inside(q) implies (#[trigger] index_in(
        centers,
        universe,
        q,
    ) == index_in(centers, universe, p) <==> universe.together(p, q)) by {
        lemma_index_exists(centers, universe, q);
        if universe.together(p, q) {
            assert(universe.galaxy_at(p) =~= universe.galaxy_at(q));
        }
        if index_in(centers, universe, q) == index_in(centers, universe, p) {
            assert(valid_shape(universe.galaxy_at(p)));
            assert(valid_shape(universe.galaxy_at(q)));
            lemma_anchor(universe, p);
            lemma_anchor(universe, q);
            let anchor = anchor_of(center_of(universe.galaxy_at(p)));
            assert(universe.galaxy_at(p).contains(anchor));
            assert(universe.galaxy_at(q).contains(anchor));
        }
    }
}

proof fn lemma_index_exists(centers: Seq<GalaxyCenter>, universe: &Universe, p: Position)
    requires
        universe.wf(),
        centers.len() <= usize::MAX,
        centers_of(centers.to_set(), universe),
        universe.inside(p),
    ensures
        index_in(centers, universe, p) < centers.len(),
        centers[index_in(centers, universe, p) as int].position == center_of(
            universe.galaxy_at(p),
        ),
{
    let c = GalaxyCenter { position: center_of(universe.galaxy_at(p)), size: None };
    assert(centers.to_set().contains(c));
    let k = choose|k: int| 0 <= k < centers.len() && centers[k] == c;
    let index = k as usize;
    assert(index < centers.len() && centers[index as int].position == center_of(
        universe.galaxy_at(p),
    ));
}

/// What the solver knows when it starts for the centers of a valid universe is
/// true of the universe.
pub proof fn lemma_start_is_consistent(solver: &Solver, universe: &Universe)
    requires
        universe.wf(),
        universe.valid(),
        starts_for(solver, universe),
    ensures
        solver.consistent(assignment_of(solver.centers(), universe)),
{
    let centers = solver.centers();
    let a = assignment_of(centers, universe);
    let none = Set::<Border>::empty();
    solver.lemma_centers_counted();
    assert forall|p: Position| solver.inside(p) implies #[trigger] a(p) < centers.len() by {
        lemma_index(centers, universe, p);
    }
    assert forall|k: int, p: Position|
        0 <= k < centers.len() && #[trigger] centers[k].position.surrounds(p) implies a(p)
        == k by {
        lemma_surrounded(solver, universe, k, p);
    }
    assert forall|p: Position| solver.inside(p) implies solver.inside(
        #[trigger] centers[a(p) as int].position.mirrored(p),
    ) && a(centers[a(p) as int].position.mirrored(p)) == a(p) by {
        lemma_index(centers, universe, p);
        let galaxy = universe.galaxy_at(p);
        assert(valid_shape(galaxy));
        assert(galaxy.contains(p));
        let m = center_of(galaxy).mirrored(p);
        assert(galaxy.contains(m));
        assert(universe.together(p, m));
    }
    assert forall|p: Position| solver.inside(p) implies #[trigger] reachable(
        solver.galaxy_of(a, a(p)),
        none,
        footprint_of(centers[a(p) as int].position),
        p,
    ) by {
        lemma_index(centers, universe, p);
        let galaxy = universe.galaxy_at(p);
        assert(valid_shape(galaxy));
        assert(solver.galaxy_of(a, a(p)) =~= galaxy) by {
            assert forall|q: Position| solver.galaxy_of(a, a(p)).contains(q) <==> galaxy.contains(
                q,
            ) by {
                if universe.inside(q) {
                    assert(index_in(centers, universe, q) == index_in(centers, universe, p)
                        <==> universe.together(p, q));
                }
            }
        }
        lemma_anchor(universe, p);
        let center = center_of(galaxy);
        let anchor = anchor_of(center);
        assert(reachable(galaxy, none, set![anchor], p));
        let n = choose|n: nat| within(galaxy, none, set![anchor], n).contains(p);
        assert(center.surrounds(anchor));
        assert(set![anchor].subset_of(footprint_of(center)));
        lemma_within_more_seeds(galaxy, none, set![anchor], footprint_of(center), n);
        assert(within(galaxy, none, footprint_of(center), n).contains(p));
    }
    assert(solver.solved_by(a));
    assert forall|p: Position| solver.inside(p) implies #[trigger] solver.possible(p).contains(
        a(p),
    ) by {
        lemma_index(centers, universe, p);
        assert forall|k: int|
            0 <= k < centers.len() && #[trigger] centers[k].position.surrounds(p) implies k == a(
            p,
        ) by {
            lemma_surrounded(solver, universe, k, p);
        }
    }
    assert forall|b: Border|
        #[trigger] solver.known().contains_key(b) && b.well_formed() && (solver.inside(b.first())
            || solver.inside(b.second())) implies solver.known()[b] == solver.stands(a, b) by {
        assert(solver.on_frame(b));
    }
}

/// A cell around one of the centers of a valid universe belongs to the galaxy
/// of that center.
proof fn lemma_surrounded(solver: &Solver, universe: &Universe, k: int, p: Position)
    requires
        universe.wf(),
        universe.valid(),
        starts_for(solver, universe),
        0 <= k < solver.centers().len(),
        solver.centers()[k].position.surrounds(p),
    ensures
        universe.inside(p),
        index_in(solver.centers(), universe, p) == k,
{
    let centers = solver.centers();
    let c = centers[k];
    solver.lemma_centers_counted();
    assert(centers.to_set().contains(c));
    let origin = choose|origin: Position|
        universe.inside(origin) && c.position == center_of(#[trigger] universe.galaxy_at(origin));
    let galaxy = universe.galaxy_at(origin);
    assert(valid_shape(galaxy));
    assert(galaxy.contains(p));
    assert(universe.galaxy_at(p) =~= galaxy);
    lemma_index(centers, universe, p);
    let found = index_in(centers, universe, p);
    assert(centers[found as int].position == c.position);
    assert(centers.to_set().contains(centers[found as int]));
    assert(centers[found as int].size is None && c.size is None);
    assert(centers[found as int] == c);
    solver.lemma_centers_differ(found as int, k);
}

/// The solver finds the walls of the universe: when it has started for the
/// centers of a valid universe, what it comes to know stays true of the
/// universe. It finds no contradiction; every border between two cells that it
/// knows is a wall just where the cells belong to different galaxies of the
/// universe; and every cell that it knows the galaxy of belongs to the galaxy
/// with that center.
pub proof fn lemma_solver_agrees_with_universe(
    before: &Solver,
    after: &Solver,
    universe: &Universe,
)
    requires
        universe.wf(),
        universe.valid(),
        starts_for(before, universe),
        after.narrows(before),
        after.keeps_solutions(before),
    ensures
        !before.hopeless(),
        forall|p: Position, q: Position|
            universe.inside(p) && universe.inside(q) && p.adjacent_to(q)
                && after.known().contains_key(#[trigger] Border::between(p, q))
                ==> after.known()[Border::between(p, q)] == !universe.together(p, q),
        forall|p: Position, id: usize|
            #[trigger] after.certain(p, id) ==> id < after.centers().len()
                && after.centers()[id as int].position == center_of(universe.galaxy_at(p)),
        after.known_galaxies_parted() && (forall|p: Position|
            after.inside(p) ==> exists|id: usize| #[trigger] after.certain(p, id)) ==> forall|
            p: Position,
            q: Position,
        |
            universe.inside(p) && universe.inside(q) && p.adjacent_to(q)
                ==> after.known().contains_key(#[trigger] Border::between(p, q)),
{
    let centers = before.centers();
    let a = assignment_of(centers, universe);
    before.lemma_centers_counted();
    lemma_start_is_consistent(before, universe);
    assert(before.consistent(a));
    assert(after.consistent(a));
    assert forall|p: Position, q: Position|
        universe.inside(p) && universe.inside(q) && p.adjacent_to(q)
            && after.known().contains_key(
            #[trigger] Border::between(p, q),
        ) implies after.known()[Border::between(p, q)] == !universe.together(p, q) by {
        let b = Border::between(p, q);
        Border::lemma_of(p, q);
        Border::lemma_of(q, p);
        b.lemma_well_formed();
        lemma_index(centers, universe, p);
        assert(after.known()[b] == after.stands(a, b));
        assert(index_in(centers, universe, q) == index_in(centers, universe, p)
            <==> universe.together(p, q));
    }
    assert forall|p: Position, id: usize| #[trigger] after.certain(p, id) implies id
        < after.centers().len() && after.centers()[id as int].position == center_of(
        universe.galaxy_at(p),
    ) by {
        after.lemma_certain(a, p, id);
        lemma_index(centers, universe, p);
    }
    if after.known_galaxies_parted() && (forall|p: Position|
        after.inside(p) ==> exists|id: usize| #[trigger] after.certain(p, id)) {
        assert forall|p: Position, q: Position|
            universe.inside(p) && universe.inside(q) && p.adjacent_to(
                q,
            ) implies after.known().contains_key(#[trigger] Border::between(p, q)) by {
            assert(after.inside(p) && after.inside(q));
            let i = choose|i: usize| #[trigger] after.certain(p, i);
            let j = choose|j: usize| #[trigger] after.certain(q, j);
            assert(after.certain(p, i) && after.certain(q, j));
            assert(after.agreed(p, q, i, j));
        }
    }
}

/// The puzzle that the universe sets has no other solution: whatever
/// assignment of galaxies to the cells solves the puzzle of the solver gives
/// every cell to the galaxy that it belongs to in the universe.
pub open spec fn only_solution(solver: &Solver, universe: &Universe) -> bool {
    forall|a: spec_fn(Position) -> usize, p: Position|
        #![trigger solver.solved_by(a), solver.inside(p)]
        solver.solved_by(a) && solver.inside(p) ==> a(p) == index_in(
            solver.centers(),
            universe,
            p,
        )
}

/// Where the universe is the only solution of its puzzle, a solver that has
/// started for it and has no choice left but such as stand knows the galaxy of
/// every cell.
pub proof fn lemma_only_solution_is_found(before: &Solver, after: &Solver, universe: &Universe)
    requires
        universe.wf(),
        universe.valid(),
        starts_for(before, universe),
        after.narrows(before),
        after.keeps_solutions(before),
        after.wf(),
        after.choices_stand(),
        only_solution(after, universe),
    ensures
        forall|p: Position|
            after.inside(p) ==> #[trigger] after.certain(
                p,
                index_in(after.centers(), universe, p),
            ),
{
    let centers = before.centers();
    let a = assignment_of(centers, universe);
    lemma_start_is_consistent(before, universe);
    assert(after.consistent(a));
    assert forall|p: Position| after.inside(p) implies #[trigger] after.certain(
        p,
        index_in(after.centers(), universe, p),
    ) by {
        let id = index_in(centers, universe, p);
        assert(a(p) == id);
        assert(after.possible(p).contains(id));
        if after.possible(p) != set![id] {
            assert(exists|x: usize| after.possible(p).contains(x) && x != id) by {
                if forall|x: usize| after.possible(p).contains(x) ==> x == id {
                    assert(after.possible(p) =~= set![id]);
                }
            }
            let other = choose|x: usize| after.possible(p).contains(x) && x != id;
            after.lemma_possible(p);
            assert(after.possible(p).remove(id).contains(other));
            assert(after.possible(p).remove(id).len() >= 1) by {
                if after.possible(p).remove(id).len() == 0 {
                    assert(after.possible(p).remove(id).is_empty());
                }
            }
            assert(after.possible(p).len() >= 2);
            assert(after.can_be(p, other));
            let b = choose|b: spec_fn(Position) -> usize| #[trigger]
                after.consistent(b) && b(p) == other;
            assert(after.solved_by(b));
            assert(false);
        }
    }
}

/// The centers of the galaxies of a valid universe can be used with its grid:
/// the cells around each lie within the grid, and no two share a cell.
pub proof fn lemma_centers_fit(centers: Set<GalaxyCenter>, universe: &Universe)
    requires
        universe.wf(),
        universe.valid(),
        centers_of(centers, universe),
    ensures
        centers_inside(centers, universe.rows(), universe.columns()),
        centers_apart(centers),
{
    assert forall|c: GalaxyCenter, x: Position|
        centers.contains(c) && #[trigger] c.position.surrounds(x) implies 0 <= x.row
        < universe.rows() && 0 <= x.column < universe.columns() by {
        let p = choose|p: Position|
            universe.inside(p) && c.position == center_of(#[trigger] universe.galaxy_at(p));
        assert(valid_shape(universe.galaxy_at(p)));
        assert(universe.galaxy_at(p).contains(x));
    }
    assert forall|a: GalaxyCenter, b: GalaxyCenter, x: Position|
        centers.contains(a) && centers.contains(b) && a != b && #[trigger] a.position.surrounds(
            x,
        ) implies !#[trigger] b.position.surrounds(x) by {
        if b.position.surrounds(x) {
            let p = choose|p: Position|
                universe.inside(p) && a.position == center_of(#[trigger] universe.galaxy_at(p));
            let q = choose|q: Position|
                universe.inside(q) && b.position == center_of(#[trigger] universe.galaxy_at(q));
            assert(valid_shape(universe.galaxy_at(p)));
            assert(valid_shape(universe.galaxy_at(q)));
            assert(universe.galaxy_at(p).contains(x));
            assert(universe.galaxy_at(q).contains(x));
            assert(universe.galaxy_at(p) =~= universe.galaxy_at(q));
        }
    }
}

/// Solves the puzzle that a valid universe sets: takes the centers of its
/// galaxies for the objective and lets the solver work out the walls. The
/// solver finds no contradiction, every wall that it finds between two cells
/// parts two galaxies of the universe, and where the universe is the only
/// solution of the puzzle it comes to know the galaxy of every cell and finds
/// every such wall.
pub fn solve_generated(universe: &Universe) -> (result: Option<(Solution, Solver)>)
    requires
        universe.wf(),
        universe.valid(),
        universe.rows() >= 1,
        universe.columns() >= 1,
    ensures
        result is Some,
        ({
            let (solution, solver) = result->0;
            &&& solution.borders.wf()
            &&& solver.settled()
            &&& forall|b: Border|
                #![trigger solution.borders@.contains(b)]
                solution.borders@.contains(b) <==> solver.known().contains_key(b)
                    && solver.known()[b]
            &&& forall|p: Position, q: Position|
                universe.inside(p) && universe.inside(q) && p.adjacent_to(q)
                    && solution.borders@.contains(#[trigger] Border::between(p, q))
                    ==> !universe.together(p, q)
            &&& only_solution(&solver, universe) ==> {
                &&& forall|p: Position|
                    universe.inside(p) ==> #[trigger] solver.certain(
                        p,
                        index_in(solver.centers(), universe, p),
                    )
                &&& forall|p: Position, q: Position|
                    universe.inside(p) && universe.inside(q) && p.adjacent_to(q)
                        && !universe.together(p, q) ==> solution.borders@.contains(
                        #[trigger] Border::between(p, q),
                    )
            }
        }),
{
    let objective = Objective::generate(universe);
    proof {
        lemma_centers_fit(objective.centers(), universe);
        objective.lemma_listed();
    }
    match Solver::new(universe.get_width(), universe.get_height(), &objective) {
        Ok(mut solver) => {
            let ghost before = solver;
            proof {
                assert(starts_for(&before, universe));
                lemma_start_is_consistent(&before, universe);
                assert(before.filled()) by {
                    let a = assignment_of(before.centers(), universe);
                    assert forall|p: Position| before.inside(p) implies #[trigger] before.possible(
                        p,
                    ) != Set::<usize>::empty() by {
                        assert(before.possible(p).contains(a(p)));
                    }
                }
            }
            match solver.solve() {
                Ok(solution) => {
                    proof {
                        lemma_solver_agrees_with_universe(&before, &solver, universe);
                        if only_solution(&solver, universe) {
                            lemma_only_solution_is_found(&before, &solver, universe);
                            assert forall|p: Position| solver.inside(p) implies exists|id: usize| #[trigger]
                                solver.certain(p, id) by {
                                assert(solver.certain(p, index_in(solver.centers(), universe, p)));
                            }
                        }
                    }
                    Some((solution, solver))
                },
                Err(_) => {
                    proof {
                        lemma_solver_agrees_with_universe(&before, &before, universe);
                        assert(false);
                    }
                    None
                },
            }
        },
        Err(_) => {
            proof {
                assert(false);
            }
            None
        },
    }
}

/// The board that holds the walls of the universe.
pub fn board_of(universe: &Universe) -> (board: Board)
    requires
        universe.wf(),
    ensures
        board.wf(),
        walls_of(&board, universe),
{
    let walls = universe.borders();
    let listed = walls.to_vec();
    proof {
        walls.lemma_size();
        assert forall|i: int| 0 <= i < listed.len() implies (#[trigger] listed[i]).first().in_range()
            && listed[i].second().in_range() by {
            assert(walls@.contains(listed[i]));
            let (p, q) = choose|p: Position, q: Position|
                universe.inside(p) && p.adjacent_to(q) && !universe.together(p, q) && listed[i]
                    == #[trigger] Border::between(p, q);
            Border::lemma_of(p, q);
            Border::lemma_of(q, p);
        }
    }
    let board = Board::with_walls(universe.get_width(), universe.get_height(), &listed);
    proof {
        assert(board@ =~= walls@);
    }
    board
}

} // verus!
