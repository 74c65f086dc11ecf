//! How a swarm searches: in what order random numbers are drawn, where particles start, how
//! they move, and what they and the swarm remember.

use vstd::prelude::*;

use crate::arith::{Arith, Op};
use crate::cost::{cost, SbplObs};
use crate::laws::between;
use crate::reals::{lemma_pull_rounded, lemma_rounded, lemma_three_terms_rounded, size};
use crate::rounding::{
    lemma_roundoff, number, rounds_products, rounds_sums, roundoff, whole_product,
};
use crate::swarm::{
    advanced, bounded, cheapest, drawable, drawable_along, drawn, drawn_swarm, drawn_table,
    drawn_tables, found, kick_requests, launched, next_pos, next_vel, part_round,
    position_requests, searched, velocity_requests, Draw, ParticleView, Source, SwarmDrawsView,
    SwarmView, COGNITIVE_PULL, INERTIA, SOCIAL_PULL,
};
use crate::word::{at_most, finite, less, nan, Real, MINUS_TENTH, TENTH};

verus! {

/// Particle `p` has become `q` along coordinate `d`. The new velocity is inertia times the
/// old one, a pull to the particle's own best position and a pull to the swarm's. The new
/// position is the old one plus the new velocity wherever that is between the bounds, and
/// the bound that it has crossed elsewhere.
pub open spec fn moves_along(
    f: Arith,
    lower: Seq<Real>,
    upper: Seq<Real>,
    p: ParticleView,
    q: ParticleView,
    swarm_best: Seq<Real>,
    kicks: Seq<Real>,
    d: int,
) -> bool {
    let own_way = f(Op::Sub(p.best_pos[d], p.pos[d]));
    let social_way = f(Op::Sub(swarm_best[d], p.pos[d]));
    let own = f(Op::Mul(f(Op::Mul(COGNITIVE_PULL, kicks[2 * d])), own_way));
    let social = f(Op::Mul(f(Op::Mul(SOCIAL_PULL, kicks[2 * d + 1])), social_way));
    let kept = f(Op::Mul(INERTIA, p.vel[d]));
    let there = f(Op::Add(p.pos[d], q.vel[d]));
    &&& q.vel[d] == f(Op::Add(f(Op::Add(kept, own)), social))
    &&& between(lower[d], there, upper[d]) ==> q.pos[d] == there
    &&& less(there, lower[d]) ==> q.pos[d] == lower[d]
    &&& less(upper[d], there) && !less(there, lower[d]) ==> q.pos[d] == upper[d]
    &&& nan(there) ==> q.pos[d] == there
}

/// The swarm `s` has become `t` by a move of particle `i`: along every coordinate it moves,
/// no other particle changes, and the particle and the swarm remember the new position with
/// its cost exactly where that is below what they remembered.
pub open spec fn moves(
    f: Arith,
    observations: Seq<SbplObs>,
    lower: Seq<Real>,
    upper: Seq<Real>,
    s: SwarmView,
    t: SwarmView,
    i: int,
    kicks: Seq<Real>,
) -> bool {
    let (p, q) = (s.particles[i], t.particles[i]);
    let c = cost(f, observations, q.pos);
    &&& t.particles.len() == s.particles.len()
    &&& forall|j: int|
        0 <= j < s.particles.len() && j != i ==> (#[trigger] t.particles[j]) == s.particles[j]
    &&& q.pos.len() == bounded(lower, upper)
    &&& q.vel.len() == bounded(lower, upper)
    &&& forall|d: int|
        0 <= d < bounded(lower, upper) ==> #[trigger] moves_along(
            f,
            lower,
            upper,
            p,
            q,
            s.best_pos,
            kicks,
            d,
        )
    &&& less(c, p.best_cost) ==> q.best_pos == q.pos && q.best_cost == c
    &&& !less(c, p.best_cost) ==> q.best_pos == p.best_pos && q.best_cost == p.best_cost
    &&& less(c, s.best_cost) ==> t.best_pos == q.pos && t.best_cost == c
    &&& !less(c, s.best_cost) ==> t.best_pos == s.best_pos && t.best_cost == s.best_cost
}

/// A particle moves along every coordinate by its velocity, whatever the bounds of the
/// coordinate, and only a lower cost replaces what is remembered.
pub proof fn law_particle_moves(
    f: Arith,
    observations: Seq<SbplObs>,
    lower: Seq<Real>,
    upper: Seq<Real>,
    s: SwarmView,
    i: int,
    kicks: Seq<Real>,
)
    requires
        0 <= i < s.particles.len(),
    ensures
        moves(
            f,
            observations,
            lower,
            upper,
            s,
            advanced(f, observations, lower, upper, s, i, kicks),
            i,
            kicks,
        ),
{
    let t = advanced(f, observations, lower, upper, s, i, kicks);
    let (p, q) = (s.particles[i], t.particles[i]);
    assert forall|d: int| 0 <= d < bounded(lower, upper) implies #[trigger] moves_along(
        f,
        lower,
        upper,
        p,
        q,
        s.best_pos,
        kicks,
        d,
    ) by {}
}

/// The new position, as a number, is the old one plus the new velocity, but for a rounding
/// error, along every coordinate where that sum is between the bounds.
pub proof fn law_position_of_numbers(
    f: Arith,
    lower: Seq<Real>,
    upper: Seq<Real>,
    pos: Seq<Real>,
    vel: Seq<Real>,
    d: int,
)
    requires
        rounds_sums(f),
        0 <= d < bounded(lower, upper),
        finite(f(Op::Add(pos[d], vel[d]))),
        between(lower[d], f(Op::Add(pos[d], vel[d])), upper[d]),
    ensures
        ({
            let there = number(next_pos(f, lower, upper, pos, vel)[d]);
            size(there - (number(pos[d]) + number(vel[d]))) <= roundoff() * size(there)
        }),
{
}

/// The new velocity, as a number, is inertia times the old one plus the two pulls, each of
/// them a strength times a random factor times the way to a best position, but for a few
/// rounding errors.
pub proof fn law_velocity_of_numbers(
    f: Arith,
    p: ParticleView,
    swarm_best: Seq<Real>,
    kicks: Seq<Real>,
    dims: nat,
    d: int,
)
    requires
        rounds_sums(f),
        rounds_products(f),
        0 <= d < dims,
        ({
            let own_way = f(Op::Sub(p.best_pos[d], p.pos[d]));
            let social_way = f(Op::Sub(swarm_best[d], p.pos[d]));
            let own_pull = f(Op::Mul(COGNITIVE_PULL, kicks[2 * d]));
            let social_pull = f(Op::Mul(SOCIAL_PULL, kicks[2 * d + 1]));
            &&& whole_product(f, INERTIA, p.vel[d])
            &&& whole_product(f, COGNITIVE_PULL, kicks[2 * d])
            &&& whole_product(f, SOCIAL_PULL, kicks[2 * d + 1])
            &&& whole_product(f, own_pull, own_way)
            &&& whole_product(f, social_pull, social_way)
        }),
        finite(next_vel(f, p, swarm_best, kicks, dims)[d]),
    ensures
        ({
            let x = number(p.pos[d]);
            let kept = number(INERTIA) * number(p.vel[d]);
            let own = number(COGNITIVE_PULL) * number(kicks[2 * d]) * (number(p.best_pos[d]) - x);
            let social = number(SOCIAL_PULL) * number(kicks[2 * d + 1]) * (number(swarm_best[d])
                - x);
            size(number(next_vel(f, p, swarm_best, kicks, dims)[d]) - (kept + own + social))
                <= 24 as real * roundoff() * (size(kept) + size(own) + size(social))
        }),
{
    lemma_roundoff();
    let u = roundoff();
    let v = 2 as real * u;
    let (k, l) = (kicks[2 * d], kicks[2 * d + 1]);
    let own_way = f(Op::Sub(p.best_pos[d], p.pos[d]));
    let social_way = f(Op::Sub(swarm_best[d], p.pos[d]));
    let own_pull = f(Op::Mul(COGNITIVE_PULL, k));
    let social_pull = f(Op::Mul(SOCIAL_PULL, l));
    let own = f(Op::Mul(own_pull, own_way));
    let social = f(Op::Mul(social_pull, social_way));
    let kept = f(Op::Mul(INERTIA, p.vel[d]));
    let partial = f(Op::Add(kept, own));
    let next = f(Op::Add(partial, social));
    assert(next_vel(f, p, swarm_best, kicks, dims)[d] == next);
    assert(finite(partial));
    let a = number(INERTIA) * number(p.vel[d]);
    let (c1, c2) = (number(COGNITIVE_PULL) * number(k), number(SOCIAL_PULL) * number(l));
    let d1 = number(p.best_pos[d]) - number(p.pos[d]);
    let d2 = number(swarm_best[d]) - number(p.pos[d]);
    lemma_rounded(number(kept), a, u);
    lemma_rounded(number(own_pull), c1, u);
    lemma_rounded(number(social_pull), c2, u);
    lemma_rounded(number(own_way), d1, u);
    lemma_rounded(number(social_way), d2, u);
    lemma_rounded(number(own), number(own_pull) * number(own_way), u);
    lemma_rounded(number(social), number(social_pull) * number(social_way), u);
    lemma_rounded(number(partial), number(kept) + number(own), u);
    lemma_rounded(number(next), number(partial) + number(social), u);
    lemma_pull_rounded(c1, d1, number(own_pull), number(own_way), number(own), v);
    lemma_pull_rounded(c2, d2, number(social_pull), number(social_way), number(social), v);
    lemma_three_terms_rounded(
        a,
        c1 * d1,
        c2 * d2,
        number(kept),
        number(own),
        number(social),
        number(partial),
        number(next),
        v,
    );
    let s = size(a) + size(c1 * d1) + size(c2 * d2);
    assert(12 as real * (v * s) == 24 as real * u * s) by (nonlinear_arith)
        requires
            v == 2 as real * u,
    ;
}

/// The swarms of `path` follow on each other by moves of particle after particle.
pub open spec fn follows_moves(
    f: Arith,
    observations: Seq<SbplObs>,
    lower: Seq<Real>,
    upper: Seq<Real>,
    path: Seq<SwarmView>,
    kicks: Seq<Seq<Real>>,
) -> bool {
    forall|i: int|
        0 <= i < path.len() - 1 ==> moves(
            f,
            observations,
            lower,
            upper,
            #[trigger] path[i],
            path[i + 1],
            i,
            kicks[i],
        )
}

proof fn lemma_part_round_path(
    f: Arith,
    observations: Seq<SbplObs>,
    lower: Seq<Real>,
    upper: Seq<Real>,
    s: SwarmView,
    kicks: Seq<Seq<Real>>,
    n: nat,
) -> (path: Seq<SwarmView>)
    requires
        n <= s.particles.len(),
    ensures
        path.len() == n + 1,
        path[0] == s,
        path[n as int] == part_round(f, observations, lower, upper, s, kicks, n),
        path[n as int].particles.len() == s.particles.len(),
        follows_moves(f, observations, lower, upper, path, kicks),
    decreases n,
{
    if n == 0 {
        seq![s]
    } else {
        let m = (n - 1) as nat;
        let before = lemma_part_round_path(f, observations, lower, upper, s, kicks, m);
        let t = part_round(f, observations, lower, upper, s, kicks, m);
        law_particle_moves(f, observations, lower, upper, t, n - 1, kicks[n - 1]);
        let path = before.push(part_round(f, observations, lower, upper, s, kicks, n));
        assert forall|i: int| 0 <= i < path.len() - 1 implies moves(
            f,
            observations,
            lower,
            upper,
            #[trigger] path[i],
            path[i + 1],
            i,
            kicks[i],
        ) by {
            if i < m {
                assert(path[i] == before[i] && path[i + 1] == before[i + 1]);
            }
        }
        path
    }
}

/// In each round every particle moves once, in their order, each seeing what the swarm has
/// found up to its turn.
pub proof fn law_round_moves_each_particle(
    f: Arith,
    observations: Seq<SbplObs>,
    lower: Seq<Real>,
    upper: Seq<Real>,
    draws: SwarmDrawsView,
    n: nat,
)
    requires
        draws.positions.len() >= 1,
    ensures
        exists|path: Seq<SwarmView>|
            {
                &&& path.len() == draws.positions.len() + 1
                &&& path[0] == searched(f, observations, lower, upper, draws, n)
                &&& path.last() == searched(f, observations, lower, upper, draws, n + 1)
                &&& #[trigger] follows_moves(
                    f,
                    observations,
                    lower,
                    upper,
                    path,
                    draws.kicks[n as int],
                )
            },
{
    lemma_searched_particles(f, observations, lower, upper, draws, n);
    let s = searched(f, observations, lower, upper, draws, n);
    let path = lemma_part_round_path(
        f,
        observations,
        lower,
        upper,
        s,
        draws.kicks[n as int],
        draws.positions.len(),
    );
    assert(path.last() == path[draws.positions.len() as int]);
}

proof fn lemma_searched_particles(
    f: Arith,
    observations: Seq<SbplObs>,
    lower: Seq<Real>,
    upper: Seq<Real>,
    draws: SwarmDrawsView,
    n: nat,
)
    ensures
        searched(f, observations, lower, upper, draws, n).particles.len()
            == draws.positions.len(),
    decreases n,
{
    if n > 0 {
        let m = (n - 1) as nat;
        lemma_searched_particles(f, observations, lower, upper, draws, m);
        let s = searched(f, observations, lower, upper, draws, m);
        let path = lemma_part_round_path(
            f,
            observations,
            lower,
            upper,
            s,
            draws.kicks[m as int],
            draws.positions.len(),
        );
    }
}

proof fn lemma_cheapest_first(costs: Seq<Real>, n: nat)
    requires
        1 <= n <= costs.len(),
    ensures
        ({
            let l = cheapest(costs, n);
            &&& 0 <= l < n
            &&& forall|k: int| 0 <= k < n ==> !less(#[trigger] costs[k], costs[l])
            &&& forall|k: int| 0 <= k < l ==> !at_most(#[trigger] costs[k], costs[l])
            &&& nan(costs[0]) <==> nan(costs[l])
            &&& nan(costs[0]) ==> l == 0
        }),
    decreases n,
{
    if n > 1 {
        lemma_cheapest_first(costs, (n - 1) as nat);
    }
}

/// Before the first round every particle stands at its first position with its first
/// velocity and remembers that position with its cost. The swarm remembers the first of the
/// cheapest, or the very first if its cost is no number.
pub proof fn law_launch(f: Arith, observations: Seq<SbplObs>, lower: Seq<Real>, upper: Seq<Real>, draws: SwarmDrawsView)
    requires
        draws.positions.len() >= 1,
    ensures
        ({
            let s = searched(f, observations, lower, upper, draws, 0);
            let costs = Seq::new(
                draws.positions.len(),
                |i: int| cost(f, observations, draws.positions[i]),
            );
            &&& s.particles.len() == draws.positions.len()
            &&& forall|i: int|
                0 <= i < s.particles.len() ==> {
                    let p = #[trigger] s.particles[i];
                    &&& p.pos == draws.positions[i]
                    &&& p.vel == draws.velocities[i]
                    &&& p.best_pos == draws.positions[i]
                    &&& p.best_cost == cost(f, observations, draws.positions[i])
                }
            &&& exists|l: int|
                {
                    &&& 0 <= l < costs.len()
                    &&& s.best_pos == #[trigger] draws.positions[l]
                    &&& s.best_cost == costs[l]
                    &&& forall|k: int| 0 <= k < costs.len() ==> !less(#[trigger] costs[k], costs[l])
                    &&& forall|k: int| 0 <= k < l ==> !at_most(#[trigger] costs[k], costs[l])
                    &&& nan(costs[0]) ==> l == 0
                    &&& !nan(costs[0]) ==> !nan(costs[l])
                }
        }),
{
    let s = launched(f, observations, draws);
    let costs = Seq::new(draws.positions.len(), |i: int| cost(f, observations, draws.positions[i]));
    lemma_cheapest_first(costs, costs.len());
    assert(Seq::new(s.particles.len(), |i: int| s.particles[i].best_cost) =~= costs);
    let l = cheapest(costs, costs.len());
    assert(s.best_pos == draws.positions[l]);
}

/// Requests are answered one after the other, each in the state that the one before it left.
pub proof fn law_drawn_in_sequence<S>(g: Source<S>, s: S, a: Seq<Draw>, b: Seq<Draw>, q: Draw)
    ensures
        drawn(g, s, Seq::<Draw>::empty()) == (s, Seq::<Real>::empty()),
        drawn(g, s, seq![q]) == (g(s, q).0, seq![g(s, q).1]),
        drawn(g, s, a + b) == (
            drawn(g, drawn(g, s, a).0, b).0,
            drawn(g, s, a).1 + drawn(g, drawn(g, s, a).0, b).1,
        ),
    decreases b.len(),
{
    let one = seq![q];
    assert(one.drop_last() =~= Seq::<Draw>::empty());
    assert(drawn(g, s, one.drop_last()) == (s, Seq::<Real>::empty()));
    assert(drawn(g, s, one).1 =~= seq![g(s, q).1]);
    if b.len() == 0 {
        assert(a + b =~= a);
        assert(drawn(g, s, a).1 + Seq::<Real>::empty() =~= drawn(g, s, a).1);
    } else {
        law_drawn_in_sequence(g, s, a, b.drop_last(), q);
        assert((a + b).drop_last() =~= a + b.drop_last());
        assert((a + b).last() == b.last());
        let mid = drawn(g, s, a);
        let most = drawn(g, mid.0, b.drop_last());
        let x = g(most.0, b.last()).1;
        assert((mid.1 + most.1).push(x) =~= mid.1 + most.1.push(x));
    }
}

/// The requests `n` times over.
pub open spec fn repeated(requests: Seq<Draw>, n: nat) -> Seq<Draw>
    decreases n,
{
    if n == 0 {
        Seq::empty()
    } else {
        repeated(requests, (n - 1) as nat) + requests
    }
}

/// The rows one after the other.
pub open spec fn joined(rows: Seq<Seq<Real>>) -> Seq<Real>
    decreases rows.len(),
{
    if rows.len() == 0 {
        Seq::empty()
    } else {
        joined(rows.drop_last()) + rows.last()
    }
}

/// The tables one after the other.
pub open spec fn stacked(tables: Seq<Seq<Seq<Real>>>) -> Seq<Real>
    decreases tables.len(),
{
    if tables.len() == 0 {
        Seq::empty()
    } else {
        stacked(tables.drop_last()) + joined(tables.last())
    }
}

proof fn lemma_drawn_len<S>(g: Source<S>, s: S, requests: Seq<Draw>)
    ensures
        drawn(g, s, requests).1.len() == requests.len(),
    decreases requests.len(),
{
    if requests.len() > 0 {
        lemma_drawn_len(g, s, requests.drop_last());
    }
}

proof fn lemma_table_joined<S>(g: Source<S>, s: S, requests: Seq<Draw>, n: nat)
    ensures
        ({
            let (after, table) = drawn_table(g, s, requests, n);
            &&& table.len() == n
            &&& forall|i: int| 0 <= i < n ==> (#[trigger] table[i]).len() == requests.len()
            &&& drawn(g, s, repeated(requests, n)) == (after, joined(table))
        }),
    decreases n,
{
    if n > 0 {
        let m = (n - 1) as nat;
        lemma_table_joined(g, s, requests, m);
        let (mid, before) = drawn_table(g, s, requests, m);
        lemma_drawn_len(g, mid, requests);
        law_drawn_in_sequence(g, s, repeated(requests, m), requests, Draw::Unit);
        let table = drawn_table(g, s, requests, n).1;
        assert(table.drop_last() =~= before);
    }
}

proof fn lemma_repeated_sum(requests: Seq<Draw>, m: nat, n: nat)
    ensures
        repeated(requests, m + n) == repeated(requests, m) + repeated(requests, n),
    decreases n,
{
    if n == 0 {
        assert(repeated(requests, m) + repeated(requests, n) =~= repeated(requests, m));
    } else {
        lemma_repeated_sum(requests, m, (n - 1) as nat);
        assert(repeated(requests, m + n) =~= repeated(requests, m) + repeated(requests, n));
    }
}

proof fn lemma_tables_stacked<S>(g: Source<S>, s: S, requests: Seq<Draw>, rows: nat, n: nat)
    ensures
        ({
            let (after, tables) = drawn_tables(g, s, requests, rows, n);
            &&& tables.len() == n
            &&& forall|r: int, i: int|
                0 <= r < n && 0 <= i < rows ==> (#[trigger] tables[r][i]).len() == requests.len()
            &&& forall|r: int| 0 <= r < n ==> (#[trigger] tables[r]).len() == rows
            &&& drawn(g, s, repeated(requests, n * rows)) == (after, stacked(tables))
        }),
    decreases n,
{
    if n == 0 {
        assert(n * rows == 0) by (nonlinear_arith)
            requires
                n == 0,
        ;
    } else {
        let m = (n - 1) as nat;
        lemma_tables_stacked(g, s, requests, rows, m);
        let (mid, before) = drawn_tables(g, s, requests, rows, m);
        lemma_table_joined(g, mid, requests, rows);
        assert(n * rows == m * rows + rows) by (nonlinear_arith)
            requires
                n == m + 1,
        ;
        lemma_repeated_sum(requests, m * rows, rows);
        law_drawn_in_sequence(
            g,
            s,
            repeated(requests, m * rows),
            repeated(requests, rows),
            Draw::Unit,
        );
        let tables = drawn_tables(g, s, requests, rows, n).1;
        let last = drawn_table(g, mid, requests, rows).1;
        assert(tables.drop_last() =~= before);
        assert forall|r: int, i: int| 0 <= r < n && 0 <= i < rows implies (
        #[trigger] tables[r][i]).len() == requests.len() by {
            if r < m {
                assert(tables[r] == before[r]);
                assert(before[r][i].len() == requests.len());
            } else {
                assert(last[i].len() == requests.len());
            }
        }
        assert forall|r: int| 0 <= r < n implies (#[trigger] tables[r]).len() == rows by {
            if r < m {
                assert(tables[r] == before[r]);
            }
        }
    }
}

/// What a search draws, and in what order: for each particle a position with one coordinate
/// after the other between its bounds; then for each particle a velocity, between minus and
/// plus a tenth of the distance of the bounds; then round by round, particle by particle
/// and coordinate by coordinate two fractions. The state that is left is that after the
/// last of these.
pub proof fn law_draws_in_order<S>(
    f: Arith,
    g: Source<S>,
    s: S,
    lower: Seq<Real>,
    upper: Seq<Real>,
    n_particles: nat,
    n_iters: nat,
)
    ensures
        ({
            let dims = if lower.len() <= upper.len() {
                lower.len()
            } else {
                upper.len()
            };
            let positions = Seq::new(dims, |d: int| Draw::Between(lower[d], upper[d]));
            let velocities = Seq::new(
                dims,
                |d: int|
                    Draw::Between(
                        f(Op::Mul(MINUS_TENTH, f(Op::Sub(upper[d], lower[d])))),
                        f(Op::Mul(TENTH, f(Op::Sub(upper[d], lower[d])))),
                    ),
            );
            let kicks = Seq::new(2 * dims, |d: int| Draw::Unit);
            let (after, draws) = drawn_swarm(f, g, s, lower, upper, n_particles, n_iters);
            let all = repeated(positions, n_particles) + repeated(velocities, n_particles)
                + repeated(kicks, n_iters * n_particles);
            &&& drawn(g, s, all) == (
                after,
                joined(draws.positions) + joined(draws.velocities) + stacked(draws.kicks),
            )
            &&& draws.positions.len() == n_particles
            &&& draws.velocities.len() == n_particles
            &&& draws.kicks.len() == n_iters
            &&& forall|i: int| 0 <= i < n_particles ==> (#[trigger] draws.positions[i]).len() == dims
            &&& forall|i: int|
                0 <= i < n_particles ==> (#[trigger] draws.velocities[i]).len() == dims
            &&& forall|r: int| 0 <= r < n_iters ==> (#[trigger] draws.kicks[r]).len() == n_particles
            &&& forall|r: int, i: int|
                0 <= r < n_iters && 0 <= i < n_particles ==> (#[trigger] draws.kicks[r][i]).len()
                    == 2 * dims
        }),
{
    let (ps, vs, ks) = (
        position_requests(lower, upper),
        velocity_requests(f, lower, upper),
        kick_requests(bounded(lower, upper)),
    );
    let dims = bounded(lower, upper);
    assert(ps =~= Seq::new(dims, |d: int| Draw::Between(lower[d], upper[d])));
    assert(vs =~= Seq::new(
        dims,
        |d: int|
            Draw::Between(
                f(Op::Mul(MINUS_TENTH, f(Op::Sub(upper[d], lower[d])))),
                f(Op::Mul(TENTH, f(Op::Sub(upper[d], lower[d])))),
            ),
    ));
    assert(ks =~= Seq::new(2 * dims, |d: int| Draw::Unit));
    let (s1, positions) = drawn_table(g, s, ps, n_particles);
    let (s2, velocities) = drawn_table(g, s1, vs, n_particles);
    lemma_table_joined(g, s, ps, n_particles);
    lemma_table_joined(g, s1, vs, n_particles);
    lemma_tables_stacked(g, s2, ks, n_particles, n_iters);
    let (a, b, c) = (
        repeated(ps, n_particles),
        repeated(vs, n_particles),
        repeated(ks, n_iters * n_particles),
    );
    law_drawn_in_sequence(g, s, a, b, Draw::Unit);
    law_drawn_in_sequence(g, s, a + b, c, Draw::Unit);
}

/// A search returns what the swarm remembers after its rounds on the numbers that it drew,
/// and the state after the draws.
pub proof fn law_found_is_remembered<S>(
    f: Arith,
    g: Source<S>,
    s: S,
    observations: Seq<SbplObs>,
    lower: Seq<Real>,
    upper: Seq<Real>,
    n_particles: nat,
    n_iters: nat,
)
    ensures
        ({
            let (after, draws) = drawn_swarm(f, g, s, lower, upper, n_particles, n_iters);
            let end = searched(f, observations, lower, upper, draws, n_iters);
            found(f, g, s, observations, lower, upper, n_particles, n_iters) == (
                after,
                end.best_pos,
                end.best_cost,
            )
        }),
{
}

/// What a search asks for can be drawn exactly where, along each coordinate with both
/// bounds, these are finite and in order with a finite distance, and so are minus and plus a
/// tenth of it.
pub proof fn law_drawable_by_coordinate(f: Arith, lower: Seq<Real>, upper: Seq<Real>)
    ensures
        drawable(f, lower, upper) <==> forall|d: int|
            #![trigger lower[d]]
            0 <= d < lower.len() && d < upper.len() ==> {
                let span = f(Op::Sub(upper[d], lower[d]));
                let (slow, fast) = (f(Op::Mul(MINUS_TENTH, span)), f(Op::Mul(TENTH, span)));
                &&& finite(lower[d]) && finite(upper[d]) && less(lower[d], upper[d])
                &&& finite(span)
                &&& finite(slow) && finite(fast) && less(slow, fast)
                &&& finite(f(Op::Sub(fast, slow)))
            },
{
    if drawable(f, lower, upper) {
        assert forall|d: int|
            #![trigger lower[d]]
            0 <= d < lower.len() && d < upper.len() implies {
            let span = f(Op::Sub(upper[d], lower[d]));
            let (slow, fast) = (f(Op::Mul(MINUS_TENTH, span)), f(Op::Mul(TENTH, span)));
            &&& finite(lower[d]) && finite(upper[d]) && less(lower[d], upper[d])
            &&& finite(span)
            &&& finite(slow) && finite(fast) && less(slow, fast)
            &&& finite(f(Op::Sub(fast, slow)))
        } by {
            assert(drawable_along(f, lower, upper, d));
        }
    }
}

} // verus!
