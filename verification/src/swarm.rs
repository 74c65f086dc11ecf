//! Global search by a particle swarm in physical parameters.

use vstd::prelude::*;

use crate::arith::{apply, implements, total, Arith, Op};
use crate::cost::{cost, SbplCost, SbplObs, N_PARAMS};
use crate::word::{clamp, clamped, finite, is_finite, less, lt, Real, MINUS_TENTH, TENTH};

verus! {

/// How much of its velocity a particle keeps.
pub const INERTIA: Real = 0x3fe7_5a85_8793_dd98;

/// How strongly a particle is drawn to its own best position.
pub const COGNITIVE_PULL: Real = 0x3ff7_f06f_6944_6738;

/// How strongly a particle is drawn to the best position of the swarm.
pub const SOCIAL_PULL: Real = 0x3ff7_f06f_6944_6738;

/// A random number that the search asks for.
#[derive(Clone, Copy, Debug)]
pub enum Draw {
    /// Uniform in [0, 1).
    Unit,
    /// Uniform from the first bound up to the second.
    Between(Real, Real),
}

/// A mathematical function that gives a random source in a state its answer to a request
/// and its next state.
pub type Source<S> = spec_fn(S, Draw) -> (S, Real);

/// All random numbers of one search.
#[derive(Debug)]
pub struct SwarmDraws {
    /// The first position of each particle.
    pub positions: Vec<Vec<Real>>,
    /// The first velocity of each particle.
    pub velocities: Vec<Vec<Real>>,
    /// For each round, each particle and each coordinate, two factors of the move: that of
    /// the pull to the particle's own best position, then that of the pull to the swarm's.
    pub kicks: Vec<Vec<Vec<Real>>>,
}

/// The random numbers of one search as mathematical sequences.
pub struct SwarmDrawsView {
    pub positions: Seq<Seq<Real>>,
    pub velocities: Seq<Seq<Real>>,
    pub kicks: Seq<Seq<Seq<Real>>>,
}

/// One particle of the swarm.
#[derive(Debug)]
pub struct Particle {
    /// Where the particle is.
    pub pos: Vec<Real>,
    /// What its last move added to its position.
    pub vel: Vec<Real>,
    /// The cheapest position that it has been at.
    pub best_pos: Vec<Real>,
    /// The cost there.
    pub best_cost: Real,
}

/// The swarm.
#[derive(Debug)]
pub struct Swarm {
    /// The particles.
    pub particles: Vec<Particle>,
    /// The cheapest position that any particle has been at.
    pub best_pos: Vec<Real>,
    /// The cost there.
    pub best_cost: Real,
}

/// A particle as mathematical sequences.
pub struct ParticleView {
    pub pos: Seq<Real>,
    pub vel: Seq<Real>,
    pub best_pos: Seq<Real>,
    pub best_cost: Real,
}

/// A swarm as mathematical sequences.
pub struct SwarmView {
    pub particles: Seq<ParticleView>,
    pub best_pos: Seq<Real>,
    pub best_cost: Real,
}

/// A table as mathematical sequences.
pub open spec fn rows<T>(table: Seq<Vec<T>>) -> Seq<Seq<T>> {
    Seq::new(table.len(), |i: int| table[i]@)
}

impl View for SwarmDraws {
    type V = SwarmDrawsView;

    open spec fn view(&self) -> SwarmDrawsView {
        SwarmDrawsView {
            positions: rows(self.positions@),
            velocities: rows(self.velocities@),
            kicks: Seq::new(self.kicks@.len(), |r: int| rows(self.kicks@[r]@)),
        }
    }
}

impl View for Particle {
    type V = ParticleView;

    open spec fn view(&self) -> ParticleView {
        ParticleView {
            pos: self.pos@,
            vel: self.vel@,
            best_pos: self.best_pos@,
            best_cost: self.best_cost,
        }
    }
}

impl View for Swarm {
    type V = SwarmView;

    open spec fn view(&self) -> SwarmView {
        SwarmView {
            particles: Seq::new(self.particles@.len(), |i: int| self.particles@[i]@),
            best_pos: self.best_pos@,
            best_cost: self.best_cost,
        }
    }
}

/// A request that has an answer: for a range, finite bounds in ascending order with a
/// finite distance.
pub open spec fn answerable(f: Arith, q: Draw) -> bool {
    match q {
        Draw::Unit => true,
        Draw::Between(lo, hi) => finite(lo) && finite(hi) && less(lo, hi) && finite(
            f(Op::Sub(hi, lo)),
        ),
    }
}

/// The source answers, in every state, every request that has an answer.
pub open spec fn answers_all<S, D: Fn(S, Draw) -> (S, Real)>(draw: D, f: Arith) -> bool {
    forall|s: S, q: Draw| answerable(f, q) ==> #[trigger] call_requires(draw, (s, q))
}

/// The source answers each of these requests in every state.
pub open spec fn accepts<S, D: Fn(S, Draw) -> (S, Real)>(draw: D, requests: Seq<Draw>) -> bool {
    forall|s: S, d: int|
        0 <= d < requests.len() ==> #[trigger] call_requires(draw, (s, requests[d]))
}

/// Whatever the source answers is what `g` gives.
pub open spec fn generates<S, D: Fn(S, Draw) -> (S, Real)>(draw: D, g: Source<S>) -> bool {
    forall|s: S, q: Draw, r: (S, Real)| #[trigger] call_ensures(draw, (s, q), r) ==> r == g(s, q)
}

/// The answers to the requests, one after the other, and the state after the last.
pub open spec fn drawn<S>(g: Source<S>, s: S, requests: Seq<Draw>) -> (S, Seq<Real>)
    decreases requests.len(),
{
    if requests.len() == 0 {
        (s, Seq::empty())
    } else {
        let before = drawn(g, s, requests.drop_last());
        let next = g(before.0, requests.last());
        (next.0, before.1.push(next.1))
    }
}

/// The answers to the same requests `n` times over, and the state after the last.
pub open spec fn drawn_table<S>(g: Source<S>, s: S, requests: Seq<Draw>, n: nat) -> (
    S,
    Seq<Seq<Real>>,
)
    decreases n,
{
    if n == 0 {
        (s, Seq::empty())
    } else {
        let before = drawn_table(g, s, requests, (n - 1) as nat);
        let next = drawn(g, before.0, requests);
        (next.0, before.1.push(next.1))
    }
}

/// `n` tables of answers to the same requests, and the state after the last.
pub open spec fn drawn_tables<S>(g: Source<S>, s: S, requests: Seq<Draw>, rows: nat, n: nat) -> (
    S,
    Seq<Seq<Seq<Real>>>,
)
    decreases n,
{
    if n == 0 {
        (s, Seq::empty())
    } else {
        let before = drawn_tables(g, s, requests, rows, (n - 1) as nat);
        let next = drawn_table(g, before.0, requests, rows);
        (next.0, before.1.push(next.1))
    }
}

/// How many coordinates have both bounds.
pub open spec fn bounded(lower: Seq<Real>, upper: Seq<Real>) -> nat {
    if lower.len() <= upper.len() {
        lower.len()
    } else {
        upper.len()
    }
}

/// The first positions are drawn between the bounds.
pub open spec fn position_requests(lower: Seq<Real>, upper: Seq<Real>) -> Seq<Draw> {
    Seq::new(bounded(lower, upper), |d: int| Draw::Between(lower[d], upper[d]))
}

/// The first velocities are drawn from a tenth of the span, in either direction.
pub open spec fn velocity_requests(f: Arith, lower: Seq<Real>, upper: Seq<Real>) -> Seq<Draw> {
    Seq::new(
        bounded(lower, upper),
        |d: int|
            {
                let span = f(Op::Sub(upper[d], lower[d]));
                Draw::Between(f(Op::Mul(MINUS_TENTH, span)), f(Op::Mul(TENTH, span)))
            },
    )
}

/// Position and velocity can be drawn along coordinate `d`.
pub open spec fn drawable_along(f: Arith, lower: Seq<Real>, upper: Seq<Real>, d: int) -> bool {
    answerable(f, position_requests(lower, upper)[d]) && answerable(
        f,
        velocity_requests(f, lower, upper)[d],
    )
}

/// The positions and velocities that a search asks for can be drawn.
pub open spec fn drawable(f: Arith, lower: Seq<Real>, upper: Seq<Real>) -> bool {
    forall|d: int| 0 <= d < bounded(lower, upper) ==> #[trigger] drawable_along(f, lower, upper, d)
}

/// A move takes two factors per coordinate.
pub open spec fn kick_requests(dims: nat) -> Seq<Draw> {
    Seq::new(2 * dims, |d: int| Draw::Unit)
}

/// The random numbers of a search, and the state after them: all positions, then all
/// velocities, then the factors round by round, particle by particle and coordinate by
/// coordinate.
pub open spec fn drawn_swarm<S>(
    f: Arith,
    g: Source<S>,
    s: S,
    lower: Seq<Real>,
    upper: Seq<Real>,
    n_particles: nat,
    n_iters: nat,
) -> (S, SwarmDrawsView) {
    let (s1, positions) = drawn_table(g, s, position_requests(lower, upper), n_particles);
    let (s2, velocities) = drawn_table(g, s1, velocity_requests(f, lower, upper), n_particles);
    let (s3, kicks) = drawn_tables(
        g,
        s2,
        kick_requests(bounded(lower, upper)),
        n_particles,
        n_iters,
    );
    (s3, SwarmDrawsView { positions, velocities, kicks })
}

/// The rows are `n` many, each `columns` long.
pub open spec fn shaped<T>(table: Seq<Seq<T>>, n: nat, columns: nat) -> bool {
    table.len() == n && forall|i: int| 0 <= i < n ==> (#[trigger] table[i]).len() == columns
}

impl SwarmDrawsView {
    /// The draws serve `particles` particles in `dims` dimensions for `rounds` rounds.
    pub open spec fn serves(&self, particles: nat, rounds: nat, dims: nat) -> bool {
        &&& shaped(self.positions, particles, dims)
        &&& shaped(self.velocities, particles, dims)
        &&& self.kicks.len() == rounds
        &&& forall|r: int|
            0 <= r < rounds ==> shaped(#[trigger] self.kicks[r], particles, 2 * dims)
    }
}

/// The velocity of one coordinate after a move: some of the old one, a pull to the
/// particle's own best position and a pull to the swarm's.
pub open spec fn steered(
    f: Arith,
    vel: Real,
    pos: Real,
    own_best: Real,
    swarm_best: Real,
    own_kick: Real,
    social_kick: Real,
) -> Real {
    let kept = f(Op::Mul(INERTIA, vel));
    let own = f(Op::Mul(f(Op::Mul(COGNITIVE_PULL, own_kick)), f(Op::Sub(own_best, pos))));
    let social = f(Op::Mul(f(Op::Mul(SOCIAL_PULL, social_kick)), f(Op::Sub(swarm_best, pos))));
    f(Op::Add(f(Op::Add(kept, own)), social))
}

/// The velocity of a particle after a move.
pub open spec fn next_vel(
    f: Arith,
    p: ParticleView,
    swarm_best: Seq<Real>,
    kicks: Seq<Real>,
    dims: nat,
) -> Seq<Real> {
    Seq::new(
        dims,
        |d: int|
            steered(
                f,
                p.vel[d],
                p.pos[d],
                p.best_pos[d],
                swarm_best[d],
                kicks[2 * d],
                kicks[2 * d + 1],
            ),
    )
}

/// The position of a particle after a move with the velocity `vel`.
pub open spec fn next_pos(
    f: Arith,
    lower: Seq<Real>,
    upper: Seq<Real>,
    pos: Seq<Real>,
    vel: Seq<Real>,
) -> Seq<Real> {
    Seq::new(
        bounded(lower, upper),
        |d: int| clamped(f(Op::Add(pos[d], vel[d])), lower[d], upper[d]),
    )
}

/// A particle that has arrived at `pos`, where the cost is `cost_there`.
pub open spec fn arrived(
    p: ParticleView,
    pos: Seq<Real>,
    vel: Seq<Real>,
    cost_there: Real,
) -> ParticleView {
    if less(cost_there, p.best_cost) {
        ParticleView { pos, vel, best_pos: pos, best_cost: cost_there }
    } else {
        ParticleView { pos, vel, best_pos: p.best_pos, best_cost: p.best_cost }
    }
}

/// The swarm after particle `i` has moved.
pub open spec fn advanced(
    f: Arith,
    observations: Seq<SbplObs>,
    lower: Seq<Real>,
    upper: Seq<Real>,
    s: SwarmView,
    i: int,
    kicks: Seq<Real>,
) -> SwarmView {
    let p = s.particles[i];
    let vel = next_vel(f, p, s.best_pos, kicks, bounded(lower, upper));
    let pos = next_pos(f, lower, upper, p.pos, vel);
    let cost_there = cost(f, observations, pos);
    let particles = s.particles.update(i, arrived(p, pos, vel, cost_there));
    if less(cost_there, s.best_cost) {
        SwarmView { particles, best_pos: pos, best_cost: cost_there }
    } else {
        SwarmView { particles, best_pos: s.best_pos, best_cost: s.best_cost }
    }
}

/// The swarm after its first `n` particles have moved, one after the other.
pub open spec fn part_round(
    f: Arith,
    observations: Seq<SbplObs>,
    lower: Seq<Real>,
    upper: Seq<Real>,
    s: SwarmView,
    kicks: Seq<Seq<Real>>,
    n: nat,
) -> SwarmView
    decreases n,
{
    if n == 0 {
        s
    } else {
        advanced(
            f,
            observations,
            lower,
            upper,
            part_round(f, observations, lower, upper, s, kicks, (n - 1) as nat),
            n - 1,
            kicks[n - 1],
        )
    }
}

/// The first of the cheapest among the first `n` costs. A first cost that is not a
/// number stays the choice.
pub open spec fn cheapest(costs: Seq<Real>, n: nat) -> int
    decreases n,
{
    if n <= 1 {
        0
    } else {
        let before = cheapest(costs, (n - 1) as nat);
        if less(costs[n - 1], costs[before]) {
            n - 1
        } else {
            before
        }
    }
}

/// The swarm before the first round.
pub open spec fn launched(f: Arith, observations: Seq<SbplObs>, draws: SwarmDrawsView) -> SwarmView {
    let particles = Seq::new(
        draws.positions.len(),
        |i: int|
            ParticleView {
                pos: draws.positions[i],
                vel: draws.velocities[i],
                best_pos: draws.positions[i],
                best_cost: cost(f, observations, draws.positions[i]),
            },
    );
    let leader = particles[cheapest(
        Seq::new(particles.len(), |i: int| particles[i].best_cost),
        particles.len(),
    )];
    SwarmView { particles, best_pos: leader.pos, best_cost: leader.best_cost }
}

/// The swarm after `n` rounds.
pub open spec fn searched(
    f: Arith,
    observations: Seq<SbplObs>,
    lower: Seq<Real>,
    upper: Seq<Real>,
    draws: SwarmDrawsView,
    n: nat,
) -> SwarmView
    decreases n,
{
    if n == 0 {
        launched(f, observations, draws)
    } else {
        part_round(
            f,
            observations,
            lower,
            upper,
            searched(f, observations, lower, upper, draws, (n - 1) as nat),
            draws.kicks[n - 1],
            draws.positions.len(),
        )
    }
}

/// What a search finds that starts with the source in state `s`: the state after it, the
/// best position and its cost.
pub open spec fn found<S>(
    f: Arith,
    g: Source<S>,
    s: S,
    observations: Seq<SbplObs>,
    lower: Seq<Real>,
    upper: Seq<Real>,
    n_particles: nat,
    n_iters: nat,
) -> (S, Seq<Real>, Real) {
    let (after, draws) = drawn_swarm(f, g, s, lower, upper, n_particles, n_iters);
    let end = searched(f, observations, lower, upper, draws, n_iters);
    (after, end.best_pos, end.best_cost)
}

/// Each lower bound is below the upper bound of the same coordinate.
pub open spec fn ordered(lower: Seq<Real>, upper: Seq<Real>) -> bool {
    forall|d: int| 0 <= d < bounded(lower, upper) ==> less(#[trigger] lower[d], upper[d])
}

/// Bounds between which positions can be drawn are in order.
pub proof fn lemma_drawable_ordered(f: Arith, lower: Seq<Real>, upper: Seq<Real>)
    requires
        drawable(f, lower, upper),
    ensures
        ordered(lower, upper),
{
    assert forall|d: int| 0 <= d < bounded(lower, upper) implies less(
        #[trigger] lower[d],
        upper[d],
    ) by {
        assert(drawable_along(f, lower, upper, d));
    }
}

/// Whether a range has an answer.
fn is_answerable<A: Fn(Op) -> Real>(lo: Real, hi: Real, alu: &A) -> (r: bool)
    requires
        total(*alu),
    ensures
        forall|f: Arith| #[trigger] implements(*alu, f) ==> r == answerable(f, Draw::Between(lo, hi)),
{
    let width: Real = apply(alu, Op::Sub(hi, lo));
    is_finite(lo) && is_finite(hi) && lt(lo, hi) && is_finite(width)
}

/// How many coordinates have both bounds.
fn shorter_len(lower: &Vec<Real>, upper: &Vec<Real>) -> (r: usize)
    ensures
        r == bounded(lower@, upper@),
{
    if lower.len() <= upper.len() {
        lower.len()
    } else {
        upper.len()
    }
}

/// Whether the positions and velocities that a search between the bounds asks for can be
/// drawn.
pub fn is_drawable<A: Fn(Op) -> Real>(lower: &Vec<Real>, upper: &Vec<Real>, alu: &A) -> (r: bool)
    requires
        total(*alu),
    ensures
        forall|f: Arith| #[trigger] implements(*alu, f) ==> r == drawable(f, lower@, upper@),
{
    let n_dim: usize = shorter_len(lower, upper);
    let mut r: bool = true;
    let mut d: usize = 0;
    while d < n_dim
        invariant
            total(*alu),
            n_dim == bounded(lower@, upper@),
            d <= n_dim,
            forall|f: Arith| #[trigger]
                implements(*alu, f) ==> r == (forall|e: int|
                    0 <= e < d ==> #[trigger] drawable_along(f, lower@, upper@, e)),
        decreases n_dim - d,
    {
        let span: Real = apply(alu, Op::Sub(upper[d], lower[d]));
        let slowest: Real = apply(alu, Op::Mul(MINUS_TENTH, span));
        let fastest: Real = apply(alu, Op::Mul(TENTH, span));
        let here: bool = is_answerable(lower[d], upper[d], alu);
        let there: bool = is_answerable(slowest, fastest, alu);
        r = r && here && there;
        assert forall|f: Arith| #[trigger] implements(*alu, f) implies r == (forall|e: int|
            0 <= e < d + 1 ==> #[trigger] drawable_along(f, lower@, upper@, e)) by {
            assert((here && there) == drawable_along(f, lower@, upper@, d as int));
        }
        d = d + 1;
    }
    r
}

/// Draws the answers to `requests`, `n` times over.
fn draw_table<S, D: Fn(S, Draw) -> (S, Real)>(
    requests: &Vec<Draw>,
    n: usize,
    rng: S,
    draw: &D,
) -> (r: (S, Vec<Vec<Real>>))
    requires
        accepts(*draw, requests@),
    ensures
        shaped(rows(r.1@), n as nat, requests@.len()),
        forall|g: Source<S>| #[trigger]
            generates(*draw, g) ==> (r.0, rows(r.1@)) == drawn_table(
                g,
                rng,
                requests@,
                n as nat,
            ),
{
    let ghost start = rng;
    let columns: usize = requests.len();
    let mut state: S = rng;
    let mut table: Vec<Vec<Real>> = Vec::new();
    let mut i: usize = 0;
    assert(rows(table@) =~= Seq::empty());
    while i < n
        invariant
            accepts(*draw, requests@),
            columns == requests@.len(),
            i <= n,
            shaped(rows(table@), i as nat, columns as nat),
            forall|g: Source<S>| #[trigger]
                generates(*draw, g) ==> (state, rows(table@)) == drawn_table(
                    g,
                    start,
                    requests@,
                    i as nat,
                ),
        decreases n - i,
    {
        let ghost row_start = state;
        let ghost before = rows(table@);
        let mut row: Vec<Real> = Vec::new();
        let mut d: usize = 0;
        while d < columns
            invariant
                accepts(*draw, requests@),
                columns == requests@.len(),
                d <= columns,
                row@.len() == d,
                forall|g: Source<S>| #[trigger]
                    generates(*draw, g) ==> (state, row@) == drawn(
                        g,
                        row_start,
                        requests@.take(d as int),
                    ),
            decreases columns - d,
        {
            assert(call_requires(*draw, (state, requests@[d as int])));
            let (next, x): (S, Real) = draw(state, requests[d]);
            state = next;
            row.push(x);
            assert(requests@.take(d + 1).drop_last() == requests@.take(d as int));
            d = d + 1;
        }
        assert(requests@.take(columns as int) == requests@);
        table.push(row);
        assert(rows(table@) =~= before.push(row@));
        i = i + 1;
    }
    (state, table)
}

/// Draws the random numbers of one search.
pub fn draw_swarm<S, D: Fn(S, Draw) -> (S, Real), A: Fn(Op) -> Real>(
    lower: &Vec<Real>,
    upper: &Vec<Real>,
    n_particles: usize,
    n_iters: usize,
    rng: S,
    draw: &D,
    alu: &A,
) -> (r: (S, SwarmDraws))
    requires
        total(*alu),
        exists|f: Arith| #[trigger] implements(*alu, f),
        forall|f: Arith| #[trigger]
            implements(*alu, f) ==> answers_all(*draw, f) && drawable(f, lower@, upper@),
    ensures
        r.1@.serves(n_particles as nat, n_iters as nat, bounded(lower@, upper@)),
        forall|f: Arith, g: Source<S>|
            #![trigger implements(*alu, f), generates(*draw, g)]
            implements(*alu, f) && generates(*draw, g) ==> (r.0, r.1@) == drawn_swarm(
                f,
                g,
                rng,
                lower@,
                upper@,
                n_particles as nat,
                n_iters as nat,
            ),
{
    let n_dim: usize = shorter_len(lower, upper);
    let mut positions_wanted: Vec<Draw> = Vec::new();
    let mut velocities_wanted: Vec<Draw> = Vec::new();
    let mut kicks_wanted: Vec<Draw> = Vec::new();
    let mut d: usize = 0;
    while d < n_dim
        invariant
            total(*alu),
            n_dim == bounded(lower@, upper@),
            d <= n_dim,
            positions_wanted@ == position_requests(lower@, upper@).take(d as int),
            kicks_wanted@ =~= kick_requests(d as nat),
            velocities_wanted.len() == d,
            forall|f: Arith| #[trigger]
                implements(*alu, f) ==> forall|e: int|
                    0 <= e < d ==> #[trigger] velocities_wanted@[e] == velocity_requests(
                        f,
                        lower@,
                        upper@,
                    )[e],
        decreases n_dim - d,
    {
        positions_wanted.push(Draw::Between(lower[d], upper[d]));
        let span: Real = apply(alu, Op::Sub(upper[d], lower[d]));
        let slowest: Real = apply(alu, Op::Mul(MINUS_TENTH, span));
        let fastest: Real = apply(alu, Op::Mul(TENTH, span));
        velocities_wanted.push(Draw::Between(slowest, fastest));
        kicks_wanted.push(Draw::Unit);
        kicks_wanted.push(Draw::Unit);
        d = d + 1;
    }
    assert(positions_wanted@ =~= position_requests(lower@, upper@));
    assert forall|f: Arith| #[trigger] implements(*alu, f) implies velocities_wanted@
        == velocity_requests(f, lower@, upper@) by {}
    proof {
        let f = choose|f: Arith| #[trigger] implements(*alu, f);
        assert(answers_all(*draw, f) && drawable(f, lower@, upper@));
        assert forall|s: S, d: int| 0 <= d < n_dim implies #[trigger] call_requires(
            *draw,
            (s, positions_wanted@[d]),
        ) by {
            assert(drawable_along(f, lower@, upper@, d));
        }
        assert forall|s: S, d: int| 0 <= d < n_dim implies #[trigger] call_requires(
            *draw,
            (s, velocities_wanted@[d]),
        ) by {
            assert(drawable_along(f, lower@, upper@, d));
        }
        assert forall|s: S, d: int| 0 <= d < kicks_wanted@.len() implies #[trigger] call_requires(
            *draw,
            (s, kicks_wanted@[d]),
        ) by {
            assert(answerable(f, kicks_wanted@[d]));
        }
    }
    let (rng1, positions): (S, Vec<Vec<Real>>) = draw_table(
        &positions_wanted,
        n_particles,
        rng,
        draw,
    );
    let (rng2, velocities): (S, Vec<Vec<Real>>) = draw_table(
        &velocities_wanted,
        n_particles,
        rng1,
        draw,
    );
    let ghost state2 = rng2;
    let mut state: S = rng2;
    let mut kicks: Vec<Vec<Vec<Real>>> = Vec::new();
    let mut round: usize = 0;
    assert(Seq::new(kicks@.len(), |r: int| rows(kicks@[r]@)) =~= Seq::empty());
    while round < n_iters
        invariant
            accepts(*draw, kicks_wanted@),
            round <= n_iters,
            kicks_wanted@ == kick_requests(n_dim as nat),
            kicks@.len() == round,
            forall|r: int|
                0 <= r < round ==> shaped(
                    rows((#[trigger] kicks@[r])@),
                    n_particles as nat,
                    2 * n_dim as nat,
                ),
            forall|g: Source<S>| #[trigger]
                generates(*draw, g) ==> (
                    state,
                    Seq::new(kicks@.len(), |r: int| rows(kicks@[r]@)),
                ) == drawn_tables(
                    g,
                    state2,
                    kick_requests(n_dim as nat),
                    n_particles as nat,
                    round as nat,
                ),
        decreases n_iters - round,
    {
        let ghost before = Seq::new(kicks@.len(), |r: int| rows(kicks@[r]@));
        let (next, table): (S, Vec<Vec<Real>>) = draw_table(
            &kicks_wanted,
            n_particles,
            state,
            draw,
        );
        state = next;
        kicks.push(table);
        assert(Seq::new(kicks@.len(), |r: int| rows(kicks@[r]@)) =~= before.push(rows(table@)));
        round = round + 1;
    }
    (state, SwarmDraws { positions, velocities, kicks })
}

/// Places the particles and finds their leader.
fn launch<A: Fn(Op) -> Real>(problem: &SbplCost, draws: &SwarmDraws, alu: &A) -> (r: Swarm)
    requires
        total(*alu),
        draws.positions.len() >= 1,
        shaped(draws@.velocities, draws.positions@.len(), draws.positions@[0]@.len()),
        shaped(draws@.positions, draws.positions@.len(), draws.positions@[0]@.len()),
        draws.positions@[0]@.len() >= N_PARAMS,
    ensures
        r.particles.len() == draws.positions.len(),
        r.spans(draws.positions@[0]@.len()),
        forall|f: Arith| #[trigger]
            implements(*alu, f) ==> r@ == launched(f, problem.observations@, draws@),
{
    let n: usize = draws.positions.len();
    let ghost obs = problem.observations@;
    let mut particles: Vec<Particle> = Vec::new();
    let mut leader: usize = 0;
    let mut i: usize = 0;
    while i < n
        invariant
            total(*alu),
            obs == problem.observations@,
            n == draws.positions.len(),
            n >= 1,
            shaped(draws@.velocities, n as nat, draws.positions@[0]@.len()),
            shaped(draws@.positions, n as nat, draws.positions@[0]@.len()),
            draws.positions@[0]@.len() >= N_PARAMS,
            i <= n,
            particles.len() == i,
            i == 0 ==> leader == 0,
            i > 0 ==> leader < i,
            forall|k: int|
                0 <= k < i ==> (#[trigger] particles@[k]).pos@ == draws.positions@[k]@
                    && particles@[k].best_pos@ == draws.positions@[k]@ && particles@[k].vel@
                    == draws.velocities@[k]@,
            forall|f: Arith| #[trigger]
                implements(*alu, f) ==> forall|k: int|
                    0 <= k < i ==> (#[trigger] particles@[k]).best_cost == cost(
                        f,
                        obs,
                        draws.positions@[k]@,
                    ),
            forall|f: Arith| #[trigger]
                implements(*alu, f) ==> leader == cheapest(
                    Seq::new(n as nat, |k: int| cost(f, obs, draws.positions@[k]@)),
                    i as nat,
                ),
        decreases n - i,
    {
        let pos: Vec<Real> = draws.positions[i].clone();
        let best_pos: Vec<Real> = draws.positions[i].clone();
        let vel: Vec<Real> = draws.velocities[i].clone();
        assert(pos@ == draws.positions@[i as int]@);
        assert(best_pos@ == draws.positions@[i as int]@);
        assert(vel@ == draws.velocities@[i as int]@);
        assert(draws@.positions[i as int].len() == draws.positions@[0]@.len());
        let best_cost: Real = problem.eval(&pos, alu);
        if i > 0 && lt(best_cost, particles[leader].best_cost) {
            leader = i;
        }
        particles.push(Particle { pos, vel, best_pos, best_cost });
        i = i + 1;
    }
    let best_pos: Vec<Real> = particles[leader].pos.clone();
    assert(best_pos@ == draws.positions@[leader as int]@);
    let best_cost: Real = particles[leader].best_cost;
    let swarm = Swarm { particles, best_pos, best_cost };
    assert forall|k: int| 0 <= k < n implies draws.positions@[k]@.len()
        == draws.positions@[0]@.len() && draws.velocities@[k]@.len()
        == draws.positions@[0]@.len() by {
        assert(draws@.positions[k].len() == draws@.velocities[k].len());
    }
    assert forall|f: Arith| #[trigger] implements(*alu, f) implies swarm@ == launched(
        f,
        obs,
        draws@,
    ) by {
        let goal = launched(f, obs, draws@);
        assert(swarm@.particles =~= goal.particles);
        assert(Seq::new(goal.particles.len(), |k: int| goal.particles[k].best_cost) =~= Seq::new(
            n as nat,
            |k: int| cost(f, obs, draws.positions@[k]@),
        ));
    }
    swarm
}

impl Swarm {
    /// Moves particle `i` and records where it arrives.
    fn advance<A: Fn(Op) -> Real>(
        &mut self,
        i: usize,
        problem: &SbplCost,
        lower: &Vec<Real>,
        upper: &Vec<Real>,
        kicks: &Vec<Real>,
        alu: &A,
    )
        requires
            total(*alu),
            i < old(self).particles.len(),
            old(self).spans(lower@.len()),
            N_PARAMS <= lower.len() <= upper.len(),
            ordered(lower@, upper@),
            kicks.len() == 2 * lower.len(),
        ensures
            final(self).particles.len() == old(self).particles.len(),
            final(self).spans(lower@.len()),
            forall|f: Arith| #[trigger]
                implements(*alu, f) ==> final(self)@ == advanced(
                    f,
                    problem.observations@,
                    lower@,
                    upper@,
                    old(self)@,
                    i as int,
                    kicks@,
                ),
    {
        let ghost before = self@;
        let n_dim: usize = lower.len();
        let mut vel: Vec<Real> = Vec::new();
        let mut pos: Vec<Real> = Vec::new();
        let mut d: usize = 0;
        while d < n_dim
            invariant
                total(*alu),
                i < self.particles.len(),
                self.spans(n_dim as nat),
                self@ == before,
                n_dim == lower.len(),
                n_dim <= upper.len(),
                ordered(lower@, upper@),
                kicks.len() == 2 * n_dim,
                d <= n_dim,
                vel.len() == d,
                pos.len() == d,
                forall|f: Arith| #[trigger]
                    implements(*alu, f) ==> {
                        let p = before.particles[i as int];
                        let all = next_vel(f, p, before.best_pos, kicks@, n_dim as nat);
                        &&& vel@ == all.take(d as int)
                        &&& pos@ == next_pos(f, lower@, upper@, p.pos, all).take(d as int)
                    },
            decreases n_dim - d,
        {
            assert(before.particles[i as int] == self.particles@[i as int]@);
            let x: Real = self.particles[i].pos[d];
            let kept: Real = apply(alu, Op::Mul(INERTIA, self.particles[i].vel[d]));
            let own_pull: Real = apply(alu, Op::Mul(COGNITIVE_PULL, kicks[2 * d]));
            let own_way: Real = apply(alu, Op::Sub(self.particles[i].best_pos[d], x));
            let own: Real = apply(alu, Op::Mul(own_pull, own_way));
            let social_pull: Real = apply(alu, Op::Mul(SOCIAL_PULL, kicks[2 * d + 1]));
            let social_way: Real = apply(alu, Op::Sub(self.best_pos[d], x));
            let social: Real = apply(alu, Op::Mul(social_pull, social_way));
            let partial: Real = apply(alu, Op::Add(kept, own));
            let v: Real = apply(alu, Op::Add(partial, social));
            let moved: Real = apply(alu, Op::Add(x, v));
            vel.push(v);
            pos.push(clamp(moved, lower[d], upper[d]));
            assert forall|f: Arith| #[trigger] implements(*alu, f) implies ({
                let p = before.particles[i as int];
                let all = next_vel(f, p, before.best_pos, kicks@, n_dim as nat);
                &&& vel@ == all.take(d + 1)
                &&& pos@ == next_pos(f, lower@, upper@, p.pos, all).take(d + 1)
            }) by {
                let p = before.particles[i as int];
                let all = next_vel(f, p, before.best_pos, kicks@, n_dim as nat);
                let there = next_pos(f, lower@, upper@, p.pos, all);
                assert(all[d as int] == v);
                assert(there[d as int] == clamped(moved, lower@[d as int], upper@[d as int]));
                assert(all.take(d + 1) == all.take(d as int).push(v));
                assert(there.take(d + 1) == there.take(d as int).push(there[d as int]));
            }
            d = d + 1;
        }
        assert forall|f: Arith| #[trigger] implements(*alu, f) implies ({
            let p = before.particles[i as int];
            let all = next_vel(f, p, before.best_pos, kicks@, n_dim as nat);
            &&& vel@ == all
            &&& pos@ == next_pos(f, lower@, upper@, p.pos, all)
        }) by {
            let p = before.particles[i as int];
            let all = next_vel(f, p, before.best_pos, kicks@, n_dim as nat);
            let there = next_pos(f, lower@, upper@, p.pos, all);
            assert(all.take(n_dim as int) == all);
            assert(there.take(n_dim as int) == there);
        }
        let cost_there: Real = problem.eval(&pos, alu);
        let own_better: bool = lt(cost_there, self.particles[i].best_cost);
        let (best_pos, best_cost): (Vec<Real>, Real) = if own_better {
            (pos.clone(), cost_there)
        } else {
            (self.particles[i].best_pos.clone(), self.particles[i].best_cost)
        };
        assert(before.particles[i as int] == self.particles@[i as int]@);
        assert(best_pos@ == if own_better {
            pos@
        } else {
            before.particles[i as int].best_pos
        });
        if lt(cost_there, self.best_cost) {
            self.best_cost = cost_there;
            self.best_pos = pos.clone();
            assert(self.best_pos@ == pos@);
        }
        let ghost arrival = ParticleView { pos: pos@, vel: vel@, best_pos: best_pos@, best_cost };
        self.particles[i] = Particle { pos, vel, best_pos, best_cost };
        assert(self@.particles =~= before.particles.update(i as int, arrival));
    }

    /// Every position and velocity has `dims` coordinates.
    pub open spec fn spans(&self, dims: nat) -> bool {
        &&& self.best_pos@.len() == dims
        &&& forall|k: int|
            0 <= k < self.particles@.len() ==> (#[trigger] self.particles@[k]).pos@.len() == dims
                && self.particles@[k].vel@.len() == dims && self.particles@[k].best_pos@.len()
                == dims
    }
}

/// Flies the swarm through the drawn numbers. Returns the best position and its cost.
pub fn fly_swarm<A: Fn(Op) -> Real>(
    problem: &SbplCost,
    lower: &Vec<Real>,
    upper: &Vec<Real>,
    draws: &SwarmDraws,
    alu: &A,
) -> (r: (Vec<Real>, Real))
    requires
        total(*alu),
        N_PARAMS <= lower.len(),
        N_PARAMS <= upper.len(),
        lower.len() <= upper.len() || draws.kicks.len() == 0,
        ordered(lower@, upper@),
        draws.positions.len() >= 1,
        draws@.serves(draws.positions@.len(), draws.kicks@.len(), bounded(lower@, upper@)),
    ensures
        r.0.len() == bounded(lower@, upper@),
        forall|f: Arith| #[trigger]
            implements(*alu, f) ==> {
                let end = searched(
                    f,
                    problem.observations@,
                    lower@,
                    upper@,
                    draws@,
                    draws.kicks@.len(),
                );
                r.0@ == end.best_pos && r.1 == end.best_cost
            },
{
    let ghost obs = problem.observations@;
    let n_particles: usize = draws.positions.len();
    let n_iters: usize = draws.kicks.len();
    let ghost dims = bounded(lower@, upper@);
    assert(draws@.positions[0].len() == dims);
    let mut swarm: Swarm = launch(problem, draws, alu);
    let mut round: usize = 0;
    while round < n_iters
        invariant
            total(*alu),
            obs == problem.observations@,
            N_PARAMS <= lower.len(),
            lower.len() <= upper.len() || n_iters == 0,
            dims == bounded(lower@, upper@),
            ordered(lower@, upper@),
            n_particles == draws.positions@.len(),
            n_iters == draws.kicks@.len(),
            draws@.serves(n_particles as nat, n_iters as nat, dims),
            swarm.particles.len() == n_particles,
            swarm.spans(dims),
            round <= n_iters,
            forall|f: Arith| #[trigger]
                implements(*alu, f) ==> swarm@ == searched(
                    f,
                    obs,
                    lower@,
                    upper@,
                    draws@,
                    round as nat,
                ),
        decreases n_iters - round,
    {
        let kicks: &Vec<Vec<Real>> = &draws.kicks[round];
        let ghost start = swarm@;
        assert(draws@.kicks[round as int] == rows(kicks@));
        let mut i: usize = 0;
        while i < n_particles
            invariant
                total(*alu),
                obs == problem.observations@,
                N_PARAMS <= lower.len() <= upper.len(),
                ordered(lower@, upper@),
                shaped(rows(kicks@), n_particles as nat, 2 * lower@.len()),
                swarm.particles.len() == n_particles,
                swarm.spans(lower@.len()),
                i <= n_particles,
                forall|f: Arith| #[trigger]
                    implements(*alu, f) ==> swarm@ == part_round(
                        f,
                        obs,
                        lower@,
                        upper@,
                        start,
                        rows(kicks@),
                        i as nat,
                    ),
            decreases n_particles - i,
        {
            assert(rows(kicks@)[i as int] == kicks@[i as int]@);
            swarm.advance(i, problem, lower, upper, &kicks[i], alu);
            i = i + 1;
        }
        round = round + 1;
    }
    (swarm.best_pos, swarm.best_cost)
}

/// Searches between the bounds with `n_particles` particles for `n_iters` rounds, on
/// random numbers from `draw`, which starts in the state `rng`. Returns the state after
/// the search, the best position and its cost.
pub fn pso_search<S, D: Fn(S, Draw) -> (S, Real), A: Fn(Op) -> Real>(
    problem: &SbplCost,
    lower: &Vec<Real>,
    upper: &Vec<Real>,
    n_particles: usize,
    n_iters: usize,
    rng: S,
    draw: &D,
    alu: &A,
) -> (r: (S, Vec<Real>, Real))
    requires
        total(*alu),
        N_PARAMS <= lower.len(),
        N_PARAMS <= upper.len(),
        lower.len() <= upper.len() || n_iters == 0,
        n_particles >= 1,
        exists|f: Arith| #[trigger] implements(*alu, f),
        forall|f: Arith| #[trigger]
            implements(*alu, f) ==> answers_all(*draw, f) && drawable(f, lower@, upper@),
    ensures
        r.1.len() == bounded(lower@, upper@),
        forall|f: Arith, g: Source<S>|
            #![trigger implements(*alu, f), generates(*draw, g)]
            implements(*alu, f) && generates(*draw, g) ==> (r.0, r.1@, r.2) == found(
                f,
                g,
                rng,
                problem.observations@,
                lower@,
                upper@,
                n_particles as nat,
                n_iters as nat,
            ),
{
    let (after, draws): (S, SwarmDraws) = draw_swarm(
        lower,
        upper,
        n_particles,
        n_iters,
        rng,
        draw,
        alu,
    );
    proof {
        let f = choose|f: Arith| #[trigger] implements(*alu, f);
        lemma_drawable_ordered(f, lower@, upper@);
    }
    let (best_pos, best_cost): (Vec<Real>, Real) = fly_swarm(problem, lower, upper, &draws, alu);
    (after, best_pos, best_cost)
}

} // verus!
