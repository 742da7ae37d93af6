use vstd::prelude::*;

use crate::agent::{
    agent_next, amount_per_tick, cell_of, in_field, ink, ink_spec, per_tick, update_agent, Agent,
    Parameters, POSITION_ONE,
};
use crate::angle::ANGLE_TURN;
use crate::field::{
    black, check_dimensions, dimension_error, lemma_diffuse_decay, rgba_bounded, FieldModel,
    TrailField, CHANNEL_ONE,
};
use crate::random::random_below;
use crate::SimError;

verus! {

/// Mathematical model of a simulation: its agents and its current trail field.
pub struct SimModel {
    pub agents: Seq<Agent>,
    pub field: FieldModel,
}

impl SimModel {
    /// A well-formed field with every agent inside it.
    pub open spec fn wf(self) -> bool {
        &&& self.field.wf()
        &&& all_in_field(self.agents, self.field.width, self.field.height)
    }
}

/// Every agent lies inside a field of `width` by `height` cells.
pub open spec fn all_in_field(agents: Seq<Agent>, width: int, height: int) -> bool {
    forall|i: int| 0 <= i < agents.len() ==> in_field(#[trigger] agents[i], width, height)
}

/// The index of the cell that agent `a` stands on.
pub open spec fn deposit_index(f: FieldModel, a: Agent) -> int {
    f.index(cell_of(a.x as int), cell_of(a.y as int))
}

/// Some agent of `agents` stands on cell `j`.
pub open spec fn visited(f: FieldModel, agents: Seq<Agent>, j: int) -> bool {
    exists|i: int| 0 <= i < agents.len() && deposit_index(f, #[trigger] agents[i]) == j
}

/// The field `f` after every agent of `agents` has inked the cell it stands on.
pub open spec fn deposited(f: FieldModel, agents: Seq<Agent>) -> FieldModel {
    FieldModel {
        cells: Seq::new(
            f.cells.len(),
            |j: int|
                if visited(f, agents, j) {
                    ink_spec()
                } else {
                    f.cells[j]
                },
        ),
        ..f
    }
}

/// Every agent after one tick of sensing the snapshot `snapshot`.
pub open spec fn agents_next(p: Parameters, snapshot: FieldModel, agents: Seq<Agent>) -> Seq<Agent> {
    Seq::new(agents.len(), |i: int| agent_next(p, snapshot, i, agents[i]))
}

/// The evaporation of one tick, in channel units.
pub open spec fn evaporation(p: Parameters) -> int {
    per_tick(p.evaporate_speed as int, p.delta_time_ms as int)
}

/// The simulation after one tick: the agents sense the field as it stood before the tick and
/// ink the cells they stood on before moving, and the inked field is diffused.
pub open spec fn step_spec(p: Parameters, s: SimModel) -> SimModel {
    SimModel {
        agents: agents_next(p, s.field, s.agents),
        field: deposited(s.field, s.agents).diffused(evaporation(p)),
    }
}

/// The simulation after one tick for each parameter set of `ps`, in order.
pub open spec fn run_spec(s: SimModel, ps: Seq<Parameters>) -> SimModel
    decreases ps.len(),
{
    if ps.len() == 0 {
        s
    } else {
        step_spec(ps.last(), run_spec(s, ps.drop_last()))
    }
}

/// A cell is visited by the first `i + 1` agents exactly where agent `i` or one of the first
/// `i` stands on it.
proof fn lemma_visited_extend(f: FieldModel, s: Seq<Agent>, i: int, c: int)
    requires
        0 <= i < s.len(),
    ensures
        visited(f, s.take(i + 1), c) == (visited(f, s.take(i), c) || deposit_index(f, s[i]) == c),
{
    assert(s.take(i + 1)[i] == s[i]);
    if visited(f, s.take(i + 1), c) && deposit_index(f, s[i]) != c {
        let k = choose|k: int| 0 <= k < i + 1 && deposit_index(f, #[trigger] s.take(i + 1)[k]) == c;
        assert(s.take(i)[k] == s.take(i + 1)[k]);
    }
    if visited(f, s.take(i), c) {
        let k = choose|k: int| 0 <= k < i && deposit_index(f, #[trigger] s.take(i)[k]) == c;
        assert(s.take(i)[k] == s.take(i + 1)[k]);
    }
}

/// The agent-update stage: each agent senses only `snapshot`, inks its cell of `live`, and is
/// replaced by its state after the tick.
pub fn update_agents(p: &Parameters, snapshot: &TrailField, live: &mut TrailField, agents: &mut Vec<Agent>)
    requires
        snapshot.wf(),
        old(live).wf(),
        all_in_field(old(agents)@, old(live)@.width, old(live)@.height),
    ensures
        final(live).wf(),
        final(live)@ == deposited(old(live)@, old(agents)@),
        final(agents)@ == agents_next(*p, snapshot@, old(agents)@),
        all_in_field(final(agents)@, snapshot@.width, snapshot@.height),
{
    let ghost start = agents@;
    let ghost field0 = live@;
    let n = agents.len();
    let mut i: usize = 0;
    while i < n
        invariant
            snapshot.wf(),
            live.wf(),
            n == start.len(),
            agents@.len() == n,
            i <= n,
            field0.wf(),
            live@.width == field0.width,
            live@.height == field0.height,
            live@.cells.len() == field0.cells.len(),
            all_in_field(start, field0.width, field0.height),
            forall|j: int| i <= j < n ==> #[trigger] agents@[j] == start[j],
            forall|j: int| 0 <= j < i ==> #[trigger] agents@[j] == agent_next(*p, snapshot@, j, start[j]),
            forall|j: int| 0 <= j < i ==> in_field(#[trigger] agents@[j], snapshot@.width, snapshot@.height),
            forall|c: int| 0 <= c < field0.cells.len() ==> #[trigger] live@.cells[c] == (
                if visited(field0, start.take(i as int), c) {
                    ink_spec()
                } else {
                    field0.cells[c]
                }),
        decreases n - i,
    {
        let a = agents[i];
        assert(in_field(start[i as int], field0.width, field0.height));
        proof {
            assert(a.x / 1000 < field0.width) by (nonlinear_arith)
                requires a.x < field0.width * 1000;
            assert(a.y / 1000 < field0.height) by (nonlinear_arith)
                requires a.y < field0.height * 1000;
        }
        let ghost before = live@;
        live.set(a.x / POSITION_ONE, a.y / POSITION_ONE, ink());
        let next = update_agent(p, snapshot, i, a);
        agents.set(i, next);
        proof {
            assert forall|c: int| 0 <= c < field0.cells.len() implies #[trigger] live@.cells[c] == (
                if visited(field0, start.take(i + 1), c) {
                    ink_spec()
                } else {
                    field0.cells[c]
                }) by {
                lemma_visited_extend(field0, start, i as int, c);
                assert(start[i as int] == a);
                assert(live@.cells == before.cells.update(deposit_index(field0, a), ink_spec()));
                crate::field::lemma_index_in_range(field0, cell_of(a.x as int), cell_of(a.y as int));
                if c != deposit_index(field0, a) {
                    assert(live@.cells[c] == before.cells[c]);
                }
            }
        }
        i = i + 1;
    }
    proof {
        assert(start.take(n as int) =~= start);
        assert(live@.cells =~= deposited(field0, start).cells);
        assert(agents@ =~= agents_next(*p, snapshot@, start));
    }
}


/// A running simulation: its agents, the current trail field, and a scratch field of the same
/// size.
pub struct Simulation {
    agents: Vec<Agent>,
    front: TrailField,
    back: TrailField,
}

impl View for Simulation {
    type V = SimModel;

    closed spec fn view(&self) -> SimModel {
        SimModel { agents: self.agents@, field: self.front@ }
    }
}

/// The checks that a simulation's size and agents pass.
pub open spec fn setup_error(width: int, height: int, agents: Seq<Agent>) -> Option<SimError> {
    if dimension_error(width, height) is Some {
        dimension_error(width, height)
    } else if !all_in_field(agents, width, height) {
        Some(SimError::AgentOutOfBounds)
    } else {
        None
    }
}

impl Simulation {
    /// The model is well formed and the scratch field has the size of the current one.
    pub closed spec fn wf(&self) -> bool {
        &&& self@.wf()
        &&& self.back.wf()
        &&& self.back@.width == self.front@.width
        &&& self.back@.height == self.front@.height
    }

    /// A simulation of `agents` on a black field of `width` by `height` cells; fails on a zero
    /// or oversized dimension, or on an agent outside the field.
    pub fn new(width: u32, height: u32, agents: Vec<Agent>) -> (r: Result<Simulation, SimError>)
        ensures
            match r {
                Ok(s) => {
                    &&& setup_error(width as int, height as int, agents@) is None
                    &&& s.wf()
                    &&& s@.wf()
                    &&& s@.agents == agents@
                    &&& s@.field.width == width
                    &&& s@.field.height == height
                    &&& forall|i: int| 0 <= i < s@.field.cells.len() ==> #[trigger] s@.field.cells[i] == black()
                },
                Err(e) => setup_error(width as int, height as int, agents@) == Some(e),
            },
    {
        if let Err(e) = check_dimensions(width, height) {
            return Err(e);
        }
        let w: u32 = width * POSITION_ONE;
        let h: u32 = height * POSITION_ONE;
        let mut i: usize = 0;
        while i < agents.len()
            invariant
                i <= agents.len(),
                dimension_error(width as int, height as int) is None,
                w == width * POSITION_ONE,
                h == height * POSITION_ONE,
                forall|j: int| 0 <= j < i ==> in_field(#[trigger] agents@[j], width as int, height as int),
            decreases agents.len() - i,
        {
            if agents[i].x >= w || agents[i].y >= h {
                assert(!in_field(agents@[i as int], width as int, height as int));
                return Err(SimError::AgentOutOfBounds);
            }
            i = i + 1;
        }
        let front = match TrailField::new(width, height) {
            Ok(f) => f,
            Err(e) => {
                return Err(e);
            },
        };
        let back = match TrailField::new(width, height) {
            Ok(f) => f,
            Err(e) => {
                return Err(e);
            },
        };
        Ok(Simulation { agents, front, back })
    }

    /// A simulation of `agent_count` agents on a black field of `width` by `height` cells,
    /// each agent placed on a random whole cell with a random heading; fails on a zero or
    /// oversized dimension.
    pub fn init(width: u32, height: u32, agent_count: u32) -> (r: Result<Simulation, SimError>)
        ensures
            match r {
                Ok(s) => {
                    &&& dimension_error(width as int, height as int) is None
                    &&& s.wf()
                    &&& s@.wf()
                    &&& s@.agents.len() == agent_count
                    &&& forall|i: int| 0 <= i < s@.agents.len() ==> #[trigger] s@.agents[i].x % POSITION_ONE == 0
                        && s@.agents[i].y % POSITION_ONE == 0
                    &&& s@.field.width == width
                    &&& s@.field.height == height
                    &&& forall|i: int| 0 <= i < s@.field.cells.len() ==> #[trigger] s@.field.cells[i] == black()
                },
                Err(e) => dimension_error(width as int, height as int) == Some(e),
            },
    {
        if let Err(e) = check_dimensions(width, height) {
            return Err(e);
        }
        let mut agents: Vec<Agent> = Vec::new();
        while agents.len() < agent_count as usize
            invariant
                1 <= width <= crate::field::MAX_DIMENSION,
                1 <= height <= crate::field::MAX_DIMENSION,
                agents.len() <= agent_count,
                forall|j: int| 0 <= j < agents.len() ==> in_field(#[trigger] agents@[j], width as int, height as int)
                    && agents@[j].x % POSITION_ONE == 0 && agents@[j].y % POSITION_ONE == 0,
            decreases agent_count - agents.len(),
        {
            let cx = random_below(width);
            let cy = random_below(height);
            let heading = random_below(ANGLE_TURN) as u16;
            agents.push(Agent { x: cx * POSITION_ONE, y: cy * POSITION_ONE, heading });
        }
        Simulation::new(width, height, agents)
    }

    /// The current trail field.
    pub fn field(&self) -> (f: &TrailField)
        ensures
            f@ == self@.field,
    {
        &self.front
    }

    /// The agents, in order.
    pub fn agents(&self) -> (a: &Vec<Agent>)
        ensures
            a@ == self@.agents,
    {
        &self.agents
    }

    /// Advances the simulation one tick under `p`: copy the current field to the scratch field,
    /// update every agent against that snapshot while it inks, in the current field, the cell it
    /// stood on before moving, diffuse the
    /// current field into the scratch field, and swap the two. Fails, changing nothing, on a tick
    /// of zero duration.
    pub fn step(&mut self, p: &Parameters) -> (r: Result<(), SimError>)
        requires
            old(self).wf(),
        ensures
            final(self).wf(),
            final(self)@.wf(),
            final(self)@.field.width == old(self)@.field.width,
            final(self)@.field.height == old(self)@.field.height,
            p.delta_time_ms == 0 ==> r == Err::<(), SimError>(SimError::ZeroDeltaTime) && final(self)@ == old(self)@,
            p.delta_time_ms != 0 ==> r is Ok && final(self)@ == step_spec(*p, old(self)@),
    {
        if p.delta_time_ms == 0 {
            return Err(SimError::ZeroDeltaTime);
        }
        let ghost s0 = self@;
        self.back.copy_from(&self.front);
        update_agents(p, &self.back, &mut self.front, &mut self.agents);
        proof {
            lemma_deposited_wf(s0.field, s0.agents);
        }
        self.front.diffuse_into(&mut self.back, amount_per_tick(p.evaporate_speed, p.delta_time_ms));
        std::mem::swap(&mut self.front, &mut self.back);
        proof {
            lemma_step_wf(*p, s0);
        }
        Ok(())
    }
}

/// Inking a well-formed field keeps it well formed.
proof fn lemma_deposited_wf(f: FieldModel, agents: Seq<Agent>)
    requires
        f.wf(),
    ensures
        deposited(f, agents).wf(),
{
    let d = deposited(f, agents);
    assert forall|i: int| 0 <= i < d.cells.len() implies rgba_bounded(#[trigger] d.cells[i], CHANNEL_ONE as int) by {
        assert(rgba_bounded(f.cells[i], CHANNEL_ONE as int));
    }
}

/// An agent that completes a tick on a well-formed field ends inside it.
pub proof fn lemma_agent_next_in_field(p: Parameters, f: FieldModel, i: int, a: Agent)
    requires
        f.wf(),
    ensures
        in_field(agent_next(p, f, i, a), f.width, f.height),
{
    reveal(agent_next);
}

/// Boundary containment over one tick: from a well-formed state, a tick leaves every agent
/// inside the field and the field well formed.
pub proof fn lemma_step_wf(p: Parameters, s: SimModel)
    requires
        s.wf(),
    ensures
        step_spec(p, s).wf(),
{
    let n = step_spec(p, s);
    assert forall|i: int| 0 <= i < n.agents.len() implies in_field(#[trigger] n.agents[i], n.field.width, n.field.height) by {
        lemma_agent_next_in_field(p, s.field, i, s.agents[i]);
    }
    lemma_deposited_wf(s.field, s.agents);
    lemma_diffuse_decay(deposited(s.field, s.agents), evaporation(p), CHANNEL_ONE as int);
}

/// Boundary containment over any run: after every tick of a run from a well-formed state, every
/// agent lies inside the field.
pub proof fn lemma_run_wf(s: SimModel, ps: Seq<Parameters>)
    requires
        s.wf(),
    ensures
        run_spec(s, ps).wf(),
        run_spec(s, ps).field.width == s.field.width,
        run_spec(s, ps).field.height == s.field.height,
        all_in_field(run_spec(s, ps).agents, s.field.width, s.field.height),
    decreases ps.len(),
{
    if ps.len() > 0 {
        lemma_run_wf(s, ps.drop_last());
        lemma_step_wf(ps.last(), run_spec(s, ps.drop_last()));
    }
}


/// Deterministic replay: two runs from the same agents and field under the same sequence of
/// parameter sets end with the same agents and the same field, tick by tick.
pub proof fn lemma_deterministic_replay(s1: SimModel, s2: SimModel, ps: Seq<Parameters>)
    requires
        s1 == s2,
    ensures
        run_spec(s1, ps) == run_spec(s2, ps),
        forall|n: int| 0 <= n <= ps.len() ==> #[trigger] run_spec(s1, ps.take(n)) == run_spec(s2, ps.take(n)),
{
}

/// Snapshot isolation: an agent's state after the agent stage depends only on the snapshot, its
/// own state and its number. Replacing any other agent, and with it the ink that agent leaves in
/// the live field, leaves it unchanged.
pub proof fn lemma_snapshot_isolation(
    p: Parameters,
    snapshot: FieldModel,
    agents: Seq<Agent>,
    i: int,
    j: int,
    other: Agent,
)
    requires
        0 <= i < agents.len(),
        0 <= j < agents.len(),
        i != j,
    ensures
        agents_next(p, snapshot, agents)[i] == agents_next(p, snapshot, agents.update(j, other))[i],
        agents_next(p, snapshot, agents)[i] == agent_next(p, snapshot, i, agents[i]),
{
}

/// The inked field does not depend on the order of the agents: swapping two of them gives the
/// same field.
pub proof fn lemma_deposit_order_independent(f: FieldModel, agents: Seq<Agent>, i: int, j: int)
    requires
        0 <= i < agents.len(),
        0 <= j < agents.len(),
    ensures
        deposited(f, agents) == deposited(f, agents.update(i, agents[j]).update(j, agents[i])),
{
    let swapped = agents.update(i, agents[j]).update(j, agents[i]);
    assert forall|c: int| 0 <= c < f.cells.len() implies visited(f, agents, c) == visited(f, swapped, c) by {
        if visited(f, agents, c) {
            let k = choose|k: int| 0 <= k < agents.len() && deposit_index(f, #[trigger] agents[k]) == c;
            let k2 = if k == i { j } else if k == j { i } else { k };
            assert(swapped[k2] == agents[k]);
        }
        if visited(f, swapped, c) {
            let k = choose|k: int| 0 <= k < swapped.len() && deposit_index(f, #[trigger] swapped[k]) == c;
            let k2 = if k == i { j } else if k == j { i } else { k };
            assert(agents[k2] == swapped[k]);
        }
    }
    assert(deposited(f, agents).cells =~= deposited(f, swapped).cells);
}


/// With no agents nothing is inked, and a tick only diffuses the field.
pub proof fn lemma_step_without_agents(p: Parameters, s: SimModel)
    requires
        s.agents.len() == 0,
    ensures
        step_spec(p, s).field == s.field.diffused(evaporation(p)),
        step_spec(p, s).agents.len() == 0,
{
    assert(deposited(s.field, s.agents).cells =~= s.field.cells);
    assert(deposited(s.field, s.agents) == s.field);
}

} // verus!
