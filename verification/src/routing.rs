//! One pass of particles through the mesh.
use crate::order::argmax;
use crate::particle::{models, Particle, ParticleModel};
use crate::scalar::Scalar;
use crate::topology::{RoutingModel, RoutingTable};
use vstd::multiset::Multiset;
use vstd::prelude::*;

verus! {

/// Where the particles of a pass are.
#[derive(Debug)]
pub struct Routing {
    /// What each node works on in the next step.
    pub node_queues: Vec<Vec<Particle>>,
    /// What each node was sent in the current step.
    pub next_queues: Vec<Vec<Particle>>,
    /// Particles that have settled.
    pub halted: Vec<Particle>,
    /// Steps made.
    pub step: usize,
    /// Ceiling on the steps.
    pub max_steps: usize,
    /// Whether a particle was on its way in the last step.
    pub active: bool,
    /// Length above which a queue sends particles elsewhere.
    pub backpressure: usize,
}

/// What became of a particle.
#[derive(Clone, Copy, Debug, PartialEq, Eq, Structural)]
pub enum Route {
    /// It has settled.
    Settled,
    /// It went to a node. `learn` says whether its credit is to be noted on the link.
    Sent { next_hop: usize, learn: bool },
}

/// A pass as a value.
#[verifier::ext_equal]
pub struct RoutingState {
    pub node_queues: Seq<Seq<ParticleModel>>,
    pub next_queues: Seq<Seq<ParticleModel>>,
    pub halted: Seq<ParticleModel>,
    pub step: usize,
    pub max_steps: usize,
    pub active: bool,
    pub backpressure: usize,
}

/// Queues as values.
pub open spec fn queue_models(queues: Seq<Vec<Particle>>) -> Seq<Seq<ParticleModel>> {
    queues.map_values(|q: Vec<Particle>| models(q@))
}

impl View for Routing {
    type V = RoutingState;

    open spec fn view(&self) -> RoutingState {
        RoutingState {
            node_queues: queue_models(self.node_queues@),
            next_queues: queue_models(self.next_queues@),
            halted: models(self.halted@),
            step: self.step,
            max_steps: self.max_steps,
            active: self.active,
            backpressure: self.backpressure,
        }
    }
}

/// `n` empty queues.
pub open spec fn idle(n: nat) -> Seq<Seq<ParticleModel>> {
    Seq::new(n, |i: int| Seq::empty())
}

/// What node `n` takes in of a list that is dealt out over `ingress`.
pub open spec fn dealt(list: Seq<ParticleModel>, ingress: Seq<usize>, n: int) -> Seq<ParticleModel>
    decreases list.len(),
{
    if list.len() == 0 {
        Seq::empty()
    } else {
        let front = dealt(list.drop_last(), ingress, n);
        if ingress[(list.len() - 1) % ingress.len() as int] == n {
            front.push(list.last())
        } else {
            front
        }
    }
}

/// Shards of a list, by token and shard.
pub open spec fn tags(list: Seq<ParticleModel>) -> Multiset<(u32, u16)> {
    list.map_values(|p: ParticleModel| p.tag()).to_multiset()
}

/// Shards of all queues.
pub open spec fn queue_tags(queues: Seq<Seq<ParticleModel>>) -> Multiset<(u32, u16)>
    decreases queues.len(),
{
    if queues.len() == 0 {
        Multiset::empty()
    } else {
        queue_tags(queues.drop_last()).add(tags(queues.last()))
    }
}

/// All queues, one after the other.
pub open spec fn drained(queues: Seq<Seq<ParticleModel>>) -> Seq<ParticleModel>
    decreases queues.len(),
{
    if queues.len() == 0 {
        Seq::empty()
    } else {
        drained(queues.drop_last()) + queues.last()
    }
}

impl RoutingState {
    /// Both sets of queues have one queue per node.
    pub open spec fn wf(self) -> bool {
        &&& self.node_queues.len() == self.next_queues.len()
        &&& self.node_queues.len() > 0
        &&& self.step <= self.max_steps
    }

    /// Shards of the pass, wherever they are.
    pub open spec fn tags(self) -> Multiset<(u32, u16)> {
        queue_tags(self.node_queues).add(queue_tags(self.next_queues)).add(tags(self.halted))
    }

    /// A pass in which nothing has moved yet.
    pub open spec fn started(
        list: Seq<ParticleModel>,
        ingress: Seq<usize>,
        num_nodes: nat,
        max_steps: usize,
        backpressure: usize,
    ) -> Self {
        RoutingState {
            node_queues: Seq::new(num_nodes, |n: int| dealt(list, ingress, n)),
            next_queues: idle(num_nodes),
            halted: Seq::empty(),
            step: 0,
            max_steps,
            active: true,
            backpressure,
        }
    }

    /// Whether another step is to be made.
    pub open spec fn goes_on(self) -> bool {
        self.active && self.step < self.max_steps
    }

    /// The pass with a step begun: the queues are handed out, none is refilled yet.
    pub open spec fn stepped(self) -> Self {
        RoutingState {
            node_queues: idle(self.node_queues.len()),
            next_queues: idle(self.next_queues.len()),
            step: (self.step + 1) as usize,
            active: false,
            ..self
        }
    }

    /// The node that `p` goes to. Where the chosen queue is too long, the neighbor whose
    /// turn it is by the particle's hops stands in for it; without neighbors, the node
    /// after the chosen one.
    pub open spec fn hop(
        self,
        p: ParticleModel,
        table: RoutingModel,
        sampled: Seq<Scalar>,
        neutral: Seq<Scalar>,
    ) -> usize {
        let first = table.next_hop(sampled, neutral);
        if self.next_queues[first as int].len() <= self.backpressure {
            first
        } else if table.neighbors.len() > 0 {
            table.neighbors[p.header.hop_count as int % table.neighbors.len() as int]
        } else {
            ((first + 1) % self.next_queues.len() as int) as usize
        }
    }

    /// What becomes of `p`.
    pub open spec fn route(
        self,
        p: ParticleModel,
        table: RoutingModel,
        sampled: Seq<Scalar>,
        neutral: Seq<Scalar>,
    ) -> Route {
        if p.header.halted {
            Route::Settled
        } else {
            Route::Sent {
                next_hop: self.hop(p, table, sampled, neutral),
                learn: p.credit_valid,
            }
        }
    }

    /// The pass with `p` moved along `route`.
    pub open spec fn moved(self, p: ParticleModel, route: Route) -> Self {
        match route {
            Route::Settled => RoutingState { halted: self.halted.push(p), active: true, ..self },
            Route::Sent { next_hop, learn } => RoutingState {
                next_queues: self.next_queues.update(
                    next_hop as int,
                    self.next_queues[next_hop as int].push(p),
                ),
                active: true,
                ..self
            },
        }
    }

    /// The pass with a step ended: what was sent is what is worked on next.
    pub open spec fn turned(self) -> Self {
        RoutingState {
            node_queues: self.next_queues,
            next_queues: self.node_queues,
            ..self
        }
    }

    /// What comes out: the settled particles, then those still on their way, node by node.
    pub open spec fn collected(self) -> Seq<ParticleModel> {
        self.halted + drained(self.node_queues)
    }

    /// Every particle on its way has made as many hops as there were steps, and may make
    /// another.
    pub open spec fn in_lockstep(self, max_hop: u16) -> bool {
        forall|n: int, i: int|
            0 <= n < self.node_queues.len() && 0 <= i < self.node_queues[n].len() ==> {
                let h = (#[trigger] self.node_queues[n][i]).header;
                h.hop_count == self.step && h.hop_count < max_hop && !h.halted
            }
    }
}

/// Whether a table leads to nodes of the mesh only.
pub open spec fn leads_inside(table: RoutingModel, num_nodes: int) -> bool {
    forall|k: int| 0 <= k < table.neighbors.len() ==> (#[trigger] table.neighbors[k]) < num_nodes
}

impl Routing {
    /// Deals particles out over the nodes that take them in.
    pub fn start(
        particles: Vec<Particle>,
        ingress: &Vec<usize>,
        num_nodes: usize,
        max_steps: usize,
        backpressure: usize,
    ) -> (r: Self)
        requires
            num_nodes > 0,
            ingress@.len() > 0,
            forall|i: int| 0 <= i < ingress@.len() ==> #[trigger] ingress@[i] < num_nodes,
        ensures
            r@ == RoutingState::started(
                models(particles@),
                ingress@,
                num_nodes as nat,
                max_steps,
                backpressure,
            ),
            r@.wf(),
            r@.tags() == tags(models(particles@)),
    {
        let ghost list = models(particles@);
        let mut node_queues: Vec<Vec<Particle>> = empty_queues(num_nodes);
        let next_queues: Vec<Vec<Particle>> = empty_queues(num_nodes);
        let mut idx: usize = 0;
        assert(list.take(0) =~= Seq::empty());
        assert(queue_models(node_queues@) =~= Seq::new(
            num_nodes as nat,
            |n: int| dealt(list.take(0), ingress@, n),
        ));
        while idx < particles.len()
            invariant
                idx <= particles.len(),
                list == models(particles@),
                ingress@.len() > 0,
                forall|i: int| 0 <= i < ingress@.len() ==> #[trigger] ingress@[i] < num_nodes,
                node_queues@.len() == num_nodes,
                forall|n: int|
                    0 <= n < num_nodes ==> models((#[trigger] node_queues@[n])@) == dealt(
                        list.take(idx as int),
                        ingress@,
                        n,
                    ),
            decreases particles.len() - idx,
        {
            let target: usize = ingress[idx % ingress.len()];
            let particle: Particle = particles[idx].clone();
            let ghost before = node_queues@;
            assert(list.take(idx + 1).drop_last() =~= list.take(idx as int));
            assert(particle@ == list.take(idx + 1).last());
            node_queues[target].push(particle);
            assert forall|n: int| 0 <= n < num_nodes implies models((#[trigger] node_queues@[n])@)
                == dealt(list.take(idx + 1), ingress@, n) by {
                if n == target {
                    assert(models(node_queues@[n]@) =~= models(before[n]@).push(particle@));
                } else {
                    assert(node_queues@[n] == before[n]);
                }
            }
            idx += 1;
        }
        assert(list.take(idx as int) =~= list);
        let r = Routing {
            node_queues,
            next_queues,
            halted: Vec::new(),
            step: 0,
            max_steps,
            active: true,
            backpressure,
        };
        assert(r@.node_queues =~= Seq::new(num_nodes as nat, |n: int| dealt(list, ingress@, n)));
        assert(r@.halted =~= Seq::empty());
        proof {
            lemma_idle_tags(num_nodes as nat);
            lemma_no_tags();
            lemma_dealt_tags(list, ingress@, num_nodes as nat);
        }
        r
    }

    /// Begins a step and hands out what each node is to work on. `None` once nothing is on
    /// its way or the steps have run out.
    pub fn begin_step(&mut self) -> (r: Option<Vec<Vec<Particle>>>)
        requires
            old(self)@.wf(),
            old(self)@.next_queues == idle(old(self)@.next_queues.len()),
        ensures
            match r {
                Some(batches) => {
                    &&& old(self)@.goes_on()
                    &&& queue_models(batches@) == old(self)@.node_queues
                    &&& final(self)@ == old(self)@.stepped()
                    &&& final(self)@.tags().add(queue_tags(queue_models(batches@)))
                        == old(self)@.tags()
                },
                None => !old(self)@.goes_on() && final(self)@ == old(self)@,
            },
            final(self)@.wf(),
    {
        if !self.active || self.step >= self.max_steps {
            return None;
        }
        let ghost before = self@;
        let n: usize = self.node_queues.len();
        let mut batches: Vec<Vec<Particle>> = empty_queues(n);
        std::mem::swap(&mut batches, &mut self.node_queues);
        self.step = self.step + 1;
        self.active = false;
        assert(self@.next_queues =~= idle(self.next_queues@.len()));
        proof {
            lemma_idle_tags(n as nat);
            assert(self@.tags().add(queue_tags(before.node_queues)) =~= before.tags());
        }
        Some(batches)
    }

    /// Moves one particle on, given the links of the node that it leaves and their scores.
    pub fn route(
        &mut self,
        p: Particle,
        table: &RoutingTable,
        sampled: &Vec<Scalar>,
        neutral: &Vec<Scalar>,
    ) -> (r: Route)
        requires
            old(self)@.wf(),
            leads_inside(table@, old(self)@.next_queues.len() as int),
            sampled@.len() == table@.neighbors.len(),
            neutral@.len() == table@.neighbors.len(),
            old(self)@.next_queues.len() < usize::MAX,
        ensures
            r == old(self)@.route(p@, table@, sampled@, neutral@),
            final(self)@ == old(self)@.moved(p@, r),
            final(self)@.wf(),
            final(self)@.tags() == old(self)@.tags().insert(p@.tag()),
    {
        let ghost before = self@;
        self.active = true;
        if p.header.halted {
            self.halted.push(p);
            assert(self@.halted =~= before.halted.push(p@));
            proof {
                lemma_push_tag(before.halted, p@);
                assert(self@.tags() =~= before.tags().insert(p@.tag()));
            }
            return Route::Settled;
        }
        proof {
            crate::order::law_argmax(table@.scores(sampled@, neutral@));
        }
        let first: usize = table.select_next_hop(sampled, neutral);
        assert(first < before.next_queues.len());
        let learn: bool = p.credit_valid;
        let count: usize = table.neighbors.len();
        assert(before.next_queues[first as int] == models(self.next_queues@[first as int]@));
        let next_hop: usize = if self.next_queues[first].len() <= self.backpressure {
            first
        } else if count > 0 {
            table.neighbors[p.header.hop_count as usize % count]
        } else {
            (first + 1) % self.next_queues.len()
        };
        assert(next_hop == before.hop(p@, table@, sampled@, neutral@));
        assert(next_hop < before.next_queues.len());
        let ghost queues = self.next_queues@;
        self.next_queues[next_hop].push(p);
        assert(self@.next_queues =~= before.next_queues.update(
            next_hop as int,
            before.next_queues[next_hop as int].push(p@),
        )) by {
            assert forall|n: int| 0 <= n < queues.len() implies self@.next_queues[n]
                == before.next_queues.update(
                next_hop as int,
                before.next_queues[next_hop as int].push(p@),
            )[n] by {
                assert(before.next_queues[n] == models(queues[n]@));
                if n == next_hop {
                    assert(models(self.next_queues@[n]@) =~= models(queues[n]@).push(p@));
                }
            }
        }
        proof {
            lemma_send_tag(before.next_queues, next_hop as int, p@);
            assert(self@.tags() =~= before.tags().insert(p@.tag()));
        }
        Route::Sent { next_hop, learn }
    }

    /// Ends a step.
    pub fn end_step(&mut self)
        requires
            old(self)@.wf(),
        ensures
            final(self)@ == old(self)@.turned(),
            final(self)@.wf(),
            final(self)@.tags() == old(self)@.tags(),
    {
        let ghost before = self@;
        std::mem::swap(&mut self.node_queues, &mut self.next_queues);
        assert(self@.tags() =~= before.tags());
    }

    /// Ends the pass and hands out every particle.
    pub fn finish(self) -> (r: Vec<Particle>)
        ensures
            models(r@) == self@.collected(),
            self@.next_queues == idle(self@.next_queues.len()) ==> tags(models(r@)) == self@.tags(),
    {
        let mut out: Vec<Particle> = Vec::new();
        let mut i: usize = 0;
        while i < self.halted.len()
            invariant
                i <= self.halted.len(),
                models(out@) == models(self.halted@).take(i as int),
            decreases self.halted.len() - i,
        {
            let particle: Particle = self.halted[i].clone();
            let ghost front = models(out@);
            assert(particle@ == models(self.halted@)[i as int]);
            out.push(particle);
            i += 1;
            assert(models(out@) =~= front.push(particle@));
            assert(models(out@) =~= models(self.halted@).take(i as int));
        }
        assert(models(out@) =~= self@.halted);
        let mut n: usize = 0;
        let ghost queues = self@.node_queues;
        assert(queues.take(0) =~= Seq::empty());
        assert(models(out@) =~= self@.halted + drained(queues.take(0)));
        while n < self.node_queues.len()
            invariant
                n <= self.node_queues.len(),
                queues == self@.node_queues,
                models(out@) == self@.halted + drained(queues.take(n as int)),
            decreases self.node_queues.len() - n,
        {
            let queue: &Vec<Particle> = &self.node_queues[n];
            assert(queues[n as int] == models(queue@));
            assert(queues.take(n + 1).drop_last() =~= queues.take(n as int));
            let ghost front = models(out@);
            let mut k: usize = 0;
            assert(models(out@) =~= front + models(queue@).take(0));
            while k < queue.len()
                invariant
                    k <= queue.len(),
                    models(out@) == front + models(queue@).take(k as int),
                decreases queue.len() - k,
            {
                let particle: Particle = queue[k].clone();
                let ghost so_far = models(out@);
                assert(particle@ == models(queue@)[k as int]);
                out.push(particle);
                k += 1;
                assert(models(out@) =~= so_far.push(particle@));
                assert(models(out@) =~= front + models(queue@).take(k as int));
            }
            assert(models(queue@).take(k as int) =~= models(queue@));
            n += 1;
            assert(models(out@) =~= self@.halted + drained(queues.take(n as int)));
        }
        assert(queues.take(n as int) =~= queues);
        proof {
            lemma_drained_tags(queues);
            lemma_append_tags(self@.halted, drained(queues));
            if self@.next_queues == idle(self@.next_queues.len()) {
                lemma_idle_tags(self@.next_queues.len());
                assert(tags(models(out@)) =~= self@.tags());
            }
        }
        out
    }
}

/// `n` empty queues.
fn empty_queues(n: usize) -> (r: Vec<Vec<Particle>>)
    ensures
        r@.len() == n,
        queue_models(r@) == idle(n as nat),
        forall|i: int| 0 <= i < n ==> (#[trigger] r@[i])@ == Seq::<Particle>::empty(),
{
    let mut r: Vec<Vec<Particle>> = Vec::with_capacity(n);
    let mut i: usize = 0;
    while i < n
        invariant
            i <= n,
            r@.len() == i,
            forall|k: int| 0 <= k < i ==> (#[trigger] r@[k])@ == Seq::<Particle>::empty(),
        decreases n - i,
    {
        r.push(Vec::new());
        i += 1;
    }
    assert forall|k: int| 0 <= k < n implies models((#[trigger] r@[k])@) =~= Seq::empty() by {}
    assert(queue_models(r@) =~= idle(n as nat));
    r
}

proof fn lemma_no_tags()
    ensures
        tags(Seq::empty()) == Multiset::<(u32, u16)>::empty(),
{
    assert(Seq::<ParticleModel>::empty().map_values(|p: ParticleModel| p.tag()) =~= Seq::empty());
    broadcast use vstd::seq_lib::group_to_multiset_ensures;

    assert(Seq::<(u32, u16)>::empty().to_multiset() =~= Multiset::empty());
}

proof fn lemma_push_tag(list: Seq<ParticleModel>, p: ParticleModel)
    ensures
        tags(list.push(p)) == tags(list).insert(p.tag()),
{
    broadcast use vstd::seq_lib::group_to_multiset_ensures;

    let f = |p: ParticleModel| p.tag();
    assert(list.push(p).map_values(f) =~= list.map_values(f).push(p.tag()));
}

proof fn lemma_append_tags(a: Seq<ParticleModel>, b: Seq<ParticleModel>)
    ensures
        tags(a + b) == tags(a).add(tags(b)),
    decreases b.len(),
{
    if b.len() == 0 {
        lemma_no_tags();
        assert(b =~= Seq::empty());
        assert(a + b =~= a);
        assert(tags(a).add(tags(b)) =~= tags(a));
    } else {
        let front = b.drop_last();
        lemma_append_tags(a, front);
        assert(a + b =~= (a + front).push(b.last()));
        assert(b =~= front.push(b.last()));
        lemma_push_tag(a + front, b.last());
        lemma_push_tag(front, b.last());
        assert(tags(a + b) =~= tags(a).add(tags(b)));
    }
}

proof fn lemma_idle_tags(n: nat)
    ensures
        queue_tags(idle(n)) == Multiset::<(u32, u16)>::empty(),
    decreases n,
{
    if n > 0 {
        lemma_idle_tags((n - 1) as nat);
        lemma_no_tags();
        assert(idle(n).drop_last() =~= idle((n - 1) as nat));
        assert(queue_tags(idle(n)) =~= Multiset::empty());
    }
}

/// Sending to one queue adds that one shard.
proof fn lemma_send_tag(queues: Seq<Seq<ParticleModel>>, n: int, p: ParticleModel)
    requires
        0 <= n < queues.len(),
    ensures
        queue_tags(queues.update(n, queues[n].push(p))) == queue_tags(queues).insert(p.tag()),
    decreases queues.len(),
{
    let after = queues.update(n, queues[n].push(p));
    if n == queues.len() - 1 {
        assert(after.drop_last() =~= queues.drop_last());
        lemma_push_tag(queues[n], p);
    } else {
        lemma_send_tag(queues.drop_last(), n, p);
        assert(after.drop_last() =~= queues.drop_last().update(n, queues[n].push(p)));
        assert(after.last() == queues.last());
    }
    assert(queue_tags(after) =~= queue_tags(queues).insert(p.tag()));
}

proof fn lemma_drained_tags(queues: Seq<Seq<ParticleModel>>)
    ensures
        tags(drained(queues)) == queue_tags(queues),
    decreases queues.len(),
{
    if queues.len() == 0 {
        lemma_no_tags();
    } else {
        lemma_drained_tags(queues.drop_last());
        lemma_append_tags(drained(queues.drop_last()), queues.last());
    }
}

/// Dealing out loses nothing.
proof fn lemma_dealt_tags(list: Seq<ParticleModel>, ingress: Seq<usize>, num_nodes: nat)
    requires
        ingress.len() > 0,
        forall|i: int| 0 <= i < ingress.len() ==> #[trigger] ingress[i] < num_nodes,
    ensures
        queue_tags(Seq::new(num_nodes, |n: int| dealt(list, ingress, n))) == tags(list),
    decreases list.len(),
{
    let queues = Seq::new(num_nodes, |n: int| dealt(list, ingress, n));
    if list.len() == 0 {
        assert(queues =~= idle(num_nodes));
        lemma_idle_tags(num_nodes);
        lemma_no_tags();
        assert(list =~= Seq::empty());
    } else {
        let front = list.drop_last();
        let before = Seq::new(num_nodes, |n: int| dealt(front, ingress, n));
        lemma_dealt_tags(front, ingress, num_nodes);
        let at = (list.len() - 1) % ingress.len() as int;
        vstd::arithmetic::div_mod::lemma_mod_bound(list.len() - 1, ingress.len() as int);
        let target = ingress[at] as int;
        assert(queues =~= before.update(target, before[target].push(list.last())));
        lemma_send_tag(before, target, list.last());
        lemma_push_tag(front, list.last());
        assert(list =~= front.push(list.last()));
    }
}

/// A pass that starts with fresh particles is in lockstep.
pub proof fn law_start_in_lockstep(
    list: Seq<ParticleModel>,
    ingress: Seq<usize>,
    num_nodes: nat,
    max_steps: usize,
    backpressure: usize,
    max_hop: u16,
)
    requires
        max_hop > 0,
        forall|i: int|
            0 <= i < list.len() ==> (#[trigger] list[i]).header.hop_count == 0 && !list[i].header.halted,
    ensures
        RoutingState::started(list, ingress, num_nodes, max_steps, backpressure).in_lockstep(max_hop),
{
    let state = RoutingState::started(list, ingress, num_nodes, max_steps, backpressure);
    assert forall|n: int, i: int|
        0 <= n < state.node_queues.len() && 0 <= i < state.node_queues[n].len() implies ({
        let h = (#[trigger] state.node_queues[n][i]).header;
        h.hop_count == state.step && h.hop_count < max_hop && !h.halted
    }) by {
        lemma_dealt_from_list(list, ingress, n, i);
    }
}

proof fn lemma_dealt_from_list(list: Seq<ParticleModel>, ingress: Seq<usize>, n: int, i: int)
    requires
        0 <= i < dealt(list, ingress, n).len(),
    ensures
        list.contains(dealt(list, ingress, n)[i]),
    decreases list.len(),
{
    if list.len() > 0 {
        let front = list.drop_last();
        let f = dealt(front, ingress, n);
        if i < f.len() {
            lemma_dealt_from_list(front, ingress, n, i);
            let k = choose|k: int| 0 <= k < front.len() && front[k] == f[i];
            assert(list[k] == f[i]);
        } else {
            assert(list[list.len() - 1] == dealt(list, ingress, n)[i]);
        }
    }
}

/// Nothing is left behind: a pass in lockstep whose steps reach `max_hop` has no particle
/// on its way any more, so the steps allowed beyond `max_hop` are never needed.
pub proof fn law_all_settle_in_time(state: RoutingState, max_hop: u16)
    requires
        state.in_lockstep(max_hop),
        state.step >= max_hop,
    ensures
        forall|n: int| 0 <= n < state.node_queues.len() ==> (#[trigger] state.node_queues[n]).len() == 0,
{
    assert forall|n: int| 0 <= n < state.node_queues.len() implies (#[trigger] state.node_queues[n]).len()
        == 0 by {
        if state.node_queues[n].len() > 0 {
            let p = state.node_queues[n][0];
        }
    }
}

/// The particles sent so far in a step that `max_hop` bounds.
pub open spec fn sent_in_lockstep(state: RoutingState, max_hop: u16) -> bool {
    forall|n: int, i: int|
        0 <= n < state.next_queues.len() && 0 <= i < state.next_queues[n].len() ==> {
            let h = (#[trigger] state.next_queues[n][i]).header;
            h.hop_count == state.step && h.hop_count < max_hop && !h.halted
        }
}

/// A step keeps the lockstep: a node adds one hop to each particle and settles those at the
/// ceiling, and only unsettled ones are sent on.
pub proof fn law_route_keeps_lockstep(
    state: RoutingState,
    p: ParticleModel,
    table: RoutingModel,
    sampled: Seq<Scalar>,
    neutral: Seq<Scalar>,
    max_hop: u16,
)
    requires
        state.wf(),
        leads_inside(table, state.next_queues.len() as int),
        state.next_queues.len() < usize::MAX,
        sent_in_lockstep(state, max_hop),
        p.header.hop_count == state.step,
        p.header.hop_count >= max_hop ==> p.header.halted,
    ensures
        sent_in_lockstep(state.moved(p, state.route(p, table, sampled, neutral)), max_hop),
{
    let after = state.moved(p, state.route(p, table, sampled, neutral));
    law_hops_stay_inside(state, p, table, sampled, neutral);
    assert forall|n: int, i: int|
        0 <= n < after.next_queues.len() && 0 <= i < after.next_queues[n].len() implies ({
        let h = (#[trigger] after.next_queues[n][i]).header;
        h.hop_count == after.step && h.hop_count < max_hop && !h.halted
    }) by {
        if i < state.next_queues[n].len() {
            assert(after.next_queues[n][i] == state.next_queues[n][i]);
        }
    }
}

/// What was sent in lockstep is worked on in lockstep.
pub proof fn law_turn_keeps_lockstep(state: RoutingState, max_hop: u16)
    requires
        sent_in_lockstep(state, max_hop),
    ensures
        state.turned().in_lockstep(max_hop),
{
    let after = state.turned();
    assert forall|n: int, i: int|
        0 <= n < after.node_queues.len() && 0 <= i < after.node_queues[n].len() implies ({
        let h = (#[trigger] after.node_queues[n][i]).header;
        h.hop_count == after.step && h.hop_count < max_hop && !h.halted
    }) by {
        assert(state.next_queues[n][i] == after.node_queues[n][i]);
    }
}

/// A particle never leaves the mesh: the node it goes to is a node of the mesh.
pub proof fn law_hops_stay_inside(
    state: RoutingState,
    p: ParticleModel,
    table: RoutingModel,
    sampled: Seq<Scalar>,
    neutral: Seq<Scalar>,
)
    requires
        state.wf(),
        leads_inside(table, state.next_queues.len() as int),
        state.next_queues.len() < usize::MAX,
    ensures
        state.hop(p, table, sampled, neutral) < state.next_queues.len(),
{
    crate::order::law_argmax(table.scores(sampled, neutral));
    let n = table.neighbors.len() as int;
    if n > 0 {
        let k = p.header.hop_count as int % n;
        vstd::arithmetic::div_mod::lemma_mod_bound(p.header.hop_count as int, n);
        assert(table.neighbors[k] < state.next_queues.len());
        let best = argmax(table.scores(sampled, neutral));
        assert(table.neighbors[best] < state.next_queues.len());
    } else {
        vstd::arithmetic::div_mod::lemma_mod_bound(
            table.next_hop(sampled, neutral) + 1,
            state.next_queues.len() as int,
        );
    }
}

/// A particle goes to the node that its scores choose as long as that node's queue is not too
/// long. Where it is, the neighbor whose turn it is by the particle's hops stands in.
pub proof fn law_long_queues_are_avoided(
    state: RoutingState,
    p: ParticleModel,
    table: RoutingModel,
    sampled: Seq<Scalar>,
    neutral: Seq<Scalar>,
)
    requires
        !p.header.halted,
        table.neighbors.len() > 0,
    ensures
        ({
            let wanted = table.next_hop(sampled, neutral);
            let turn = table.neighbors[p.header.hop_count as int % table.neighbors.len() as int];
            let crowded = state.next_queues[wanted as int].len() > state.backpressure;
            &&& !crowded ==> state.route(p, table, sampled, neutral) == (Route::Sent {
                next_hop: wanted,
                learn: p.credit_valid,
            })
            &&& crowded ==> state.route(p, table, sampled, neutral) == (Route::Sent {
                next_hop: turn,
                learn: p.credit_valid,
            })
        }),
{
}

/// A particle that has settled is routed no further, and any other one is sent to a neighbor.
/// Its credit is noted exactly where it was measured.
pub proof fn law_only_the_unsettled_move(
    state: RoutingState,
    p: ParticleModel,
    table: RoutingModel,
    sampled: Seq<Scalar>,
    neutral: Seq<Scalar>,
)
    requires
        table.neighbors.len() > 0,
    ensures
        p.header.halted <==> state.route(p, table, sampled, neutral) is Settled,
        state.route(p, table, sampled, neutral) matches Route::Sent { next_hop, learn } ==> {
            &&& table.neighbors.contains(next_hop)
            &&& learn == p.credit_valid
        },
{
    crate::order::law_argmax(table.scores(sampled, neutral));
    let best = argmax(table.scores(sampled, neutral));
    assert(table.neighbors.contains(table.neighbors[best]));
    let n = table.neighbors.len() as int;
    vstd::arithmetic::div_mod::lemma_mod_bound(p.header.hop_count as int, n);
    assert(table.neighbors.contains(table.neighbors[p.header.hop_count as int % n]));
}

/// Without neighbors a particle goes to the first node, or to the one after it where the queue
/// of the first is too long.
pub proof fn law_stranded_particles_go_home(
    state: RoutingState,
    p: ParticleModel,
    table: RoutingModel,
    sampled: Seq<Scalar>,
    neutral: Seq<Scalar>,
)
    requires
        !p.header.halted,
        table.neighbors.len() == 0,
        state.wf(),
    ensures
        state.route(p, table, sampled, neutral) matches Route::Sent { next_hop, learn } && learn
            == p.credit_valid && if state.next_queues[0].len() <= state.backpressure {
            next_hop == 0
        } else if state.next_queues.len() == 1 {
            next_hop == 0
        } else {
            next_hop == 1
        },
{
    if state.next_queues.len() > 1 {
        vstd::arithmetic::div_mod::lemma_small_mod(1, state.next_queues.len());
    }
}

/// Moving a particle puts it, unchanged, behind those that are there already: at the end of the
/// settled ones, or of the queue of the node that it was sent to. Nothing else moves, and the
/// pass knows that something was on its way.
pub proof fn law_a_move_moves_one_particle(state: RoutingState, p: ParticleModel, route: Route, n: int)
    requires
        state.wf(),
        0 <= n < state.next_queues.len(),
        route matches Route::Sent { next_hop, learn } ==> next_hop < state.next_queues.len(),
    ensures
        ({
            let after = state.moved(p, route);
            &&& after.active
            &&& after.node_queues == state.node_queues
            &&& after.next_queues.len() == state.next_queues.len()
            &&& after.step == state.step
            &&& after.max_steps == state.max_steps
            &&& after.backpressure == state.backpressure
            &&& route is Settled ==> after.halted == state.halted.push(p) && after.next_queues
                == state.next_queues
            &&& route matches Route::Sent { next_hop, learn } ==> {
                &&& after.halted == state.halted
                &&& n == next_hop ==> after.next_queues[n] == state.next_queues[n].push(p)
                &&& n != next_hop ==> after.next_queues[n] == state.next_queues[n]
            }
        }),
{
}

/// The particles are dealt out in turn: the one at place `i` of the list goes to the node whose
/// turn it is, and the particles of one node keep their order.
pub proof fn law_particles_are_dealt_in_turn(list: Seq<ParticleModel>, ingress: Seq<usize>, i: int)
    requires
        ingress.len() > 0,
        0 <= i < list.len(),
    ensures
        ({
            let n = ingress[i % ingress.len() as int] as int;
            let at = dealt(list.take(i), ingress, n).len() as int;
            &&& at < dealt(list, ingress, n).len()
            &&& dealt(list, ingress, n)[at] == list[i]
        }),
        forall|n: int|
            n != ingress[i % ingress.len() as int] ==> #[trigger] dealt(list.take(i + 1), ingress, n)
                == dealt(list.take(i), ingress, n),
{
    let n = ingress[i % ingress.len() as int] as int;
    assert(list.take(i + 1).drop_last() =~= list.take(i));
    assert(dealt(list.take(i + 1), ingress, n) == dealt(list.take(i), ingress, n).push(list[i]));
    lemma_dealt_prefix(list, ingress, n, i + 1);
}

/// What a node is dealt of the front of a list it is dealt of the whole list first.
proof fn lemma_dealt_prefix(list: Seq<ParticleModel>, ingress: Seq<usize>, n: int, m: int)
    requires
        0 <= m <= list.len(),
    ensures
        dealt(list.take(m), ingress, n).len() <= dealt(list, ingress, n).len(),
        forall|a: int|
            0 <= a < dealt(list.take(m), ingress, n).len() ==> #[trigger] dealt(
                list,
                ingress,
                n,
            )[a] == dealt(list.take(m), ingress, n)[a],
    decreases list.len() - m,
{
    if m < list.len() {
        assert(list.take(m + 1).drop_last() =~= list.take(m));
        lemma_dealt_prefix(list, ingress, n, m + 1);
        let shorter = dealt(list.take(m), ingress, n);
        let longer = dealt(list.take(m + 1), ingress, n);
        assert forall|a: int| 0 <= a < shorter.len() implies #[trigger] dealt(list, ingress, n)[a]
            == shorter[a] by {
            assert(longer[a] == shorter[a]);
        }
    } else {
        assert(list.take(m) =~= list);
    }
}

/// A pass starts with every particle waiting at its node of entry, none settled and none sent.
pub proof fn law_a_pass_starts_full(
    list: Seq<ParticleModel>,
    ingress: Seq<usize>,
    num_nodes: nat,
    max_steps: usize,
    backpressure: usize,
    n: int,
)
    requires
        0 <= n < num_nodes,
    ensures
        ({
            let state = RoutingState::started(list, ingress, num_nodes, max_steps, backpressure);
            &&& state.node_queues.len() == num_nodes
            &&& state.next_queues.len() == num_nodes
            &&& state.next_queues[n].len() == 0
            &&& state.halted.len() == 0
            &&& state.step == 0
            &&& state.max_steps == max_steps
            &&& state.backpressure == backpressure
            &&& state.goes_on() <==> max_steps > 0
        }),
{
}

/// A step takes up what was sent in the last one. A pass goes on as long as something was on
/// its way in its last step and there are steps left.
pub proof fn law_steps_follow_each_other(state: RoutingState)
    requires
        state.wf(),
        state.step < usize::MAX,
    ensures
        state.goes_on() <==> state.active && state.step < state.max_steps,
        ({
            let begun = state.stepped();
            &&& begun.step == state.step + 1
            &&& !begun.active
            &&& begun.halted == state.halted
            &&& begun.max_steps == state.max_steps
            &&& begun.backpressure == state.backpressure
            &&& begun.node_queues.len() == state.node_queues.len()
            &&& forall|n: int|
                0 <= n < begun.node_queues.len() ==> (#[trigger] begun.node_queues[n]).len() == 0
        }),
        state.turned().node_queues == state.next_queues,
        state.turned().next_queues == state.node_queues,
        state.turned().halted == state.halted,
        state.turned().step == state.step,
        state.turned().active == state.active,
        state.turned().max_steps == state.max_steps,
        state.turned().backpressure == state.backpressure,
{
}

/// At the end of a pass every particle comes out as it is: the settled ones first, then those
/// that wait at the nodes.
pub proof fn law_every_particle_comes_out(state: RoutingState, n: int, i: int)
    requires
        0 <= n < state.node_queues.len(),
        0 <= i < state.node_queues[n].len(),
    ensures
        state.collected().contains(state.node_queues[n][i]),
        state.collected().take(state.halted.len() as int) == state.halted,
        state.collected().len() == state.halted.len() + drained(state.node_queues).len(),
        (forall|k: int| 0 <= k < state.node_queues.len() && k != n ==> (
        #[trigger] state.node_queues[k]).len() == 0) ==> state.collected() == state.halted
            + state.node_queues[n],
{
    lemma_drained_contains(state.node_queues, n, i);
    let out = state.collected();
    let rest = drained(state.node_queues);
    let at = choose|at: int| 0 <= at < rest.len() && rest[at] == state.node_queues[n][i];
    assert(out[state.halted.len() + at] == state.node_queues[n][i]);
    assert(out.take(state.halted.len() as int) =~= state.halted);
    if forall|k: int| 0 <= k < state.node_queues.len() && k != n ==> (
    #[trigger] state.node_queues[k]).len() == 0 {
        lemma_drained_one(state.node_queues, n);
    }
}

proof fn lemma_drained_contains(queues: Seq<Seq<ParticleModel>>, n: int, i: int)
    requires
        0 <= n < queues.len(),
        0 <= i < queues[n].len(),
    ensures
        drained(queues).contains(queues[n][i]),
    decreases queues.len(),
{
    let front = drained(queues.drop_last());
    if n < queues.len() - 1 {
        lemma_drained_contains(queues.drop_last(), n, i);
        let at = choose|at: int| 0 <= at < front.len() && front[at] == queues[n][i];
        assert(drained(queues)[at] == queues[n][i]);
    } else {
        assert(drained(queues)[front.len() + i] == queues[n][i]);
    }
}

proof fn lemma_drained_one(queues: Seq<Seq<ParticleModel>>, n: int)
    requires
        forall|k: int| 0 <= k < queues.len() && k != n ==> (#[trigger] queues[k]).len() == 0,
    ensures
        0 <= n < queues.len() ==> drained(queues) == queues[n],
        !(0 <= n < queues.len()) ==> drained(queues).len() == 0,
    decreases queues.len(),
{
    if queues.len() > 0 {
        let front = queues.drop_last();
        assert forall|k: int| 0 <= k < front.len() && k != n implies (#[trigger] front[k]).len()
            == 0 by {
            assert(queues[k].len() == 0);
        }
        lemma_drained_one(front, n);
        if n == queues.len() - 1 {
            assert(drained(queues) =~= queues[n]);
        } else {
            assert(queues[queues.len() - 1].len() == 0);
            assert(drained(queues) =~= drained(front));
        }
    }
}

/// A pass is known by all its fields. In a queue the particles stand in their order.
pub proof fn law_a_pass_is_its_fields(r: Routing, i: int)
    requires
        0 <= i,
    ensures
        r@.node_queues.len() == r.node_queues@.len(),
        i < r.node_queues@.len() ==> r@.node_queues[i] == models(r.node_queues@[i]@),
        r@.next_queues.len() == r.next_queues@.len(),
        i < r.next_queues@.len() ==> r@.next_queues[i] == models(r.next_queues@[i]@),
        r@.halted.len() == r.halted@.len(),
        i < r.halted@.len() ==> r@.halted[i] == r.halted@[i]@,
        r@.step == r.step,
        r@.max_steps == r.max_steps,
        r@.active == r.active,
        r@.backpressure == r.backpressure,
{
}

} // verus!
