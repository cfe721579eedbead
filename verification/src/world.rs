//! The control-domain store: entities, their components, and the
//! external-graph boundary state.
//!
//! Every scheduler pass is a transition over one [`AudioWorld`] value.  An
//! entity is a row of optional components, mirroring the object store the
//! scheduler runs against; the audio graph itself is kept behind
//! [`crate::node::AudioGraph`], the one-way boundary the control domain
//! writes to.

use vstd::prelude::*;

use crate::dynamic::{
    spec_insert, DynamicPoolRange, DynamicPoolRegistry, Registries, RegistryEntry,
};
use crate::node::{AudioGraph, FirewheelNode, ParamFollower, PendingRemovals};
use crate::params::{Events, NodeEventType, ParamSet, ParamSetView};
use crate::pool::{
    ActiveSample, EffectsChain, NodeRank, PlaybackSettings, PoolLabel, PoolRange, RankEntry,
    SamplePlayer, SamplePoolTypes, SamplerNodes, TemplateView,
};

verus! {

broadcast use vstd::seq_lib::lemma_seq_contains_after_push;


/// One row of the store: a bag of optional components.
#[derive(Debug)]
pub struct Entity {
    /// False once the entity has been despawned.
    pub alive: bool,
    /// Excluded entities are plain data: they never acquire a graph node
    /// and are skipped by diffing.
    pub excluded: bool,
    /// True when a parameter value was written this frame.
    pub changed: bool,
    /// The diff-able parameter sets this entity carries, one per kind.
    pub params: Vec<ParamSet>,
    /// The graph-node handle, once acquired.
    pub node: Option<FirewheelNode>,
    /// The outgoing event queue, drained by the frame's flush.
    pub events: Events,
    /// A one-directional link to the entity whose parameters this one
    /// mirrors.
    pub follower: Option<ParamFollower>,
    /// The pool label this entity belongs or is addressed to.
    pub label: Option<PoolLabel>,
    /// For a worker: the effect entities wired in series behind it.
    pub chain: Option<EffectsChain>,
    /// For a worker: the bus entity of its pool.
    pub pool_root: Option<usize>,
    /// For a worker: the in-flight playback request bound to it.
    pub active: Option<ActiveSample>,
    /// For a pool bus: the per-frame ranked worker candidates.
    pub rank: Option<NodeRank>,
    /// For a pool bus: the configured capacity range.
    pub range: Option<PoolRange>,
    /// For a pool bus: the worker entities of the pool.
    pub workers: Option<SamplerNodes>,
    /// For a pool bus: the effect templates each chain is built from.
    pub defaults: Option<SamplePoolTypes>,
    /// For a playback request: the sample asset it plays.
    pub player: Option<SamplePlayer>,
    /// For a playback request: volume, repeat and completion policy.
    pub settings: Option<PlaybackSettings>,
    /// True while a playback request awaits assignment.
    pub queued: bool,
    /// For a playback request: the unordered set of requested effect
    /// kinds, the dynamic-pool registry key.
    pub registry: Option<DynamicPoolRegistry>,
    /// For a playback request: the effect templates a dynamic pool built
    /// for it will use.
    pub sample_defaults: Option<SamplePoolTypes>,
}

/// The mathematical image of one entity.
#[verifier::ext_equal]
pub ghost struct EntityView {
    pub alive: bool,
    pub excluded: bool,
    pub changed: bool,
    pub params: Seq<ParamSetView>,
    pub node: Option<u64>,
    pub events: Seq<NodeEventType>,
    pub follower: Option<usize>,
    pub label: Option<PoolLabel>,
    pub chain: Option<Seq<usize>>,
    pub pool_root: Option<usize>,
    pub active: Option<usize>,
    pub rank: Option<Seq<RankEntry>>,
    pub range: Option<PoolRange>,
    pub workers: Option<Seq<usize>>,
    pub defaults: Option<Seq<TemplateView>>,
    pub player: Option<u64>,
    pub settings: Option<PlaybackSettings>,
    pub queued: bool,
    pub registry: Option<Seq<u64>>,
    pub sample_defaults: Option<Seq<TemplateView>>,
}

impl View for Entity {
    type V = EntityView;

    open spec fn view(&self) -> EntityView {
        EntityView {
            alive: self.alive,
            excluded: self.excluded,
            changed: self.changed,
            params: self.params@.map_values(|s: ParamSet| s@),
            node: match self.node {
                Some(h) => Some(h.0),
                None => None,
            },
            events: self.events.events@,
            follower: match self.follower {
                Some(f) => Some(f.0),
                None => None,
            },
            label: self.label,
            chain: match self.chain {
                Some(c) => Some(c.0@),
                None => None,
            },
            pool_root: self.pool_root,
            active: match self.active {
                Some(a) => Some(a.sample_entity),
                None => None,
            },
            rank: match self.rank {
                Some(r) => Some(r.0@),
                None => None,
            },
            range: self.range,
            workers: match self.workers {
                Some(w) => Some(w.0@),
                None => None,
            },
            defaults: match self.defaults {
                Some(d) => Some(d@),
                None => None,
            },
            player: match self.player {
                Some(p) => Some(p.0),
                None => None,
            },
            settings: self.settings,
            queued: self.queued,
            registry: match self.registry {
                Some(r) => Some(r.effects@),
                None => None,
            },
            sample_defaults: match self.sample_defaults {
                Some(d) => Some(d@),
                None => None,
            },
        }
    }
}

/// The mathematical image of the whole store.
#[verifier::ext_equal]
pub ghost struct WorldView {
    pub ents: Seq<EntityView>,
    pub graph_next: u64,
    pub graph_nodes: Seq<u64>,
    pub graph_queue: Seq<crate::node::NodeEvent>,
    pub missing_removals: u64,
    pub removals: Seq<u64>,
    pub registries: Seq<crate::dynamic::RegistryEntryView>,
    pub dynamic_range: Option<PoolRange>,
}

/// The control-domain store plus the graph-boundary state.
#[derive(Debug)]
pub struct AudioWorld {
    /// The entities, indexed by identifier; despawned rows stay in place
    /// with `alive == false`.
    pub ents: Vec<Entity>,
    /// The control-side image of the processing graph.
    pub graph: AudioGraph,
    /// Graph removals queued until the lifecycle flush.
    pub removals: PendingRemovals,
    /// The dynamic-pool registry: effect-set key to pool label.
    pub registries: Registries,
    /// The configured size range for dynamically provisioned pools, if
    /// provisioning is enabled.
    pub dynamic_range: DynamicPoolRange,
}

impl View for AudioWorld {
    type V = WorldView;

    open spec fn view(&self) -> WorldView {
        WorldView {
            ents: self.ents@.map_values(|e: Entity| e@),
            graph_next: self.graph.next_id,
            graph_nodes: self.graph.nodes@,
            graph_queue: self.graph.queue@,
            missing_removals: self.graph.missing_removals,
            removals: self.removals.0@,
            registries: self.registries.entries@.map_values(|e: RegistryEntry| e@),
            dynamic_range: self.dynamic_range.0,
        }
    }
}

/// The entity as it stands after a despawn: dead, components untouched.
pub open spec fn killed(e: EntityView) -> EntityView {
    EntityView { alive: false, ..e }
}

impl EntityView {
    /// Structural references held by this entity stay inside the store.
    pub open spec fn indices_below(self, n: int) -> bool {
        &&& (self.follower matches Some(f) ==> (f as int) < n)
        &&& (self.pool_root matches Some(p) ==> (p as int) < n)
        &&& (self.active matches Some(a) ==> (a as int) < n)
        &&& (self.chain matches Some(c) ==> forall|k: int|
            0 <= k < c.len() ==> (#[trigger] c[k] as int) < n)
        &&& (self.workers matches Some(w) ==> forall|k: int|
            0 <= k < w.len() ==> (#[trigger] w[k] as int) < n)
        &&& (self.rank matches Some(r) ==> forall|k: int|
            0 <= k < r.len() ==> ((#[trigger] r[k]).node as int) < n)
    }

    /// Parameter sets are well formed and carry pairwise distinct kinds.
    pub open spec fn params_wf(self) -> bool {
        &&& forall|k: int| 0 <= k < self.params.len() ==> (#[trigger] self.params[k]).wf()
        &&& forall|a: int, b: int|
            0 <= a < b < self.params.len() ==> self.params[a].kind != self.params[b].kind
    }

    /// A well-formed entity in a store of `n` rows.
    pub open spec fn wf(self, n: int) -> bool {
        &&& self.indices_below(n)
        &&& self.params_wf()
        &&& (self.registry matches Some(r) ==> crate::dynamic::sorted_strict(r))
    }
}

impl AudioWorld {
    /// The number of rows in the store.
    pub open spec fn n(self) -> int {
        self@.ents.len() as int
    }

    /// The view of entity `i`.
    pub open spec fn ent(self, i: int) -> EntityView {
        self@.ents[i]
    }

    /// Every entity is well formed, the graph's handles are distinct and
    /// below its allocation counter, and the dynamic-pool registry holds
    /// sorted keys.
    pub open spec fn wf(self) -> bool {
        &&& forall|i: int| 0 <= i < self.n() ==> (#[trigger] self.ent(i)).wf(self.n())
        &&& self.graph.wf()
        &&& crate::dynamic::registries_wf(self@.registries)
    }

    /// An empty store in front of a fresh graph.
    pub fn new() -> (w: AudioWorld)
        ensures
            w.wf(),
            w.n() == 0,
            w@.graph_nodes.len() == 0,
            w@.graph_queue.len() == 0,
            w@.removals.len() == 0,
            w@.registries.len() == 0,
            w@.dynamic_range is None,
            w@.graph_next == 0,
            w@.missing_removals == 0,
    {
        AudioWorld {
            ents: Vec::new(),
            graph: AudioGraph::new(),
            removals: PendingRemovals(Vec::new()),
            registries: Registries { entries: Vec::new() },
            dynamic_range: DynamicPoolRange(None),
        }
    }

    /// The number of entities, as an executable value.
    pub fn len(&self) -> (r: usize)
        ensures
            r == self.n(),
    {
        self.ents.len()
    }

    /// Append one parameter set of a kind the row does not carry yet;
    /// its baseline starts at its value.
    pub fn add_param_set(&mut self, s: usize, kind: u64, fields: Vec<i64>)
        requires
            old(self).wf(),
            s < old(self)@.ents.len(),
            !spec_has_kind(old(self)@.ents[s as int].params, kind),
        ensures
            final(self).wf(),
            final(self)@.ents == old(self)@.ents.update(
                s as int,
                (EntityView {
                    params: old(self)@.ents[s as int].params.push(
                        ParamSetView { kind, value: fields@, baseline: fields@ },
                    ),
                    ..old(self)@.ents[s as int]
                }),
            ),
            final(self)@ == (WorldView { ents: final(self)@.ents, ..old(self)@ }),
    {
        let ghost pre = old(self)@;
        let e = &mut self.ents[s];
        e.params.push(ParamSet::new(kind, fields));
        proof {
            assert(self@.ents =~= pre.ents.update(s as int, self@.ents[s as int]));
            assert(self@.ents[s as int].params =~= pre.ents[s as int].params.push(
                ParamSetView { kind, value: fields@, baseline: fields@ },
            ));
            assert(self@.ents[s as int] =~= (EntityView {
                params: self@.ents[s as int].params,
                ..pre.ents[s as int]
            }));
            assert(self@ =~= (WorldView { ents: self@.ents, ..pre }));
            assert forall|j: int| 0 <= j < self.n() implies (#[trigger] self.ent(j)).wf(
                self.n(),
            ) by {
                assert(old(self).ent(j).wf(old(self).n()));
                if j != s {
                    assert(self.ent(j) == pre.ents[j]);
                } else {
                    let r = self.ent(j);
                    assert forall|a: int, b: int|
                        0 <= a < b < r.params.len() implies r.params[a].kind
                            != r.params[b].kind by {
                        if b < pre.ents[j].params.len() {
                            assert(pre.ents[j].params[a].kind != pre.ents[j].params[b].kind);
                        } else {
                            assert(!(exists|k2: int|
                                0 <= k2 < pre.ents[j].params.len() && (#[trigger] pre.ents[
                                    j
                                ].params[k2]).kind == kind));
                            assert(pre.ents[j].params[a].kind != kind);
                        }
                    }
                    assert forall|t: int| 0 <= t < r.params.len() implies (
                    #[trigger] r.params[t]).wf() by {
                        if t < pre.ents[j].params.len() {
                            assert(pre.ents[j].params[t].wf());
                        }
                    }
                }
            }
        }
    }

    /// Clear one row's assignment.
    pub fn clear_active(&mut self, i: usize)
        requires
            old(self).wf(),
            i < old(self)@.ents.len(),
        ensures
            final(self).wf(),
            final(self)@.ents == old(self)@.ents.update(
                i as int,
                (EntityView { active: None, ..old(self)@.ents[i as int] }),
            ),
            final(self)@ == (WorldView { ents: final(self)@.ents, ..old(self)@ }),
    {
        let ghost pre = old(self)@;
        let e = &mut self.ents[i];
        e.active = None;
        proof {
            assert(self@.ents =~= pre.ents.update(
                i as int,
                (EntityView { active: None, ..pre.ents[i as int] }),
            ));
            assert(self@ =~= (WorldView { ents: self@.ents, ..pre }));
            assert forall|j: int| 0 <= j < self.n() implies (#[trigger] self.ent(j)).wf(
                self.n(),
            ) by {
                assert(old(self).ent(j).wf(old(self).n()));
                if j != i {
                    assert(self.ent(j) == pre.ents[j]);
                }
            }
        }
    }

    /// Clear one row's follower link.
    pub fn clear_follower(&mut self, i: usize)
        requires
            old(self).wf(),
            i < old(self)@.ents.len(),
        ensures
            final(self).wf(),
            final(self)@.ents == old(self)@.ents.update(
                i as int,
                (EntityView { follower: None, ..old(self)@.ents[i as int] }),
            ),
            final(self)@ == (WorldView { ents: final(self)@.ents, ..old(self)@ }),
    {
        let ghost pre = old(self)@;
        let e = &mut self.ents[i];
        e.follower = None;
        proof {
            assert(self@.ents =~= pre.ents.update(
                i as int,
                (EntityView { follower: None, ..pre.ents[i as int] }),
            ));
            assert(self@ =~= (WorldView { ents: self@.ents, ..pre }));
            assert forall|j: int| 0 <= j < self.n() implies (#[trigger] self.ent(j)).wf(
                self.n(),
            ) by {
                assert(old(self).ent(j).wf(old(self).n()));
                if j != i {
                    assert(self.ent(j) == pre.ents[j]);
                }
            }
        }
    }

    /// Append one prepared row and return its identifier.
    pub fn push_entity(&mut self, e: Entity) -> (id: usize)
        requires
            old(self).wf(),
            e@.wf(old(self)@.ents.len() as int + 1),
        ensures
            final(self).wf(),
            id == old(self)@.ents.len(),
            final(self)@.ents == old(self)@.ents.push(e@),
            final(self)@ == (WorldView { ents: final(self)@.ents, ..old(self)@ }),
    {
        let id = self.ents.len();
        let ghost ev = e@;
        self.ents.push(e);
        proof {
            assert(self@.ents =~= old(self)@.ents.push(ev));
            assert(self@ =~= (WorldView { ents: self@.ents, ..old(self)@ }));
            assert forall|i: int| 0 <= i < self.n() implies (#[trigger] self.ent(i)).wf(
                self.n(),
            ) by {
                if i < old(self).n() {
                    assert(old(self).ent(i).wf(old(self).n()));
                }
            }
        }
        id
    }

    /// Append a blank, alive entity and return its identifier.
    pub fn spawn_empty(&mut self) -> (id: usize)
        requires
            old(self).wf(),
        ensures
            final(self).wf(),
            id == old(self).n(),
            final(self).n() == old(self).n() + 1,
            final(self)@.ents == old(self)@.ents.push(blank_entity_view()),
            final(self)@ == (WorldView { ents: final(self)@.ents, ..old(self)@ }),
    {
        let id = self.ents.len();
        self.ents.push(blank_entity());
        proof {
            assert(self@.ents =~= old(self)@.ents.push(blank_entity_view()));
            assert(self@ =~= (WorldView { ents: self@.ents, ..old(self)@ }));
            assert forall|i: int| 0 <= i < self.n() implies (#[trigger] self.ent(i)).wf(
                self.n(),
            ) by {
                if i < old(self).n() {
                    assert(old(self).ent(i).wf(old(self).n()));
                }
            }
        }
        id
    }
}

/// A fresh row with no components.
pub fn blank_entity() -> (e: Entity)
    ensures
        e@ == blank_entity_view(),
{
    let e = Entity {
        alive: true,
        excluded: false,
        changed: false,
        params: Vec::new(),
        node: None,
        events: Events::new(),
        follower: None,
        label: None,
        chain: None,
        pool_root: None,
        active: None,
        rank: None,
        range: None,
        workers: None,
        defaults: None,
        player: None,
        settings: None,
        queued: false,
        registry: None,
        sample_defaults: None,
    };
    proof {
        assert(e@ =~= blank_entity_view());
    }
    e
}

/// The view of a fresh row.
pub open spec fn blank_entity_view() -> EntityView {
    EntityView {
        alive: true,
        excluded: false,
        changed: false,
        params: Seq::empty(),
        node: None,
        events: Seq::empty(),
        follower: None,
        label: None,
        chain: None,
        pool_root: None,
        active: None,
        rank: None,
        range: None,
        workers: None,
        defaults: None,
        player: None,
        settings: None,
        queued: false,
        registry: None,
        sample_defaults: None,
    }
}


/// The worker entities of a pool bus, as store indices.
pub open spec fn spec_workers_of(w: WorldView, id: int) -> Seq<int> {
    if 0 <= id < w.ents.len() {
        match w.ents[id].workers {
            Some(ws) => ws.map_values(|u: usize| u as int),
            None => Seq::empty(),
        }
    } else {
        Seq::empty()
    }
}

/// The effect chain behind a worker, as store indices.
pub open spec fn spec_chain_of(w: WorldView, id: int) -> Seq<int> {
    if 0 <= id < w.ents.len() {
        match w.ents[id].chain {
            Some(c) => c.map_values(|u: usize| u as int),
            None => Seq::empty(),
        }
    } else {
        Seq::empty()
    }
}

/// Each listed worker followed by its effect chain.
pub open spec fn spec_workers_chains(w: WorldView, ws: Seq<int>) -> Seq<int>
    decreases ws.len(),
{
    if ws.len() == 0 {
        Seq::empty()
    } else {
        seq![ws[0]] + spec_chain_of(w, ws[0]) + spec_workers_chains(w, ws.drop_first())
    }
}

/// Everything despawning `id` tears down: the entity itself, each worker
/// of its pool with that worker's chain, and its own effect chain.
pub open spec fn spec_cascade_ids(w: WorldView, id: int) -> Seq<int> {
    seq![id] + spec_workers_chains(w, spec_workers_of(w, id)) + spec_chain_of(w, id)
}

/// Whether killing entity `j` queues handle `h`.
pub open spec fn spec_node_removed(w: WorldView, j: int, h: u64) -> bool {
    0 <= j < w.ents.len() && w.ents[j].alive && w.ents[j].node == Some(h)
}

/// Whether killing the listed entities queues handle `h`.
pub open spec fn spec_ids_remove(w: WorldView, ids: Seq<int>, h: u64) -> bool {
    exists|x: int| 0 <= x < ids.len() && spec_node_removed(w, #[trigger] ids[x], h)
}

/// Membership in a concatenation splits into its parts.
proof fn lemma_concat_contains<A>(a: Seq<A>, b: Seq<A>, x: A)
    ensures
        (a + b).contains(x) == (a.contains(x) || b.contains(x)),
{
    if (a + b).contains(x) {
        let i = choose|i: int| 0 <= i < (a + b).len() && (a + b)[i] == x;
        if i < a.len() {
            assert(a[i] == x);
        } else {
            assert(b[i - a.len()] == x);
        }
    }
    if a.contains(x) {
        let i = choose|i: int| 0 <= i < a.len() && a[i] == x;
        assert((a + b)[i] == x);
    }
    if b.contains(x) {
        let i = choose|i: int| 0 <= i < b.len() && b[i] == x;
        assert((a + b)[a.len() + i] == x);
    }
}

/// Removal over a concatenation splits into its parts.
proof fn lemma_ids_remove_concat(w: WorldView, a: Seq<int>, b: Seq<int>, h: u64)
    ensures
        spec_ids_remove(w, a + b, h) == (spec_ids_remove(w, a, h) || spec_ids_remove(w, b, h)),
{
    if spec_ids_remove(w, a + b, h) {
        let x = choose|x: int| 0 <= x < (a + b).len() && spec_node_removed(w, (a + b)[x], h);
        if x < a.len() {
            assert(spec_node_removed(w, a[x], h));
        } else {
            assert(spec_node_removed(w, b[x - a.len()], h));
        }
    }
    if spec_ids_remove(w, a, h) {
        let x = choose|x: int| 0 <= x < a.len() && spec_node_removed(w, #[trigger] a[x], h);
        assert((a + b)[x] == a[x]);
        assert(spec_ids_remove(w, a + b, h));
    }
    if spec_ids_remove(w, b, h) {
        let x = choose|x: int| 0 <= x < b.len() && spec_node_removed(w, #[trigger] b[x], h);
        assert((a + b)[a.len() + x] == b[x]);
        assert(spec_ids_remove(w, a + b, h));
    }
}

/// Removal over a single entity.
proof fn lemma_ids_remove_single(w: WorldView, j: int, h: u64)
    ensures
        spec_ids_remove(w, seq![j], h) == spec_node_removed(w, j, h),
{
    if spec_node_removed(w, j, h) {
        assert(seq![j][0] == j);
        assert(spec_ids_remove(w, seq![j], h));
    }
}

/// Removal over a snoc extension.
proof fn lemma_ids_remove_push(w: WorldView, ids: Seq<int>, c: int, h: u64)
    ensures
        spec_ids_remove(w, ids.push(c), h) == (spec_ids_remove(w, ids, h) || spec_node_removed(
            w,
            c,
            h,
        )),
{
    if spec_ids_remove(w, ids.push(c), h) {
        let x = choose|x: int|
            0 <= x < ids.push(c).len() && spec_node_removed(w, #[trigger] ids.push(c)[x], h);
        if x < ids.len() {
            assert(ids.push(c)[x] == ids[x]);
            assert(spec_ids_remove(w, ids, h));
        } else {
            assert(ids.push(c)[x] == c);
        }
    }
    if spec_ids_remove(w, ids, h) {
        let x = choose|x: int| 0 <= x < ids.len() && spec_node_removed(w, #[trigger] ids[x], h);
        assert(ids.push(c)[x] == ids[x]);
        assert(spec_ids_remove(w, ids.push(c), h));
    }
    if spec_node_removed(w, c, h) {
        assert(ids.push(c)[ids.len() as int] == c);
        assert(spec_ids_remove(w, ids.push(c), h));
    }
}

/// Peeling one worker off the processed prefix.
proof fn lemma_workers_chains_snoc(w: WorldView, ws: Seq<int>, k: int)
    requires
        0 <= k < ws.len(),
    ensures
        spec_workers_chains(w, ws.take(k + 1)) =~= spec_workers_chains(w, ws.take(k)) + (seq![
            ws[k],
        ] + spec_chain_of(w, ws[k])),
    decreases k,
{
    if k == 0 {
        assert(ws.take(1) =~= seq![ws[0]]);
        assert(ws.take(1).drop_first() =~= Seq::<int>::empty());
        assert(ws.take(0) =~= Seq::<int>::empty());
        assert(spec_workers_chains(w, ws.take(1)) == seq![ws[0]] + spec_chain_of(w, ws[0])
            + Seq::<int>::empty());
        assert(spec_workers_chains(w, ws.take(1)) =~= Seq::<int>::empty() + (seq![ws[0]]
            + spec_chain_of(w, ws[0])));
    } else {
        let tail = ws.drop_first();
        lemma_workers_chains_snoc(w, tail, k - 1);
        assert(ws.take(k + 1)[0] == ws[0]);
        assert(ws.take(k + 1).drop_first() =~= tail.take(k));
        assert(ws.take(k)[0] == ws[0]);
        assert(ws.take(k).drop_first() =~= tail.take(k - 1));
        assert(tail[k - 1] == ws[k]);
        assert(spec_workers_chains(w, ws.take(k + 1)) == seq![ws[0]] + spec_chain_of(w, ws[0])
            + spec_workers_chains(w, tail.take(k)));
        assert(spec_workers_chains(w, ws.take(k)) == seq![ws[0]] + spec_chain_of(w, ws[0])
            + spec_workers_chains(w, tail.take(k - 1)));
    }
}

impl AudioWorld {
    /// Kill one row: mark it dead and queue its graph node, if any, for
    /// deferred removal.  A dead row is left untouched.
    fn despawn_single(&mut self, id: usize)
        requires
            old(self).wf(),
            id < old(self)@.ents.len(),
        ensures
            final(self).wf(),
            final(self)@.ents.len() == old(self)@.ents.len(),
            final(self)@.ents == (if old(self)@.ents[id as int].alive {
                old(self)@.ents.update(id as int, killed(old(self)@.ents[id as int]))
            } else {
                old(self)@.ents
            }),
            forall|h: u64|
                final(self)@.removals.contains(h) == (old(self)@.removals.contains(h)
                    || spec_node_removed(old(self)@, id as int, h)),
            final(self)@ == (WorldView {
                ents: final(self)@.ents,
                removals: final(self)@.removals,
                ..old(self)@
            }),
    {
        if !self.ents[id].alive {
            proof {
                assert(self@.ents =~= old(self)@.ents);
                assert(self@ =~= old(self)@);
            }
            return ;
        }
        let ghost pre = self@;
        let node = self.ents[id].node;
        match node {
            Some(h) => {
                self.removals.push(h.0);
            },
            None => {},
        }
        let e = &mut self.ents[id];
        e.alive = false;
        proof {
            assert(self@.ents =~= pre.ents.update(id as int, killed(pre.ents[id as int])));
            assert(self@ =~= (WorldView { ents: self@.ents, removals: self@.removals, ..pre }));
            assert forall|i: int| 0 <= i < self.n() implies (#[trigger] self.ent(i)).wf(
                self.n(),
            ) by {
                assert(old(self).ent(i).wf(old(self).n()));
                if i != id {
                    assert(self.ent(i) == pre.ents[i]);
                }
            }
        }
    }

    /// Kill a list of entities, in order.
    #[verifier::rlimit(80)]
    fn despawn_list(&mut self, ids: &Vec<usize>, Ghost(w0): Ghost<WorldView>, Ghost(done): Ghost<Seq<int>>)
        requires
            old(self).wf(),
            old(self)@.ents.len() == w0.ents.len(),
            forall|x: int| 0 <= x < ids@.len() ==> (#[trigger] ids@[x] as int) < w0.ents.len(),
            forall|j: int|
                0 <= j < w0.ents.len() ==> old(self)@.ents[j] == (if done.contains(j) {
                    killed(#[trigger] w0.ents[j])
                } else {
                    w0.ents[j]
                }),
            forall|h: u64|
                old(self)@.removals.contains(h) == (w0.removals.contains(h) || spec_ids_remove(
                    w0,
                    done,
                    h,
                )),
            old(self)@ == (WorldView {
                ents: old(self)@.ents,
                removals: old(self)@.removals,
                ..w0
            }),
        ensures
            final(self).wf(),
            final(self)@.ents.len() == w0.ents.len(),
            forall|j: int|
                0 <= j < w0.ents.len() ==> final(self)@.ents[j] == (if (done + ids@.map_values(
                    |u: usize| u as int,
                )).contains(j) {
                    killed(#[trigger] w0.ents[j])
                } else {
                    w0.ents[j]
                }),
            forall|h: u64|
                final(self)@.removals.contains(h) == (w0.removals.contains(h) || spec_ids_remove(
                    w0,
                    done + ids@.map_values(|u: usize| u as int),
                    h,
                )),
            final(self)@ == (WorldView {
                ents: final(self)@.ents,
                removals: final(self)@.removals,
                ..w0
            }),
    {
        let ghost iseq = ids@.map_values(|u: usize| u as int);
        let n = ids.len();
        let mut k: usize = 0;
        proof {
            assert(done + iseq.take(0) =~= done);
        }
        while k < n
            invariant
                k <= n,
                n == ids@.len(),
                self.wf(),
                self@.ents.len() == w0.ents.len(),
                iseq == ids@.map_values(|u: usize| u as int),
                forall|j: int|
                    0 <= j < w0.ents.len() ==> self@.ents[j] == (if (done + iseq.take(
                        k as int,
                    )).contains(j) {
                        killed(#[trigger] w0.ents[j])
                    } else {
                        w0.ents[j]
                    }),
                forall|h: u64|
                    self@.removals.contains(h) == (w0.removals.contains(h) || spec_ids_remove(
                        w0,
                        done + iseq.take(k as int),
                        h,
                    )),
                self@ == (WorldView { ents: self@.ents, removals: self@.removals, ..w0 }),
            decreases n - k,
        {
            let c = ids[k];
            let ghost pre = self@;
            let ghost covered = done + iseq.take(k as int);
            proof {
                assert(iseq[k as int] == c as int);
            }
            self.despawn_single(c);
            proof {
                assert(done + iseq.take(k as int + 1) =~= covered.push(c as int));
                let covered2 = covered.push(c as int);
                assert forall|j: int|
                    0 <= j < w0.ents.len() implies self@.ents[j] == (if covered2.contains(j) {
                        killed(#[trigger] w0.ents[j])
                    } else {
                        w0.ents[j]
                    }) by {
                    if j == c as int {
                        assert(covered2.contains(c as int));
                        if covered.contains(j) {
                            assert(pre.ents[j] == killed(w0.ents[j]));
                            assert(self@.ents[j] == killed(w0.ents[j]));
                        } else {
                            assert(pre.ents[j] == w0.ents[j]);
                        }
                    } else {
                        assert(covered2.contains(j) == covered.contains(j));
                        assert(self@.ents[j] == pre.ents[j]);
                    }
                }
                assert forall|h: u64| #[trigger] self@.removals.contains(h) == (
                w0.removals.contains(h) || spec_ids_remove(w0, covered2, h)) by {
                    lemma_ids_remove_push(w0, covered, c as int, h);
                    assert(self@.removals.contains(h) == (pre.removals.contains(h)
                        || spec_node_removed(pre, c as int, h)));
                    if covered.contains(c as int) {
                        assert(pre.ents[c as int] == killed(w0.ents[c as int]));
                        assert(!spec_node_removed(pre, c as int, h));
                        if spec_node_removed(w0, c as int, h) {
                            let y = choose|y: int| 0 <= y < covered.len() && covered[y] == c as int;
                            assert(spec_node_removed(w0, #[trigger] covered[y], h));
                            assert(spec_ids_remove(w0, covered, h));
                        }
                    } else {
                        assert(pre.ents[c as int] == w0.ents[c as int]);
                        assert(spec_node_removed(pre, c as int, h) == spec_node_removed(
                            w0,
                            c as int,
                            h,
                        ));
                    }
                }
            }
            k = k + 1;
        }
        proof {
            assert(iseq.take(n as int) =~= iseq);
            assert(done + iseq.take(n as int) == done + iseq);
            assert forall|h: u64| #[trigger] self@.removals.contains(h) == (w0.removals.contains(
                h,
            ) || spec_ids_remove(w0, done + iseq, h)) by {
                assert(self@.removals.contains(h) == (w0.removals.contains(h) || spec_ids_remove(
                    w0,
                    done + iseq.take(n as int),
                    h,
                )));
            }
        }
    }

    /// Despawn an entity, cascading: a pool bus takes its worker chains
    /// with it, and a worker takes its effect chain; every contained
    /// graph handle is queued for deferred removal.
    pub fn despawn(&mut self, id: usize)
        requires
            old(self).wf(),
            id < old(self)@.ents.len(),
        ensures
            final(self).wf(),
            final(self)@.ents.len() == old(self)@.ents.len(),
            forall|j: int|
                0 <= j < old(self)@.ents.len() ==> final(self)@.ents[j] == (if spec_cascade_ids(
                    old(self)@,
                    id as int,
                ).contains(j) {
                    killed(#[trigger] old(self)@.ents[j])
                } else {
                    old(self)@.ents[j]
                }),
            forall|h: u64|
                final(self)@.removals.contains(h) == (old(self)@.removals.contains(h)
                    || spec_ids_remove(old(self)@, spec_cascade_ids(old(self)@, id as int), h)),
            final(self)@ == (WorldView {
                ents: final(self)@.ents,
                removals: final(self)@.removals,
                ..old(self)@
            }),
    {
        let ghost w0 = old(self)@;
        proof {
            assert(old(self).ent(id as int).wf(old(self).n()));
        }
        let workers: Vec<usize> = match &self.ents[id].workers {
            Some(ws) => clone_ids(&ws.0),
            None => Vec::new(),
        };
        let chain: Vec<usize> = match &self.ents[id].chain {
            Some(c) => clone_ids(&c.0),
            None => Vec::new(),
        };
        let ghost wseq = spec_workers_of(w0, id as int);
        let ghost cseq = spec_chain_of(w0, id as int);
        proof {
            assert(workers@.map_values(|u: usize| u as int) =~= wseq);
            assert(chain@.map_values(|u: usize| u as int) =~= cseq);
        }
        self.despawn_single(id);
        proof {
            assert forall|h: u64| #[trigger] self@.removals.contains(h) == (w0.removals.contains(h)
                || spec_ids_remove(w0, seq![id as int], h)) by {
                lemma_ids_remove_single(w0, id as int, h);
            }
            assert forall|j: int|
                0 <= j < w0.ents.len() implies self@.ents[j] == (if seq![id as int].contains(j) {
                    killed(#[trigger] w0.ents[j])
                } else {
                    w0.ents[j]
                }) by {
                if seq![id as int].contains(j) {
                    assert(seq![id as int][0] == id as int);
                    assert(j == id as int);
                } else if j == id as int {
                    assert(seq![id as int][0] == id as int);
                    assert(seq![id as int].contains(j));
                }
            }
        }
        let wn = workers.len();
        let mut k: usize = 0;
        proof {
            assert(seq![id as int] + spec_workers_chains(w0, wseq.take(0)) =~= seq![id as int]);
            assert(wseq.take(0) =~= Seq::<int>::empty());
        }
        while k < wn
            invariant
                k <= wn,
                wn == workers@.len(),
                self.wf(),
                self@.ents.len() == w0.ents.len(),
                wseq == workers@.map_values(|u: usize| u as int),
                cseq == spec_chain_of(w0, id as int),
                forall|t: int| 0 <= t < wn ==> 0 <= #[trigger] wseq[t] < w0.ents.len(),
                forall|j: int|
                    0 <= j < w0.ents.len() ==> self@.ents[j] == (if (seq![id as int]
                        + spec_workers_chains(w0, wseq.take(k as int))).contains(j) {
                        killed(#[trigger] w0.ents[j])
                    } else {
                        w0.ents[j]
                    }),
                forall|h: u64|
                    self@.removals.contains(h) == (w0.removals.contains(h) || spec_ids_remove(
                        w0,
                        seq![id as int] + spec_workers_chains(w0, wseq.take(k as int)),
                        h,
                    )),
                self@ == (WorldView { ents: self@.ents, removals: self@.removals, ..w0 }),
            decreases wn - k,
        {
            let wid = workers[k];
            let ghost covered = seq![id as int] + spec_workers_chains(w0, wseq.take(k as int));
            proof {
                assert(wseq[k as int] == wid as int);
            }
            let wchain: Vec<usize> = match &self.ents[wid].chain {
                Some(c) => clone_ids(&c.0),
                None => Vec::new(),
            };
            let mut batch: Vec<usize> = Vec::new();
            batch.push(wid);
            let mut x: usize = 0;
            let wcn = wchain.len();
            while x < wcn
                invariant
                    x <= wcn,
                    wcn == wchain@.len(),
                    batch@ =~= seq![wid] + wchain@.take(x as int),
                decreases wcn - x,
            {
                batch.push(wchain[x]);
                proof {
                    assert(seq![wid] + wchain@.take(x as int + 1) =~= (seq![wid] + wchain@.take(
                        x as int,
                    )).push(wchain@[x as int]));
                }
                x = x + 1;
            }
            proof {
                assert(wchain@.take(wcn as int) =~= wchain@);
                // the worker's chain read now equals its chain in the initial store
                if covered.contains(wid as int) {
                    assert(self@.ents[wid as int] == killed(w0.ents[wid as int]));
                } else {
                    assert(self@.ents[wid as int] == w0.ents[wid as int]);
                }
                assert(wchain@.map_values(|u: usize| u as int) =~= spec_chain_of(
                    w0,
                    wid as int,
                ));
                assert(batch@.map_values(|u: usize| u as int) =~= seq![wid as int]
                    + spec_chain_of(w0, wid as int));
                assert forall|t: int|
                    0 <= t < batch@.len() implies (#[trigger] batch@[t] as int)
                        < w0.ents.len() by {
                    assert(old(self).ent(wid as int).wf(old(self).n()));
                    if t > 0 {
                        assert(spec_chain_of(w0, wid as int)[t - 1] == batch@[t] as int);
                        assert(w0.ents[wid as int].chain is Some);
                    }
                }
            }
            self.despawn_list(&batch, Ghost(w0), Ghost(covered));
            proof {
                lemma_workers_chains_snoc(w0, wseq, k as int);
                assert(covered + batch@.map_values(|u: usize| u as int) =~= seq![id as int]
                    + spec_workers_chains(w0, wseq.take(k as int + 1)));
                let covered2 = seq![id as int] + spec_workers_chains(w0, wseq.take(k as int + 1));
                assert(covered + batch@.map_values(|u: usize| u as int) == covered2);
                assert forall|h: u64| #[trigger] self@.removals.contains(h) == (
                w0.removals.contains(h) || spec_ids_remove(w0, covered2, h)) by {
                    assert(self@.removals.contains(h) == (w0.removals.contains(h)
                        || spec_ids_remove(
                        w0,
                        covered + batch@.map_values(|u: usize| u as int),
                        h,
                    )));
                }
                assert forall|j: int|
                    0 <= j < w0.ents.len() implies self@.ents[j] == (if covered2.contains(j) {
                        killed(#[trigger] w0.ents[j])
                    } else {
                        w0.ents[j]
                    }) by {
                    assert(self@.ents[j] == (if (covered + batch@.map_values(
                        |u: usize| u as int,
                    )).contains(j) {
                        killed(w0.ents[j])
                    } else {
                        w0.ents[j]
                    }));
                }
            }
            k = k + 1;
        }
        proof {
            assert(wseq.take(wn as int) =~= wseq);
            assert(spec_workers_chains(w0, wseq.take(wn as int)) == spec_workers_chains(w0, wseq));
            assert forall|x: int|
                0 <= x < chain@.len() implies (#[trigger] chain@[x] as int) < w0.ents.len() by {
                assert(old(self).ent(id as int).wf(old(self).n()));
                assert(cseq[x] == chain@[x] as int);
                assert(w0.ents[id as int].chain is Some);
            }
        }
        self.despawn_list(&chain, Ghost(w0), Ghost(seq![id as int] + spec_workers_chains(w0, wseq)));
        proof {
            let total = (seq![id as int] + spec_workers_chains(w0, wseq)) + chain@.map_values(
                |u: usize| u as int,
            );
            assert(total =~= spec_cascade_ids(w0, id as int));
            assert(total == spec_cascade_ids(w0, id as int));
        }
    }
}

/// The dynamic-pool registry key a request carries, empty when none.
pub open spec fn spec_key_of(e: EntityView) -> Seq<u64> {
    match e.registry {
        Some(r) => r,
        None => Seq::empty(),
    }
}

/// The effect templates recorded on a request, empty when none.
pub open spec fn spec_defaults_of(e: EntityView) -> Seq<TemplateView> {
    match e.sample_defaults {
        Some(d) => d,
        None => Seq::empty(),
    }
}

/// A parameter object after one `effect` call: the named effect kind is
/// customized on it, recorded in its registry key, and appended to the
/// defaults its pool will be built from.
pub open spec fn spec_effected(e: EntityView, kind: u64, fields: Seq<i64>) -> EntityView {
    EntityView {
        params: spec_effected_params(e.params, kind, fields),
        registry: Some(spec_insert(spec_key_of(e), kind)),
        sample_defaults: Some(spec_defaults_of(e).push(TemplateView { kind, fields })),
        changed: true,
        ..e
    }
}

/// Whether a parameter set of this kind is already present.
pub open spec fn spec_has_kind(sets: Seq<ParamSetView>, kind: u64) -> bool {
    exists|k: int| 0 <= k < sets.len() && (#[trigger] sets[k]).kind == kind
}

/// Customizing one kind: replace the existing set of that kind, or
/// append a fresh one; the new set's baseline starts at its value.
pub open spec fn spec_effected_params(
    sets: Seq<ParamSetView>,
    kind: u64,
    fields: Seq<i64>,
) -> Seq<ParamSetView> {
    if spec_has_kind(sets, kind) {
        sets.map_values(
            |s: ParamSetView|
                if s.kind == kind {
                    ParamSetView { kind, value: fields, baseline: fields }
                } else {
                    s
                },
        )
    } else {
        sets.push(ParamSetView { kind, value: fields, baseline: fields })
    }
}

impl AudioWorld {
    /// Spawn a parameter object carrying the given sets.  Its baselines
    /// are created with it, so nothing is diffed until a value changes.
    /// An excluded object is plain data: it never joins the graph.
    pub fn spawn_plain(&mut self, params: Vec<ParamSet>, excluded: bool) -> (id: usize)
        requires
            old(self).wf(),
            forall|k: int| 0 <= k < params@.len() ==> (#[trigger] params@[k]@).wf(),
            forall|a: int, b: int|
                0 <= a < b < params@.len() ==> params@[a]@.kind != params@[b]@.kind,
        ensures
            final(self).wf(),
            id == old(self)@.ents.len(),
            final(self)@.ents == old(self)@.ents.push(
                EntityView {
                    params: params@.map_values(|s: ParamSet| s@),
                    excluded: excluded,
                    changed: true,
                    ..blank_entity_view()
                },
            ),
            final(self)@ == (WorldView { ents: final(self)@.ents, ..old(self)@ }),
    {
        let id = self.ents.len();
        let mut e = blank_entity();
        e.params = params;
        e.excluded = excluded;
        e.changed = true;
        self.ents.push(e);
        proof {
            assert(self@.ents =~= old(self)@.ents.push(
                EntityView {
                    params: params@.map_values(|s: ParamSet| s@),
                    excluded: excluded,
                    changed: true,
                    ..blank_entity_view()
                },
            ));
            assert(self@ =~= (WorldView { ents: self@.ents, ..old(self)@ }));
            assert forall|i: int| 0 <= i < self.n() implies (#[trigger] self.ent(i)).wf(
                self.n(),
            ) by {
                if i < old(self).n() {
                    assert(old(self).ent(i).wf(old(self).n()));
                }
            }
        }
        id
    }

    /// Spawn a playback request: it references its sample asset, carries
    /// its settings, and is queued for assignment.  The request entity
    /// itself is excluded from the graph; its effect parameters are
    /// plain data that worker chains will follow.
    pub fn spawn_sample(&mut self, player: SamplePlayer, settings: PlaybackSettings) -> (id:
        usize)
        requires
            old(self).wf(),
        ensures
            final(self).wf(),
            id == old(self)@.ents.len(),
            final(self)@.ents == old(self)@.ents.push(
                EntityView {
                    excluded: true,
                    changed: true,
                    queued: true,
                    player: Some(player.0),
                    settings: Some(settings),
                    ..blank_entity_view()
                },
            ),
            final(self)@ == (WorldView { ents: final(self)@.ents, ..old(self)@ }),
    {
        let id = self.ents.len();
        let mut e = blank_entity();
        e.excluded = true;
        e.changed = true;
        e.queued = true;
        e.player = Some(player);
        e.settings = Some(settings);
        self.ents.push(e);
        proof {
            assert(self@.ents =~= old(self)@.ents.push(
                EntityView {
                    excluded: true,
                    changed: true,
                    queued: true,
                    player: Some(player.0),
                    settings: Some(settings),
                    ..blank_entity_view()
                },
            ));
            assert(self@ =~= (WorldView { ents: self@.ents, ..old(self)@ }));
            assert forall|i: int| 0 <= i < self.n() implies (#[trigger] self.ent(i)).wf(
                self.n(),
            ) by {
                if i < old(self).n() {
                    assert(old(self).ent(i).wf(old(self).n()));
                }
            }
        }
        id
    }

    /// Record the effect kind in the request's registry key and append
    /// its template to the request's pool defaults.
    fn effect_registry(&mut self, sample: usize, kind: u64, fields: Vec<i64>)
        requires
            old(self).wf(),
            sample < old(self)@.ents.len(),
        ensures
            final(self).wf(),
            final(self)@.ents == old(self)@.ents.update(
                sample as int,
                EntityView {
                    registry: Some(spec_insert(spec_key_of(old(self)@.ents[sample as int]), kind)),
                    sample_defaults: Some(
                        spec_defaults_of(old(self)@.ents[sample as int]).push(
                            TemplateView { kind, fields: fields@ },
                        ),
                    ),
                    changed: true,
                    ..old(self)@.ents[sample as int]
                },
            ),
            final(self)@ == (WorldView { ents: final(self)@.ents, ..old(self)@ }),
    {
        let ghost w0 = old(self)@;
        let ghost e0 = w0.ents[sample as int];
        proof {
            assert(old(self).ent(sample as int).wf(old(self).n()));
        }
        let mut new_reg = match &self.ents[sample].registry {
            Some(r) => r.duplicate(),
            None => DynamicPoolRegistry::new(),
        };
        proof {
            assert(new_reg.effects@ == spec_key_of(e0));
            assert(new_reg.wf());
        }
        new_reg.insert(kind);
        let mut new_defs = match &self.ents[sample].sample_defaults {
            Some(d) => d.duplicate(),
            None => SamplePoolTypes::new(),
        };
        proof {
            assert(new_defs@ == spec_defaults_of(e0));
        }
        new_defs.push(kind, clone_fields_vec(&fields));
        let e = &mut self.ents[sample];
        e.registry = Some(new_reg);
        e.sample_defaults = Some(new_defs);
        e.changed = true;
        proof {
            assert(self@.ents =~= w0.ents.update(
                sample as int,
                EntityView {
                    registry: Some(spec_insert(spec_key_of(e0), kind)),
                    sample_defaults: Some(
                        spec_defaults_of(e0).push(TemplateView { kind, fields: fields@ }),
                    ),
                    changed: true,
                    ..e0
                },
            ));
            assert(self@ =~= (WorldView { ents: self@.ents, ..w0 }));
            assert forall|i: int| 0 <= i < self.n() implies (#[trigger] self.ent(i)).wf(
                self.n(),
            ) by {
                assert(old(self).ent(i).wf(old(self).n()));
                if i == sample as int {
                    crate::dynamic::lemma_spec_insert_sorted(spec_key_of(e0), kind);
                }
            }
        }
    }

    /// Customize the request's own parameter set of the effect kind.
    fn effect_params(&mut self, sample: usize, kind: u64, fields: Vec<i64>)
        requires
            old(self).wf(),
            sample < old(self)@.ents.len(),
        ensures
            final(self).wf(),
            final(self)@.ents == old(self)@.ents.update(
                sample as int,
                EntityView {
                    params: spec_effected_params(
                        old(self)@.ents[sample as int].params,
                        kind,
                        fields@,
                    ),
                    ..old(self)@.ents[sample as int]
                },
            ),
            final(self)@ == (WorldView { ents: final(self)@.ents, ..old(self)@ }),
    {
        let ghost w0 = old(self)@;
        let ghost e0 = w0.ents[sample as int];
        proof {
            assert(old(self).ent(sample as int).wf(old(self).n()));
        }
        let idx = crate::params::find_kind(&self.ents[sample].params, kind);
        match idx {
            Some(m) => {
                let e = &mut self.ents[sample];
                let ps = &mut e.params[m];
                *ps = ParamSet::new(kind, fields);
                proof {
                    assert(self@.ents =~= w0.ents.update(sample as int, self@.ents[sample as int]));
                    assert(self@.ents[sample as int].params =~= e0.params.update(
                        m as int,
                        ParamSetView { kind, value: fields@, baseline: fields@ },
                    ));
                    assert(e0.params[m as int].kind == kind);
                    assert(spec_has_kind(e0.params, kind));
                    assert forall|t: int|
                        0 <= t < e0.params.len() && t != m implies (#[trigger] e0.params[t]).kind
                            != kind by {
                        assert(e0.params[m as int].kind == kind);
                    }
                    assert(self@.ents[sample as int].params =~= spec_effected_params(
                        e0.params,
                        kind,
                        fields@,
                    ));
                }
            },
            None => {
                let e = &mut self.ents[sample];
                e.params.push(ParamSet::new(kind, fields));
                proof {
                    assert(self@.ents =~= w0.ents.update(sample as int, self@.ents[sample as int]));
                    assert(self@.ents[sample as int].params =~= e0.params.push(
                        ParamSetView { kind, value: fields@, baseline: fields@ },
                    ));
                    crate::params::lemma_find_kind_none(e0.params, kind);
                    assert(!spec_has_kind(e0.params, kind));
                    assert(self@.ents[sample as int].params =~= spec_effected_params(
                        e0.params,
                        kind,
                        fields@,
                    ));
                }
            },
        }
        proof {
            assert(self@.ents =~= w0.ents.update(
                sample as int,
                EntityView {
                    params: spec_effected_params(e0.params, kind, fields@),
                    ..e0
                },
            ));
            assert(self@ =~= (WorldView { ents: self@.ents, ..w0 }));
            assert forall|i: int| 0 <= i < self.n() implies (#[trigger] self.ent(i)).wf(
                self.n(),
            ) by {
                assert(old(self).ent(i).wf(old(self).n()));
                if i == sample as int {
                    let r = self.ent(i);
                    assert forall|t: int| 0 <= t < r.params.len() implies (
                    #[trigger] r.params[t]).wf() by {
                        if t < e0.params.len() {
                            assert(e0.params[t].wf());
                        }
                    }
                    assert forall|a: int, b: int|
                        0 <= a < b < r.params.len() implies r.params[a].kind != r.params[b].kind by {
                        if b < e0.params.len() {
                            assert(e0.params[a].kind != e0.params[b].kind);
                        } else {
                            crate::params::lemma_find_kind_none(e0.params, kind);
                            assert(e0.params[a].kind != kind);
                        }
                    }
                }
            }
        }
    }

    /// Apply an effect to a playback request: customize the effect's
    /// parameters on the request, record the kind in its registry key
    /// (order never matters), and append the template to the defaults
    /// its dynamic pool will be built from.
    pub fn effect(&mut self, sample: usize, kind: u64, fields: Vec<i64>)
        requires
            old(self).wf(),
            sample < old(self)@.ents.len(),
        ensures
            final(self).wf(),
            final(self)@.ents == old(self)@.ents.update(
                sample as int,
                spec_effected(old(self)@.ents[sample as int], kind, fields@),
            ),
            final(self)@ == (WorldView { ents: final(self)@.ents, ..old(self)@ }),
    {
        let ghost w0 = old(self)@;
        let ghost e0 = w0.ents[sample as int];
        let fields2 = clone_fields_vec(&fields);
        self.effect_registry(sample, kind, fields);
        self.effect_params(sample, kind, fields2);
        proof {
            assert(self@.ents =~= w0.ents.update(
                sample as int,
                spec_effected(e0, kind, fields@),
            ));
        }
    }
}

/// Copy a field vector (free-standing duplicate of the one in params).
pub fn clone_fields_vec(fields: &Vec<i64>) -> (r: Vec<i64>)
    ensures
        r@ == fields@,
{
    let mut r: Vec<i64> = Vec::new();
    let n = fields.len();
    let mut i: usize = 0;
    while i < n
        invariant
            i <= n,
            n == fields@.len(),
            r@ == fields@.take(i as int),
        decreases n - i,
    {
        r.push(fields[i]);
        proof {
            assert(fields@.take(i as int).push(fields@[i as int]) =~= fields@.take(i as int + 1));
        }
        i = i + 1;
    }
    proof {
        assert(fields@.take(n as int) =~= fields@);
    }
    r
}

/// Copy a list of entity identifiers.
pub fn clone_ids(ids: &Vec<usize>) -> (r: Vec<usize>)
    ensures
        r@ == ids@,
{
    let mut r: Vec<usize> = Vec::new();
    let n = ids.len();
    let mut i: usize = 0;
    while i < n
        invariant
            i <= n,
            n == ids@.len(),
            r@ == ids@.take(i as int),
        decreases n - i,
    {
        r.push(ids[i]);
        proof {
            assert(ids@.take(i as int).push(ids@[i as int]) =~= ids@.take(i as int + 1));
        }
        i = i + 1;
    }
    proof {
        assert(ids@.take(n as int) =~= ids@);
    }
    r
}

} // verus!
