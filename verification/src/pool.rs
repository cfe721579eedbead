//! Sampler pools: worker chains, ranking, assignment, growth,
//! reclamation, and teardown.

use vstd::multiset::Multiset;
use vstd::prelude::*;

use crate::params::{NodeEventType, ParamSet, ParamSetView};
use crate::world::{
    blank_entity, blank_entity_view, killed, spec_cascade_ids, spec_ids_remove, AudioWorld,
    Entity, EntityView, WorldView,
};

verus! {

/// The parameter kind carried by every sampler worker.
pub const SAMPLER_KIND: u64 = 0;

/// The parameter kind of a pool bus's volume node.
pub const VOLUME_KIND: u64 = 1;

/// A pool label, compared by its runtime value, never by type alone.
#[derive(Clone, Copy, PartialEq, Eq, Structural, Debug)]
pub enum PoolLabel {
    /// The pool that services requests with no effects and no label.
    DefaultPool,
    /// A statically declared pool label.
    Label(u64),
    /// A dynamically provisioned pool, numbered by creation order.
    DynamicPoolId(u64),
}

/// The configured number of worker chains a pool may hold.  For a fixed
/// pool the two bounds coincide.
#[derive(Clone, Copy, PartialEq, Eq, Structural, Debug)]
pub struct PoolRange {
    /// The size the pool is spawned with.
    pub min: usize,
    /// The size growth may never exceed.
    pub max: usize,
}

/// One ranked worker candidate.
#[derive(Clone, Copy, PartialEq, Eq, Structural, Debug)]
pub struct RankEntry {
    /// The worker entity.
    pub node: usize,
    /// Its availability score; idle workers score above busy ones.
    pub score: u64,
}

/// A pool bus's per-frame candidate list, descending by score; the
/// scheduler always consumes from the front.
#[derive(Debug)]
pub struct NodeRank(pub Vec<RankEntry>);

/// The effect entities wired in series behind one worker.
#[derive(Debug)]
pub struct EffectsChain(pub Vec<usize>);

/// The worker entities of one pool, in spawn order.
#[derive(Debug)]
pub struct SamplerNodes(pub Vec<usize>);

/// Binds a worker chain to the playback request it is servicing; at most
/// one per worker at a time.
#[derive(Clone, Copy, PartialEq, Eq, Structural, Debug)]
pub struct ActiveSample {
    /// The request entity being played.
    pub sample_entity: usize,
}

/// A reference to the sample asset a request plays.
#[derive(Clone, Copy, PartialEq, Eq, Structural, Debug)]
pub struct SamplePlayer(pub u64);

/// What happens to a request entity once its playback completes.
#[derive(Clone, Copy, PartialEq, Eq, Structural, Debug)]
pub enum OnComplete {
    /// Leave the request as it is.
    Preserve,
    /// Strip every pool-attached component, keeping the entity.
    Remove,
    /// Destroy the request entity altogether.
    Despawn,
}

/// Playback settings carried by a request.
#[derive(Clone, Copy, PartialEq, Eq, Structural, Debug)]
pub struct PlaybackSettings {
    /// The volume the sampler is loaded with.
    pub volume: i64,
    /// The repeat mode the sampler is loaded with.
    pub repeat: u64,
    /// The completion policy.
    pub on_complete: OnComplete,
}

/// One effect template: the kind of node to spawn per chain and the
/// default field values it starts with.
#[derive(Debug)]
pub struct EffectTemplate {
    /// The effect kind.
    pub kind: u64,
    /// Default field values for a fresh node of this kind.
    pub fields: Vec<i64>,
}

/// The mathematical image of one effect template.
#[verifier::ext_equal]
pub ghost struct TemplateView {
    pub kind: u64,
    pub fields: Seq<i64>,
}

impl View for EffectTemplate {
    type V = TemplateView;

    open spec fn view(&self) -> TemplateView {
        TemplateView { kind: self.kind, fields: self.fields@ }
    }
}

/// The ordered effect templates a pool applies to every worker chain and
/// to assigned requests that did not customize them.
#[derive(Debug)]
pub struct SamplePoolTypes(pub Vec<EffectTemplate>);

impl View for SamplePoolTypes {
    type V = Seq<TemplateView>;

    open spec fn view(&self) -> Seq<TemplateView> {
        self.0@.map_values(|t: EffectTemplate| t@)
    }
}

impl SamplePoolTypes {
    /// No templates at all.
    pub fn new() -> (r: SamplePoolTypes)
        ensures
            r@.len() == 0,
    {
        SamplePoolTypes(Vec::new())
    }

    /// Append one default node template.
    pub fn push(&mut self, kind: u64, fields: Vec<i64>)
        ensures
            final(self)@ == old(self)@.push(TemplateView { kind, fields: fields@ }),
    {
        self.0.push(EffectTemplate { kind, fields });
        proof {
            assert(self@ =~= old(self)@.push(TemplateView { kind, fields: fields@ }));
        }
    }

    /// Copy the template list.
    pub fn duplicate(&self) -> (r: SamplePoolTypes)
        ensures
            r@ == self@,
    {
        let mut out: Vec<EffectTemplate> = Vec::new();
        let n = self.0.len();
        let mut i: usize = 0;
        while i < n
            invariant
                i <= n,
                n == self.0@.len(),
                out@.map_values(|t: EffectTemplate| t@) =~= self@.take(i as int),
            decreases n - i,
        {
            let t = &self.0[i];
            let mut fields: Vec<i64> = Vec::new();
            let m = t.fields.len();
            let mut j: usize = 0;
            while j < m
                invariant
                    j <= m,
                    m == t.fields@.len(),
                    fields@ =~= t.fields@.take(j as int),
                decreases m - j,
            {
                fields.push(t.fields[j]);
                proof {
                    assert(t.fields@.take(j as int).push(t.fields@[j as int]) =~= t.fields@.take(
                        j as int + 1,
                    ));
                }
                j = j + 1;
            }
            proof {
                assert(t.fields@.take(m as int) =~= t.fields@);
            }
            out.push(EffectTemplate { kind: t.kind, fields });
            proof {
                assert(out@.map_values(|t: EffectTemplate| t@) =~= self@.take(i as int + 1));
            }
            i = i + 1;
        }
        proof {
            assert(self@.take(n as int) =~= self@);
        }
        SamplePoolTypes(out)
    }
}

/// A snapshot of one worker's runtime state, as polled from the
/// realtime domain's outbound channel.
#[derive(Clone, Copy, PartialEq, Eq, Structural, Debug)]
pub struct SamplerState {
    /// The graph handle the state belongs to.
    pub node: u64,
    /// The worker's availability score.
    pub score: u64,
    /// Whether the worker is still playing.
    pub playing: bool,
}

/// The per-frame poll of every worker's runtime state.  A worker whose
/// handle has no entry is treated as temporarily unavailable.
#[derive(Debug)]
pub struct SamplerStates {
    /// One entry per resolvable worker.
    pub entries: Vec<SamplerState>,
}

/// The first entry for `node`, if any.
pub open spec fn spec_state_of(entries: Seq<SamplerState>, node: u64) -> Option<SamplerState>
    decreases entries.len(),
{
    if entries.len() == 0 {
        None
    } else if entries[0].node == node {
        Some(entries[0])
    } else {
        spec_state_of(entries.drop_first(), node)
    }
}

impl SamplerStates {
    /// No runtime state at all.
    pub fn new() -> (r: SamplerStates)
        ensures
            r.entries@.len() == 0,
    {
        SamplerStates { entries: Vec::new() }
    }

    /// Record one worker's state.
    pub fn push(&mut self, state: SamplerState)
        ensures
            final(self).entries@ == old(self).entries@.push(state),
    {
        self.entries.push(state);
    }

    /// Look up the state polled for a handle.
    pub fn state_of(&self, node: u64) -> (r: Option<SamplerState>)
        ensures
            r == spec_state_of(self.entries@, node),
    {
        let n = self.entries.len();
        let mut i: usize = 0;
        proof {
            assert(self.entries@.skip(0) =~= self.entries@);
        }
        while i < n
            invariant
                i <= n,
                n == self.entries@.len(),
                spec_state_of(self.entries@, node) == spec_state_of(
                    self.entries@.skip(i as int),
                    node,
                ),
            decreases n - i,
        {
            proof {
                assert(self.entries@.skip(i as int)[0] == self.entries@[i as int]);
                assert(self.entries@.skip(i as int).drop_first() =~= self.entries@.skip(
                    i as int + 1,
                ));
            }
            if self.entries[i].node == node {
                return Some(self.entries[i]);
            }
            i = i + 1;
        }
        proof {
            assert(self.entries@.skip(n as int) =~= Seq::<SamplerState>::empty());
        }
        None
    }
}

/// The set of decoded sample assets, by asset identifier; assignment is
/// gated on the requested asset being present.
#[derive(Debug)]
pub struct Assets {
    /// The loaded asset identifiers.
    pub loaded: Vec<u64>,
}

impl Assets {
    /// No assets loaded.
    pub fn new() -> (r: Assets)
        ensures
            r.loaded@.len() == 0,
    {
        Assets { loaded: Vec::new() }
    }

    /// Mark one asset as decoded.
    pub fn insert(&mut self, asset: u64)
        ensures
            final(self).loaded@ == old(self).loaded@.push(asset),
    {
        self.loaded.push(asset);
    }

    /// Whether the asset has finished decoding.
    pub fn get(&self, asset: u64) -> (r: bool)
        ensures
            r == self.loaded@.contains(asset),
    {
        let n = self.loaded.len();
        let mut i: usize = 0;
        while i < n
            invariant
                i <= n,
                n == self.loaded@.len(),
                forall|k: int| 0 <= k < i ==> self.loaded@[k] != asset,
            decreases n - i,
        {
            if self.loaded[i] == asset {
                return true;
            }
            i = i + 1;
        }
        false
    }
}


/// A fresh effect node of one template: its parameters start at the
/// template's defaults, baseline in lockstep.
pub open spec fn spec_effect_entity(label: PoolLabel, t: TemplateView) -> EntityView {
    EntityView {
        params: seq![(ParamSetView { kind: t.kind, value: t.fields, baseline: t.fields })],
        label: Some(label),
        changed: true,
        ..blank_entity_view()
    }
}

/// A fresh sampler worker terminating into `bus` through `chain`.
pub open spec fn spec_worker_entity(label: PoolLabel, bus: usize, chain: Seq<usize>) -> EntityView {
    EntityView {
        params: seq![
            (ParamSetView { kind: SAMPLER_KIND, value: seq![0i64], baseline: seq![0i64] }),
        ],
        label: Some(label),
        chain: Some(chain),
        pool_root: Some(bus),
        changed: true,
        ..blank_entity_view()
    }
}

/// The rows one chain spawn appends starting at index `base`: one effect
/// node per template, then the worker wired through them.
pub open spec fn spec_chain_entities(
    label: PoolLabel,
    defaults: Seq<TemplateView>,
    base: int,
    bus: usize,
) -> Seq<EntityView> {
    defaults.map(|k: int, t: TemplateView| spec_effect_entity(label, t)).push(
        spec_worker_entity(
            label,
            bus,
            Seq::new(defaults.len(), |k: int| (base + k) as usize),
        ),
    )
}

/// Spawn one worker chain for a pool: an effect node per template, in
/// template order, then the sampler worker that owns them, all labeled
/// and left for the acquisition pass to wire into the graph.  Returns
/// the worker entity.
pub fn spawn_chain(
    world: &mut AudioWorld,
    bus: usize,
    defaults: &SamplePoolTypes,
    label: PoolLabel,
) -> (source: usize)
    requires
        old(world).wf(),
        bus < old(world)@.ents.len(),
    ensures
        final(world).wf(),
        source == old(world)@.ents.len() + defaults@.len(),
        final(world)@.ents.len() == old(world)@.ents.len() + defaults@.len() + 1,
        final(world)@.ents == old(world)@.ents + spec_chain_entities(
            label,
            defaults@,
            old(world)@.ents.len() as int,
            bus,
        ),
        final(world)@ == (WorldView { ents: final(world)@.ents, ..old(world)@ }),
{
    let ghost w0 = old(world)@;
    let ghost base = w0.ents.len() as int;
    let en = defaults.0.len();
    let mut chain: Vec<usize> = Vec::new();
    let mut k: usize = 0;
    while k < en
        invariant
            k <= en,
            en == defaults@.len(),
            world.wf(),
            bus < world@.ents.len(),
            world@.ents.len() == base + k,
            chain@ =~= Seq::new(k as nat, |t: int| (base + t) as usize),
            world@.ents == w0.ents + defaults@.take(k as int).map(
                |t: int, tv: TemplateView| spec_effect_entity(label, tv),
            ),
            world@ == (WorldView { ents: world@.ents, ..w0 }),
        decreases en - k,
    {
        let t = &defaults.0[k];
        let mut e = blank_entity();
        let mut ps: Vec<ParamSet> = Vec::new();
        let fields = crate::world::clone_fields_vec(&t.fields);
        ps.push(ParamSet::new(t.kind, fields));
        e.params = ps;
        e.label = Some(label);
        e.changed = true;
        proof {
            assert(e@ =~= spec_effect_entity(label, defaults@[k as int]));
        }
        let id = world.push_entity(e);
        chain.push(id);
        proof {
            assert(chain@ =~= Seq::new(k as nat + 1, |t: int| (base + t) as usize));
            assert(world@.ents =~= w0.ents + defaults@.take(k as int + 1).map(
                |t: int, tv: TemplateView| spec_effect_entity(label, tv),
            ));
        }
        k = k + 1;
    }
    let mut e = blank_entity();
    let mut ps: Vec<ParamSet> = Vec::new();
    let mut sampler_fields: Vec<i64> = Vec::new();
    sampler_fields.push(0);
    ps.push(ParamSet::new(SAMPLER_KIND, sampler_fields));
    e.params = ps;
    e.label = Some(label);
    e.chain = Some(EffectsChain(chain));
    e.pool_root = Some(bus);
    e.changed = true;
    proof {
        assert(e@ =~= spec_worker_entity(
            label,
            bus,
            Seq::new(defaults@.len(), |t: int| (base + t) as usize),
        ));
        assert(e@.wf(world@.ents.len() as int + 1));
    }
    let source = world.push_entity(e);
    proof {
        assert(defaults@.take(en as int) =~= defaults@);
        assert(world@.ents =~= w0.ents + spec_chain_entities(label, defaults@, base, bus));
    }
    source
}

/// The worker entities of the chains a pool spawn appends, first chain
/// first; `base` is the index of the first appended row.
pub open spec fn spec_worker_ids(base: int, elen: int, count: int) -> Seq<usize>
    decreases count,
{
    if count <= 0 {
        Seq::empty()
    } else {
        seq![((base + elen) as usize)] + spec_worker_ids(base + elen + 1, elen, count - 1)
    }
}

/// The rows the chains of a fresh pool occupy, first chain first.
pub open spec fn spec_pool_chains(
    label: PoolLabel,
    defaults: Seq<TemplateView>,
    base: int,
    bus: usize,
    count: int,
) -> Seq<EntityView>
    decreases count,
{
    if count <= 0 {
        Seq::empty()
    } else {
        spec_chain_entities(label, defaults, base, bus) + spec_pool_chains(
            label,
            defaults,
            base + defaults.len() + 1,
            bus,
            count - 1,
        )
    }
}

/// A pool bus: a volume node carrying the pool's label, rank, range,
/// worker list and effect templates.
pub open spec fn spec_pool_bus(
    label: PoolLabel,
    range: PoolRange,
    defaults: Seq<TemplateView>,
    workers: Seq<usize>,
) -> EntityView {
    EntityView {
        params: seq![(ParamSetView { kind: VOLUME_KIND, value: seq![1i64], baseline: seq![1i64] })],
        label: Some(label),
        rank: Some(Seq::empty()),
        range: Some(range),
        workers: Some(workers),
        defaults: Some(defaults),
        changed: true,
        ..blank_entity_view()
    }
}

/// An alive pool bus carrying this label.
pub open spec fn spec_pool_bus_match(w: WorldView, label: PoolLabel, b: int) -> bool {
    0 <= b < w.ents.len() && w.ents[b].alive && w.ents[b].rank is Some && w.ents[b].label == Some(
        label,
    )
}

/// An entity torn down when the pools of this label are despawned.
pub open spec fn spec_pool_member(w: WorldView, label: PoolLabel, j: int) -> bool {
    exists|b: int| #[trigger] spec_pool_bus_match(w, label, b) && spec_cascade_ids(w, b).contains(j)
}

/// A pool despawner command: destroys every pool whose label equals the
/// requested label's runtime value, cascading through worker chains.
#[derive(Clone, Copy, PartialEq, Eq, Structural, Debug)]
pub struct PoolDespawn(pub PoolLabel);

/// Structural teardown leaves every row either untouched or killed in
/// place.
proof fn lemma_cascade_stable(w0: WorldView, cur: WorldView, b: int)
    requires
        cur.ents.len() == w0.ents.len(),
        forall|j: int|
            0 <= j < w0.ents.len() ==> cur.ents[j] == w0.ents[j] || cur.ents[j] == killed(
                #[trigger] w0.ents[j],
            ),
    ensures
        spec_cascade_ids(cur, b) == spec_cascade_ids(w0, b),
{
    lemma_workers_chains_stable(w0, cur, crate::world::spec_workers_of(w0, b));
    assert(crate::world::spec_workers_of(cur, b) == crate::world::spec_workers_of(w0, b));
    assert(crate::world::spec_chain_of(cur, b) == crate::world::spec_chain_of(w0, b));
}

/// The worker-and-chain listing only reads fields a kill preserves.
proof fn lemma_workers_chains_stable(w0: WorldView, cur: WorldView, ws: Seq<int>)
    requires
        cur.ents.len() == w0.ents.len(),
        forall|j: int|
            0 <= j < w0.ents.len() ==> cur.ents[j] == w0.ents[j] || cur.ents[j] == killed(
                #[trigger] w0.ents[j],
            ),
    ensures
        crate::world::spec_workers_chains(cur, ws) == crate::world::spec_workers_chains(w0, ws),
    decreases ws.len(),
{
    if ws.len() > 0 {
        assert(crate::world::spec_chain_of(cur, ws[0]) == crate::world::spec_chain_of(w0, ws[0]));
        lemma_workers_chains_stable(w0, cur, ws.drop_first());
    }
}

impl PoolDespawn {
    /// Construct a new despawner for the given label.
    pub fn new(label: PoolLabel) -> (r: PoolDespawn)
        ensures
            r.0 == label,
    {
        PoolDespawn(label)
    }

    /// Despawn every pool whose label equals the command's label: each
    /// matching bus is destroyed together with its worker chains, and
    /// every contained graph handle is queued for removal.  Entities
    /// outside those pools are untouched.
    pub fn apply(self, world: &mut AudioWorld)
        requires
            old(world).wf(),
        ensures
            final(world).wf(),
            final(world)@.ents.len() == old(world)@.ents.len(),
            forall|j: int|
                0 <= j < old(world)@.ents.len() ==> final(world)@.ents[j] == old(world)@.ents[j]
                    || final(world)@.ents[j] == killed(#[trigger] old(world)@.ents[j]),
            forall|j: int|
                0 <= j < old(world)@.ents.len() && spec_pool_bus_match(old(world)@, self.0, j)
                    ==> !final(world)@.ents[j].alive,
            forall|j: int|
                0 <= j < old(world)@.ents.len() && !spec_pool_member(old(world)@, self.0, j)
                    ==> final(world)@.ents[j] == old(world)@.ents[j],
            forall|h: u64|
                old(world)@.removals.contains(h) ==> final(world)@.removals.contains(h),
            forall|h: u64|
                final(world)@.removals.contains(h) && !old(world)@.removals.contains(h) ==> (
                exists|b: int|
                    #[trigger] spec_pool_bus_match(old(world)@, self.0, b) && spec_ids_remove(
                        old(world)@,
                        spec_cascade_ids(old(world)@, b),
                        h,
                    )),
            final(world)@ == (WorldView {
                ents: final(world)@.ents,
                removals: final(world)@.removals,
                ..old(world)@
            }),
    {
        let ghost w0 = old(world)@;
        let label = self.0;
        let n = world.len();
        let mut i: usize = 0;
        proof {
            reveal(despawn_pool_inv);
        }
        while i < n
            invariant
                i <= n,
                n == world@.ents.len(),
                world.wf(),
                world@.ents.len() == w0.ents.len(),
                despawn_pool_inv(w0, world@, label, i as int),
                world@ == (WorldView { ents: world@.ents, removals: world@.removals, ..w0 }),
            decreases n - i,
        {
            proof {
                lemma_despawn_pool_inv_unfold(w0, world@, label, i as int);
            }
            let matches_label = world.ents[i].alive && world.ents[i].rank.is_some() && (match
                world.ents[i].label {
                Some(l) => l == label,
                None => false,
            });
            if matches_label {
                let ghost pre = world@;
                proof {
                    assert(pre.ents[i as int] == w0.ents[i as int]) by {
                        if pre.ents[i as int] == killed(w0.ents[i as int]) {
                            assert(!pre.ents[i as int].alive);
                        }
                    }
                    assert(spec_pool_bus_match(w0, label, i as int));
                }
                world.despawn(i);
                proof {
                    lemma_despawn_pool_step(w0, pre, world@, label, i as int);
                }
            } else {
                proof {
                    lemma_despawn_pool_skip(w0, world@, label, i as int, matches_label);
                }
            }
            i = i + 1;
        }
        proof {
            lemma_despawn_pool_inv_unfold(w0, world@, label, n as int);
        }
    }
}

/// The loop invariant of the pool despawner, bundled.
#[verifier::opaque]
pub open spec fn despawn_pool_inv(w0: WorldView, w: WorldView, label: PoolLabel, i: int) -> bool {
    &&& w.ents.len() == w0.ents.len()
    &&& forall|j: int|
        0 <= j < w0.ents.len() ==> w.ents[j] == w0.ents[j] || w.ents[j] == killed(
            #[trigger] w0.ents[j],
        )
    &&& forall|j: int| 0 <= j < i && spec_pool_bus_match(w0, label, j) ==> !w.ents[j].alive
    &&& forall|j: int|
        0 <= j < w0.ents.len() && !spec_pool_member(w0, label, j) ==> w.ents[j] == w0.ents[j]
    &&& forall|h: u64| w0.removals.contains(h) ==> w.removals.contains(h)
    &&& forall|h: u64|
        w.removals.contains(h) && !w0.removals.contains(h) ==> (exists|b: int|
            #[trigger] spec_pool_bus_match(w0, label, b) && spec_ids_remove(
                w0,
                spec_cascade_ids(w0, b),
                h,
            ))
}

/// The invariant is just its conjuncts.
proof fn lemma_despawn_pool_inv_unfold(w0: WorldView, w: WorldView, label: PoolLabel, i: int)
    requires
        despawn_pool_inv(w0, w, label, i),
    ensures
        w.ents.len() == w0.ents.len(),
        forall|j: int|
            0 <= j < w0.ents.len() ==> w.ents[j] == w0.ents[j] || w.ents[j] == killed(
                #[trigger] w0.ents[j],
            ),
        forall|j: int| 0 <= j < i && spec_pool_bus_match(w0, label, j) ==> !w.ents[j].alive,
        forall|j: int|
            0 <= j < w0.ents.len() && !spec_pool_member(w0, label, j) ==> w.ents[j] == w0.ents[j],
        forall|h: u64| w0.removals.contains(h) ==> w.removals.contains(h),
        forall|h: u64|
            w.removals.contains(h) && !w0.removals.contains(h) ==> (exists|b: int|
                #[trigger] spec_pool_bus_match(w0, label, b) && spec_ids_remove(
                    w0,
                    spec_cascade_ids(w0, b),
                    h,
                )),
{
    reveal(despawn_pool_inv);
}

/// Skipping a non-matching row preserves the invariant.
#[verifier::spinoff_prover]
#[verifier::rlimit(100)]
proof fn lemma_despawn_pool_skip(
    w0: WorldView,
    w: WorldView,
    label: PoolLabel,
    i: int,
    matched: bool,
)
    requires
        despawn_pool_inv(w0, w, label, i),
        0 <= i < w0.ents.len(),
        !matched,
        matched == (w.ents[i].alive && w.ents[i].rank is Some && w.ents[i].label == Some(label)),
    ensures
        despawn_pool_inv(w0, w, label, i + 1),
{
    reveal(despawn_pool_inv);
    if spec_pool_bus_match(w0, label, i) {
        assert(w.ents[i] == w0.ents[i] || w.ents[i] == killed(w0.ents[i]));
        if w.ents[i] == w0.ents[i] {
            assert(matched);
        }
        assert(!w.ents[i].alive);
    }
}

/// Despawning a matching bus advances the invariant by one row.
#[verifier::spinoff_prover]
#[verifier::rlimit(100)]
proof fn lemma_despawn_pool_step(
    w0: WorldView,
    pre: WorldView,
    post: WorldView,
    label: PoolLabel,
    i: int,
)
    requires
        despawn_pool_inv(w0, pre, label, i),
        0 <= i < w0.ents.len(),
        pre.ents[i] == w0.ents[i],
        spec_pool_bus_match(w0, label, i),
        post.ents.len() == pre.ents.len(),
        forall|j: int|
            0 <= j < pre.ents.len() ==> post.ents[j] == (if spec_cascade_ids(pre, i).contains(j) {
                killed(#[trigger] pre.ents[j])
            } else {
                pre.ents[j]
            }),
        forall|h: u64|
            post.removals.contains(h) == (pre.removals.contains(h) || spec_ids_remove(
                pre,
                spec_cascade_ids(pre, i),
                h,
            )),
    ensures
        despawn_pool_inv(w0, post, label, i + 1),
{
    reveal(despawn_pool_inv);
    lemma_cascade_stable(w0, pre, i);
    let casc = spec_cascade_ids(w0, i);
    assert forall|j: int|
        0 <= j < w0.ents.len() implies (post.ents[j] == w0.ents[j] || post.ents[j] == killed(
        #[trigger] w0.ents[j],
    )) by {
        if casc.contains(j) {
            assert(post.ents[j] == killed(pre.ents[j]));
            if pre.ents[j] == killed(w0.ents[j]) {
                assert(killed(killed(w0.ents[j])) =~= killed(w0.ents[j]));
            }
        } else {
            assert(post.ents[j] == pre.ents[j]);
        }
    }
    assert forall|j: int|
        0 <= j < w0.ents.len() && !spec_pool_member(w0, label, j) implies post.ents[j]
        == w0.ents[j] by {
        if casc.contains(j) {
            assert(spec_pool_bus_match(w0, label, i) && spec_cascade_ids(w0, i).contains(j));
            assert(spec_pool_member(w0, label, j));
        } else {
            assert(post.ents[j] == pre.ents[j]);
        }
    }
    assert forall|h: u64|
        post.removals.contains(h) && !w0.removals.contains(h) implies (exists|b: int|
        #[trigger] spec_pool_bus_match(w0, label, b) && spec_ids_remove(
            w0,
            spec_cascade_ids(w0, b),
            h,
        )) by {
        if !pre.removals.contains(h) {
            assert(spec_ids_remove(pre, casc, h));
            let x = choose|x: int|
                0 <= x < casc.len() && crate::world::spec_node_removed(pre, #[trigger] casc[x], h);
            assert(pre.ents[casc[x]].alive);
            assert(pre.ents[casc[x]] == w0.ents[casc[x]]) by {
                if pre.ents[casc[x]] == killed(w0.ents[casc[x]]) {
                    assert(!pre.ents[casc[x]].alive);
                }
            }
            assert(crate::world::spec_node_removed(w0, casc[x], h));
            assert(spec_ids_remove(w0, casc, h));
        }
    }
    assert forall|j: int|
        0 <= j < i + 1 && spec_pool_bus_match(w0, label, j) implies !post.ents[j].alive by {
        if j == i {
            assert(casc.contains(i)) by {
                assert(casc[0] == i);
            }
            assert(post.ents[i] == killed(pre.ents[i]));
        } else {
            assert(!pre.ents[j].alive);
            if casc.contains(j) {
                assert(post.ents[j] == killed(pre.ents[j]));
            } else {
                assert(post.ents[j] == pre.ents[j]);
            }
        }
    }
}

/// Commands for managing sample pools.
pub trait PoolCommands {
    /// Whether the store is in a fit state for pool commands.
    spec fn commands_inv(&self) -> bool;

    /// The mathematical image the commands act on.
    spec fn commands_view(&self) -> WorldView;

    /// Despawn every pool whose label equals the given label, cascading
    /// through worker chains; contained graph handles are queued for
    /// removal and entities outside those pools are untouched.
    fn despawn_pool(&mut self, label: PoolLabel)
        requires
            old(self).commands_inv(),
        ensures
            final(self).commands_inv(),
            final(self).commands_view().ents.len() == old(self).commands_view().ents.len(),
            forall|j: int|
                0 <= j < old(self).commands_view().ents.len() ==> final(self).commands_view().ents[j] == old(self).commands_view().ents[j] || final(self).commands_view().ents[j] == killed(
                    #[trigger] old(self).commands_view().ents[j],
                ),
            forall|j: int|
                0 <= j < old(self).commands_view().ents.len() && spec_pool_bus_match(
                    old(self).commands_view(),
                    label,
                    j,
                ) ==> !final(self).commands_view().ents[j].alive,
            forall|j: int|
                0 <= j < old(self).commands_view().ents.len() && !spec_pool_member(
                    old(self).commands_view(),
                    label,
                    j,
                ) ==> final(self).commands_view().ents[j] == old(self).commands_view().ents[j],
            forall|h: u64|
                old(self).commands_view().removals.contains(h) ==> final(self).commands_view().removals.contains(h),
            forall|h: u64|
                final(self).commands_view().removals.contains(h) && !old(self).commands_view().removals.contains(h) ==> (exists|b: int|
                    #[trigger] spec_pool_bus_match(old(self).commands_view(), label, b)
                        && spec_ids_remove(
                        old(self).commands_view(),
                        spec_cascade_ids(old(self).commands_view(), b),
                        h,
                    )),
            final(self).commands_view() == (WorldView {
                ents: final(self).commands_view().ents,
                removals: final(self).commands_view().removals,
                ..old(self).commands_view()
            }),
    ;
}

impl PoolCommands for AudioWorld {
    open spec fn commands_inv(&self) -> bool {
        self.wf()
    }

    open spec fn commands_view(&self) -> WorldView {
        self@
    }

    fn despawn_pool(&mut self, label: PoolLabel) {
        PoolDespawn::new(label).apply(self);
    }
}


/// Descending by score.
pub open spec fn spec_sorted_desc(s: Seq<RankEntry>) -> bool {
    forall|a: int, b: int| 0 <= a < b < s.len() ==> s[a].score >= s[b].score
}

/// The candidate entry one worker contributes to its pool's rank this
/// frame, if its runtime state resolves.
pub open spec fn spec_rank_candidate(
    w: WorldView,
    states: Seq<SamplerState>,
    wid: usize,
) -> Option<RankEntry> {
    if (wid as int) < w.ents.len() && w.ents[wid as int].alive && w.ents[wid as int].node is Some {
        match w.ents[wid as int].node {
            Some(h) => match spec_state_of(states, h) {
                Some(st) => Some(RankEntry { node: wid, score: st.score }),
                None => None,
            },
            None => None,
        }
    } else {
        None
    }
}

/// Every candidate the listed workers contribute, in worker order.
pub open spec fn spec_rank_candidates(
    w: WorldView,
    states: Seq<SamplerState>,
    ws: Seq<usize>,
) -> Seq<RankEntry>
    decreases ws.len(),
{
    if ws.len() == 0 {
        Seq::empty()
    } else {
        (match spec_rank_candidate(w, states, ws[0]) {
            Some(e) => seq![e],
            None => Seq::empty(),
        }) + spec_rank_candidates(w, states, ws.drop_first())
    }
}

/// Whether an entity is a pool bus whose rank is recomputed.
pub open spec fn spec_ranked_bus(e: EntityView) -> bool {
    e.alive && e.rank is Some && e.workers is Some
}

/// The ranking pass: once per frame, each pool's candidate list is fully
/// recomputed from the runtime state polled for its workers; workers
/// without resolvable state are left out for the frame.  The result is
/// ordered descending by score: a permutation of the candidates in which
/// the scheduler consumes the best first.
pub fn rank_nodes(world: &mut AudioWorld, states: &SamplerStates)
    requires
        old(world).wf(),
    ensures
        final(world).wf(),
        final(world)@.ents.len() == old(world)@.ents.len(),
        forall|j: int|
            0 <= j < old(world)@.ents.len() && !spec_ranked_bus(#[trigger] old(world)@.ents[j])
                ==> final(world)@.ents[j] == old(world)@.ents[j],
        forall|j: int|
            0 <= j < old(world)@.ents.len() && spec_ranked_bus(#[trigger] old(world)@.ents[j])
                ==> spec_ranked_entity(old(world)@, states.entries@, j, final(world)@.ents[j]),
        final(world)@ == (WorldView { ents: final(world)@.ents, ..old(world)@ }),
{
    let n = world.ents.len();
    let mut i: usize = 0;
    while i < n
        invariant
            i <= n,
            n == world@.ents.len(),
            world.wf(),
            forall|j: int|
                0 <= j < i && !spec_ranked_bus(#[trigger] old(world)@.ents[j]) ==> world@.ents[j]
                    == old(world)@.ents[j],
            forall|j: int|
                0 <= j < i && spec_ranked_bus(#[trigger] old(world)@.ents[j])
                    ==> spec_ranked_entity(old(world)@, states.entries@, j, world@.ents[j]),
            forall|j: int| i <= j < n ==> world@.ents[j] == old(world)@.ents[j],
            world@ == (WorldView { ents: world@.ents, ..old(world)@ }),
        decreases n - i,
    {
        let is_bus = world.ents[i].alive && world.ents[i].rank.is_some()
            && world.ents[i].workers.is_some();
        if is_bus {
            let ghost pre = world@;
            rank_one_bus(world, i, states);
            proof {
                assert(pre.ents[i as int] == old(world)@.ents[i as int]);
                assert forall|j2: int|
                    0 <= j2 < old(world)@.ents.len() implies (#[trigger] pre.ents[j2]).alive == old(
                    world,
                )@.ents[j2].alive && pre.ents[j2].node == old(world)@.ents[j2].node by {
                    if j2 < i as int && spec_ranked_bus(old(world)@.ents[j2]) {
                        assert(spec_ranked_entity(old(world)@, states.entries@, j2, pre.ents[j2]));
                    } else if j2 < i as int {
                        assert(pre.ents[j2] == old(world)@.ents[j2]);
                    }
                }
                let wseq = (match old(world)@.ents[i as int].workers {
                    Some(ws) => ws,
                    None => Seq::<usize>::empty(),
                });
                lemma_rank_candidates_stable(old(world)@, pre, states.entries@, wseq);
                assert(spec_ranked_entity(old(world)@, states.entries@, i as int, world@.ents[
                    i as int
                ]));
            }
        }
        i = i + 1;
    }
}

/// A bus after ranking: only its rank changed, and the new rank is a
/// descending reordering of this frame's candidates.
pub open spec fn spec_ranked_entity(
    w: WorldView,
    states: Seq<SamplerState>,
    j: int,
    e: EntityView,
) -> bool {
    &&& e == (EntityView { rank: e.rank, ..w.ents[j] })
    &&& e.rank matches Some(rs) && spec_sorted_desc(rs) && rs.to_multiset()
        == spec_rank_candidates(
        w,
        states,
        (match w.ents[j].workers {
            Some(ws) => ws,
            None => Seq::empty(),
        }),
    ).to_multiset()
}

/// Recompute one pool's rank.
#[verifier::rlimit(100)]
fn rank_one_bus(world: &mut AudioWorld, i: usize, states: &SamplerStates)
    requires
        old(world).wf(),
        i < old(world)@.ents.len(),
        spec_ranked_bus(old(world)@.ents[i as int]),
    ensures
        final(world).wf(),
        final(world)@.ents == old(world)@.ents.update(i as int, final(world)@.ents[i as int]),
        spec_ranked_entity(old(world)@, states.entries@, i as int, final(world)@.ents[i as int]),
        final(world)@ == (WorldView { ents: final(world)@.ents, ..old(world)@ }),
{
    proof {
        assert(world.ent(i as int).wf(world.n()));
    }
    let workers: Vec<usize> = match &world.ents[i].workers {
        Some(ws) => crate::world::clone_ids(&ws.0),
        None => Vec::new(),
    };
    let ghost wseq = match old(world)@.ents[i as int].workers {
        Some(ws) => ws,
        None => Seq::empty(),
    };
    proof {
        assert(workers@ == wseq);
    }
    let mut entries: Vec<RankEntry> = Vec::new();
    let wn = workers.len();
    let mut k: usize = 0;
    proof {
        assert(wseq.skip(0) =~= wseq);
    }
    while k < wn
        invariant
            k <= wn,
            wn == workers@.len(),
            workers@ == wseq,
            spec_rank_candidates(old(world)@, states.entries@, wseq) == entries@
                + spec_rank_candidates(old(world)@, states.entries@, wseq.skip(k as int)),
        decreases wn - k,
    {
        proof {
            assert(wseq.skip(k as int)[0] == wseq[k as int]);
            assert(wseq.skip(k as int).drop_first() =~= wseq.skip(k as int + 1));
        }
        let wid = workers[k];
        proof {
            assert((wid as int) < world@.ents.len());
        }
        if world.ents[wid].alive && world.ents[wid].node.is_some() {
            let h = match world.ents[wid].node {
                Some(f) => f.0,
                None => 0,
            };
            match states.state_of(h) {
                Some(st) => {
                    let ghost before = entries@;
                    entries.push(RankEntry { node: wid, score: st.score });
                    proof {
                        assert(spec_rank_candidate(old(world)@, states.entries@, wid) == Some(
                            RankEntry { node: wid, score: st.score },
                        ));
                        assert(before + (seq![(RankEntry { node: wid, score: st.score })]
                            + spec_rank_candidates(
                            old(world)@,
                            states.entries@,
                            wseq.skip(k as int + 1),
                        )) =~= entries@ + spec_rank_candidates(
                            old(world)@,
                            states.entries@,
                            wseq.skip(k as int + 1),
                        ));
                    }
                },
                None => {},
            }
        } else {
            proof {
                assert(spec_rank_candidate(old(world)@, states.entries@, wid) is None);
            }
        }
        k = k + 1;
    }
    proof {
        assert(wseq.skip(wn as int) =~= Seq::<usize>::empty());
        assert(entries@ + Seq::<RankEntry>::empty() =~= entries@);
        assert(entries@ == spec_rank_candidates(old(world)@, states.entries@, wseq));
    }
    let sorted = sort_rank(entries);
    let ghost rs = sorted@;
    let e = &mut world.ents[i];
    e.rank = Some(NodeRank(sorted));
    proof {
        assert(world@.ents =~= old(world)@.ents.update(i as int, world@.ents[i as int]));
        assert(world@.ents[i as int] =~= (EntityView {
            rank: Some(rs),
            ..old(world)@.ents[i as int]
        }));
        assert(world@ =~= (WorldView { ents: world@.ents, ..old(world)@ }));
        assert forall|j: int| 0 <= j < world.n() implies (#[trigger] world.ent(j)).wf(
            world.n(),
        ) by {
            assert(old(world).ent(j).wf(old(world).n()));
            if j == i as int {
                assert forall|t: int|
                    0 <= t < rs.len() implies ((#[trigger] rs[t]).node as int) < world.n() by {
                    broadcast use vstd::seq_lib::group_to_multiset_ensures;

                    assert(rs.contains(rs[t]));
                    assert(rs.to_multiset().count(rs[t]) > 0);
                    assert(spec_rank_candidates(old(world)@, states.entries@, wseq).to_multiset().count(
                        rs[t],
                    ) > 0);
                    assert(spec_rank_candidates(old(world)@, states.entries@, wseq).contains(
                        rs[t],
                    ));
                    lemma_rank_candidates_in_range(old(world)@, states.entries@, wseq, rs[t]);
                }
            }
        }
    }
}

/// Candidate gathering reads only liveness and handles, which ranking
/// never changes.
proof fn lemma_rank_candidates_stable(
    w0: WorldView,
    cur: WorldView,
    states: Seq<SamplerState>,
    ws: Seq<usize>,
)
    requires
        cur.ents.len() == w0.ents.len(),
        forall|j: int|
            0 <= j < w0.ents.len() ==> (#[trigger] cur.ents[j]).alive == w0.ents[j].alive
                && cur.ents[j].node == w0.ents[j].node,
    ensures
        spec_rank_candidates(cur, states, ws) == spec_rank_candidates(w0, states, ws),
    decreases ws.len(),
{
    if ws.len() > 0 {
        assert(spec_rank_candidate(cur, states, ws[0]) == spec_rank_candidate(w0, states, ws[0]));
        lemma_rank_candidates_stable(w0, cur, states, ws.drop_first());
    }
}

/// Every candidate names a worker inside the store./// Every candidate names a worker inside the store.
proof fn lemma_rank_candidates_in_range(
    w: WorldView,
    states: Seq<SamplerState>,
    ws: Seq<usize>,
    e: RankEntry,
)
    requires
        spec_rank_candidates(w, states, ws).contains(e),
    ensures
        (e.node as int) < w.ents.len(),
    decreases ws.len(),
{
    if ws.len() > 0 {
        let head = (match spec_rank_candidate(w, states, ws[0]) {
            Some(c) => seq![c],
            None => Seq::<RankEntry>::empty(),
        });
        let rest = spec_rank_candidates(w, states, ws.drop_first());
        let x = choose|x: int|
            0 <= x < spec_rank_candidates(w, states, ws).len() && spec_rank_candidates(
                w,
                states,
                ws,
            )[x] == e;
        if x < head.len() {
            assert(head[0] == e);
        } else {
            assert(rest[x - head.len()] == e);
            assert(rest.contains(e));
            lemma_rank_candidates_in_range(w, states, ws.drop_first(), e);
        }
    }
}

/// Sort candidates descending by score: the result is a reordering of
/// the input, best first; the order among equal scores is left open.
pub fn sort_rank(entries: Vec<RankEntry>) -> (sorted: Vec<RankEntry>)
    ensures
        spec_sorted_desc(sorted@),
        sorted@.to_multiset() == entries@.to_multiset(),
{
    broadcast use vstd::seq_lib::group_to_multiset_ensures;

    let mut src = entries;
    let mut out: Vec<RankEntry> = Vec::new();
    while src.len() > 0
        invariant
            spec_sorted_desc(out@),
            out@.to_multiset().add(src@.to_multiset()) == entries@.to_multiset(),
            forall|a: int, b: int|
                0 <= a < out@.len() && 0 <= b < src@.len() ==> out@[a].score >= src@[b].score,
        decreases src.len(),
    {
        // pick the best remaining candidate
        let m = src.len();
        let mut best: usize = 0;
        let mut k: usize = 1;
        while k < m
            invariant
                best < k <= m,
                m == src@.len(),
                forall|t: int| 0 <= t < k ==> src@[best as int].score >= src@[t].score,
            decreases m - k,
        {
            if src[k].score > src[best].score {
                best = k;
            }
            k = k + 1;
        }
        let ghost pre_out = out@;
        let ghost pre_src = src@;
        let e = src.remove(best);
        out.push(e);
        proof {
            assert(out@ =~= pre_out.push(e));
            assert(out@.to_multiset() =~= pre_out.to_multiset().insert(e));
            assert(src@.to_multiset() =~= pre_src.to_multiset().remove(e));
            assert(pre_src.to_multiset().contains(e)) by {
                assert(pre_src.contains(e)) by {
                    assert(pre_src[best as int] == e);
                }
            }
            assert(out@.to_multiset().add(src@.to_multiset()) =~= entries@.to_multiset());
            assert forall|a: int, b: int|
                0 <= a < out@.len() && 0 <= b < src@.len() implies out@[a].score
                >= src@[b].score by {
                if a < pre_out.len() {
                } else {
                    assert(out@[a] == e);
                    assert(src@ == pre_src.remove(best as int));
                    if b < best as int {
                        assert(src@[b] == pre_src[b]);
                    } else {
                        assert(src@[b] == pre_src[b + 1]);
                    }
                }
            }
            assert forall|a: int, b: int|
                0 <= a < b < out@.len() implies out@[a].score >= out@[b].score by {
                if b == out@.len() - 1 && a < pre_out.len() {
                    assert(out@[b] == e);
                    assert(pre_src[best as int] == e);
                }
            }
        }
    }
    proof {
        assert(src@.to_multiset() =~= Multiset::<RankEntry>::empty());
        assert(out@.to_multiset().add(Multiset::<RankEntry>::empty()) =~= out@.to_multiset());
    }
    out
}

/// The default-routing pass: a playback request with no label and no
/// dynamic registry key is addressed to the default pool.
pub fn assign_default(world: &mut AudioWorld)
    requires
        old(world).wf(),
    ensures
        final(world).wf(),
        final(world)@.ents.len() == old(world)@.ents.len(),
        forall|j: int|
            0 <= j < old(world)@.ents.len() ==> final(world)@.ents[j] == (if spec_unrouted(
                #[trigger] old(world)@.ents[j],
            ) {
                EntityView { label: Some(PoolLabel::DefaultPool), ..old(world)@.ents[j] }
            } else {
                old(world)@.ents[j]
            }),
        final(world)@ == (WorldView { ents: final(world)@.ents, ..old(world)@ }),
{
    let n = world.ents.len();
    let mut i: usize = 0;
    while i < n
        invariant
            i <= n,
            n == world@.ents.len(),
            world.wf(),
            forall|j: int|
                0 <= j < i ==> world@.ents[j] == (if spec_unrouted(#[trigger] old(world)@.ents[j]) {
                    EntityView { label: Some(PoolLabel::DefaultPool), ..old(world)@.ents[j] }
                } else {
                    old(world)@.ents[j]
                }),
            forall|j: int| i <= j < n ==> world@.ents[j] == old(world)@.ents[j],
            world@ == (WorldView { ents: world@.ents, ..old(world)@ }),
        decreases n - i,
    {
        let unrouted = world.ents[i].alive && world.ents[i].player.is_some()
            && world.ents[i].label.is_none() && world.ents[i].registry.is_none();
        if unrouted {
            let ghost pre = world@;
            let e = &mut world.ents[i];
            e.label = Some(PoolLabel::DefaultPool);
            proof {
                assert(world@.ents =~= pre.ents.update(i as int, world@.ents[i as int]));
                assert(world@.ents[i as int] =~= (EntityView {
                    label: Some(PoolLabel::DefaultPool),
                    ..old(world)@.ents[i as int]
                }));
                assert(world@ =~= (WorldView { ents: world@.ents, ..old(world)@ }));
                assert forall|j: int| 0 <= j < world.n() implies (#[trigger] world.ent(j)).wf(
                    world.n(),
                ) by {
                    assert(old(world).ent(j).wf(old(world).n()));
                    if j != i {
                        assert(world.ent(j) == pre.ents[j]);
                    }
                }
            }
        }
        i = i + 1;
    }
}

/// A playback request that neither carries a label nor requested
/// effects.
pub open spec fn spec_unrouted(e: EntityView) -> bool {
    e.alive && e.player is Some && e.label is None && e.registry is None
}


/// Create a pool's rows: a bus, `range.min` worker chains built from
/// the effect templates, and the bus's record of workers, templates and
/// range.  Rows that already stand are untouched.
#[verifier::rlimit(100)]
pub(crate) fn create_pool(
    world: &mut AudioWorld,
    label: PoolLabel,
    range: PoolRange,
    defaults: SamplePoolTypes,
) -> (bus: usize)
    requires
        old(world).wf(),
        range.min <= range.max,
    ensures
        final(world).wf(),
        bus == old(world)@.ents.len(),
        final(world)@.ents.len() == old(world)@.ents.len() + 1 + range.min * (defaults@.len()
            + 1),
        forall|j: int|
            0 <= j < old(world)@.ents.len() ==> #[trigger] final(world)@.ents[j] == old(
                world,
            )@.ents[j],
        final(world)@.ents[bus as int] == spec_pool_bus(
            label,
            range,
            defaults@,
            spec_worker_ids(bus as int + 1, defaults@.len() as int, range.min as int),
        ),
        final(world)@.ents.skip(bus as int + 1) == spec_pool_chains(
            label,
            defaults@,
            bus as int + 1,
            bus,
            range.min as int,
        ),
        final(world)@ == (WorldView { ents: final(world)@.ents, ..old(world)@ }),
{
    let ghost w0 = old(world)@;
    let ghost mid = world@;
    let bus = world.len();
    let mut e = blank_entity();
    let mut ps: Vec<ParamSet> = Vec::new();
    let mut volume_fields: Vec<i64> = Vec::new();
    volume_fields.push(1);
    ps.push(ParamSet::new(VOLUME_KIND, volume_fields));
    e.params = ps;
    e.label = Some(label);
    e.rank = Some(NodeRank(Vec::new()));
    e.range = Some(range);
    e.changed = true;
    proof {
        assert(e@ =~= spec_initial_bus(label, range));
    }
    world.push_entity(e);
    proof {
        assert(world@.ents.subrange(0, bus as int + 1) =~= mid.ents.push(
            spec_initial_bus(label, range),
        ));
    }
    let count = range.min;
    let mut workers: Vec<usize> = Vec::new();
    let mut g: usize = 0;
    let ghost elen = defaults@.len() as int;
    proof {
        assert(spec_worker_ids(bus as int + 1, elen, 0) =~= Seq::<usize>::empty());
        assert(spec_pool_chains(label, defaults@, bus as int + 1, bus, 0) =~= Seq::<
            EntityView,
        >::empty());
        assert(world@.ents.skip(bus as int + 1) =~= Seq::<EntityView>::empty());
    }
    while g < count
        invariant
            g <= count,
            world.wf(),
            bus < world@.ents.len(),
            world@.ents.len() == mid.ents.len() + 1 + g * (elen + 1),
            elen == defaults@.len(),
            world@.ents.subrange(0, bus as int + 1) == mid.ents.push(
                spec_initial_bus(label, range),
            ),
            workers@ == spec_worker_ids(bus as int + 1, elen, g as int),
            world@.ents.skip(bus as int + 1) == spec_pool_chains(
                label,
                defaults@,
                bus as int + 1,
                bus,
                g as int,
            ),
            world@ == (WorldView {
                ents: world@.ents,
                removals: world@.removals,
                ..w0
            }),
            world@.removals == mid.removals,
        decreases count - g,
    {
        let ghost pre = world@;
        let wk = spawn_chain(world, bus, &defaults, label);
        workers.push(wk);
        proof {
            lemma_mul_step(g as int, elen);
            assert(world@.ents.subrange(0, bus as int + 1) =~= pre.ents.subrange(
                0,
                bus as int + 1,
            ));
            assert(world@.ents.skip(bus as int + 1) =~= pre.ents.skip(bus as int + 1)
                + spec_chain_entities(label, defaults@, pre.ents.len() as int, bus));
            lemma_pool_chains_snoc(label, defaults@, bus as int + 1, bus, g as int);
            assert(pre.ents.len() as int == bus as int + 1 + g * (elen + 1));
            lemma_worker_ids_snoc(bus as int + 1, elen, g as int);
            assert(workers@ =~= spec_worker_ids(bus as int + 1, elen, g as int + 1));
        }
        g = g + 1;
    }
    // record the worker list and the templates on the bus
    let ghost pre = world@;
    proof {
        assert forall|i: int| 0 <= i < pre.ents.len() implies (#[trigger] pre.ents[i]).wf(
            pre.ents.len() as int,
        ) by {
            assert(world.ent(i).wf(world.n()));
        }
    }
    {
        let e2 = &mut world.ents[bus];
        e2.workers = Some(SamplerNodes(workers));
        e2.defaults = Some(defaults);
    }
    proof {
        assert(world@.ents =~= pre.ents.update(bus as int, world@.ents[bus as int]));
        assert(pre.ents[bus as int] == spec_initial_bus(label, range)) by {
            assert(pre.ents.subrange(0, bus as int + 1)[bus as int] == spec_initial_bus(
                label,
                range,
            ));
        }
        assert(world@.ents[bus as int] =~= spec_pool_bus(
            label,
            range,
            defaults@,
            spec_worker_ids(bus as int + 1, elen, count as int),
        ));
        assert(world@.ents.skip(bus as int + 1) =~= pre.ents.skip(bus as int + 1));
        assert(world@ =~= (WorldView { ents: world@.ents, removals: world@.removals, ..w0 }));
        assert forall|i: int| 0 <= i < world.n() implies (#[trigger] world.ent(i)).wf(
            world.n(),
        ) by {
            if i != bus as int {
                assert(world.ent(i) == pre.ents[i]);
                assert(pre.ents[i].wf(pre.ents.len() as int));
            } else {
                assert(bus as int == mid.ents.len());
                assert(world@.ents.len() as int == bus as int + 1 + count * (elen + 1));
                lemma_worker_ids_in_range(
                    bus as int + 1,
                    elen,
                    count as int,
                    world@.ents.len() as int,
                );
                let ws = spec_worker_ids(bus as int + 1, elen, count as int);
                assert(world.ent(i).workers == Some(ws));
                assert(forall|k: int|
                    0 <= k < ws.len() ==> ((#[trigger] ws[k]) as int) < world.n());
                assert(world.ent(i).params_wf()) by {
                    let p = world.ent(i).params;
                    assert(p.len() == 1);
                    assert(p[0].wf());
                }
            }
        }
        assert forall|j: int|
            0 <= j < w0.ents.len() implies #[trigger] world@.ents[j] == mid.ents[j] by {
            assert(world@.ents.subrange(0, bus as int + 1)[j] == mid.ents.push(
                spec_initial_bus(label, range),
            )[j]);
        }
    }
    bus
}

/// Spawn a sampler pool: any stale pool of the same label is destroyed
/// first; then a bus is spawned, `range.min` worker chains are built
/// from the effect templates, and the bus records the workers, the
/// templates and the configured range.  Every node joins the graph at
/// the next acquisition pass.
pub fn spawn_pool(
    world: &mut AudioWorld,
    label: PoolLabel,
    range: PoolRange,
    defaults: SamplePoolTypes,
) -> (bus: usize)
    requires
        old(world).wf(),
        range.min <= range.max,
    ensures
        final(world).wf(),
        bus == old(world)@.ents.len(),
        // the rows that stood before: pools of this label are gone, the
        // rest is untouched
        forall|j: int|
            0 <= j < old(world)@.ents.len() ==> final(world)@.ents[j] == old(world)@.ents[j]
                || final(world)@.ents[j] == killed(#[trigger] old(world)@.ents[j]),
        forall|j: int|
            0 <= j < old(world)@.ents.len() && spec_pool_bus_match(old(world)@, label, j)
                ==> !final(world)@.ents[j].alive,
        forall|j: int|
            0 <= j < old(world)@.ents.len() && !spec_pool_member(old(world)@, label, j)
                ==> final(world)@.ents[j] == old(world)@.ents[j],
        // the new pool: one bus plus `range.min` chains of
        // `defaults@.len()` effects each
        final(world)@.ents.len() == old(world)@.ents.len() + 1 + range.min * (defaults@.len()
            + 1),
        final(world)@.ents[bus as int] == spec_pool_bus(
            label,
            range,
            defaults@,
            spec_worker_ids(bus as int + 1, defaults@.len() as int, range.min as int),
        ),
        final(world)@.ents.skip(bus as int + 1) == spec_pool_chains(
            label,
            defaults@,
            bus as int + 1,
            bus,
            range.min as int,
        ),
        final(world)@ == (WorldView {
            ents: final(world)@.ents,
            removals: final(world)@.removals,
            ..old(world)@
        }),
{
    let ghost w0 = old(world)@;
    PoolDespawn::new(label).apply(world);
    let ghost mid = world@;
    let bus = create_pool(world, label, range, defaults);
    proof {
        assert(bus == w0.ents.len());
        assert forall|j: int|
            0 <= j < w0.ents.len() implies #[trigger] final(world)@.ents[j] == mid.ents[j] by {
        }
    }
    bus
}

/// The bus row as first spawned, before its workers are recorded.
pub open spec fn spec_initial_bus(label: PoolLabel, range: PoolRange) -> EntityView {
    EntityView {
        params: seq![(ParamSetView { kind: VOLUME_KIND, value: seq![1i64], baseline: seq![1i64] })],
        label: Some(label),
        rank: Some(Seq::empty()),
        range: Some(range),
        changed: true,
        ..blank_entity_view()
    }
}

/// One more chain extends the id listing by one worker.
proof fn lemma_worker_ids_snoc(base: int, elen: int, g: int)
    requires
        0 <= g,
        0 <= elen,
    ensures
        spec_worker_ids(base, elen, g + 1) =~= spec_worker_ids(base, elen, g).push(
            ((base + g * (elen + 1) + elen) as usize),
        ),
    decreases g,
{
    if g == 0 {
        assert(g == 0 ==> base + g * (elen + 1) + elen == base + elen) by (nonlinear_arith);
        assert(spec_worker_ids(base, elen, 1) =~= seq![((base + elen) as usize)]
            + spec_worker_ids(base + elen + 1, elen, 0));
    } else {
        lemma_worker_ids_snoc(base + elen + 1, elen, g - 1);
        assert((base + elen + 1) + (g - 1) * (elen + 1) == base + g * (elen + 1)) by (nonlinear_arith);
    }
}

/// One more chain extends the row listing by one chain.
proof fn lemma_pool_chains_snoc(label: PoolLabel, defaults: Seq<TemplateView>, base: int, bus: usize, g: int)
    requires
        0 <= g,
    ensures
        spec_pool_chains(label, defaults, base, bus, g + 1) =~= spec_pool_chains(
            label,
            defaults,
            base,
            bus,
            g,
        ) + spec_chain_entities(
            label,
            defaults,
            base + g * (defaults.len() as int + 1),
            bus,
        ),
    decreases g,
{
    let elen = defaults.len() as int;
    if g == 0 {
        assert(g == 0 ==> g * (elen + 1) == 0) by (nonlinear_arith);
        assert(spec_pool_chains(label, defaults, base, bus, 1) =~= spec_chain_entities(
            label,
            defaults,
            base,
            bus,
        ) + spec_pool_chains(label, defaults, base + elen + 1, bus, 0));
    } else {
        lemma_pool_chains_snoc(label, defaults, base + elen + 1, bus, g - 1);
        assert((base + elen + 1) + (g - 1) * (elen + 1) == base + g * (elen + 1)) by (nonlinear_arith);
    }
}

/// Length step used by the spawn loop.
proof fn lemma_mul_step(g: int, elen: int)
    ensures
        (g + 1) * (elen + 1) == g * (elen + 1) + elen + 1,
{
    assert((g + 1) * (elen + 1) == g * (elen + 1) + elen + 1) by (nonlinear_arith);
}

/// Worker ids of a fresh pool stay inside the store.
proof fn lemma_worker_ids_in_range(base: int, elen: int, count: int, n: int)
    requires
        0 <= elen,
        0 <= count,
        base + count * (elen + 1) <= n,
        0 <= base,
    ensures
        forall|t: int|
            0 <= t < spec_worker_ids(base, elen, count).len() ==> (
            #[trigger] spec_worker_ids(base, elen, count)[t] as int) < n,
        spec_worker_ids(base, elen, count).len() == count,
    decreases count,
{
    if count > 0 {
        assert(base + elen + 1 + (count - 1) * (elen + 1) == base + count * (elen + 1))
            by (nonlinear_arith);
        assert(count >= 1 && elen >= 0 ==> (count - 1) * (elen + 1) >= 0) by (nonlinear_arith);
        lemma_worker_ids_in_range(base + elen + 1, elen, count - 1, n);
        let s = spec_worker_ids(base, elen, count);
        assert forall|t: int| 0 <= t < s.len() implies (#[trigger] s[t] as int) < n by {
            if t == 0 {
                assert(s[0] == (base + elen) as usize);
            } else {
                assert(s[t] == spec_worker_ids(base + elen + 1, elen, count - 1)[t - 1]);
            }
        }
    }
}


/// Whether the monitor pass stops worker `j` this frame: it holds an
/// assignment whose request entity no longer exists as a playback
/// request.
pub open spec fn spec_dangling(w: WorldView, j: int) -> bool {
    let e = w.ents[j];
    &&& e.alive
    &&& e.chain is Some
    &&& (match e.active {
        Some(s) => !((s as int) < w.ents.len() && w.ents[s as int].alive && w.ents[
            s as int
        ].player is Some),
        None => false,
    })
}

/// One entity after the monitor pass: a dangling worker queues a stop
/// command and loses its assignment; effect nodes behind any dangling
/// worker lose their follower links; everything else is untouched.
pub open spec fn spec_monitored_entity(w: WorldView, j: int) -> EntityView {
    let e0 = w.ents[j];
    let e1 = if spec_dangling(w, j) {
        EntityView { active: None, events: e0.events.push(NodeEventType::SequenceStop), ..e0 }
    } else {
        e0
    };
    if exists|i: int|
        0 <= i < w.ents.len() && #[trigger] spec_dangling(w, i) && (match w.ents[i].chain {
            Some(c) => c.contains(j as usize),
            None => false,
        }) {
        EntityView { follower: None, ..e1 }
    } else {
        e1
    }
}

/// The same, restricted to dangling workers before position `bound`.
pub open spec fn spec_monitored_upto(w: WorldView, j: int, bound: int) -> EntityView {
    let e0 = w.ents[j];
    let e1 = if spec_dangling(w, j) && j < bound {
        EntityView { active: None, events: e0.events.push(NodeEventType::SequenceStop), ..e0 }
    } else {
        e0
    };
    if exists|i: int|
        0 <= i < bound && #[trigger] spec_dangling(w, i) && (match w.ents[i].chain {
            Some(c) => c.contains(j as usize),
            None => false,
        }) {
        EntityView { follower: None, ..e1 }
    } else {
        e1
    }
}

/// The monitor pass: a worker whose assigned request entity was
/// destroyed outside the normal completion path is stopped explicitly
/// (a stop command is queued), its assignment is cleared, and its
/// chain's follower links are torn down.
#[verifier::rlimit(100)]
pub fn monitor_active(world: &mut AudioWorld)
    requires
        old(world).wf(),
    ensures
        final(world).wf(),
        final(world)@.ents.len() == old(world)@.ents.len(),
        forall|j: int|
            0 <= j < old(world)@.ents.len() ==> final(world)@.ents[j] == spec_monitored_entity(
                old(world)@,
                j,
            ),
        final(world)@ == (WorldView { ents: final(world)@.ents, ..old(world)@ }),
{
    let n = world.ents.len();
    let mut i: usize = 0;
    while i < n
        invariant
            i <= n,
            n == world@.ents.len(),
            world.wf(),
            forall|j: int|
                0 <= j < n ==> world@.ents[j] == spec_monitored_upto(old(world)@, j, i as int),
            world@ == (WorldView { ents: world@.ents, ..old(world)@ }),
        decreases n - i,
    {
        proof {
            assert(world.ent(i as int).wf(world.n()));
            lemma_monitored_shape(old(world)@, i as int, i as int);
        }
        let dangling = world.ents[i].alive && world.ents[i].chain.is_some() && (match
            world.ents[i].active {
            Some(a) => {
                let s = a.sample_entity;
                !(world.ents[s].alive && world.ents[s].player.is_some())
            },
            None => false,
        });
        if dangling {
            let ghost pre = world@;
            proof {
                let s = (match old(world)@.ents[i as int].active {
                    Some(s) => s as int,
                    None => 0,
                });
                if 0 <= s < world@.ents.len() {
                    lemma_monitored_shape(old(world)@, s, i as int);
                }
                assert(spec_dangling(old(world)@, i as int));
            }
            let chain: Vec<usize> = match &world.ents[i].chain {
                Some(c) => crate::world::clone_ids(&c.0),
                None => Vec::new(),
            };
            proof {
                assert forall|j: int| 0 <= j < pre.ents.len() implies (#[trigger] pre.ents[j]).wf(
                    pre.ents.len() as int,
                ) by {
                    assert(world.ent(j).wf(world.n()));
                }
            }
            {
                let e = &mut world.ents[i];
                e.events.push(NodeEventType::SequenceStop);
                e.active = None;
            }
            let cn = chain.len();
            let mut k: usize = 0;
            proof {
                assert(world@.ents =~= pre.ents.update(i as int, world@.ents[i as int]));
                assert forall|j: int| 0 <= j < world.n() implies (#[trigger] world.ent(j)).wf(
                    world.n(),
                ) by {
                    assert(pre.ents[j].wf(pre.ents.len() as int));
                    if j != i {
                        assert(world.ent(j) == pre.ents[j]);
                    }
                }
            }
            while k < cn
                invariant
                    k <= cn,
                    cn == chain@.len(),
                    world.wf(),
                    n == world@.ents.len(),
                    (match old(world)@.ents[i as int].chain {
                        Some(c) => chain@ == c,
                        None => false,
                    }),
                    spec_dangling(old(world)@, i as int),
                    i < n,
                    forall|j: int|
                        0 <= j < n ==> world@.ents[j] == (if chain@.take(k as int).contains(
                            j as usize,
                        ) {
                            (EntityView {
                                follower: None,
                                ..spec_monitored_step(old(world)@, j, i as int)
                            })
                        } else {
                            spec_monitored_step(old(world)@, j, i as int)
                        }),
                    world@ == (WorldView { ents: world@.ents, ..old(world)@ }),
                decreases cn - k,
            {
                let c = chain[k];
                let ghost pre2 = world@;
                proof {
                    assert((c as int) < n as int) by {
                        assert(old(world).ent(i as int).wf(old(world).n()));
                    }
                }
                {
                    let e = &mut world.ents[c];
                    e.follower = None;
                }
                proof {
                    assert(world@.ents =~= pre2.ents.update(c as int, world@.ents[c as int]));
                    assert(chain@.take(k as int + 1) =~= chain@.take(k as int).push(c));
                    assert forall|j: int|
                        0 <= j < n implies world@.ents[j] == (if chain@.take(k as int + 1).contains(
                            j as usize,
                        ) {
                            (EntityView {
                                follower: None,
                                ..spec_monitored_step(old(world)@, j, i as int)
                            })
                        } else {
                            spec_monitored_step(old(world)@, j, i as int)
                        }) by {
                        if j == c as int {
                            assert(chain@.take(k as int + 1)[k as int] == c);
                            assert(chain@.take(k as int + 1).contains(c));
                            assert(world@.ents[j].follower is None);
                            assert(world@.ents[j] =~= (EntityView {
                                follower: None,
                                ..pre2.ents[j]
                            }));
                            let st = spec_monitored_step(old(world)@, j, i as int);
                            if chain@.take(k as int).contains(j as usize) {
                                assert(pre2.ents[j] == (EntityView { follower: None, ..st }));
                                assert(world@.ents[j] =~= (EntityView { follower: None, ..st }));
                            } else {
                                assert(pre2.ents[j] == st);
                            }
                        } else {
                            assert(world@.ents[j] == pre2.ents[j]);
                            assert(chain@.take(k as int + 1).contains(j as usize) == chain@.take(
                                k as int,
                            ).contains(j as usize)) by {
                                if chain@.take(k as int + 1).contains(j as usize) {
                                    let x = choose|x: int|
                                        0 <= x < chain@.take(k as int + 1).len() && #[trigger] chain@.take(
                                            k as int + 1,
                                        )[x] == (j as usize);
                                    if x < k as int {
                                        assert(chain@.take(k as int)[x] == (j as usize));
                                    } else {
                                        assert(chain@.take(k as int + 1)[x] == c);
                                        assert(false);
                                    }
                                } else {
                                    if chain@.take(k as int).contains(j as usize) {
                                        let x = choose|x: int|
                                            0 <= x < chain@.take(k as int).len() && #[trigger] chain@.take(
                                                k as int,
                                            )[x] == (j as usize);
                                        assert(chain@.take(k as int + 1)[x] == (j as usize));
                                    }
                                }
                            }
                        }
                    }
                    assert forall|j: int| 0 <= j < world.n() implies (#[trigger] world.ent(
                        j,
                    )).wf(world.n()) by {
                        assert(old(world).ent(j).wf(old(world).n()));
                        lemma_monitored_step_wf(old(world)@, j, i as int, world.n());
                    }
                }
                k = k + 1;
            }
            proof {
                assert(chain@.take(cn as int) =~= chain@);
                assert forall|j: int|
                    0 <= j < n implies world@.ents[j] == spec_monitored_upto(
                    old(world)@,
                    j,
                    i as int + 1,
                ) by {
                    lemma_monitored_upto_step(old(world)@, j, i as int, chain@, world@.ents[j]);
                }
            }
        } else {
            proof {
                assert(!spec_dangling(old(world)@, i as int)) by {
                    let e = old(world)@.ents[i as int];
                    match e.active {
                        Some(a) => {
                            if e.alive && e.chain is Some && (a as int) < n as int {
                                lemma_monitored_shape(old(world)@, a as int, i as int);
                            }
                        },
                        None => {},
                    }
                }
                assert forall|j: int|
                    0 <= j < n implies world@.ents[j] == spec_monitored_upto(
                    old(world)@,
                    j,
                    i as int + 1,
                ) by {
                    lemma_monitored_upto_same(old(world)@, j, i as int);
                }
            }
        }
        i = i + 1;
    }
    proof {
        assert forall|j: int|
            0 <= j < old(world)@.ents.len() implies final(world)@.ents[j] == spec_monitored_entity(
            old(world)@,
            j,
        ) by {
            lemma_monitored_full(old(world)@, j);
        }
    }
}

/// The state of one row after the stop-and-clear of workers below
/// `bound`, before any follower tear-down of the worker at `bound`.
pub open spec fn spec_monitored_step(w: WorldView, j: int, i: int) -> EntityView {
    let e0 = w.ents[j];
    let e1 = if spec_dangling(w, j) && j <= i {
        EntityView { active: None, events: e0.events.push(NodeEventType::SequenceStop), ..e0 }
    } else {
        e0
    };
    if exists|t: int|
        0 <= t < i && #[trigger] spec_dangling(w, t) && (match w.ents[t].chain {
            Some(c) => c.contains(j as usize),
            None => false,
        }) {
        EntityView { follower: None, ..e1 }
    } else {
        e1
    }
}

/// The monitor pass only clears assignments and follower links and
/// pushes events, so liveness, chains and assignments-to-samples keep
/// their shape.
proof fn lemma_monitored_shape(w: WorldView, j: int, bound: int)
    requires
        0 <= j < w.ents.len(),
    ensures
        spec_monitored_upto(w, j, bound).alive == w.ents[j].alive,
        spec_monitored_upto(w, j, bound).chain == w.ents[j].chain,
        spec_monitored_upto(w, j, bound).player == w.ents[j].player,
        spec_monitored_upto(w, j, bound).node == w.ents[j].node,
        bound <= j ==> spec_monitored_upto(w, j, bound).active == w.ents[j].active,
{
}

/// A monitored row stays well formed: the pass only clears assignments
/// and follower links, and appends events.
proof fn lemma_monitored_step_wf(w: WorldView, j: int, i: int, n: int)
    requires
        0 <= j < w.ents.len(),
        w.ents[j].wf(n),
    ensures
        spec_monitored_step(w, j, i).wf(n),
        (EntityView { follower: None, ..spec_monitored_step(w, j, i) }).wf(n),
{
}

/// Extending the bound past a non-dangling worker changes nothing.
proof fn lemma_monitored_upto_same(w: WorldView, j: int, i: int)
    requires
        0 <= j < w.ents.len(),
        0 <= i < w.ents.len(),
        !spec_dangling(w, i),
    ensures
        spec_monitored_upto(w, j, i) == spec_monitored_upto(w, j, i + 1),
{
    if exists|t: int|
        0 <= t < i + 1 && #[trigger] spec_dangling(w, t) && (match w.ents[t].chain {
            Some(c) => c.contains(j as usize),
            None => false,
        }) {
        let t = choose|t: int|
            0 <= t < i + 1 && #[trigger] spec_dangling(w, t) && (match w.ents[t].chain {
                Some(c) => c.contains(j as usize),
                None => false,
            });
        assert(t != i);
        assert(0 <= t < i && spec_dangling(w, t) && (match w.ents[t].chain {
            Some(c) => c.contains(j as usize),
            None => false,
        }));
    }
}

/// Processing the dangling worker at the bound extends the covered
/// prefix by that worker and its chain tear-down.
proof fn lemma_monitored_upto_step(
    w: WorldView,
    j: int,
    i: int,
    chain: Seq<usize>,
    e: EntityView,
)
    requires
        0 <= j < w.ents.len(),
        0 <= i < w.ents.len(),
        spec_dangling(w, i),
        (match w.ents[i].chain {
            Some(c) => chain == c,
            None => false,
        }),
        e == (if chain.contains(j as usize) {
            (EntityView { follower: None, ..spec_monitored_step(w, j, i) })
        } else {
            spec_monitored_step(w, j, i)
        }),
    ensures
        e == spec_monitored_upto(w, j, i + 1),
{
    let cover_new = exists|t: int|
        0 <= t < i + 1 && #[trigger] spec_dangling(w, t) && (match w.ents[t].chain {
            Some(c) => c.contains(j as usize),
            None => false,
        });
    let cover_old = exists|t: int|
        0 <= t < i && #[trigger] spec_dangling(w, t) && (match w.ents[t].chain {
            Some(c) => c.contains(j as usize),
            None => false,
        });
    if chain.contains(j as usize) {
        assert(spec_dangling(w, i) && (match w.ents[i].chain {
            Some(c) => c.contains(j as usize),
            None => false,
        }));
        assert(cover_new);
    } else {
        if cover_new && !cover_old {
            let t = choose|t: int|
                0 <= t < i + 1 && #[trigger] spec_dangling(w, t) && (match w.ents[t].chain {
                    Some(c) => c.contains(j as usize),
                    None => false,
                });
            assert(t == i);
            assert(false);
        }
        if cover_old {
            let t = choose|t: int|
                0 <= t < i && #[trigger] spec_dangling(w, t) && (match w.ents[t].chain {
                    Some(c) => c.contains(j as usize),
                    None => false,
                });
            assert(0 <= t < i + 1 && spec_dangling(w, t) && (match w.ents[t].chain {
                Some(c) => c.contains(j as usize),
                None => false,
            }));
        }
    }
}

/// At the end of the scan the covered prefix is the whole store.
proof fn lemma_monitored_full(w: WorldView, j: int)
    requires
        0 <= j < w.ents.len(),
    ensures
        spec_monitored_upto(w, j, w.ents.len() as int) == spec_monitored_entity(w, j),
{
}


/// Whether worker `j` is reclaimed this frame: it holds an assignment
/// and the graph reports its playback has ended.
pub open spec fn spec_reclaimed(w: WorldView, states: Seq<SamplerState>, j: int) -> bool {
    let e = w.ents[j];
    &&& e.alive
    &&& e.chain is Some
    &&& e.active is Some
    &&& (match e.node {
        Some(h) => match spec_state_of(states, h) {
            Some(st) => !st.playing,
            None => false,
        },
        None => false,
    })
}

/// A plain, alive request with settings, fit for a completion policy.
pub open spec fn spec_target_base(w: WorldView, j: int) -> bool {
    &&& 0 <= j < w.ents.len()
    &&& w.ents[j].alive
    &&& w.ents[j].settings is Some
    &&& w.ents[j].chain is None
    &&& w.ents[j].workers is None
    &&& w.ents[j].active is None
}

/// Whether the completion policy acts on request `j`: it is the bound
/// request of some reclaimed worker.
pub open spec fn spec_policy_target(w: WorldView, states: Seq<SamplerState>, j: int) -> bool {
    &&& spec_target_base(w, j)
    &&& (exists|i: int|
        0 <= i < w.ents.len() && #[trigger] spec_reclaimed(w, states, i) && w.ents[i].active
            == Some(j as usize))
}

/// A request stripped of every pool-attached component: only the bare
/// row remains.
pub open spec fn spec_stripped(e: EntityView) -> EntityView {
    EntityView { alive: e.alive, changed: e.changed, ..blank_entity_view() }
}

/// Whether row `j` can be touched by the reclamation pass at all.
pub open spec fn spec_reclaim_involved(w: WorldView, states: Seq<SamplerState>, j: int) -> bool {
    ||| spec_reclaimed(w, states, j)
    ||| (exists|i: int|
        0 <= i < w.ents.len() && #[trigger] spec_reclaimed(w, states, i) && (match w.ents[i].chain {
            Some(c) => c.contains(j as usize),
            None => false,
        }))
    ||| spec_policy_target(w, states, j)
}

/// How any single row can look while the reclamation pass runs: at most
/// its assignment or follower link is cleared, or its completion policy
/// has already been applied.
pub open spec fn spec_reclaim_shape(e0: EntityView, we: EntityView) -> bool {
    ||| we == e0
    ||| (we == (EntityView { active: None, ..e0 }) && e0.chain is Some)
    ||| we == (EntityView { follower: None, ..e0 })
    ||| (we == (EntityView { follower: None, active: None, ..e0 }) && e0.chain is Some)
    ||| (we == spec_stripped(e0) && (e0.settings matches Some(st) && st.on_complete
        == OnComplete::Remove) && e0.chain is None && e0.workers is None && e0.active is None)
    ||| ((we == killed(e0) || we == killed((EntityView { follower: None, ..e0 }))) && (
    e0.settings matches Some(st) && st.on_complete == OnComplete::Despawn) && e0.chain is None
        && e0.workers is None && e0.active is None)
}

/// The completion policy's exact outcome on one request.
pub open spec fn spec_policy_done(w0: WorldView, w: WorldView, j: int) -> bool {
    match w0.ents[j].settings {
        Some(st) => match st.on_complete {
            OnComplete::Preserve => w.ents[j] == w0.ents[j] || w.ents[j] == (EntityView {
                follower: None,
                ..w0.ents[j]
            }),
            OnComplete::Remove => w.ents[j] == spec_stripped(w0.ents[j]),
            OnComplete::Despawn => !w.ents[j].alive,
        },
        None => true,
    }
}

/// The reclamation pass's loop invariant after scanning `i` rows.
#[verifier::opaque]
pub open spec fn remove_finished_inv(
    w0: WorldView,
    w: WorldView,
    states: Seq<SamplerState>,
    i: int,
) -> bool {
    &&& w.ents.len() == w0.ents.len()
    &&& forall|j: int|
        0 <= j < w0.ents.len() ==> spec_reclaim_shape(w0.ents[j], #[trigger] w.ents[j])
    &&& forall|j: int|
        0 <= j < i && spec_reclaimed(w0, states, j) ==> (#[trigger] w.ents[j]).active is None
    &&& forall|j: int|
        i <= j < w0.ents.len() ==> (#[trigger] w.ents[j]).active == w0.ents[j].active
    &&& forall|j: int|
        spec_policy_target_upto(w0, states, i, j) ==> spec_policy_done(w0, w, j)
    &&& forall|i2: int, c: int|
        #![trigger spec_reclaimed(w0, states, i2), w.ents[c]]
        0 <= i2 < i && spec_reclaimed(w0, states, i2) && 0 <= c < w0.ents.len() && (match
            w0.ents[i2].chain {
            Some(ch) => ch.contains(c as usize),
            None => false,
        }) ==> w.ents[c].follower is None
    &&& forall|j: int|
        0 <= j < w0.ents.len() && !spec_reclaim_involved(w0, states, j) ==> #[trigger] w.ents[j]
            == w0.ents[j]
    &&& forall|h: u64| w0.removals.contains(h) ==> w.removals.contains(h)
}

/// The invariant mid-row: the worker at `i` is already unbound.
#[verifier::opaque]
pub open spec fn remove_finished_mid(
    w0: WorldView,
    w: WorldView,
    states: Seq<SamplerState>,
    i: int,
) -> bool {
    &&& w.ents.len() == w0.ents.len()
    &&& 0 <= i < w0.ents.len()
    &&& spec_reclaimed(w0, states, i)
    &&& forall|j: int|
        0 <= j < w0.ents.len() ==> spec_reclaim_shape(w0.ents[j], #[trigger] w.ents[j])
    &&& forall|j: int|
        0 <= j <= i && spec_reclaimed(w0, states, j) ==> (#[trigger] w.ents[j]).active is None
    &&& forall|j: int|
        i < j < w0.ents.len() ==> (#[trigger] w.ents[j]).active == w0.ents[j].active
    &&& forall|j: int|
        spec_policy_target_upto(w0, states, i, j) ==> spec_policy_done(w0, w, j)
    &&& forall|i2: int, c: int|
        #![trigger spec_reclaimed(w0, states, i2), w.ents[c]]
        0 <= i2 < i && spec_reclaimed(w0, states, i2) && 0 <= c < w0.ents.len() && (match
            w0.ents[i2].chain {
            Some(ch) => ch.contains(c as usize),
            None => false,
        }) ==> w.ents[c].follower is None
    &&& forall|j: int|
        0 <= j < w0.ents.len() && !spec_reclaim_involved(w0, states, j) ==> #[trigger] w.ents[j]
            == w0.ents[j]
    &&& forall|h: u64| w0.removals.contains(h) ==> w.removals.contains(h)
}

/// A policy target bound to a reclaimed worker scanned before `bound`.
pub open spec fn spec_policy_target_upto(
    w: WorldView,
    states: Seq<SamplerState>,
    bound: int,
    j: int,
) -> bool {
    &&& spec_target_base(w, j)
    &&& (exists|i: int|
        0 <= i < bound && #[trigger] spec_reclaimed(w, states, i) && w.ents[i].active == Some(
            j as usize,
        ))
}

/// Establish the invariant for an untouched store.
proof fn lemma_remove_finished_init(w0: WorldView, states: Seq<SamplerState>)
    ensures
        remove_finished_inv(w0, w0, states, 0),
{
    reveal(remove_finished_inv);
    assert forall|j: int|
        0 <= j < w0.ents.len() implies spec_reclaim_shape(w0.ents[j], #[trigger] w0.ents[j]) by {
        assert(w0.ents[j] == w0.ents[j]);
    }
    assert forall|j: int|
        spec_policy_target_upto(w0, states, 0, j) implies spec_policy_done(w0, w0, j) by {
        assert(false);
    }
}

/// Unfold the invariant.
proof fn lemma_remove_finished_inv(w0: WorldView, w: WorldView, states: Seq<SamplerState>, i: int)
    requires
        remove_finished_inv(w0, w, states, i),
    ensures
        w.ents.len() == w0.ents.len(),
        forall|j: int|
            0 <= j < w0.ents.len() ==> spec_reclaim_shape(w0.ents[j], #[trigger] w.ents[j]),
        forall|j: int|
            0 <= j < i && spec_reclaimed(w0, states, j) ==> (#[trigger] w.ents[j]).active is None,
        forall|j: int|
            i <= j < w0.ents.len() ==> (#[trigger] w.ents[j]).active == w0.ents[j].active,
        forall|j: int| spec_policy_target_upto(w0, states, i, j) ==> spec_policy_done(w0, w, j),
        forall|i2: int, c: int|
            #![trigger spec_reclaimed(w0, states, i2), w.ents[c]]
            0 <= i2 < i && spec_reclaimed(w0, states, i2) && 0 <= c < w0.ents.len() && (match
                w0.ents[i2].chain {
                Some(ch) => ch.contains(c as usize),
                None => false,
            }) ==> w.ents[c].follower is None,
        forall|j: int|
            0 <= j < w0.ents.len() && !spec_reclaim_involved(w0, states, j) ==> #[trigger] w.ents[j]
                == w0.ents[j],
        forall|h: u64| w0.removals.contains(h) ==> w.removals.contains(h),
{
    reveal(remove_finished_inv);
}

/// An unprocessed row that reads as reclaimed now was reclaimed at the
/// start of the pass, with the same assignment and chain.
proof fn lemma_reclaim_cond_stable(
    w0: WorldView,
    pre: WorldView,
    states: Seq<SamplerState>,
    i: int,
)
    requires
        remove_finished_inv(w0, pre, states, i),
        0 <= i < w0.ents.len(),
        spec_reclaimed(pre, states, i),
    ensures
        spec_reclaimed(w0, states, i),
        pre.ents[i].active == w0.ents[i].active,
        pre.ents[i].chain == w0.ents[i].chain,
{
    reveal(remove_finished_inv);
    assert(spec_reclaim_shape(w0.ents[i], pre.ents[i]));
    let e0 = w0.ents[i];
    if pre.ents[i] == spec_stripped(e0) || pre.ents[i] == killed(e0) || pre.ents[i] == killed(
        (EntityView { follower: None, ..e0 }),
    ) {
        assert(!pre.ents[i].alive || pre.ents[i].chain is None);
    }
}

/// Conversely, an unprocessed row that does not read as reclaimed was
/// not reclaimed at the start either.
proof fn lemma_reclaim_cond_stable_neg(
    w0: WorldView,
    pre: WorldView,
    states: Seq<SamplerState>,
    i: int,
)
    requires
        remove_finished_inv(w0, pre, states, i),
        0 <= i < w0.ents.len(),
        !spec_reclaimed(pre, states, i),
    ensures
        !spec_reclaimed(w0, states, i),
{
    reveal(remove_finished_inv);
    if spec_reclaimed(w0, states, i) {
        assert(spec_reclaim_shape(w0.ents[i], pre.ents[i]));
        let e0 = w0.ents[i];
        assert(pre.ents[i].active == w0.ents[i].active);
        assert(pre.ents[i] == e0 || pre.ents[i] == (EntityView { follower: None, ..e0 })) by {
            if pre.ents[i] == spec_stripped(e0) || pre.ents[i] == killed(e0) || pre.ents[i]
                == killed((EntityView { follower: None, ..e0 })) {
                assert(e0.chain is None);
            }
            if (pre.ents[i] == (EntityView { active: None, ..e0 }) || pre.ents[i] == (EntityView {
                follower: None,
                active: None,
                ..e0
            })) && e0.active is Some {
                assert(pre.ents[i].active is None);
            }
        }
        assert(spec_reclaimed(pre, states, i));
    }
}

/// Clearing a reclaimed worker's assignment keeps the invariant.
proof fn lemma_unbind_ok(
    w0: WorldView,
    pre: WorldView,
    post: WorldView,
    states: Seq<SamplerState>,
    i: int,
)
    requires
        remove_finished_inv(w0, pre, states, i),
        0 <= i < w0.ents.len(),
        spec_reclaimed(w0, states, i),
        post.ents == pre.ents.update(i, (EntityView { active: None, ..pre.ents[i] })),
        post.removals == pre.removals,
    ensures
        remove_finished_mid(w0, post, states, i),
{
    reveal(remove_finished_inv);
    reveal(remove_finished_mid);
    assert forall|j: int|
        0 <= j < w0.ents.len() implies spec_reclaim_shape(w0.ents[j], #[trigger] post.ents[j]) by {
        assert(spec_reclaim_shape(w0.ents[j], pre.ents[j]));
        if j == i {
            let e0 = w0.ents[j];
            assert(e0.chain is Some);
            if pre.ents[j] == e0 {
                assert(post.ents[j] == (EntityView { active: None, ..e0 }));
            } else if pre.ents[j] == (EntityView { active: None, ..e0 }) {
                assert(post.ents[j] =~= (EntityView { active: None, ..e0 }));
            } else if pre.ents[j] == (EntityView { follower: None, ..e0 }) {
                assert(post.ents[j] =~= (EntityView { follower: None, active: None, ..e0 }));
            } else if pre.ents[j] == (EntityView { follower: None, active: None, ..e0 }) {
                assert(post.ents[j] =~= (EntityView { follower: None, active: None, ..e0 }));
            } else {
                assert(e0.chain is None);
                assert(false);
            }
        }
    }
    assert forall|j: int|
        spec_policy_target_upto(w0, states, i, j) implies spec_policy_done(w0, post, j) by {
        assert(spec_policy_done(w0, pre, j));
        if j == i {
            assert(w0.ents[i].chain is Some);
            assert(false);
        }
    }
        assert forall|i2: int, c: int|
            #![trigger spec_reclaimed(w0, states, i2), post.ents[c]]
            0 <= i2 < i && spec_reclaimed(w0, states, i2) && 0 <= c < w0.ents.len() && (match
                w0.ents[i2].chain {
                Some(ch) => ch.contains(c as usize),
                None => false,
            }) implies post.ents[c].follower is None by {
            assert(pre.ents[c].follower is None);
            if c == i {
                assert(post.ents[c] == (EntityView { active: None, ..pre.ents[c] }));
            } else {
                assert(post.ents[c] == pre.ents[c]);
            }
        }
    assert forall|j: int|
        0 <= j < w0.ents.len() && !spec_reclaim_involved(w0, states, j) implies
        #[trigger] post.ents[j] == w0.ents[j] by {
        if j == i {
            assert(spec_reclaimed(w0, states, i));
        }
    }
}

/// Tearing down one follower link of a reclaimed worker's chain keeps
/// the invariant.
proof fn lemma_clear_follower_ok(
    w0: WorldView,
    pre: WorldView,
    post: WorldView,
    states: Seq<SamplerState>,
    i: int,
    c: int,
)
    requires
        remove_finished_mid(w0, pre, states, i),
        0 <= c < w0.ents.len(),
        (match w0.ents[i].chain {
            Some(ch) => ch.contains(c as usize),
            None => false,
        }),
        post.ents == pre.ents.update(c, (EntityView { follower: None, ..pre.ents[c] })),
        post.removals == pre.removals,
    ensures
        remove_finished_mid(w0, post, states, i),
{
    reveal(remove_finished_mid);
    assert forall|j: int|
        0 <= j < w0.ents.len() implies spec_reclaim_shape(w0.ents[j], #[trigger] post.ents[j]) by {
        assert(spec_reclaim_shape(w0.ents[j], pre.ents[j]));
        if j == c {
            let e0 = w0.ents[j];
            if pre.ents[j] == e0 {
                assert(post.ents[j] == (EntityView { follower: None, ..e0 }));
            } else if pre.ents[j] == (EntityView { active: None, ..e0 }) && e0.chain is Some {
                assert(post.ents[j] =~= (EntityView { follower: None, active: None, ..e0 }));
            } else if pre.ents[j] == (EntityView { follower: None, ..e0 }) {
                assert(post.ents[j] =~= (EntityView { follower: None, ..e0 }));
            } else if pre.ents[j] == (EntityView { follower: None, active: None, ..e0 })
                && e0.chain is Some {
                assert(post.ents[j] =~= (EntityView { follower: None, active: None, ..e0 }));
            } else if pre.ents[j] == spec_stripped(e0) {
                assert(post.ents[j] =~= spec_stripped(e0));
            } else if pre.ents[j] == killed(e0) {
                assert(post.ents[j] =~= killed((EntityView { follower: None, ..e0 })));
            } else {
                assert(post.ents[j] =~= killed((EntityView { follower: None, ..e0 })));
            }
        }
    }
    assert forall|j: int|
        spec_policy_target_upto(w0, states, i, j) implies spec_policy_done(w0, post, j) by {
        assert(spec_policy_done(w0, pre, j));
        if j == c {
            match w0.ents[j].settings {
                Some(st) => {
                    match st.on_complete {
                        OnComplete::Remove => {
                            if spec_policy_target_upto(w0, states, i, j) {
                                assert(pre.ents[j] == spec_stripped(w0.ents[j]));
                                assert(post.ents[j] =~= spec_stripped(w0.ents[j]));
                            }
                        },
                        OnComplete::Preserve => {
                            if spec_policy_target_upto(w0, states, i, j) {
                                assert(post.ents[j] =~= (EntityView {
                                    follower: None,
                                    ..w0.ents[j]
                                }));
                            }
                        },
                        _ => {},
                    }
                },
                None => {},
            }
        }
    }
        assert forall|i2: int, c: int|
            #![trigger spec_reclaimed(w0, states, i2), post.ents[c]]
            0 <= i2 < i && spec_reclaimed(w0, states, i2) && 0 <= c < w0.ents.len() && (match
                w0.ents[i2].chain {
                Some(ch) => ch.contains(c as usize),
                None => false,
            }) implies post.ents[c].follower is None by {
            assert(pre.ents[c].follower is None);
            if c == c {
                assert(post.ents[c] == (EntityView { follower: None, ..pre.ents[c] }));
            } else {
                assert(post.ents[c] == pre.ents[c]);
            }
        }

    assert forall|j: int|
        0 <= j < w0.ents.len() && !spec_reclaim_involved(w0, states, j) implies
        #[trigger] post.ents[j] == w0.ents[j] by {
        if j == c {
            assert(spec_reclaimed(w0, states, i) && (match w0.ents[i].chain {
                Some(ch) => ch.contains(c as usize),
                None => false,
            }));
            assert(spec_reclaim_involved(w0, states, j));
        }
    }
}

/// Stripping the bound request of a reclaimed worker keeps the
/// invariant and settles its policy outcome.
proof fn lemma_strip_ok(
    w0: WorldView,
    pre: WorldView,
    post: WorldView,
    states: Seq<SamplerState>,
    i: int,
    s: int,
)
    requires
        remove_finished_mid(w0, pre, states, i),
        0 <= s < w0.ents.len(),
        w0.ents[i].active == Some(s as usize),
        pre.ents[s].alive,
        pre.ents[s].settings is Some,
        pre.ents[s].chain is None,
        pre.ents[s].workers is None,
        pre.ents[s].active is None,
        (match pre.ents[s].settings {
            Some(st) => st.on_complete == OnComplete::Remove,
            None => false,
        }),
        post.ents == pre.ents.update(s, spec_stripped(pre.ents[s])),
        post.removals == pre.removals,
    ensures
        remove_finished_mid(w0, post, states, i),
        spec_policy_done(w0, post, s),
{
    reveal(remove_finished_mid);
    assert(spec_reclaim_shape(w0.ents[s], pre.ents[s]));
    let e0 = w0.ents[s];
    assert(pre.ents[s] == e0 || pre.ents[s] == (EntityView { follower: None, ..e0 })) by {
        if pre.ents[s] == spec_stripped(e0) {
            assert(pre.ents[s].settings is None);
        }
        if (pre.ents[s] == (EntityView { active: None, ..e0 }) || pre.ents[s] == (EntityView {
            follower: None,
            active: None,
            ..e0
        })) && e0.chain is Some {
            assert(pre.ents[s].chain is Some);
        }
    }
    assert(e0.settings == pre.ents[s].settings);
    assert(e0.active == pre.ents[s].active);
    assert(post.ents[s] =~= spec_stripped(e0));
    assert(spec_target_base(w0, s));
    assert forall|j: int|
        0 <= j < w0.ents.len() implies spec_reclaim_shape(w0.ents[j], #[trigger] post.ents[j]) by {
        assert(spec_reclaim_shape(w0.ents[j], pre.ents[j]));
        if j == s {
            assert(post.ents[j] == spec_stripped(e0));
        }
    }
    assert(post.ents[i].active is None) by {
        if s == i {
        }
    }
    assert forall|j: int|
        spec_policy_target_upto(w0, states, i, j) implies spec_policy_done(w0, post, j) by {
        assert(spec_policy_done(w0, pre, j));
        if j == s {
            assert(post.ents[j] == spec_stripped(e0));
        }
    }
        assert forall|i2: int, c: int|
            #![trigger spec_reclaimed(w0, states, i2), post.ents[c]]
            0 <= i2 < i && spec_reclaimed(w0, states, i2) && 0 <= c < w0.ents.len() && (match
                w0.ents[i2].chain {
                Some(ch) => ch.contains(c as usize),
                None => false,
            }) implies post.ents[c].follower is None by {
            assert(pre.ents[c].follower is None);
            if c == s as int {
                assert(post.ents[c] == spec_stripped(pre.ents[c]));
            } else {
                assert(post.ents[c] == pre.ents[c]);
            }
        }
    assert forall|j: int|
        0 <= j < w0.ents.len() && !spec_reclaim_involved(w0, states, j) implies
        #[trigger] post.ents[j] == w0.ents[j] by {
        if j == s {
            assert(spec_reclaimed(w0, states, i) && w0.ents[i].active == Some(s as usize));
            assert(spec_policy_target(w0, states, s));
            assert(spec_reclaim_involved(w0, states, j));
        }
    }
    assert(spec_policy_done(w0, post, s));
}

/// Despawning the bound request of a reclaimed worker keeps the
/// invariant and settles its policy outcome.
proof fn lemma_policy_despawn_ok(
    w0: WorldView,
    pre: WorldView,
    post: WorldView,
    states: Seq<SamplerState>,
    i: int,
    s: int,
)
    requires
        remove_finished_mid(w0, pre, states, i),
        0 <= s < w0.ents.len(),
        w0.ents[i].active == Some(s as usize),
        pre.ents[s].alive,
        pre.ents[s].settings is Some,
        pre.ents[s].chain is None,
        pre.ents[s].workers is None,
        pre.ents[s].active is None,
        (match pre.ents[s].settings {
            Some(st) => st.on_complete == OnComplete::Despawn,
            None => false,
        }),
        post.ents.len() == pre.ents.len(),
        forall|j: int|
            0 <= j < pre.ents.len() ==> post.ents[j] == (if spec_cascade_ids(pre, s).contains(j) {
                killed(#[trigger] pre.ents[j])
            } else {
                pre.ents[j]
            }),
        forall|h: u64| pre.removals.contains(h) ==> post.removals.contains(h),
    ensures
        remove_finished_mid(w0, post, states, i),
        spec_policy_done(w0, post, s),
{
    reveal(remove_finished_mid);
    assert(spec_reclaim_shape(w0.ents[s], pre.ents[s]));
    let e0 = w0.ents[s];
    assert(pre.ents[s] == e0 || pre.ents[s] == (EntityView { follower: None, ..e0 })) by {
        if pre.ents[s] == spec_stripped(e0) {
            assert(pre.ents[s].settings is None);
        }
        if (pre.ents[s] == (EntityView { active: None, ..e0 }) || pre.ents[s] == (EntityView {
            follower: None,
            active: None,
            ..e0
        })) && e0.chain is Some {
            assert(pre.ents[s].chain is Some);
        }
    }
    assert(e0.settings == pre.ents[s].settings);
    assert(spec_target_base(w0, s));
    assert(spec_cascade_ids(pre, s) =~= seq![s]) by {
        assert(crate::world::spec_workers_of(pre, s) =~= Seq::<int>::empty());
        assert(crate::world::spec_chain_of(pre, s) =~= Seq::<int>::empty());
        assert(crate::world::spec_workers_chains(pre, Seq::<int>::empty()) =~= Seq::<
            int,
        >::empty());
    }
    assert forall|j: int|
        0 <= j < pre.ents.len() implies post.ents[j] == (if j == s {
            killed(pre.ents[j])
        } else {
            pre.ents[j]
        }) by {
        if spec_cascade_ids(pre, s).contains(j) {
            assert(spec_cascade_ids(pre, s)[0] == s);
            assert(j == s);
        } else if j == s {
            assert(spec_cascade_ids(pre, s)[0] == s);
            assert(spec_cascade_ids(pre, s).contains(s));
        }
    }
    assert forall|j: int|
        0 <= j < w0.ents.len() implies spec_reclaim_shape(w0.ents[j], #[trigger] post.ents[j]) by {
        assert(spec_reclaim_shape(w0.ents[j], pre.ents[j]));
        if j == s {
            if pre.ents[s] == e0 {
                assert(post.ents[j] == killed(e0));
            } else {
                assert(post.ents[j] =~= killed((EntityView { follower: None, ..e0 })));
            }
        }
    }
    assert(post.ents[i].active is None) by {
        if s == i {
        }
    }
    assert forall|j: int|
        spec_policy_target_upto(w0, states, i, j) implies spec_policy_done(w0, post, j) by {
        assert(spec_policy_done(w0, pre, j));
        if j == s {
            assert(!post.ents[j].alive);
        }
    }
        assert forall|i2: int, c: int|
            #![trigger spec_reclaimed(w0, states, i2), post.ents[c]]
            0 <= i2 < i && spec_reclaimed(w0, states, i2) && 0 <= c < w0.ents.len() && (match
                w0.ents[i2].chain {
                Some(ch) => ch.contains(c as usize),
                None => false,
            }) implies post.ents[c].follower is None by {
            assert(pre.ents[c].follower is None);
            if c == s as int {
                assert(post.ents[c] == killed(pre.ents[c]));
            } else {
                assert(post.ents[c] == pre.ents[c]);
            }
        }
    assert forall|j: int|
        0 <= j < w0.ents.len() && !spec_reclaim_involved(w0, states, j) implies
        #[trigger] post.ents[j] == w0.ents[j] by {
        if j == s {
            assert(spec_reclaimed(w0, states, i) && w0.ents[i].active == Some(s as usize));
            assert(spec_policy_target(w0, states, s));
            assert(spec_reclaim_involved(w0, states, j));
        }
    }
    assert(spec_policy_done(w0, post, s));
}

/// When the policy did not fire, the target's outcome nevertheless
/// already holds, by the shape its row is in.
proof fn lemma_nofire_done(
    w0: WorldView,
    cur: WorldView,
    states: Seq<SamplerState>,
    i: int,
    s: int,
)
    requires
        remove_finished_mid(w0, cur, states, i),
        0 <= s < w0.ents.len(),
        !(cur.ents[s].alive && cur.ents[s].settings is Some && cur.ents[s].chain is None
            && cur.ents[s].workers is None && cur.ents[s].active is None) || (match
        cur.ents[s].settings {
            Some(st) => st.on_complete == OnComplete::Preserve,
            None => false,
        }),
    ensures
        spec_target_base(w0, s) ==> spec_policy_done(w0, cur, s),
{
    reveal(remove_finished_mid);
    if spec_target_base(w0, s) {
        assert(spec_reclaim_shape(w0.ents[s], cur.ents[s]));
        let e0 = w0.ents[s];
        if cur.ents[s] == e0 || cur.ents[s] == (EntityView { follower: None, ..e0 }) {
            // all policy-relevant fields still read as at the start, so
            // the guards passed and the policy must be the no-op
            assert(cur.ents[s].alive && cur.ents[s].settings is Some && cur.ents[s].chain is None
                && cur.ents[s].workers is None && cur.ents[s].active is None);
            assert(cur.ents[s].settings == e0.settings);
            match e0.settings {
                Some(st) => {
                    assert(st.on_complete == OnComplete::Preserve);
                    assert(spec_policy_done(w0, cur, s));
                },
                None => {},
            }
        } else if (cur.ents[s] == (EntityView { active: None, ..e0 }) || cur.ents[s]
            == (EntityView { follower: None, active: None, ..e0 })) && e0.chain is Some {
            assert(false);
        } else if cur.ents[s] == spec_stripped(e0) {
            assert(spec_policy_done(w0, cur, s));
        } else {
            assert(!cur.ents[s].alive);
            assert(spec_policy_done(w0, cur, s));
        }
    }
}

/// Advance the invariant across one scanned row.
proof fn lemma_remove_finished_extend(
    w0: WorldView,
    cur: WorldView,
    states: Seq<SamplerState>,
    i: int,
    reclaimed: bool,
)
    requires
        0 <= i < w0.ents.len(),
        !reclaimed ==> remove_finished_inv(w0, cur, states, i) && !spec_reclaimed(w0, states, i),
        reclaimed ==> remove_finished_mid(w0, cur, states, i) && (forall|j: int|
            spec_target_base(w0, j) && w0.ents[i].active == Some(j as usize)
                ==> spec_policy_done(w0, cur, j)) && (forall|c: int|
            0 <= c < w0.ents.len() && (match w0.ents[i].chain {
                Some(ch) => ch.contains(c as usize),
                None => false,
            }) ==> (#[trigger] cur.ents[c]).follower is None),
    ensures
        remove_finished_inv(w0, cur, states, i + 1),
{
    reveal(remove_finished_inv);
    reveal(remove_finished_mid);
    assert forall|j: int|
        spec_policy_target_upto(w0, states, i + 1, j) implies spec_policy_done(w0, cur, j) by {
        let t = choose|t: int|
            0 <= t < i + 1 && #[trigger] spec_reclaimed(w0, states, t) && w0.ents[t].active
                == Some(j as usize);
        if t < i {
            assert(spec_policy_target_upto(w0, states, i, j));
        } else {
            assert(t == i);
            assert(reclaimed);
        }
    }
    assert forall|i2: int, c: int|
        #![trigger spec_reclaimed(w0, states, i2), cur.ents[c]]
        0 <= i2 < i + 1 && spec_reclaimed(w0, states, i2) && 0 <= c < w0.ents.len() && (match
            w0.ents[i2].chain {
            Some(ch) => ch.contains(c as usize),
            None => false,
        }) implies cur.ents[c].follower is None by {
        if i2 == i {
            assert(reclaimed);
        }
    }
}

/// The invariant at the end of the scan gives the pass's contract.
proof fn lemma_remove_finished_conclude(w0: WorldView, w: WorldView, states: Seq<SamplerState>)
    requires
        remove_finished_inv(w0, w, states, w0.ents.len() as int),
    ensures
        forall|i: int|
            0 <= i < w0.ents.len() && spec_reclaimed(w0, states, i) ==> (
            #[trigger] w.ents[i]).active is None,
        forall|j: int|
            0 <= j < w0.ents.len() && spec_policy_target(w0, states, j) ==> spec_policy_done(
                w0,
                w,
                j,
            ),
        forall|j: int|
            0 <= j < w0.ents.len() ==> (((#[trigger] w.ents[j]).alive ==> w0.ents[j].alive) && (
            w.ents[j].queued ==> w0.ents[j].queued)),
        forall|j: int|
            0 <= j < w0.ents.len() && !spec_reclaim_involved(w0, states, j) ==> #[trigger] w.ents[j]
                == w0.ents[j],
        forall|i2: int, c: int|
            #![trigger spec_reclaimed(w0, states, i2), w.ents[c]]
            0 <= i2 < w0.ents.len() && spec_reclaimed(w0, states, i2) && 0 <= c < w0.ents.len()
                && (match w0.ents[i2].chain {
                Some(ch) => ch.contains(c as usize),
                None => false,
            }) ==> w.ents[c].follower is None,
        forall|h: u64| w0.removals.contains(h) ==> w.removals.contains(h),
{
    reveal(remove_finished_inv);
    assert forall|j: int|
        0 <= j < w0.ents.len() && spec_policy_target(w0, states, j) implies spec_policy_done(
        w0,
        w,
        j,
    ) by {
        assert(spec_policy_target_upto(w0, states, w0.ents.len() as int, j));
    }
    assert forall|j: int|
        0 <= j < w0.ents.len() implies (((#[trigger] w.ents[j]).alive ==> w0.ents[j].alive) && (
        w.ents[j].queued ==> w0.ents[j].queued)) by {
        assert(spec_reclaim_shape(w0.ents[j], w.ents[j]));
    }
}


/// The reclamation pass: a worker whose playback ended loses its
/// assignment and its chain's follower links; the owning request's
/// completion policy then preserves the request, strips it of every
/// pool-attached component, or destroys it.  A request that no longer
/// resolves is skipped, never an error.
pub fn remove_finished(world: &mut AudioWorld, states: &SamplerStates)
    requires
        old(world).wf(),
    ensures
        final(world).wf(),
        final(world)@.ents.len() == old(world)@.ents.len(),
        forall|i: int|
            0 <= i < old(world)@.ents.len() && spec_reclaimed(old(world)@, states.entries@, i)
                ==> (#[trigger] final(world)@.ents[i]).active is None,
        forall|j: int|
            0 <= j < old(world)@.ents.len() && spec_policy_target(
                old(world)@,
                states.entries@,
                j,
            ) ==> spec_policy_done(old(world)@, final(world)@, j),
        forall|j: int|
            0 <= j < old(world)@.ents.len() ==> (((#[trigger] final(world)@.ents[j]).alive
                ==> old(world)@.ents[j].alive) && (final(world)@.ents[j].queued ==> old(
                world,
            )@.ents[j].queued)),
        forall|j: int|
            0 <= j < old(world)@.ents.len() && !spec_reclaim_involved(
                old(world)@,
                states.entries@,
                j,
            ) ==> final(world)@.ents[j] == old(world)@.ents[j],
        // every reclaimed worker's chain loses its follower links
        forall|i2: int, c: int|
            #![trigger spec_reclaimed(old(world)@, states.entries@, i2), final(world)@.ents[c]]
            0 <= i2 < old(world)@.ents.len() && spec_reclaimed(old(world)@, states.entries@, i2)
                && 0 <= c < old(world)@.ents.len() && (match old(world)@.ents[i2].chain {
                Some(ch) => ch.contains(c as usize),
                None => false,
            }) ==> final(world)@.ents[c].follower is None,
        forall|h: u64|
            old(world)@.removals.contains(h) ==> final(world)@.removals.contains(h),
        final(world)@ == (WorldView {
            ents: final(world)@.ents,
            removals: final(world)@.removals,
            ..old(world)@
        }),
{
    let ghost w0 = old(world)@;
    let n = world.ents.len();
    let mut i: usize = 0;
    proof {
        lemma_remove_finished_init(w0, states.entries@);
    }
    while i < n
        invariant
            i <= n,
            n == world@.ents.len(),
            world.wf(),
            remove_finished_inv(w0, world@, states.entries@, i as int),
            world@ == (WorldView { ents: world@.ents, removals: world@.removals, ..w0 }),
        decreases n - i,
    {
        proof {
            lemma_remove_finished_inv(w0, world@, states.entries@, i as int);
        }
        let reclaimed = world.ents[i].alive && world.ents[i].chain.is_some()
            && world.ents[i].active.is_some() && (match world.ents[i].node {
            Some(h) => match states.state_of(h.0) {
                Some(st) => !st.playing,
                None => false,
            },
            None => false,
        });
        if reclaimed {
            let ghost pre = world@;
            proof {
                assert(spec_reclaimed(pre, states.entries@, i as int));
                lemma_reclaim_cond_stable(w0, pre, states.entries@, i as int);
            }
            let sample = match world.ents[i].active {
                Some(a) => a.sample_entity,
                None => 0,
            };
            let chain: Vec<usize> = match &world.ents[i].chain {
                Some(c) => crate::world::clone_ids(&c.0),
                None => Vec::new(),
            };
            proof {
                assert(old(world).ent(i as int).wf(old(world).n()));
                assert(Some(sample) == w0.ents[i as int].active);
                assert(match w0.ents[i as int].chain {
                    Some(ch) => chain@ == ch,
                    None => false,
                });
            }
            world.clear_active(i);
            proof {
                lemma_unbind_ok(w0, pre, world@, states.entries@, i as int);
            }
            let cn = chain.len();
            let mut k: usize = 0;
            while k < cn
                invariant
                    k <= cn,
                    cn == chain@.len(),
                    world.wf(),
                    n == world@.ents.len(),
                    remove_finished_mid(w0, world@, states.entries@, i as int),
                    world@ == (WorldView {
                        ents: world@.ents,
                        removals: world@.removals,
                        ..w0
                    }),
                    forall|t: int| 0 <= t < cn ==> (#[trigger] chain@[t] as int) < n,
                    forall|t: int|
                        0 <= t < k ==> world@.ents[#[trigger] chain@[t] as int].follower is None,
                    (match w0.ents[i as int].chain {
                        Some(ch) => chain@ == ch,
                        None => false,
                    }),
                decreases cn - k,
            {
                let c = chain[k];
                let ghost pre2 = world@;
                world.clear_follower(c);
                proof {
                    assert(chain@.contains(chain@[k as int]));
                    lemma_clear_follower_ok(
                        w0,
                        pre2,
                        world@,
                        states.entries@,
                        i as int,
                        c as int,
                    );
                    assert forall|t: int|
                        0 <= t < k + 1 implies world@.ents[#[trigger] chain@[t] as int].follower
                        is None by {
                        if t < k as int {
                            if chain@[t] == c {
                            } else {
                                assert(world@.ents[chain@[t] as int] == pre2.ents[chain@[
                                    t
                                ] as int]);
                            }
                        } else {
                            assert(chain@[t] == c);
                        }
                    }
                }
                k = k + 1;
            }
            let ghost after_chain = world@;
            proof {
                assert forall|c2: int|
                    0 <= c2 < n && (match w0.ents[i as int].chain {
                        Some(ch) => ch.contains(c2 as usize),
                        None => false,
                    }) implies after_chain.ents[c2].follower is None by {
                    let ch = w0.ents[i as int].chain->Some_0;
                    let t = choose|t: int| 0 <= t < ch.len() && #[trigger] ch[t] == (c2 as usize);
                    assert(chain@[t] == (c2 as usize));
                    assert(after_chain.ents[chain@[t] as int].follower is None);
                    assert(0 <= c2 <= usize::MAX);
                    assert(chain@[t] as int == c2);
                }
            }
            // apply the request's completion policy
            let mut done = false;
            if sample < world.len() {
                let fire = world.ents[sample].alive && world.ents[sample].settings.is_some()
                    && world.ents[sample].chain.is_none() && world.ents[sample].workers.is_none()
                    && world.ents[sample].active.is_none();
                if fire {
                    let policy = match world.ents[sample].settings {
                        Some(st) => st.on_complete,
                        None => OnComplete::Preserve,
                    };
                    match policy {
                        OnComplete::Preserve => {},
                        OnComplete::Remove => {
                            let ghost pre3 = world@;
                            strip_sample(world, sample);
                            proof {
                                lemma_strip_ok(
                                    w0,
                                    pre3,
                                    world@,
                                    states.entries@,
                                    i as int,
                                    sample as int,
                                );
                            }
                            done = true;
                        },
                        OnComplete::Despawn => {
                            let ghost pre3 = world@;
                            world.despawn(sample);
                            proof {
                                lemma_policy_despawn_ok(
                                    w0,
                                    pre3,
                                    world@,
                                    states.entries@,
                                    i as int,
                                    sample as int,
                                );
                            }
                            done = true;
                        },
                    }
                }
            }
            proof {
                if !done {
                    if (sample as int) < w0.ents.len() as int {
                        lemma_nofire_done(w0, world@, states.entries@, i as int, sample as int);
                    }
                }
                assert forall|j: int|
                    spec_target_base(w0, j) && w0.ents[i as int].active == Some(j as usize)
                    implies spec_policy_done(w0, world@, j) by {
                    assert(j == sample as int);
                }
                assert forall|c2: int|
                    0 <= c2 < w0.ents.len() && (match w0.ents[i as int].chain {
                        Some(ch) => ch.contains(c2 as usize),
                        None => false,
                    }) implies (#[trigger] world@.ents[c2]).follower is None by {
                    assert(after_chain.ents[c2].follower is None);
                    if world@ != after_chain {
                        if c2 == sample as int {
                            assert(world@.ents[c2].follower is None);
                        } else {
                            assert(world@.ents[c2] == after_chain.ents[c2]);
                        }
                    }
                }
                lemma_remove_finished_extend(w0, world@, states.entries@, i as int, true);
            }
        } else {
            proof {
                lemma_reclaim_cond_stable_neg(w0, world@, states.entries@, i as int);
                lemma_remove_finished_extend(w0, world@, states.entries@, i as int, false);
            }
        }
        i = i + 1;
    }
    proof {
        lemma_remove_finished_conclude(w0, world@, states.entries@);
    }
}

/// Strip every pool-attached component from a request row.
fn strip_sample(world: &mut AudioWorld, sample: usize)
    requires
        old(world).wf(),
        sample < old(world)@.ents.len(),
    ensures
        final(world).wf(),
        final(world)@.ents == old(world)@.ents.update(
            sample as int,
            spec_stripped(old(world)@.ents[sample as int]),
        ),
        final(world)@ == (WorldView { ents: final(world)@.ents, ..old(world)@ }),
{
    let ghost pre = old(world)@;
    let e = &mut world.ents[sample];
    e.excluded = false;
    e.params = Vec::new();
    e.node = None;
    e.events = crate::params::Events::new();
    e.follower = None;
    e.label = None;
    e.chain = None;
    e.pool_root = None;
    e.active = None;
    e.rank = None;
    e.range = None;
    e.workers = None;
    e.defaults = None;
    e.player = None;
    e.settings = None;
    e.queued = false;
    e.registry = None;
    e.sample_defaults = None;
    proof {
        assert(world@.ents =~= pre.ents.update(sample as int, world@.ents[sample as int]));
        assert(world@.ents[sample as int] =~= spec_stripped(pre.ents[sample as int]));
        assert(world@ =~= (WorldView { ents: world@.ents, ..pre }));
        assert forall|j: int| 0 <= j < world.n() implies (#[trigger] world.ent(j)).wf(
            world.n(),
        ) by {
            assert(old(world).ent(j).wf(old(world).n()));
            if j != sample as int {
                assert(world.ent(j) == pre.ents[j]);
            }
        }
    }
}


/// The first alive pool bus fully equipped to serve this label.
pub open spec fn spec_find_pool(w: WorldView, label: PoolLabel) -> Option<int>
    decreases w.ents.len(),
{
    spec_find_pool_from(w, label, 0)
}

/// The first equipped bus at or after position `i`.
pub open spec fn spec_find_pool_from(w: WorldView, label: PoolLabel, i: int) -> Option<int>
    decreases w.ents.len() - i,
{
    if i < 0 || i >= w.ents.len() {
        None
    } else if spec_pool_ready(w.ents[i], label) {
        Some(i)
    } else {
        spec_find_pool_from(w, label, i + 1)
    }
}

/// A found pool is fully equipped.
proof fn lemma_find_pool_ready(w: WorldView, label: PoolLabel, i: int, p: int)
    requires
        spec_find_pool_from(w, label, i) == Some(p),
    ensures
        0 <= p < w.ents.len(),
        spec_pool_ready(w.ents[p], label),
    decreases w.ents.len() - i,
{
    if 0 <= i < w.ents.len() {
        if spec_pool_ready(w.ents[i], label) {
        } else {
            lemma_find_pool_ready(w, label, i + 1, p);
        }
    }
}

/// A bus that can serve requests of this label.
pub open spec fn spec_pool_ready(e: EntityView, label: PoolLabel) -> bool {
    e.alive && e.rank is Some && e.workers is Some && e.defaults is Some && e.range is Some
        && e.label == Some(label)
}

/// A queued request the scheduler can bind right now: its asset is
/// decoded, its pool exists, and the best-ranked candidate is a live
/// worker chain.
pub open spec fn spec_assignable(w: WorldView, assets: Seq<u64>, s: int) -> bool {
    let e = w.ents[s];
    &&& 0 <= s < w.ents.len()
    &&& e.alive
    &&& e.queued
    &&& e.player is Some
    &&& e.settings is Some
    &&& e.label is Some
    &&& (match e.player {
        Some(a) => assets.contains(a),
        None => false,
    })
    &&& (match e.label {
        Some(l) => match spec_find_pool(w, l) {
            Some(p) => (match w.ents[p].rank {
                Some(r) => r.len() > 0 && ((r[0].node as int) < w.ents.len()
                    && w.ents[r[0].node as int].alive && w.ents[r[0].node as int].chain is Some
                    && w.ents[r[0].node as int].params.len() > 0),
                None => false,
            }),
            None => false,
        },
        None => false,
    })
}

/// A queued request the scheduler acts on at all this frame: it either
/// binds it, or grows its pool for a later frame.
pub open spec fn spec_acted_on(w: WorldView, assets: Seq<u64>, s: int) -> bool {
    let e = w.ents[s];
    &&& 0 <= s < w.ents.len()
    &&& e.alive
    &&& e.queued
    &&& e.player is Some
    &&& e.settings is Some
    &&& e.label is Some
    &&& (match e.player {
        Some(a) => assets.contains(a),
        None => false,
    })
    &&& (match e.label {
        Some(l) => spec_find_pool(w, l) is Some,
        None => false,
    })
}

/// The scheduling pass, one request row at a time in row order: a
/// queued request whose asset has decoded and whose pool exists is
/// bound to the best-ranked worker when one is available — its queued
/// marker falls, the worker queues one load-and-play event and records
/// the assignment, the chain's follower links point at the request,
/// defaults the caller did not customize are filled in, and the rank
/// loses its head.  When the rank is empty the pool instead doubles its
/// worker count, capped at its configured maximum, and the request
/// stays queued for a later frame.  A request whose asset has not
/// decoded, or whose pool cannot be found, is left untouched and
/// retried next frame.
pub fn assign_work(world: &mut AudioWorld, assets: &Assets)
    requires
        old(world).wf(),
    ensures
        final(world).wf(),
        final(world)@ == spec_assign_pass(
            old(world)@,
            assets.loaded@,
            old(world)@.ents.len() as int,
        ),
{
    let ghost w0 = old(world)@;
    let n = world.ents.len();
    let mut i: usize = 0;
    while i < n
        invariant
            i <= n,
            n == w0.ents.len(),
            world.wf(),
            world@.ents.len() >= w0.ents.len(),
            world@ == spec_assign_pass(w0, assets.loaded@, i as int),
        decreases n - i,
    {
        let ghost pre = world@;
        assign_sample(world, i, assets);
        proof {
            assert(world@ == spec_assign_step(pre, assets.loaded@, i as int));
            assert(world@ == spec_assign_pass(w0, assets.loaded@, i as int + 1));
            assert(world@.ents.len() >= pre.ents.len()) by {
                lemma_step_len(pre, assets.loaded@, i as int);
            }
        }
        i = i + 1;
    }
}

/// A scheduling step never removes rows.
proof fn lemma_step_len(w: WorldView, assets: Seq<u64>, s: int)
    ensures
        spec_assign_step(w, assets, s).ents.len() >= w.ents.len(),
{
}

/// Find the first pool bus equipped to serve a label.
fn find_pool(world: &AudioWorld, label: PoolLabel) -> (r: Option<usize>)
    ensures
        (match r {
            Some(p) => spec_find_pool(world@, label) == Some(p as int) && (p as int)
                < world@.ents.len(),
            None => spec_find_pool(world@, label) is None,
        }),
{
    let n = world.ents.len();
    let mut i: usize = 0;
    while i < n
        invariant
            i <= n,
            n == world@.ents.len(),
            spec_find_pool(world@, label) == spec_find_pool_from(world@, label, i as int),
        decreases n - i,
    {
        let ready = world.ents[i].alive && world.ents[i].rank.is_some()
            && world.ents[i].workers.is_some() && world.ents[i].defaults.is_some()
            && world.ents[i].range.is_some() && (match world.ents[i].label {
            Some(l) => l == label,
            None => false,
        });
        if ready {
            return Some(i);
        }
        i = i + 1;
    }
    None
}

/// Process one row of the scheduling scan.
#[verifier::rlimit(100)]
fn assign_sample(world: &mut AudioWorld, s: usize, assets: &Assets)
    requires
        old(world).wf(),
        s < old(world)@.ents.len(),
    ensures
        final(world).wf(),
        final(world)@ == spec_assign_step(old(world)@, assets.loaded@, s as int),
{
    let ghost w0 = old(world)@;
    let is_request = world.ents[s].alive && world.ents[s].queued && world.ents[s].player.is_some()
        && world.ents[s].settings.is_some() && world.ents[s].label.is_some();
    if !is_request {
        proof {
            assert(!spec_acted_on(w0, assets.loaded@, s as int));
        }
        return ;
    }
    let asset = match world.ents[s].player {
        Some(a) => a.0,
        None => 0,
    };
    if !assets.get(asset) {
        proof {
            assert(!spec_acted_on(w0, assets.loaded@, s as int));
        }
        return ;
    }
    let label = match world.ents[s].label {
        Some(l) => l,
        None => PoolLabel::DefaultPool,
    };
    let settings = match world.ents[s].settings {
        Some(st) => st,
        None => PlaybackSettings { volume: 0, repeat: 0, on_complete: OnComplete::Preserve },
    };
    let p = match find_pool(world, label) {
        Some(p) => p,
        None => {
            proof {
                assert(!spec_acted_on(w0, assets.loaded@, s as int));
            }
            return ;
        },
    };
    proof {
        assert(spec_acted_on(w0, assets.loaded@, s as int));
        assert(world.ent(p as int).wf(world.n()));
        assert(spec_find_pool(w0, label) == Some(p as int));
        lemma_find_pool_ready(w0, label, 0, p as int);
        assert(spec_pool_ready(w0.ents[p as int], label));
        assert(w0.ents[s as int].label->Some_0 == label);
    }
    let rank_len = match &world.ents[p].rank {
        Some(r) => r.0.len(),
        None => 0,
    };
    if rank_len == 0 {
        // the pool is exhausted: grow it toward its maximum and leave
        // the request queued for a later frame
        proof {
            assert(!spec_assignable(w0, assets.loaded@, s as int));
        }
        grow_pool(world, p);
        proof {
            assert(world@ == spec_grown(w0, p));
            assert(world@ == spec_assign_step(w0, assets.loaded@, s as int));
        }
        return ;
    }
    let head = match &world.ents[p].rank {
        Some(r) => r.0[0],
        None => RankEntry { node: 0, score: 0 },
    };
    let wk = head.node;
    proof {
        assert((wk as int) < world@.ents.len());
        assert(w0.ents[p as int].rank->Some_0[0].node == wk);
    }
    let valid = world.ents[wk].alive && world.ents[wk].chain.is_some()
        && world.ents[wk].params.len() > 0;
    if !valid {
        proof {
            assert(!spec_assignable(w0, assets.loaded@, s as int));
            assert(world@ == spec_assign_step(w0, assets.loaded@, s as int));
        }
        return ;
    }
    proof {
        assert(spec_assignable(w0, assets.loaded@, s as int));
    }
    bind_sample(world, s, p, wk);
    proof {
        assert(world@.ents =~= Seq::new(
            w0.ents.len(),
            |j: int| spec_bound_entity(w0, s, j),
        ));
        assert(world@ =~= spec_assign_step(w0, assets.loaded@, s as int));
    }
}




/// Bind one assignable request to the rank's best worker.
#[verifier::rlimit(100)]
fn bind_sample(world: &mut AudioWorld, s: usize, p: usize, wk: usize)
    requires
        old(world).wf(),
        s < old(world)@.ents.len(),
        p < old(world)@.ents.len(),
        wk < old(world)@.ents.len(),
        old(world)@.ents[s as int].label is Some,
        spec_find_pool(old(world)@, old(world)@.ents[s as int].label->Some_0) == Some(p as int),
        spec_pool_ready(
            old(world)@.ents[p as int],
            old(world)@.ents[s as int].label->Some_0,
        ),
        old(world)@.ents[p as int].rank->Some_0.len() > 0,
        wk == old(world)@.ents[p as int].rank->Some_0[0].node,
        old(world)@.ents[s as int].player is Some,
        old(world)@.ents[s as int].settings is Some,
        old(world)@.ents[wk as int].alive,
        old(world)@.ents[wk as int].chain is Some,
    ensures
        final(world).wf(),
        final(world)@.ents.len() == old(world)@.ents.len(),
        forall|j: int|
            0 <= j < old(world)@.ents.len() ==> #[trigger] final(world)@.ents[j]
                == spec_bound_entity(old(world)@, s, j),
        final(world)@ == (WorldView { ents: final(world)@.ents, ..old(world)@ }),
{
    let ghost w0 = old(world)@;
    let asset = match world.ents[s].player {
        Some(a) => a.0,
        None => 0,
    };
    let settings = match world.ents[s].settings {
        Some(st) => st,
        None => PlaybackSettings { volume: 0, repeat: 0, on_complete: OnComplete::Preserve },
    };
    proof {
        assert(w0.ents[s as int].player == Some(asset));
        assert(w0.ents[s as int].settings == Some(settings));
    }
    // clear the queued marker
    mark_assigned(world, s);
    let ghost a1 = world@;
    // wire the chain's follower links to the request
    let chain: Vec<usize> = match &world.ents[wk].chain {
        Some(c) => crate::world::clone_ids(&c.0),
        None => Vec::new(),
    };
    proof {
        assert(world.ent(wk as int).wf(world.n()));
        assert(chain@ == w0.ents[wk as int].chain->Some_0);
        assert forall|t: int| 0 <= t < chain@.len() implies (#[trigger] chain@[t] as int)
            < world@.ents.len() by {
            assert(world@.ents[wk as int].chain is Some);
            assert(chain@ == world@.ents[wk as int].chain->Some_0);
            assert(world.ent(wk as int).chain->Some_0[t] == chain@[t]);
        }
    }
    set_followers(world, &chain, s);
    let ghost a2 = world@;
    // fill in defaults the request did not customize
    let defaults: SamplePoolTypes = match &world.ents[p].defaults {
        Some(d) => d.duplicate(),
        None => SamplePoolTypes::new(),
    };
    proof {
        assert(a2.ents[p as int].defaults == w0.ents[p as int].defaults) by {
            if chain@.contains(p as usize) {
                assert(a2.ents[p as int] == (EntityView {
                    follower: Some(s),
                    ..a1.ents[p as int]
                }));
            } else {
                assert(a2.ents[p as int] == a1.ents[p as int]);
            }
        }
        assert(Some(defaults@) == w0.ents[p as int].defaults);
    }
    apply_defaults(world, s, &defaults);
    let ghost a3 = world@;
    // load the worker and bind the assignment
    load_worker(world, wk, asset, settings, s);
    let ghost a4 = world@;
    // consume the rank's head
    pop_rank(world, p);
    proof {
        let a5 = world@;
        lemma_bind_composes(
            w0,
            a1,
            a2,
            a3,
            a4,
            a5,
            s,
            p,
            wk,
            chain@,
            defaults@,
            asset,
            settings,
        );
    }
}

/// The five binding updates compose, row by row, to the bound-entity
/// description.
#[verifier::rlimit(100)]
#[verifier::spinoff_prover]
proof fn lemma_bind_composes(
    w0: WorldView,
    a1: WorldView,
    a2: WorldView,
    a3: WorldView,
    a4: WorldView,
    a5: WorldView,
    s: usize,
    p: usize,
    wk: usize,
    chain: Seq<usize>,
    defaults: Seq<TemplateView>,
    asset: u64,
    settings: PlaybackSettings,
)
    requires
        (s as int) < w0.ents.len(),
        (p as int) < w0.ents.len(),
        (wk as int) < w0.ents.len(),
        w0.ents[s as int].label is Some,
        spec_find_pool(w0, w0.ents[s as int].label->Some_0) == Some(p as int),
        w0.ents[p as int].rank is Some,
        w0.ents[p as int].rank->Some_0.len() > 0,
        wk == w0.ents[p as int].rank->Some_0[0].node,
        w0.ents[s as int].player == Some(asset),
        w0.ents[s as int].settings == Some(settings),
        chain == w0.ents[wk as int].chain->Some_0,
        w0.ents[wk as int].chain is Some,
        Some(defaults) == w0.ents[p as int].defaults,
        a1.ents.len() == w0.ents.len(),
        a2.ents.len() == w0.ents.len(),
        a3.ents.len() == w0.ents.len(),
        a4.ents.len() == w0.ents.len(),
        a5.ents.len() == w0.ents.len(),
        a1.ents == w0.ents.update(
            s as int,
            (EntityView { queued: false, changed: true, ..w0.ents[s as int] }),
        ),
        forall|j: int|
            0 <= j < w0.ents.len() ==> #[trigger] a2.ents[j] == (if chain.contains(j as usize) {
                (EntityView { follower: Some(s), ..a1.ents[j] })
            } else {
                a1.ents[j]
            }),
        a3.ents == a2.ents.update(
            s as int,
            (EntityView {
                params: spec_applied_defaults(a2.ents[s as int].params, defaults),
                changed: true,
                ..a2.ents[s as int]
            }),
        ),
        a4.ents == a3.ents.update(
            wk as int,
            (EntityView {
                events: a3.ents[wk as int].events.push(
                    NodeEventType::LoadSample {
                        sample: asset,
                        volume: settings.volume,
                        repeat: settings.repeat,
                    },
                ),
                active: Some(s),
                ..a3.ents[wk as int]
            }),
        ),
        a5.ents == a4.ents.update(
            p as int,
            (EntityView {
                rank: (match a4.ents[p as int].rank {
                    Some(r) => if r.len() > 0 {
                        Some(r.drop_first())
                    } else {
                        Some(r)
                    },
                    None => None,
                }),
                ..a4.ents[p as int]
            }),
        ),
    ensures
        forall|j: int|
            0 <= j < w0.ents.len() ==> #[trigger] a5.ents[j] == spec_bound_entity(w0, s, j),
{
    assert forall|j: int|
        0 <= j < w0.ents.len() implies #[trigger] a5.ents[j] == spec_bound_entity(w0, s, j) by {
        let e0 = w0.ents[j];
        let e1 = if j == s as int {
            (EntityView { queued: false, changed: true, ..e0 })
        } else {
            e0
        };
        let e2 = if chain.contains(j as usize) {
            (EntityView { follower: Some(s), ..e1 })
        } else {
            e1
        };
        let e3 = if j == s as int {
            (EntityView {
                params: spec_applied_defaults(e2.params, defaults),
                changed: true,
                ..e2
            })
        } else {
            e2
        };
        let e4 = if j == wk as int {
            (EntityView {
                events: e3.events.push(
                    NodeEventType::LoadSample {
                        sample: asset,
                        volume: settings.volume,
                        repeat: settings.repeat,
                    },
                ),
                active: Some(s),
                ..e3
            })
        } else {
            e3
        };
        let e5 = if j == p as int {
            (EntityView {
                rank: (match e4.rank {
                    Some(r) => if r.len() > 0 {
                        Some(r.drop_first())
                    } else {
                        Some(r)
                    },
                    None => None,
                }),
                ..e4
            })
        } else {
            e4
        };
        assert(a1.ents[j] == e1);
        assert(a2.ents[j] == e2);
        assert(a3.ents[j] == e3) by {
            if j == s as int {
                assert(a3.ents[j] =~= e3);
            }
        }
        assert(a4.ents[j] == e4) by {
            if j == wk as int {
                assert(a4.ents[j] =~= e4);
            }
        }
        assert(a5.ents[j] == e5) by {
            if j == p as int {
                assert(a5.ents[j] =~= e5);
            }
        }
        assert(e5 == spec_bound_entity(w0, s, j));
    }
}

/// Mark a request as taken by the scheduler.
fn mark_assigned(world: &mut AudioWorld, s: usize)
    requires
        old(world).wf(),
        s < old(world)@.ents.len(),
    ensures
        final(world).wf(),
        final(world)@.ents == old(world)@.ents.update(
            s as int,
            (EntityView { queued: false, changed: true, ..old(world)@.ents[s as int] }),
        ),
        final(world)@ == (WorldView { ents: final(world)@.ents, ..old(world)@ }),
{
    let ghost pre = old(world)@;
    let e = &mut world.ents[s];
    e.queued = false;
    e.changed = true;
    proof {
        assert(world@.ents =~= pre.ents.update(
            s as int,
            (EntityView { queued: false, changed: true, ..pre.ents[s as int] }),
        ));
        assert(world@ =~= (WorldView { ents: world@.ents, ..pre }));
        assert forall|j: int| 0 <= j < world.n() implies (#[trigger] world.ent(j)).wf(
            world.n(),
        ) by {
            assert(old(world).ent(j).wf(old(world).n()));
            if j != s {
                assert(world.ent(j) == pre.ents[j]);
            }
        }
    }
}

/// Queue the load-and-play event on a worker and record its assignment.
fn load_worker(world: &mut AudioWorld, wk: usize, asset: u64, settings: PlaybackSettings, s: usize)
    requires
        old(world).wf(),
        wk < old(world)@.ents.len(),
        s < old(world)@.ents.len(),
    ensures
        final(world).wf(),
        final(world)@.ents == old(world)@.ents.update(
            wk as int,
            (EntityView {
                events: old(world)@.ents[wk as int].events.push(
                    NodeEventType::LoadSample {
                        sample: asset,
                        volume: settings.volume,
                        repeat: settings.repeat,
                    },
                ),
                active: Some(s),
                ..old(world)@.ents[wk as int]
            }),
        ),
        final(world)@ == (WorldView { ents: final(world)@.ents, ..old(world)@ }),
{
    let ghost pre = old(world)@;
    let e = &mut world.ents[wk];
    e.events.push(
        NodeEventType::LoadSample { sample: asset, volume: settings.volume, repeat: settings.repeat },
    );
    e.active = Some(ActiveSample { sample_entity: s });
    proof {
        assert(world@.ents =~= pre.ents.update(wk as int, world@.ents[wk as int]));
        assert(world@.ents[wk as int] =~= (EntityView {
            events: pre.ents[wk as int].events.push(
                NodeEventType::LoadSample {
                    sample: asset,
                    volume: settings.volume,
                    repeat: settings.repeat,
                },
            ),
            active: Some(s),
            ..pre.ents[wk as int]
        }));
        assert(world@ =~= (WorldView { ents: world@.ents, ..pre }));
        assert forall|j: int| 0 <= j < world.n() implies (#[trigger] world.ent(j)).wf(
            world.n(),
        ) by {
            assert(old(world).ent(j).wf(old(world).n()));
            if j != wk {
                assert(world.ent(j) == pre.ents[j]);
            } else {
                assert(world.ent(j).params == pre.ents[j].params);
            }
        }
    }
}

/// Consume the head of a pool's rank.
fn pop_rank(world: &mut AudioWorld, p: usize)
    requires
        old(world).wf(),
        p < old(world)@.ents.len(),
    ensures
        final(world).wf(),
        final(world)@.ents == old(world)@.ents.update(
            p as int,
            (EntityView {
                rank: (match old(world)@.ents[p as int].rank {
                    Some(r) => if r.len() > 0 {
                        Some(r.drop_first())
                    } else {
                        Some(r)
                    },
                    None => None,
                }),
                ..old(world)@.ents[p as int]
            }),
        ),
        final(world)@ == (WorldView { ents: final(world)@.ents, ..old(world)@ }),
{
    let ghost pre = old(world)@;
    {
        let e = &mut world.ents[p];
        match &mut e.rank {
            Some(r) => {
                if r.0.len() > 0 {
                    r.0.remove(0);
                }
            },
            None => {},
        }
    }
    proof {
        assert(world@.ents =~= pre.ents.update(p as int, world@.ents[p as int]));
        assert(world@.ents[p as int] =~= (EntityView {
            rank: (match pre.ents[p as int].rank {
                Some(r) => if r.len() > 0 {
                    Some(r.drop_first())
                } else {
                    Some(r)
                },
                None => None,
            }),
            ..pre.ents[p as int]
        }));
        assert(world@ =~= (WorldView { ents: world@.ents, ..pre }));
        assert forall|j: int| 0 <= j < world.n() implies (#[trigger] world.ent(j)).wf(
            world.n(),
        ) by {
            assert(old(world).ent(j).wf(old(world).n()));
            if j != p {
                assert(world.ent(j) == pre.ents[j]);
            } else {
                assert(world.ent(j).params == pre.ents[j].params);
                match world.ent(j).rank {
                    Some(rs) => {
                        match pre.ents[j].rank {
                            Some(rs0) => {
                                assert(rs == rs0 || rs =~= rs0.drop_first());
                                assert forall|t: int|
                                    0 <= t < rs.len() implies ((#[trigger] rs[t]).node as int)
                                    < world.n() by {
                                    if rs != rs0 {
                                        assert(rs[t] == rs0[t + 1]);
                                    }
                                }
                            },
                            None => {},
                        }
                    },
                    None => {},
                }
            }
        }
    }
}


/// Grow an exhausted pool: double its worker count, capped at the
/// configured maximum; the new chains join the graph at the next
/// acquisition pass.  Pools never shrink.
#[verifier::rlimit(100)]
fn grow_pool(world: &mut AudioWorld, p: usize)
    requires
        old(world).wf(),
        p < old(world)@.ents.len(),
    ensures
        final(world).wf(),
        final(world)@ == spec_grown(old(world)@, p),
{
    let ghost w0 = old(world)@;
    let ready = world.ents[p].alive && world.ents[p].workers.is_some()
        && world.ents[p].defaults.is_some() && world.ents[p].range.is_some()
        && world.ents[p].label.is_some();
    if !ready {
        proof {
            assert(spec_grown(w0, p) == w0);
        }
        return ;
    }
    let range = match world.ents[p].range {
        Some(r) => r,
        None => PoolRange { min: 0, max: 0 },
    };
    let label = match world.ents[p].label {
        Some(l) => l,
        None => PoolLabel::DefaultPool,
    };
    let current: Vec<usize> = match &world.ents[p].workers {
        Some(ws) => crate::world::clone_ids(&ws.0),
        None => Vec::new(),
    };
    let size = current.len();
    if size >= range.max {
        proof {
            assert(spec_grown(w0, p) == w0);
        }
        return ;
    }
    let target = if size <= range.max / 2 {
        size * 2
    } else {
        range.max
    };
    proof {
        assert(target <= range.max);
        assert(target >= size);
        assert(target as int == (if 2 * current@.len() <= range.max {
            2 * current@.len() as int
        } else {
            range.max as int
        })) by {
            if size <= range.max / 2 {
                assert(2 * size <= range.max);
            } else {
                assert(2 * size > range.max);
            }
        }
    }
    let defaults = match &world.ents[p].defaults {
        Some(d) => d.duplicate(),
        None => SamplePoolTypes::new(),
    };
    let ghost elen = defaults@.len() as int;
    let ghost base = w0.ents.len() as int;
    let mut fresh: Vec<usize> = Vec::new();
    let mut g: usize = size;
    proof {
        assert(spec_pool_chains(label, defaults@, base, p, 0) =~= Seq::<EntityView>::empty());
        assert(w0.ents + Seq::<EntityView>::empty() =~= w0.ents);
        assert(spec_worker_ids(base, elen, 0) =~= Seq::<usize>::empty());
    }
    while g < target
        invariant
            size <= g <= target,
            world.wf(),
            p < w0.ents.len(),
            g == size + fresh@.len(),
            elen == defaults@.len(),
            world@.ents.len() == w0.ents.len() + (g - size) * (elen + 1),
            world@.ents == w0.ents + spec_pool_chains(label, defaults@, base, p, g - size),
            fresh@ == spec_worker_ids(base, elen, g - size),
            world@ == (WorldView { ents: world@.ents, ..w0 }),
        decreases target - g,
    {
        let ghost preg = world@;
        let wk = spawn_chain(world, p, &defaults, label);
        fresh.push(wk);
        proof {
            let done = g - size;
            lemma_mul_step(done as int, elen);
            lemma_pool_chains_snoc(label, defaults@, base, p, done as int);
            assert(preg.ents.len() as int == base + done * (elen + 1));
            assert(world@.ents =~= w0.ents + spec_pool_chains(
                label,
                defaults@,
                base,
                p,
                done + 1,
            ));
            lemma_worker_ids_snoc(base, elen, done as int);
            assert(wk as int == base + done * (elen + 1) + elen);
            assert(fresh@ =~= spec_worker_ids(base, elen, done + 1));
        }
        g = g + 1;
    }
    // extend the bus's worker list
    let mut all = current;
    let mut t: usize = 0;
    let fl = fresh.len();
    while t < fl
        invariant
            t <= fl,
            fl == fresh@.len(),
            all@ =~= w0.ents[p as int].workers->Some_0 + fresh@.take(t as int),
        decreases fl - t,
    {
        all.push(fresh[t]);
        proof {
            assert(w0.ents[p as int].workers->Some_0 + fresh@.take(t as int + 1) =~= (w0.ents[
                p as int
            ].workers->Some_0 + fresh@.take(t as int)).push(fresh@[t as int]));
        }
        t = t + 1;
    }
    proof {
        assert(fresh@.take(fl as int) =~= fresh@);
    }
    let ghost wmid = world@;
    proof {
        assert forall|j3: int| 0 <= j3 < wmid.ents.len() implies (#[trigger] wmid.ents[j3]).wf(
            wmid.ents.len() as int,
        ) by {
            assert(world.ent(j3).wf(world.n()));
        }
    }
    {
        let e = &mut world.ents[p];
        e.workers = Some(SamplerNodes(all));
    }
    proof {
        let ws0 = w0.ents[p as int].workers->Some_0;
        let count = target - size;
        assert(world@.ents =~= wmid.ents.update(p as int, world@.ents[p as int]));
        assert(world@.ents[p as int].workers == Some(ws0 + fresh@));
        assert forall|j2: int| 0 <= j2 < world.n() implies (#[trigger] world.ent(j2)).wf(
            world.n(),
        ) by {
            if j2 != p {
                assert(world.ent(j2) == wmid.ents[j2]);
                assert(wmid.ents[j2].wf(wmid.ents.len() as int));
            } else {
                assert(wmid.ents[j2].wf(wmid.ents.len() as int));
                assert forall|x: int|
                    0 <= x < (ws0 + fresh@).len() implies (#[trigger] (ws0 + fresh@)[x] as int)
                    < world.n() by {
                    if x < ws0.len() {
                        assert((ws0 + fresh@)[x] == ws0[x]);
                        assert(wmid.ents[p as int].workers == w0.ents[p as int].workers) by {
                            assert(wmid.ents[p as int] == (w0.ents + spec_pool_chains(
                                label,
                                defaults@,
                                base,
                                p,
                                count as int,
                            ))[p as int]);
                        }
                        lemma_worker_ids_in_range(base, elen, count as int, wmid.ents.len() as int);
                    } else {
                        assert((ws0 + fresh@)[x] == fresh@[x - ws0.len()]);
                        lemma_worker_ids_in_range(base, elen, count as int, wmid.ents.len() as int);
                    }
                }
            }
        }
        // the result is exactly the specified growth step
        assert(wmid.ents =~= w0.ents + spec_pool_chains(label, defaults@, base, p, count as int));
        assert(wmid.ents[p as int] == w0.ents[p as int]);
        assert(world@.ents[p as int] =~= (EntityView {
            workers: Some(ws0 + fresh@),
            ..w0.ents[p as int]
        }));
        assert(world@.ents =~= w0.ents.update(
            p as int,
            (EntityView { workers: Some(ws0 + fresh@), ..w0.ents[p as int] }),
        ) + spec_pool_chains(label, defaults@, base, p, count as int));
        assert(spec_grow_ready(w0.ents[p as int]));
        assert(world@ =~= spec_grown(w0, p));
    }
}

/// Insert the pool's default value for every effect kind the request
/// did not customize.
#[verifier::rlimit(100)]
fn apply_defaults(world: &mut AudioWorld, s: usize, defaults: &SamplePoolTypes)
    requires
        old(world).wf(),
        s < old(world)@.ents.len(),
    ensures
        final(world).wf(),
        final(world)@.ents.len() == old(world)@.ents.len(),
        final(world)@.ents == old(world)@.ents.update(
            s as int,
            (EntityView {
                params: spec_applied_defaults(old(world)@.ents[s as int].params, defaults@),
                changed: true,
                ..old(world)@.ents[s as int]
            }),
        ),
        final(world)@ == (WorldView { ents: final(world)@.ents, ..old(world)@ }),
{
    let ghost w0 = old(world)@;
    let ghost sets0 = w0.ents[s as int].params;
    {
        let e = &mut world.ents[s];
        e.changed = true;
    }
    proof {
        assert(world@.ents =~= w0.ents.update(
            s as int,
            (EntityView { changed: true, ..w0.ents[s as int] }),
        ));
        assert forall|j2: int| 0 <= j2 < world.n() implies (#[trigger] world.ent(j2)).wf(
            world.n(),
        ) by {
            assert(old(world).ent(j2).wf(old(world).n()));
            if j2 != s {
                assert(world.ent(j2) == w0.ents[j2]);
            }
        }
    }
    let dn = defaults.0.len();
    let mut k: usize = 0;
    while k < dn
        invariant
            k <= dn,
            dn == defaults.0@.len(),
            world.wf(),
            s < world@.ents.len(),
            world@.ents.len() == w0.ents.len(),
            world@.ents[s as int].params == spec_apply_upto(sets0, defaults@, k as int),
            world@.ents == w0.ents.update(
                s as int,
                (EntityView {
                    params: world@.ents[s as int].params,
                    changed: true,
                    ..w0.ents[s as int]
                }),
            ),
            world@ == (WorldView { ents: world@.ents, ..w0 }),
        decreases dn - k,
    {
        let kind = defaults.0[k].kind;
        proof {
            assert(defaults@[k as int].kind == kind);
        }
        let present = crate::params::find_kind(&world.ents[s].params, kind);
        match present {
            Some(m) => {
                proof {
                    let cur = world@.ents[s as int].params;
                    assert(cur[m as int].kind == kind);
                    assert(crate::world::spec_has_kind(cur, kind));
                    assert(spec_apply_one(cur, defaults@[k as int]) == cur);
                }
            },
            None => {
                let fields = crate::world::clone_fields_vec(&defaults.0[k].fields);
                let ghost pre = world@;
                proof {
                    crate::params::lemma_find_kind_none(pre.ents[s as int].params, kind);
                }
                world.add_param_set(s, kind, fields);
                proof {
                    assert(world@.ents[s as int].params =~= spec_apply_one(
                        pre.ents[s as int].params,
                        defaults@[k as int],
                    ));
                    assert(world@.ents[s as int] =~= (EntityView {
                        params: world@.ents[s as int].params,
                        changed: true,
                        ..w0.ents[s as int]
                    }));
                    assert(world@.ents =~= w0.ents.update(
                        s as int,
                        (EntityView {
                            params: world@.ents[s as int].params,
                            changed: true,
                            ..w0.ents[s as int]
                        }),
                    ));
                }
            },
        }
        k = k + 1;
    }
}




/// Point every listed effect node's follower link at the request.
#[verifier::rlimit(100)]
fn set_followers(world: &mut AudioWorld, chain: &Vec<usize>, s: usize)
    requires
        old(world).wf(),
        s < old(world)@.ents.len(),
        forall|t: int| 0 <= t < chain@.len() ==> (#[trigger] chain@[t] as int) < old(
            world,
        )@.ents.len(),
    ensures
        final(world).wf(),
        final(world)@.ents.len() == old(world)@.ents.len(),
        forall|j: int|
            0 <= j < old(world)@.ents.len() ==> #[trigger] final(world)@.ents[j] == (
            if chain@.contains(j as usize) {
                (EntityView { follower: Some(s), ..old(world)@.ents[j] })
            } else {
                old(world)@.ents[j]
            }),
        final(world)@ == (WorldView { ents: final(world)@.ents, ..old(world)@ }),
{
    let ghost w1 = old(world)@;
    let n0 = world.ents.len();
    let cn = chain.len();
    let mut k: usize = 0;
    proof {
        assert(w1.ents.len() == n0);
        assert(chain@.take(0) =~= Seq::<usize>::empty());
    }
    while k < cn
        invariant
            k <= cn,
            cn == chain@.len(),
            world.wf(),
            world@.ents.len() == w1.ents.len(),
            forall|t: int| 0 <= t < cn ==> (#[trigger] chain@[t] as int) < w1.ents.len(),
            s < w1.ents.len(),
            forall|j: int|
                0 <= j < w1.ents.len() ==> #[trigger] world@.ents[j] == (if chain@.take(
                    k as int,
                ).contains(j as usize) {
                    (EntityView { follower: Some(s), ..w1.ents[j] })
                } else {
                    w1.ents[j]
                }),
            world@ == (WorldView { ents: world@.ents, ..w1 }),
        decreases cn - k,
    {
        let c = chain[k];
        let ghost pre2 = world@;
        proof {
            assert forall|j3: int| 0 <= j3 < pre2.ents.len() implies (#[trigger] pre2.ents[j3]).wf(
                pre2.ents.len() as int,
            ) by {
                assert(world.ent(j3).wf(world.n()));
            }
        }
        {
            let e = &mut world.ents[c];
            e.follower = Some(crate::node::ParamFollower(s));
        }
        proof {
            assert(world@.ents =~= pre2.ents.update(c as int, world@.ents[c as int]));
            assert(world@.ents[c as int] =~= (EntityView {
                follower: Some(s),
                ..pre2.ents[c as int]
            }));
            assert(chain@.take(k as int + 1) =~= chain@.take(k as int).push(c));
            assert forall|j: int|
                0 <= j < w1.ents.len() implies #[trigger] world@.ents[j] == (if chain@.take(
                    k as int + 1,
                ).contains(j as usize) {
                    (EntityView { follower: Some(s), ..w1.ents[j] })
                } else {
                    w1.ents[j]
                }) by {
                if j == c as int {
                    assert(chain@.take(k as int + 1)[k as int] == c);
                    assert(chain@.take(k as int + 1).contains(c));
                    if chain@.take(k as int).contains(j as usize) {
                        assert(pre2.ents[j] == (EntityView { follower: Some(s), ..w1.ents[j] }));
                        assert(world@.ents[j] =~= (EntityView {
                            follower: Some(s),
                            ..w1.ents[j]
                        }));
                    } else {
                        assert(pre2.ents[j] == w1.ents[j]);
                    }
                } else {
                    assert(world@.ents[j] == pre2.ents[j]);
                    assert(chain@.take(k as int + 1).contains(j as usize) == chain@.take(
                        k as int,
                    ).contains(j as usize)) by {
                        if chain@.take(k as int + 1).contains(j as usize) {
                            let x = choose|x: int|
                                0 <= x < chain@.take(k as int + 1).len() && #[trigger] chain@.take(
                                    k as int + 1,
                                )[x] == (j as usize);
                            if x < k as int {
                                assert(chain@.take(k as int)[x] == (j as usize));
                            } else {
                                assert(chain@.take(k as int + 1)[x] == chain@[k as int]);
                                assert((j as usize) == c);
                                assert(0 <= j <= usize::MAX);
                                assert(j == c as int);
                                assert(false);
                            }
                        } else if chain@.take(k as int).contains(j as usize) {
                            let x = choose|x: int|
                                0 <= x < chain@.take(k as int).len() && #[trigger] chain@.take(
                                    k as int,
                                )[x] == (j as usize);
                            assert(chain@.take(k as int + 1)[x] == (j as usize));
                        }
                    }
                }
            }
            assert(world@ =~= (WorldView { ents: world@.ents, ..w1 }));
            assert forall|j2: int| 0 <= j2 < world.n() implies (#[trigger] world.ent(j2)).wf(
                world.n(),
            ) by {
                assert(pre2.ents[j2].wf(pre2.ents.len() as int));
                if j2 != c {
                    assert(world.ent(j2) == pre2.ents[j2]);
                }
            }
        }
        k = k + 1;
    }
    proof {
        assert(chain@.take(cn as int) =~= chain@);
        assert forall|j: int|
            0 <= j < w1.ents.len() implies #[trigger] world@.ents[j] == (if chain@.contains(
                j as usize,
            ) {
                (EntityView { follower: Some(s), ..w1.ents[j] })
            } else {
                w1.ents[j]
            }) by {
            assert(world@.ents[j] == (if chain@.take(cn as int).contains(j as usize) {
                (EntityView { follower: Some(s), ..w1.ents[j] })
            } else {
                w1.ents[j]
            }));
        }
    }
}


/// One default template applied to a request's parameter sets: appended
/// only when the kind is not already customized.
pub open spec fn spec_apply_one(sets: Seq<ParamSetView>, t: TemplateView) -> Seq<ParamSetView> {
    if crate::world::spec_has_kind(sets, t.kind) {
        sets
    } else {
        sets.push(ParamSetView { kind: t.kind, value: t.fields, baseline: t.fields })
    }
}

/// The first `k` templates applied in order.
pub open spec fn spec_apply_upto(
    sets: Seq<ParamSetView>,
    ds: Seq<TemplateView>,
    k: int,
) -> Seq<ParamSetView>
    decreases k,
{
    if k <= 0 || k > ds.len() {
        sets
    } else {
        spec_apply_one(spec_apply_upto(sets, ds, k - 1), ds[k - 1])
    }
}

/// Every template applied in order.
pub open spec fn spec_applied_defaults(
    sets: Seq<ParamSetView>,
    ds: Seq<TemplateView>,
) -> Seq<ParamSetView> {
    spec_apply_upto(sets, ds, ds.len() as int)
}

/// A bus whose growth fields all resolve.
pub open spec fn spec_grow_ready(e: EntityView) -> bool {
    e.alive && e.workers is Some && e.defaults is Some && e.range is Some && e.label is Some
}

/// The store after one growth step on bus `p`: the worker count doubles,
/// capped at the configured maximum, by appending fresh chains; nothing
/// else moves.  A bus at or past its maximum, or one missing its
/// configuration, is left alone.
pub open spec fn spec_grown(w: WorldView, p: usize) -> WorldView {
    if (p as int) >= w.ents.len() || !spec_grow_ready(w.ents[p as int]) {
        w
    } else {
        let e = w.ents[p as int];
        let ws = e.workers->Some_0;
        let rg = e.range->Some_0;
        let label = e.label->Some_0;
        let ds = e.defaults->Some_0;
        if ws.len() >= rg.max {
            w
        } else {
            let target = if 2 * ws.len() <= rg.max {
                2 * ws.len() as int
            } else {
                rg.max as int
            };
            let count = target - ws.len();
            let fresh = spec_worker_ids(w.ents.len() as int, ds.len() as int, count);
            WorldView {
                ents: w.ents.update(
                    p as int,
                    EntityView { workers: Some(ws + fresh), ..e },
                ) + spec_pool_chains(label, ds, w.ents.len() as int, p, count),
                ..w
            }
        }
    }
}

/// One row of the store after a request is bound to the rank's head:
/// the request loses its queued marker and gains missing defaults, the
/// chain's effect nodes follow it, the worker queues a load-and-play
/// event and records the assignment, and the pool's rank loses its
/// head.  The updates land in that order.
pub open spec fn spec_bound_entity(w: WorldView, s: usize, j: int) -> EntityView {
    let label = w.ents[s as int].label->Some_0;
    let p = spec_find_pool(w, label)->Some_0;
    let wk = w.ents[p].rank->Some_0[0].node;
    let chain = (match w.ents[wk as int].chain {
        Some(c) => c,
        None => Seq::empty(),
    });
    let ds = (match w.ents[p].defaults {
        Some(d) => d,
        None => Seq::empty(),
    });
    let asset = w.ents[s as int].player->Some_0;
    let st = w.ents[s as int].settings->Some_0;
    let e0 = w.ents[j];
    let e1 = if j == s as int {
        EntityView { queued: false, changed: true, ..e0 }
    } else {
        e0
    };
    let e2 = if chain.contains(j as usize) {
        EntityView { follower: Some(s), ..e1 }
    } else {
        e1
    };
    let e3 = if j == s as int {
        EntityView { params: spec_applied_defaults(e2.params, ds), changed: true, ..e2 }
    } else {
        e2
    };
    let e4 = if j == wk as int {
        EntityView {
            events: e3.events.push(
                NodeEventType::LoadSample { sample: asset, volume: st.volume, repeat: st.repeat },
            ),
            active: Some(s),
            ..e3
        }
    } else {
        e3
    };
    if j == p {
        EntityView {
            rank: (match e4.rank {
                Some(r) => if r.len() > 0 {
                    Some(r.drop_first())
                } else {
                    Some(r)
                },
                None => None,
            }),
            ..e4
        }
    } else {
        e4
    }
}

/// The store after the scheduler has looked at request `s`: untouched
/// requests stay untouched, an exhausted pool grows, and an assignable
/// request is bound to the best-ranked worker.
pub open spec fn spec_assign_step(w: WorldView, assets: Seq<u64>, s: int) -> WorldView {
    if !(0 <= s < w.ents.len()) {
        w
    } else if !spec_acted_on(w, assets, s) {
        w
    } else if spec_assignable(w, assets, s) {
        WorldView {
            ents: Seq::new(w.ents.len(), |j: int| spec_bound_entity(w, s as usize, j)),
            ..w
        }
    } else {
        let label = w.ents[s].label->Some_0;
        let p = spec_find_pool(w, label)->Some_0;
        let rank = (match w.ents[p].rank {
            Some(r) => r,
            None => Seq::empty(),
        });
        if rank.len() == 0 {
            spec_grown(w, p as usize)
        } else {
            w
        }
    }
}

/// The scheduling pass over the first `i` rows, in row order.
pub open spec fn spec_assign_pass(w: WorldView, assets: Seq<u64>, i: int) -> WorldView
    decreases i,
{
    if i <= 0 {
        w
    } else {
        spec_assign_step(spec_assign_pass(w, assets, i - 1), assets, i - 1)
    }
}

} // verus!
