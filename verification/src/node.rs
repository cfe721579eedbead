//! Graph-node lifecycle: handle acquisition, deferred removals, and the
//! per-frame event flush, together with the diff and follower passes.

use vstd::prelude::*;

use crate::params::{
    find_kind, spec_diff, spec_find_kind, spec_follow_changed, spec_follow_changed_upto,
    spec_followed_set, spec_followed_sets, spec_step_changed, Events, NodeEventType, ParamSet,
    ParamSetView,
};
use crate::world::{AudioWorld, Entity, EntityView, WorldView};

verus! {

/// A handle for a node that is live in the processing graph.
#[derive(Clone, Copy, PartialEq, Eq, Structural, Debug)]
pub struct FirewheelNode(pub u64);

/// A one-directional link that makes this entity's parameters track
/// another entity's.  Only a single rank is supported; a follower whose
/// source is itself a follower is never relayed.
#[derive(Clone, Copy, PartialEq, Eq, Structural, Debug)]
pub struct ParamFollower(pub usize);

/// An event addressed to one graph node, as handed to the realtime
/// domain.
#[derive(Clone, Copy, PartialEq, Eq, Structural, Debug)]
pub struct NodeEvent {
    /// The node the event is for.
    pub node_id: u64,
    /// The event itself; ownership transfers to the graph on send.
    pub event: NodeEventType,
}

/// Queued graph-node removals, deferred until the lifecycle flush so the
/// graph is only touched when it is in a consistent state.
#[derive(Debug)]
pub struct PendingRemovals(pub Vec<u64>);

impl PendingRemovals {
    /// Queue one node for removal.
    pub fn push(&mut self, node: u64)
        ensures
            final(self).0@ == old(self).0@.push(node),
    {
        self.0.push(node);
    }
}

/// The control-side image of the external processing graph: the handles
/// it has issued, and the one-way inbound event channel.
#[derive(Debug)]
pub struct AudioGraph {
    /// The next handle to issue; handles are never reused.
    pub next_id: u64,
    /// The live handles, in creation order.
    pub nodes: Vec<u64>,
    /// The inbound channel of events, drained by the realtime domain at
    /// its own cadence.
    pub queue: Vec<NodeEvent>,
    /// How many removals named an absent node; such a removal is logged
    /// and skipped, never fatal.
    pub missing_removals: u64,
}

impl AudioGraph {
    /// Live handles are pairwise distinct and below the allocation
    /// counter.
    pub open spec fn wf(self) -> bool {
        &&& forall|i: int, j: int|
            0 <= i < j < self.nodes@.len() ==> self.nodes@[i] != self.nodes@[j]
        &&& forall|i: int| 0 <= i < self.nodes@.len() ==> #[trigger] self.nodes@[i] < self.next_id
    }

    /// A graph with no nodes and an empty event channel.
    pub fn new() -> (g: AudioGraph)
        ensures
            g.wf(),
            g.next_id == 0,
            g.nodes@.len() == 0,
            g.queue@.len() == 0,
            g.missing_removals == 0,
    {
        AudioGraph { next_id: 0, nodes: Vec::new(), queue: Vec::new(), missing_removals: 0 }
    }

    /// Register a new node and return its fresh handle.
    pub fn add_node(&mut self) -> (h: u64)
        requires
            old(self).wf(),
            old(self).next_id < u64::MAX,
        ensures
            final(self).wf(),
            h == old(self).next_id,
            final(self).next_id == old(self).next_id + 1,
            final(self).nodes@ == old(self).nodes@.push(h),
            final(self).queue@ == old(self).queue@,
            final(self).missing_removals == old(self).missing_removals,
    {
        let h = self.next_id;
        self.next_id = self.next_id + 1;
        self.nodes.push(h);
        h
    }

    /// Remove a node by handle.  Returns false, and counts the miss, when
    /// the handle is not live: a stale removal is logged, not fatal.
    pub fn remove_node(&mut self, node: u64) -> (found: bool)
        requires
            old(self).wf(),
        ensures
            final(self).wf(),
            found == old(self).nodes@.contains(node),
            final(self).nodes@ == old(self).nodes@.filter(keep_other(node)),
            final(self).next_id == old(self).next_id,
            final(self).queue@ == old(self).queue@,
            final(self).missing_removals == (if found {
                old(self).missing_removals
            } else {
                if old(self).missing_removals < u64::MAX {
                    (old(self).missing_removals + 1) as u64
                } else {
                    old(self).missing_removals
                }
            }),
    {
        let n = self.nodes.len();
        let mut i: usize = 0;
        while i < n
            invariant
                i <= n,
                n == self.nodes@.len(),
                *self == *old(self),
                forall|k: int| 0 <= k < i ==> self.nodes@[k] != node,
            decreases n - i,
        {
            if self.nodes[i] == node {
                self.nodes.remove(i);
                proof {
                    lemma_remove_unique_is_filter(old(self).nodes@, i as int, node);
                }
                return true;
            }
            i = i + 1;
        }
        proof {
            assert(!old(self).nodes@.contains(node));
            assert(old(self).nodes@.filter(keep_other(node)) =~= old(self).nodes@) by {
                lemma_filter_all_kept(old(self).nodes@, node);
            }
        }
        if self.missing_removals < u64::MAX {
            self.missing_removals = self.missing_removals + 1;
        }
        false
    }

    /// How many nodes are live.
    pub fn node_count(&self) -> (r: usize)
        ensures
            r == self.nodes@.len(),
    {
        self.nodes.len()
    }

    /// Queue one event for the realtime domain.
    pub fn queue_event(&mut self, event: NodeEvent)
        ensures
            final(self).next_id == old(self).next_id,
            final(self).nodes@ == old(self).nodes@,
            final(self).missing_removals == old(self).missing_removals,
            final(self).queue@ == old(self).queue@.push(event),
    {
        self.queue.push(event);
    }
}

/// Keep every handle but `node`.
pub open spec fn keep_other(node: u64) -> spec_fn(u64) -> bool {
    |h: u64| h != node
}

/// Removing the only occurrence of `node` equals filtering it out.
proof fn lemma_remove_unique_is_filter(s: Seq<u64>, i: int, node: u64)
    requires
        0 <= i < s.len(),
        s[i] == node,
        forall|a: int, b: int| 0 <= a < b < s.len() ==> s[a] != s[b],
    ensures
        s.remove(i) =~= s.filter(keep_other(node)),
{
    let pred = keep_other(node);
    let pre = s.subrange(0, i);
    let post = s.subrange(i + 1, s.len() as int);
    assert(s =~= pre + (seq![node] + post));
    Seq::filter_distributes_over_add(pre, seq![node] + post, pred);
    post.lemma_filter_prepend(node, pred);
    assert forall|k: int| 0 <= k < pre.len() implies pre[k] != node by {
        assert(s[k] != s[i]);
    }
    assert forall|k: int| 0 <= k < post.len() implies post[k] != node by {
        assert(s[i] != s[i + 1 + k]);
    }
    lemma_filter_all_kept(pre, node);
    lemma_filter_all_kept(post, node);
    assert((seq![node] + post).filter(pred) =~= post);
    assert(s.filter(pred) =~= pre + post);
    assert(s.remove(i) =~= pre + post);
}

/// Filtering for a value absent from the sequence keeps every element.
proof fn lemma_filter_all_kept(s: Seq<u64>, node: u64)
    requires
        forall|k: int| 0 <= k < s.len() ==> s[k] != node,
    ensures
        s.filter(keep_other(node)) =~= s,
    decreases s.len(),
{
    let pred = keep_other(node);
    if s.len() > 0 {
        let tail = s.drop_first();
        lemma_filter_all_kept(tail, node);
        tail.lemma_filter_prepend(s[0], pred);
        assert(s =~= seq![s[0]] + tail);
        assert((seq![s[0]] + tail).filter(pred) =~= seq![s[0]] + tail.filter(pred));
    }
}


/// Whether an entity takes part in diffing this frame: alive, changed,
/// and not excluded from the graph.
pub open spec fn spec_diffed(e: EntityView) -> bool {
    e.alive && e.changed && !e.excluded
}

/// Every parameter set with its baseline advanced to the current value.
pub open spec fn spec_sync_sets(sets: Seq<ParamSetView>) -> Seq<ParamSetView> {
    sets.map_values(|s: ParamSetView| ParamSetView { baseline: s.value, ..s })
}

/// The events the diff pass emits for the first `k` sets, in set order.
pub open spec fn spec_diff_sets_upto(sets: Seq<ParamSetView>, k: int) -> Seq<NodeEventType>
    decreases k,
{
    if k <= 0 || k > sets.len() {
        Seq::empty()
    } else {
        spec_diff_sets_upto(sets, k - 1) + spec_diff(
            sets[k - 1].kind,
            sets[k - 1].value,
            sets[k - 1].baseline,
        )
    }
}

/// The events the diff pass emits for one entity, in set order.
pub open spec fn spec_diff_sets(sets: Seq<ParamSetView>) -> Seq<NodeEventType> {
    spec_diff_sets_upto(sets, sets.len() as int)
}

/// One entity after the diff pass: untouched unless it diffs, in which
/// case its diff is appended to its queue and every baseline catches up
/// with its value.
pub open spec fn spec_diffed_entity(e: EntityView) -> EntityView {
    if spec_diffed(e) {
        EntityView {
            params: spec_sync_sets(e.params),
            events: e.events + spec_diff_sets(e.params),
            ..e
        }
    } else {
        e
    }
}

/// The diff pass: for every changed, graph-visible entity, emit the
/// ordered diff of each parameter set against its baseline into the
/// entity's queue, and immediately fold the emitted events back into the
/// baselines, so that re-diffing emits nothing.
pub fn generate_param_events(world: &mut AudioWorld)
    requires
        old(world).wf(),
    ensures
        final(world).wf(),
        final(world)@.ents.len() == old(world)@.ents.len(),
        forall|j: int|
            0 <= j < old(world)@.ents.len() ==> final(world)@.ents[j] == spec_diffed_entity(
                #[trigger] old(world)@.ents[j],
            ),
        final(world)@ == (WorldView { ents: final(world)@.ents, ..old(world)@ }),
{
    let n = world.ents.len();
    let mut i: usize = 0;
    while i < n
        invariant
            i <= n,
            n == world@.ents.len(),
            world.wf(),
            forall|j: int|
                0 <= j < i ==> world@.ents[j] == spec_diffed_entity(
                    #[trigger] old(world)@.ents[j],
                ),
            forall|j: int| i <= j < n ==> world@.ents[j] == old(world)@.ents[j],
            world@ == (WorldView { ents: world@.ents, ..old(world)@ }),
        decreases n - i,
    {
        let diffs = world.ents[i].alive && world.ents[i].changed && !world.ents[i].excluded;
        if diffs {
            let ghost pre = world@;
            proof {
                assert(world.ent(i as int).wf(world.n()));
            }
            let e = &mut world.ents[i];
            sync_entity(e);
            proof {
                assert(world@.ents =~= pre.ents.update(i as int, world@.ents[i as int]));
                assert(world@ =~= (WorldView { ents: world@.ents, ..old(world)@ }));
                assert forall|j: int| 0 <= j < world.n() implies (#[trigger] world.ent(j)).wf(
                    world.n(),
                ) by {
                    if j != i {
                        assert(world.ent(j) == pre.ents[j]);
                    }
                    assert(old(world).ent(j).wf(old(world).n()));
                    lemma_sync_entity_wf(old(world)@.ents[j], world.n());
                }
            }
        }
        i = i + 1;
    }
}

/// Diffing preserves an entity's well-formedness.
proof fn lemma_sync_entity_wf(e: EntityView, n: int)
    requires
        e.wf(n),
    ensures
        spec_diffed_entity(e).wf(n),
{
    let r = spec_diffed_entity(e);
    if spec_diffed(e) {
        assert forall|k: int| 0 <= k < r.params.len() implies (#[trigger] r.params[k]).wf() by {
            assert(e.params[k].wf());
        }
        assert forall|a: int, b: int| 0 <= a < b < r.params.len() implies r.params[a].kind
            != r.params[b].kind by {
            assert(e.params[a].kind != e.params[b].kind);
        }
    }
}

/// Diff and re-baseline every parameter set of one diffing entity.
fn sync_entity(e: &mut Entity)
    requires
        old(e)@.params_wf(),
        spec_diffed(old(e)@),
    ensures
        final(e)@ == spec_diffed_entity(old(e)@),
{
    let m = e.params.len();
    let mut k: usize = 0;
    while k < m
        invariant
            k <= m,
            m == e.params@.len(),
            forall|t: int|
                0 <= t < k ==> e@.params[t] == (ParamSetView {
                    baseline: old(e)@.params[t].value,
                    ..old(e)@.params[t]
                }),
            forall|t: int| k <= t < m ==> e@.params[t] == old(e)@.params[t],
            e@.events == old(e)@.events + spec_diff_sets_upto(old(e)@.params, k as int),
            e@ == (EntityView { params: e@.params, events: e@.events, ..old(e)@ }),
        decreases m - k,
    {
        let ghost pre = e@;
        proof {
            assert(old(e)@.params[k as int].wf());
            assert(e@.params[k as int] == e.params@[k as int]@);
            assert(e.params@[k as int].wf());
        }
        let s = &mut e.params[k];
        let events = s.sync();
        let ghost mid = e@;
        proof {
            assert(mid.params =~= pre.params.update(k as int, mid.params[k as int]));
            assert(mid == (EntityView { params: mid.params, ..pre }));
        }
        let q = &mut e.events;
        let mut t: usize = 0;
        let en = events.len();
        while t < en
            invariant
                t <= en,
                en == events@.len(),
                q.events@ == mid.events + events@.take(t as int),
            decreases en - t,
        {
            q.push(events[t]);
            proof {
                assert(mid.events + events@.take(t as int + 1) =~= (mid.events + events@.take(
                    t as int,
                )).push(events@[t as int]));
            }
            t = t + 1;
        }
        proof {
            assert(events@.take(en as int) =~= events@);
            assert(e@.events =~= (old(e)@.events + spec_diff_sets_upto(
                old(e)@.params,
                k as int,
            )) + events@);
            assert(spec_diff_sets_upto(old(e)@.params, k as int + 1) == spec_diff_sets_upto(
                old(e)@.params,
                k as int,
            ) + events@);
            assert(e@.events =~= old(e)@.events + spec_diff_sets_upto(
                old(e)@.params,
                k as int + 1,
            ));
            assert(e@ == (EntityView { params: e@.params, events: e@.events, ..mid }));
        }
        k = k + 1;
    }
    proof {
        assert(e@.params =~= spec_sync_sets(old(e)@.params));
        assert(e@ =~= spec_diffed_entity(old(e)@));
    }
}


/// Which source, if any, the relay reads for entity `j` this frame: its
/// link target, provided that target is alive, changed this frame, and
/// is not itself a follower.
pub open spec fn spec_relay_source(w: WorldView, j: int) -> Option<int> {
    let e = w.ents[j];
    if e.alive {
        match e.follower {
            Some(f) => {
                if (f as int) < w.ents.len() && w.ents[f as int].alive && w.ents[
                    f as int
                ].follower is None && w.ents[f as int].changed {
                    Some(f as int)
                } else {
                    None
                }
            },
            None => None,
        }
    } else {
        None
    }
}

/// One entity after the relay pass: unless it is a relayed follower, it
/// is untouched; a relayed follower takes its source's current values
/// into its own, one hop only.
pub open spec fn spec_relayed_entity(w: WorldView, j: int) -> EntityView {
    match spec_relay_source(w, j) {
        Some(s) => (EntityView {
            params: spec_followed_sets(w.ents[j].params, w.ents[s].params),
            changed: w.ents[j].changed || spec_follow_changed(w.ents[j].params, w.ents[s].params),
            ..w.ents[j]
        }),
        None => w.ents[j],
    }
}

/// A Follower Link relays at most one hop: when the source of a link is
/// itself a follower, the relay pass leaves the follower untouched, for
/// every link graph.
pub proof fn lemma_follower_single_hop(w: WorldView, j: int)
    requires
        0 <= j < w.ents.len(),
        w.ents[j].follower matches Some(f) && (f as int) < w.ents.len() && w.ents[
            f as int
        ].follower is Some,
    ensures
        spec_relayed_entity(w, j) == w.ents[j],
{
}

/// The relay pass never touches an entity's link, liveness, or any
/// component beyond its parameter values and change flag; an entity
/// without a link is left exactly as it was.
proof fn lemma_relay_shape(w: WorldView, j: int)
    requires
        0 <= j < w.ents.len(),
    ensures
        spec_relayed_entity(w, j).follower == w.ents[j].follower,
        spec_relayed_entity(w, j).alive == w.ents[j].alive,
        w.ents[j].follower is None ==> spec_relayed_entity(w, j) == w.ents[j],
        !spec_relayed_entity(w, j).changed ==> !w.ents[j].changed,
{
}

/// The relay pass: for every follower whose source is alive, changed
/// this frame, and not itself a follower, fold the source's values into
/// the follower's values, set by matching kind, before the follower's
/// own diff pass runs.  A missing or unresolvable source skips the
/// follower for the frame.
pub fn param_follower(world: &mut AudioWorld)
    requires
        old(world).wf(),
    ensures
        final(world).wf(),
        final(world)@.ents.len() == old(world)@.ents.len(),
        forall|j: int|
            0 <= j < old(world)@.ents.len() ==> final(world)@.ents[j] == spec_relayed_entity(
                old(world)@,
                j,
            ),
        final(world)@ == (WorldView { ents: final(world)@.ents, ..old(world)@ }),
{
    let n = world.ents.len();
    let mut i: usize = 0;
    while i < n
        invariant
            i <= n,
            n == world@.ents.len(),
            world.wf(),
            forall|j: int|
                0 <= j < i ==> world@.ents[j] == spec_relayed_entity(old(world)@, j),
            forall|j: int| i <= j < n ==> world@.ents[j] == old(world)@.ents[j],
            world@ == (WorldView { ents: world@.ents, ..old(world)@ }),
        decreases n - i,
    {
        proof {
            assert(world.ent(i as int).wf(world.n()));
        }
        if world.ents[i].alive {
            let fopt = world.ents[i].follower;
            match fopt {
                Some(f) => {
                    let s = f.0;
                    proof {
                        let so = s as int;
                        if so < i as int {
                            assert(world@.ents[so] == spec_relayed_entity(old(world)@, so));
                            lemma_relay_shape(old(world)@, so);
                        }
                        assert(world@.ents[so].follower == old(world)@.ents[so].follower);
                        if old(world)@.ents[so].follower is None {
                            assert(spec_relay_source(old(world)@, so) is None);
                            assert(world@.ents[so] == old(world)@.ents[so]);
                        }
                    }
                    if world.ents[s].alive && world.ents[s].follower.is_none()
                        && world.ents[s].changed {
                        proof {
                            let so = s as int;
                            assert(world@.ents[so] == old(world)@.ents[so]);
                            assert(s != i);
                            assert(spec_relay_source(old(world)@, i as int) == Some(so));
                        }
                        let ghost pre = world@;
                        relay_entity(world, i, s);
                        proof {
                            assert(pre.ents[i as int] == old(world)@.ents[i as int]);
                            assert(pre.ents[s as int] == old(world)@.ents[s as int]);
                            assert(spec_relay_source(pre, i as int) == Some(s as int));
                            assert(spec_relayed_entity(pre, i as int) == spec_relayed_entity(
                                old(world)@,
                                i as int,
                            ));
                            assert forall|j: int| 0 <= j < world.n() implies (
                            #[trigger] world.ent(j)).wf(world.n()) by {
                                assert(old(world).ent(j).wf(old(world).n()));
                                if j == i as int || j < i as int {
                                    assert(world.ent(j) == spec_relayed_entity(old(world)@, j));
                                    lemma_relayed_wf(old(world)@, j, world.n());
                                } else {
                                    assert(world.ent(j) == old(world)@.ents[j]);
                                }
                            }
                        }
                    } else {
                        proof {
                            let so = s as int;
                            if old(world)@.ents[so].follower is Some {
                                assert(spec_relay_source(old(world)@, i as int) is None);
                            } else {
                                assert(world@.ents[so] == old(world)@.ents[so]);
                                assert(spec_relay_source(old(world)@, i as int) is None);
                            }
                            assert(world@.ents[i as int] == spec_relayed_entity(
                                old(world)@,
                                i as int,
                            ));
                        }
                    }
                },
                None => {},
            }
        }
        i = i + 1;
    }
}

/// A relayed entity stays well formed.
proof fn lemma_relayed_wf(w: WorldView, j: int, n: int)
    requires
        0 <= j < w.ents.len(),
        w.ents[j].wf(n),
    ensures
        spec_relayed_entity(w, j).wf(n),
{
    let r = spec_relayed_entity(w, j);
    let e = w.ents[j];
    match spec_relay_source(w, j) {
        Some(s) => {
            assert forall|k: int| 0 <= k < r.params.len() implies (#[trigger] r.params[k]).wf() by {
                assert(e.params[k].wf());
            }
            assert forall|a: int, b: int| 0 <= a < b < r.params.len() implies r.params[a].kind
                != r.params[b].kind by {
                assert(e.params[a].kind != e.params[b].kind);
            }
        },
        None => {},
    }
}

/// Relay one follower entity from its (distinct, untouched) source.
fn relay_entity(world: &mut AudioWorld, i: usize, s: usize)
    requires
        old(world).wf(),
        i < old(world)@.ents.len(),
        s < old(world)@.ents.len(),
        s != i,
        spec_relay_source(old(world)@, i as int) == Some(s as int),
    ensures
        final(world)@.ents.len() == old(world)@.ents.len(),
        final(world)@.ents == old(world)@.ents.update(
            i as int,
            spec_relayed_entity(old(world)@, i as int),
        ),
        final(world)@ == (WorldView { ents: final(world)@.ents, ..old(world)@ }),
{
    let ghost w0 = old(world)@;
    let ghost fsets0 = w0.ents[i as int].params;
    let ghost ssets = w0.ents[s as int].params;
    let m = world.ents[i].params.len();
    let mut k: usize = 0;
    while k < m
        invariant
            k <= m,
            i < world@.ents.len(),
            s < world@.ents.len(),
            s != i,
            m == world.ents@[i as int].params@.len(),
            world@.ents.len() == w0.ents.len(),
            world@.ents[s as int] == w0.ents[s as int],
            forall|t: int|
                0 <= t < k ==> world@.ents[i as int].params[t] == spec_followed_sets(
                    fsets0,
                    ssets,
                )[t],
            forall|t: int| k <= t < m ==> world@.ents[i as int].params[t] == fsets0[t],
            world@.ents[i as int].changed == (w0.ents[i as int].changed
                || spec_follow_changed_upto(fsets0, ssets, k as int)),
            world@.ents[i as int] == (EntityView {
                params: world@.ents[i as int].params,
                changed: world@.ents[i as int].changed,
                ..w0.ents[i as int]
            }),
            forall|j: int| 0 <= j < world@.ents.len() && j != i ==> world@.ents[j] == w0.ents[j],
            world@ == (WorldView { ents: world@.ents, ..w0 }),
        decreases m - k,
    {
        let ghost pre = world@;
        let kind = world.ents[i].params[k].kind;
        proof {
            assert(fsets0[k as int].kind == kind);
        }
        let found = find_kind(&world.ents[s].params, kind);
        match found {
            Some(mi) => {
                let src = world.ents[s].params[mi].duplicate();
                proof {
                    assert(spec_find_kind(ssets, kind) == Some(src@));
                }
                let e = &mut world.ents[i];
                let ps = &mut e.params[k];
                let ch = ps.follow(&src);
                if ch {
                    e.changed = true;
                }
                proof {
                    assert(world@.ents =~= pre.ents.update(i as int, world@.ents[i as int]));
                    assert(world@.ents[i as int].params =~= pre.ents[i as int].params.update(
                        k as int,
                        spec_followed_set(fsets0[k as int], src@),
                    ));
                    assert(spec_step_changed(fsets0[k as int], ssets) == ch);
                    assert(world@ =~= (WorldView { ents: world@.ents, ..w0 }));
                }
            },
            None => {
                proof {
                    assert(spec_find_kind(ssets, kind) is None);
                    assert(spec_step_changed(fsets0[k as int], ssets) == false);
                }
            },
        }
        proof {
            assert(world@.ents[i as int].params[k as int] == spec_followed_sets(fsets0, ssets)[
                k as int
            ]);
        }
        k = k + 1;
    }
    proof {
        assert(world@.ents[i as int].params =~= spec_followed_sets(fsets0, ssets));
        assert(world@.ents[i as int] =~= spec_relayed_entity(w0, i as int));
        assert(world@.ents =~= w0.ents.update(i as int, spec_relayed_entity(w0, i as int)));
    }
}


/// Whether an entity still needs a graph node: alive, graph-visible,
/// parameter-bearing, and without a handle.
pub open spec fn spec_needs_node(e: EntityView) -> bool {
    e.alive && !e.excluded && e.node is None && e.params.len() > 0
}

/// How many of the first `j` entities need a node this frame.
pub open spec fn spec_needs_before(ents: Seq<EntityView>, j: int) -> int
    decreases j,
{
    if j <= 0 {
        0
    } else {
        spec_needs_before(ents, j - 1) + if j <= ents.len() && spec_needs_node(ents[j - 1]) {
            1int
        } else {
            0int
        }
    }
}

/// The count of needy entities among a prefix never exceeds the prefix.
proof fn lemma_needs_before_bound(ents: Seq<EntityView>, j: int)
    requires
        0 <= j,
    ensures
        0 <= spec_needs_before(ents, j) <= j,
    decreases j,
{
    if j > 0 {
        lemma_needs_before_bound(ents, j - 1);
    }
}

/// The acquisition pass: every alive, graph-visible parameter object
/// without a handle receives a fresh one from the graph, in entity
/// order; everything else is untouched.  Deferring acquisition to this
/// pass makes creation order within a frame irrelevant.
#[verifier::rlimit(60)]
pub fn acquire_id(world: &mut AudioWorld)
    requires
        old(world).wf(),
        old(world)@.graph_next + old(world)@.ents.len() <= u64::MAX,
    ensures
        final(world).wf(),
        final(world)@.ents.len() == old(world)@.ents.len(),
        forall|j: int|
            0 <= j < old(world)@.ents.len() ==> final(world)@.ents[j] == (if spec_needs_node(
                #[trigger] old(world)@.ents[j],
            ) {
                EntityView {
                    node: Some(
                        (old(world)@.graph_next + spec_needs_before(old(world)@.ents, j)) as u64,
                    ),
                    ..old(world)@.ents[j]
                }
            } else {
                old(world)@.ents[j]
            }),
        final(world)@.graph_next == old(world)@.graph_next + spec_needs_before(
            old(world)@.ents,
            old(world)@.ents.len() as int,
        ),
        final(world)@.graph_nodes.len() == old(world)@.graph_nodes.len() + spec_needs_before(
            old(world)@.ents,
            old(world)@.ents.len() as int,
        ),
        forall|k: int|
            0 <= k < old(world)@.graph_nodes.len() ==> final(world)@.graph_nodes[k] == old(world)@.graph_nodes[k],
        forall|k: int|
            old(world)@.graph_nodes.len() <= k < final(world)@.graph_nodes.len() ==> final(world)@.graph_nodes[k] == old(world)@.graph_next + (k - old(world)@.graph_nodes.len()),
        final(world)@ == (WorldView {
            ents: final(world)@.ents,
            graph_next: final(world)@.graph_next,
            graph_nodes: final(world)@.graph_nodes,
            ..old(world)@
        }),
{
    let n = world.ents.len();
    let mut i: usize = 0;
    while i < n
        invariant
            i <= n,
            n == world@.ents.len(),
            world.wf(),
            world@.graph_next == old(world)@.graph_next + spec_needs_before(
                old(world)@.ents,
                i as int,
            ),
            world@.graph_nodes.len() == old(world)@.graph_nodes.len() + spec_needs_before(
                old(world)@.ents,
                i as int,
            ),
            forall|k: int|
                0 <= k < old(world)@.graph_nodes.len() ==> world@.graph_nodes[k] == old(world)@.graph_nodes[k],
            forall|k: int|
                old(world)@.graph_nodes.len() <= k < world@.graph_nodes.len() ==> world@.graph_nodes[k]
                    == old(world)@.graph_next + (k - old(world)@.graph_nodes.len()),
            forall|j: int|
                0 <= j < i ==> world@.ents[j] == (if spec_needs_node(
                    #[trigger] old(world)@.ents[j],
                ) {
                    EntityView {
                        node: Some(
                            (old(world)@.graph_next + spec_needs_before(
                                old(world)@.ents,
                                j,
                            )) as u64,
                        ),
                        ..old(world)@.ents[j]
                    }
                } else {
                    old(world)@.ents[j]
                }),
            forall|j: int| i <= j < n ==> world@.ents[j] == old(world)@.ents[j],
            world@ == (WorldView {
                ents: world@.ents,
                graph_next: world@.graph_next,
                graph_nodes: world@.graph_nodes,
                ..old(world)@
            }),
        decreases n - i,
    {
        proof {
            lemma_needs_before_bound(old(world)@.ents, i as int);
        }
        let needs = world.ents[i].alive && !world.ents[i].excluded && world.ents[i].node.is_none()
            && world.ents[i].params.len() > 0;
        if needs {
            let ghost pre = world@;
            let h = world.graph.add_node();
            let e = &mut world.ents[i];
            e.node = Some(FirewheelNode(h));
            proof {
                assert(world@.ents =~= pre.ents.update(i as int, world@.ents[i as int]));
                assert(world@.ents[i as int] =~= (EntityView {
                    node: Some(h),
                    ..old(world)@.ents[i as int]
                }));
                assert(world@ =~= (WorldView {
                    ents: world@.ents,
                    graph_next: world@.graph_next,
                    graph_nodes: world@.graph_nodes,
                    ..old(world)@
                }));
                assert forall|j: int| 0 <= j < world.n() implies (#[trigger] world.ent(j)).wf(
                    world.n(),
                ) by {
                    assert(old(world).ent(j).wf(old(world).n()));
                    if j != i {
                        assert(world.ent(j) == pre.ents[j]);
                    }
                }
            }
        }
        i = i + 1;
    }
}

/// The removal flush: drain every queued removal and take it to the
/// graph, in queue order.  A handle that is no longer live is logged as
/// a miss and skipped; the flush always continues with the rest.
pub fn process_removals(world: &mut AudioWorld)
    requires
        old(world).wf(),
    ensures
        final(world).wf(),
        final(world)@.removals.len() == 0,
        final(world)@.graph_nodes == spec_remove_all(
            old(world)@.graph_nodes,
            old(world)@.removals,
        ),
        final(world)@ == (WorldView {
            removals: Seq::empty(),
            graph_nodes: final(world)@.graph_nodes,
            missing_removals: final(world)@.missing_removals,
            ..old(world)@
        }),
{
    let ghost pending0 = old(world)@.removals;
    let n = world.removals.0.len();
    let mut i: usize = 0;
    proof {
        assert(pending0.skip(0) =~= pending0);
    }
    while i < n
        invariant
            i <= n,
            n == world.removals.0@.len(),
            world.graph.wf(),
            world.removals.0@ == pending0,
            spec_remove_all(old(world)@.graph_nodes, pending0) == spec_remove_all(
                world@.graph_nodes,
                pending0.skip(i as int),
            ),
            world@ == (WorldView {
                graph_nodes: world@.graph_nodes,
                missing_removals: world@.missing_removals,
                ..old(world)@
            }),
        decreases n - i,
    {
        proof {
            assert(pending0.skip(i as int)[0] == pending0[i as int]);
            assert(pending0.skip(i as int).drop_first() =~= pending0.skip(i as int + 1));
        }
        let node = world.removals.0[i];
        world.graph.remove_node(node);
        i = i + 1;
    }
    proof {
        assert(pending0.skip(n as int) =~= Seq::<u64>::empty());
    }
    world.removals.0.clear();
    proof {
        assert(world@ =~= (WorldView {
            removals: Seq::empty(),
            graph_nodes: world@.graph_nodes,
            missing_removals: world@.missing_removals,
            ..old(world)@
        }));
        assert forall|j: int| 0 <= j < world.n() implies (#[trigger] world.ent(j)).wf(
            world.n(),
        ) by {
            assert(old(world).ent(j).wf(old(world).n()));
        }
    }
}

/// The handles left live after removing each pending handle in order.
pub open spec fn spec_remove_all(nodes: Seq<u64>, pending: Seq<u64>) -> Seq<u64>
    decreases pending.len(),
{
    if pending.len() == 0 {
        nodes
    } else {
        spec_remove_all(nodes.filter(keep_other(pending[0])), pending.drop_first())
    }
}

/// The events one entity contributes to the flush, addressed to its
/// node.
pub open spec fn spec_tagged_events(e: EntityView) -> Seq<NodeEvent> {
    match e.node {
        Some(h) => e.events.map_values(|ev: NodeEventType| NodeEvent { node_id: h, event: ev }),
        None => Seq::empty(),
    }
}

/// Whether the flush drains an entity's queue: alive with a graph node.
pub open spec fn spec_flushed(e: EntityView) -> bool {
    e.alive && e.node is Some
}

/// Everything the flush hands to the graph from the first `j` entities,
/// in entity order, each entity's queue in order.
pub open spec fn spec_flush_upto(ents: Seq<EntityView>, j: int) -> Seq<NodeEvent>
    decreases j,
{
    if j <= 0 || j > ents.len() {
        Seq::empty()
    } else {
        spec_flush_upto(ents, j - 1) + if spec_flushed(ents[j - 1]) {
            spec_tagged_events(ents[j - 1])
        } else {
            Seq::empty()
        }
    }
}

/// The event flush: after diffing completes, drain every alive,
/// graph-linked entity's queue into the graph's inbound channel, in
/// entity order; each event keeps its queue order and is addressed to
/// its entity's node.
pub fn flush_events(world: &mut AudioWorld)
    requires
        old(world).wf(),
    ensures
        final(world).wf(),
        final(world)@.ents.len() == old(world)@.ents.len(),
        forall|j: int|
            0 <= j < old(world)@.ents.len() ==> final(world)@.ents[j] == (if spec_flushed(
                #[trigger] old(world)@.ents[j],
            ) {
                EntityView { events: Seq::empty(), ..old(world)@.ents[j] }
            } else {
                old(world)@.ents[j]
            }),
        final(world)@.graph_queue == old(world)@.graph_queue + spec_flush_upto(
            old(world)@.ents,
            old(world)@.ents.len() as int,
        ),
        final(world)@ == (WorldView {
            ents: final(world)@.ents,
            graph_queue: final(world)@.graph_queue,
            ..old(world)@
        }),
{
    let n = world.ents.len();
    let mut i: usize = 0;
    while i < n
        invariant
            i <= n,
            n == world@.ents.len(),
            world.wf(),
            forall|j: int|
                0 <= j < i ==> world@.ents[j] == (if spec_flushed(#[trigger] old(world)@.ents[j]) {
                    EntityView { events: Seq::empty(), ..old(world)@.ents[j] }
                } else {
                    old(world)@.ents[j]
                }),
            forall|j: int| i <= j < n ==> world@.ents[j] == old(world)@.ents[j],
            world@.graph_queue == old(world)@.graph_queue + spec_flush_upto(
                old(world)@.ents,
                i as int,
            ),
            world@ == (WorldView {
                ents: world@.ents,
                graph_queue: world@.graph_queue,
                ..old(world)@
            }),
        decreases n - i,
    {
        let flushes = world.ents[i].alive && world.ents[i].node.is_some();
        if flushes {
            let ghost pre = world@;
            let h = match world.ents[i].node {
                Some(f) => f.0,
                None => 0,
            };
            let m = world.ents[i].events.events.len();
            let mut t: usize = 0;
            while t < m
                invariant
                    t <= m,
                    i < n,
                    n == world@.ents.len(),
                    m == world.ents@[i as int].events.events@.len(),
                    world@.ents == pre.ents,
                    world@.graph_queue == pre.graph_queue + spec_tagged_events(
                        pre.ents[i as int],
                    ).take(t as int),
                    world@ == (WorldView { graph_queue: world@.graph_queue, ..pre }),
                    Some(h) == pre.ents[i as int].node,
                decreases m - t,
            {
                let ev = world.ents[i].events.events[t];
                world.graph.queue_event(NodeEvent { node_id: h, event: ev });
                proof {
                    assert(spec_tagged_events(pre.ents[i as int]).take(t as int).push(
                        NodeEvent { node_id: h, event: ev },
                    ) =~= spec_tagged_events(pre.ents[i as int]).take(t as int + 1));
                    assert((pre.graph_queue + spec_tagged_events(pre.ents[i as int]).take(
                        t as int,
                    )).push(NodeEvent { node_id: h, event: ev }) =~= pre.graph_queue
                        + spec_tagged_events(pre.ents[i as int]).take(t as int + 1));
                }
                t = t + 1;
            }
            let e = &mut world.ents[i];
            e.events.events.clear();
            proof {
                assert(spec_tagged_events(pre.ents[i as int]).take(m as int) =~= spec_tagged_events(
                    pre.ents[i as int],
                ));
                assert(world@.ents =~= pre.ents.update(i as int, world@.ents[i as int]));
                assert(world@.ents[i as int] =~= (EntityView {
                    events: Seq::empty(),
                    ..old(world)@.ents[i as int]
                }));
                assert(world@.graph_queue =~= old(world)@.graph_queue + spec_flush_upto(
                    old(world)@.ents,
                    i as int + 1,
                ));
                assert(world@ =~= (WorldView {
                    ents: world@.ents,
                    graph_queue: world@.graph_queue,
                    ..old(world)@
                }));
                assert forall|j: int| 0 <= j < world.n() implies (#[trigger] world.ent(j)).wf(
                    world.n(),
                ) by {
                    assert(old(world).ent(j).wf(old(world).n()));
                    if j != i {
                        assert(world.ent(j) == pre.ents[j]);
                    }
                }
            }
        } else {
            proof {
                assert(spec_flush_upto(old(world)@.ents, i as int + 1) =~= spec_flush_upto(
                    old(world)@.ents,
                    i as int,
                ));
            }
        }
        i = i + 1;
    }
}


/// Tearing down what a spawn added restores the graph exactly: when the
/// handles queued for removal are precisely the nodes appended after
/// some earlier state, the removal flush leaves that earlier state's
/// nodes, so the live count returns to what it was before the spawn.
/// This is the composite behind pool teardown: the despawn cascade
/// queues a pool's handles and the flush takes them to the graph.
pub proof fn lemma_remove_added_restores(nodes0: Seq<u64>, added: Seq<u64>)
    requires
        forall|a: int, b: int|
            0 <= a < b < (nodes0 + added).len() ==> (nodes0 + added)[a] != (nodes0 + added)[b],
    ensures
        spec_remove_all(nodes0 + added, added) =~= nodes0,
    decreases added.len(),
{
    if added.len() == 0 {
        assert(nodes0 + added =~= nodes0);
    } else {
        let h = added[0];
        let rest = added.drop_first();
        let pred = keep_other(h);
        assert(nodes0 + added =~= nodes0 + (seq![h] + rest));
        Seq::filter_distributes_over_add(nodes0, seq![h] + rest, pred);
        rest.lemma_filter_prepend(h, pred);
        assert forall|k: int| 0 <= k < nodes0.len() implies nodes0[k] != h by {
            assert((nodes0 + added)[k] != (nodes0 + added)[nodes0.len() as int]);
        }
        assert forall|k: int| 0 <= k < rest.len() implies rest[k] != h by {
            assert((nodes0 + added)[nodes0.len() as int] != (nodes0 + added)[nodes0.len() as int
                + 1 + k]);
        }
        lemma_filter_all_kept(nodes0, h);
        lemma_filter_all_kept(rest, h);
        assert((nodes0 + (seq![h] + rest)).filter(pred) =~= nodes0 + rest);
        assert((nodes0 + added).filter(pred) =~= nodes0 + rest);
        assert forall|a: int, b: int|
            0 <= a < b < (nodes0 + rest).len() implies (nodes0 + rest)[a] != (nodes0 + rest)[
            b
        ] by {
            let shift = |x: int| if x < nodes0.len() {
                x
            } else {
                x + 1
            };
            assert((nodes0 + rest)[a] == (nodes0 + added)[shift(a)]);
            assert((nodes0 + rest)[b] == (nodes0 + added)[shift(b)]);
        }
        lemma_remove_added_restores(nodes0, rest);
        assert(spec_remove_all(nodes0 + added, added) == spec_remove_all(
            (nodes0 + added).filter(pred),
            rest,
        ));
        assert(spec_remove_all(nodes0 + rest, rest) =~= nodes0);
    }
}

} // verus!
