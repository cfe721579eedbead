//! Parameter values, baselines, and the diff/patch machinery.
//!
//! A parameter-bearing object carries a current value and a shadow
//! *baseline*, the last state synchronized with the audio graph.  Diffing
//! compares the two field by field and emits one minimal, ordered patch
//! event per differing field; patching folds those events back into the
//! baseline so an immediate re-diff emits nothing.

use vstd::prelude::*;

verus! {

/// An event consumed by the audio graph, in emission order.
#[derive(Clone, Copy, PartialEq, Eq, Structural, Debug)]
pub enum NodeEventType {
    /// A minimal change to one field of a parameter set.
    Param { kind: u64, field: usize, value: i64 },
    /// An opaque payload forwarded to the graph unchanged.
    Custom { payload: i64 },
    /// Load a sample and start playback with the given settings.
    LoadSample { sample: u64, volume: i64, repeat: u64 },
    /// Stop the running sequence.
    SequenceStop,
}

/// One diff-able parameter set: a kind tag (which component it models),
/// the current field values, and the baseline the graph last saw.
#[derive(Debug)]
pub struct ParamSet {
    /// Identifies the parameter type this set stands for.
    pub kind: u64,
    /// The current, control-side field values, in declaration order.
    pub value: Vec<i64>,
    /// The last-synchronized shadow copy of `value`.
    pub baseline: Vec<i64>,
}

/// The mathematical image of one parameter set.
#[verifier::ext_equal]
pub ghost struct ParamSetView {
    pub kind: u64,
    pub value: Seq<i64>,
    pub baseline: Seq<i64>,
}

impl ParamSetView {
    /// The value and its baseline always carry the same fields.
    pub open spec fn wf(self) -> bool {
        self.value.len() == self.baseline.len()
    }
}

impl View for ParamSet {
    type V = ParamSetView;

    open spec fn view(&self) -> ParamSetView {
        ParamSetView { kind: self.kind, value: self.value@, baseline: self.baseline@ }
    }
}

/// The events `diff` emits for fields at positions `i` and beyond,
/// in ascending field order.
pub open spec fn spec_diff_from(kind: u64, cur: Seq<i64>, base: Seq<i64>, i: int) -> Seq<
    NodeEventType,
>
    decreases cur.len() - i,
{
    if i < 0 || i >= cur.len() {
        Seq::empty()
    } else {
        let rest = spec_diff_from(kind, cur, base, i + 1);
        if cur[i] == base[i] {
            rest
        } else {
            seq![(NodeEventType::Param { kind, field: i as usize, value: cur[i] })] + rest
        }
    }
}

/// The full diff of a current value against a baseline: one `Param` event
/// per differing field, ordered by field position.
pub open spec fn spec_diff(kind: u64, cur: Seq<i64>, base: Seq<i64>) -> Seq<NodeEventType> {
    spec_diff_from(kind, cur, base, 0)
}

/// The result of applying one event to a field vector: a `Param` event of
/// the matching kind with an in-range field updates that field; every
/// other event leaves the fields unchanged.
pub open spec fn spec_patch(kind: u64, base: Seq<i64>, event: NodeEventType) -> Seq<i64> {
    match event {
        NodeEventType::Param { kind: k, field, value } => {
            if k == kind && field < base.len() {
                base.update(field as int, value)
            } else {
                base
            }
        },
        _ => base,
    }
}

/// The result of applying a sequence of events in order.
pub open spec fn spec_patch_all(kind: u64, base: Seq<i64>, events: Seq<NodeEventType>) -> Seq<
    i64,
>
    decreases events.len(),
{
    if events.len() == 0 {
        base
    } else {
        spec_patch_all(kind, spec_patch(kind, base, events[0]), events.drop_first())
    }
}

/// Appending one event to a patch sequence applies it last.
pub proof fn lemma_patch_all_push(kind: u64, base: Seq<i64>, events: Seq<NodeEventType>, event: NodeEventType)
    ensures
        spec_patch_all(kind, base, events.push(event)) == spec_patch(
            kind,
            spec_patch_all(kind, base, events),
            event,
        ),
    decreases events.len(),
{
    let s = events.push(event);
    if events.len() == 0 {
        assert(s[0] == event);
        assert(s.drop_first() =~= Seq::<NodeEventType>::empty());
        assert(spec_patch_all(kind, base, s) == spec_patch_all(
            kind,
            spec_patch(kind, base, event),
            s.drop_first(),
        ));
    } else {
        assert(s[0] == events[0]);
        assert(s.drop_first() =~= events.drop_first().push(event));
        assert(spec_patch_all(kind, base, s) == spec_patch_all(
            kind,
            spec_patch(kind, base, events[0]),
            s.drop_first(),
        ));
        lemma_patch_all_push(kind, spec_patch(kind, base, events[0]), events.drop_first(), event);
    }
}

/// Patching never changes the number of fields.
pub proof fn lemma_patch_all_len(kind: u64, base: Seq<i64>, events: Seq<NodeEventType>)
    ensures
        spec_patch_all(kind, base, events).len() == base.len(),
    decreases events.len(),
{
    if events.len() > 0 {
        lemma_patch_all_len(kind, spec_patch(kind, base, events[0]), events.drop_first());
    }
}

/// Folding a diff back into the baseline reconstructs the current value
/// field by field: positions below `i` keep the working copy, and
/// positions from `i` on take the current value.
proof fn lemma_patch_diff_from(kind: u64, cur: Seq<i64>, base: Seq<i64>, work: Seq<i64>, i: int)
    requires
        cur.len() == base.len(),
        cur.len() == work.len(),
        cur.len() <= usize::MAX,
        0 <= i <= cur.len(),
    ensures
        ({
            let r = spec_patch_all(kind, work, spec_diff_from(kind, cur, base, i));
            &&& r.len() == cur.len()
            &&& forall|j: int| 0 <= j < i ==> r[j] == work[j]
            &&& forall|j: int|
                i <= j < cur.len() ==> r[j] == (if cur[j] == base[j] {
                    work[j]
                } else {
                    cur[j]
                })
        }),
    decreases cur.len() - i,
{
    if i == cur.len() {
    } else {
        let rest = spec_diff_from(kind, cur, base, i + 1);
        if cur[i] == base[i] {
            lemma_patch_diff_from(kind, cur, base, work, i + 1);
        } else {
            let ev = (NodeEventType::Param { kind, field: i as usize, value: cur[i] });
            let head = seq![ev] + rest;
            assert(head[0] == ev);
            assert(head.drop_first() =~= rest);
            let work2 = spec_patch(kind, work, ev);
            assert(work2 =~= work.update(i, cur[i]));
            lemma_patch_diff_from(kind, cur, base, work2, i + 1);
        }
    }
}

/// Patching a baseline with its own diff yields the current value.
pub proof fn lemma_patch_diff(kind: u64, cur: Seq<i64>, base: Seq<i64>)
    requires
        cur.len() == base.len(),
        cur.len() <= usize::MAX,
    ensures
        spec_patch_all(kind, base, spec_diff(kind, cur, base)) =~= cur,
{
    lemma_patch_diff_from(kind, cur, base, base, 0);
}

/// Diffing a value against itself emits nothing: re-diffing immediately
/// after a sync is idempotent.
pub proof fn lemma_diff_self_empty(kind: u64, cur: Seq<i64>, i: int)
    ensures
        spec_diff_from(kind, cur, cur, i).len() == 0,
    decreases cur.len() - i,
{
    if 0 <= i < cur.len() {
        lemma_diff_self_empty(kind, cur, i + 1);
    }
}

/// The diff is minimal and ordered: every emitted event changes exactly
/// one field that really differs, carries the current value of that
/// field, and field positions are strictly increasing.
pub proof fn lemma_diff_minimal_ordered(kind: u64, cur: Seq<i64>, base: Seq<i64>, i: int)
    requires
        cur.len() == base.len(),
        cur.len() <= usize::MAX,
        0 <= i,
    ensures
        ({
            let d = spec_diff_from(kind, cur, base, i);
            &&& forall|a: int|
                0 <= a < d.len() ==> (#[trigger] d[a] matches NodeEventType::Param {
                    kind: k,
                    field,
                    value,
                } && k == kind && i <= field < cur.len() && cur[field as int] != base[field as int]
                    && value == cur[field as int])
            &&& forall|a: int, b: int|
                0 <= a < b < d.len() ==> (#[trigger] d[a] matches NodeEventType::Param {
                    field: fa,
                    ..
                } && #[trigger] d[b] matches NodeEventType::Param { field: fb, .. } && fa < fb)
        }),
    decreases cur.len() - i,
{
    if i < cur.len() {
        lemma_diff_minimal_ordered(kind, cur, base, i + 1);
        let rest = spec_diff_from(kind, cur, base, i + 1);
        let d = spec_diff_from(kind, cur, base, i);
        if cur[i] != base[i] {
            let ev = (NodeEventType::Param { kind, field: i as usize, value: cur[i] });
            assert forall|a: int| 0 <= a < d.len() implies #[trigger] d[a] == (if a == 0 {
                ev
            } else {
                rest[a - 1]
            }) by {
                assert(d == seq![ev] + rest);
            }
        }
    }
}

impl ParamSet {
    /// The value and its baseline always carry the same fields.
    pub open spec fn wf(self) -> bool {
        self@.wf()
    }

    /// A fresh parameter set whose baseline is created atomically with the
    /// value, so that the first diff reports no stale change.
    pub fn new(kind: u64, fields: Vec<i64>) -> (r: ParamSet)
        ensures
            r.wf(),
            r.kind == kind,
            r.value@ == fields@,
            r.baseline@ == fields@,
    {
        let baseline = clone_fields(&fields);
        ParamSet { kind, value: fields, baseline }
    }

    /// Copy this set, fields and baseline alike.
    pub fn duplicate(&self) -> (r: ParamSet)
        ensures
            r.kind == self.kind,
            r.value@ == self.value@,
            r.baseline@ == self.baseline@,
    {
        ParamSet {
            kind: self.kind,
            value: clone_fields(&self.value),
            baseline: clone_fields(&self.baseline),
        }
    }

    /// Overwrite one field of the current value.
    pub fn set_field(&mut self, field: usize, value: i64)
        requires
            field < old(self).value@.len(),
        ensures
            final(self).kind == old(self).kind,
            final(self).value@ == old(self).value@.update(field as int, value),
            final(self).baseline@ == old(self).baseline@,
    {
        let r = &mut self.value[field];
        *r = value;
    }

    /// Compute the ordered diff of the current value against the baseline.
    pub fn diff(&self) -> (events: Vec<NodeEventType>)
        requires
            self.wf(),
        ensures
            events@ == spec_diff(self.kind, self.value@, self.baseline@),
    {
        let mut events: Vec<NodeEventType> = Vec::new();
        let n = self.value.len();
        let mut i: usize = 0;
        while i < n
            invariant
                i <= n,
                n == self.value@.len(),
                self.wf(),
                spec_diff(self.kind, self.value@, self.baseline@) == events@ + spec_diff_from(
                    self.kind,
                    self.value@,
                    self.baseline@,
                    i as int,
                ),
            decreases n - i,
        {
            proof {
                assert(spec_diff_from(self.kind, self.value@, self.baseline@, i as int) == (if self.value@[i as int] == self.baseline@[i as int] {
                    spec_diff_from(self.kind, self.value@, self.baseline@, i as int + 1)
                } else {
                    seq![(NodeEventType::Param { kind: self.kind, field: i, value: self.value@[i as int] })] + spec_diff_from(self.kind, self.value@, self.baseline@, i as int + 1)
                }));
            }
            if self.value[i] != self.baseline[i] {
                let ghost before = events@;
                events.push(NodeEventType::Param { kind: self.kind, field: i, value: self.value[i] });
                proof {
                    assert(events@ =~= before + seq![(NodeEventType::Param { kind: self.kind, field: i, value: self.value@[i as int] })]);
                    assert(before + (seq![(NodeEventType::Param { kind: self.kind, field: i, value: self.value@[i as int] })] + spec_diff_from(self.kind, self.value@, self.baseline@, i as int + 1)) =~= events@ + spec_diff_from(self.kind, self.value@, self.baseline@, i as int + 1));
                }
            }
            i = i + 1;
        }
        proof {
            assert(events@ + spec_diff_from(self.kind, self.value@, self.baseline@, n as int) =~= events@);
        }
        events
    }

    /// Apply one event to the baseline.
    pub fn patch_event(&mut self, event: &NodeEventType)
        ensures
            final(self).kind == old(self).kind,
            final(self).value@ == old(self).value@,
            final(self).baseline@ == spec_patch(old(self).kind, old(self).baseline@, *event),
    {
        match event {
            NodeEventType::Param { kind, field, value } => {
                if *kind == self.kind && *field < self.baseline.len() {
                    let r = &mut self.baseline[*field];
                    *r = *value;
                }
            },
            _ => {},
        }
    }

    /// Diff the current value against the baseline, then fold every emitted
    /// event back into the baseline.  Afterwards the baseline equals the
    /// value, so an immediate re-diff emits nothing.
    pub fn sync(&mut self) -> (events: Vec<NodeEventType>)
        requires
            old(self).wf(),
        ensures
            final(self).wf(),
            final(self).kind == old(self).kind,
            final(self).value@ == old(self).value@,
            events@ == spec_diff(old(self).kind, old(self).value@, old(self).baseline@),
            final(self).baseline@ == final(self).value@,
            spec_diff(final(self).kind, final(self).value@, final(self).baseline@).len() == 0,
    {
        let events = self.diff();
        let n = events.len();
        let mut i: usize = 0;
        while i < n
            invariant
                i <= n,
                n == events@.len(),
                self.kind == old(self).kind,
                self.value@ == old(self).value@,
                self.baseline@ == spec_patch_all(self.kind, old(self).baseline@, events@.take(i as int)),
                events@ == spec_diff(old(self).kind, old(self).value@, old(self).baseline@),
                old(self).wf(),
            decreases n - i,
        {
            let ghost done = events@.take(i as int);
            self.patch_event(&events[i]);
            proof {
                lemma_patch_all_push(self.kind, old(self).baseline@, done, events@[i as int]);
                assert(events@.take(i as int + 1) =~= done.push(events@[i as int]));
            }
            i = i + 1;
        }
        let value_len = self.value.len();
        proof {
            assert(old(self).value@.len() == value_len);
            assert(events@.take(n as int) =~= events@);
            lemma_patch_diff(old(self).kind, old(self).value@, old(self).baseline@);
            lemma_diff_self_empty(self.kind, self.value@, 0);
        }
        events
    }
}

/// Whether a source set of the same kind and arity carries a different
/// value than the follower's.
pub open spec fn spec_set_differs(s: ParamSetView, src: ParamSetView) -> bool {
    src.kind == s.kind && src.value.len() == s.value.len() && src.value != s.value
}

/// A follower's set after one relay: it takes the source's value when
/// kind and arity agree, and keeps its own baseline either way.
pub open spec fn spec_followed_set(s: ParamSetView, src: ParamSetView) -> ParamSetView {
    if src.kind == s.kind && src.value.len() == s.value.len() {
        ParamSetView { value: src.value, ..s }
    } else {
        s
    }
}

impl ParamSet {
    /// Relay a source set onto this one: recompute the difference and
    /// fold it into this set's current value (not its baseline), so the
    /// entity's own diff pass reports the relayed change later in the
    /// frame.  A source of another kind or arity is left unapplied.
    pub fn follow(&mut self, source: &ParamSet) -> (changed: bool)
        ensures
            final(self)@ == spec_followed_set(old(self)@, source@),
            changed == spec_set_differs(old(self)@, source@),
    {
        if self.kind != source.kind || self.value.len() != source.value.len() {
            return false;
        }
        let n = self.value.len();
        let mut differs = false;
        let mut i: usize = 0;
        proof {
            assert(self.value@.take(0) =~= source.value@.take(0));
        }
        while i < n
            invariant
                i <= n,
                n == self.value@.len(),
                *self == *old(self),
                differs == (self.value@.take(i as int) != source.value@.take(i as int)),
            decreases n - i,
        {
            proof {
                assert(self.value@.take(i as int + 1).take(i as int) =~= self.value@.take(
                    i as int,
                ));
                assert(source.value@.take(i as int + 1).take(i as int) =~= source.value@.take(
                    i as int,
                ));
                if self.value@.take(i as int) == source.value@.take(i as int) {
                    if self.value@[i as int] == source.value@[i as int] {
                        assert(self.value@.take(i as int + 1) =~= source.value@.take(i as int + 1));
                    } else {
                        assert(self.value@.take(i as int + 1)[i as int] != source.value@.take(
                            i as int + 1,
                        )[i as int]);
                    }
                }
            }
            if self.value[i] != source.value[i] {
                differs = true;
            }
            i = i + 1;
        }
        proof {
            assert(self.value@.take(n as int) =~= self.value@);
            assert(source.value@.take(n as int) =~= source.value@);
        }
        if differs {
            self.value = clone_fields(&source.value);
        }
        proof {
            assert(self@ =~= spec_followed_set(old(self)@, source@));
        }
        differs
    }
}

/// The first parameter set of the given kind, if any.
pub open spec fn spec_find_kind(ssets: Seq<ParamSetView>, kind: u64) -> Option<ParamSetView>
    decreases ssets.len(),
{
    if ssets.len() == 0 {
        None
    } else if ssets[0].kind == kind {
        Some(ssets[0])
    } else {
        spec_find_kind(ssets.drop_first(), kind)
    }
}

/// Every follower set after one relay from the matching source sets.
pub open spec fn spec_followed_sets(fsets: Seq<ParamSetView>, ssets: Seq<ParamSetView>) -> Seq<
    ParamSetView,
> {
    fsets.map_values(
        |s: ParamSetView|
            match spec_find_kind(ssets, s.kind) {
                Some(src) => spec_followed_set(s, src),
                None => s,
            },
    )
}

/// Whether relaying one set would change it.
pub open spec fn spec_step_changed(s: ParamSetView, ssets: Seq<ParamSetView>) -> bool {
    match spec_find_kind(ssets, s.kind) {
        Some(src) => spec_set_differs(s, src),
        None => false,
    }
}

/// Whether relaying any of the first `k` follower sets changes one.
pub open spec fn spec_follow_changed_upto(
    fsets: Seq<ParamSetView>,
    ssets: Seq<ParamSetView>,
    k: int,
) -> bool
    decreases k,
{
    if k <= 0 || k > fsets.len() {
        false
    } else {
        spec_follow_changed_upto(fsets, ssets, k - 1) || spec_step_changed(fsets[k - 1], ssets)
    }
}

/// Whether a relay changes the follower at all.
pub open spec fn spec_follow_changed(fsets: Seq<ParamSetView>, ssets: Seq<ParamSetView>) -> bool {
    spec_follow_changed_upto(fsets, ssets, fsets.len() as int)
}

/// Find the first parameter set of the given kind.
pub fn find_kind(sets: &Vec<ParamSet>, kind: u64) -> (r: Option<usize>)
    ensures
        match r {
            Some(m) => m < sets@.len() && sets@[m as int]@.kind == kind && spec_find_kind(
                sets@.map_values(|s: ParamSet| s@),
                kind,
            ) == Some(sets@[m as int]@),
            None => spec_find_kind(sets@.map_values(|s: ParamSet| s@), kind) is None,
        },
{
    let ghost v = sets@.map_values(|s: ParamSet| s@);
    let n = sets.len();
    let mut i: usize = 0;
    proof {
        assert(v.skip(0) =~= v);
    }
    while i < n
        invariant
            i <= n,
            n == sets@.len(),
            v == sets@.map_values(|s: ParamSet| s@),
            spec_find_kind(v, kind) == spec_find_kind(v.skip(i as int), kind),
        decreases n - i,
    {
        proof {
            assert(v.skip(i as int)[0] == v[i as int]);
            assert(v.skip(i as int).drop_first() =~= v.skip(i as int + 1));
        }
        if sets[i].kind == kind {
            return Some(i);
        }
        i = i + 1;
    }
    proof {
        assert(v.skip(n as int) =~= Seq::<ParamSetView>::empty());
    }
    None
}

/// Copy a field vector.
fn clone_fields(fields: &Vec<i64>) -> (r: Vec<i64>)
    ensures
        r@ == fields@,
{
    let mut r: Vec<i64> = Vec::new();
    let n = fields.len();
    let mut i: usize = 0;
    while i < n
        invariant
            i <= n,
            n == fields@.len(),
            r@ == fields@.take(i as int),
        decreases n - i,
    {
        r.push(fields[i]);
        proof {
            assert(fields@.take(i as int).push(fields@[i as int]) =~= fields@.take(i as int + 1));
        }
        i = i + 1;
    }
    proof {
        assert(fields@.take(n as int) =~= fields@);
    }
    r
}

/// A per-object queue of outgoing events awaiting the frame's flush.
#[derive(Debug)]
pub struct Events {
    /// The queued events, oldest first.
    pub events: Vec<NodeEventType>,
}

impl Events {
    /// An empty queue.
    pub fn new() -> (r: Events)
        ensures
            r.events@.len() == 0,
    {
        Events { events: Vec::new() }
    }

    /// Push a new event.
    pub fn push(&mut self, event: NodeEventType)
        ensures
            final(self).events@ == old(self).events@.push(event),
    {
        self.events.push(event);
    }

    /// Push an opaque custom event.
    pub fn push_custom(&mut self, payload: i64)
        ensures
            final(self).events@ == old(self).events@.push(NodeEventType::Custom { payload }),
    {
        self.events.push(NodeEventType::Custom { payload });
    }
}

/// No set of the kind exists exactly when the lookup fails.
pub proof fn lemma_find_kind_none(ssets: Seq<ParamSetView>, kind: u64)
    ensures
        (spec_find_kind(ssets, kind) is None) == !(exists|k: int|
            0 <= k < ssets.len() && (#[trigger] ssets[k]).kind == kind),
    decreases ssets.len(),
{
    if ssets.len() > 0 {
        if ssets[0].kind == kind {
        } else {
            let tail = ssets.drop_first();
            lemma_find_kind_none(tail, kind);
            if exists|k: int| 0 <= k < ssets.len() && (#[trigger] ssets[k]).kind == kind {
                let k = choose|k: int| 0 <= k < ssets.len() && (#[trigger] ssets[k]).kind == kind;
                assert(k > 0);
                assert(tail[k - 1].kind == kind);
            }
            if exists|k: int| 0 <= k < tail.len() && (#[trigger] tail[k]).kind == kind {
                let k = choose|k: int| 0 <= k < tail.len() && (#[trigger] tail[k]).kind == kind;
                assert(ssets[k + 1].kind == kind);
            }
        }
    }
}

} // verus!
