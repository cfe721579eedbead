//! Dynamic pool provisioning: requests are grouped by the unordered set
//! of effect kinds they ask for, and a pool is created lazily per
//! distinct set.

use vstd::prelude::*;

use crate::pool::{Assets, PoolLabel, PoolRange, SamplePoolTypes};
use crate::world::{spec_key_of, AudioWorld, EntityView, WorldView};

verus! {

/// The registry key of one request: the set of effect kinds it wants,
/// kept sorted so that insertion order never matters.
#[derive(Debug)]
pub struct DynamicPoolRegistry {
    /// The requested effect kinds, strictly ascending.
    pub effects: Vec<u64>,
}

impl DynamicPoolRegistry {
    /// The key is a sorted set: strictly ascending, hence duplicate-free.
    pub open spec fn wf(self) -> bool {
        sorted_strict(self.effects@)
    }

    /// An empty key.
    pub fn new() -> (r: DynamicPoolRegistry)
        ensures
            r.wf(),
            r.effects@.len() == 0,
    {
        DynamicPoolRegistry { effects: Vec::new() }
    }

    /// Record one requested effect kind.  Returns true when the kind was
    /// not present yet.  The resulting key depends only on the set of
    /// kinds inserted, never on the order of calls.
    pub fn insert(&mut self, value: u64) -> (added: bool)
        requires
            old(self).wf(),
        ensures
            final(self).wf(),
            final(self).effects@ == spec_insert(old(self).effects@, value),
            added == !old(self).effects@.contains(value),
    {
        let n = self.effects.len();
        let mut i: usize = 0;
        while i < n
            invariant
                i <= n,
                n == self.effects@.len(),
                *self == *old(self),
                forall|k: int| 0 <= k < i ==> self.effects@[k] < value,
            decreases n - i,
        {
            if self.effects[i] == value {
                proof {
                    lemma_spec_insert_present(self.effects@, value);
                }
                return false;
            }
            if self.effects[i] > value {
                self.effects.insert(i, value);
                proof {
                    lemma_spec_insert_at(old(self).effects@, value, i as int);
                }
                return true;
            }
            i = i + 1;
        }
        self.effects.push(value);
        proof {
            lemma_spec_insert_at_end(old(self).effects@, value);
            assert(old(self).effects@.push(value) =~= old(self).effects@.insert(
                old(self).effects@.len() as int,
                value,
            ));
        }
        true
    }

    /// Whether two keys name the same effect set.
    pub fn matches(&self, other: &DynamicPoolRegistry) -> (r: bool)
        ensures
            r == (self.effects@ == other.effects@),
    {
        let n = self.effects.len();
        if n != other.effects.len() {
            proof {
                assert(self.effects@ != other.effects@);
            }
            return false;
        }
        let mut i: usize = 0;
        while i < n
            invariant
                i <= n,
                n == self.effects@.len(),
                n == other.effects@.len(),
                forall|k: int| 0 <= k < i ==> self.effects@[k] == other.effects@[k],
            decreases n - i,
        {
            if self.effects[i] != other.effects[i] {
                return false;
            }
            i = i + 1;
        }
        proof {
            assert(self.effects@ =~= other.effects@);
        }
        true
    }

    /// Copy the key.
    pub fn duplicate(&self) -> (r: DynamicPoolRegistry)
        ensures
            r.effects@ == self.effects@,
    {
        let mut effects: Vec<u64> = Vec::new();
        let n = self.effects.len();
        let mut i: usize = 0;
        while i < n
            invariant
                i <= n,
                n == self.effects@.len(),
                effects@ =~= self.effects@.take(i as int),
            decreases n - i,
        {
            effects.push(self.effects[i]);
            proof {
                assert(self.effects@.take(i as int).push(self.effects@[i as int])
                    =~= self.effects@.take(i as int + 1));
            }
            i = i + 1;
        }
        proof {
            assert(self.effects@.take(n as int) =~= self.effects@);
        }
        DynamicPoolRegistry { effects }
    }
}

/// Strictly ascending order.
pub open spec fn sorted_strict(s: Seq<u64>) -> bool {
    forall|a: int, b: int| 0 <= a < b < s.len() ==> s[a] < s[b]
}

/// Insertion into a sorted set: a no-op when present, else placed at its
/// unique sorted position.
pub open spec fn spec_insert(s: Seq<u64>, value: u64) -> Seq<u64>
    decreases s.len(),
{
    if s.len() == 0 {
        seq![value]
    } else if s[0] == value {
        s
    } else if s[0] > value {
        seq![value] + s
    } else {
        seq![s[0]] + spec_insert(s.drop_first(), value)
    }
}

/// When the value is already present in a sorted set, inserting it
/// changes nothing.
proof fn lemma_spec_insert_present(s: Seq<u64>, value: u64)
    requires
        sorted_strict(s),
        s.contains(value),
    ensures
        spec_insert(s, value) == s,
    decreases s.len(),
{
    if s.len() > 0 {
        if s[0] == value {
        } else if s[0] > value {
            assert forall|k: int| 0 <= k < s.len() implies s[k] != value by {
                if k > 0 {
                    assert(s[0] < s[k]);
                }
            }
            assert(false);
        } else {
            let tail = s.drop_first();
            assert(s == seq![s[0]] + tail);
            let w = choose|k: int| 0 <= k < s.len() && s[k] == value;
            assert(w > 0);
            assert(tail[w - 1] == value);
            assert(tail.contains(value));
            lemma_spec_insert_present(tail, value);
            assert(seq![s[0]] + tail =~= s);
        }
    }
}

/// Inserting an absent value into a sorted set at the first position
/// whose element exceeds it equals the specification insert.
proof fn lemma_spec_insert_at(s: Seq<u64>, value: u64, i: int)
    requires
        sorted_strict(s),
        0 <= i < s.len(),
        forall|k: int| 0 <= k < i ==> s[k] < value,
        s[i] > value,
    ensures
        spec_insert(s, value) =~= s.insert(i, value),
    decreases s.len(),
{
    if i == 0 {
        assert(spec_insert(s, value) == seq![value] + s);
        assert(seq![value] + s =~= s.insert(0, value));
    } else {
        let tail = s.drop_first();
        assert(forall|a: int, b: int| 0 <= a < b < tail.len() ==> tail[a] < tail[b]);
        lemma_spec_insert_at(tail, value, i - 1);
        assert(spec_insert(s, value) == seq![s[0]] + spec_insert(tail, value));
        assert(seq![s[0]] + tail.insert(i - 1, value) =~= s.insert(i, value));
    }
}

/// Inserting a value greater than every element appends it.
proof fn lemma_spec_insert_at_end(s: Seq<u64>, value: u64)
    requires
        sorted_strict(s),
        forall|k: int| 0 <= k < s.len() ==> s[k] < value,
    ensures
        spec_insert(s, value) =~= s.push(value),
    decreases s.len(),
{
    if s.len() == 0 {
        assert(spec_insert(s, value) =~= s.push(value));
    } else {
        let tail = s.drop_first();
        lemma_spec_insert_at_end(tail, value);
        assert(seq![s[0]] + tail.push(value) =~= s.push(value));
    }
}

/// Insertion commutes: the key depends only on the set of inserted
/// kinds, never on the order in which they were requested.
pub proof fn lemma_insert_commutes(s: Seq<u64>, a: u64, b: u64)
    requires
        sorted_strict(s),
    ensures
        spec_insert(spec_insert(s, a), b) == spec_insert(spec_insert(s, b), a),
{
    lemma_spec_insert_sorted(s, a);
    lemma_spec_insert_sorted(s, b);
    lemma_spec_insert_sorted(spec_insert(s, a), b);
    lemma_spec_insert_sorted(spec_insert(s, b), a);
    lemma_spec_insert_elements(s, a);
    lemma_spec_insert_elements(s, b);
    lemma_spec_insert_elements(spec_insert(s, a), b);
    lemma_spec_insert_elements(spec_insert(s, b), a);
    lemma_sorted_same_elements(
        spec_insert(spec_insert(s, a), b),
        spec_insert(spec_insert(s, b), a),
    );
}

/// Inserting preserves strict order.
pub proof fn lemma_spec_insert_sorted(s: Seq<u64>, value: u64)
    requires
        sorted_strict(s),
    ensures
        sorted_strict(spec_insert(s, value)),
    decreases s.len(),
{
    lemma_spec_insert_elements(s, value);
    if s.len() > 0 && s[0] < value {
        let tail = s.drop_first();
        assert(forall|a: int, b: int| 0 <= a < b < tail.len() ==> tail[a] < tail[b]);
        lemma_spec_insert_sorted(tail, value);
        lemma_spec_insert_elements(tail, value);
        let r = seq![s[0]] + spec_insert(tail, value);
        assert forall|x: int, y: int| 0 <= x < y < r.len() implies r[x] < r[y] by {
            if x == 0 {
                assert(spec_insert(tail, value).contains(r[y])) by {
                    assert(r[y] == spec_insert(tail, value)[y - 1]);
                }
            } else {
                assert(r[x] == spec_insert(tail, value)[x - 1]);
                assert(r[y] == spec_insert(tail, value)[y - 1]);
            }
        }
    }
}

/// The inserted sequence holds exactly the old elements plus the value.
pub proof fn lemma_spec_insert_elements(s: Seq<u64>, value: u64)
    requires
        sorted_strict(s),
    ensures
        forall|x: u64| #[trigger] spec_insert(s, value).contains(x) <==> (s.contains(x) || x
            == value),
        spec_insert(s, value).len() == (if s.contains(value) {
            s.len()
        } else {
            s.len() + 1
        }),
    decreases s.len(),
{
    if s.len() == 0 {
        assert forall|x: u64| #[trigger] spec_insert(s, value).contains(x) implies (s.contains(x)
            || x == value) by {
            assert(spec_insert(s, value) == seq![value]);
        }
        assert(spec_insert(s, value)[0] == value);
        assert(spec_insert(s, value).contains(value));
    } else if s[0] == value {
        assert(s.contains(value)) by {
            assert(s[0] == value);
        }
    } else if s[0] > value {
        let r = seq![value] + s;
        assert forall|x: u64| #[trigger] r.contains(x) implies (s.contains(x) || x == value) by {
            let k = choose|k: int| 0 <= k < r.len() && r[k] == x;
            if k > 0 {
                assert(s[k - 1] == x);
            }
        }
        assert(r[0] == value);
        assert(forall|k: int| 0 <= k < s.len() ==> r[k + 1] == s[k]);
        assert forall|x: u64| s.contains(x) implies r.contains(x) by {
            let k = choose|k: int| 0 <= k < s.len() && s[k] == x;
            assert(r[k + 1] == x);
        }
        if s.contains(value) {
            let k = choose|k: int| 0 <= k < s.len() && s[k] == value;
            if k > 0 {
                assert(s[0] < s[k]);
            }
            assert(false);
        }
    } else {
        let tail = s.drop_first();
        lemma_spec_insert_elements(tail, value);
        let r = seq![s[0]] + spec_insert(tail, value);
        assert(s =~= seq![s[0]] + tail);
        assert forall|x: u64| #[trigger] r.contains(x) implies (s.contains(x) || x == value) by {
            let k = choose|k: int| 0 <= k < r.len() && r[k] == x;
            if k == 0 {
                assert(s[0] == x);
            } else {
                assert(spec_insert(tail, value)[k - 1] == x);
                assert(spec_insert(tail, value).contains(x));
                if tail.contains(x) {
                    let m = choose|m: int| 0 <= m < tail.len() && tail[m] == x;
                    assert(s[m + 1] == x);
                }
            }
        }
        assert forall|x: u64| (s.contains(x) || x == value) implies r.contains(x) by {
            if x == value || tail.contains(x) {
                assert(spec_insert(tail, value).contains(x));
                let k = choose|k: int|
                    0 <= k < spec_insert(tail, value).len() && spec_insert(tail, value)[k] == x;
                assert(r[k + 1] == x);
            } else {
                let k = choose|k: int| 0 <= k < s.len() && s[k] == x;
                if k == 0 {
                    assert(r[0] == x);
                } else {
                    assert(tail[k - 1] == x);
                }
            }
        }
        if s.contains(value) {
            assert(tail.contains(value)) by {
                let k = choose|k: int| 0 <= k < s.len() && s[k] == value;
                assert(k != 0);
                assert(tail[k - 1] == value);
            }
        } else {
            if tail.contains(value) {
                let k = choose|k: int| 0 <= k < tail.len() && tail[k] == value;
                assert(s[k + 1] == value);
                assert(false);
            }
        }
    }
}

/// Two sorted sets with the same members are equal.
pub proof fn lemma_sorted_same_elements(s1: Seq<u64>, s2: Seq<u64>)
    requires
        sorted_strict(s1),
        sorted_strict(s2),
        forall|x: u64| s1.contains(x) <==> s2.contains(x),
    ensures
        s1 =~= s2,
    decreases s1.len(),
{
    if s1.len() == 0 {
        if s2.len() > 0 {
            assert(s2.contains(s2[0]));
            assert(false);
        }
    } else {
        assert(s1.contains(s1[0]));
        assert(s2.len() > 0);
        // The heads are the least elements, so they agree.
        assert forall|k: int| 0 <= k < s2.len() implies s1[0] <= s2[k] by {
            assert(s2.contains(s2[k]));
            let m = choose|m: int| 0 <= m < s1.len() && s1[m] == s2[k];
            if m > 0 {
                assert(s1[0] < s1[m]);
            }
        }
        assert forall|k: int| 0 <= k < s1.len() implies s2[0] <= s1[k] by {
            assert(s1.contains(s1[k]));
            let m = choose|m: int| 0 <= m < s2.len() && s2[m] == s1[k];
            if m > 0 {
                assert(s2[0] < s2[m]);
            }
        }
        assert(s2.contains(s2[0]));
        assert(s1[0] == s2[0]);
        let t1 = s1.drop_first();
        let t2 = s2.drop_first();
        assert(forall|a: int, b: int| 0 <= a < b < t1.len() ==> t1[a] < t1[b]);
        assert(forall|a: int, b: int| 0 <= a < b < t2.len() ==> t2[a] < t2[b]);
        assert forall|x: u64| t1.contains(x) <==> t2.contains(x) by {
            lemma_tail_membership(s1, s2, x);
        }
        lemma_sorted_same_elements(t1, t2);
        assert(s1 =~= seq![s1[0]] + t1);
        assert(s2 =~= seq![s2[0]] + t2);
    }
}

/// Membership in the tail of a sorted set is membership in the set minus
/// the head.
proof fn lemma_tail_membership(s1: Seq<u64>, s2: Seq<u64>, x: u64)
    requires
        sorted_strict(s1),
        sorted_strict(s2),
        s1.len() > 0,
        s2.len() > 0,
        s1[0] == s2[0],
        forall|y: u64| s1.contains(y) <==> s2.contains(y),
    ensures
        s1.drop_first().contains(x) <==> s2.drop_first().contains(x),
{
    let t1 = s1.drop_first();
    let t2 = s2.drop_first();
    if t1.contains(x) {
        let k = choose|k: int| 0 <= k < t1.len() && t1[k] == x;
        assert(s1[k + 1] == x);
        assert(s1[0] < s1[k + 1]);
        assert(s1.contains(x)) by {
            assert(s1[k + 1] == x);
        }
        assert(s2.contains(x));
        let m = choose|m: int| 0 <= m < s2.len() && s2[m] == x;
        assert(m != 0);
        assert(t2[m - 1] == x);
        assert(t2.contains(x));
    }
    if t2.contains(x) {
        let k = choose|k: int| 0 <= k < t2.len() && t2[k] == x;
        assert(s2[k + 1] == x);
        assert(s2[0] < s2[k + 1]);
        assert(s2.contains(x)) by {
            assert(s2[k + 1] == x);
        }
        assert(s1.contains(x));
        let m = choose|m: int| 0 <= m < s1.len() && s1[m] == x;
        assert(m != 0);
        assert(t1[m - 1] == x);
        assert(t1.contains(x));
    }
}

/// One dynamic-pool binding: a key and the label of the pool that
/// services it.
#[derive(Debug)]
pub struct RegistryEntry {
    /// The effect-set key.
    pub key: DynamicPoolRegistry,
    /// The label of the pool created for that key.
    pub label: PoolLabel,
}

/// The mathematical image of one binding.
#[verifier::ext_equal]
pub ghost struct RegistryEntryView {
    pub key: Seq<u64>,
    pub label: PoolLabel,
}

impl View for RegistryEntry {
    type V = RegistryEntryView;

    open spec fn view(&self) -> RegistryEntryView {
        RegistryEntryView { key: self.key.effects@, label: self.label }
    }
}

/// The key-to-pool registry for dynamically provisioned pools.
#[derive(Debug)]
pub struct Registries {
    /// The bindings, in creation order.
    pub entries: Vec<RegistryEntry>,
}

/// Keys are sorted sets and pairwise distinct, so a key resolves to at
/// most one pool.
pub open spec fn registries_wf(entries: Seq<RegistryEntryView>) -> bool {
    &&& forall|i: int| 0 <= i < entries.len() ==> sorted_strict((#[trigger] entries[i]).key)
    &&& forall|i: int, j: int| 0 <= i < j < entries.len() ==> entries[i].key != entries[j].key
}

impl Registries {
    /// Keys are sorted sets and pairwise distinct, so a key resolves to
    /// at most one pool.
    pub open spec fn wf(self) -> bool {
        registries_wf(self.entries@.map_values(|e: RegistryEntry| e@))
    }
}

/// The first binding for a key, if any.
pub open spec fn spec_registry_lookup(entries: Seq<RegistryEntryView>, key: Seq<u64>) -> Option<
    PoolLabel,
>
    decreases entries.len(),
{
    if entries.len() == 0 {
        None
    } else if entries[0].key == key {
        Some(entries[0].label)
    } else {
        spec_registry_lookup(entries.drop_first(), key)
    }
}

/// Whether dynamic provisioning is enabled, and with which size range
/// new dynamic pools are created.  `None` disables provisioning: requests
/// with effects then simply stay unlabeled.
#[derive(Clone, Copy, PartialEq, Eq, Structural, Debug)]
pub struct DynamicPoolRange(pub Option<PoolRange>);


/// A queued request the provisioner routes this frame: alive, queued,
/// asset decoded, carrying an effect-set key but no label yet, while
/// provisioning is enabled.
pub open spec fn spec_provision_ready(w: WorldView, assets: Seq<u64>, s: int) -> bool {
    let e = w.ents[s];
    &&& 0 <= s < w.ents.len()
    &&& e.alive
    &&& e.queued
    &&& e.player is Some
    &&& e.registry is Some
    &&& e.label is None
    &&& (match e.player {
        Some(a) => assets.contains(a),
        None => false,
    })
    &&& w.dynamic_range is Some
}

/// A later binding never shadows an earlier one.
proof fn lemma_lookup_push(entries: Seq<RegistryEntryView>, e: RegistryEntryView, k: Seq<u64>)
    ensures
        spec_registry_lookup(entries, k) is Some ==> spec_registry_lookup(entries.push(e), k)
            == spec_registry_lookup(entries, k),
        spec_registry_lookup(entries, k) is None && e.key == k ==> spec_registry_lookup(
            entries.push(e),
            k,
        ) == Some(e.label),
    decreases entries.len(),
{
    if entries.len() == 0 {
        assert(entries.push(e)[0] == e);
        assert(entries.push(e).drop_first() =~= Seq::<RegistryEntryView>::empty());
    } else {
        assert(entries.push(e)[0] == entries[0]);
        assert(entries.push(e).drop_first() =~= entries.drop_first().push(e));
        lemma_lookup_push(entries.drop_first(), e, k);
    }
}

/// A key that fails to resolve is bound to no entry at all.
proof fn lemma_lookup_none_absent(entries: Seq<RegistryEntryView>, k: Seq<u64>)
    requires
        spec_registry_lookup(entries, k) is None,
    ensures
        forall|t: int| 0 <= t < entries.len() ==> (#[trigger] entries[t]).key != k,
    decreases entries.len(),
{
    if entries.len() > 0 {
        lemma_lookup_none_absent(entries.drop_first(), k);
        assert forall|t: int| 0 <= t < entries.len() implies (#[trigger] entries[t]).key != k by {
            if t > 0 {
                assert(entries.drop_first()[t - 1] == entries[t]);
            }
        }
    }
}

/// Resolve a key against the registry.
fn lookup_registry(world: &AudioWorld, key: &DynamicPoolRegistry) -> (r: Option<PoolLabel>)
    ensures
        r == spec_registry_lookup(world@.registries, key.effects@),
{
    let ghost es = world@.registries;
    let n = world.registries.entries.len();
    let mut i: usize = 0;
    proof {
        assert(es.skip(0) =~= es);
    }
    while i < n
        invariant
            i <= n,
            n == world.registries.entries@.len(),
            es == world@.registries,
            spec_registry_lookup(es, key.effects@) == spec_registry_lookup(
                es.skip(i as int),
                key.effects@,
            ),
        decreases n - i,
    {
        proof {
            assert(es.skip(i as int)[0] == es[i as int]);
            assert(es.skip(i as int).drop_first() =~= es.skip(i as int + 1));
        }
        if world.registries.entries[i].key.matches(key) {
            return Some(world.registries.entries[i].label);
        }
        i = i + 1;
    }
    proof {
        assert(es.skip(n as int) =~= Seq::<RegistryEntryView>::empty());
    }
    None
}

/// Route one request to its label.
fn set_label(world: &mut AudioWorld, s: usize, label: PoolLabel)
    requires
        old(world).wf(),
        s < old(world)@.ents.len(),
    ensures
        final(world).wf(),
        final(world)@.ents == old(world)@.ents.update(
            s as int,
            (EntityView { label: Some(label), ..old(world)@.ents[s as int] }),
        ),
        final(world)@ == (WorldView { ents: final(world)@.ents, ..old(world)@ }),
{
    let ghost pre = old(world)@;
    let e = &mut world.ents[s];
    e.label = Some(label);
    proof {
        assert(world@.ents =~= pre.ents.update(
            s as int,
            (EntityView { label: Some(label), ..pre.ents[s as int] }),
        ));
        assert(world@ =~= (WorldView { ents: world@.ents, ..pre }));
        assert forall|j: int| 0 <= j < world.n() implies (#[trigger] world.ent(j)).wf(
            world.n(),
        ) by {
            assert(old(world).ent(j).wf(old(world).n()));
            if j != s {
                assert(world.ent(j) == pre.ents[j]);
            }
        }
    }
}

/// Record a fresh key-to-label binding.
fn push_registry(world: &mut AudioWorld, key: DynamicPoolRegistry, label: PoolLabel)
    requires
        old(world).wf(),
        sorted_strict(key.effects@),
        spec_registry_lookup(old(world)@.registries, key.effects@) is None,
    ensures
        final(world).wf(),
        final(world)@.registries == old(world)@.registries.push(
            RegistryEntryView { key: key.effects@, label },
        ),
        final(world)@ == (WorldView { registries: final(world)@.registries, ..old(world)@ }),
{
    let ghost pre = old(world)@;
    let ghost kv = key.effects@;
    world.registries.entries.push(RegistryEntry { key, label });
    proof {
        assert(world@.registries =~= pre.registries.push(RegistryEntryView { key: kv, label }));
        assert(world@ =~= (WorldView { registries: world@.registries, ..pre }));
        lemma_lookup_none_absent(pre.registries, kv);
        assert(registries_wf(world@.registries)) by {
            let rs = world@.registries;
            assert forall|t: int| 0 <= t < rs.len() implies sorted_strict(
                (#[trigger] rs[t]).key,
            ) by {
                if t < pre.registries.len() {
                    assert(rs[t] == pre.registries[t]);
                } else {
                    assert(rs[t] == (RegistryEntryView { key: kv, label }));
                }
            }
            assert forall|a: int, b: int| 0 <= a < b < rs.len() implies rs[a].key != rs[b].key by {
                if b < pre.registries.len() {
                    assert(rs[a] == pre.registries[a] && rs[b] == pre.registries[b]);
                } else {
                    assert(rs[a] == pre.registries[a]);
                    assert(rs[b].key == kv);
                }
            }
        }
        assert forall|j: int| 0 <= j < world.n() implies (#[trigger] world.ent(j)).wf(
            world.n(),
        ) by {
            assert(old(world).ent(j).wf(old(world).n()));
        }
    }
}

/// Group queued, unlabeled requests by their effect-set key; on a key's
/// first occurrence create a pool at the dynamic range's lower bound
/// and record the key-to-label binding; on a repeated key reuse that
/// label.  With provisioning disabled, such requests stay unlabeled and
/// unscheduled.
#[verifier::rlimit(100)]
pub fn update_auto_pools(world: &mut AudioWorld, assets: &Assets)
    requires
        old(world).wf(),
        (match old(world)@.dynamic_range {
            Some(r) => r.min <= r.max,
            None => true,
        }),
    ensures
        final(world).wf(),
        old(world)@.dynamic_range is None ==> final(world)@ == old(world)@,
        // every routed request's label is exactly what its key resolves
        // to afterwards: equal keys share one pool, distinct keys get
        // distinct entries
        forall|s: int|
            spec_provision_ready(old(world)@, assets.loaded@, s) ==> final(world)@.ents[s].label
                == Some(
                spec_registry_lookup(
                    final(world)@.registries,
                    spec_key_of(old(world)@.ents[s]),
                )->Some_0,
            ),
        registries_wf(final(world)@.registries),
        // bindings only accumulate
        final(world)@.registries.len() >= old(world)@.registries.len(),
        forall|t: int|
            0 <= t < old(world)@.registries.len() ==> #[trigger] final(world)@.registries[t]
                == old(world)@.registries[t],
        // rows that are not routed requests are untouched
        forall|j: int|
            0 <= j < old(world)@.ents.len() && !spec_provision_ready(
                old(world)@,
                assets.loaded@,
                j,
            ) ==> final(world)@.ents[j] == old(world)@.ents[j],
        final(world)@ == (WorldView {
            ents: final(world)@.ents,
            registries: final(world)@.registries,
            ..old(world)@
        }),
{
    let ghost w0 = old(world)@;
    let dr = match world.dynamic_range.0 {
        Some(r) => r,
        None => {
            return ;
        },
    };
    let n = world.ents.len();
    let mut i: usize = 0;
    while i < n
        invariant
            i <= n,
            n == w0.ents.len(),
            world.wf(),
            w0.dynamic_range == Some(dr),
            dr.min <= dr.max,
            world@.ents.len() >= w0.ents.len(),
            world@.registries.len() >= w0.registries.len(),
            forall|t: int|
                0 <= t < w0.registries.len() ==> #[trigger] world@.registries[t]
                    == w0.registries[t],
            registries_wf(world@.registries),
            forall|s: int|
                0 <= s < i && spec_provision_ready(w0, assets.loaded@, s) ==> world@.ents[s].label
                    == Some(
                    spec_registry_lookup(world@.registries, spec_key_of(w0.ents[s]))->Some_0,
                ) && spec_registry_lookup(world@.registries, spec_key_of(w0.ents[s])) is Some,
            forall|j: int|
                0 <= j < w0.ents.len() && !(0 <= j < i && spec_provision_ready(
                    w0,
                    assets.loaded@,
                    j,
                )) ==> #[trigger] world@.ents[j] == w0.ents[j],
            world@ == (WorldView {
                ents: world@.ents,
                registries: world@.registries,
                ..w0
            }),
        decreases n - i,
    {
        let ready = world.ents[i].alive && world.ents[i].queued && world.ents[i].player.is_some()
            && world.ents[i].registry.is_some() && world.ents[i].label.is_none() && (match
            world.ents[i].player {
            Some(a) => assets.get(a.0),
            None => false,
        });
        proof {
            assert(world@.ents[i as int] == w0.ents[i as int]);
            assert(ready == spec_provision_ready(w0, assets.loaded@, i as int));
        }
        if ready {
            let key = match &world.ents[i].registry {
                Some(r) => r.duplicate(),
                None => DynamicPoolRegistry::new(),
            };
            proof {
                assert(key.effects@ == spec_key_of(w0.ents[i as int]));
                assert(sorted_strict(key.effects@)) by {
                    assert(world.ent(i as int).wf(world.n()));
                }
            }
            let found = lookup_registry(world, &key);
            let ghost regs_pre = world@.registries;
            let label = match found {
                Some(l) => l,
                None => {
                    let fresh = PoolLabel::DynamicPoolId(world.registries.entries.len() as u64);
                    let defaults = match &world.ents[i].sample_defaults {
                        Some(d) => d.duplicate(),
                        None => SamplePoolTypes::new(),
                    };
                    let ghost pre_pool = world@;
                    crate::pool::create_pool(
                        world,
                        fresh,
                        PoolRange { min: dr.min, max: dr.max },
                        defaults,
                    );
                    proof {
                        assert(world@.registries == regs_pre);
                        assert(spec_registry_lookup(world@.registries, key.effects@) is None);
                    }
                    push_registry(world, key.duplicate(), fresh);
                    proof {
                        lemma_lookup_push(
                            regs_pre,
                            RegistryEntryView { key: key.effects@, label: fresh },
                            key.effects@,
                        );
                        assert(spec_registry_lookup(world@.registries, key.effects@) == Some(
                            fresh,
                        ));
                    }
                    fresh
                },
            };
            proof {
                assert(spec_registry_lookup(world@.registries, key.effects@) == Some(label));
            }
            let ghost pre_label = world@;
            set_label(world, i, label);
            proof {
                lemma_provision_claims(
                    w0,
                    regs_pre,
                    pre_label,
                    world@,
                    assets.loaded@,
                    i as int,
                    label,
                );
            }
        }
        i = i + 1;
    }
}

/// One routing step keeps every earlier claim and adds its own.
#[verifier::rlimit(100)]
#[verifier::spinoff_prover]
proof fn lemma_provision_claims(
    w0: WorldView,
    regs_pre: Seq<RegistryEntryView>,
    pre: WorldView,
    post: WorldView,
    assets: Seq<u64>,
    i: int,
    label: PoolLabel,
)
    requires
        0 <= i < w0.ents.len(),
        spec_provision_ready(w0, assets, i),
        pre.ents.len() >= w0.ents.len(),
        pre.ents[i] == w0.ents[i],
        spec_registry_lookup(pre.registries, spec_key_of(w0.ents[i])) == Some(label),
        regs_pre == pre.registries || pre.registries == regs_pre.push(
            RegistryEntryView { key: spec_key_of(w0.ents[i]), label },
        ),
        forall|s: int|
            0 <= s < i && spec_provision_ready(w0, assets, s) ==> pre.ents[s].label == Some(
                spec_registry_lookup(regs_pre, spec_key_of(w0.ents[s]))->Some_0,
            ) && spec_registry_lookup(regs_pre, spec_key_of(w0.ents[s])) is Some,
        post.ents == pre.ents.update(
            i,
            (EntityView { label: Some(label), ..pre.ents[i] }),
        ),
        post.registries == pre.registries,
    ensures
        forall|s: int|
            0 <= s < i + 1 && spec_provision_ready(w0, assets, s) ==> post.ents[s].label == Some(
                spec_registry_lookup(post.registries, spec_key_of(w0.ents[s]))->Some_0,
            ) && spec_registry_lookup(post.registries, spec_key_of(w0.ents[s])) is Some,
{
    assert forall|s: int|
        0 <= s < i + 1 && spec_provision_ready(w0, assets, s) implies post.ents[s].label == Some(
        spec_registry_lookup(post.registries, spec_key_of(w0.ents[s]))->Some_0,
    ) && spec_registry_lookup(post.registries, spec_key_of(w0.ents[s])) is Some by {
        if s == i {
        } else {
            assert(post.ents[s] == pre.ents[s]);
            assert(spec_registry_lookup(regs_pre, spec_key_of(w0.ents[s])) is Some);
            if pre.registries != regs_pre {
                lemma_lookup_push(
                    regs_pre,
                    RegistryEntryView { key: spec_key_of(w0.ents[i]), label },
                    spec_key_of(w0.ents[s]),
                );
            }
            assert(spec_registry_lookup(post.registries, spec_key_of(w0.ents[s]))
                == spec_registry_lookup(regs_pre, spec_key_of(w0.ents[s])));
        }
    }
}

} // verus!
