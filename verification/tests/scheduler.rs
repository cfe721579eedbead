use seedling::dynamic::update_auto_pools;
use seedling::node::{acquire_id, param_follower, process_removals};
use seedling::params::{NodeEventType, ParamSet};
use seedling::pool::{
    assign_work, rank_nodes, remove_finished, spawn_pool, Assets, OnComplete, PlaybackSettings,
    PoolCommands, PoolLabel, PoolRange, SamplePlayer, SamplePoolTypes, SamplerState,
    SamplerStates,
};
use seedling::world::AudioWorld;

const LOW_PASS: u64 = 7;

fn lowpass_defaults() -> SamplePoolTypes {
    let mut d = SamplePoolTypes::new();
    d.push(LOW_PASS, vec![500]);
    d
}

fn main_bus(world: &mut AudioWorld) {
    let volume = ParamSet::new(1, vec![1]);
    world.spawn_plain(vec![volume], false);
}

/// Runtime states for every worker chain, all idle or all still playing.
fn worker_states(world: &AudioWorld, playing: bool) -> SamplerStates {
    let mut states = SamplerStates::new();
    for i in 0..world.ents.len() {
        if world.ents[i].chain.is_some() {
            if let Some(h) = world.ents[i].node {
                states.push(SamplerState { node: h.0, score: 100, playing });
            }
        }
    }
    states
}

fn pool_bus_of(world: &AudioWorld) -> usize {
    for i in 0..world.ents.len() {
        if world.ents[i].alive && world.ents[i].rank.is_some() {
            return i;
        }
    }
    panic!("no pool bus");
}

fn worker_count(world: &AudioWorld, bus: usize) -> usize {
    match &world.ents[bus].workers {
        Some(w) => w.0.len(),
        None => 0,
    }
}

fn assert_stripped(world: &AudioWorld, s: usize) {
    assert!(world.ents[s].alive);
    assert!(world.ents[s].player.is_none());
    assert!(world.ents[s].settings.is_none());
    assert!(world.ents[s].label.is_none());
    assert!(world.ents[s].registry.is_none());
    assert!(world.ents[s].sample_defaults.is_none());
    assert!(world.ents[s].params.is_empty());
    assert!(!world.ents[s].queued);
    assert!(world.ents[s].follower.is_none());
}

#[test]
fn test_despawn_static() {
    let mut world = AudioWorld::new();
    main_bus(&mut world);
    spawn_pool(&mut world, PoolLabel::Label(1), PoolRange { min: 4, max: 4 }, lowpass_defaults());
    acquire_id(&mut world);
    // 2 * 4 (sampler and low pass nodes) + 1 (pool volume) + 1 (global volume)
    assert_eq!(world.graph.node_count(), 10);
    world.despawn_pool(PoolLabel::Label(1));
    process_removals(&mut world);
    // 1 (global volume)
    assert_eq!(world.graph.node_count(), 1);
}

#[test]
fn test_despawn_dynamic() {
    let mut world = AudioWorld::new();
    main_bus(&mut world);
    world.dynamic_range = seedling::dynamic::DynamicPoolRange(Some(PoolRange { min: 4, max: 16 }));
    let caw_ogg: u64 = 11;
    let s = world.spawn_sample(
        SamplePlayer(caw_ogg),
        PlaybackSettings { volume: 1, repeat: 0, on_complete: OnComplete::Preserve },
    );
    world.effect(s, LOW_PASS, vec![500]);
    let mut assets = Assets::new();
    assets.insert(caw_ogg);
    update_auto_pools(&mut world, &assets);
    acquire_id(&mut world);
    // 2 * 4 (sampler and low pass nodes) + 1 (pool volume) + 1 (global volume)
    assert_eq!(world.graph.node_count(), 10);
    let bus = pool_bus_of(&world);
    world.despawn(bus);
    process_removals(&mut world);
    // 1 (global volume)
    assert_eq!(world.graph.node_count(), 1);
}

#[test]
fn test_remove_in_pool() {
    let mut world = AudioWorld::new();
    main_bus(&mut world);
    spawn_pool(&mut world, PoolLabel::Label(2), PoolRange { min: 4, max: 4 }, lowpass_defaults());
    acquire_id(&mut world);
    let sine_440hz_1ms_wav: u64 = 21;
    let s = world.spawn_sample(
        SamplePlayer(sine_440hz_1ms_wav),
        PlaybackSettings { volume: 1, repeat: 0, on_complete: OnComplete::Remove },
    );
    world.ents[s].label = Some(PoolLabel::Label(2));
    let mut assets = Assets::new();
    assets.insert(sine_440hz_1ms_wav);
    let idle = worker_states(&world, true);
    rank_nodes(&mut world, &idle);
    assign_work(&mut world, &assets);
    assert!(!world.ents[s].queued, "request must be assigned");
    // playback ends: the completion policy strips every audio component
    let finished = worker_states(&world, false);
    remove_finished(&mut world, &finished);
    assert_stripped(&world, s);
}

#[test]
fn test_remove_in_dynamic() {
    let mut world = AudioWorld::new();
    main_bus(&mut world);
    world.dynamic_range = seedling::dynamic::DynamicPoolRange(Some(PoolRange { min: 4, max: 16 }));
    let sine_440hz_1ms_wav: u64 = 21;
    let s = world.spawn_sample(
        SamplePlayer(sine_440hz_1ms_wav),
        PlaybackSettings { volume: 1, repeat: 0, on_complete: OnComplete::Remove },
    );
    world.effect(s, LOW_PASS, vec![500]);
    let mut assets = Assets::new();
    assets.insert(sine_440hz_1ms_wav);
    update_auto_pools(&mut world, &assets);
    acquire_id(&mut world);
    let idle = worker_states(&world, true);
    rank_nodes(&mut world, &idle);
    assign_work(&mut world, &assets);
    assert!(!world.ents[s].queued, "request must be assigned");
    let finished = worker_states(&world, false);
    remove_finished(&mut world, &finished);
    assert_stripped(&world, s);
}

#[test]
fn test_pool_growth() {
    let mut world = AudioWorld::new();
    main_bus(&mut world);
    spawn_pool(&mut world, PoolLabel::Label(3), PoolRange { min: 1, max: 8 }, lowpass_defaults());
    acquire_id(&mut world);
    let bus = pool_bus_of(&world);
    assert_eq!(worker_count(&world, bus), 1);
    let mut assets = Assets::new();
    let mut samples = Vec::new();
    for a in 0..3u64 {
        let s = world.spawn_sample(
            SamplePlayer(a),
            PlaybackSettings { volume: 1, repeat: 0, on_complete: OnComplete::Preserve },
        );
        world.ents[s].label = Some(PoolLabel::Label(3));
        assets.insert(a);
        samples.push(s);
    }
    // every worker is busy: no runtime state resolves, so the rank is empty
    let busy = SamplerStates::new();
    rank_nodes(&mut world, &busy);
    assign_work(&mut world, &assets);
    let grown = worker_count(&world, bus);
    assert!(grown >= 2, "the pool must grow");
    assert!(grown <= 8, "growth never exceeds the configured maximum");
    for s in samples {
        assert!(world.ents[s].queued, "starved requests stay queued");
    }
}

#[test]
fn test_same_set_same_pool() {
    let mut world = AudioWorld::new();
    world.dynamic_range = seedling::dynamic::DynamicPoolRange(Some(PoolRange { min: 1, max: 4 }));
    let mut assets = Assets::new();
    assets.insert(0);
    let settings = PlaybackSettings { volume: 1, repeat: 0, on_complete: OnComplete::Preserve };
    let s1 = world.spawn_sample(SamplePlayer(0), settings);
    world.effect(s1, 5, vec![1]);
    world.effect(s1, 6, vec![2]);
    let s2 = world.spawn_sample(SamplePlayer(0), settings);
    world.effect(s2, 6, vec![2]);
    world.effect(s2, 5, vec![1]);
    let s3 = world.spawn_sample(SamplePlayer(0), settings);
    world.effect(s3, 5, vec![1]);
    update_auto_pools(&mut world, &assets);
    // the same unordered effect set resolves to the same pool
    assert_eq!(world.ents[s1].label, world.ents[s2].label);
    assert!(world.ents[s1].label.is_some());
    // a different set resolves to a different pool
    assert_ne!(world.ents[s1].label, world.ents[s3].label);
    assert!(world.ents[s3].label.is_some());
}

#[test]
fn test_asset_gating() {
    let mut world = AudioWorld::new();
    spawn_pool(&mut world, PoolLabel::Label(4), PoolRange { min: 2, max: 2 }, lowpass_defaults());
    acquire_id(&mut world);
    let s = world.spawn_sample(
        SamplePlayer(9),
        PlaybackSettings { volume: 1, repeat: 0, on_complete: OnComplete::Preserve },
    );
    world.ents[s].label = Some(PoolLabel::Label(4));
    let idle = worker_states(&world, true);
    rank_nodes(&mut world, &idle);
    let empty_assets = Assets::new();
    assign_work(&mut world, &empty_assets);
    // an undecoded asset leaves the request untouched, retried next frame
    assert!(world.ents[s].queued);
    let bus = pool_bus_of(&world);
    assert_eq!(worker_count(&world, bus), 2);
}

#[test]
fn test_diff_patch_roundtrip() {
    let mut set = ParamSet::new(0, vec![1, 2, 3]);
    set.set_field(1, 9);
    let events = set.sync();
    assert_eq!(events.len(), 1);
    assert_eq!(events[0], NodeEventType::Param { kind: 0, field: 1, value: 9 });
    // the baseline caught up: an immediate re-diff emits nothing
    let again = set.sync();
    assert!(again.is_empty());
}

#[test]
fn test_follower_one_hop() {
    let mut world = AudioWorld::new();
    let source = world.spawn_plain(vec![ParamSet::new(0, vec![5])], true);
    let hop1 = world.spawn_plain(vec![ParamSet::new(0, vec![0])], true);
    let hop2 = world.spawn_plain(vec![ParamSet::new(0, vec![0])], true);
    world.ents[hop1].follower = Some(seedling::node::ParamFollower(source));
    world.ents[hop2].follower = Some(seedling::node::ParamFollower(hop1));
    param_follower(&mut world);
    // one hop is relayed
    assert_eq!(world.ents[hop1].params[0].value, vec![5]);
    // a follower is never a source: the second hop is untouched
    assert_eq!(world.ents[hop2].params[0].value, vec![0]);
}

#[test]
fn test_allpass_cursor() {
    let ap = seedling::all_pass::AllPass::new(2);
    assert_eq!(ap.delay_line.length, 2);
    assert_eq!(ap.delay_line.index, 0);
    let mut dl = ap.delay_line;
    dl.advance();
    assert_eq!(dl.index, 1);
    dl.advance();
    assert_eq!(dl.index, 0);
}

#[test]
fn test_assets() {
    let mut a = Assets::new();
    assert!(!a.get(3));
    a.insert(3);
    assert!(a.get(3));
}
