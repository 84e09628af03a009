use voxel_world::block::BlockType;
use voxel_world::chunk::Chunk;
use voxel_world::streaming::{
    viewer_chunk, ChunkLoadQueue, ChunkState, ChunkToUpdateEvent, LoadOutcome, StreamingScheduler,
    ToGenerateChunkEvent, ToLoadChunkEvent, ToUnloadChunkEvent,
};
use voxel_world::world::WorldData;

fn load(x: i32, z: i32) -> ToLoadChunkEvent {
    ToLoadChunkEvent { x, z }
}

fn run_all_tasks(scheduler: &mut StreamingScheduler, world: &mut WorldData, cap: usize) -> usize {
    let mut finished = 0;
    loop {
        let started = scheduler.start_tasks();
        assert!(scheduler.load_queue().in_flight_len() <= cap);
        if started.is_empty() {
            break;
        }
        for event in started {
            let outcome = scheduler.complete_load(event.x, event.z, Chunk::blank(event.x, event.z), world);
            assert_eq!(outcome, LoadOutcome::Applied(ChunkToUpdateEvent { x: event.x, z: event.z }));
            finished += 1;
        }
    }
    finished
}

#[test]
fn viewer_chunk_rounds_down() {
    assert_eq!(viewer_chunk(0, 0), (0, 0));
    assert_eq!(viewer_chunk(15, 16), (0, 1));
    assert_eq!(viewer_chunk(-1, -16), (-1, -1));
    assert_eq!(viewer_chunk(-17, 1500), (-2, 93));
    assert_eq!(viewer_chunk(i32::MIN, i32::MAX), (-134217728, 134217727));
}

#[test]
fn queue_is_first_in_first_out() {
    let mut queue = ChunkLoadQueue::new(2);
    assert!(queue.enqueue(load(1, 1)));
    assert!(queue.enqueue(load(2, 2)));
    assert!(queue.enqueue(load(3, 3)));
    assert_eq!(queue.pending_len(), 3);
    assert_eq!(queue.pending_at(0), Some(load(1, 1)));
    assert_eq!(queue.pending_at(2), Some(load(3, 3)));
    assert_eq!(queue.pending_at(3), None);
    assert_eq!(queue.start_next(), Some(load(1, 1)));
    assert_eq!(queue.start_next(), Some(load(2, 2)));
    assert_eq!(queue.start_next(), None);
    assert_eq!(queue.pending_len(), 1);
    assert_eq!(queue.in_flight_len(), 2);
    assert!(queue.finish(1, 1));
    assert_eq!(queue.start_next(), Some(load(3, 3)));
    assert_eq!(queue.start_next(), None);
    assert_eq!(queue.pending_len(), 0);
}

#[test]
fn queue_takes_each_position_once() {
    let mut queue = ChunkLoadQueue::new(1);
    assert!(queue.enqueue(load(4, 5)));
    assert!(!queue.enqueue(load(4, 5)));
    assert!(queue.enqueue(load(5, 4)));
    assert_eq!(queue.pending_len(), 2);
    assert!(queue.is_pending(4, 5));
    assert!(!queue.is_in_flight(4, 5));
    assert_eq!(queue.start_tasks(), vec![load(4, 5)]);
    assert!(!queue.is_pending(4, 5));
    assert!(queue.is_in_flight(4, 5));
    assert_eq!(queue.find_in_flight(4, 5), Some(0));
    assert!(!queue.enqueue(load(4, 5)));
    assert_eq!(queue.pending_len(), 1);
    assert!(queue.finish(4, 5));
    assert!(!queue.finish(4, 5));
    assert!(queue.enqueue(load(4, 5)));
    assert_eq!(queue.pending_at(1), Some(load(4, 5)));
}

#[test]
fn tasks_never_exceed_the_limit() {
    for cap in 0..7usize {
        let mut queue = ChunkLoadQueue::new(cap);
        for i in 0..20 {
            queue.enqueue(load(i, -i));
        }
        let started = queue.start_tasks();
        assert_eq!(started.len(), cap);
        assert_eq!(queue.in_flight_len(), cap);
        assert_eq!(queue.pending_len(), 20 - cap);
        for (i, event) in started.iter().enumerate() {
            assert_eq!(*event, load(i as i32, -(i as i32)));
        }
        assert!(queue.start_tasks().is_empty());
        assert_eq!(queue.start_next(), None);
        assert_eq!(queue.in_flight_len(), cap);
        if cap > 0 {
            assert!(queue.finish(0, 0));
            assert_eq!(queue.start_tasks(), vec![load(cap as i32, -(cap as i32))]);
            assert_eq!(queue.in_flight_len(), cap);
        }
    }
}

#[test]
fn first_tick_requests_the_square_around_the_viewer() {
    let mut scheduler = StreamingScheduler::new(2, 5);
    let mut world = WorldData::new();
    assert_eq!(scheduler.current_chunk(), None);
    let update = scheduler.loading_and_unloading_chunks((0, 0), &mut world);
    assert!(update.moved);
    assert!(update.removed.is_empty());
    assert_eq!(update.requested.len(), 25);
    let mut i = 0;
    for x in -2..=2 {
        for z in -2..=2 {
            assert_eq!(update.requested[i], load(x, z));
            assert_eq!(scheduler.load_queue().pending_at(i), Some(load(x, z)));
            assert_eq!(scheduler.state_of(&world, x, z), ChunkState::Queued);
            i += 1;
        }
    }
    assert_eq!(scheduler.state_of(&world, 3, 0), ChunkState::Unloaded);
    assert_eq!(scheduler.current_chunk(), Some((0, 0)));
    assert_eq!(run_all_tasks(&mut scheduler, &mut world, 5), 25);
    assert_eq!(world.chunk_count(), 25);
    for x in -4..=4i32 {
        for z in -4..=4i32 {
            assert_eq!(world.contains(x, z), x.abs() <= 2 && z.abs() <= 2);
        }
    }
    assert_eq!(scheduler.state_of(&world, 2, -2), ChunkState::Resident);
}

#[test]
fn moving_evicts_behind_and_requests_ahead() {
    let mut scheduler = StreamingScheduler::new(2, 5);
    let mut world = WorldData::new();
    scheduler.loading_and_unloading_chunks((0, 0), &mut world);
    run_all_tasks(&mut scheduler, &mut world, 5);
    world.add_section_mesh(-2, 1, 7, 4242);
    world.add_section_mesh(-1, 1, 7, 4343);
    let update = scheduler.loading_and_unloading_chunks((1, 0), &mut world);
    assert!(update.moved);
    assert_eq!(
        update.requested,
        vec![load(3, -2), load(3, -1), load(3, 0), load(3, 1), load(3, 2)]
    );
    assert_eq!(world.chunk_count(), 20);
    for x in -4..=4i32 {
        for z in -4..=4i32 {
            assert_eq!(world.contains(x, z), (-1..=2).contains(&x) && z.abs() <= 2);
        }
    }
    let mut gone: Vec<(i32, i32)> = update.unloaded.iter().map(|e| (e.x, e.z)).collect();
    gone.sort();
    assert_eq!(gone, vec![(-2, -2), (-2, -1), (-2, 0), (-2, 1), (-2, 2)]);
    assert_eq!(update.removed.len(), 1);
    assert_eq!((update.removed[0].x, update.removed[0].z, update.removed[0].section), (-2, 1, 7));
    assert_eq!(update.removed[0].handles, vec![4242]);
    assert_eq!(world.handle_count(-1, 1, 7), 1);
    assert_eq!(scheduler.state_of(&world, -2, 0), ChunkState::Unloaded);
    assert_eq!(scheduler.state_of(&world, 3, 0), ChunkState::Queued);
    assert_eq!(run_all_tasks(&mut scheduler, &mut world, 5), 5);
    assert_eq!(world.chunk_count(), 25);
}

#[test]
fn nothing_happens_while_the_viewer_stays() {
    let mut scheduler = StreamingScheduler::new(1, 5);
    let mut world = WorldData::new();
    world.insert_chunk(Chunk::blank(50, 50));
    let first = scheduler.loading_and_unloading_chunks((0, 0), &mut world);
    assert!(first.moved);
    assert_eq!(first.requested.len(), 9);
    assert_eq!(first.unloaded, vec![ToUnloadChunkEvent { x: 50, z: 50 }]);
    assert!(!world.contains(50, 50));
    world.insert_chunk(Chunk::blank(60, 60));
    let second = scheduler.loading_and_unloading_chunks((0, 0), &mut world);
    assert!(!second.moved);
    assert!(second.requested.is_empty());
    assert!(second.unloaded.is_empty());
    assert!(second.removed.is_empty());
    assert!(world.contains(60, 60));
    assert_eq!(scheduler.load_queue().pending_len(), 9);
}

#[test]
fn resident_and_busy_positions_are_not_requested_again() {
    let mut scheduler = StreamingScheduler::new(1, 2);
    let mut world = WorldData::new();
    world.insert_chunk(Chunk::blank(0, 0));
    world.insert_chunk(Chunk::blank(1, 1));
    let first = scheduler.loading_and_unloading_chunks((0, 0), &mut world);
    assert_eq!(
        first.requested,
        vec![load(-1, -1), load(-1, 0), load(-1, 1), load(0, -1), load(0, 1), load(1, -1), load(1, 0)]
    );
    assert_eq!(scheduler.start_tasks(), vec![load(-1, -1), load(-1, 0)]);
    assert_eq!(scheduler.state_of(&world, -1, 0), ChunkState::InFlight);
    let second = scheduler.loading_and_unloading_chunks((0, 1), &mut world);
    assert_eq!(second.requested, vec![load(-1, 2), load(0, 2), load(1, 2)]);
    assert_eq!(scheduler.load_queue().pending_len(), 8);
    assert_eq!(scheduler.load_queue().in_flight_len(), 2);
}

#[test]
fn requests_stay_inside_the_world() {
    let mut scheduler = StreamingScheduler::new(1, 5);
    let mut world = WorldData::new();
    let update = scheduler.loading_and_unloading_chunks((499, -500), &mut world);
    assert_eq!(
        update.requested,
        vec![load(498, -500), load(498, -499), load(499, -500), load(499, -499)]
    );
    let far = scheduler.loading_and_unloading_chunks((i32::MAX, i32::MIN), &mut world);
    assert!(far.moved);
    assert!(far.requested.is_empty());
}

#[test]
fn negative_view_distance_requests_nothing_and_keeps_nothing() {
    let mut scheduler = StreamingScheduler::new(-1, 5);
    let mut world = WorldData::new();
    world.insert_chunk(Chunk::blank(0, 0));
    let update = scheduler.loading_and_unloading_chunks((0, 0), &mut world);
    assert!(update.requested.is_empty());
    assert_eq!(world.chunk_count(), 0);
}

#[test]
fn view_distance_of_nothing_keeps_the_viewers_chunk() {
    let mut scheduler = StreamingScheduler::new(0, 5);
    let mut world = WorldData::new();
    let update = scheduler.loading_and_unloading_chunks((7, 7), &mut world);
    assert_eq!(update.requested, vec![load(7, 7)]);
}

#[test]
fn empty_or_misplaced_results_are_not_applied() {
    let mut scheduler = StreamingScheduler::new(0, 5);
    let mut world = WorldData::new();
    scheduler.loading_and_unloading_chunks((0, 0), &mut world);
    assert_eq!(scheduler.start_tasks(), vec![load(0, 0)]);
    assert_eq!(
        scheduler.complete_load(0, 0, Chunk::new(0, 0), &mut world),
        LoadOutcome::Generate(ToGenerateChunkEvent { x: 0, z: 0 })
    );
    assert!(!world.contains(0, 0));
    assert_eq!(scheduler.load_queue().in_flight_len(), 0);
    assert_eq!(scheduler.state_of(&world, 0, 0), ChunkState::Unloaded);
    assert_eq!(
        scheduler.complete_load(0, 0, Chunk::blank(1, 0), &mut world),
        LoadOutcome::Generate(ToGenerateChunkEvent { x: 0, z: 0 })
    );
    assert_eq!(world.chunk_count(), 0);
    let mut chunk = Chunk::blank(0, 0);
    chunk.set_block_at(1, 2, 3, BlockType::Sand);
    assert_eq!(
        scheduler.complete_load(0, 0, chunk, &mut world),
        LoadOutcome::Applied(ChunkToUpdateEvent { x: 0, z: 0 })
    );
    assert_eq!(world.get_block_at(1, 2, 3), BlockType::Sand);
}

#[test]
fn failed_tasks_are_dropped_and_can_be_requested_again() {
    let mut scheduler = StreamingScheduler::new(0, 1);
    let mut world = WorldData::new();
    scheduler.loading_and_unloading_chunks((3, 3), &mut world);
    assert_eq!(scheduler.start_tasks(), vec![load(3, 3)]);
    assert!(scheduler.fail_load(3, 3));
    assert!(!scheduler.fail_load(3, 3));
    assert_eq!(scheduler.load_queue().in_flight_len(), 0);
    assert!(!world.contains(3, 3));
    scheduler.loading_and_unloading_chunks((4, 4), &mut world);
    let back = scheduler.loading_and_unloading_chunks((3, 3), &mut world);
    assert_eq!(back.requested, vec![load(3, 3)]);
}

#[test]
fn late_results_are_applied_and_evicted_on_the_next_move() {
    let mut scheduler = StreamingScheduler::new(0, 1);
    let mut world = WorldData::new();
    scheduler.loading_and_unloading_chunks((0, 0), &mut world);
    scheduler.start_tasks();
    scheduler.loading_and_unloading_chunks((9, 9), &mut world);
    assert!(matches!(
        scheduler.complete_load(0, 0, Chunk::blank(0, 0), &mut world),
        LoadOutcome::Applied(_)
    ));
    assert!(world.contains(0, 0));
    scheduler.loading_and_unloading_chunks((9, 8), &mut world);
    assert!(!world.contains(0, 0));
}
