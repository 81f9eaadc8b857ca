use ecs_jobs::entity::Entity;
use ecs_jobs::storage::Component;
use ecs_jobs::world::World;

#[derive(Copy, Clone, Debug, PartialEq)]
struct Foo {
    a: usize,
}
impl Component for Foo {}

#[derive(Copy, Clone, Debug, PartialEq)]
struct Bar {}
impl Component for Bar {}

fn collect<A: Component, B: Component>(world: &World<A, B>) -> Vec<(A, B)> {
    let mut out = Vec::new();
    let mut it = world.query_group();
    while let Some(item) = it.next(world) {
        out.push(item);
    }
    out
}

#[test]
fn allocate_entities_simple() {
    let mut world: World<Foo, Bar> = World::new();
    let mut entities = vec![Entity::invalid(); 8];
    let mut entities2 = vec![Entity::invalid(); 8];
    let foo_data = (0..8).map(|a| Foo { a }).collect::<Vec<_>>();
    let foo_data2 = vec![Foo { a: 10 }; 8];
    let bar_data = vec![Bar {}; 8];
    world.create_entities(&mut entities, &foo_data, &bar_data);

    println!("{:#?}", entities);
    for (a, b) in collect(&world) {
        println!("{:?}", (a, b));
    }

    world.free_entities(&entities[..4].to_vec());

    world.create_entities(&mut entities2, &foo_data2, &bar_data);

    println!("{:#?}", entities);
    println!("{:#?}", entities2);
    for (a, b) in collect(&world) {
        println!("{:?}", (a, b));
    }
}

#[test]
fn created_entities_resolve_to_inputs() {
    let mut world: World<Foo, Bar> = World::new();
    let mut entities = vec![Entity::invalid(); 3];
    let foos = vec![Foo { a: 10 }, Foo { a: 20 }, Foo { a: 30 }];
    let bars = vec![Bar {}, Bar {}, Bar {}];
    world.create_entities(&mut entities, &foos, &bars);
    for (i, e) in entities.iter().enumerate() {
        assert_eq!(world.get(*e), Some((foos[i], bars[i])));
    }
    let items = collect(&world);
    assert_eq!(items.len(), 3);
    for (i, _) in foos.iter().enumerate() {
        assert!(items.contains(&(foos[i], bars[i])));
    }
}

#[test]
fn removed_entity_is_stale_and_count_drops() {
    let mut world: World<Foo, Bar> = World::new();
    let mut entities = vec![Entity::invalid(); 3];
    let foos = vec![Foo { a: 1 }, Foo { a: 2 }, Foo { a: 3 }];
    let bars = vec![Bar {}, Bar {}, Bar {}];
    world.create_entities(&mut entities, &foos, &bars);

    assert_eq!(world.chunk_len_at(0), 3);
    world.free_entities(&vec![entities[1]]);

    // The freed entity came out of its own chunk's occupancy count.
    assert_eq!(world.chunk_len_at(0), 2);
    assert_eq!(world.get(entities[1]), None);
    let items = collect(&world);
    assert_eq!(items.len(), 2);
    assert!(!items.contains(&(Foo { a: 2 }, Bar {})));
    assert!(items.contains(&(Foo { a: 1 }, Bar {})));
    assert!(items.contains(&(Foo { a: 3 }, Bar {})));
}

#[test]
fn swap_compaction_keeps_moved_entity_intact() {
    let mut world: World<Foo, Bar> = World::new();
    let mut entities = vec![Entity::invalid(); 3];
    let foos = vec![Foo { a: 100 }, Foo { a: 200 }, Foo { a: 300 }];
    let bars = vec![Bar {}, Bar {}, Bar {}];
    world.create_entities(&mut entities, &foos, &bars);

    // Freeing the first slot moves the chunk's last entity into it.
    world.free_entities(&vec![entities[0]]);

    assert_eq!(world.get(entities[0]), None);
    assert_eq!(world.get(entities[1]), Some((Foo { a: 200 }, Bar {})));
    assert_eq!(world.get(entities[2]), Some((Foo { a: 300 }, Bar {})));
}

#[test]
fn reused_slot_gets_new_generation() {
    let mut world: World<Foo, Bar> = World::new();
    let mut entities = vec![Entity::invalid(); 1];
    world.create_entities(&mut entities, &vec![Foo { a: 1 }], &vec![Bar {}]);
    let old_handle = entities[0];
    world.free_entities(&vec![old_handle]);

    let mut entities2 = vec![Entity::invalid(); 1];
    world.create_entities(&mut entities2, &vec![Foo { a: 2 }], &vec![Bar {}]);

    assert_eq!(entities2[0].id, old_handle.id);
    assert_ne!(entities2[0].generation, old_handle.generation);
    assert_eq!(world.get(old_handle), None);
    assert_eq!(world.get(entities2[0]), Some((Foo { a: 2 }, Bar {})));
}

#[test]
fn batches_spanning_chunks() {
    // 300 entities need three 128-slot chunks.
    let n = 300usize;
    let mut world: World<Foo, Bar> = World::new();
    let mut entities = vec![Entity::invalid(); n];
    let foos = (0..n).map(|a| Foo { a }).collect::<Vec<_>>();
    let bars = vec![Bar {}; n];
    world.create_entities(&mut entities, &foos, &bars);
    for (i, e) in entities.iter().enumerate() {
        assert_eq!(world.get(*e), Some((Foo { a: i }, Bar {})));
    }
    assert_eq!(collect(&world).len(), n);
}

#[test]
fn chunk_bookkeeping_tracks_capacity() {
    let n = 300usize;
    let mut world: World<Foo, Bar> = World::new();
    assert_eq!(world.group_storage().num_chunks(), 0);
    assert_eq!(world.group_storage().capacity(), 0);
    let mut entities = vec![Entity::invalid(); n];
    let foos = (0..n).map(|a| Foo { a }).collect::<Vec<_>>();
    let bars = vec![Bar {}; n];
    world.create_entities(&mut entities, &foos, &bars);
    // 300 entities occupy three 128-slot chunks.
    assert_eq!(world.group_storage().num_chunks(), 3);
    assert_eq!(world.group_storage().capacity(), 384);
}

#[test]
fn iteration_skips_emptied_chunk() {
    let n = 256usize;
    let mut world: World<Foo, Bar> = World::new();
    let mut entities = vec![Entity::invalid(); n];
    let foos = (0..n).map(|a| Foo { a }).collect::<Vec<_>>();
    let bars = vec![Bar {}; n];
    world.create_entities(&mut entities, &foos, &bars);

    // Empty the first chunk entirely.
    world.free_entities(&entities[..128].to_vec());

    let items = collect(&world);
    assert_eq!(items.len(), 128);
    for (f, _) in &items {
        assert!(f.a >= 128);
    }

    // The emptied chunk is reused for new entities.
    let mut entities2 = vec![Entity::invalid(); 4];
    world.create_entities(&mut entities2, &vec![Foo { a: 999 }; 4], &vec![Bar {}; 4]);
    for e in &entities2 {
        assert_eq!(world.get(*e), Some((Foo { a: 999 }, Bar {})));
    }
    assert_eq!(collect(&world).len(), 132);
}
