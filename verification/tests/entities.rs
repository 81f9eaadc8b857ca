use ecs_jobs::entities::{ComponentGroups, Entities};
use ecs_jobs::entity::{Entity, EntityList};
use ecs_jobs::storage::Component;

#[derive(Copy, Clone, Debug, PartialEq)]
struct Pos {
    x: u32,
}
impl Component for Pos {}

#[test]
fn registry_is_idempotent() {
    let mut groups = ComponentGroups::new();
    let c0 = groups.define_component(100);
    let c1 = groups.define_component(200);
    assert_eq!(c0, 0);
    assert_eq!(c1, 1);
    assert_eq!(groups.define_component(100), c0);
    assert_eq!(groups.define_component(200), c1);

    let g0 = groups.define_group(10);
    let g1 = groups.define_group(20);
    assert_eq!(g0, 0);
    assert_eq!(g1, 1);
    assert_eq!(groups.define_group(10), g0);
    assert_eq!(groups.define_group(20), g1);
}

#[test]
fn group_slots_are_bumped_in_order() {
    let mut groups = ComponentGroups::new();
    let g = groups.define_group(1);
    let first = groups.alloc_slots(g, 5);
    let second = groups.alloc_slots(g, 3);
    assert_eq!(first, 0..5);
    assert_eq!(second, 5..8);
}

#[test]
fn entity_list_hands_out_sequential_ids() {
    let mut list = EntityList::new();
    let a = list.create_entity(0, 0);
    let b = list.create_entity(0, 0);
    let c = list.create_entity(1, 2);
    assert_eq!((a.id, a.generation), (0, 0));
    assert_eq!((b.id, b.generation), (1, 0));
    assert_eq!((c.id, c.generation), (2, 0));
}

#[test]
fn store_returns_created_values() {
    let mut store: Entities<Pos> = Entities::new();
    let mut entities = vec![Entity::invalid(); 3];
    let stream = vec![Pos { x: 7 }, Pos { x: 8 }, Pos { x: 9 }];
    let gid = store.create_entities(42, &mut entities, &stream);
    assert_eq!(gid, 0);

    for (i, e) in entities.iter().enumerate() {
        assert_eq!(e.id as usize, i);
        assert_eq!(e.generation, 0);
        assert_eq!(store.query(e.id), Some(stream[i]));
    }
    assert_eq!(store.query(3), None);
}

#[test]
fn store_batches_accumulate() {
    let mut store: Entities<Pos> = Entities::new();
    let mut first = vec![Entity::invalid(); 2];
    let g1 = store.create_entities(1, &mut first, &vec![Pos { x: 1 }, Pos { x: 2 }]);
    let mut second = vec![Entity::invalid(); 2];
    let g2 = store.create_entities(1, &mut second, &vec![Pos { x: 3 }, Pos { x: 4 }]);
    assert_eq!(g1, g2);

    assert_eq!(store.query(0), Some(Pos { x: 1 }));
    assert_eq!(store.query(1), Some(Pos { x: 2 }));
    assert_eq!(store.query(2), Some(Pos { x: 3 }));
    assert_eq!(store.query(3), Some(Pos { x: 4 }));
    assert_eq!(second[0].id, 2);

    let chunks = store.define_group(1);
    assert_eq!(chunks, 0);
}

#[test]
fn store_spans_chunks() {
    let n = 200u32;
    let mut store: Entities<Pos> = Entities::new();
    let mut entities = vec![Entity::invalid(); n as usize];
    let stream = (0..n).map(|x| Pos { x }).collect::<Vec<_>>();
    let _ = store.create_entities(5, &mut entities, &stream);
    for i in 0..n {
        assert_eq!(store.query(i), Some(Pos { x: i }));
    }
    assert_eq!(store.query(n), None);
}
