use ecs_jobs::frame::{Access, AccessMap, AccessPattern, FrameBuilder, ResourceId};
use ecs_jobs::resource::ResourceTy;

fn res(world: usize, key: u64) -> ResourceId {
    ResourceId { world, ty: ResourceTy::new(key) }
}

#[test]
fn write_then_read_waits_on_writer() {
    let mut b = FrameBuilder::new();
    let r = res(0, 1);

    // Job A writes R.
    b.access_resource(r, Access::Exclusive);
    let (a_id, a_waits) = b.spawn_job();
    assert_eq!(a_id, 0);
    assert!(a_waits.is_empty());

    // Job B, spawned after A, reads R: it must wait for A.
    b.access_resource(r, Access::Shared);
    let (b_id, b_waits) = b.spawn_job();
    assert_eq!(b_id, 1);
    assert_eq!(b_waits, vec![0]);
}

#[test]
fn read_before_write_is_not_ordered() {
    // When the reader is spawned before the writer, the scheduler invents no
    // ordering for the reader; the writer instead waits on the reader.
    let mut b = FrameBuilder::new();
    let r = res(0, 7);

    b.access_resource(r, Access::Shared);
    let (_reader, reader_waits) = b.spawn_job();
    assert!(reader_waits.is_empty());

    b.access_resource(r, Access::Exclusive);
    let (_writer, writer_waits) = b.spawn_job();
    assert_eq!(writer_waits, vec![0]);
}

#[test]
fn reads_do_not_wait_on_reads() {
    let mut b = FrameBuilder::new();
    let r = res(0, 2);
    b.access_resource(r, Access::Shared);
    let (_, w0) = b.spawn_job();
    b.access_resource(r, Access::Shared);
    let (_, w1) = b.spawn_job();
    assert!(w0.is_empty());
    assert!(w1.is_empty());
}

#[test]
fn write_after_reads_waits_on_all_readers() {
    let mut b = FrameBuilder::new();
    let r = res(0, 3);
    b.access_resource(r, Access::Shared);
    b.spawn_job();
    b.access_resource(r, Access::Shared);
    b.spawn_job();
    b.access_resource(r, Access::Exclusive);
    let (_, waits) = b.spawn_job();
    let mut waits = waits;
    waits.sort();
    assert_eq!(waits, vec![0, 1]);
}

#[test]
fn read_after_write_then_write_waits_on_readers() {
    let mut b = FrameBuilder::new();
    let r = res(0, 4);
    // Writer, then a reader behind it: read-after-write.
    b.access_resource(r, Access::Exclusive);
    b.spawn_job();
    b.access_resource(r, Access::Shared);
    let (_, read_waits) = b.spawn_job();
    assert_eq!(read_waits, vec![0]);
    // Another reader joins behind the same barrier.
    b.access_resource(r, Access::Shared);
    let (_, read2_waits) = b.spawn_job();
    assert_eq!(read2_waits, vec![0]);
    // The next writer must not race the still-pending readers.
    b.access_resource(r, Access::Exclusive);
    let (_, mut write_waits) = b.spawn_job();
    write_waits.sort();
    assert_eq!(write_waits, vec![1, 2]);
}

#[test]
fn disjoint_resources_are_unordered() {
    let mut b = FrameBuilder::new();
    b.access_resource(res(0, 1), Access::Exclusive);
    b.spawn_job();
    b.access_resource(res(0, 2), Access::Exclusive);
    let (_, waits) = b.spawn_job();
    assert!(waits.is_empty());
}

#[test]
fn duplicate_access_in_one_job_is_fatal() {
    // Declaring both a read and a write of one resource within one
    // still-unspawned job is a fatal configuration error: the declaration's
    // precondition excludes it, and `declared` is how an embedding detects
    // the misconfiguration and aborts before calling.
    let mut b = FrameBuilder::new();
    let r = res(0, 5);
    assert!(!b.declared(r));
    b.access_resource(r, Access::Shared);
    assert!(b.declared(r));
    // A different resource is still undeclared and accepted.
    assert!(!b.declared(res(0, 6)));
    b.access_resource(res(0, 6), Access::Exclusive);
    assert!(b.declared(res(0, 6)));
    // Spawning clears the pending declarations.
    b.spawn_job();
    assert!(!b.declared(r));
}

#[test]
fn duplicate_access_map_entry_is_detected() {
    let mut m = AccessMap::new();
    let r = res(1, 1);
    assert!(!m.contains_resource(r));
    m.add(r, Access::Shared);
    assert!(m.contains_resource(r));
    assert!(!m.contains_resource(res(1, 2)));
}

#[test]
fn collect_jobs_follows_hazard_table() {
    let read = AccessPattern::Read(vec![3, 4]);
    assert_eq!(read.collect_jobs(Access::Shared), Vec::<usize>::new());
    assert_eq!(read.collect_jobs(Access::Exclusive), vec![3, 4]);

    let write = AccessPattern::Write(7);
    assert_eq!(write.collect_jobs(Access::Shared), vec![7]);
    assert_eq!(write.collect_jobs(Access::Exclusive), vec![7]);

    let raw = AccessPattern::RaW { write: 1, reads: vec![2, 3] };
    assert_eq!(raw.collect_jobs(Access::Shared), vec![1]);
    assert_eq!(raw.collect_jobs(Access::Exclusive), vec![2, 3]);
}
