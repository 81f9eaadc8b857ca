//! Frame-scoped job dependency tracking.
//!
//! Each job submitted within a frame declares the resources it will touch,
//! shared or exclusive. The builder keeps one access-history record per
//! resource and derives, for every new job, the set of earlier jobs it must
//! wait for: a single-writer/multiple-reader hazard tracker per resource.

use vstd::prelude::*;

use crate::resource::ResourceTy;

verus! {

/// Identifier of a job within one frame, in submission order.
pub type JobId = usize;

/// Identifier of a world registered with a frame.
pub type WorldId = usize;

/// A resource addressed by its owning world and its type identity.
#[derive(Clone, Copy, PartialEq, Eq, Structural, Debug)]
pub struct ResourceId {
    pub world: WorldId,
    pub ty: ResourceTy,
}

/// The mode of one declared resource access.
#[derive(Clone, Copy, PartialEq, Eq, Structural, Debug)]
pub enum Access {
    Shared,
    Exclusive,
}

/// Per-resource access history within one frame.
#[derive(Debug)]
pub enum AccessPattern {
    /// Only reads so far, by these jobs.
    Read(Vec<JobId>),
    /// The most recent access is a write by this job.
    Write(JobId),
    /// A write followed by reads that are still the frontier.
    RaW { write: JobId, reads: Vec<JobId> },
}

/// Specification-level shape of an access history record.
pub enum PatternView {
    Read(Seq<JobId>),
    Write(JobId),
    RaW { write: JobId, reads: Seq<JobId> },
}

impl View for AccessPattern {
    type V = PatternView;

    open spec fn view(&self) -> PatternView {
        match self {
            AccessPattern::Read(jobs) => PatternView::Read(jobs@),
            AccessPattern::Write(job) => PatternView::Write(*job),
            AccessPattern::RaW { write, reads } => PatternView::RaW {
                write: *write,
                reads: reads@,
            },
        }
    }
}

/// The jobs a new access must wait for against an existing history record:
/// a write waits for every pending reader, or for the latest writer; a read
/// never waits for reads, only for the latest writer.
pub open spec fn collect_of(p: PatternView, access: Access) -> Seq<JobId> {
    match (p, access) {
        (PatternView::Read(jobs), Access::Exclusive) => jobs,
        (PatternView::Read(_), Access::Shared) => Seq::empty(),
        (PatternView::Write(job), _) => seq![job],
        (PatternView::RaW { write, .. }, Access::Shared) => seq![write],
        (PatternView::RaW { reads, .. }, Access::Exclusive) => reads,
    }
}

/// The history record after a job's access: a write becomes the sole
/// frontier; a read joins the read set, stepping a write to read-after-write.
pub open spec fn update_of(p: PatternView, access: Access, job: JobId) -> PatternView {
    match access {
        Access::Exclusive => PatternView::Write(job),
        Access::Shared => match p {
            PatternView::Read(jobs) => PatternView::Read(jobs.push(job)),
            PatternView::Write(w) => PatternView::RaW { write: w, reads: seq![job] },
            PatternView::RaW { write, reads } => PatternView::RaW {
                write,
                reads: reads.push(job),
            },
        },
    }
}

/// The first history record for a resource no job has touched yet.
pub open spec fn initial_of(access: Access, job: JobId) -> PatternView {
    match access {
        Access::Shared => PatternView::Read(seq![job]),
        Access::Exclusive => PatternView::Write(job),
    }
}

/// What a job waits for on a resource with history `p`, which is absent for
/// a resource not accessed yet.
pub open spec fn waits_of(p: Option<PatternView>, access: Access) -> Seq<JobId> {
    match p {
        None => Seq::empty(),
        Some(p) => collect_of(p, access),
    }
}

/// The history record after a job's access, for a possibly absent record.
pub open spec fn next_of(p: Option<PatternView>, access: Access, job: JobId) -> PatternView {
    match p {
        None => initial_of(access, job),
        Some(p) => update_of(p, access, job),
    }
}

/// Every job a history record mentions lies below `n`.
pub open spec fn pattern_bounded(p: PatternView, n: int) -> bool {
    match p {
        PatternView::Read(jobs) => forall|i: int| 0 <= i < jobs.len() ==> (#[trigger] jobs[i]) < n,
        PatternView::Write(job) => (job as int) < n,
        PatternView::RaW { write, reads } => (write as int) < n && forall|i: int|
            0 <= i < reads.len() ==> (#[trigger] reads[i]) < n,
    }
}

impl AccessPattern {
    /// The jobs a new access with the given mode must wait for.
    pub fn collect_jobs(&self, access: Access) -> (r: Vec<JobId>)
        ensures
            r@ == collect_of(self@, access),
    {
        match (self, access) {
            (AccessPattern::Read(jobs), Access::Exclusive) => copy_jobs(jobs),
            (AccessPattern::Read(_), Access::Shared) => Vec::new(),
            (AccessPattern::Write(job), _) => {
                let mut v: Vec<JobId> = Vec::new();
                v.push(*job);
                proof {
                    assert(v@ =~= seq![*job]);
                }
                v
            },
            (AccessPattern::RaW { write, .. }, Access::Shared) => {
                let mut v: Vec<JobId> = Vec::new();
                v.push(*write);
                proof {
                    assert(v@ =~= seq![*write]);
                }
                v
            },
            (AccessPattern::RaW { reads, .. }, Access::Exclusive) => copy_jobs(reads),
        }
    }
}

/// Copy a job list.
fn copy_jobs(v: &Vec<JobId>) -> (r: Vec<JobId>)
    ensures
        r@ == v@,
{
    let mut r: Vec<JobId> = Vec::new();
    let n = v.len();
    let mut i: usize = 0;
    while i < n
        invariant
            i <= n,
            n == v@.len(),
            r@ == v@.subrange(0, i as int),
        decreases n - i,
    {
        r.push(v[i]);
        proof {
            assert(r@ =~= v@.subrange(0, i + 1));
        }
        i += 1;
    }
    proof {
        assert(v@.subrange(0, n as int) =~= v@);
    }
    r
}

/// Whether an association list holds key `r`.
pub open spec fn key_in(h: Seq<(ResourceId, PatternView)>, r: ResourceId) -> bool {
    exists|k: int| 0 <= k < h.len() && (#[trigger] h[k]).0 == r
}

/// The value an association list holds for key `r`.
pub open spec fn val_at(h: Seq<(ResourceId, PatternView)>, r: ResourceId) -> PatternView {
    h[choose|k: int| 0 <= k < h.len() && (#[trigger] h[k]).0 == r].1
}

/// Keys of an association list are pairwise distinct.
pub open spec fn keys_unique(h: Seq<(ResourceId, PatternView)>) -> bool {
    forall|k1: int, k2: int| 0 <= k1 < k2 < h.len() ==> (#[trigger] h[k1]).0 != (#[trigger] h[k2]).0
}

/// With unique keys, every entry holding key `r` holds `val_at`'s value.
proof fn lemma_val_at(h: Seq<(ResourceId, PatternView)>, r: ResourceId, k: int)
    requires
        keys_unique(h),
        0 <= k < h.len(),
        h[k].0 == r,
    ensures
        key_in(h, r),
        val_at(h, r) == h[k].1,
{
    let k2 = choose|k2: int| 0 <= k2 < h.len() && (#[trigger] h[k2]).0 == r;
    if k2 != k {
        assert(false);
    }
}

/// Replacing the entry for `res` by swapping it out and pushing the new one
/// keeps keys unique, rebinds `res`, and leaves every other key untouched.
proof fn lemma_assoc_replace(
    h0: Seq<(ResourceId, PatternView)>,
    h1: Seq<(ResourceId, PatternView)>,
    j: int,
    res: ResourceId,
    np: PatternView,
)
    requires
        keys_unique(h0),
        0 <= j < h0.len(),
        h0[j].0 == res,
        h1 == h0.update(j, h0.last()).drop_last().push((res, np)),
    ensures
        keys_unique(h1),
        h1.len() == h0.len(),
        key_in(h1, res),
        val_at(h1, res) == np,
        forall|rr: ResourceId| rr != res ==> (key_in(h1, rr) == key_in(h0, rr)),
        forall|rr: ResourceId|
            rr != res && #[trigger] key_in(h0, rr) ==> val_at(h1, rr) == val_at(h0, rr),
{
    let n = h0.len() as int;
    assert(h1.len() == n);
    assert(h1[n - 1] == (res, np));
    assert forall|m: int| 0 <= m < n - 1 implies #[trigger] h1[m] == if m == j {
        h0[n - 1]
    } else {
        h0[m]
    } by {}
    assert forall|m1: int, m2: int| 0 <= m1 < m2 < n implies (#[trigger] h1[m1]).0 != (
    #[trigger] h1[m2]).0 by {
        if m2 == n - 1 {
            if m1 == j {
                if j == n - 1 {
                } else {
                    assert(h1[m1] == h0[n - 1]);
                    if h0[n - 1].0 == res {
                        assert(j < n - 1 && h0[j].0 == h0[n - 1].0);
                        assert(false);
                    }
                }
            } else {
                assert(h1[m1] == h0[m1]);
                if h0[m1].0 == res {
                    if m1 < j {
                        assert(h0[m1].0 != h0[j].0);
                    } else {
                        assert(h0[j].0 != h0[m1].0);
                    }
                    assert(false);
                }
            }
        }
    }
    lemma_val_at(h1, res, n - 1);
    assert forall|rr: ResourceId| rr != res implies (key_in(h1, rr) == key_in(h0, rr)) by {
        if key_in(h0, rr) {
            let k = choose|k: int| 0 <= k < h0.len() && (#[trigger] h0[k]).0 == rr;
            if k == j {
                assert(false);
            } else if k == n - 1 {
                assert(h1[j] == h0[n - 1]);
                assert(key_in(h1, rr));
            } else {
                assert(h1[k] == h0[k]);
                assert(key_in(h1, rr));
            }
        }
        if key_in(h1, rr) {
            let k = choose|k: int| 0 <= k < h1.len() && (#[trigger] h1[k]).0 == rr;
            if k == n - 1 {
                assert(false);
            } else if k == j {
                assert(h1[j] == h0[n - 1]);
                assert(key_in(h0, rr));
            } else {
                assert(h1[k] == h0[k]);
                assert(key_in(h0, rr));
            }
        }
    }
    assert forall|rr: ResourceId|
        rr != res && #[trigger] key_in(h0, rr) implies val_at(h1, rr) == val_at(h0, rr) by {
        let k = choose|k: int| 0 <= k < h0.len() && (#[trigger] h0[k]).0 == rr;
        lemma_val_at(h0, rr, k);
        if k == n - 1 {
            if j == n - 1 {
                assert(false);
            }
            assert(h1[j] == h0[n - 1]);
            lemma_val_at(h1, rr, j);
        } else {
            assert(h1[k] == h0[k]);
            lemma_val_at(h1, rr, k);
        }
    }
}

/// Appending an entry under a fresh key keeps keys unique, binds that key,
/// and leaves every other key untouched.
proof fn lemma_assoc_push(
    h0: Seq<(ResourceId, PatternView)>,
    h1: Seq<(ResourceId, PatternView)>,
    res: ResourceId,
    np: PatternView,
)
    requires
        keys_unique(h0),
        !key_in(h0, res),
        h1 == h0.push((res, np)),
    ensures
        keys_unique(h1),
        key_in(h1, res),
        val_at(h1, res) == np,
        forall|rr: ResourceId| rr != res ==> (key_in(h1, rr) == key_in(h0, rr)),
        forall|rr: ResourceId|
            rr != res && #[trigger] key_in(h0, rr) ==> val_at(h1, rr) == val_at(h0, rr),
{
    let n = h0.len() as int;
    assert forall|m1: int, m2: int| 0 <= m1 < m2 < h1.len() implies (#[trigger] h1[m1]).0 != (
    #[trigger] h1[m2]).0 by {
        if m2 == n {
            assert(h1[m1] == h0[m1]);
            if h0[m1].0 == res {
                assert(key_in(h0, res));
                assert(false);
            }
        }
    }
    lemma_val_at(h1, res, n);
    assert forall|rr: ResourceId| rr != res implies (key_in(h1, rr) == key_in(h0, rr)) by {
        if key_in(h0, rr) {
            let k = choose|k: int| 0 <= k < h0.len() && (#[trigger] h0[k]).0 == rr;
            assert(h1[k] == h0[k]);
            assert(key_in(h1, rr));
        }
        if key_in(h1, rr) {
            let k = choose|k: int| 0 <= k < h1.len() && (#[trigger] h1[k]).0 == rr;
            assert(k < n);
            assert(h1[k] == h0[k]);
            assert(key_in(h0, rr));
        }
    }
    assert forall|rr: ResourceId|
        rr != res && #[trigger] key_in(h0, rr) implies val_at(h1, rr) == val_at(h0, rr) by {
        let k = choose|k: int| 0 <= k < h0.len() && (#[trigger] h0[k]).0 == rr;
        lemma_val_at(h0, rr, k);
        assert(h1[k] == h0[k]);
        lemma_val_at(h1, rr, k);
    }
}

/// The accesses one not-yet-spawned job has declared so far, each resource at
/// most once.
#[derive(Debug)]
pub struct AccessMap {
    entries: Vec<(ResourceId, Access)>,
}

impl AccessMap {
    /// The declared accesses, in declaration order.
    pub closed spec fn decls(self) -> Seq<(ResourceId, Access)> {
        self.entries@
    }

    /// Whether an access to `r` has been declared.
    pub open spec fn declared(self, r: ResourceId) -> bool {
        exists|k: int| 0 <= k < self.decls().len() && (#[trigger] self.decls()[k]).0 == r
    }

    /// No resource is declared twice.
    pub open spec fn wf(self) -> bool {
        forall|k1: int, k2: int|
            0 <= k1 < k2 < self.decls().len() ==> (#[trigger] self.decls()[k1]).0 != (
            #[trigger] self.decls()[k2]).0
    }

    /// An empty access declaration.
    pub fn new() -> (r: AccessMap)
        ensures
            r.wf(),
            r.decls() == Seq::<(ResourceId, Access)>::empty(),
    {
        AccessMap { entries: Vec::new() }
    }

    /// Whether an access to `resource` has been declared by this job.
    pub fn contains_resource(&self, resource: ResourceId) -> (r: bool)
        ensures
            r == self.declared(resource),
    {
        let n = self.entries.len();
        let mut i: usize = 0;
        while i < n
            invariant
                i <= n,
                n == self.decls().len(),
                forall|k: int| 0 <= k < i ==> (#[trigger] self.decls()[k]).0 != resource,
            decreases n - i,
        {
            if self.entries[i].0 == resource {
                proof {
                    assert(self.decls()[i as int].0 == resource);
                }
                return true;
            }
            i += 1;
        }
        false
    }

    /// Declare one access. Declaring a resource this job already declared is
    /// a fatal configuration error — a job cannot claim two access modes on
    /// one resource concurrently with itself — so that input is excluded
    /// here; an embedding checks `contains_resource` first and aborts, since
    /// a misconfigured frame must not run.
    pub fn add(&mut self, resource: ResourceId, access: Access)
        requires
            old(self).wf(),
            !old(self).declared(resource),
        ensures
            final(self).wf(),
            final(self).decls() == old(self).decls().push((resource, access)),
    {
        self.entries.push((resource, access));
        proof {
            assert forall|k1: int, k2: int|
                0 <= k1 < k2 < self.decls().len() implies (#[trigger] self.decls()[k1]).0 != (
            #[trigger] self.decls()[k2]).0 by {
                assert(self.decls()[k1] == old(self).decls()[k1]);
                if k2 < self.decls().len() - 1 {
                    assert(self.decls()[k2] == old(self).decls()[k2]);
                } else {
                    if old(self).decls()[k1].0 == resource {
                        assert(old(self).declared(resource));
                    }
                }
            }
        }
    }
}

/// Handle to a world registered with a frame.
pub struct WorldHandle {
    pub world: WorldId,
}

impl WorldHandle {
    /// Name a resource of this world by its type identity.
    pub fn query(&self, ty: ResourceTy) -> (h: ResourceHandle)
        ensures
            h.id == (ResourceId { world: self.world, ty }),
    {
        ResourceHandle { id: ResourceId { world: self.world, ty } }
    }
}

/// Handle naming one resource of one world.
pub struct ResourceHandle {
    pub id: ResourceId,
}

/// One spawned job, identified by its submission index within the frame.
pub struct Job {
    pub id: JobId,
}

/// Builder for one frame: the pending access declarations of the next job,
/// the per-resource access history of the jobs spawned so far, and how many
/// jobs have been spawned.
pub struct FrameBuilder {
    access: AccessMap,
    history: Vec<(ResourceId, AccessPattern)>,
    num_jobs: usize,
    num_worlds: usize,
}

impl FrameBuilder {
    /// The next job's declared accesses, in declaration order.
    pub closed spec fn pending(self) -> Seq<(ResourceId, Access)> {
        self.access.decls()
    }

    /// The access history, one record per resource touched this frame.
    pub closed spec fn hist(self) -> Seq<(ResourceId, PatternView)> {
        self.history@.map(|_k: int, e: (ResourceId, AccessPattern)| (e.0, e.1@))
    }

    /// Number of jobs spawned this frame.
    pub closed spec fn spec_num_jobs(self) -> int {
        self.num_jobs as int
    }

    /// Number of worlds registered with this frame.
    pub closed spec fn spec_num_worlds(self) -> int {
        self.num_worlds as int
    }

    /// Whether the next job has declared an access to `r`.
    pub open spec fn pending_declared(self, r: ResourceId) -> bool {
        exists|k: int| 0 <= k < self.pending().len() && (#[trigger] self.pending()[k]).0 == r
    }

    /// Whether some spawned job has accessed `r` this frame.
    pub open spec fn has_hist(self, r: ResourceId) -> bool {
        key_in(self.hist(), r)
    }

    /// The history record of `r`, absent when no spawned job accessed it.
    pub open spec fn hist_opt(self, r: ResourceId) -> Option<PatternView> {
        if self.has_hist(r) {
            Some(val_at(self.hist(), r))
        } else {
            None
        }
    }

    /// Pending declarations and history records are keyed uniquely, and the
    /// history only mentions jobs already spawned.
    pub open spec fn wf(self) -> bool {
        &&& forall|k1: int, k2: int|
            0 <= k1 < k2 < self.pending().len() ==> (#[trigger] self.pending()[k1]).0 != (
            #[trigger] self.pending()[k2]).0
        &&& keys_unique(self.hist())
        &&& forall|k: int|
            0 <= k < self.hist().len() ==> pattern_bounded(
                (#[trigger] self.hist()[k]).1,
                self.spec_num_jobs(),
            )
    }

    /// A builder with no jobs, no declarations and no history.
    pub fn new() -> (r: FrameBuilder)
        ensures
            r.wf(),
            r.spec_num_jobs() == 0,
            r.spec_num_worlds() == 0,
            r.pending() == Seq::<(ResourceId, Access)>::empty(),
            forall|rr: ResourceId| !(#[trigger] r.has_hist(rr)),
    {
        let r = FrameBuilder {
            access: AccessMap::new(),
            history: Vec::new(),
            num_jobs: 0,
            num_worlds: 0,
        };
        proof {
            assert forall|rr: ResourceId| !(#[trigger] r.has_hist(rr)) by {
                if key_in(r.hist(), rr) {
                    let k = choose|k: int| 0 <= k < r.hist().len() && (#[trigger] r.hist()[k]).0 == rr;
                    assert(false);
                }
            }
        }
        r
    }

    /// Register one more world with the frame and hand back its handle; the
    /// embedding keeps the world itself and resolves the handle's index.
    pub fn access(&mut self) -> (h: WorldHandle)
        requires
            old(self).spec_num_worlds() < usize::MAX as int,
        ensures
            h.world == old(self).spec_num_worlds(),
            final(self).spec_num_worlds() == old(self).spec_num_worlds() + 1,
            final(self).pending() == old(self).pending(),
            final(self).hist() == old(self).hist(),
            final(self).spec_num_jobs() == old(self).spec_num_jobs(),
            old(self).wf() ==> final(self).wf(),
    {
        let id = self.num_worlds;
        self.num_worlds = self.num_worlds + 1;
        proof {
            if old(self).wf() {
                assert forall|k1: int, k2: int|
                    0 <= k1 < k2 < self.pending().len() implies (
                #[trigger] self.pending()[k1]).0 != (#[trigger] self.pending()[k2]).0 by {
                    assert(self.pending()[k1] == old(self).pending()[k1]);
                    assert(self.pending()[k2] == old(self).pending()[k2]);
                }
                assert forall|k1: int, k2: int|
                    0 <= k1 < k2 < self.hist().len() implies (#[trigger] self.hist()[k1]).0 != (
                #[trigger] self.hist()[k2]).0 by {
                    assert(self.hist()[k1] == old(self).hist()[k1]);
                    assert(self.hist()[k2] == old(self).hist()[k2]);
                }
                assert forall|k: int|
                    0 <= k < self.hist().len() implies pattern_bounded(
                    (#[trigger] self.hist()[k]).1,
                    self.spec_num_jobs(),
                ) by {
                    assert(self.hist()[k] == old(self).hist()[k]);
                }
            }
        }
        WorldHandle { world: id }
    }

    /// Name a resource of a registered world by its type identity.
    pub fn query(&self, world_id: WorldId, ty: ResourceTy) -> (h: ResourceHandle)
        ensures
            h.id == (ResourceId { world: world_id, ty }),
    {
        ResourceHandle { id: ResourceId { world: world_id, ty } }
    }

    /// Whether the next job has already declared an access to `id`.
    pub fn declared(&self, id: ResourceId) -> (r: bool)
        ensures
            r == self.pending_declared(id),
    {
        let r = self.access.contains_resource(id);
        proof {
            if self.access.declared(id) {
                let k = choose|k: int|
                    0 <= k < self.access.decls().len() && (#[trigger] self.access.decls()[k]).0
                        == id;
                assert(self.pending()[k].0 == id);
            }
            if self.pending_declared(id) {
                let k = choose|k: int|
                    0 <= k < self.pending().len() && (#[trigger] self.pending()[k]).0 == id;
                assert(self.access.decls()[k].0 == id);
            }
        }
        r
    }

    /// Declare one access of the next job. Declaring a resource this job has
    /// already declared is a fatal configuration error — one job cannot hold
    /// two access modes on the same resource concurrently with itself — so
    /// that input is excluded here; an embedding checks `declared` first and
    /// aborts, since a misconfigured frame must not run.
    pub fn access_resource(&mut self, id: ResourceId, access: Access)
        requires
            old(self).wf(),
            !old(self).pending_declared(id),
        ensures
            final(self).wf(),
            final(self).hist() == old(self).hist(),
            final(self).spec_num_jobs() == old(self).spec_num_jobs(),
            final(self).pending() == old(self).pending().push((id, access)),
    {
        proof {
            assert forall|k1: int, k2: int|
                0 <= k1 < k2 < self.access.decls().len() implies (
            #[trigger] self.access.decls()[k1]).0 != (#[trigger] self.access.decls()[k2]).0 by {
                assert(self.pending()[k1] == self.access.decls()[k1]);
                assert(self.pending()[k2] == self.access.decls()[k2]);
            }
            assert(self.access.wf());
            if self.access.declared(id) {
                let k = choose|k: int|
                    0 <= k < self.access.decls().len() && (#[trigger] self.access.decls()[k]).0
                        == id;
                assert(self.pending()[k].0 == id);
                assert(self.pending_declared(id));
            }
        }
        self.access.add(id, access)
    }

    /// Spawn the next job: consume its pending declarations, compute from the
    /// access history the set of earlier jobs it must wait for, record its
    /// accesses in the history, and hand back its id with the wait list.
    #[verifier::rlimit(100)]
    #[verifier::spinoff_prover]
    pub fn spawn_job(&mut self) -> (r: (JobId, Vec<JobId>))
        requires
            old(self).wf(),
            old(self).spec_num_jobs() < usize::MAX as int,
        ensures
            final(self).wf(),
            r.0 == old(self).spec_num_jobs(),
            final(self).spec_num_jobs() == old(self).spec_num_jobs() + 1,
            final(self).pending().len() == 0,
            forall|k: int|
                0 <= k < old(self).pending().len() ==> {
                    let (res, acc) = #[trigger] old(self).pending()[k];
                    final(self).has_hist(res) && final(self).hist_opt(res) == Some(
                        next_of(old(self).hist_opt(res), acc, r.0),
                    )
                },
            forall|rr: ResourceId|
                !old(self).pending_declared(rr) ==> final(self).hist_opt(rr) == old(self).hist_opt(
                    rr,
                ),
            forall|k: int, x: JobId|
                0 <= k < old(self).pending().len() && (#[trigger] waits_of(
                    old(self).hist_opt(old(self).pending()[k].0),
                    old(self).pending()[k].1,
                ).contains(x)) ==> r.1@.contains(x),
            forall|x: JobId|
                #[trigger] r.1@.contains(x) ==> exists|k: int|
                    0 <= k < old(self).pending().len() && waits_of(
                        old(self).hist_opt(old(self).pending()[k].0),
                        old(self).pending()[k].1,
                    ).contains(x),
            forall|x: JobId| #[trigger] r.1@.contains(x) ==> (x as int) < old(self).spec_num_jobs(),
    {
        let ghost w0 = *old(self);
        let job_id = self.num_jobs;
        self.num_jobs = self.num_jobs + 1;
        let mut waits: Vec<JobId> = Vec::new();
        let num_decls = self.access.entries.len();
        let mut i: usize = 0;
        while i < num_decls
            invariant
                w0.wf(),
                self.access == w0.access,
                num_decls == w0.pending().len(),
                i <= num_decls,
                job_id == w0.spec_num_jobs(),
                self.spec_num_jobs() == w0.spec_num_jobs() + 1,
                keys_unique(self.hist()),
                forall|k: int|
                    0 <= k < self.hist().len() ==> pattern_bounded(
                        (#[trigger] self.hist()[k]).1,
                        w0.spec_num_jobs() + 1,
                    ),
                forall|k: int|
                    0 <= k < i ==> {
                        let (res, acc) = #[trigger] w0.pending()[k];
                        self.has_hist(res) && self.hist_opt(res) == Some(
                            next_of(w0.hist_opt(res), acc, job_id),
                        )
                    },
                forall|rr: ResourceId|
                    !(exists|k: int|
                        0 <= k < i && (#[trigger] w0.pending()[k]).0 == rr) ==> self.hist_opt(rr)
                        == w0.hist_opt(rr),
                forall|x: JobId|
                    #[trigger] waits@.contains(x) <==> exists|k: int|
                        0 <= k < i && waits_of(
                            w0.hist_opt(w0.pending()[k].0),
                            w0.pending()[k].1,
                        ).contains(x),
                forall|x: JobId| #[trigger] waits@.contains(x) ==> (x as int) < w0.spec_num_jobs(),
            decreases num_decls - i,
        {
            let (res, acc) = self.access.entries[i];
            proof {
                assert(w0.pending()[i as int] == (res, acc));
                assert(self.hist_opt(res) == w0.hist_opt(res));
            }
            let ghost h_pre = self.hist();
            let ghost waits_top = waits@;
            let ghost wnew = waits_of(w0.hist_opt(res), acc);
            let found = find_res(&self.history, res);
            match found {
                None => {
                    proof {
                        if key_in(h_pre, res) {
                            let k = choose|k: int|
                                0 <= k < h_pre.len() && (#[trigger] h_pre[k]).0 == res;
                            assert(self.history@[k].0 == res);
                            assert(false);
                        }
                        assert(wnew =~= Seq::<JobId>::empty());
                    }
                    let p = new_pattern(acc, job_id);
                    self.history.push((res, p));
                    proof {
                        assert(self.hist() =~= h_pre.push((res, p@)));
                        lemma_assoc_push(h_pre, self.hist(), res, p@);
                    }
                },
                Some(j) => {
                    proof {
                        lemma_val_at(self.hist(), res, j as int);
                    }
                    let entry = self.history.swap_remove(j);
                    let adds = entry.1.collect_jobs(acc);
                    append_jobs(&mut waits, &adds);
                    let np = updated_pattern(entry.1, acc, job_id);
                    self.history.push((res, np));
                    proof {
                        assert(self.hist() =~= h_pre.update(j as int, h_pre.last()).drop_last()
                            .push((res, np@)));
                        lemma_assoc_replace(h_pre, self.hist(), j as int, res, np@);
                        assert(entry.1@ == h_pre[j as int].1);
                        assert(adds@ == wnew);
                        assert(waits@ == waits_top + adds@);
                        assert(pattern_bounded(h_pre[j as int].1, w0.spec_num_jobs()));
                        assert forall|x: JobId| wnew.contains(x) implies (x as int) < w0
                            .spec_num_jobs() by {
                            let ix = choose|ix: int| 0 <= ix < wnew.len() && wnew[ix] == x;
                        }
                    }
                },
            }
            proof {
                // How the wait list grew this iteration.
                assert forall|x: JobId| #[trigger] waits@.contains(x) implies (waits_top.contains(
                    x,
                ) || wnew.contains(x)) by {
                    let ix = choose|ix: int| 0 <= ix < waits@.len() && waits@[ix] == x;
                    if ix < waits_top.len() {
                        assert(waits_top[ix] == x);
                    } else {
                        assert(wnew[ix - waits_top.len()] == x);
                    }
                }
                assert forall|x: JobId| waits_top.contains(x) implies waits@.contains(x) by {
                    let ix = choose|ix: int| 0 <= ix < waits_top.len() && waits_top[ix] == x;
                    assert(waits@[ix] == x);
                }
                assert forall|x: JobId| wnew.contains(x) implies waits@.contains(x) by {
                    let ix = choose|ix: int| 0 <= ix < wnew.len() && wnew[ix] == x;
                    assert(waits@[waits_top.len() + ix] == x);
                }
                assert forall|x: JobId| #[trigger] waits@.contains(x) implies (exists|k: int|
                    0 <= k < i + 1 && waits_of(
                        w0.hist_opt(w0.pending()[k].0),
                        w0.pending()[k].1,
                    ).contains(x)) by {
                    if waits_top.contains(x) {
                        let k = choose|k: int|
                            0 <= k < i && waits_of(
                                w0.hist_opt(w0.pending()[k].0),
                                w0.pending()[k].1,
                            ).contains(x);
                        assert(0 <= k < i + 1 && waits_of(
                            w0.hist_opt(w0.pending()[k].0),
                            w0.pending()[k].1,
                        ).contains(x));
                    } else {
                        assert(wnew.contains(x));
                        assert(0 <= i < i + 1 && waits_of(
                            w0.hist_opt(w0.pending()[i as int].0),
                            w0.pending()[i as int].1,
                        ).contains(x));
                    }
                }
                assert forall|x: JobId|
                    (exists|k: int|
                        0 <= k < i + 1 && waits_of(
                            w0.hist_opt(w0.pending()[k].0),
                            w0.pending()[k].1,
                        ).contains(x)) implies #[trigger] waits@.contains(x) by {
                    let k = choose|k: int|
                        0 <= k < i + 1 && waits_of(
                            w0.hist_opt(w0.pending()[k].0),
                            w0.pending()[k].1,
                        ).contains(x);
                    if k < i {
                        assert(waits_top.contains(x));
                    } else {
                        assert(wnew.contains(x));
                    }
                }
                // History updated for processed declarations only.
                assert forall|k: int|
                    0 <= k < i + 1 implies {
                    let (res2, acc2) = #[trigger] w0.pending()[k];
                    self.has_hist(res2) && self.hist_opt(res2) == Some(
                        next_of(w0.hist_opt(res2), acc2, job_id),
                    )
                } by {
                    let (res2, acc2) = w0.pending()[k];
                    if k < i {
                        assert(res2 != res);
                    }
                }
            }
            i += 1;
        }
        self.access.entries.clear();
        proof {
            assert(self.pending() =~= Seq::<(ResourceId, Access)>::empty());
            assert forall|k: int|
                0 <= k < w0.pending().len() implies {
                let (res, acc) = #[trigger] w0.pending()[k];
                self.has_hist(res) && self.hist_opt(res) == Some(
                    next_of(w0.hist_opt(res), acc, job_id),
                )
            } by {}
        }
        (job_id, waits)
    }
}

/// Whether `writer` is the latest writer an access-history record shows.
pub open spec fn written_by(p: PatternView, writer: JobId) -> bool {
    match p {
        PatternView::Write(w) => w == writer,
        PatternView::RaW { write, .. } => write == writer,
        PatternView::Read(_) => false,
    }
}

/// Law: when the frame's history shows resource `res` last written by job
/// `writer` and the next job declares a read of `res`, the wait list that
/// `spawn_job` computes for that job contains `writer`. Together with
/// `spawn_job`'s remaining clauses — every wait comes from the history of a
/// declared resource and names a job spawned earlier — the scheduler orders
/// jobs by declared history alone and never invents an ordering.
pub proof fn lemma_write_then_read_orders(
    b: FrameBuilder,
    waits: Seq<JobId>,
    res: ResourceId,
    k: int,
    writer: JobId,
)
    requires
        0 <= k < b.pending().len(),
        b.pending()[k] == (res, Access::Shared),
        b.has_hist(res),
        written_by(b.hist_opt(res).unwrap(), writer),
        forall|k2: int, x: JobId|
            0 <= k2 < b.pending().len() && (#[trigger] waits_of(
                b.hist_opt(b.pending()[k2].0),
                b.pending()[k2].1,
            ).contains(x)) ==> waits.contains(x),
    ensures
        waits.contains(writer),
{
    let p = b.hist_opt(res).unwrap();
    assert(collect_of(p, Access::Shared)[0] == writer);
    assert(waits_of(b.hist_opt(b.pending()[k].0), b.pending()[k].1).contains(writer));
}

/// Find the history entry for a resource, if one exists.
fn find_res(history: &Vec<(ResourceId, AccessPattern)>, res: ResourceId) -> (r: Option<usize>)
    ensures
        r matches Some(j) ==> (j as int) < history@.len() && history@[j as int].0 == res,
        r is None ==> forall|k: int| 0 <= k < history@.len() ==> (#[trigger] history@[k]).0 != res,
{
    let n = history.len();
    let mut i: usize = 0;
    while i < n
        invariant
            i <= n,
            n == history@.len(),
            forall|k: int| 0 <= k < i ==> (#[trigger] history@[k]).0 != res,
        decreases n - i,
    {
        if history[i].0 == res {
            return Some(i);
        }
        i += 1;
    }
    None
}

/// The first history record for a fresh resource.
fn new_pattern(access: Access, job: JobId) -> (p: AccessPattern)
    ensures
        p@ == initial_of(access, job),
{
    match access {
        Access::Shared => {
            let mut v: Vec<JobId> = Vec::new();
            v.push(job);
            proof {
                assert(v@ =~= seq![job]);
            }
            AccessPattern::Read(v)
        },
        Access::Exclusive => AccessPattern::Write(job),
    }
}

/// The history record after one more access.
fn updated_pattern(p: AccessPattern, access: Access, job: JobId) -> (r: AccessPattern)
    ensures
        r@ == update_of(p@, access, job),
{
    match access {
        Access::Exclusive => AccessPattern::Write(job),
        Access::Shared => match p {
            AccessPattern::Read(jobs) => {
                let mut jobs = jobs;
                jobs.push(job);
                AccessPattern::Read(jobs)
            },
            AccessPattern::Write(w) => {
                let mut v: Vec<JobId> = Vec::new();
                v.push(job);
                proof {
                    assert(v@ =~= seq![job]);
                }
                AccessPattern::RaW { write: w, reads: v }
            },
            AccessPattern::RaW { write, reads } => {
                let mut reads = reads;
                reads.push(job);
                AccessPattern::RaW { write, reads }
            },
        },
    }
}

/// Extend a wait list by another.
fn append_jobs(dst: &mut Vec<JobId>, src: &Vec<JobId>)
    ensures
        final(dst)@ == old(dst)@ + src@,
{
    let n = src.len();
    let mut i: usize = 0;
    while i < n
        invariant
            i <= n,
            n == src@.len(),
            dst@ == old(dst)@ + src@.subrange(0, i as int),
        decreases n - i,
    {
        dst.push(src[i]);
        proof {
            assert(dst@ =~= old(dst)@ + src@.subrange(0, i + 1));
        }
        i += 1;
    }
    proof {
        assert(src@.subrange(0, n as int) =~= src@);
    }
}

} // verus!
