//! Which GPU uploads a frame needs: the glyph atlas when its version moved,
//! and each surface's vertices when its content version moved.
use vstd::prelude::*;

verus! {

/// What the GPU holds for a surface: the content version of its vertices and
/// the capacity, in vertices, of its vertex buffer.
#[derive(Clone, Copy, Debug, PartialEq, Eq, Structural)]
pub struct UploadedSurface {
    pub content_version: u64,
    pub vertex_capacity: usize,
}

/// What the CPU side holds for a surface: the content version of its
/// vertices and how many there are.
#[derive(Clone, Copy, Debug, PartialEq, Eq, Structural)]
pub struct SurfaceContent {
    pub content_version: u64,
    pub vertex_count: usize,
}

/// What to do with a surface's vertex buffer this frame.
#[derive(Clone, Copy, Debug, PartialEq, Eq, Structural)]
pub enum SurfaceUpload {
    /// The buffer is up to date.
    Keep,
    /// Write the vertices into the buffer, which is large enough.
    Write,
    /// Replace the buffer by one made from the vertices.
    Recreate,
}

/// The uploads of one frame.
#[derive(Clone, Debug)]
pub struct UploadPlan {
    /// Upload the glyph atlas image.
    pub upload_atlas: bool,
    /// How many surface resources to create (each starts empty, at content
    /// version 0) before the surfaces are updated.
    pub created: usize,
    /// What to do with each surface's vertex buffer, by surface index.
    pub surfaces: Vec<SurfaceUpload>,
}

/// The GPU-side versions a renderer keeps track of: the atlas version it
/// uploaded last, and for each surface what its buffer holds.
#[derive(Clone, Debug)]
pub struct UploadState {
    pub atlas_version: u64,
    pub surfaces: Vec<UploadedSurface>,
}

/// A surface resource as it is created: empty, at content version 0.
pub open spec fn fresh_surface() -> UploadedSurface {
    UploadedSurface { content_version: 0, vertex_capacity: 0 }
}

/// What the buffer of a surface holding `content` becomes, from `prev`, and
/// the upload that gets it there.
pub open spec fn surface_step(prev: UploadedSurface, content: SurfaceContent) -> (UploadedSurface, SurfaceUpload) {
    if prev.content_version == content.content_version {
        (prev, SurfaceUpload::Keep)
    } else if content.vertex_count > prev.vertex_capacity {
        (UploadedSurface { content_version: content.content_version, vertex_capacity: content.vertex_count }, SurfaceUpload::Recreate)
    } else {
        (UploadedSurface { content_version: content.content_version, vertex_capacity: prev.vertex_capacity }, SurfaceUpload::Write)
    }
}

/// The record of surface `i` before a frame's updates: the old one, or a
/// fresh one for a surface the frame creates.
pub open spec fn surface_before(surfaces: Seq<UploadedSurface>, i: int) -> UploadedSurface {
    if i < surfaces.len() { surfaces[i] } else { fresh_surface() }
}

/// `new` and `plan` are the result of planning a frame with atlas version
/// `atlas_version` and surface contents `contents` from `old`.
pub open spec fn planned(old: UploadState, atlas_version: u64, contents: Seq<SurfaceContent>, new: UploadState, plan: UploadPlan) -> bool {
    &&& plan.upload_atlas == (old.atlas_version != atlas_version)
    &&& new.atlas_version == atlas_version
    &&& plan.created == if contents.len() > old.surfaces@.len() { contents.len() - old.surfaces@.len() } else { 0 }
    &&& new.surfaces@.len() == contents.len()
    &&& plan.surfaces@.len() == contents.len()
    &&& forall|i: int| 0 <= i < contents.len() ==> {
        let (after, upload) = surface_step(surface_before(old.surfaces@, i), #[trigger] contents[i]);
        &&& new.surfaces@[i] == after
        &&& plan.surfaces@[i] == upload
    }
}

impl UploadState {
    /// Nothing uploaded: atlas version 0, no surfaces.
    pub fn new() -> (state: Self)
        ensures
            state.atlas_version == 0,
            state.surfaces@ == Seq::<UploadedSurface>::empty(),
    {
        UploadState { atlas_version: 0, surfaces: Vec::new() }
    }

    /// Plans the uploads of a frame whose atlas is at `atlas_version` and
    /// whose surfaces hold `contents`, and records them as done (see
    /// [`planned`]): the atlas is uploaded when its version moved; surface
    /// records are created or dropped to match the surfaces; a surface's
    /// vertices are uploaded when its content version moved, into a new
    /// buffer when the old one is too small.
    pub fn plan(&mut self, atlas_version: u64, contents: &[SurfaceContent]) -> (plan: UploadPlan)
        ensures
            planned(*old(self), atlas_version, contents@, *final(self), plan),
    {
        let ghost old_surfaces = self.surfaces@;
        let upload_atlas = self.atlas_version != atlas_version;
        self.atlas_version = atlas_version;
        let created = if contents.len() > self.surfaces.len() { contents.len() - self.surfaces.len() } else { 0 };
        while self.surfaces.len() < contents.len()
            invariant
                self.atlas_version == atlas_version,
                forall|i: int| 0 <= i < self.surfaces@.len() ==> #[trigger] self.surfaces@[i] == surface_before(old_surfaces, i),
                self.surfaces@.len() == old_surfaces.len() || (old_surfaces.len() < self.surfaces@.len() <= contents@.len()),
            decreases contents@.len() - self.surfaces@.len(),
        {
            self.surfaces.push(UploadedSurface { content_version: 0, vertex_capacity: 0 });
        }
        self.surfaces.truncate(contents.len());
        assert forall|i: int| 0 <= i < contents@.len() implies #[trigger] self.surfaces@[i] == surface_before(old_surfaces, i) by {
        }
        let mut uploads: Vec<SurfaceUpload> = Vec::new();
        let mut i: usize = 0;
        while i < contents.len()
            invariant
                self.atlas_version == atlas_version,
                0 <= i <= contents@.len(),
                self.surfaces@.len() == contents@.len(),
                uploads@.len() == i,
                forall|j: int| i <= j < contents@.len() ==> #[trigger] self.surfaces@[j] == surface_before(old_surfaces, j),
                forall|j: int| 0 <= j < i ==> {
                    let (after, upload) = surface_step(surface_before(old_surfaces, j), #[trigger] contents@[j]);
                    &&& self.surfaces@[j] == after
                    &&& uploads@[j] == upload
                },
            decreases contents@.len() - i,
        {
            let prev = self.surfaces[i];
            let content = contents[i];
            let (after, upload) = if prev.content_version == content.content_version {
                (prev, SurfaceUpload::Keep)
            } else if content.vertex_count > prev.vertex_capacity {
                (UploadedSurface { content_version: content.content_version, vertex_capacity: content.vertex_count }, SurfaceUpload::Recreate)
            } else {
                (UploadedSurface { content_version: content.content_version, vertex_capacity: prev.vertex_capacity }, SurfaceUpload::Write)
            };
            self.surfaces.set(i, after);
            uploads.push(upload);
            i = i + 1;
        }
        let plan = UploadPlan { upload_atlas, created, surfaces: uploads };
        plan
    }
}

/// After a frame's uploads, every surface buffer holds the surface's
/// current content version and is large enough for its vertices whenever
/// it was written; planning the same frame again uploads nothing.
pub proof fn lemma_plan_settles(
    old: UploadState,
    atlas_version: u64,
    contents: Seq<SurfaceContent>,
    mid: UploadState,
    plan: UploadPlan,
    new: UploadState,
    again: UploadPlan,
)
    requires
        planned(old, atlas_version, contents, mid, plan),
        planned(mid, atlas_version, contents, new, again),
    ensures
        forall|i: int| 0 <= i < contents.len() ==> {
            &&& #[trigger] mid.surfaces@[i].content_version == contents[i].content_version
            &&& plan.surfaces@[i] != SurfaceUpload::Keep ==> mid.surfaces@[i].vertex_capacity >= contents[i].vertex_count
        },
        !again.upload_atlas,
        again.created == 0,
        forall|i: int| 0 <= i < contents.len() ==> #[trigger] again.surfaces@[i] == SurfaceUpload::Keep,
        new.surfaces@ == mid.surfaces@,
{
    assert forall|i: int| 0 <= i < contents.len() implies {
        &&& #[trigger] mid.surfaces@[i].content_version == contents[i].content_version
        &&& plan.surfaces@[i] != SurfaceUpload::Keep ==> mid.surfaces@[i].vertex_capacity >= contents[i].vertex_count
    } by {
        let _ = contents[i];
    }
    assert forall|i: int| 0 <= i < contents.len() implies #[trigger] again.surfaces@[i] == SurfaceUpload::Keep by {
        let _ = contents[i];
    }
    assert(new.surfaces@ =~= mid.surfaces@) by {
        assert forall|i: int| 0 <= i < contents.len() implies new.surfaces@[i] == mid.surfaces@[i] by {
            let _ = contents[i];
        }
    }
}

/// Each surface's step in a planned frame, stated from the record `prev` it
/// had before: an unchanged content version keeps the buffer as it is; a
/// moved one makes a new buffer exactly when the vertices no longer fit in
/// the old one, sized to the vertices, and otherwise writes into the old
/// buffer, whose capacity stays. Either way the record takes the content's
/// version, so a recorded capacity is always that of a buffer that was made.
pub proof fn lemma_plan_buffers(
    old: UploadState,
    atlas_version: u64,
    contents: Seq<SurfaceContent>,
    new: UploadState,
    plan: UploadPlan,
    i: int,
)
    requires
        planned(old, atlas_version, contents, new, plan),
        0 <= i < contents.len(),
    ensures
        ({
            let prev = if i < old.surfaces@.len() { old.surfaces@[i] } else {
                UploadedSurface { content_version: 0, vertex_capacity: 0 }
            };
            let content = contents[i];
            let after = new.surfaces@[i];
            let upload = plan.surfaces@[i];
            &&& (upload == SurfaceUpload::Keep) == (prev.content_version == content.content_version)
            &&& upload == SurfaceUpload::Keep ==> after == prev
            &&& prev.content_version != content.content_version ==> {
                &&& (upload == SurfaceUpload::Recreate) == (content.vertex_count > prev.vertex_capacity)
                &&& (upload == SurfaceUpload::Write) == (content.vertex_count <= prev.vertex_capacity)
                &&& after.content_version == content.content_version
            }
            &&& upload == SurfaceUpload::Recreate ==> after.vertex_capacity == content.vertex_count
            &&& upload == SurfaceUpload::Write ==> after.vertex_capacity == prev.vertex_capacity
            &&& after.vertex_capacity >= prev.vertex_capacity
        }),
{
    let _ = contents[i];
}

} // verus!
