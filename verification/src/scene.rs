//! The scene: background, camera and positioned surfaces, with a version
//! that counts the changes to its geometry.
use vstd::prelude::*;
use crate::color::{rgb, LinearRGB};

verus! {

/// 2D content to render: a background color, a camera of type `C`, and
/// surfaces of type `S`.
///
/// `content_version` goes up with every change that affects prepared
/// geometry (adding a surface, handing out a surface for change). Camera and
/// background changes are frame state and leave it alone.
#[derive(Clone, Debug)]
pub struct Scene<S, C> {
    pub camera: C,
    pub(crate) background: LinearRGB,
    pub(crate) surfaces: Vec<S>,
    pub(crate) content_version: u64,
}

impl<S, C> Scene<S, C> {
    pub closed spec fn spec_camera(&self) -> C {
        self.camera
    }

    pub closed spec fn spec_background(&self) -> LinearRGB {
        self.background
    }

    pub closed spec fn spec_surfaces(&self) -> Seq<S> {
        self.surfaces@
    }

    pub closed spec fn spec_content_version(&self) -> u64 {
        self.content_version
    }

    /// An empty scene on a mid-gray background, with `camera`, at content
    /// version 1.
    pub fn with_camera(camera: C) -> (scene: Self)
        ensures
            scene.spec_camera() == camera,
            scene.spec_background()@ == (128u8, 128u8, 128u8, 255u8),
            scene.spec_surfaces() == Seq::<S>::empty(),
            scene.spec_content_version() == 1,
    {
        Scene { camera, background: rgb(128, 128, 128), surfaces: Vec::new(), content_version: 1 }
    }

    /// Sets the background color. The content version stays as it is.
    pub fn background(&mut self, color: LinearRGB) -> (scene: &mut Self)
        ensures
            scene.spec_background() == color,
            scene.spec_camera() == old(self).spec_camera(),
            scene.spec_surfaces() == old(self).spec_surfaces(),
            scene.spec_content_version() == old(self).spec_content_version(),
            *final(self) == *final(scene),
    {
        self.background = color;
        self
    }

    /// Appends a surface; the content version goes up by one.
    pub fn add(&mut self, surface: S) -> (scene: &mut Self)
        requires
            old(self).spec_content_version() < u64::MAX,
        ensures
            scene.spec_surfaces() == old(self).spec_surfaces().push(surface),
            scene.spec_content_version() == old(self).spec_content_version() + 1,
            scene.spec_camera() == old(self).spec_camera(),
            scene.spec_background() == old(self).spec_background(),
            *final(self) == *final(scene),
    {
        self.surfaces.push(surface);
        self.content_version = self.content_version + 1;
        self
    }

    /// Hands out surface `index` for change, if there is one. The content
    /// version goes up by one either way, since the caller may move the
    /// surface.
    pub fn surface_mut(&mut self, index: usize) -> (surface: Option<&mut S>)
        requires
            old(self).spec_content_version() < u64::MAX,
        ensures
            final(self).spec_content_version() == old(self).spec_content_version() + 1,
            final(self).spec_camera() == old(self).spec_camera(),
            final(self).spec_background() == old(self).spec_background(),
            index >= old(self).spec_surfaces().len() ==> surface is None
                && final(self).spec_surfaces() == old(self).spec_surfaces(),
            index < old(self).spec_surfaces().len() ==> surface is Some,
            surface matches Some(s) ==> {
                &&& *s == old(self).spec_surfaces()[index as int]
                &&& final(self).spec_surfaces() == old(self).spec_surfaces().update(index as int, *final(s))
            },
    {
        self.content_version = self.content_version + 1;
        if index < self.surfaces.len() {
            Some(&mut self.surfaces[index])
        } else {
            None
        }
    }

    /// The background color.
    pub fn background_color(&self) -> (color: LinearRGB)
        ensures
            color == self.spec_background(),
    {
        self.background
    }

    /// The surfaces, in the order they were added.
    pub fn surfaces(&self) -> (surfaces: &[S])
        ensures
            surfaces@ == self.spec_surfaces(),
    {
        self.surfaces.as_slice()
    }

    /// Whether geometry prepared from this scene at content version
    /// `prepared_version` is still current: the version has not moved since.
    pub fn geometry_current(&self, prepared_version: u64) -> (current: bool)
        ensures
            current == (prepared_version == self.spec_content_version()),
    {
        prepared_version == self.content_version
    }

    /// The content version.
    pub fn content_version(&self) -> (version: u64)
        ensures
            version == self.spec_content_version(),
    {
        self.content_version
    }
}

impl<S, C: Default> Scene<S, C> {
    /// An empty scene with the default camera (see [`Scene::with_camera`]).
    pub fn new() -> (scene: Self)
        ensures
            scene.spec_background()@ == (128u8, 128u8, 128u8, 255u8),
            scene.spec_surfaces() == Seq::<S>::empty(),
            scene.spec_content_version() == 1,
    {
        Self::with_camera(C::default())
    }
}

impl<S, C: Default> Default for Scene<S, C> {
    fn default() -> (scene: Self)
        ensures
            scene.spec_background()@ == (128u8, 128u8, 128u8, 255u8),
            scene.spec_surfaces() == Seq::<S>::empty(),
            scene.spec_content_version() == 1,
    {
        Self::new()
    }
}

} // verus!
