//! Reflection probe system: holds the callback that renders one cube face.
use vstd::prelude::*;

verus! {

/// System that re-renders reflection probes through a face-rendering
/// callback.
pub struct ReflectionProbeSystem<F> {
    render_face: F,
}

impl<F> ReflectionProbeSystem<F> {
    /// The face-rendering callback.
    pub closed spec fn callback(&self) -> F {
        self.render_face
    }

    /// A system using `render_face` to draw each cube face.
    pub fn new(render_face: F) -> (s: Self)
        ensures
            s.callback() == render_face,
    {
        ReflectionProbeSystem { render_face }
    }

    /// The face-rendering callback, to call for each face.
    pub fn render_face_mut(&mut self) -> (f: &mut F)
        ensures
            *f == old(self).callback(),
            final(self).callback() == *final(f),
    {
        &mut self.render_face
    }
}

} // verus!
