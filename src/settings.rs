use vstd::prelude::*;

verus! {

/// Configuration of one render invocation.
pub struct RenderSettings {
    /// The most light bounces followed from a camera ray.
    pub bounce_depth: usize,
    /// How many camera rays are averaged for each pixel.
    pub samples_per_ray: usize,
}

impl RenderSettings {
    /// Both counts must be positive.
    pub open spec fn valid(&self) -> bool {
        self.bounce_depth >= 1 && self.samples_per_ray >= 1
    }

    /// Whether these settings can drive a render.
    pub fn is_valid(&self) -> (r: bool)
        ensures
            r == self.valid(),
    {
        self.bounce_depth >= 1 && self.samples_per_ray >= 1
    }
}

} // verus!
