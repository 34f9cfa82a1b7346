//! The settings of one render.

use vstd::prelude::*;

verus! {

/// What to render and with how much effort.
#[derive(Debug, Clone)]
pub struct Config {
    /// Where to save the image, if anywhere.
    pub output: Option<String>,
    /// Samples per pixel.
    pub samples: u32,
    /// Number of worker threads.
    pub threads: usize,
    /// Width of the image in pixels.
    pub width: usize,
    /// Height of the image in pixels.
    pub height: usize,
}

impl Config {
    /// Whether the image can be split among the workers and held in a
    /// buffer: there is a worker, and the sizes fit the machine.
    pub open spec fn renderable(&self) -> bool {
        &&& self.threads > 0
        &&& self.height + self.threads <= usize::MAX
        &&& self.width * self.height <= usize::MAX
    }

    /// Tests `renderable`.
    pub fn is_renderable(&self) -> (b: bool)
        ensures
            b == self.renderable(),
    {
        if self.threads == 0 {
            return false;
        }
        if self.height > usize::MAX - self.threads {
            return false;
        }
        if self.height == 0 {
            assert(self.width * self.height == 0) by (nonlinear_arith)
                requires
                    self.height == 0,
            ;
            return true;
        }
        let most = usize::MAX / self.height;
        assert(self.width <= most <==> self.width * self.height <= usize::MAX)
            by (nonlinear_arith)
            requires
                most == usize::MAX / self.height,
                self.height > 0,
        ;
        self.width <= most
    }
}

impl Default for Config {
    /// Fifty samples on four threads at 640 by 360, saved nowhere.
    fn default() -> (c: Config)
        ensures
            c.output is None,
            c.samples == 50,
            c.threads == 4,
            c.width == 640,
            c.height == 360,
    {
        Config { output: None, samples: 50, threads: 4, width: 640, height: 360 }
    }
}

} // verus!
