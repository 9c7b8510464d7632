use vstd::prelude::*;

verus! {

/// Why a render configuration is refused before any work is scheduled.
#[derive(Clone, Copy, Debug, PartialEq, Eq, Structural)]
pub enum ConfigurationError {
    ZeroWidth,
    ZeroHeight,
    ZeroIterations,
    NonPositiveScale,
}

/// The integer part of a render configuration: the raster's size and the
/// iteration cap, all of them positive.
#[derive(Clone, Copy, Debug)]
pub struct GridConfig {
    width: u32,
    height: u32,
    max_iterations: u32,
}

impl GridConfig {
    pub closed spec fn width_spec(&self) -> nat {
        self.width as nat
    }

    pub closed spec fn height_spec(&self) -> nat {
        self.height as nat
    }

    pub closed spec fn max_iterations_spec(&self) -> nat {
        self.max_iterations as nat
    }

    /// Width, height and iteration cap are all positive.
    pub open spec fn wf(&self) -> bool {
        &&& self.width_spec() > 0
        &&& self.height_spec() > 0
        &&& self.max_iterations_spec() > 0
    }

    /// Checks the sizes and the cap. The first of width, height and cap that
    /// is zero is reported.
    pub fn new(width: u32, height: u32, max_iterations: u32) -> (r: Result<
        GridConfig,
        ConfigurationError,
    >)
        ensures
            r is Ok <==> (width > 0 && height > 0 && max_iterations > 0),
            r matches Ok(c) ==> c.wf() && c.width_spec() == width && c.height_spec() == height
                && c.max_iterations_spec() == max_iterations,
            width == 0 ==> r == Err::<GridConfig, ConfigurationError>(
                ConfigurationError::ZeroWidth,
            ),
            width > 0 && height == 0 ==> r == Err::<GridConfig, ConfigurationError>(
                ConfigurationError::ZeroHeight,
            ),
            width > 0 && height > 0 && max_iterations == 0 ==> r == Err::<
                GridConfig,
                ConfigurationError,
            >(ConfigurationError::ZeroIterations),
    {
        if width == 0 {
            Err(ConfigurationError::ZeroWidth)
        } else if height == 0 {
            Err(ConfigurationError::ZeroHeight)
        } else if max_iterations == 0 {
            Err(ConfigurationError::ZeroIterations)
        } else {
            Ok(GridConfig { width, height, max_iterations })
        }
    }

    pub fn width(&self) -> (w: u32)
        ensures
            w == self.width_spec(),
    {
        self.width
    }

    pub fn height(&self) -> (h: u32)
        ensures
            h == self.height_spec(),
    {
        self.height
    }

    pub fn max_iterations(&self) -> (n: u32)
        ensures
            n == self.max_iterations_spec(),
    {
        self.max_iterations
    }
}

} // verus!
