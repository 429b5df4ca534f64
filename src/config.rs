//! Validation of the integer settings of a run, before any work starts.
use vstd::prelude::*;

verus! {

/// Why a run's settings are refused.
#[derive(Debug, Clone, Copy, PartialEq, Eq)]
pub enum ConfigError {
    /// The image has no pixels.
    EmptyImage,
    /// Fewer than one sublevel per octave.
    NoSublevels,
    /// The descriptor channel count is not 1, 2 or 3.
    InvalidChannels,
}

/// Check the settings of a run on a `width` x `height` image: the image
/// must have pixels, each octave at least one sublevel, and the descriptor
/// one to three channels. The first failing condition, in that order, is
/// reported.
pub fn check_config(
    width: u32,
    height: u32,
    num_sublevels: u32,
    descriptor_channels: usize,
) -> (r: Result<(), ConfigError>)
    ensures
        (width == 0 || height == 0) <==> r == Err::<(), ConfigError>(ConfigError::EmptyImage),
        (width > 0 && height > 0 && num_sublevels == 0) <==> r == Err::<(), ConfigError>(
            ConfigError::NoSublevels,
        ),
        (width > 0 && height > 0 && num_sublevels > 0 && !(1 <= descriptor_channels <= 3)) <==> r
            == Err::<(), ConfigError>(ConfigError::InvalidChannels),
        r is Ok <==> (width > 0 && height > 0 && num_sublevels > 0 && 1 <= descriptor_channels
            <= 3),
{
    if width == 0 || height == 0 {
        Err(ConfigError::EmptyImage)
    } else if num_sublevels == 0 {
        Err(ConfigError::NoSublevels)
    } else if descriptor_channels < 1 || descriptor_channels > 3 {
        Err(ConfigError::InvalidChannels)
    } else {
        Ok(())
    }
}

} // verus!
