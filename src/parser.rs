use crate::effects::{effect_named, is_supported_effect, lower_of};
use vstd::prelude::*;

verus! {

/// The command line of the tool: where to read the image, where to write the result, and
/// the name of the effect to apply.
pub struct Args {
    pub src_path: String,
    pub dst_path: String,
    pub effect: String,
}

/// Why a command line cannot be run.
#[derive(Clone, Copy, Debug, PartialEq, Eq, Structural)]
pub enum ArgsError {
    /// The source path does not exist.
    MissingSource,
    /// The destination path cannot be written.
    InvalidDestination,
    /// The effect name is not one of the known effects.
    UnsupportedEffect,
}

impl Args {
    /// Checks the command line, given whether the source path exists and whether the
    /// destination can be created. The checks are made in that order, the effect name last.
    pub fn validate(&self, src_exists: bool, dst_writable: bool) -> (r: Result<(), ArgsError>)
        ensures
            r == if !src_exists {
                Err::<(), ArgsError>(ArgsError::MissingSource)
            } else if !dst_writable {
                Err(ArgsError::InvalidDestination)
            } else if effect_named(lower_of(self.effect@)) is None {
                Err(ArgsError::UnsupportedEffect)
            } else {
                Ok(())
            },
    {
        if !src_exists {
            return Err(ArgsError::MissingSource);
        }
        if !dst_writable {
            return Err(ArgsError::InvalidDestination);
        }
        if !is_supported_effect(self.effect.as_str()) {
            return Err(ArgsError::UnsupportedEffect);
        }
        Ok(())
    }
}

} // verus!
