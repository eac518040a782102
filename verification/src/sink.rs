//! Where the output goes, and what is done with it when the merge ends.

use vstd::prelude::*;

verus! {

/// Where the merged history is written.
#[derive(Clone, Copy, Debug, PartialEq, Eq, Structural)]
pub enum Destination {
    /// A file of its own, created for this run.
    File,
    /// The earlier export itself, replaced as a whole: the output is
    /// staged in a temporary file beside it.
    InPlace,
    /// Standard output.
    Stdout,
}

/// A choice of options that cannot be served.
#[derive(Clone, Copy, Debug, PartialEq, Eq, Structural)]
pub enum ConfigError {
    /// Writing in place was asked for and no earlier export was named.
    InPlaceWithoutMerge,
    /// Writing in place and an output file were both asked for.
    InPlaceWithOutput,
}

impl ConfigError {
    /// What is wrong with the options, in words.
    pub fn message(&self) -> (m: &'static str)
        ensures
            *self == ConfigError::InPlaceWithoutMerge ==> m@
                == "writing in place needs an earlier export to merge with"@,
            *self == ConfigError::InPlaceWithOutput ==> m@
                == "writing in place cannot be combined with an output file"@,
    {
        match self {
            ConfigError::InPlaceWithoutMerge => {
                "writing in place needs an earlier export to merge with"
            },
            ConfigError::InPlaceWithOutput => {
                "writing in place cannot be combined with an output file"
            },
        }
    }
}

/// What is done with the output when the merge has ended.
#[derive(Clone, Copy, Debug, PartialEq, Eq, Structural)]
pub enum Finish {
    /// The output is flushed and closed; nothing else is to do.
    Close,
    /// The temporary file is closed and then renamed onto the earlier
    /// export, in this order.
    Promote,
    /// The temporary file is removed; the earlier export stays as it was.
    Discard,
}

/// Picks the destination from the options of a run: whether an earlier
/// export is named, whether an output file is named, and whether writing
/// in place is asked for. Writing in place needs the earlier export and
/// excludes the output file; of the two faults the missing export is
/// reported first.
pub fn destination(has_merge: bool, has_output: bool, in_place: bool) -> (r: Result<
    Destination,
    ConfigError,
>)
    ensures
        r == Err::<Destination, ConfigError>(ConfigError::InPlaceWithoutMerge) <==> in_place
            && !has_merge,
        r == Err::<Destination, ConfigError>(ConfigError::InPlaceWithOutput) <==> in_place
            && has_merge && has_output,
        r == Ok::<Destination, ConfigError>(Destination::InPlace) <==> in_place && has_merge
            && !has_output,
        r == Ok::<Destination, ConfigError>(Destination::File) <==> !in_place && has_output,
        r == Ok::<Destination, ConfigError>(Destination::Stdout) <==> !in_place && !has_output,
{
    if in_place {
        if !has_merge {
            Err(ConfigError::InPlaceWithoutMerge)
        } else if has_output {
            Err(ConfigError::InPlaceWithOutput)
        } else {
            Ok(Destination::InPlace)
        }
    } else if has_output {
        Ok(Destination::File)
    } else {
        Ok(Destination::Stdout)
    }
}

impl Destination {
    /// What is done when the merge has ended, successfully or not. Only a
    /// merge that succeeded is promoted onto the earlier export; one that
    /// failed leaves it untouched.
    pub fn finish(self, succeeded: bool) -> (f: Finish)
        ensures
            f == Finish::Promote <==> self == Destination::InPlace && succeeded,
            f == Finish::Discard <==> self == Destination::InPlace && !succeeded,
            f == Finish::Close <==> self != Destination::InPlace,
    {
        match self {
            Destination::InPlace => if succeeded {
                Finish::Promote
            } else {
                Finish::Discard
            },
            Destination::File => Finish::Close,
            Destination::Stdout => Finish::Close,
        }
    }
}

} // verus!
