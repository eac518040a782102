use history_export::sink::{destination, ConfigError, Destination, Finish};

#[test]
fn destination_without_options_is_standard_output() {
    assert_eq!(destination(false, false, false), Ok(Destination::Stdout));
    assert_eq!(destination(true, false, false), Ok(Destination::Stdout));
}

#[test]
fn destination_with_an_output_file_is_that_file() {
    assert_eq!(destination(false, true, false), Ok(Destination::File));
    assert_eq!(destination(true, true, false), Ok(Destination::File));
}

#[test]
fn destination_in_place_needs_an_earlier_export() {
    assert_eq!(destination(true, false, true), Ok(Destination::InPlace));
    assert_eq!(destination(false, false, true), Err(ConfigError::InPlaceWithoutMerge));
    assert_eq!(destination(false, true, true), Err(ConfigError::InPlaceWithoutMerge));
}

#[test]
fn destination_in_place_excludes_an_output_file() {
    assert_eq!(destination(true, true, true), Err(ConfigError::InPlaceWithOutput));
}

#[test]
fn finish_promotes_only_a_merge_in_place_that_succeeded() {
    assert_eq!(Destination::InPlace.finish(true), Finish::Promote);
    assert_eq!(Destination::InPlace.finish(false), Finish::Discard);
}

#[test]
fn finish_only_closes_the_other_destinations() {
    assert_eq!(Destination::File.finish(true), Finish::Close);
    assert_eq!(Destination::File.finish(false), Finish::Close);
    assert_eq!(Destination::Stdout.finish(true), Finish::Close);
    assert_eq!(Destination::Stdout.finish(false), Finish::Close);
}

#[test]
fn config_errors_say_what_is_wrong() {
    assert_eq!(
        ConfigError::InPlaceWithoutMerge.message(),
        "writing in place needs an earlier export to merge with"
    );
    assert_eq!(
        ConfigError::InPlaceWithOutput.message(),
        "writing in place cannot be combined with an output file"
    );
}
