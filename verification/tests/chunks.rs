use cargo_all_features::chunker::chunk_bounds;
use cargo_all_features::errors::Errors;
use cargo_all_features::runner::{build_cargo_args, split_slice, CargoCommand, CargoCommandOrigin};
use cargo_all_features::strutil::{i32_to_string, u64_to_string};
use cargo_all_features::types::{Feature, FeatureList};

#[test]
fn chunks_of_ten_items_in_three() {
    // Ten items in three chunks: size is the ceiling, four, and the last
    // chunk holds the remaining two items.
    assert_eq!(chunk_bounds(10, 3, 1).unwrap(), Some((0, 4)));
    assert_eq!(chunk_bounds(10, 3, 2).unwrap(), Some((4, 8)));
    assert_eq!(chunk_bounds(10, 3, 3).unwrap(), Some((8, 10)));
}

#[test]
fn chunk_beyond_produced_is_empty_not_an_error() {
    // Nine items in four chunks cut by size three make only three chunks;
    // asking for the fourth selects nothing.
    assert_eq!(chunk_bounds(9, 4, 4).unwrap(), None);
    assert_eq!(chunk_bounds(9, 4, 3).unwrap(), Some((6, 9)));
}

#[test]
fn chunk_number_out_of_range_is_an_error() {
    assert!(matches!(
        chunk_bounds(10, 3, 4),
        Err(Errors::InvalidChunkNumber { chunk: 4, chunks: 3 })
    ));
    assert!(matches!(
        chunk_bounds(10, 3, 0),
        Err(Errors::InvalidChunkNumber { chunk: 0, chunks: 3 })
    ));
}

#[test]
fn empty_work_list_has_no_chunks() {
    assert_eq!(chunk_bounds(0, 3, 1).unwrap(), None);
}

#[test]
fn chunk_error_message_text() {
    let e = Errors::InvalidChunkNumber { chunk: 4, chunks: 3 };
    assert_eq!(
        e.message(),
        "the input --chunks was 3 and the current chunk number (--chunk) was 4. the chunk number is not allowed to be bigger than the total amount of chunks and not smaller then 1"
    );
}

#[test]
fn error_messages_carry_their_detail() {
    let e = Errors::ValidationFailed { message: "broken".to_owned() };
    assert_eq!(e.message(), "validation of data failed. broken");
    let e = Errors::NoValidFeatureSets { report: "initial #sets 4".to_owned() };
    assert_eq!(
        e.message(),
        "no feature set validates against the given rules: initial #sets 4"
    );
}

#[test]
fn cargo_arguments_per_command() {
    assert_eq!(CargoCommand::Build.to_cargo_arguments(), vec!["build"]);
    assert_eq!(CargoCommand::MiriTest.to_cargo_arguments(), vec!["miri", "test"]);
    assert_eq!(CargoCommand::Nextest.to_cargo_arguments(), vec!["nextest", "run"]);
    assert_eq!(CargoCommand::Test.as_label(), "     Testing ");
    assert!(matches!(CargoCommand::Check.origin(), CargoCommandOrigin::FirstParty));
    assert!(matches!(
        CargoCommand::Udeps.origin(),
        CargoCommandOrigin::ThirdPartyCrate { name: "cargo-udeps", .. }
    ));
    assert!(matches!(
        CargoCommand::MiriTest.origin(),
        CargoCommandOrigin::RustUpComponent { name: "miri", .. }
    ));
}

#[test]
fn split_slice_at_separator() {
    let args = vec![
        "--no-deps".to_owned(),
        "--".to_owned(),
        "--package".to_owned(),
        "xyz".to_owned(),
    ];
    let (before, after) = split_slice(&args, "--");
    assert_eq!(before, vec!["--no-deps".to_owned()]);
    assert_eq!(
        after,
        vec!["--".to_owned(), "--package".to_owned(), "xyz".to_owned()]
    );
    let (before, after) = split_slice(&vec!["-q".to_owned()], "--");
    assert_eq!(before, vec!["-q".to_owned()]);
    assert_eq!(after, Vec::<String>::new());
}

#[test]
fn cargo_args_for_one_feature_set() {
    let set = FeatureList(vec![Feature("A".to_owned()), Feature("B".to_owned())]);
    let args = vec!["--no-deps".to_owned(), "--".to_owned(), "-q".to_owned()];
    assert_eq!(
        build_cargo_args(&set, &args),
        vec![
            "--no-deps".to_owned(),
            "--no-default-features".to_owned(),
            "--features".to_owned(),
            "A,B".to_owned(),
            "--".to_owned(),
            "-q".to_owned(),
        ]
    );
    let empty = FeatureList(vec![]);
    assert_eq!(
        build_cargo_args(&empty, &Vec::new()),
        vec!["--no-default-features".to_owned()]
    );
}

#[test]
fn comma_joined_feature_lists() {
    let set = FeatureList(vec![
        Feature("A".to_owned()),
        Feature("B".to_owned()),
        Feature("C".to_owned()),
    ]);
    assert_eq!(set.comma_separated(), "A,B,C");
    assert_eq!(FeatureList(vec![]).comma_separated(), "");
}

#[test]
fn decimal_renderings() {
    assert_eq!(u64_to_string(0), "0");
    assert_eq!(u64_to_string(907), "907");
    assert_eq!(i32_to_string(-45), "-45");
    assert_eq!(i32_to_string(2147483647), "2147483647");
    assert_eq!(i32_to_string(-2147483648), "-2147483648");
}
