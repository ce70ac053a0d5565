//! The command-facing helpers: which cargo subcommand runs per feature
//! set, where each subcommand comes from, and the argument lists handed to
//! the caller that spawns the processes.

use crate::types::{comma_join, FeatureList};
use vstd::prelude::*;
use vstd::string::StringExecFns;

verus! {

/// Where a cargo subcommand comes from: cargo itself, a rustup component,
/// or a third-party cargo binary.
#[derive(Copy, Clone, Debug)]
pub enum CargoCommandOrigin {
    FirstParty,
    RustUpComponent { name: &'static str, help_url: &'static str },
    ThirdPartyCrate { name: &'static str, help_url: &'static str },
}

/// The cargo subcommand run once per feature set.
#[derive(Copy, Clone, Debug)]
pub enum CargoCommand {
    Build,
    Check,
    Test,
    Bench,
    MiriTest,
    Udeps,
    Tarpaulin,
    Nextest,
    Clippy,
}

/// The arguments each subcommand puts after `cargo`.
pub open spec fn cargo_arguments_of(c: CargoCommand) -> Seq<Seq<char>> {
    match c {
        CargoCommand::Build => seq!["build"@],
        CargoCommand::Check => seq!["check"@],
        CargoCommand::Test => seq!["test"@],
        CargoCommand::Bench => seq!["bench"@],
        CargoCommand::MiriTest => seq!["miri"@, "test"@],
        CargoCommand::Udeps => seq!["udeps"@],
        CargoCommand::Tarpaulin => seq!["tarpaulin"@],
        CargoCommand::Nextest => seq!["nextest"@, "run"@],
        CargoCommand::Clippy => seq!["clippy"@],
    }
}

/// The label each subcommand prints before a run.
pub open spec fn label_of(c: CargoCommand) -> Seq<char> {
    match c {
        CargoCommand::Build => "    Building "@,
        CargoCommand::Check => "    Checking "@,
        CargoCommand::Test => "     Testing "@,
        CargoCommand::Bench => "     Benching "@,
        CargoCommand::MiriTest => "     Testing with Miri "@,
        CargoCommand::Udeps => "     Analyzing with Udeps "@,
        CargoCommand::Tarpaulin => "     Testing with Tarpaulin "@,
        CargoCommand::Nextest => "     Testing with NexTest "@,
        CargoCommand::Clippy => "    Checking styling"@,
    }
}

impl CargoCommand {
    /// The arguments to put after `cargo` for this subcommand.
    pub fn to_cargo_arguments(&self) -> (r: Vec<&'static str>)
        ensures
            r@.len() == cargo_arguments_of(*self).len(),
            forall|i: int|
                0 <= i < r@.len() ==> (#[trigger] r@[i])@ == cargo_arguments_of(*self)[i],
    {
        match self {
            CargoCommand::Build => {
                let r = vec!["build"];
                assert(r@[0]@ == cargo_arguments_of(*self)[0]);
                r
            },
            CargoCommand::Check => {
                let r = vec!["check"];
                assert(r@[0]@ == cargo_arguments_of(*self)[0]);
                r
            },
            CargoCommand::Test => {
                let r = vec!["test"];
                assert(r@[0]@ == cargo_arguments_of(*self)[0]);
                r
            },
            CargoCommand::Bench => {
                let r = vec!["bench"];
                assert(r@[0]@ == cargo_arguments_of(*self)[0]);
                r
            },
            CargoCommand::MiriTest => {
                let r = vec!["miri", "test"];
                assert(r@[0]@ == cargo_arguments_of(*self)[0]);
                assert(r@[1]@ == cargo_arguments_of(*self)[1]);
                r
            },
            CargoCommand::Udeps => {
                let r = vec!["udeps"];
                assert(r@[0]@ == cargo_arguments_of(*self)[0]);
                r
            },
            CargoCommand::Tarpaulin => {
                let r = vec!["tarpaulin"];
                assert(r@[0]@ == cargo_arguments_of(*self)[0]);
                r
            },
            CargoCommand::Nextest => {
                let r = vec!["nextest", "run"];
                assert(r@[0]@ == cargo_arguments_of(*self)[0]);
                assert(r@[1]@ == cargo_arguments_of(*self)[1]);
                r
            },
            CargoCommand::Clippy => {
                let r = vec!["clippy"];
                assert(r@[0]@ == cargo_arguments_of(*self)[0]);
                r
            },
        }
    }

    /// The label shown before running this subcommand.
    pub fn as_label(&self) -> (r: &'static str)
        ensures
            r@ == label_of(*self),
    {
        match self {
            CargoCommand::Build => "    Building ",
            CargoCommand::Check => "    Checking ",
            CargoCommand::Test => "     Testing ",
            CargoCommand::Bench => "     Benching ",
            CargoCommand::MiriTest => "     Testing with Miri ",
            CargoCommand::Udeps => "     Analyzing with Udeps ",
            CargoCommand::Tarpaulin => "     Testing with Tarpaulin ",
            CargoCommand::Nextest => "     Testing with NexTest ",
            CargoCommand::Clippy => "    Checking styling",
        }
    }

    /// Where this subcommand comes from, so that the caller can check it
    /// is installed before running it.
    pub fn origin(&self) -> (r: CargoCommandOrigin)
        ensures
            r == command_origin(*self),
    {
        match self {
            CargoCommand::Build => CargoCommandOrigin::FirstParty,
            CargoCommand::Check => CargoCommandOrigin::FirstParty,
            CargoCommand::Test => CargoCommandOrigin::FirstParty,
            CargoCommand::Bench => CargoCommandOrigin::FirstParty,
            CargoCommand::MiriTest => CargoCommandOrigin::RustUpComponent {
                name: "miri",
                help_url: "https://github.com/rust-lang/miri",
            },
            CargoCommand::Udeps => CargoCommandOrigin::ThirdPartyCrate {
                name: "cargo-udeps",
                help_url: "https://github.com/est31/cargo-udeps",
            },
            CargoCommand::Tarpaulin => CargoCommandOrigin::ThirdPartyCrate {
                name: "cargo-tarpaulin",
                help_url: "https://github.com/xd009642/tarpaulin",
            },
            CargoCommand::Nextest => CargoCommandOrigin::ThirdPartyCrate {
                name: "cargo-nextest",
                help_url: "https://github.com/nextest-rs/nextest",
            },
            CargoCommand::Clippy => CargoCommandOrigin::FirstParty,
        }
    }
}

/// The fixed origin table of the subcommands.
pub open spec fn command_origin(c: CargoCommand) -> CargoCommandOrigin {
    match c {
        CargoCommand::Build => CargoCommandOrigin::FirstParty,
        CargoCommand::Check => CargoCommandOrigin::FirstParty,
        CargoCommand::Test => CargoCommandOrigin::FirstParty,
        CargoCommand::Bench => CargoCommandOrigin::FirstParty,
        CargoCommand::MiriTest => CargoCommandOrigin::RustUpComponent {
            name: "miri",
            help_url: "https://github.com/rust-lang/miri",
        },
        CargoCommand::Udeps => CargoCommandOrigin::ThirdPartyCrate {
            name: "cargo-udeps",
            help_url: "https://github.com/est31/cargo-udeps",
        },
        CargoCommand::Tarpaulin => CargoCommandOrigin::ThirdPartyCrate {
            name: "cargo-tarpaulin",
            help_url: "https://github.com/xd009642/tarpaulin",
        },
        CargoCommand::Nextest => CargoCommandOrigin::ThirdPartyCrate {
            name: "cargo-nextest",
            help_url: "https://github.com/nextest-rs/nextest",
        },
        CargoCommand::Clippy => CargoCommandOrigin::FirstParty,
    }
}

/// Whether two strings hold the same text.
fn str_eq(a: &String, b: &str) -> (r: bool)
    ensures
        r == (a@ == b@),
{
    *a == b.to_owned()
}

/// The position of the first occurrence of `item`, if any.
pub open spec fn first_pos(slice: Seq<Seq<char>>, item: Seq<char>, i: int) -> int
    decreases slice.len() - i,
{
    if i < 0 || i >= slice.len() {
        -1
    } else if slice[i] == item {
        i
    } else {
        first_pos(slice, item, i + 1)
    }
}

pub proof fn lemma_first_pos_bounds(slice: Seq<Seq<char>>, item: Seq<char>, i: int)
    requires
        0 <= i <= slice.len(),
    ensures
        first_pos(slice, item, i) == -1 || i <= first_pos(slice, item, i) < slice.len(),
    decreases slice.len() - i,
{
    if i < slice.len() && slice[i] != item {
        lemma_first_pos_bounds(slice, item, i + 1);
    }
}

/// Splits the argument list at the first occurrence of `item`: the part
/// before it, and the part from it on (empty when absent). The two
/// parts concatenated give back the whole list.
pub fn split_slice(slice: &Vec<String>, item: &str) -> (r: (Vec<String>, Vec<String>))
    ensures
        ({
            let views = Seq::new(slice@.len(), |i: int| slice@[i]@);
            let pos = first_pos(views, item@, 0);
            &&& Seq::new(r.0@.len(), |i: int| r.0@[i]@) + Seq::new(
                r.1@.len(),
                |i: int| r.1@[i]@,
            ) =~= views
            &&& (pos == -1 ==> r.0@.len() == views.len() && r.1@.len() == 0)
            &&& (pos >= 0 ==> 0 <= pos <= views.len() && r.0@.len() == pos && r.1@.len()
                == views.len() - pos && Seq::new(r.0@.len(), |i: int| r.0@[i]@) =~= views.subrange(
                0,
                pos,
            ) && Seq::new(r.1@.len(), |i: int| r.1@[i]@) =~= views.subrange(
                pos,
                views.len() as int,
            ))
        }),
{
    let ghost views = Seq::new(slice@.len(), |i: int| slice@[i]@);
    let mut before: Vec<String> = Vec::new();
    let mut i: usize = 0;
    while i < slice.len()
        invariant
            i <= slice@.len(),
            views == Seq::new(slice@.len(), |k: int| slice@[k]@),
            before@.len() == i,
            forall|k: int| 0 <= k < i ==> (#[trigger] before@[k])@ == views[k],
            forall|k: int| 0 <= k < i ==> views[k] != item@,
            first_pos(views, item@, 0) == first_pos(views, item@, i as int),
        decreases slice@.len() - i,
    {
        if str_eq(&slice[i], item) {
            assert(first_pos(views, item@, i as int) == i);
            let mut after: Vec<String> = Vec::new();
            let mut j = i;
            while j < slice.len()
                invariant
                    i <= j <= slice@.len(),
                    views == Seq::new(slice@.len(), |k: int| slice@[k]@),
                    after@.len() == j - i,
                    forall|k: int| 0 <= k < j - i ==> (#[trigger] after@[k])@ == views[i + k],
                decreases slice@.len() - j,
            {
                after.push(slice[j].clone());
                j += 1;
            }
            assert(Seq::new(before@.len(), |k: int| before@[k]@) + Seq::new(
                after@.len(),
                |k: int| after@[k]@,
            ) =~= views);
            return (before, after);
        }
        before.push(slice[i].clone());
        i += 1;
    }
    assert(first_pos(views, item@, i as int) == -1);
    let after: Vec<String> = Vec::new();
    assert(Seq::new(before@.len(), |k: int| before@[k]@) + Seq::new(
        after@.len(),
        |k: int| after@[k]@,
    ) =~= views);
    (before, after)
}

/// The argument list of one run: the caller's arguments up to `--`, then
/// `--no-default-features`, then `--features` with the comma-joined set
/// when it is not empty, then the rest from `--` on.
pub fn build_cargo_args(feature_set: &FeatureList, cargo_args: &Vec<String>) -> (r: Vec<String>)
    ensures
        ({
            let views = Seq::new(cargo_args@.len(), |i: int| cargo_args@[i]@);
            let pos = first_pos(views, "--"@, 0);
            let before = if pos == -1 {
                views
            } else {
                views.subrange(0, if 0 <= pos <= views.len() {
                    pos
                } else {
                    0
                })
            };
            let after = if pos == -1 {
                Seq::<Seq<char>>::empty()
            } else {
                views.subrange(
                    if 0 <= pos <= views.len() {
                        pos
                    } else {
                        0
                    },
                    views.len() as int,
                )
            };
            let features = if feature_set@.len() == 0 {
                Seq::<Seq<char>>::empty()
            } else {
                seq!["--features"@, comma_join(feature_set@)]
            };
            Seq::new(r@.len(), |i: int| r@[i]@) =~= before + seq!["--no-default-features"@]
                + features + after
        }),
{
    let ghost views = Seq::new(cargo_args@.len(), |i: int| cargo_args@[i]@);
    let (before, after) = split_slice(cargo_args, "--");
    let ghost before_v = Seq::new(before@.len(), |i: int| before@[i]@);
    let ghost after_v = Seq::new(after@.len(), |i: int| after@[i]@);
    let mut r: Vec<String> = Vec::new();
    let mut i: usize = 0;
    while i < before.len()
        invariant
            i <= before@.len(),
            before_v == Seq::new(before@.len(), |k: int| before@[k]@),
            r@.len() == i,
            forall|k: int| 0 <= k < i ==> (#[trigger] r@[k])@ == before_v[k],
        decreases before@.len() - i,
    {
        r.push(before[i].clone());
        i += 1;
    }
    assert(Seq::new(r@.len(), |k: int| r@[k]@) =~= before_v);
    let ghost features_v = if feature_set@.len() == 0 {
        Seq::<Seq<char>>::empty()
    } else {
        seq!["--features"@, comma_join(feature_set@)]
    };
    r.push("--no-default-features".to_owned());
    if !feature_set.is_empty() {
        r.push("--features".to_owned());
        r.push(feature_set.comma_separated());
    }
    let ghost stage2 = Seq::new(r@.len(), |k: int| r@[k]@);
    assert(stage2 =~= before_v + seq!["--no-default-features"@] + features_v);
    let mut j: usize = 0;
    while j < after.len()
        invariant
            j <= after@.len(),
            after_v == Seq::new(after@.len(), |k: int| after@[k]@),
            r@.len() == stage2.len() + j,
            forall|k: int| 0 <= k < stage2.len() ==> (#[trigger] r@[k])@ == stage2[k],
            forall|k: int|
                stage2.len() <= k < stage2.len() + j ==> (#[trigger] r@[k])@ == after_v[k
                    - stage2.len()],
        decreases after@.len() - j,
    {
        r.push(after[j].clone());
        j += 1;
    }
    assert(Seq::new(r@.len(), |k: int| r@[k]@) =~= stage2 + after_v);
    proof {
        let pos = first_pos(views, "--"@, 0);
        lemma_first_pos_bounds(views, "--"@, 0);
        assert(before_v + after_v =~= views);
        if pos == -1 {
            assert(after_v.len() == 0);
            assert(before_v =~= views);
            assert(after_v =~= Seq::<Seq<char>>::empty());
        } else {
            assert(before_v.len() == pos);
            assert forall|k: int| 0 <= k < pos implies before_v[k] == views[k] by {
                assert((before_v + after_v)[k] == views[k]);
            }
            assert(before_v =~= views.subrange(0, pos));
            assert forall|k: int| 0 <= k < after_v.len() implies after_v[k] == views[pos + k] by {
                assert((before_v + after_v)[pos + k] == views[pos + k]);
            }
            assert(after_v =~= views.subrange(pos, views.len() as int));
        }
        assert(Seq::new(r@.len(), |k: int| r@[k]@) =~= before_v
            + seq!["--no-default-features"@] + features_v + after_v);
    }
    r
}

} // verus!
