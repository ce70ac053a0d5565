//! The package model the engine works on: plain values decoded from the
//! build tool's metadata by the caller, plus the per-package declarative
//! configuration, and its validation.

use crate::errors::Errors;
use crate::types::{names_of, Feature, FeatureList};
use vstd::prelude::*;
use vstd::string::{StrSliceExecFns, StringExecFns};

verus! {

/// One dependency of a package.
#[derive(Debug)]
pub struct Dependency {
    pub name: String,
    pub rename: Option<String>,
    pub optional: bool,
}

/// The feature name an optional dependency surfaces as: its rename if it
/// has one, else its declared name.
pub open spec fn dep_feature_name(d: Dependency) -> Seq<char> {
    match d.rename {
        Option::Some(r) => r@,
        Option::None => d.name@,
    }
}

impl Dependency {
    /// The feature an optional dependency activates; none for a mandatory
    /// dependency.
    pub fn as_feature(&self) -> (r: Option<Feature>)
        ensures
            match r {
                Option::Some(f) => self.optional && f@ == dep_feature_name(*self),
                Option::None => !self.optional,
            },
    {
        if self.optional {
            match &self.rename {
                Option::Some(r) => Some(Feature(r.clone())),
                Option::None => Some(Feature(self.name.clone())),
            }
        } else {
            None
        }
    }
}

/// One entry of the declared feature map: a feature and the features or
/// optional dependencies it implies.
#[derive(Debug)]
pub struct FeatureEntry {
    pub name: Feature,
    pub implied: FeatureList,
}

/// A package with its metadata and declarative configuration, all plain
/// values. An absent `skip_optional_dependencies` key differs from an
/// explicit `false`: only a present key conflicts with `allowlist`.
#[derive(Debug)]
pub struct Package {
    pub id: String,
    pub name: String,
    pub manifest_path: String,
    pub dependencies: Vec<Dependency>,
    pub features: FeatureList,
    pub feature_map: Vec<FeatureEntry>,
    pub skip_feature_sets: Vec<FeatureList>,
    pub skip_optional_dependencies: Option<bool>,
    pub allowlist: FeatureList,
    pub denylist: FeatureList,
    pub extra_features: FeatureList,
    pub always_include_features: FeatureList,
    pub max_combination_size: Option<usize>,
    pub rules: Vec<String>,
}

/// A non-empty allowlist excludes every other setting.
pub open spec fn config_conflict(p: Package) -> bool {
    p.allowlist@.len() > 0 && (p.always_include_features@.len() > 0 || p.denylist@.len() > 0
        || p.extra_features@.len() > 0 || p.skip_optional_dependencies is Some
        || p.max_combination_size is Some)
}

/// Some feature stands in the denylist and in `always_include_features`.
pub open spec fn deny_always_overlap(p: Package) -> bool {
    exists|i: int|
        0 <= i < p.always_include_features@.len() && names_of(p.denylist@).contains(
            #[trigger] p.always_include_features@[i],
        )
}

impl Package {
    /// Checks the declarative configuration: an allowlist excludes every
    /// other setting, and no always-included feature may be denylisted.
    pub fn validate(&self) -> (r: Result<(), Errors>)
        ensures
            match r {
                Result::Ok(()) => !config_conflict(*self) && !deny_always_overlap(*self),
                Result::Err(e) => (config_conflict(*self) || deny_always_overlap(*self))
                    && e is ValidationFailed,
            },
    {
        if !self.allowlist.is_empty() {
            if !self.always_include_features.is_empty() {
                return Err(self.conflict_error("always_include_features"));
            }
            if !self.denylist.is_empty() {
                return Err(self.conflict_error("denylist"));
            }
            if !self.extra_features.is_empty() {
                return Err(self.conflict_error("extra_features"));
            }
            if self.skip_optional_dependencies.is_some() {
                return Err(self.conflict_error("skip_optional_dependencies"));
            }
            if self.max_combination_size.is_some() {
                return Err(self.conflict_error("max_combination_size"));
            }
        }
        let mut i: usize = 0;
        while i < self.always_include_features.len()
            invariant
                i <= self.always_include_features@.len(),
                forall|k: int|
                    0 <= k < i ==> !names_of(self.denylist@).contains(
                        #[trigger] self.always_include_features@[k],
                    ),
            decreases self.always_include_features@.len() - i,
        {
            if self.denylist.contains(self.always_include_features.get(i)) {
                let mut m = String::new();
                m.append("Package ");
                m.append(self.name.as_str());
                m.append(" has a feature in both `always_include_features` and `denylist`");
                return Err(Errors::ValidationFailed { message: m });
            }
            i += 1;
        }
        Ok(())
    }

    /// The error for a setting that conflicts with `allowlist`.
    fn conflict_error(&self, key: &str) -> (r: Errors)
        ensures
            r is ValidationFailed,
    {
        let mut m = String::new();
        m.append("Package ");
        m.append(self.name.as_str());
        m.append(" has both `allowlist` and `");
        m.append(key);
        m.append("` keys");
        Errors::ValidationFailed { message: m }
    }

    /// Whether optional dependencies are left out of the universe.
    pub fn skips_optional_dependencies(&self) -> (r: bool)
        ensures
            r == skip_opt(*self),
    {
        match self.skip_optional_dependencies {
            Option::Some(b) => b,
            Option::None => false,
        }
    }
}

/// Whether the configuration asks to skip optional dependencies.
pub open spec fn skip_opt(p: Package) -> bool {
    match p.skip_optional_dependencies {
        Option::Some(b) => b,
        Option::None => false,
    }
}

/// The whole metadata tree: the workspace and its packages.
#[derive(Debug)]
pub struct MetaData {
    pub workspace_root: String,
    pub workspace_members: Vec<String>,
    pub packages: Vec<Package>,
}

/// The position after the last slash of a path, or 0 when it has none.
pub open spec fn after_last_slash(s: Seq<char>, i: int) -> int
    decreases i,
{
    if i <= 0 {
        0
    } else if s[i - 1] == '/' {
        i
    } else {
        after_last_slash(s, i - 1)
    }
}

/// The directory part of a path: everything before its last slash.
pub open spec fn dir_of(s: Seq<char>) -> Seq<char> {
    let cut = after_last_slash(s, s.len() as int);
    if cut > 0 {
        s.subrange(0, cut - 1)
    } else {
        Seq::empty()
    }
}

proof fn lemma_after_last_slash_bounds(s: Seq<char>, i: int)
    requires
        0 <= i <= s.len(),
    ensures
        0 <= after_last_slash(s, i) <= i,
    decreases i,
{
    if i > 0 && s[i - 1] != '/' {
        lemma_after_last_slash_bounds(s, i - 1);
    }
}

/// The directory a manifest path points into, with slashes as separators.
pub fn manifest_dir_of(path: &String) -> (r: String)
    ensures
        r@ == dir_of(path@),
{
    let s = path.as_str();
    let n = s.unicode_len();
    let mut i: usize = n;
    while i > 0 && s.get_char(i - 1) != '/'
        invariant
            i <= n,
            n == path@.len(),
            s@ == path@,
            after_last_slash(path@, n as int) == after_last_slash(path@, i as int),
        decreases i,
    {
        i -= 1;
    }
    proof {
        lemma_after_last_slash_bounds(path@, i as int);
    }
    if i > 0 {
        assert(after_last_slash(path@, i as int) == i);
        s.substring_char(0, i - 1).to_owned()
    } else {
        assert(after_last_slash(path@, 0) == 0);
        String::new()
    }
}

/// Whether the list holds a string of the given text.
fn contains_string(list: &Vec<String>, wanted: &String) -> (r: bool)
    ensures
        r == (exists|k: int| 0 <= k < list@.len() && (#[trigger] list@[k])@ == wanted@),
{
    let mut i: usize = 0;
    while i < list.len()
        invariant
            i <= list@.len(),
            forall|k: int| 0 <= k < i ==> (#[trigger] list@[k])@ != wanted@,
        decreases list@.len() - i,
    {
        if list[i] == *wanted {
            assert(list@[i as int]@ == wanted@);
            return true;
        }
        i += 1;
    }
    false
}

impl MetaData {
    /// The indices of the packages a run works on: from the workspace
    /// root, every workspace member; from a package directory, the single
    /// package whose manifest lives there, or an error when none does.
    pub fn determine_packages_to_run_on(&self, current_dir: &String) -> (r: Result<
        Vec<usize>,
        Errors,
    >)
        ensures
            ({
                let members = Seq::new(
                    self.workspace_members@.len(),
                    |k: int| self.workspace_members@[k]@,
                );
                if current_dir@ == self.workspace_root@ {
                    match r {
                        Result::Ok(picked) => (forall|t: int|
                            0 <= t < picked@.len() ==> (#[trigger] picked@[t])
                                < self.packages@.len() && members.contains(
                                self.packages@[picked@[t] as int].id@,
                            )) && (forall|i: int, j: int|
                            0 <= i < j < picked@.len() ==> picked@[i] < picked@[j]) && (forall|
                            i: int,
                        |
                            0 <= i < self.packages@.len() && members.contains(
                                (#[trigger] self.packages@[i]).id@,
                            ) ==> picked@.contains(i as usize)),
                        Result::Err(_) => false,
                    }
                } else {
                    match r {
                        Result::Ok(picked) => picked@.len() == 1 && picked@[0]
                            < self.packages@.len() && dir_of(
                            self.packages@[picked@[0] as int].manifest_path@,
                        ) == current_dir@ && (forall|i: int|
                            0 <= i < picked@[0] ==> dir_of(
                                (#[trigger] self.packages@[i]).manifest_path@,
                            ) != current_dir@),
                        Result::Err(e) => e is ValidationFailed && (forall|i: int|
                            0 <= i < self.packages@.len() ==> dir_of(
                                (#[trigger] self.packages@[i]).manifest_path@,
                            ) != current_dir@),
                    }
                }
            }),
    {
        let ghost members = Seq::new(
            self.workspace_members@.len(),
            |k: int| self.workspace_members@[k]@,
        );
        if *current_dir == self.workspace_root {
            let mut picked: Vec<usize> = Vec::new();
            let mut i: usize = 0;
            while i < self.packages.len()
                invariant
                    i <= self.packages@.len(),
                    members == Seq::new(
                        self.workspace_members@.len(),
                        |k: int| self.workspace_members@[k]@,
                    ),
                    forall|t: int|
                        0 <= t < picked@.len() ==> (#[trigger] picked@[t]) < i && members.contains(
                            self.packages@[picked@[t] as int].id@,
                        ),
                    forall|a: int, b: int|
                        0 <= a < b < picked@.len() ==> picked@[a] < picked@[b],
                    forall|k: int|
                        0 <= k < i && members.contains((#[trigger] self.packages@[k]).id@)
                            ==> picked@.contains(k as usize),
                decreases self.packages@.len() - i,
            {
                if contains_string(&self.workspace_members, &self.packages[i].id) {
                    assert(members.contains(self.packages@[i as int].id@)) by {
                        let k = choose|k: int|
                            0 <= k < self.workspace_members@.len()
                                && (#[trigger] self.workspace_members@[k])@
                                == self.packages@[i as int].id@;
                        assert(members[k] == self.packages@[i as int].id@);
                    }
                    let ghost pre = picked@;
                    picked.push(i);
                    assert(picked@[picked@.len() - 1] == i);
                    assert(forall|k: int|
                        0 <= k < pre.len() ==> #[trigger] picked@[k] == pre[k]);
                    assert forall|k: int|
                        0 <= k < i + 1 && members.contains(
                            (#[trigger] self.packages@[k]).id@,
                        ) implies picked@.contains(k as usize) by {
                        if k < i {
                            let t = choose|t: int| 0 <= t < pre.len() && pre[t] == k as usize;
                            assert(picked@[t] == k as usize);
                        } else {
                            assert(picked@[picked@.len() - 1] == k as usize);
                        }
                    }
                } else {
                    assert(!members.contains(self.packages@[i as int].id@)) by {
                        if members.contains(self.packages@[i as int].id@) {
                            let k = choose|k: int|
                                0 <= k < members.len() && members[k] == self.packages@[i as int].id@;
                            assert(self.workspace_members@[k]@ == self.packages@[i as int].id@);
                        }
                    }
                }
                i += 1;
            }
            Ok(picked)
        } else {
            let mut i: usize = 0;
            while i < self.packages.len()
                invariant
                    i <= self.packages@.len(),
                    current_dir@ != self.workspace_root@,
                    forall|k: int|
                        0 <= k < i ==> dir_of((#[trigger] self.packages@[k]).manifest_path@)
                            != current_dir@,
                decreases self.packages@.len() - i,
            {
                let dir = manifest_dir_of(&self.packages[i].manifest_path);
                if dir == *current_dir {
                    let mut picked: Vec<usize> = Vec::new();
                    picked.push(i);
                    assert(picked@.len() == 1 && picked@[0] == i);
                    return Ok(picked);
                }
                i += 1;
            }
            let mut m = String::new();
            m.append("could not find cargo package in metadata");
            Err(Errors::ValidationFailed { message: m })
        }
    }
}

} // verus!
