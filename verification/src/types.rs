//! Newtype wrappers for feature names and lists of feature names.

use vstd::prelude::*;
use vstd::string::StringExecFns;

verus! {

/// One feature name of a package.
#[derive(Debug)]
pub struct Feature(pub String);

impl Clone for Feature {
    fn clone(&self) -> (r: Self)
        ensures
            r == *self,
    {
        Feature(self.0.clone())
    }
}

impl View for Feature {
    type V = Seq<char>;

    open spec fn view(&self) -> Seq<char> {
        self.0@
    }
}

impl Feature {
    /// Whether this feature has the given name.
    pub fn is(&self, name: &str) -> (r: bool)
        ensures
            r == (self@ == name@),
    {
        self.0 == name.to_owned()
    }

    /// Whether two features carry the same name.
    pub fn same(&self, other: &Feature) -> (r: bool)
        ensures
            r == (self@ == other@),
    {
        self.0 == other.0
    }
}

/// An ordered list of features. Depending on context it stands for a
/// candidate universe (ordered, duplicate-free) or for one feature set
/// (membership is what matters, not order).
#[derive(Debug)]
pub struct FeatureList(pub Vec<Feature>);

impl Clone for FeatureList {
    fn clone(&self) -> (r: Self)
        ensures
            r.0@ == self.0@,
            r@ == self@,
    {
        let mut v: Vec<Feature> = Vec::new();
        let mut i: usize = 0;
        while i < self.0.len()
            invariant
                i <= self.0@.len(),
                v@ =~= self.0@.take(i as int),
            decreases self.0@.len() - i,
        {
            v.push(self.0[i].clone());
            assert(v@ =~= self.0@.take(i + 1));
            i += 1;
        }
        assert(v@ =~= self.0@);
        let r = FeatureList(v);
        assert(r@ =~= self@);
        r
    }
}

impl View for FeatureList {
    type V = Seq<Seq<char>>;

    open spec fn view(&self) -> Seq<Seq<char>> {
        Seq::new(self.0@.len(), |i: int| self.0@[i]@)
    }
}

/// The set of names a feature list holds, ignoring order and multiplicity.
pub open spec fn names_of(fl: Seq<Seq<char>>) -> Set<Seq<char>> {
    fl.to_set()
}

/// A list with no feature named twice.
pub open spec fn distinct_features(fl: Seq<Seq<char>>) -> bool {
    forall|i: int, j: int| 0 <= i < j < fl.len() ==> fl[i] != fl[j]
}

/// The names joined by commas, in list order.
pub open spec fn comma_join(fl: Seq<Seq<char>>) -> Seq<char>
    decreases fl.len(),
{
    if fl.len() == 0 {
        Seq::empty()
    } else if fl.len() == 1 {
        fl[0]
    } else {
        comma_join(fl.drop_last()) + ","@ + fl.last()
    }
}

/// Appending one name to a list inserts it into the list's name set.
pub proof fn lemma_names_push(fl: Seq<Seq<char>>, f: Seq<char>)
    ensures
        names_of(fl.push(f)) =~= names_of(fl).insert(f),
{
    assert forall|x: Seq<char>| names_of(fl.push(f)).contains(x) implies names_of(fl).insert(
        f,
    ).contains(x) by {
        let i = choose|i: int| 0 <= i < fl.push(f).len() && fl.push(f)[i] == x;
        if i < fl.len() {
            assert(fl[i] == x);
        }
    }
    assert forall|x: Seq<char>| names_of(fl).insert(f).contains(x) implies names_of(
        fl.push(f),
    ).contains(x) by {
        if x == f {
            assert(fl.push(f)[fl.len() as int] == x);
        } else {
            let i = choose|i: int| 0 <= i < fl.len() && fl[i] == x;
            assert(fl.push(f)[i] == x);
        }
    }
}

impl FeatureList {
    pub fn new() -> (r: FeatureList)
        ensures
            r@ =~= Seq::<Seq<char>>::empty(),
    {
        FeatureList(Vec::new())
    }

    pub fn len(&self) -> (r: usize)
        ensures
            r == self@.len(),
    {
        self.0.len()
    }

    pub fn is_empty(&self) -> (r: bool)
        ensures
            r == (self@.len() == 0),
    {
        self.0.len() == 0
    }

    pub fn get(&self, i: usize) -> (r: &Feature)
        requires
            i < self@.len(),
        ensures
            *r == self.0@[i as int],
            r@ == self@[i as int],
    {
        &self.0[i]
    }

    pub fn push(&mut self, f: Feature)
        ensures
            final(self)@ =~= old(self)@.push(f@),
    {
        self.0.push(f);
    }

    /// Membership by name.
    pub fn contains(&self, name: &Feature) -> (r: bool)
        ensures
            r == names_of(self@).contains(name@),
    {
        let mut i: usize = 0;
        while i < self.0.len()
            invariant
                i <= self@.len(),
                forall|k: int| 0 <= k < i ==> self@[k] != name@,
            decreases self@.len() - i,
        {
            if self.0[i].same(name) {
                assert(names_of(self@).contains(name@)) by {
                    assert(self@[i as int] == name@);
                }
                return true;
            }
            i += 1;
        }
        assert(forall|k: int| 0 <= k < self@.len() ==> self@[k] != name@);
        assert(!names_of(self@).contains(name@));
        false
    }

    /// Membership by name, given as a plain string.
    pub fn contains_name(&self, name: &str) -> (r: bool)
        ensures
            r == names_of(self@).contains(name@),
    {
        let mut i: usize = 0;
        while i < self.0.len()
            invariant
                i <= self@.len(),
                forall|k: int| 0 <= k < i ==> self@[k] != name@,
            decreases self@.len() - i,
        {
            if self.0[i].is(name) {
                assert(names_of(self@).contains(name@)) by {
                    assert(self@[i as int] == name@);
                }
                return true;
            }
            i += 1;
        }
        assert(forall|k: int| 0 <= k < self@.len() ==> self@[k] != name@);
        assert(!names_of(self@).contains(name@));
        false
    }

    /// The feature names joined by commas, in list order: the shape handed
    /// to the build command's `--features` argument and used in rule names.
    pub fn comma_separated(&self) -> (r: String)
        ensures
            r@ == comma_join(self@),
    {
        let mut s = String::new();
        if self.0.len() == 0 {
            assert(s@ =~= comma_join(self@));
            return s;
        }
        s.append(self.0[0].0.as_str());
        assert(s@ =~= comma_join(self@.take(1))) by {
            assert(self@.take(1)[0] == self@[0]);
        }
        let mut i: usize = 1;
        while i < self.0.len()
            invariant
                1 <= i <= self@.len(),
                self@.len() == self.0@.len(),
                s@ == comma_join(self@.take(i as int)),
            decreases self@.len() - i,
        {
            s.append(",");
            s.append(self.0[i].0.as_str());
            assert(self@.take(i + 1).drop_last() =~= self@.take(i as int));
            assert(self@.take(i + 1).last() == self@[i as int]);
            assert(s@ =~= comma_join(self@.take(i + 1)));
            i += 1;
        }
        assert(self@.take(self@.len() as int) =~= self@);
        s
    }

    /// Appends the feature unless a feature of the same name is already
    /// present, so that the list stays duplicate-free.
    pub fn push_if_absent(&mut self, f: Feature)
        ensures
            names_of(final(self)@) =~= names_of(old(self)@).insert(f@),
            final(self)@ == if names_of(old(self)@).contains(f@) {
                old(self)@
            } else {
                old(self)@.push(f@)
            },
            distinct_features(old(self)@) ==> distinct_features(final(self)@),
    {
        if !self.contains(&f) {
            let ghost pre = self@;
            self.0.push(f);
            assert(self@ =~= pre.push(f@));
            proof {
                lemma_names_push(pre, f@);
            }
        } else {
            assert(names_of(self@) =~= names_of(self@).insert(f@));
        }
    }
}

} // verus!
