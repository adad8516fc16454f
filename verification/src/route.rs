//! The match result of a dispatch: the parameters bound while walking
//! the tree, as a mapping from parameter name to extracted value.

use vstd::prelude::*;

verus! {

/// Error from the typed parameter accessor.
#[derive(Clone, Copy, PartialEq, Eq, Structural, Debug)]
pub enum ParamError {
    /// The parameter name is not bound.
    Missing,
    /// The bound value does not parse as the requested type.
    TypeMismatch,
}

/// The mapping described by a sequence of name/value pairs; a later
/// pair with the same name wins, as repeated insertion would.
pub open spec fn params_map(pairs: Seq<(String, String)>) -> Map<Seq<char>, Seq<char>>
    decreases pairs.len(),
{
    if pairs.len() == 0 {
        Map::empty()
    } else {
        params_map(pairs.drop_last()).insert(pairs.last().0@, pairs.last().1@)
    }
}

/// No two pairs share a name.
pub open spec fn param_keys_unique(pairs: Seq<(String, String)>) -> bool {
    forall|i: int, j: int| 0 <= i < j < pairs.len() ==> pairs[i].0@ != pairs[j].0@
}

/// A name is in the mapping exactly when some pair holds it.
proof fn lemma_params_contains(pairs: Seq<(String, String)>, k: Seq<char>)
    ensures
        params_map(pairs).contains_key(k) <==> exists|i: int|
            0 <= i < pairs.len() && pairs[i].0@ == k,
    decreases pairs.len(),
{
    if pairs.len() > 0 {
        lemma_params_contains(pairs.drop_last(), k);
        if pairs.last().0@ == k {
            assert(pairs[pairs.len() - 1].0@ == k);
        } else if params_map(pairs).contains_key(k) {
            let i = choose|i: int| 0 <= i < pairs.drop_last().len() && pairs.drop_last()[i].0@
                == k;
            assert(pairs[i].0@ == k);
        } else {
            assert(forall|i: int| 0 <= i < pairs.len() - 1 ==> pairs.drop_last()[i] == pairs[i]);
        }
    }
}

/// With unique names, the mapping sends each pair's name to that
/// pair's value.
proof fn lemma_params_value(pairs: Seq<(String, String)>, i: int)
    requires
        param_keys_unique(pairs),
        0 <= i < pairs.len(),
    ensures
        params_map(pairs).contains_key(pairs[i].0@),
        params_map(pairs)[pairs[i].0@] == pairs[i].1@,
    decreases pairs.len(),
{
    if i == pairs.len() - 1 {
    } else {
        assert(pairs.drop_last()[i] == pairs[i]);
        lemma_params_value(pairs.drop_last(), i);
        assert(pairs.last().0@ != pairs[i].0@);
    }
}

/// The parameters bound by a successful match. Independent of the
/// tree: one can also be built standalone from pairs, for testing.
pub struct Route {
    params: Vec<(String, String)>,
}

impl View for Route {
    type V = Map<Seq<char>, Seq<char>>;

    closed spec fn view(&self) -> Map<Seq<char>, Seq<char>> {
        params_map(self.params@)
    }
}

/// Relies on str::parse: the caller's FromStr implementation decides
/// which strings parse, so nothing further is stated of the outcome.
#[verifier::external_body]
fn parse_param<T: core::str::FromStr>(s: &str) -> (r: Option<T>) {
    match s.parse::<T>() {
        Ok(v) => Some(v),
        Err(_) => None,
    }
}

impl Route {
    /// The stored pairs bind each name at most once.
    pub closed spec fn wf(&self) -> bool {
        param_keys_unique(self.params@)
    }

    /// A route with no parameters bound.
    pub fn new() -> (r: Route)
        ensures
            r.wf(),
            r@ == Map::<Seq<char>, Seq<char>>::empty(),
    {
        let r = Route { params: Vec::new() };
        proof {
            assert(r@ =~= Map::<Seq<char>, Seq<char>>::empty());
        }
        r
    }

    /// Binds `value` under `key`, replacing any earlier binding of the
    /// same name.
    pub fn insert(&mut self, key: String, value: String)
        requires
            old(self).wf(),
        ensures
            final(self).wf(),
            final(self)@ == old(self)@.insert(key@, value@),
    {
        let n = self.params.len();
        let mut i: usize = 0;
        while i < n
            invariant
                n == self.params@.len(),
                i <= n,
                *self == *old(self),
                old(self).wf(),
                forall|j: int| 0 <= j < i ==> (#[trigger] self.params@[j]).0@ != key@,
            decreases n - i,
        {
            if self.params[i].0 == key {
                let ghost oldpairs = self.params@;
                self.params[i].1 = value;
                proof {
                    lemma_replace_value(oldpairs, self.params@, i as int, key@, value@);
                }
                return ;
            }
            i = i + 1;
        }
        let ghost oldpairs = self.params@;
        self.params.push((key, value));
        proof {
            assert(self.params@.drop_last() =~= oldpairs);
            lemma_params_contains(oldpairs, self.params@.last().0@);
        }
    }

    /// Builds a route from name/value pairs; a later pair with the
    /// same name wins.
    pub fn from_params(params: Vec<(String, String)>) -> (r: Route)
        ensures
            r.wf(),
            r@ == params_map(params@),
    {
        let mut r = Route::new();
        let n = params.len();
        let mut i: usize = 0;
        proof {
            assert(params@.take(0) =~= Seq::<(String, String)>::empty());
        }
        while i < n
            invariant
                n == params@.len(),
                i <= n,
                r.wf(),
                r@ == params_map(params@.take(i as int)),
            decreases n - i,
        {
            let pair = (params[i].0.clone(), params[i].1.clone());
            r.insert(pair.0, pair.1);
            proof {
                assert(params@.take(i + 1).drop_last() =~= params@.take(i as int));
                assert(params@.take(i + 1).last() == params@[i as int]);
            }
            i = i + 1;
        }
        proof {
            assert(params@.take(n as int) =~= params@);
        }
        r
    }

    /// The raw string value bound under `key`, if any.
    pub fn get_str(&self, key: &str) -> (r: Option<&String>)
        requires
            self.wf(),
        ensures
            match r {
                Some(v) => self@.contains_key(key@) && v@ == self@[key@],
                None => !self@.contains_key(key@),
            },
    {
        let k = String::from_str(key);
        let n = self.params.len();
        let mut i: usize = 0;
        while i < n
            invariant
                n == self.params@.len(),
                i <= n,
                k@ == key@,
                self.wf(),
                forall|j: int| 0 <= j < i ==> (#[trigger] self.params@[j]).0@ != key@,
            decreases n - i,
        {
            if self.params[i].0 == k {
                proof {
                    lemma_params_value(self.params@, i as int);
                }
                return Some(&self.params[i].1);
            }
            i = i + 1;
        }
        proof {
            lemma_params_contains(self.params@, key@);
        }
        None
    }

    /// The value bound under `key`, parsed into the caller's type:
    /// `Missing` when the name is not bound, `TypeMismatch` when the
    /// bound string does not parse.
    pub fn get<T: core::str::FromStr>(&self, key: &str) -> (r: Result<T, ParamError>)
        requires
            self.wf(),
        ensures
            !self@.contains_key(key@) ==> r == Err::<T, ParamError>(ParamError::Missing),
            self@.contains_key(key@) ==> (r matches Ok(_) || r == Err::<T, ParamError>(
                ParamError::TypeMismatch,
            )),
    {
        match self.get_str(key) {
            Some(s) => match parse_param::<T>(s.as_str()) {
                Some(v) => Ok(v),
                None => Err(ParamError::TypeMismatch),
            },
            None => Err(ParamError::Missing),
        }
    }
}

/// Updating one pair's value in place updates the mapping, when the
/// updated name is bound by that pair alone.
proof fn lemma_replace_value(
    oldpairs: Seq<(String, String)>,
    newpairs: Seq<(String, String)>,
    i: int,
    k: Seq<char>,
    v: Seq<char>,
)
    requires
        param_keys_unique(oldpairs),
        0 <= i < oldpairs.len(),
        oldpairs[i].0@ == k,
        newpairs.len() == oldpairs.len(),
        forall|j: int| 0 <= j < oldpairs.len() && j != i ==> newpairs[j] == oldpairs[j],
        newpairs[i].0@ == k,
        newpairs[i].1@ == v,
    ensures
        param_keys_unique(newpairs),
        params_map(newpairs) == params_map(oldpairs).insert(k, v),
    decreases oldpairs.len(),
{
    assert(param_keys_unique(newpairs));
    if i == oldpairs.len() - 1 {
        assert(newpairs.drop_last() =~= oldpairs.drop_last());
        assert(params_map(newpairs) =~= params_map(oldpairs).insert(k, v));
    } else {
        lemma_replace_value(oldpairs.drop_last(), newpairs.drop_last(), i, k, v);
        assert(oldpairs.last().0@ != k);
        assert(newpairs.last() == oldpairs.last());
        assert(params_map(newpairs) =~= params_map(oldpairs).insert(k, v));
    }
}

} // verus!
