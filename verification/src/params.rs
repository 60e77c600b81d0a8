use vstd::prelude::*;

verus! {

/// A single URL parameter: a key (the name declared in the route pattern)
/// and the value extracted from the matched path.
#[derive(Clone, Debug)]
pub struct Param {
    pub key: String,
    pub value: String,
}

/// Compares two string slices character by character.
pub fn str_eq(a: &str, b: &str) -> (r: bool)
    ensures
        r == (a@ == b@),
{
    let n = a.unicode_len();
    if n != b.unicode_len() {
        proof {
            assert(a@ != b@) by {
                if a@ == b@ {
                    assert(a@.len() == b@.len());
                }
            }
        }
        return false;
    }
    let mut i: usize = 0;
    while i < n
        invariant
            n == a@.len(),
            n == b@.len(),
            i <= n,
            forall|k: int| 0 <= k < i ==> a@[k] == b@[k],
        decreases n - i,
    {
        if a.get_char(i) != b.get_char(i) {
            return false;
        }
        i = i + 1;
    }
    proof {
        assert(a@ =~= b@);
    }
    true
}

/// The first value registered under `k` in `ps`, if any.
pub open spec fn spec_get(ps: Seq<(Seq<char>, Seq<char>)>, k: Seq<char>) -> Option<Seq<char>>
    decreases ps.len(),
{
    if ps.len() == 0 {
        None
    } else if ps[0].0 == k {
        Some(ps[0].1)
    } else {
        spec_get(ps.drop_first(), k)
    }
}

proof fn lemma_spec_get_skip(ps: Seq<(Seq<char>, Seq<char>)>, k: Seq<char>, i: int)
    requires
        0 <= i < ps.len(),
        ps[i].0 != k,
        spec_get(ps, k) == spec_get(ps.skip(i), k),
    ensures
        spec_get(ps, k) == spec_get(ps.skip(i + 1), k),
{
    assert(ps.skip(i).len() == ps.len() - i);
    assert(ps.skip(i)[0] == ps[i]);
    assert(ps.skip(i).drop_first() =~= ps.skip(i + 1));
}

/// The ordered list of parameters produced by a route match, in the order
/// the parameter segments occur in the path.
#[derive(Clone, Debug)]
pub struct Params {
    list: Vec<Param>,
}

impl Params {
    /// The parameters as a sequence of (key, value) pairs.
    pub closed spec fn pairs(self) -> Seq<(Seq<char>, Seq<char>)> {
        self.list@.map_values(|p: Param| (p.key@, p.value@))
    }

    /// An empty parameter list.
    pub fn new() -> (r: Params)
        ensures
            r.pairs() == Seq::<(Seq<char>, Seq<char>)>::empty(),
    {
        let r = Params { list: Vec::new() };
        proof {
            assert(r.pairs() =~= Seq::<(Seq<char>, Seq<char>)>::empty());
        }
        r
    }

    /// Returns the number of parameters.
    pub fn len(&self) -> (n: usize)
        ensures
            n == self.pairs().len(),
    {
        self.list.len()
    }

    /// Returns `true` if there are no parameters in the list.
    pub fn is_empty(&self) -> (r: bool)
        ensures
            r == (self.pairs().len() == 0),
    {
        self.list.len() == 0
    }

    /// Appends a key-value pair to the list.
    pub fn push(&mut self, key: &str, value: &str)
        ensures
            final(self).pairs() == old(self).pairs().push((key@, value@)),
    {
        let p = Param { key: String::from_str(key), value: String::from_str(value) };
        self.list.push(p);
        proof {
            assert(self.pairs() =~= old(self).pairs().push((key@, value@)));
        }
    }

    /// Shortens the list to at most `n` parameters, dropping the rest.
    pub fn truncate(&mut self, n: usize)
        ensures
            n <= old(self).pairs().len() ==> final(self).pairs() == old(self).pairs().take(
                n as int,
            ),
            n >= old(self).pairs().len() ==> final(self).pairs() == old(self).pairs(),
    {
        self.list.truncate(n);
        proof {
            if n <= old(self).list@.len() {
                assert(self.list@ =~= old(self).list@.take(n as int));
                assert(self.pairs() =~= old(self).pairs().take(n as int));
            } else {
                assert(self.pairs() =~= old(self).pairs());
            }
        }
    }

    /// Returns the value of the first parameter registered under `key`.
    pub fn get(&self, key: &str) -> (r: Option<&str>)
        ensures
            r is Some <==> spec_get(self.pairs(), key@) is Some,
            r matches Some(v) ==> spec_get(self.pairs(), key@) == Some(v@),
    {
        let n = self.list.len();
        let mut i: usize = 0;
        proof {
            assert(self.pairs().skip(0) =~= self.pairs());
        }
        while i < n
            invariant
                n == self.list@.len(),
                i <= n,
                spec_get(self.pairs(), key@) == spec_get(self.pairs().skip(i as int), key@),
            decreases n - i,
        {
            if str_eq(self.list[i].key.as_str(), key) {
                proof {
                    assert(self.pairs().skip(i as int)[0] == self.pairs()[i as int]);
                }
                return Some(self.list[i].value.as_str());
            }
            proof {
                assert(self.pairs()[i as int].0 == self.list@[i as int].key@);
                lemma_spec_get_skip(self.pairs(), key@, i as int);
            }
            i = i + 1;
        }
        proof {
            assert(self.pairs().skip(n as int).len() == 0);
        }
        None
    }

    /// Returns the parameter at `i` as a (key, value) pair.
    pub fn pair(&self, i: usize) -> (r: (&str, &str))
        requires
            i < self.pairs().len(),
        ensures
            r.0@ == self.pairs()[i as int].0,
            r.1@ == self.pairs()[i as int].1,
    {
        (self.list[i].key.as_str(), self.list[i].value.as_str())
    }

    /// Returns an iterator over the parameters in the list.
    pub fn iter(&self) -> (r: ParamsIter<'_>)
        ensures
            r.params == self,
            r.pos == 0,
    {
        ParamsIter { params: self, pos: 0 }
    }
}

/// An iterator over the keys and values of a route's parameters.
pub struct ParamsIter<'ps> {
    pub params: &'ps Params,
    pub pos: usize,
}

impl<'ps> ParamsIter<'ps> {
    /// Yields the next (key, value) pair, in path order.
    pub fn next(&mut self) -> (r: Option<(&'ps str, &'ps str)>)
        ensures
            final(self).params == old(self).params,
            old(self).pos < old(self).params.pairs().len() ==> {
                &&& final(self).pos == old(self).pos + 1
                &&& r matches Some(kv) && kv.0@ == old(self).params.pairs()[old(
                    self,
                ).pos as int].0 && kv.1@ == old(self).params.pairs()[old(self).pos as int].1
            },
            old(self).pos >= old(self).params.pairs().len() ==> r is None && final(self).pos == old(
                self,
            ).pos,
    {
        if self.pos < self.params.list.len() {
            let i = self.pos;
            self.pos = i + 1;
            Some((self.params.list[i].key.as_str(), self.params.list[i].value.as_str()))
        } else {
            None
        }
    }
}

} // verus!
