use vstd::prelude::*;

use crate::error::InsertError;
use crate::error::MatchError;
use crate::params::Params;
use crate::tree::Node;
use crate::tree::audit_node;
use crate::tree::brace_free;
use crate::tree::check_pattern;
use crate::tree::conflicts;
use crate::tree::count;
use crate::tree::extract;
use crate::tree::insert_rec;
use crate::tree::lemma_braces_ok;
use crate::tree::pat_matches;
use crate::tree::remove_rec;
use crate::tree::search_rec;
use crate::tree::sub_route;
use crate::tree::update_rec;
use crate::tree::valid_pattern;
use crate::tree::wf_node;

verus! {

/// A URL router: a set of route patterns, each carrying a value, matched
/// against request paths by a compressed prefix tree.
pub struct Router<T> {
    pub root: Node<T>,
}

impl<T> Router<T> {
    /// The router invariant: the tree is well-formed and the root consumes
    /// no input of its own.
    pub open spec fn wf(self) -> bool {
        &&& wf_node(self.root)
        &&& self.root.prefix@ == Seq::<char>::empty()
    }

    /// The value registered under the pattern `pat`, if any.
    pub open spec fn route(self, pat: Seq<char>) -> Option<T> {
        sub_route(self.root, pat)
    }

    /// An empty router.
    pub fn new() -> (r: Router<T>)
        ensures
            r.wf(),
            forall|p: Seq<char>| r.route(p) is None,
            count(r.root) == 0,
    {
        let root = Node {
            prefix: String::new(),
            value: None,
            priority: 0,
            children: Vec::new(),
        };
        let r = Router { root };
        proof {
            assert(r.root.children@.len() == 0);
        }
        r
    }

    /// Walks the tree and recomputes every node's priority from its
    /// subtree.  On a well-formed router this confirms the total number of
    /// registered routes; a mismatch would be reported as the (declared,
    /// actual) pair.
    pub fn check_priorities(&self) -> (r: Result<u32, (u32, u32)>)
        requires
            self.wf(),
        ensures
            r == Ok::<u32, (u32, u32)>(self.root.priority),
            self.root.priority as nat == count(self.root),
    {
        audit_node(&self.root)
    }
}

/// A successful match: the value registered under the winning route and
/// the parameters bound along the way.
#[derive(Debug)]
pub struct Match<'a, T> {
    pub value: &'a T,
    pub params: Params,
}

/// The path with its trailing slash toggled: dropped when present,
/// appended when absent.
pub open spec fn toggle_slash(p: Seq<char>) -> Seq<char> {
    if p.len() > 0 && p[p.len() - 1] == '/' {
        p.drop_last()
    } else {
        p.push('/')
    }
}

impl<T> Router<T> {
    /// Registers `value` under the pattern `route`.  An ill-formed pattern
    /// is rejected as `Malformed`; a duplicate route or an incompatible
    /// wildcard is rejected as `Conflict`, and only then: a well-formed,
    /// conflict-free pattern is always accepted.  On success exactly the
    /// new route is added; on failure the registered routes are unchanged.
    pub fn insert(&mut self, route: &str, value: T) -> (r: Result<(), InsertError>)
        requires
            old(self).wf(),
            count(old(self).root) < u32::MAX as nat,
        ensures
            final(self).wf(),
            r == Err::<(), InsertError>(InsertError::Malformed) <==> !valid_pattern(route@),
            valid_pattern(route@) ==> (r is Ok <==> !conflicts(old(self).root, route@)),
            r is Ok ==> old(self).route(route@) is None,
            valid_pattern(route@) && old(self).route(route@) is Some ==> r == Err::<(),
                InsertError,
            >(InsertError::Conflict),
            r is Ok ==> forall|p: Seq<char>| #![auto]
                final(self).route(p) == (if p == route@ {
                    Some(value)
                } else {
                    old(self).route(p)
                }),
            r is Err ==> forall|p: Seq<char>| #![auto] final(self).route(p) == old(self).route(p),
            r is Ok ==> count(final(self).root) == count(old(self).root) + 1,
            r is Err ==> count(final(self).root) == count(old(self).root),
    {
        if !check_pattern(route) {
            return Err(InsertError::Malformed);
        }
        proof {
            lemma_braces_ok(route@);
        }
        let r = insert_rec(&mut self.root, route, 0, value);
        proof {
            assert(route@.skip(0) =~= route@);
        }
        r
    }

    /// Removes the route registered under the pattern `route` and returns
    /// its value.  Removing an unregistered pattern returns nothing and
    /// changes nothing.
    pub fn remove(&mut self, route: &str) -> (r: Option<T>)
        requires
            old(self).wf(),
        ensures
            final(self).wf(),
            r == old(self).route(route@),
            r is Some ==> forall|p: Seq<char>| #![auto]
                final(self).route(p) == (if p == route@ {
                    None::<T>
                } else {
                    old(self).route(p)
                }),
            r is None ==> forall|p: Seq<char>| #![auto] final(self).route(p) == old(self).route(p),
            r is Some ==> count(final(self).root) + 1 == count(old(self).root),
            r is None ==> count(final(self).root) == count(old(self).root),
    {
        let r = remove_rec(&mut self.root, route, 0);
        proof {
            assert(route@.skip(0) =~= route@);
        }
        r
    }

    /// The exclusive-access path to a stored value: replaces the value
    /// registered under the pattern `route` in place and returns the
    /// previous one.  An unregistered pattern is left unregistered.
    pub fn update(&mut self, route: &str, value: T) -> (r: Option<T>)
        requires
            old(self).wf(),
        ensures
            final(self).wf(),
            r == old(self).route(route@),
            r is Some ==> forall|p: Seq<char>| #![auto]
                final(self).route(p) == (if p == route@ {
                    Some(value)
                } else {
                    old(self).route(p)
                }),
            r is None ==> forall|p: Seq<char>| #![auto] final(self).route(p) == old(self).route(p),
            count(final(self).root) == count(old(self).root),
    {
        let r = update_rec(&mut self.root, route, 0, value);
        proof {
            assert(route@.skip(0) =~= route@);
        }
        r
    }

    /// Matches `path` against the registered routes.  On success the value
    /// belongs to a registered pattern that matches the path, and the
    /// parameters are exactly that pattern's bindings, in path order.  A
    /// miss that would hit with the trailing slash toggled reports the
    /// redirect hint.
    pub fn at<'a>(&'a self, path: &str) -> (r: Result<Match<'a, T>, MatchError>)
        requires
            self.wf(),
        ensures
            r matches Ok(m) ==> exists|pt: Seq<char>|
                {
                    &&& #[trigger] self.route(pt) == Some(*m.value)
                    &&& pat_matches(pt, path@)
                    &&& m.params.pairs() == extract(pt, path@)
                },
            r == Err::<Match<'a, T>, MatchError>(MatchError::NotFoundTrailingSlash)
                ==> exists|pt: Seq<char>|
                #[trigger] self.route(pt) is Some && pat_matches(pt, toggle_slash(path@)),
            // the round trip: a registered wildcard-free route, queried as
            // a path, always matches, yields its own value, and binds
            // nothing
            brace_free(path@) && self.route(path@) is Some ==> (r matches Ok(m) && (Some(
                *m.value,
            ) == self.route(path@) && m.params.pairs() == Seq::<(Seq<char>, Seq<char>)>::empty())),
            // completeness: whenever any registered route matches the
            // path, the match succeeds
            (exists|pt: Seq<char>| #[trigger] self.route(pt) is Some && pat_matches(pt, path@))
                ==> r is Ok,
            r is Err ==> forall|pt: Seq<char>|
                (#[trigger] self.route(pt)) is Some ==> !pat_matches(pt, path@),
            // a plain miss means the slash-toggled path has no match either
            r == Err::<Match<'a, T>, MatchError>(MatchError::NotFound) ==> forall|pt: Seq<char>|
                (#[trigger] self.route(pt)) is Some ==> !pat_matches(pt, toggle_slash(path@)),
    {
        let mut params = Params::new();
        let rr = search_rec(&self.root, path, 0, &mut params);
        proof {
            assert(path@.skip(0) =~= path@);
        }
        match rr {
            Some(v) => {
                proof {
                    let ghost e0 = Seq::<(Seq<char>, Seq<char>)>::empty();
                    let pt = choose|pt: Seq<char>|
                        {
                            &&& #[trigger] sub_route(self.root, pt) == Some(*v)
                            &&& pat_matches(pt, path@.skip(0))
                            &&& params.pairs() == e0 + extract(pt, path@.skip(0))
                            &&& pt.len() == 0 || (exists|j: int|
                                0 <= j < self.root.children@.len() && pt[0]
                                    == (#[trigger] self.root.children@[j].prefix@)[0])
                        };
                    assert(self.route(pt) == Some(*v));
                    assert(pat_matches(pt, path@));
                    assert(params.pairs() =~= extract(pt, path@));
                }
                Ok(Match { value: v, params })
            },
            None => {
                // look for a trailing-slash variant to recommend a redirect
                let n = path.unicode_len();
                let toggled: String = if n > 0 && path.get_char(n - 1) == '/' {
                    let t = String::from_str(path.substring_char(0, n - 1));
                    proof {
                        assert(t@ =~= toggle_slash(path@));
                    }
                    t
                } else {
                    let mut t = String::from_str(path);
                    t.append("/");
                    proof {
                        reveal_strlit("/");
                        assert(t@ =~= toggle_slash(path@));
                    }
                    t
                };
                proof {
                    assert forall|pt: Seq<char>| (#[trigger] self.route(pt)) is Some implies
                        !pat_matches(pt, path@) by {
                        assert(sub_route(self.root, pt) is Some);
                    }
                }
                let mut p2 = Params::new();
                let rt = search_rec(&self.root, toggled.as_str(), 0, &mut p2);
                proof {
                    assert(toggled@.skip(0) =~= toggled@);
                }
                match rt {
                    Some(v2) => {
                        proof {
                            let ghost e0 = Seq::<(Seq<char>, Seq<char>)>::empty();
                            let pt = choose|pt: Seq<char>|
                                {
                                    &&& #[trigger] sub_route(self.root, pt) == Some(*v2)
                                    &&& pat_matches(pt, toggled@.skip(0))
                                    &&& p2.pairs() == e0 + extract(pt, toggled@.skip(0))
                                    &&& pt.len() == 0 || (exists|j: int|
                                        0 <= j < self.root.children@.len() && pt[0]
                                            == (#[trigger] self.root.children@[j].prefix@)[0])
                                };
                            assert(self.route(pt) is Some);
                            assert(pat_matches(pt, toggle_slash(path@)));
                        }
                        Err(MatchError::NotFoundTrailingSlash)
                    },
                    None => {
                        proof {
                            assert forall|pt: Seq<char>| (#[trigger] self.route(pt)) is Some implies
                                !pat_matches(pt, toggle_slash(path@)) by {
                                assert(sub_route(self.root, pt) is Some);
                            }
                        }
                        Err(MatchError::NotFound)
                    },
                }
            },
        }
    }
}

impl<T> Default for Router<T> {
    fn default() -> (r: Self)
        ensures
            r.wf(),
            forall|p: Seq<char>| r.route(p) is None,
            count(r.root) == 0,
    {
        Router::new()
    }
}

} // verus!
