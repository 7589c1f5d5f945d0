//! The method-aware facade over the prefix trie.
//!
//! A `Router` wraps a single trie root and encodes each (method, path) pair
//! into the one flat key the trie stores: the uppercase method name followed
//! directly by the path, normalized to start with `'/'`. Dispatch resolves
//! that key and invokes the registered handler.

use crate::route_node::{norm, RouteError, RouteNode};
use vstd::prelude::*;

verus! {

/// The request value handed to a route handler.
pub struct Request {}

/// The response value handed to a route handler.
pub struct Response {}

/// A route callback: any value that can be invoked once per dispatched
/// request.
pub trait Handler {
    /// Handles one dispatched request.
    fn call(&self, request: Request, response: Response);
}

/// The closed set of supported HTTP methods.
#[derive(Debug, PartialEq, Eq, Hash)]
pub enum HttpMethod {
    Get,
    Post,
    Patch,
    Put,
    Delete,
}

/// The uppercase name of a method, as it prefixes an encoded route key.
pub open spec fn method_chars(method: HttpMethod) -> Seq<char> {
    match method {
        HttpMethod::Get => seq!['G', 'E', 'T'],
        HttpMethod::Post => seq!['P', 'O', 'S', 'T'],
        HttpMethod::Patch => seq!['P', 'A', 'T', 'C', 'H'],
        HttpMethod::Put => seq!['P', 'U', 'T'],
        HttpMethod::Delete => seq!['D', 'E', 'L', 'E', 'T', 'E'],
    }
}

/// The single flat key under which a (method, path) pair is stored.
pub open spec fn encode(method: HttpMethod, path: Seq<char>) -> Seq<char> {
    method_chars(method) + norm(path)
}

/// Distinct methods, or paths with distinct normalized forms, always occupy
/// distinct keys in the trie: no method name starts with `'/'`, and no method
/// name is a prefix of another.
pub proof fn lemma_encode_injective(
    m1: HttpMethod,
    p1: Seq<char>,
    m2: HttpMethod,
    p2: Seq<char>,
)
    ensures
        norm(encode(m1, p1)) == norm(encode(m2, p2)) ==> m1 == m2 && norm(p1) == norm(p2),
{
    if norm(encode(m1, p1)) == norm(encode(m2, p2)) {
        let e1 = encode(m1, p1);
        let e2 = encode(m2, p2);
        assert(e1[0] == method_chars(m1)[0] && e1[1] == method_chars(m1)[1]);
        assert(e2[0] == method_chars(m2)[0] && e2[1] == method_chars(m2)[1]);
        assert(e1[0] != '/' && e2[0] != '/');
        assert(norm(e1) == seq!['/'] + e1 && norm(e2) == seq!['/'] + e2);
        assert(e1 =~= e2) by {
            assert(e1.len() == norm(e1).len() - 1 == e2.len());
            assert(forall|t: int|
                0 <= t < e1.len() ==> e1[t] == (seq!['/'] + e1)[t + 1] && e2[t] == (seq!['/']
                    + e2)[t + 1]);
        }
        assert(m1 == m2) by {
            if m1 != m2 {
                assert(e1[0] == e2[0] && e1[1] == e2[1]);
                assert(false);
            }
        }
        let l = method_chars(m1).len() as int;
        assert(norm(p1).len() == norm(p2).len());
        assert forall|t: int| 0 <= t < norm(p1).len() implies norm(p1)[t] == norm(p2)[t] by {
            assert(norm(p1)[t] == e1[l + t]);
            assert(norm(p2)[t] == e2[l + t]);
        }
        assert(norm(p1) =~= norm(p2));
    }
}

/// A route table: a prefix trie of encoded method+path keys, rooted at the
/// segment `"/"`.
pub struct Router<H> {
    pub routes: RouteNode<H>,
}

impl<H> Router<H> {
    /// Well-formedness: the trie is well-formed and its root segment starts
    /// with `'/'`, so every normalized key can be inserted and resolved.
    pub open spec fn wf(self) -> bool {
        self.routes.wf() && self.routes.path@[0] == '/'
    }

    /// The handler a (method, path) pair resolves to, if any.
    pub open spec fn resolved(self, method: HttpMethod, path: Seq<char>) -> Option<H> {
        self.routes.lookup(norm(encode(method, path)))
    }

    /// Creates a table with no registered routes: the root node holds the
    /// segment `"/"` and no handler, and nothing resolves.
    pub fn new() -> (r: Router<H>)
        ensures
            r.wf(),
            r.routes.path@ == seq!['/'],
            r.routes.handler is None,
            r.routes.children@.len() == 0,
            forall|q: Seq<char>| r.routes.lookup(q) is None,
    {
        proof {
            reveal_strlit("/");
        }
        let root = RouteNode::new("/", None);
        proof {
            assert forall|q: Seq<char>| root.lookup(q) is None by {
                root.lemma_lookup_leaf(q);
            }
        }
        Router { routes: root }
    }

    /// Builds the flat key a (method, path) pair is stored under.
    fn method_path_to_string(method: HttpMethod, path: &str) -> (r: String)
        ensures
            r@ == encode(method, path@),
    {
        match method {
            HttpMethod::Get => {
                let r = prefixed("GET", path);
                proof {
                    reveal_strlit("GET");
                    assert(r@ =~= encode(HttpMethod::Get, path@));
                }
                r
            },
            HttpMethod::Post => {
                let r = prefixed("POST", path);
                proof {
                    reveal_strlit("POST");
                    assert(r@ =~= encode(HttpMethod::Post, path@));
                }
                r
            },
            HttpMethod::Patch => {
                let r = prefixed("PATCH", path);
                proof {
                    reveal_strlit("PATCH");
                    assert(r@ =~= encode(HttpMethod::Patch, path@));
                }
                r
            },
            HttpMethod::Put => {
                let r = prefixed("PUT", path);
                proof {
                    reveal_strlit("PUT");
                    assert(r@ =~= encode(HttpMethod::Put, path@));
                }
                r
            },
            HttpMethod::Delete => {
                let r = prefixed("DELETE", path);
                proof {
                    reveal_strlit("DELETE");
                    assert(r@ =~= encode(HttpMethod::Delete, path@));
                }
                r
            },
        }
    }

    /// Registers `handler` for `method` and `path`. The path must not be
    /// empty and the pair must not be registered yet; `try_route` reports
    /// both cases as errors instead.
    pub fn route(&mut self, method: HttpMethod, path: &str, handler: H)
        requires
            old(self).wf(),
            path@.len() > 0,
            old(self).resolved(method, path@) is None,
        ensures
            final(self).wf(),
            final(self).resolved(method, path@) == Some(handler),
            old(self).routes.inserted(final(self).routes, norm(encode(method, path@)), handler),
            forall|q: Seq<char>|
                q != norm(encode(method, path@)) ==> final(self).routes.lookup(q) == old(
                    self,
                ).routes.lookup(q),
    {
        let key = Self::method_path_to_string(method, path);
        self.routes.add(key.as_str(), handler);
    }

    /// Registers `handler` for `method` and `path`, reporting an empty path
    /// and a duplicate registration as errors and leaving the table unchanged
    /// in either case.
    pub fn try_route(&mut self, method: HttpMethod, path: &str, handler: H) -> (r: Result<
        (),
        RouteError,
    >)
        requires
            old(self).wf(),
        ensures
            final(self).wf(),
            path@.len() == 0 ==> r == Err::<(), RouteError>(RouteError::InvalidPath) && *final(self)
                == *old(self),
            path@.len() > 0 && old(self).resolved(method, path@) is Some ==> r == Err::<
                (),
                RouteError,
            >(RouteError::DuplicateRoute) && *final(self) == *old(self),
            path@.len() > 0 && old(self).resolved(method, path@) is None ==> r == Ok::<
                (),
                RouteError,
            >(()) && final(self).resolved(method, path@) == Some(handler) && (forall|q: Seq<char>|
                q != norm(encode(method, path@)) ==> final(self).routes.lookup(q) == old(
                    self,
                ).routes.lookup(q)),
    {
        if path.unicode_len() == 0 {
            return Err(RouteError::InvalidPath);
        }
        let key = Self::method_path_to_string(method, path);
        self.routes.try_add(key.as_str(), handler)
    }

    /// Registers a route for the `GET` method.
    pub fn get(&mut self, path: &str, handler: H)
        requires
            old(self).wf(),
            path@.len() > 0,
            old(self).resolved(HttpMethod::Get, path@) is None,
        ensures
            final(self).wf(),
            final(self).resolved(HttpMethod::Get, path@) == Some(handler),
            forall|q: Seq<char>|
                q != norm(encode(HttpMethod::Get, path@)) ==> final(self).routes.lookup(q) == old(
                    self,
                ).routes.lookup(q),
    {
        self.route(HttpMethod::Get, path, handler)
    }

    /// Registers a route for the `POST` method.
    pub fn post(&mut self, path: &str, handler: H)
        requires
            old(self).wf(),
            path@.len() > 0,
            old(self).resolved(HttpMethod::Post, path@) is None,
        ensures
            final(self).wf(),
            final(self).resolved(HttpMethod::Post, path@) == Some(handler),
            forall|q: Seq<char>|
                q != norm(encode(HttpMethod::Post, path@)) ==> final(self).routes.lookup(q) == old(
                    self,
                ).routes.lookup(q),
    {
        self.route(HttpMethod::Post, path, handler)
    }

    /// Registers a route for the `PATCH` method.
    pub fn patch(&mut self, path: &str, handler: H)
        requires
            old(self).wf(),
            path@.len() > 0,
            old(self).resolved(HttpMethod::Patch, path@) is None,
        ensures
            final(self).wf(),
            final(self).resolved(HttpMethod::Patch, path@) == Some(handler),
            forall|q: Seq<char>|
                q != norm(encode(HttpMethod::Patch, path@)) ==> final(self).routes.lookup(q) == old(
                    self,
                ).routes.lookup(q),
    {
        self.route(HttpMethod::Patch, path, handler)
    }

    /// Registers a route for the `PUT` method.
    pub fn put(&mut self, path: &str, handler: H)
        requires
            old(self).wf(),
            path@.len() > 0,
            old(self).resolved(HttpMethod::Put, path@) is None,
        ensures
            final(self).wf(),
            final(self).resolved(HttpMethod::Put, path@) == Some(handler),
            forall|q: Seq<char>|
                q != norm(encode(HttpMethod::Put, path@)) ==> final(self).routes.lookup(q) == old(
                    self,
                ).routes.lookup(q),
    {
        self.route(HttpMethod::Put, path, handler)
    }

    /// Registers a route for the `DELETE` method.
    pub fn delete(&mut self, path: &str, handler: H)
        requires
            old(self).wf(),
            path@.len() > 0,
            old(self).resolved(HttpMethod::Delete, path@) is None,
        ensures
            final(self).wf(),
            final(self).resolved(HttpMethod::Delete, path@) == Some(handler),
            forall|q: Seq<char>|
                q != norm(encode(HttpMethod::Delete, path@)) ==> final(self).routes.lookup(q)
                    == old(self).routes.lookup(q),
    {
        self.route(HttpMethod::Delete, path, handler)
    }

    /// For every registered (method, path) pair, dispatching the identical
    /// method and path resolves to the registered handler: `route` leaves
    /// the pair resolving to exactly the handler it was given, and
    /// `dispatch` reports success precisely when the pair resolves.
    pub proof fn lemma_registered_pair_dispatches(
        self,
        method: HttpMethod,
        path: Seq<char>,
        handler: H,
    )
        requires
            self.resolved(method, path) == Some(handler),
        ensures
            self.resolved(method, path) is Some,
    {
    }

    /// For every pair never registered under a given method, dispatch
    /// reports a miss: a fresh table resolves nothing, and by
    /// `lemma_no_cross_talk` no registration of another pair changes that,
    /// so the pair still resolves to nothing and `dispatch` reports the
    /// miss.
    pub proof fn lemma_empty_table_misses(self, method: HttpMethod, path: Seq<char>)
        requires
            forall|q: Seq<char>| self.routes.lookup(q) is None,
        ensures
            self.resolved(method, path) is None,
    {
    }

    /// Registering one (method, path) pair never changes what any other pair
    /// resolves to: no cross-method or cross-path leakage.
    pub proof fn lemma_no_cross_talk(
        pre: Router<H>,
        post: Router<H>,
        method: HttpMethod,
        path: Seq<char>,
        other_method: HttpMethod,
        other_path: Seq<char>,
    )
        requires
            forall|q: Seq<char>|
                q != norm(encode(method, path)) ==> post.routes.lookup(q) == pre.routes.lookup(q),
            other_method != method || norm(other_path) != norm(path),
        ensures
            post.resolved(other_method, other_path) == pre.resolved(other_method, other_path),
    {
        lemma_encode_injective(other_method, other_path, method, path);
    }

    /// Dispatch is read-only and its outcome is a function of the table and
    /// the key alone: the contract of `handle_request` pins success to
    /// `lookup`, so repeated dispatches of one key against one table value
    /// always report the same outcome.
    pub proof fn lemma_dispatch_idempotent(self, path: Seq<char>, ok1: bool, ok2: bool)
        requires
            ok1 == (path.len() > 0 && self.routes.lookup(norm(path)) is Some),
            ok2 == (path.len() > 0 && self.routes.lookup(norm(path)) is Some),
        ensures
            ok1 == ok2,
    {
    }
}

impl<H: Handler> Router<H> {
    /// Resolves a pre-encoded key and invokes the handler registered under
    /// it; reports a miss, or a key resolving to a handler-less branching
    /// node, as "no route".
    pub fn handle_request(&self, path: &str) -> (r: Result<(), &str>)
        requires
            self.wf(),
        ensures
            r is Ok <==> (path@.len() > 0 && self.routes.lookup(norm(path@)) is Some),
            r matches Err(e) ==> e@ == "No route found"@,
    {
        self.call_handler(path, Request {  }, Response {  })
    }

    /// Resolves `method` and `path` and invokes the handler registered for
    /// them; reports a miss as "no route". An empty path is a guaranteed
    /// miss, distinct from the path `"/"`.
    pub fn dispatch(&self, method: HttpMethod, path: &str) -> (r: Result<(), &str>)
        requires
            self.wf(),
        ensures
            r is Ok <==> (path@.len() > 0 && self.resolved(method, path@) is Some),
            r matches Err(e) ==> e@ == "No route found"@,
    {
        if path.unicode_len() == 0 {
            return Err("No route found");
        }
        let key = Self::method_path_to_string(method, path);
        self.handle_request(key.as_str())
    }

    /// Resolves a pre-encoded key and invokes its handler with the given
    /// request and response values.
    pub fn call_handler(&self, path: &str, request: Request, response: Response) -> (r: Result<
        (),
        &str,
    >)
        requires
            self.wf(),
        ensures
            r is Ok <==> (path@.len() > 0 && self.routes.lookup(norm(path@)) is Some),
            r matches Err(e) ==> e@ == "No route found"@,
    {
        match self.routes.find(path) {
            Some(node) => match &node.handler {
                Some(handler) => {
                    handler.call(request, response);
                    Ok(())
                },
                None => Err("No route found"),
            },
            None => Err("No route found"),
        }
    }
}

/// Concatenates a method name and a path normalized to start with `'/'`.
fn prefixed(method_name: &str, path: &str) -> (r: String)
    ensures
        r@ == method_name@ + norm(path@),
{
    let mut r = method_name.to_owned();
    if path.unicode_len() > 0 && path.get_char(0) == '/' {
        r.append(path);
    } else {
        let slash = "/";
        proof {
            reveal_strlit("/");
        }
        r.append(slash);
        r.append(path);
    }
    proof {
        assert(r@ =~= method_name@ + norm(path@));
    }
    r
}

} // verus!
