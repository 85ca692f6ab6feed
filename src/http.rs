//! An HTTP flavoured router: each path holds one handler per method.
//!
//! The value stored at a path is a `Handlers` record with one slot per
//! method; registering a handler for a method fills its slot and leaves the
//! other slots as they were.
use vstd::prelude::*;
use vstd::string::StringSliceAdditionalSpecFns;

use crate::capture::{captures_view, Captures};
use crate::node::{
    captureless, cascade_captureless, extends, frames, grown, insertable, trace, value_at, Node,
};
use crate::parser::{first_parser, Parser};
use crate::router::{root_literal, route, segments_of, Router};
use crate::segment::path_spans;

verus! {

/// The HTTP methods under which handlers are registered.
#[derive(PartialEq, Eq, Structural, Clone, Copy, Debug)]
pub enum Method {
    Connect,
    Delete,
    Get,
    Head,
    Options,
    Patch,
    Post,
    Put,
    Trace,
}

/// The handlers registered at one path, one slot per method.
pub struct Handlers<T> {
    /// The `CONNECT` handler.
    pub connect: Option<T>,
    /// The `DELETE` handler.
    pub delete: Option<T>,
    /// The `GET` handler.
    pub get: Option<T>,
    /// The `HEAD` handler.
    pub head: Option<T>,
    /// The `OPTIONS` handler.
    pub options: Option<T>,
    /// The `PATCH` handler.
    pub patch: Option<T>,
    /// The `POST` handler.
    pub post: Option<T>,
    /// The `PUT` handler.
    pub put: Option<T>,
    /// The `TRACE` handler.
    pub trace: Option<T>,
}

/// The handler that `h` holds for `method`.
pub open spec fn handler_for<T>(h: Handlers<T>, method: Method) -> Option<T> {
    match method {
        Method::Connect => h.connect,
        Method::Delete => h.delete,
        Method::Get => h.get,
        Method::Head => h.head,
        Method::Options => h.options,
        Method::Patch => h.patch,
        Method::Post => h.post,
        Method::Put => h.put,
        Method::Trace => h.trace,
    }
}

/// The handler for `method` stored as `value` at some path; none when
/// nothing is stored there.
pub open spec fn stored_handler<T>(value: Option<Handlers<T>>, method: Method) -> Option<T> {
    match value {
        Some(h) => handler_for(h, method),
        None => None,
    }
}

impl<T> Handlers<T> {
    /// A record with no handler.
    pub fn new() -> (r: Self)
        ensures
            forall|m: Method| handler_for(r, m) is None,
    {
        Handlers {
            connect: None,
            delete: None,
            get: None,
            head: None,
            options: None,
            patch: None,
            post: None,
            put: None,
            trace: None,
        }
    }

    /// The handler for `method`, if any.
    pub fn handler(&self, method: &Method) -> (r: Option<&T>)
        ensures
            match r {
                Some(h) => handler_for(*self, *method) == Some(*h),
                None => handler_for(*self, *method) is None,
            },
    {
        match method {
            Method::Connect => self.connect.as_ref(),
            Method::Delete => self.delete.as_ref(),
            Method::Get => self.get.as_ref(),
            Method::Head => self.head.as_ref(),
            Method::Options => self.options.as_ref(),
            Method::Patch => self.patch.as_ref(),
            Method::Post => self.post.as_ref(),
            Method::Put => self.put.as_ref(),
            Method::Trace => self.trace.as_ref(),
        }
    }

    /// Makes `t` the handler for `method`; the other slots are kept.
    pub fn set_handler(&mut self, method: Method, t: T)
        ensures
            handler_for(*final(self), method) == Some(t),
            forall|m: Method| m != method ==> handler_for(*final(self), m) == handler_for(*old(self), m),
    {
        match method {
            Method::Connect => self.connect = Some(t),
            Method::Delete => self.delete = Some(t),
            Method::Get => self.get = Some(t),
            Method::Head => self.head = Some(t),
            Method::Options => self.options = Some(t),
            Method::Patch => self.patch = Some(t),
            Method::Post => self.post = Some(t),
            Method::Put => self.put = Some(t),
            Method::Trace => self.trace = Some(t),
        }
    }
}

/// A router from a method and a path to a handler of type `T`.
pub struct HttpRouter<T> {
    router: Router<Handlers<T>>,
}

/// `after` is `before` with `t` registered for `method` at the path with
/// bytes `path`: the handlers of the other methods there are kept, the tree
/// grows along the path as `Router::insert` grows it, and every lookup that
/// ended at another node of `before` gives what it gave before.
pub open spec fn registered<T>(
    before: HttpRouter<T>,
    after: HttpRouter<T>,
    path: Seq<u8>,
    method: Method,
    t: T,
) -> bool {
    let segs = segments_of(path);
    &&& stored_handler(value_at(after.tree(), segs), method) == Some(t)
    &&& forall|m: Method|
        m != method ==> stored_handler(value_at(after.tree(), segs), m) == stored_handler(
            value_at(before.tree(), segs),
            m,
        )
    &&& after.cascade() == before.cascade()
    &&& frames(before.tree(), after.tree(), segs)
    &&& extends(before.tree(), after.tree())
    &&& grown(before.tree(), after.tree(), segs, before.cascade())
    &&& captureless(before.tree()) && cascade_captureless(before.cascade()) ==> captureless(
        after.tree(),
    )
    &&& forall|q: Seq<u8>|
        #![trigger route(after.tree(), q, path_spans(q))]
        trace(before.tree(), segments_of(q)) is Some && trace(before.tree(), segments_of(q))
            != trace(before.tree(), segs) ==> route(after.tree(), q, path_spans(q)) == route(
            before.tree(),
            q,
            path_spans(q),
        )
}

impl<T> HttpRouter<T> {
    /// The tree of the underlying router; each node may hold handlers.
    pub closed spec fn tree(&self) -> Node<Handlers<T>> {
        self.router.tree()
    }

    /// The parser cascade of the underlying router.
    pub closed spec fn cascade(&self) -> Seq<Box<dyn Parser>> {
        self.router.cascade()
    }

    /// Creates a router using `parsers`; some parser of the cascade must
    /// parse the root literal `"/"`.
    pub fn new(parsers: Vec<Box<dyn Parser>>) -> (r: Self)
        requires
            first_parser(parsers@, root_literal()) < parsers@.len(),
        ensures
            r.cascade() == parsers@,
            r.tree().children@.len() == 0,
            r.tree().value is None,
            cascade_captureless(parsers@) ==> captureless(r.tree()),
    {
        HttpRouter { router: Router::new(parsers) }
    }

    /// Registers `t` as the handler of `method` at `path`, keeping the
    /// handlers of the other methods there.
    pub fn insert(&mut self, method: Method, path: &str, t: T)
        requires
            insertable(old(self).tree(), segments_of(path.spec_bytes()), old(self).cascade()),
        ensures
            registered(*old(self), *final(self), path.spec_bytes(), method, t),
    {
        let f = move |prior: Option<Handlers<T>>| -> (r: Handlers<T>)
            ensures
                handler_for(r, method) == Some(t),
                forall|m: Method| m != method ==> handler_for(r, m) == stored_handler(prior, m),
            {
                let mut h = match prior {
                    Some(h) => h,
                    None => Handlers::new(),
                };
                h.set_handler(method, t);
                h
            };
        self.router.update(path, f);
    }

    /// Registers `t` as the `CONNECT` handler at `path`.
    pub fn connect(&mut self, path: &str, t: T)
        requires
            insertable(old(self).tree(), segments_of(path.spec_bytes()), old(self).cascade()),
        ensures
            registered(*old(self), *final(self), path.spec_bytes(), Method::Connect, t),
    {
        self.insert(Method::Connect, path, t)
    }

    /// Registers `t` as the `DELETE` handler at `path`.
    pub fn delete(&mut self, path: &str, t: T)
        requires
            insertable(old(self).tree(), segments_of(path.spec_bytes()), old(self).cascade()),
        ensures
            registered(*old(self), *final(self), path.spec_bytes(), Method::Delete, t),
    {
        self.insert(Method::Delete, path, t)
    }

    /// Registers `t` as the `GET` handler at `path`.
    pub fn get(&mut self, path: &str, t: T)
        requires
            insertable(old(self).tree(), segments_of(path.spec_bytes()), old(self).cascade()),
        ensures
            registered(*old(self), *final(self), path.spec_bytes(), Method::Get, t),
    {
        self.insert(Method::Get, path, t)
    }

    /// Registers `t` as the `HEAD` handler at `path`.
    pub fn head(&mut self, path: &str, t: T)
        requires
            insertable(old(self).tree(), segments_of(path.spec_bytes()), old(self).cascade()),
        ensures
            registered(*old(self), *final(self), path.spec_bytes(), Method::Head, t),
    {
        self.insert(Method::Head, path, t)
    }

    /// Registers `t` as the `OPTIONS` handler at `path`.
    pub fn options(&mut self, path: &str, t: T)
        requires
            insertable(old(self).tree(), segments_of(path.spec_bytes()), old(self).cascade()),
        ensures
            registered(*old(self), *final(self), path.spec_bytes(), Method::Options, t),
    {
        self.insert(Method::Options, path, t)
    }

    /// Registers `t` as the `PATCH` handler at `path`.
    pub fn patch(&mut self, path: &str, t: T)
        requires
            insertable(old(self).tree(), segments_of(path.spec_bytes()), old(self).cascade()),
        ensures
            registered(*old(self), *final(self), path.spec_bytes(), Method::Patch, t),
    {
        self.insert(Method::Patch, path, t)
    }

    /// Registers `t` as the `POST` handler at `path`.
    pub fn post(&mut self, path: &str, t: T)
        requires
            insertable(old(self).tree(), segments_of(path.spec_bytes()), old(self).cascade()),
        ensures
            registered(*old(self), *final(self), path.spec_bytes(), Method::Post, t),
    {
        self.insert(Method::Post, path, t)
    }

    /// Registers `t` as the `PUT` handler at `path`.
    pub fn put(&mut self, path: &str, t: T)
        requires
            insertable(old(self).tree(), segments_of(path.spec_bytes()), old(self).cascade()),
        ensures
            registered(*old(self), *final(self), path.spec_bytes(), Method::Put, t),
    {
        self.insert(Method::Put, path, t)
    }

    /// Registers `t` as the `TRACE` handler at `path`.
    pub fn trace(&mut self, path: &str, t: T)
        requires
            insertable(old(self).tree(), segments_of(path.spec_bytes()), old(self).cascade()),
        ensures
            registered(*old(self), *final(self), path.spec_bytes(), Method::Trace, t),
    {
        self.insert(Method::Trace, path, t)
    }

    /// Looks up the handler of `method` at `path`, with the captures taken
    /// on the way; `None` when the path has no value or no handler for
    /// `method`.
    pub fn handler<'a>(&'a self, method: &Method, path: &str) -> (r: Option<(&'a T, Captures<'a>)>)
        ensures
            ({
                let found = route(self.tree(), path.spec_bytes(), path_spans(path.spec_bytes()));
                match r {
                    None => match found {
                        Some(y) => handler_for(y.0, *method) is None,
                        None => true,
                    },
                    Some(x) => found matches Some(y) && handler_for(y.0, *method) == Some(*x.0)
                        && y.1 == captures_view(x.1@),
                }
            }),
    {
        match self.router.lookup(path) {
            None => None,
            Some(found) => {
                let handlers: &'a Handlers<T> = found.0;
                let captures = found.1;
                match handlers.handler(method) {
                    Some(h) => Some((h, captures)),
                    None => None,
                }
            },
        }
    }
}

} // verus!
