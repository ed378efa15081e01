//! The server's routing state: which handler answers which endpoint, where views and
//! static files live, and how an incoming request is dispatched.
use vstd::prelude::*;
use vstd::string::*;
use crate::table::{StrMap, pairs_map};
use crate::text::{trim, trim_str};
use crate::route::{endpoints_match, match_endp_params};
use crate::request::{Request, typed_params};
use crate::response::{text_message, text_response};
use crate::request_line::{HttpStatus, handle_conection, utf8_lossy, endpoint_of, status_of};

verus! {

/// What the server does with a request, before any handler runs: call a handler
/// with a request built from a received endpoint and a pattern, send a file, or
/// call the fallback handler with a request built the same way.
pub enum Plan {
    Handler(usize, Seq<char>, Seq<char>),
    File(Seq<char>),
    Fallback(Seq<char>, Seq<char>),
}

/// What the server does with a request.
pub enum Dispatch {
    /// Call handler `handler` with `request`.
    Handler { handler: usize, request: Request },
    /// Send the file at `path`.
    File { path: String },
    /// Call the fallback handler with `request`.
    Fallback { request: Request },
}

/// The position of the first route whose pattern matches `endp`, or the number of
/// routes where none does.
pub open spec fn first_match(routes: Seq<(Seq<char>, usize)>, endp: Seq<char>) -> int
    decreases routes.len(),
{
    if routes.len() == 0 {
        0
    } else if endpoints_match(routes[0].0, endp) {
        0
    } else {
        1 + first_match(routes.drop_first(), endp)
    }
}

proof fn lemma_first_match(routes: Seq<(Seq<char>, usize)>, endp: Seq<char>, i: int)
    requires
        0 <= i <= routes.len(),
        forall|j: int| 0 <= j < i ==> !endpoints_match(#[trigger] routes[j].0, endp),
        i == routes.len() || endpoints_match(routes[i].0, endp),
    ensures
        first_match(routes, endp) == i,
    decreases i,
{
    if i > 0 {
        let t = routes.drop_first();
        assert forall|j: int| 0 <= j < i - 1 implies !endpoints_match(#[trigger] t[j].0, endp) by {
            assert(t[j] == routes[j + 1]);
        }
        lemma_first_match(t, endp, i - 1);
    }
}

/// `req` is the request built from the received endpoint `r` and the pattern `o`.
pub open spec fn built_from(req: Request, r: Seq<char>, o: Seq<char>) -> bool {
    &&& req.wf()
    &&& req.params() == typed_params(r, o)
    &&& req.original_endpoint() == o
}

/// `d` carries out `plan`.
pub open spec fn carries_out(d: Dispatch, plan: Plan) -> bool {
    match (d, plan) {
        (Dispatch::Handler { handler, request }, Plan::Handler(h, r, o)) => handler == h
            && built_from(request, r, o),
        (Dispatch::File { path }, Plan::File(p)) => path@ == p,
        (Dispatch::Fallback { request }, Plan::Fallback(r, o)) => built_from(request, r, o),
        _ => false,
    }
}

/// The routing state of the server.
pub struct App {
    getter: StrMap<usize>,
    setter: StrMap<usize>,
    views: String,
    static_folder: String,
    threads: u16,
}

impl App {
    /// The GET routes: patterns and handlers, in the order they were first registered.
    pub closed spec fn get_routes(&self) -> Seq<(Seq<char>, usize)> {
        self.getter.pairs()
    }

    /// The POST routes: endpoints and handlers, in the order they were first registered.
    pub closed spec fn post_routes(&self) -> Seq<(Seq<char>, usize)> {
        self.setter.pairs()
    }

    /// The directory that views are rendered from.
    pub closed spec fn views_dir(&self) -> Seq<char> {
        self.views@
    }

    /// The directory that static files are served from.
    pub closed spec fn static_dir(&self) -> Seq<char> {
        self.static_folder@
    }

    /// The number of worker threads.
    pub closed spec fn thread_count(&self) -> u16 {
        self.threads
    }

    /// The routing state is well formed: no endpoint is registered twice for a method.
    pub closed spec fn wf(&self) -> bool {
        self.getter.wf() && self.setter.wf()
    }

    /// The GET routes as a map.
    pub open spec fn get_map(&self) -> Map<Seq<char>, usize> {
        pairs_map(self.get_routes())
    }

    /// The POST routes as a map.
    pub open spec fn post_map(&self) -> Map<Seq<char>, usize> {
        pairs_map(self.post_routes())
    }

    /// What the server does with a request of kind `st` for the endpoint `endp`.
    pub open spec fn plan(&self, st: HttpStatus, endp: Seq<char>) -> Plan {
        match st {
            HttpStatus::Get => if self.get_map().dom().contains(endp) {
                Plan::Handler(self.get_map()[endp], endp, endp)
            } else if first_match(self.get_routes(), endp) < self.get_routes().len() {
                let route = self.get_routes()[first_match(self.get_routes(), endp)];
                Plan::Handler(route.1, endp, route.0)
            } else {
                Plan::Fallback(Seq::empty(), Seq::empty())
            },
            HttpStatus::Post => if self.post_map().dom().contains(endp) {
                Plan::Handler(self.post_map()[endp], endp, endp)
            } else {
                Plan::Fallback(endp, endp)
            },
            HttpStatus::File => Plan::File(self.static_dir() + seq!['/'] + endp),
            HttpStatus::NotFound => Plan::Fallback(Seq::empty(), Seq::empty()),
        }
    }

    /// A server with no routes, `thread_number` worker threads, and views and static
    /// files both under `default_dir`.
    pub fn new(thread_number: u16, default_dir: String) -> (res: App)
        ensures
            res.wf(),
            res.get_routes() == Seq::<(Seq<char>, usize)>::empty(),
            res.post_routes() == Seq::<(Seq<char>, usize)>::empty(),
            res.views_dir() == default_dir@,
            res.static_dir() == default_dir@,
            res.thread_count() == thread_number,
    {
        let static_folder = default_dir.clone();
        App {
            getter: StrMap::new(),
            setter: StrMap::new(),
            views: default_dir,
            static_folder,
            threads: thread_number,
        }
    }

    /// Serves static files from `path`.
    pub fn static_folder(&mut self, path: &str)
        ensures
            final(self).static_dir() == path@,
            final(self).views_dir() == old(self).views_dir(),
            final(self).get_routes() == old(self).get_routes(),
            final(self).post_routes() == old(self).post_routes(),
            final(self).thread_count() == old(self).thread_count(),
            final(self).wf() == old(self).wf(),
    {
        self.static_folder = String::from_str(path);
    }

    /// Renders views from `path`.
    pub fn set_views(&mut self, path: &str)
        ensures
            final(self).views_dir() == path@,
            final(self).static_dir() == old(self).static_dir(),
            final(self).get_routes() == old(self).get_routes(),
            final(self).post_routes() == old(self).post_routes(),
            final(self).thread_count() == old(self).thread_count(),
            final(self).wf() == old(self).wf(),
    {
        self.views = String::from_str(path);
    }

    /// Registers `handler` for GET requests to `end_point`, white space trimmed.
    pub fn get(&mut self, end_point: &str, handler: usize)
        requires
            old(self).wf(),
        ensures
            final(self).wf(),
            final(self).get_map() == old(self).get_map().insert(trim(end_point@), handler),
            forall|i: int| 0 <= i < old(self).get_routes().len() ==> #[trigger] final(self).get_routes()[i].0 == old(self).get_routes()[i].0,
            old(self).get_map().dom().contains(trim(end_point@)) ==> final(self).get_routes().len() == old(self).get_routes().len(),
            !old(self).get_map().dom().contains(trim(end_point@)) ==> final(self).get_routes() == old(self).get_routes().push((trim(end_point@), handler)),
            final(self).post_routes() == old(self).post_routes(),
            final(self).views_dir() == old(self).views_dir(),
            final(self).static_dir() == old(self).static_dir(),
            final(self).thread_count() == old(self).thread_count(),
    {
        let key = trim_str(end_point);
        self.getter.insert(key, handler);
    }

    /// Registers `handler` for POST requests to `end_point`, white space trimmed.
    pub fn post(&mut self, end_point: &str, handler: usize)
        requires
            old(self).wf(),
        ensures
            final(self).wf(),
            final(self).post_map() == old(self).post_map().insert(trim(end_point@), handler),
            forall|i: int| 0 <= i < old(self).post_routes().len() ==> #[trigger] final(self).post_routes()[i].0 == old(self).post_routes()[i].0,
            old(self).post_map().dom().contains(trim(end_point@)) ==> final(self).post_routes().len() == old(self).post_routes().len(),
            !old(self).post_map().dom().contains(trim(end_point@)) ==> final(self).post_routes() == old(self).post_routes().push((trim(end_point@), handler)),
            final(self).get_routes() == old(self).get_routes(),
            final(self).views_dir() == old(self).views_dir(),
            final(self).static_dir() == old(self).static_dir(),
            final(self).thread_count() == old(self).thread_count(),
    {
        let key = trim_str(end_point);
        self.setter.insert(key, handler);
    }

    /// The directory that views are rendered from.
    pub fn views(&self) -> (res: &String)
        ensures
            res@ == self.views_dir(),
    {
        &self.views
    }

    /// The number of worker threads.
    pub fn threads(&self) -> (res: u16)
        ensures
            res == self.thread_count(),
    {
        self.threads
    }

    /// The position of the first GET route whose pattern matches `endp`, or the
    /// number of GET routes.
    fn find_param_route(&self, endp: &String) -> (res: usize)
        ensures
            res == first_match(self.get_routes(), endp@),
            res <= self.get_routes().len(),
            res < self.get_routes().len() ==> endpoints_match(self.get_routes()[res as int].0, endp@),
    {
        let n = self.getter.len();
        let mut i: usize = 0;
        while i < n
            invariant
                n == self.get_routes().len(),
                i <= n,
                forall|j: int| 0 <= j < i ==> !endpoints_match(#[trigger] self.get_routes()[j].0, endp@),
            decreases n - i,
        {
            if match_endp_params(self.getter.key_at(i).as_str(), endp.as_str()) {
                proof {
                    lemma_first_match(self.get_routes(), endp@, i as int);
                }
                return i;
            }
            i = i + 1;
        }
        proof {
            lemma_first_match(self.get_routes(), endp@, i as int);
        }
        i
    }

    /// What the server does with a request of kind `st` for the endpoint `endp`.
    pub fn route(&self, st: HttpStatus, endp: &String) -> (res: Dispatch)
        requires
            self.wf(),
        ensures
            carries_out(res, self.plan(st, endp@)),
    {
        proof {
            reveal_strlit("");
            reveal_strlit("/");
        }
        let empty = "";
        assert(empty@ =~= Seq::<char>::empty());
        match st {
            HttpStatus::Get => {
                match self.getter.find(endp) {
                    Some(i) => {
                        let handler = *self.getter.value_at(i);
                        let request = Request::new(endp.as_str(), endp.as_str());
                        Dispatch::Handler { handler, request }
                    },
                    None => {
                        let i = self.find_param_route(endp);
                        if i < self.getter.len() {
                            let key = self.getter.key_at(i);
                            let handler = *self.getter.value_at(i);
                            let request = Request::new(endp.as_str(), key.as_str());
                            Dispatch::Handler { handler, request }
                        } else {
                            Dispatch::Fallback { request: Request::new(empty, empty) }
                        }
                    },
                }
            },
            HttpStatus::Post => {
                let request = Request::new(endp.as_str(), endp.as_str());
                match self.setter.find(endp) {
                    Some(i) => Dispatch::Handler { handler: *self.setter.value_at(i), request },
                    None => Dispatch::Fallback { request },
                }
            },
            HttpStatus::File => {
                let mut path = self.static_folder.clone();
                path.append("/");
                path.append(endp.as_str());
                assert(path@ =~= self.static_dir() + seq!['/'] + endp@);
                Dispatch::File { path }
            },
            HttpStatus::NotFound => Dispatch::Fallback { request: Request::new(empty, empty) },
        }
    }

    /// What the server does with the request in `buffer`.
    pub fn dispatch(&self, buffer: &[u8]) -> (res: Dispatch)
        requires
            self.wf(),
        ensures
            carries_out(
                res,
                self.plan(status_of(buffer@, endpoint_of(utf8_lossy(buffer@))), endpoint_of(utf8_lossy(buffer@))),
            ),
    {
        let (st, endp) = handle_conection(buffer);
        self.route(st, &endp)
    }
}

/// The text that the fallback handler sends: ` noting here to show `.
pub open spec fn fallback_text() -> Seq<char> {
    seq![' ', 'n', 'o', 't', 'i', 'n', 'g', ' ', 'h', 'e', 'r', 'e', ' ', 't', 'o', ' ', 's', 'h', 'o', 'w', ' ']
}

/// What a request that reaches no handler is answered: the text response of
/// ` noting here to show `.
pub fn fallback_response() -> (res: String)
    ensures
        res@ == text_message(fallback_text()),
{
    proof {
        reveal_strlit(" noting here to show ");
        assert(" noting here to show "@ =~= fallback_text());
    }
    text_response(" noting here to show ")
}

/// A GET route registered for an endpoint is what a GET request for that endpoint,
/// white space trimmed, reaches; the request is built from the endpoint itself.
pub proof fn lemma_get_route_reaches_handler(before: App, after: App, end_point: Seq<char>, handler: usize)
    requires
        after.get_map() == before.get_map().insert(trim(end_point), handler),
    ensures
        after.plan(HttpStatus::Get, trim(end_point)) == Plan::Handler(handler, trim(end_point), trim(end_point)),
        after.plan(HttpStatus::Get, trim(trim(end_point))) == after.plan(HttpStatus::Get, trim(end_point)),
{
    crate::text::lemma_trim_idempotent(end_point);
}

/// A POST route registered for an endpoint is what a POST request for that
/// endpoint, white space trimmed, reaches.
pub proof fn lemma_post_route_reaches_handler(before: App, after: App, end_point: Seq<char>, handler: usize)
    requires
        after.post_map() == before.post_map().insert(trim(end_point), handler),
    ensures
        after.plan(HttpStatus::Post, trim(end_point)) == Plan::Handler(handler, trim(end_point), trim(end_point)),
{
}

/// A request for an endpoint that names a file is answered with that file from the
/// static directory, whatever its method and whatever routes are registered.
pub proof fn lemma_file_requests_are_served(app: App, buffer: Seq<u8>, endp: Seq<char>)
    requires
        crate::route::names_file(endp),
    ensures
        app.plan(status_of(buffer, endp), endp) == Plan::File(app.static_dir() + seq!['/'] + endp),
{
}

/// A GET request whose endpoint is not registered as such goes to the first
/// registered pattern that matches it, and to the fallback where none does.
pub proof fn lemma_get_pattern_order(app: App, endp: Seq<char>, i: int)
    requires
        !app.get_map().dom().contains(endp),
        0 <= i < app.get_routes().len(),
        endpoints_match(app.get_routes()[i].0, endp),
        forall|j: int| 0 <= j < i ==> !endpoints_match(#[trigger] app.get_routes()[j].0, endp),
    ensures
        app.plan(HttpStatus::Get, endp) == Plan::Handler(app.get_routes()[i].1, endp, app.get_routes()[i].0),
{
    lemma_first_match(app.get_routes(), endp, i);
}

/// A POST request is answered from the POST routes alone: one for an endpoint with
/// no POST route goes to the fallback, whatever GET routes there are.
pub proof fn lemma_post_uses_post_routes_only(a: App, b: App, endp: Seq<char>)
    requires
        a.post_routes() == b.post_routes(),
    ensures
        a.plan(HttpStatus::Post, endp) == b.plan(HttpStatus::Post, endp),
        !a.post_map().dom().contains(endp) ==> a.plan(HttpStatus::Post, endp) == Plan::Fallback(endp, endp),
{
}

/// A GET request is answered from the GET routes alone.
pub proof fn lemma_get_uses_get_routes_only(a: App, b: App, endp: Seq<char>)
    requires
        a.get_routes() == b.get_routes(),
    ensures
        a.plan(HttpStatus::Get, endp) == b.plan(HttpStatus::Get, endp),
{
}

} // verus!
