//! A simpler form of the server: requests that begin with `SET` take the place of
//! `POST`, the endpoint runs from the fourth byte of the request to its first `H`,
//! routes are found by their exact endpoint only, and every segment of an endpoint is
//! a parameter whose value is text.
use vstd::prelude::*;
use vstd::string::*;
use crate::table::{StrMap, pairs_map};
use crate::text::{byte_range, byte_slice, chars_of, is_boundary, split, split_str, trim, trim_str, views};
use crate::route::{is_file, names_file};
use crate::request_line::{decode_lossy, utf8_lossy, first_index_of, bytes_start_with, get_bytes};
use crate::response::{text_message, text_response};
use crate::app::Plan;

verus! {

/// The kind of a request.
#[derive(PartialEq, Eq, Structural, Clone, Copy, Debug)]
pub enum HttpStatus {
    Get,
    /// A request that begins with `SET`.
    SetVerb,
    File,
    NotFound,
}

/// The bytes of `SET`.
pub open spec fn set_bytes() -> Seq<u8> {
    seq![0x53u8, 0x45u8, 0x54u8]
}

/// Whether cutting the request text down to its endpoint succeeds: where there is an
/// `H`, it comes at the fourth character or later, and byte offset 3 and the `H`'s
/// character position, read as a byte offset, both fall between characters.
pub open spec fn chop_defined(s: Seq<char>) -> bool {
    let h = first_index_of(s, 'H');
    h < s.len() ==> 3 <= h && is_boundary(s, 3) && is_boundary(s, h)
}

/// The request text cut down to its endpoint: `&s[3..h]`, where `h` is the character
/// position of the first `H`, read as a byte offset; the whole text where there is no
/// `H`.
pub open spec fn chop(s: Seq<char>) -> Seq<char> {
    let h = first_index_of(s, 'H');
    if h < s.len() {
        byte_range(s, 3, h)
    } else {
        s
    }
}

/// The endpoint of a request whose text is `text`, white space trimmed.
pub open spec fn endpoint_of(text: Seq<char>) -> Seq<char> {
    trim(chop(text))
}

/// For a request text whose characters before its first `H` are all ASCII and whose
/// first `H` is at the fourth character or later, the cut succeeds and takes the
/// characters from the fourth up to that `H`.
pub proof fn lemma_ascii_chop(s: Seq<char>)
    requires
        3 <= first_index_of(s, 'H') < s.len(),
        forall|j: int| 0 <= j < first_index_of(s, 'H') ==> (#[trigger] s[j] as u32) < 0x80,
    ensures
        chop_defined(s),
        chop(s) == s.subrange(3, first_index_of(s, 'H')),
{
    crate::text::lemma_ascii_byte_range(s, 3, first_index_of(s, 'H'));
}

/// The request text cut down to its endpoint, or `None` where the cut is not defined.
pub fn chop_text(text: &str) -> (res: Option<String>)
    ensures
        res is Some <==> chop_defined(text@),
        res matches Some(r) ==> r@ == chop(text@),
{
    let cs = chars_of(text);
    let n = cs.len();
    let mut i: usize = 0;
    while i < n && cs[i] != 'H'
        invariant
            cs@ == text@,
            n == cs@.len(),
            i <= n,
            forall|j: int| 0 <= j < i ==> cs@[j] != 'H',
        decreases n - i,
    {
        i = i + 1;
    }
    proof {
        crate::request_line::lemma_first_index_of(text@, 'H', i as int);
    }
    if i == n {
        return Some(text.to_owned());
    }
    if i < 3 {
        return None;
    }
    byte_slice(text, 3, i)
}

/// The endpoint text of the request in `buffer`, or `None` where it cannot be cut out.
pub fn chop_input(buffer: &[u8]) -> (res: Option<String>)
    ensures
        res is Some <==> chop_defined(utf8_lossy(buffer@)),
        res matches Some(r) ==> r@ == chop(utf8_lossy(buffer@)),
{
    let string = decode_lossy(buffer);
    chop_text(string.as_str())
}

/// The kind of the request in `buffer` whose endpoint is `endp`.
pub open spec fn status_of(buffer: Seq<u8>, endp: Seq<char>) -> HttpStatus {
    if names_file(endp) {
        HttpStatus::File
    } else if bytes_start_with(buffer, set_bytes()) {
        HttpStatus::SetVerb
    } else if bytes_start_with(buffer, get_bytes()) {
        HttpStatus::Get
    } else {
        HttpStatus::NotFound
    }
}

fn starts_with_set(buffer: &[u8]) -> (res: bool)
    ensures
        res == bytes_start_with(buffer@, set_bytes()),
{
    let r = buffer.len() >= 3 && buffer[0] == 0x53u8 && buffer[1] == 0x45u8 && buffer[2] == 0x54u8;
    if buffer.len() >= 3 {
        assert(r == (buffer@.subrange(0, 3) =~= set_bytes()));
    }
    r
}

fn starts_with_get(buffer: &[u8]) -> (res: bool)
    ensures
        res == bytes_start_with(buffer@, get_bytes()),
{
    let r = buffer.len() >= 3 && buffer[0] == 0x47u8 && buffer[1] == 0x45u8 && buffer[2] == 0x54u8;
    if buffer.len() >= 3 {
        assert(r == (buffer@.subrange(0, 3) =~= get_bytes()));
    }
    r
}

/// The kind of the request in `buffer` whose endpoint is `endp`.
pub fn request_status(buffer: &[u8], endp: &String) -> (res: HttpStatus)
    ensures
        res == status_of(buffer@, endp@),
{
    if is_file(endp) {
        HttpStatus::File
    } else if starts_with_set(buffer) {
        HttpStatus::SetVerb
    } else if starts_with_get(buffer) {
        HttpStatus::Get
    } else {
        HttpStatus::NotFound
    }
}

/// The kind and the endpoint of the request in `buffer`, whose decoded text is
/// `text`; `None` where the endpoint cannot be cut out.
pub fn handle_text(buffer: &[u8], text: &str) -> (res: Option<(HttpStatus, String)>)
    ensures
        res is Some <==> chop_defined(text@),
        res matches Some((st, endp)) ==> endp@ == endpoint_of(text@) && st == status_of(
            buffer@,
            endpoint_of(text@),
        ),
{
    match chop_text(text) {
        Some(chopped) => {
            let endp = trim_str(chopped.as_str());
            let st = request_status(buffer, &endp);
            Some((st, endp))
        },
        None => None,
    }
}

/// The kind and the endpoint of the request in `buffer`; `None` where the endpoint
/// cannot be cut out.
pub fn handle_conection(buffer: &[u8]) -> (res: Option<(HttpStatus, String)>)
    ensures
        res is Some <==> chop_defined(utf8_lossy(buffer@)),
        res matches Some((st, endp)) ==> endp@ == endpoint_of(utf8_lossy(buffer@)) && st
            == status_of(buffer@, endpoint_of(utf8_lossy(buffer@))),
{
    let string = decode_lossy(buffer);
    handle_text(buffer, string.as_str())
}

/// Building the request for `recibed` against the pattern `original` succeeds: the
/// received endpoint has at least as many segments as the pattern.
pub open spec fn request_defined(recibed: Seq<char>, original: Seq<char>) -> bool {
    split(recibed, '/').len() >= split(original, '/').len()
}

/// The parameters that the first `n` segments of the pattern `o` give against the
/// received segments `r`: each segment names the received segment at its position;
/// a later segment with the same name wins.
pub open spec fn params_from(r: Seq<Seq<char>>, o: Seq<Seq<char>>, n: nat) -> Map<Seq<char>, Seq<char>>
    decreases n,
{
    if n == 0 {
        Map::empty()
    } else {
        params_from(r, o, (n - 1) as nat).insert(o[n - 1], r[n - 1])
    }
}

/// The parameters of the request for `recibed` against the pattern `original`.
pub open spec fn text_params(recibed: Seq<char>, original: Seq<char>) -> Map<Seq<char>, Seq<char>> {
    let o = split(original, '/');
    params_from(split(recibed, '/'), o, o.len())
}

/// The parameters of a request, by name, with text values.
pub struct Request {
    params: StrMap<String>,
    _original_endpoint: String,
}

impl Request {
    /// The parameters, by name.
    pub closed spec fn params(&self) -> Map<Seq<char>, Seq<char>> {
        self.params.map()
    }

    /// The endpoint pattern that the request was matched against.
    pub closed spec fn original_endpoint(&self) -> Seq<char> {
        self._original_endpoint@
    }

    /// The request is well formed.
    pub closed spec fn wf(&self) -> bool {
        self.params.wf()
    }

    /// The request for the received endpoint `recibed`, matched against the pattern
    /// `original`.
    pub fn new(recibed: &str, original: &str) -> (res: Request)
        requires
            request_defined(recibed@, original@),
        ensures
            res.wf(),
            res.params() == text_params(recibed@, original@),
            res.original_endpoint() == original@,
    {
        let original_params = split_str(original, '/');
        let recibed_params = split_str(recibed, '/');
        let ghost o = split(original@, '/');
        let ghost r = split(recibed@, '/');
        assert(original_params@.len() == o.len() && views(original_params@) == o);
        assert(recibed_params@.len() == r.len() && views(recibed_params@) == r);
        let mut params_map: StrMap<String> = StrMap::new();
        let mut i: usize = 0;
        while i < original_params.len()
            invariant
                request_defined(recibed@, original@),
                o == split(original@, '/'),
                r == split(recibed@, '/'),
                views(original_params@) == o,
                views(recibed_params@) == r,
                original_params@.len() == o.len(),
                recibed_params@.len() == r.len(),
                i <= o.len(),
                params_map.wf(),
                params_map.map() == params_from(r, o, i as nat),
            decreases o.len() - i,
        {
            assert(original_params@[i as int]@ == o[i as int]);
            assert(recibed_params@[i as int]@ == r[i as int]);
            let aux1 = original_params[i].clone();
            let aux2 = recibed_params[i].clone();
            params_map.insert(aux1, aux2);
            i = i + 1;
        }
        Request { params: params_map, _original_endpoint: original.to_owned() }
    }

    /// The value of the parameter `name`, if there is one.
    pub fn param(&self, name: &str) -> (res: Option<&String>)
        requires
            self.wf(),
        ensures
            match res {
                Some(v) => self.params().dom().contains(name@) && v@ == self.params()[name@],
                None => !self.params().dom().contains(name@),
            },
    {
        let key = name.to_owned();
        match self.params.find(&key) {
            Some(i) => Some(self.params.value_at(i)),
            None => None,
        }
    }
}

/// What the server does with a request.
pub enum Dispatch {
    /// Call handler `handler` with `request`.
    Handler { handler: usize, request: Request },
    /// Send the file at `path`.
    File { path: String },
    /// Call the fallback handler with `request`.
    Fallback { request: Request },
}

/// `req` is the request built from the received endpoint `r` and the pattern `o`.
pub open spec fn built_from(req: Request, r: Seq<char>, o: Seq<char>) -> bool {
    &&& req.wf()
    &&& req.params() == text_params(r, o)
    &&& req.original_endpoint() == o
}

/// `d` carries out `plan`.
pub open spec fn carries_out(d: Dispatch, plan: Plan) -> bool {
    match (d, plan) {
        (Dispatch::Handler { handler, request }, Plan::Handler(h, r, o)) => handler == h
            && built_from(request, r, o),
        (Dispatch::File { path }, Plan::File(p)) => path@ == p,
        (Dispatch::Fallback { request }, Plan::Fallback(r, o)) => built_from(request, r, o),
        _ => false,
    }
}

/// The routing state of the server.
pub struct App {
    getter: StrMap<usize>,
    setter: StrMap<usize>,
    views: String,
    static_folder: String,
    threads: u16,
}

impl App {
    /// The GET routes, in the order they were first registered.
    pub closed spec fn get_routes(&self) -> Seq<(Seq<char>, usize)> {
        self.getter.pairs()
    }

    /// The SET routes, in the order they were first registered.
    pub closed spec fn set_routes(&self) -> Seq<(Seq<char>, usize)> {
        self.setter.pairs()
    }

    /// The directory that views are rendered from.
    pub closed spec fn views_dir(&self) -> Seq<char> {
        self.views@
    }

    /// The directory that static files are served from.
    pub closed spec fn static_dir(&self) -> Seq<char> {
        self.static_folder@
    }

    /// The number of worker threads.
    pub closed spec fn thread_count(&self) -> u16 {
        self.threads
    }

    /// The routing state is well formed.
    pub closed spec fn wf(&self) -> bool {
        self.getter.wf() && self.setter.wf()
    }

    /// The GET routes as a map.
    pub open spec fn get_map(&self) -> Map<Seq<char>, usize> {
        pairs_map(self.get_routes())
    }

    /// The SET routes as a map.
    pub open spec fn set_map(&self) -> Map<Seq<char>, usize> {
        pairs_map(self.set_routes())
    }

    /// What the server does with a request of kind `st` for the endpoint `endp`.
    pub open spec fn plan(&self, st: HttpStatus, endp: Seq<char>) -> Plan {
        match st {
            HttpStatus::Get => if self.get_map().dom().contains(endp) {
                Plan::Handler(self.get_map()[endp], endp, endp)
            } else {
                Plan::Fallback(endp, endp)
            },
            HttpStatus::SetVerb => if self.set_map().dom().contains(endp) {
                Plan::Handler(self.set_map()[endp], endp, endp)
            } else {
                Plan::Fallback(endp, endp)
            },
            HttpStatus::File => Plan::File(self.static_dir() + seq!['/'] + endp),
            HttpStatus::NotFound => Plan::Fallback(Seq::empty(), Seq::empty()),
        }
    }

    /// A server with no routes and `thread_number` worker threads, serving views and
    /// static files from `./`.
    pub fn new(thread_number: u16) -> (res: App)
        ensures
            res.wf(),
            res.get_routes() == Seq::<(Seq<char>, usize)>::empty(),
            res.set_routes() == Seq::<(Seq<char>, usize)>::empty(),
            res.views_dir() == seq!['.', '/'],
            res.static_dir() == seq!['.', '/'],
            res.thread_count() == thread_number,
    {
        proof {
            reveal_strlit("./");
        }
        let views = String::from_str("./");
        let static_folder = String::from_str("./");
        assert(views@ =~= seq!['.', '/']);
        App { getter: StrMap::new(), setter: StrMap::new(), views, static_folder, threads: thread_number }
    }

    /// Serves static files from `path`.
    pub fn static_folder(&mut self, path: &str)
        ensures
            final(self).static_dir() == path@,
            final(self).views_dir() == old(self).views_dir(),
            final(self).get_routes() == old(self).get_routes(),
            final(self).set_routes() == old(self).set_routes(),
            final(self).thread_count() == old(self).thread_count(),
            final(self).wf() == old(self).wf(),
    {
        self.static_folder = String::from_str(path);
    }

    /// Renders views from `path`.
    pub fn set_views(&mut self, path: &str)
        ensures
            final(self).views_dir() == path@,
            final(self).static_dir() == old(self).static_dir(),
            final(self).get_routes() == old(self).get_routes(),
            final(self).set_routes() == old(self).set_routes(),
            final(self).thread_count() == old(self).thread_count(),
            final(self).wf() == old(self).wf(),
    {
        self.views = String::from_str(path);
    }

    /// Registers `handler` for GET requests to `end_point`, white space trimmed.
    pub fn get(&mut self, end_point: &str, handler: usize)
        requires
            old(self).wf(),
        ensures
            final(self).wf(),
            final(self).get_map() == old(self).get_map().insert(trim(end_point@), handler),
            forall|i: int| 0 <= i < old(self).get_routes().len() ==> #[trigger] final(self).get_routes()[i].0 == old(self).get_routes()[i].0,
            old(self).get_map().dom().contains(trim(end_point@)) ==> final(self).get_routes().len() == old(self).get_routes().len(),
            !old(self).get_map().dom().contains(trim(end_point@)) ==> final(self).get_routes() == old(self).get_routes().push((trim(end_point@), handler)),
            final(self).set_routes() == old(self).set_routes(),
            final(self).views_dir() == old(self).views_dir(),
            final(self).static_dir() == old(self).static_dir(),
            final(self).thread_count() == old(self).thread_count(),
    {
        let key = trim_str(end_point);
        self.getter.insert(key, handler);
    }

    /// Registers `handler` for SET requests to `end_point`, white space trimmed.
    pub fn set(&mut self, end_point: &str, handler: usize)
        requires
            old(self).wf(),
        ensures
            final(self).wf(),
            final(self).set_map() == old(self).set_map().insert(trim(end_point@), handler),
            forall|i: int| 0 <= i < old(self).set_routes().len() ==> #[trigger] final(self).set_routes()[i].0 == old(self).set_routes()[i].0,
            old(self).set_map().dom().contains(trim(end_point@)) ==> final(self).set_routes().len() == old(self).set_routes().len(),
            !old(self).set_map().dom().contains(trim(end_point@)) ==> final(self).set_routes() == old(self).set_routes().push((trim(end_point@), handler)),
            final(self).get_routes() == old(self).get_routes(),
            final(self).views_dir() == old(self).views_dir(),
            final(self).static_dir() == old(self).static_dir(),
            final(self).thread_count() == old(self).thread_count(),
    {
        let key = trim_str(end_point);
        self.setter.insert(key, handler);
    }

    /// The directory that views are rendered from.
    pub fn views(&self) -> (res: &String)
        ensures
            res@ == self.views_dir(),
    {
        &self.views
    }

    /// The number of worker threads.
    pub fn threads(&self) -> (res: u16)
        ensures
            res == self.thread_count(),
    {
        self.threads
    }

    /// What the server does with a request of kind `st` for the endpoint `endp`.
    pub fn route(&self, st: HttpStatus, endp: &String) -> (res: Dispatch)
        requires
            self.wf(),
        ensures
            carries_out(res, self.plan(st, endp@)),
    {
        proof {
            reveal_strlit("");
        }
        let empty = "";
        assert(empty@ =~= Seq::<char>::empty());
        match st {
            HttpStatus::Get => {
                let request = Request::new(endp.as_str(), endp.as_str());
                match self.getter.find(endp) {
                    Some(i) => Dispatch::Handler { handler: *self.getter.value_at(i), request },
                    None => Dispatch::Fallback { request },
                }
            },
            HttpStatus::SetVerb => {
                let request = Request::new(endp.as_str(), endp.as_str());
                match self.setter.find(endp) {
                    Some(i) => Dispatch::Handler { handler: *self.setter.value_at(i), request },
                    None => Dispatch::Fallback { request },
                }
            },
            HttpStatus::File => {
                let mut path = self.static_folder.clone();
                proof {
                    reveal_strlit("/");
                }
                path.append("/");
                path.append(endp.as_str());
                assert(path@ =~= self.static_dir() + seq!['/'] + endp@);
                Dispatch::File { path }
            },
            HttpStatus::NotFound => Dispatch::Fallback { request: Request::new(empty, empty) },
        }
    }

    /// What the server does with the request in `buffer`; `None` where the endpoint
    /// cannot be cut out of the decoded text.
    pub fn dispatch(&self, buffer: &[u8]) -> (res: Option<Dispatch>)
        requires
            self.wf(),
        ensures
            res is Some <==> chop_defined(utf8_lossy(buffer@)),
            res matches Some(d) ==> carries_out(
                d,
                self.plan(status_of(buffer@, endpoint_of(utf8_lossy(buffer@))), endpoint_of(utf8_lossy(buffer@))),
            ),
    {
        match handle_conection(buffer) {
            Some((st, endp)) => Some(self.route(st, &endp)),
            None => None,
        }
    }
}

/// The text that the fallback handler sends: `nada que mostrar`.
pub open spec fn fallback_text() -> Seq<char> {
    seq!['n', 'a', 'd', 'a', ' ', 'q', 'u', 'e', ' ', 'm', 'o', 's', 't', 'r', 'a', 'r']
}

/// What a request that reaches no handler is answered: the text response of
/// `nada que mostrar`.
pub fn fallback_response() -> (res: String)
    ensures
        res@ == text_message(fallback_text()),
{
    proof {
        reveal_strlit("nada que mostrar");
        assert("nada que mostrar"@ =~= fallback_text());
    }
    text_response("nada que mostrar")
}

/// A GET route registered for an endpoint is what a GET request for that endpoint,
/// white space trimmed, reaches.
pub proof fn lemma_get_route_reaches_handler(before: App, after: App, end_point: Seq<char>, handler: usize)
    requires
        after.get_map() == before.get_map().insert(trim(end_point), handler),
    ensures
        after.plan(HttpStatus::Get, trim(end_point)) == Plan::Handler(handler, trim(end_point), trim(end_point)),
{
}

/// A SET route registered for an endpoint is what a SET request for that endpoint,
/// white space trimmed, reaches.
pub proof fn lemma_set_route_reaches_handler(before: App, after: App, end_point: Seq<char>, handler: usize)
    requires
        after.set_map() == before.set_map().insert(trim(end_point), handler),
    ensures
        after.plan(HttpStatus::SetVerb, trim(end_point)) == Plan::Handler(handler, trim(end_point), trim(end_point)),
{
}

/// Every segment of the pattern names a parameter: a request built from an
/// endpoint against itself maps each of its segments to itself.
pub proof fn lemma_segments_name_themselves(e: Seq<char>, i: int)
    requires
        0 <= i < split(e, '/').len(),
    ensures
        text_params(e, e).dom().contains(split(e, '/')[i]),
        text_params(e, e)[split(e, '/')[i]] == split(e, '/')[i],
{
    let o = split(e, '/');
    lemma_params_self(o, o.len() as nat, i);
}

proof fn lemma_params_self(o: Seq<Seq<char>>, n: nat, i: int)
    requires
        0 <= i < n <= o.len(),
    ensures
        params_from(o, o, n).dom().contains(o[i]),
        params_from(o, o, n)[o[i]] == o[i],
    decreases n,
{
    if i < n - 1 {
        lemma_params_self(o, (n - 1) as nat, i);
    }
}

/// A request is for a file exactly when its endpoint holds a `.` somewhere, whatever
/// its method.
pub proof fn lemma_file_iff_dot(buffer: Seq<u8>, endp: Seq<char>)
    ensures
        (status_of(buffer, endp) == HttpStatus::File) <==> exists|i: int| 0 <= i < endp.len() && endp[i] == '.',
{
}

/// A SET request is answered from the SET routes alone: one for an endpoint with no
/// SET route goes to the fallback, whatever GET routes there are.
pub proof fn lemma_set_uses_set_routes_only(a: App, b: App, endp: Seq<char>)
    requires
        a.set_routes() == b.set_routes(),
    ensures
        a.plan(HttpStatus::SetVerb, endp) == b.plan(HttpStatus::SetVerb, endp),
        !a.set_map().dom().contains(endp) ==> a.plan(HttpStatus::SetVerb, endp) == Plan::Fallback(endp, endp),
{
}

/// A GET request is answered from the GET routes alone.
pub proof fn lemma_get_uses_get_routes_only(a: App, b: App, endp: Seq<char>)
    requires
        a.get_routes() == b.get_routes(),
    ensures
        a.plan(HttpStatus::Get, endp) == b.plan(HttpStatus::Get, endp),
        !a.get_map().dom().contains(endp) ==> a.plan(HttpStatus::Get, endp) == Plan::Fallback(endp, endp),
{
}

proof fn lemma_text_params_position(r: Seq<Seq<char>>, o: Seq<Seq<char>>, n: nat, i: int)
    requires
        0 <= i < n <= o.len(),
        forall|j: int| i < j < n ==> #[trigger] o[j] != o[i],
    ensures
        params_from(r, o, n).dom().contains(o[i]),
        params_from(r, o, n)[o[i]] == r[i],
    decreases n,
{
    if i < n - 1 {
        lemma_text_params_position(r, o, (n - 1) as nat, i);
    }
}

/// Each segment of the pattern takes the received segment at its own position,
/// unless a later segment of the same name overrides it.
pub proof fn lemma_segment_takes_its_own_value(recibed: Seq<char>, original: Seq<char>, i: int)
    requires
        split(recibed, '/').len() >= split(original, '/').len(),
        0 <= i < split(original, '/').len(),
        forall|j: int| i < j < split(original, '/').len() ==> #[trigger] split(original, '/')[j] != split(original, '/')[i],
    ensures
        text_params(recibed, original).dom().contains(split(original, '/')[i]),
        text_params(recibed, original)[split(original, '/')[i]] == split(recibed, '/')[i],
{
    lemma_text_params_position(split(recibed, '/'), split(original, '/'), split(original, '/').len(), i);
}

} // verus!
