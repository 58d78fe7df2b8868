//! The server without its connections: what it answers to a request that
//! was assembled.

use vstd::prelude::*;
use crate::assembler::{number_of, parse_usize};
use crate::config::{
    files_for, mapping_views, with_dir, with_mappings, Mapping, OctaneConfig,
};
use crate::path::{split_path, valid_chunks};
use crate::constants::{code_of, StatusCode};
use crate::head::{drop_blanks, same_text, skip_blanks, trim};
use crate::registry::Registry;
use crate::request::{header_value, lower_all, lowered, HttpVersion, Request, RequestMethod};
use crate::responder::{reason_of, Response};
use crate::router::{routed, served, Closure, Flow, Route, Router, RouterResult};
use crate::util::{chars_of, find_char, first_of, pair_views, text_of};

verus! {

/// How the cycle of one request ends, as a mathematical value.
pub enum OutcomeView {
    Respond,
    Files(Seq<(Seq<char>, Seq<char>)>),
    Error(StatusCode),
}

/// How the cycle of one request ends.
pub enum Outcome {
    /// The response is sent as the handlers left it.
    Respond,
    /// No handler gave the response a body: the files are tried, each a
    /// directory and the name of a file in it. A file that is missing ends
    /// the cycle with `StatusCode::NotFound`.
    Files(Vec<(String, String)>),
    /// The status is reported.
    Error(StatusCode),
}

impl View for Outcome {
    type V = OutcomeView;

    open spec fn view(&self) -> OutcomeView {
        match self {
            Outcome::Respond => OutcomeView::Respond,
            Outcome::Files(files) => OutcomeView::Files(pair_views(files@)),
            Outcome::Error(status) => OutcomeView::Error(*status),
        }
    }
}

/// How the cycle ends once the handlers have run: a response with a body
/// is sent, and no file is tried. Without a body, a GET request for which
/// there are files to try tries them; any other request was not found.
pub open spec fn resolve(
    has_body: bool,
    method: RequestMethod,
    files: Seq<(Seq<char>, Seq<char>)>,
) -> OutcomeView {
    if has_body {
        OutcomeView::Respond
    } else if method == RequestMethod::Get && files.len() > 0 {
        OutcomeView::Files(files)
    } else {
        OutcomeView::Error(StatusCode::NotFound)
    }
}

/// How the cycle ends once the handlers have run.
pub fn conclude(has_body: bool, method: RequestMethod, files: Vec<(String, String)>) -> (outcome:
    Outcome)
    ensures
        outcome@ == resolve(has_body, method, pair_views(files@)),
{
    if has_body {
        Outcome::Respond
    } else if method == RequestMethod::Get && files.len() > 0 {
        Outcome::Files(files)
    } else {
        Outcome::Error(StatusCode::NotFound)
    }
}

/// The seconds that a `keep-alive` header grants: the number behind
/// `timeout=` in the first of its parts, cut at the commas, that has this
/// name; nothing if no part has it or what stands behind it is no number.
pub open spec fn timeout_of(value: Seq<char>) -> Option<usize>
    decreases value.len(),
{
    let n = first_of(value, ',');
    let part = trim(value.take(n as int));
    let eq = first_of(part, '=');
    if eq < part.len() && lower_all(part.take(eq as int)) == "timeout"@ {
        number_of(part.skip(eq as int + 1))
    } else if n >= value.len() {
        None
    } else {
        timeout_of(value.skip(n as int + 1))
    }
}

/// The seconds that a `keep-alive` header grants.
pub fn timeout(value: &str) -> (r: Option<usize>)
    ensures
        r == timeout_of(value@),
{
    let chars = chars_of(value);
    let n = chars.len();
    let mut pos: usize = 0;
    proof {
        assert(chars@.skip(0) == chars@);
    }
    loop
        invariant
            n == chars@.len(),
            pos <= n,
            chars@ == value@,
            timeout_of(value@) == timeout_of(chars@.skip(pos as int)),
        decreases n - pos,
    {
        let ghost tail = chars@.skip(pos as int);
        let end = find_char(&chars, pos, n, ',');
        proof {
            assert(tail.take(end - pos) == chars@.subrange(pos as int, end as int));
        }
        let from = skip_blanks(&chars, pos, end);
        let to = drop_blanks(&chars, from, end);
        let ghost part = chars@.subrange(from as int, to as int);
        let eq = find_char(&chars, from, to, '=');
        if eq < to {
            let name = lowered(&chars, from, eq);
            let letters = chars_of(name.as_str());
            proof {
                assert(part.take(eq - from) == chars@.subrange(from as int, eq as int));
                assert(letters@.subrange(0, letters@.len() as int) == letters@);
            }
            if same_text(&letters, 0, letters.len(), "timeout") {
                let number = text_of(&chars, eq + 1, to);
                proof {
                    assert(part.skip(eq - from + 1) == chars@.subrange(eq as int + 1, to as int));
                }
                return parse_usize(number.as_str());
            }
        }
        if end >= n {
            return None;
        }
        proof {
            assert(tail.skip(end - pos + 1) == chars@.skip(end as int + 1));
        }
        pos = end + 1;
    }
}

/// What is to be done about keeping the connection: nothing, unless the
/// request's `connection` header asks to keep it alive. Then a request of
/// version 1.0 that has a `keep-alive` header sets the time that the
/// header grants, or zero seconds if it grants none; a request of version
/// 1.1 sets the time of the server's settings.
pub open spec fn keep_alive_for(
    headers: Seq<(Seq<char>, Seq<char>)>,
    version: HttpVersion,
    default: Option<u64>,
) -> Option<Option<u64>> {
    match header_value(headers, lower_all("connection"@)) {
        Some(connection) => if lower_all(connection) == "keep-alive"@ {
            match version {
                HttpVersion::Http10 => match header_value(headers, lower_all("keep-alive"@)) {
                    Some(granted) => Some(
                        Some(
                            match timeout_of(granted) {
                                Some(seconds) => seconds as u64,
                                None => 0u64,
                            },
                        ),
                    ),
                    None => None,
                },
                HttpVersion::Http11 => Some(default),
                HttpVersion::Http2 => None,
            }
        } else {
            None
        },
        None => None,
    }
}

/// The body of the response that reports `status`: the bytes of the file
/// for what was not found, where the status is that, the settings name
/// such a file and its bytes were read; the words of the status otherwise.
pub open spec fn declared_body(
    status: StatusCode,
    missing_file: Seq<char>,
    page: Option<Vec<u8>>,
) -> Seq<u8> {
    if status == StatusCode::NotFound && missing_file.len() > 0 && page is Some {
        page.unwrap()@
    } else {
        vstd::utf8::encode_utf8(reason_of(code_of(status)))
    }
}

/// The server: its settings and its registry of handlers. The registry is
/// well formed at all times, and no location has two mappings.
pub struct Octane {
    settings: OctaneConfig,
    router: Router,
}

impl Octane {
    #[verifier::type_invariant]
    spec fn inv(self) -> bool {
        self.router.wf() && self.settings.wf()
    }

    /// The settings of the server, as mathematical values: the time for
    /// idle connections, and the mappings of locations to directories.
    pub closed spec fn keeps(&self) -> Option<u64> {
        self.settings.keep_alive
    }

    /// The mappings of locations to directories.
    pub closed spec fn mappings(&self) -> Seq<Mapping> {
        mapping_views(self.settings.static_dir@)
    }

    /// The file that answers what was not found.
    pub closed spec fn missing_file(&self) -> Seq<char> {
        self.settings.file_404@
    }

    /// A server without handlers, with the settings of `OctaneConfig::new`.
    pub fn new() -> (app: Octane)
        ensures
            app.registry() == Registry::empty(),
            app.keeps() is None,
            app.mappings() == Seq::<Mapping>::empty(),
            app.missing_file() == Seq::<char>::empty(),
    {
        Octane { settings: OctaneConfig::new(), router: Router::new() }
    }

    /// Takes the registry out and leaves an empty one in its place. A
    /// method that changes the registry works on what it took and puts it
    /// back, so that the server holds a well-formed registry at every
    /// moment.
    fn take_router(&mut self) -> (router: Router)
        ensures
            router.wf(),
            router@ == old(self).registry(),
            final(self).settings == old(self).settings,
    {
        proof {
            use_type_invariant(&*self);
        }
        let mut router = Router::new();
        core::mem::swap(&mut self.router, &mut router);
        router
    }

    /// Puts a registry in the place of the one that the server holds.
    fn put_router(&mut self, router: Router)
        requires
            router.wf(),
        ensures
            final(self).registry() == router@,
            final(self).settings == old(self).settings,
    {
        proof {
            use_type_invariant(&*self);
        }
        let mut router = router;
        core::mem::swap(&mut self.router, &mut router);
    }

    /// Takes the settings out and leaves those of `OctaneConfig::new` in
    /// their place.
    fn take_settings(&mut self) -> (settings: OctaneConfig)
        ensures
            settings.wf(),
            settings == old(self).settings,
            final(self).router == old(self).router,
    {
        proof {
            use_type_invariant(&*self);
        }
        let mut settings = OctaneConfig::new();
        core::mem::swap(&mut self.settings, &mut settings);
        settings
    }

    /// Puts settings in the place of those that the server holds.
    fn put_settings(&mut self, settings: OctaneConfig)
        requires
            settings.wf(),
        ensures
            final(self).settings == settings,
            final(self).router == old(self).router,
    {
        proof {
            use_type_invariant(&*self);
        }
        let mut settings = settings;
        core::mem::swap(&mut self.settings, &mut settings);
    }

    /// The registry of handlers.
    pub fn router(&self) -> (router: &Router)
        ensures
            router.wf(),
            router@ == self.registry(),
    {
        proof {
            use_type_invariant(self);
        }
        &self.router
    }

    /// The settings.
    pub fn settings(&self) -> (settings: &OctaneConfig)
        ensures
            settings.wf(),
            settings.keep_alive == self.keeps(),
            mapping_views(settings.static_dir@) == self.mappings(),
            settings.file_404@ == self.missing_file(),
    {
        proof {
            use_type_invariant(self);
        }
        &self.settings
    }

    /// Registers `closure` for OPTIONS requests, under the pattern `path`.
    pub fn options(&mut self, path: &str, closure: Closure) -> (r: RouterResult)
        requires
            valid_chunks(split_path(path@)) ==> old(self).registry().counter < usize::MAX,
        ensures
            routed(
                old(self).registry(),
                final(self).registry(),
                RequestMethod::Options,
                path@,
                closure,
                r,
            ),
            final(self).keeps() == old(self).keeps(),
            final(self).mappings() == old(self).mappings(),
            final(self).missing_file() == old(self).missing_file(),
    {
        let mut router = self.take_router();
        let r = router.register(RequestMethod::Options, path, closure);
        self.put_router(router);
        r
    }

    /// Takes over the handlers of `router`, as `Router::append` does.
    pub fn use_router(&mut self, router: Router)
        requires
            router.wf(),
            old(self).registry().counter + router.route_counter <= usize::MAX,
        ensures
            final(self).registry() == old(self).registry().appended(router@),
            final(self).keeps() == old(self).keeps(),
            final(self).mappings() == old(self).mappings(),
            final(self).missing_file() == old(self).missing_file(),
    {
        let mut own = self.take_router();
        own.append(router);
        self.put_router(own);
    }

    /// Takes over the settings of `config`, as `OctaneConfig::append` does.
    pub fn with_config(&mut self, config: OctaneConfig)
        ensures
            final(self).registry() == old(self).registry(),
            final(self).keeps() == config.keep_alive,
            final(self).missing_file() == config.file_404@,
            final(self).mappings() == with_mappings(
                old(self).mappings(),
                mapping_views(config.static_dir@),
            ),
    {
        let mut settings = self.take_settings();
        settings.append(config);
        self.put_settings(settings);
    }

    /// Sets for how many seconds an idle connection is kept.
    pub fn set_keepalive(&mut self, seconds: u64)
        ensures
            final(self).keeps() == Some(seconds),
            final(self).registry() == old(self).registry(),
            final(self).mappings() == old(self).mappings(),
            final(self).missing_file() == old(self).missing_file(),
    {
        let mut settings = self.take_settings();
        settings.set_keepalive(seconds);
        self.put_settings(settings);
    }

    /// Lets the directory `dir_name` serve the files below the location
    /// `loc`, as `OctaneConfig::add_static_dir` does.
    pub fn add_static_dir(&mut self, loc: &str, dir_name: &str)
        ensures
            final(self).mappings() == with_dir(old(self).mappings(), split_path(loc@), dir_name@),
            final(self).registry() == old(self).registry(),
            final(self).keeps() == old(self).keeps(),
            final(self).missing_file() == old(self).missing_file(),
    {
        let mut settings = self.take_settings();
        settings.add_static_dir(loc, dir_name);
        self.put_settings(settings);
    }

    /// Sets the file that answers a request for which nothing was found.
    pub fn set_404_file(&mut self, name: &str)
        ensures
            final(self).missing_file() == name@,
            final(self).registry() == old(self).registry(),
            final(self).keeps() == old(self).keeps(),
            final(self).mappings() == old(self).mappings(),
    {
        let mut settings = self.take_settings();
        settings.set_404_file(name);
        self.put_settings(settings);
    }

    /// The file whose bytes, if it can be read, answer `status` in place of
    /// the words of the status: the one that the settings name for what was
    /// not found, and none for any other status.
    pub fn error_file(&self, status: StatusCode) -> (file: Option<&String>)
        ensures
            match file {
                Some(name) => status == StatusCode::NotFound && name@ == self.missing_file()
                    && name@.len() > 0,
                None => status != StatusCode::NotFound || self.missing_file().len() == 0,
            },
    {
        if status == StatusCode::NotFound && !self.settings.file_404.as_str().is_empty() {
            Some(&self.settings.file_404)
        } else {
            None
        }
    }

    /// The response that reports `status`. Its body is `page`, the bytes
    /// of the file that `error_file` names, where they were read; the words
    /// of the status otherwise, and for a status that has no such file.
    pub fn declare(&self, status: StatusCode, page: Option<Vec<u8>>) -> (res: Response)
        ensures
            res.status == code_of(status),
            res.headers@.len() == 0,
            res.has_body,
            res.body@ == declared_body(status, self.missing_file(), page),
    {
        let mut res = Response::error(status);
        if status == StatusCode::NotFound && !self.settings.file_404.as_str().is_empty() {
            match page {
                Some(bytes) => {
                    res.send(bytes.as_slice());
                },
                None => {},
            }
        }
        res
    }

    /// What is to be done about keeping the connection of `request`.
    pub fn keep_alive(&self, request: &Request) -> (r: Option<Option<u64>>)
        ensures
            r == keep_alive_for(request.headers@, request.request_line.version, self.keeps()),
    {
        let connection = match request.headers.get("connection") {
            Some(connection) => connection,
            None => {
                return None;
            },
        };
        let chars = chars_of(connection.as_str());
        let lowered_value = lowered(&chars, 0, chars.len());
        let letters = chars_of(lowered_value.as_str());
        proof {
            assert(chars@.subrange(0, chars@.len() as int) == chars@);
            assert(letters@.subrange(0, letters@.len() as int) == letters@);
        }
        if !same_text(&letters, 0, letters.len(), "keep-alive") {
            return None;
        }
        match request.request_line.version {
            HttpVersion::Http10 => match request.headers.get("keep-alive") {
                Some(granted) => match timeout(granted.as_str()) {
                    Some(seconds) => Some(Some(seconds as u64)),
                    None => Some(Some(0)),
                },
                None => None,
            },
            HttpVersion::Http11 => Some(self.settings.keep_alive),
            HttpVersion::Http2 => None,
        }
    }

    /// Serves a request that was assembled. A request whose method the
    /// server does not know is not implemented, and no handler runs.
    /// Otherwise the handlers run as `Router::run` says, and the cycle ends
    /// as `resolve` says on the files that the settings give for the path.
    pub fn respond(&self, request: Request, res: &mut Response) -> (outcome: Outcome)
        ensures
            request.request_line.method == RequestMethod::Unknown ==> outcome@
                == OutcomeView::Error(StatusCode::NotImplemented) && *final(res) == *old(res),
            request.request_line.method != RequestMethod::Unknown ==> outcome@ == resolve(
                final(res).has_body,
                request.request_line.method,
                files_for(self.mappings(), request.request_line.path@),
            ) && exists|flows: Seq<Flow>, states: Seq<Response>|
                served(
                    self.registry().dispatch_order(
                        request.request_line.method,
                        request.request_line.path@,
                    ),
                    request,
                    *old(res),
                    *final(res),
                    flows,
                    states,
                ),
    {
        proof {
            use_type_invariant(self);
        }
        let method = request.request_line.method;
        if !method.is_some() {
            return Outcome::Error(StatusCode::NotImplemented);
        }
        let files = self.settings.files(&request.request_line.path);
        self.router.run(request, res);
        proof {
            let order = self.router@.dispatch_order(
                request.request_line.method,
                request.request_line.path@,
            );
            let (flows, states) = choose|flows: Seq<Flow>, states: Seq<Response>|
                served(order, request, *old(res), *res, flows, states);
            assert(served(
                self.registry().dispatch_order(
                    request.request_line.method,
                    request.request_line.path@,
                ),
                request,
                *old(res),
                *res,
                flows,
                states,
            ));
        }
        conclude(res.has_body, method, files)
    }
}

impl Default for Octane {
    /// A server without handlers, with the settings of `OctaneConfig::new`.
    fn default() -> (app: Octane)
        ensures
            app.registry() == Registry::empty(),
            app.keeps() is None,
            app.mappings() == Seq::<Mapping>::empty(),
            app.missing_file() == Seq::<char>::empty(),
    {
        Octane::new()
    }
}

impl Route for Octane {
    closed spec fn registry(&self) -> Registry {
        self.router@
    }

    /// The server keeps its registry well formed by itself.
    open spec fn sound(&self) -> bool {
        true
    }

    fn add_route(&mut self, path: &str, closure: Closure) -> (r: RouterResult)
        ensures
            final(self).keeps() == old(self).keeps(),
            final(self).mappings() == old(self).mappings(),
            final(self).missing_file() == old(self).missing_file(),
    {
        let mut router = self.take_router();
        let r = router.add_route(path, closure);
        self.put_router(router);
        r
    }

    fn head(&mut self, path: &str, closure: Closure) -> (r: RouterResult)
        ensures
            final(self).keeps() == old(self).keeps(),
            final(self).mappings() == old(self).mappings(),
            final(self).missing_file() == old(self).missing_file(),
    {
        let mut router = self.take_router();
        let r = router.head(path, closure);
        self.put_router(router);
        r
    }

    fn post(&mut self, path: &str, closure: Closure) -> (r: RouterResult)
        ensures
            final(self).keeps() == old(self).keeps(),
            final(self).mappings() == old(self).mappings(),
            final(self).missing_file() == old(self).missing_file(),
    {
        let mut router = self.take_router();
        let r = router.post(path, closure);
        self.put_router(router);
        r
    }

    fn get(&mut self, path: &str, closure: Closure) -> (r: RouterResult)
        ensures
            final(self).keeps() == old(self).keeps(),
            final(self).mappings() == old(self).mappings(),
            final(self).missing_file() == old(self).missing_file(),
    {
        let mut router = self.take_router();
        let r = router.get(path, closure);
        self.put_router(router);
        r
    }

    fn put(&mut self, path: &str, closure: Closure) -> (r: RouterResult)
        ensures
            final(self).keeps() == old(self).keeps(),
            final(self).mappings() == old(self).mappings(),
            final(self).missing_file() == old(self).missing_file(),
    {
        let mut router = self.take_router();
        let r = router.put(path, closure);
        self.put_router(router);
        r
    }

    fn delete(&mut self, path: &str, closure: Closure) -> (r: RouterResult)
        ensures
            final(self).keeps() == old(self).keeps(),
            final(self).mappings() == old(self).mappings(),
            final(self).missing_file() == old(self).missing_file(),
    {
        let mut router = self.take_router();
        let r = router.delete(path, closure);
        self.put_router(router);
        r
    }

    fn patch(&mut self, path: &str, closure: Closure) -> (r: RouterResult)
        ensures
            final(self).keeps() == old(self).keeps(),
            final(self).mappings() == old(self).mappings(),
            final(self).missing_file() == old(self).missing_file(),
    {
        let mut router = self.take_router();
        let r = router.patch(path, closure);
        self.put_router(router);
        r
    }

    fn add(&mut self, entity: Closure) -> (r: RouterResult)
        ensures
            final(self).keeps() == old(self).keeps(),
            final(self).mappings() == old(self).mappings(),
            final(self).missing_file() == old(self).missing_file(),
    {
        let mut router = self.take_router();
        let r = router.add(entity);
        self.put_router(router);
        r
    }
}

} // verus!
