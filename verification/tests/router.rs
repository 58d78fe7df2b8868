use octane::path::PathBuf;
use octane::request::RequestMethod;
use octane::router::{route, route_next, route_stop, Flow, Route, Router};

#[test]
#[allow(unused_variables)]
pub fn router_test() {
    let mut router = Router::new();
    router.add(route(|req, res| Flow::Next)).unwrap();
    router.get("/", route(|req, res| Flow::Next)).unwrap();
    router.post("/", route(|req, res| Flow::Next)).unwrap();
    router.head("/", route(|req, res| Flow::Next)).unwrap();
    router.put("/", route(|req, res| Flow::Next)).unwrap();
    router.delete("/", route(|req, res| Flow::Next)).unwrap();
    // middleware with path
    assert_eq!(5, router.paths.len());
    // middleware without paths
    assert_eq!(1, router.middlewares.len());
}

#[test]
#[allow(unused_variables)]
pub fn router_append_test() {
    let mut first_router = Router::new();
    first_router.add(route(|req, res| Flow::Next)).unwrap();
    first_router.get("/", route(|req, res| Flow::Next)).unwrap();
    first_router.post("/", route(|req, res| Flow::Next)).unwrap();
    first_router.head("/", route(|req, res| Flow::Next)).unwrap();
    first_router.put("/", route(|req, res| Flow::Next)).unwrap();
    first_router.delete("/", route(|req, res| Flow::Next)).unwrap();
    let mut second_router = Router::new();
    second_router.add(route(|req, res| Flow::Next)).unwrap();
    second_router.get("/", route(|req, res| Flow::Next)).unwrap();
    second_router.post("/", route(|req, res| Flow::Next)).unwrap();
    second_router.head("/", route(|req, res| Flow::Next)).unwrap();
    second_router.put("/", route(|req, res| Flow::Next)).unwrap();
    second_router.delete("/", route(|req, res| Flow::Next)).unwrap();
    first_router.append(second_router);
    // middleware tied without path
    assert_eq!(2, first_router.middlewares.len());
    assert_eq!(
        2,
        first_router
            .paths
            .get(&RequestMethod::Get)
            .unwrap()
            .get(&PathBuf::parse("/").unwrap())
            .len()
    );

    assert_eq!(
        2,
        first_router
            .paths
            .get(&RequestMethod::Delete)
            .unwrap()
            .get(&PathBuf::parse("/").unwrap())
            .len()
    );
    assert_eq!(
        2,
        first_router
            .paths
            .get(&RequestMethod::Post)
            .unwrap()
            .get(&PathBuf::parse("/").unwrap())
            .len()
    );
    assert_eq!(
        2,
        first_router
            .paths
            .get(&RequestMethod::Head)
            .unwrap()
            .get(&PathBuf::parse("/").unwrap())
            .len()
    );
    assert_eq!(
        2,
        first_router
            .paths
            .get(&RequestMethod::Put)
            .unwrap()
            .get(&PathBuf::parse("/").unwrap())
            .len()
    );
}

fn request(method: RequestMethod, target: &str) -> octane::request::Request {
    octane::request::Request {
        request_line: octane::request::RequestLine {
            method,
            path: PathBuf::parse(target).unwrap(),
            version: octane::request::HttpVersion::Http11,
        },
        headers: octane::request::Headers { pairs: Vec::new() },
        body: Vec::new(),
    }
}

fn recorder(
    log: &std::sync::Arc<std::sync::Mutex<Vec<usize>>>,
    id: usize,
    flow: Flow,
) -> octane::router::Closure {
    let log = std::sync::Arc::clone(log);
    route(move |_req, _res| {
        log.lock().unwrap().push(id);
        flow
    })
}

#[test]
fn flow_should_continue_only_for_next() {
    assert!(Flow::Next.should_continue());
    assert!(!Flow::Stop.should_continue());
}

#[test]
fn registration_counts_and_numbers_the_handlers() {
    let mut router = Router::new();
    assert_eq!(router.route_counter, 0);
    assert_eq!(router.get("/a", route(|_req, _res| Flow::Next)), Ok(0));
    assert_eq!(router.add(route(|_req, _res| Flow::Next)), Ok(1));
    assert_eq!(router.add_route("/a", route(|_req, _res| Flow::Next)), Ok(2));
    assert_eq!(router.route_counter, 3);
    assert_eq!(router.middlewares[0].index, 1);
    let get = router.paths.get(&RequestMethod::Get).unwrap().get(&PathBuf::parse("/a").unwrap());
    assert_eq!(get.len(), 1);
    assert_eq!(get[0].index, 0);
    let all = router.paths.get(&RequestMethod::All).unwrap().get(&PathBuf::parse("/a").unwrap());
    assert_eq!(all[0].index, 2);
}

#[test]
fn malformed_pattern_is_refused_and_changes_nothing() {
    let mut router = Router::new();
    router.get("/a", route(|_req, _res| Flow::Next)).unwrap();
    let refused = router.post("/users/:", route(|_req, _res| Flow::Next));
    assert_eq!(refused, Err(octane::error::InvalidPathError));
    assert_eq!(router.route_counter, 1);
    assert_eq!(router.paths.len(), 1);
    assert!(router.paths.get(&RequestMethod::Post).is_none());
}

#[test]
fn handlers_run_in_the_order_of_registration() {
    let log = std::sync::Arc::new(std::sync::Mutex::new(Vec::new()));
    let mut router = Router::new();
    router.add_route("/x", recorder(&log, 0, Flow::Next)).unwrap();
    router.get("/x", recorder(&log, 1, Flow::Next)).unwrap();
    router.add(recorder(&log, 2, Flow::Next)).unwrap();
    router.get("/:any", recorder(&log, 3, Flow::Next)).unwrap();
    router.add(recorder(&log, 4, Flow::Next)).unwrap();
    router.add_route("/*", recorder(&log, 5, Flow::Next)).unwrap();
    router.post("/x", recorder(&log, 6, Flow::Next)).unwrap();
    router.get("/y", recorder(&log, 7, Flow::Next)).unwrap();
    let mut res = octane::responder::Response::new(b"");
    router.run(request(RequestMethod::Get, "/x"), &mut res);
    assert_eq!(*log.lock().unwrap(), vec![0, 1, 2, 3, 4, 5]);
}

#[test]
fn append_runs_like_registering_in_one_router() {
    let log = std::sync::Arc::new(std::sync::Mutex::new(Vec::new()));
    let mut first = Router::new();
    first.get("/x", recorder(&log, 0, Flow::Next)).unwrap();
    first.add(recorder(&log, 1, Flow::Next)).unwrap();
    let mut second = Router::new();
    second.add(recorder(&log, 2, Flow::Next)).unwrap();
    second.get("/:v", recorder(&log, 3, Flow::Next)).unwrap();
    second.add_route("/x", recorder(&log, 4, Flow::Next)).unwrap();
    first.append(second);
    assert_eq!(first.route_counter, 5);
    assert_eq!(first.middlewares[1].index, 2);
    let mut res = octane::responder::Response::new(b"");
    first.run(request(RequestMethod::Get, "/x"), &mut res);

    let direct_log = std::sync::Arc::new(std::sync::Mutex::new(Vec::new()));
    let mut direct = Router::new();
    direct.get("/x", recorder(&direct_log, 0, Flow::Next)).unwrap();
    direct.add(recorder(&direct_log, 1, Flow::Next)).unwrap();
    direct.add(recorder(&direct_log, 2, Flow::Next)).unwrap();
    direct.get("/:v", recorder(&direct_log, 3, Flow::Next)).unwrap();
    direct.add_route("/x", recorder(&direct_log, 4, Flow::Next)).unwrap();
    let mut direct_res = octane::responder::Response::new(b"");
    direct.run(request(RequestMethod::Get, "/x"), &mut direct_res);

    assert_eq!(*log.lock().unwrap(), vec![0, 1, 2, 3, 4]);
    assert_eq!(*log.lock().unwrap(), *direct_log.lock().unwrap());
}

#[test]
fn stop_ends_the_chain() {
    let log = std::sync::Arc::new(std::sync::Mutex::new(Vec::new()));
    let mut router = Router::new();
    router.add(recorder(&log, 0, Flow::Next)).unwrap();
    router.get("/", recorder(&log, 1, Flow::Stop)).unwrap();
    router.get("/", recorder(&log, 2, Flow::Next)).unwrap();
    router.add(recorder(&log, 3, Flow::Next)).unwrap();
    let mut res = octane::responder::Response::new(b"");
    router.run(request(RequestMethod::Get, "/"), &mut res);
    assert_eq!(*log.lock().unwrap(), vec![0, 1]);
}

#[test]
fn body_ends_the_chain_though_the_handler_continues() {
    let log = std::sync::Arc::new(std::sync::Mutex::new(Vec::new()));
    let mut router = Router::new();
    let first = std::sync::Arc::clone(&log);
    router
        .get(
            "/",
            route(move |_req, res| {
                first.lock().unwrap().push(0);
                res.send(b"done");
                Flow::Next
            }),
        )
        .unwrap();
    router.get("/", recorder(&log, 1, Flow::Next)).unwrap();
    let mut res = octane::responder::Response::new(b"");
    router.run(request(RequestMethod::Get, "/"), &mut res);
    assert_eq!(*log.lock().unwrap(), vec![0]);
    assert_eq!(res.body, b"done".to_vec());
}

#[test]
fn response_with_a_body_runs_no_handler() {
    let log = std::sync::Arc::new(std::sync::Mutex::new(Vec::new()));
    let mut router = Router::new();
    router.get("/", recorder(&log, 0, Flow::Next)).unwrap();
    let mut res = octane::responder::Response::new(b"already");
    router.run(request(RequestMethod::Get, "/"), &mut res);
    assert!(log.lock().unwrap().is_empty());
    assert_eq!(res.body, b"already".to_vec());
}

#[test]
fn get_root_stops_with_body_a() {
    let log = std::sync::Arc::new(std::sync::Mutex::new(Vec::new()));
    let mut router = Router::new();
    router
        .get(
            "/",
            route(|_req, res| {
                res.send(b"A");
                Flow::Stop
            }),
        )
        .unwrap();
    router.get("/", recorder(&log, 1, Flow::Next)).unwrap();
    router.add(recorder(&log, 2, Flow::Next)).unwrap();
    let mut res = octane::responder::Response::new(b"");
    router.run(request(RequestMethod::Get, "/"), &mut res);
    assert_eq!(res.body, b"A".to_vec());
    assert!(res.has_body);
    assert!(log.lock().unwrap().is_empty());
}

#[test]
fn two_variable_handlers_both_get_the_binding() {
    let log: std::sync::Arc<std::sync::Mutex<Vec<(usize, Vec<(String, String)>)>>> =
        std::sync::Arc::new(std::sync::Mutex::new(Vec::new()));
    let mut router = Router::new();
    let first = std::sync::Arc::clone(&log);
    router
        .get(
            "/users/:id",
            route(move |req, _res| {
                first.lock().unwrap().push((1, req.vars.clone()));
                Flow::Next
            }),
        )
        .unwrap();
    let second = std::sync::Arc::clone(&log);
    router
        .get(
            "/users/:id",
            route(move |req, _res| {
                second.lock().unwrap().push((2, req.vars.clone()));
                Flow::Next
            }),
        )
        .unwrap();
    let mut res = octane::responder::Response::new(b"");
    router.run(request(RequestMethod::Get, "/users/42"), &mut res);
    let bound = vec![("id".to_string(), "42".to_string())];
    assert_eq!(*log.lock().unwrap(), vec![(1, bound.clone()), (2, bound)]);
}

#[test]
fn handler_sees_the_request() {
    let seen = std::sync::Arc::new(std::sync::Mutex::new(Vec::new()));
    let mut router = Router::new();
    let log = std::sync::Arc::clone(&seen);
    router
        .add(route(move |req, _res| {
            log.lock().unwrap().push(req.request.request_line.path.chunks.clone());
            Flow::Next
        }))
        .unwrap();
    let mut res = octane::responder::Response::new(b"");
    router.run(request(RequestMethod::Put, "/a/b"), &mut res);
    assert_eq!(*seen.lock().unwrap(), vec![vec!["a".to_string(), "b".to_string()]]);
}

#[test]
fn other_methods_and_paths_do_not_run() {
    let log = std::sync::Arc::new(std::sync::Mutex::new(Vec::new()));
    let mut router = Router::new();
    router.get("/x", recorder(&log, 0, Flow::Next)).unwrap();
    router.post("/x", recorder(&log, 1, Flow::Next)).unwrap();
    router.delete("/y", recorder(&log, 2, Flow::Next)).unwrap();
    router.patch("/x", recorder(&log, 3, Flow::Next)).unwrap();
    let mut res = octane::responder::Response::new(b"");
    router.run(request(RequestMethod::Patch, "/x"), &mut res);
    assert_eq!(*log.lock().unwrap(), vec![3]);
}

#[test]
fn route_next_goes_on_and_route_stop_ends() {
    let log = std::sync::Arc::new(std::sync::Mutex::new(Vec::new()));
    let mut router = Router::new();
    let first = std::sync::Arc::clone(&log);
    router.get("/", route_next(move |_req, _res| first.lock().unwrap().push(0))).unwrap();
    let second = std::sync::Arc::clone(&log);
    router.get("/", route_stop(move |_req, _res| second.lock().unwrap().push(1))).unwrap();
    let third = std::sync::Arc::clone(&log);
    router.get("/", route_next(move |_req, _res| third.lock().unwrap().push(2))).unwrap();
    let mut res = octane::responder::Response::new(b"");
    router.run(request(RequestMethod::Get, "/"), &mut res);
    assert_eq!(*log.lock().unwrap(), vec![0, 1]);
}

#[test]
fn request_with_the_method_of_every_method_draws_on_its_routes_once() {
    let log = std::sync::Arc::new(std::sync::Mutex::new(Vec::new()));
    let mut router = Router::new();
    router.add_route("/x", recorder(&log, 0, Flow::Next)).unwrap();
    router.get("/x", recorder(&log, 1, Flow::Next)).unwrap();
    router.add(recorder(&log, 2, Flow::Next)).unwrap();
    let mut res = octane::responder::Response::new(b"");
    router.run(request(RequestMethod::All, "/x"), &mut res);
    assert_eq!(*log.lock().unwrap(), vec![0, 2]);
}

#[test]
fn one_route_runs_exactly_where_its_pattern_matches() {
    let cases = [
        ("/users/42", true),
        ("/users/me", true),
        ("/users", false),
        ("/users/42/posts", false),
        ("/people/42", false),
    ];
    for (target, runs) in cases {
        let log = std::sync::Arc::new(std::sync::Mutex::new(Vec::new()));
        let mut router = Router::new();
        router.get("/users/:id", recorder(&log, 0, Flow::Next)).unwrap();
        let mut res = octane::responder::Response::new(b"");
        router.run(request(RequestMethod::Get, target), &mut res);
        assert_eq!(log.lock().unwrap().len(), if runs { 1 } else { 0 });
        let mut other = octane::responder::Response::new(b"");
        router.run(request(RequestMethod::Post, target), &mut other);
        assert_eq!(log.lock().unwrap().len(), if runs { 1 } else { 0 });
    }
}

#[test]
fn refused_pattern_needs_no_room_in_the_counter() {
    let mut router = Router::new();
    router.route_counter = usize::MAX;
    assert_eq!(
        router.get("/users/:", route(|_req, _res| Flow::Next)),
        Err(octane::error::InvalidPathError)
    );
    assert_eq!(router.route_counter, usize::MAX);
    assert_eq!(router.paths.len(), 0);
}

#[test]
fn registration_without_a_pattern_gives_no_method_a_trie() {
    let mut router = Router::new();
    router.add(route(|_req, _res| Flow::Next)).unwrap();
    router.add(route(|_req, _res| Flow::Next)).unwrap();
    assert_eq!(router.paths.len(), 0);
    assert_eq!(router.middlewares.len(), 2);
    assert_eq!(router.middlewares[0].index, 0);
    assert_eq!(router.middlewares[1].index, 1);
    assert_eq!(router.route_counter, 2);
}

#[test]
fn append_raises_the_indices_by_the_counter() {
    let mut first = Router::new();
    first.get("/a", route(|_req, _res| Flow::Next)).unwrap();
    first.get("/a", route(|_req, _res| Flow::Next)).unwrap();
    first.add(route(|_req, _res| Flow::Next)).unwrap();
    let mut second = Router::new();
    second.get("/a", route(|_req, _res| Flow::Next)).unwrap();
    second.add(route(|_req, _res| Flow::Next)).unwrap();
    second.get("/a", route(|_req, _res| Flow::Next)).unwrap();
    first.append(second);
    let indices: Vec<usize> = first
        .paths
        .get(&RequestMethod::Get)
        .unwrap()
        .get(&PathBuf::parse("/a").unwrap())
        .iter()
        .map(|found| found.index)
        .collect();
    assert_eq!(indices, vec![0, 1, 3, 5]);
    let middle: Vec<usize> = first.middlewares.iter().map(|entry| entry.index).collect();
    assert_eq!(middle, vec![2, 4]);
    assert_eq!(first.route_counter, 6);
}

#[test]
fn mixed_registrations_that_all_match_run_each_once_in_order() {
    let log = std::sync::Arc::new(std::sync::Mutex::new(Vec::new()));
    let mut router = Router::new();
    let mut expected = Vec::new();
    for id in 0..12 {
        let handler = recorder(&log, id, Flow::Next);
        let index = match id % 4 {
            0 => router.add(handler),
            1 => router.add_route("/a/:x", handler),
            2 => router.put("/a/b", handler),
            _ => router.put("/*/b", handler),
        };
        assert_eq!(index, Ok(id));
        expected.push(id);
    }
    let mut res = octane::responder::Response::new(b"");
    router.run(request(RequestMethod::Put, "/a/b"), &mut res);
    assert_eq!(*log.lock().unwrap(), expected);
}
