use rust_local_server::config::{Config, RouteConfig, ServerConfig};
use rust_local_server::http::{ParseState, Parser};
use rust_local_server::router::{RoutePlan, Router};

fn route(path: &[u8]) -> RouteConfig {
    RouteConfig {
        path: path.to_vec(),
        root: None,
        index: None,
        methods: None,
        autoindex: None,
        redirect: None,
        allow_uploads: None,
        cgi_extensions: None,
    }
}

fn server(routes: Vec<RouteConfig>) -> ServerConfig {
    ServerConfig {
        host: b"127.0.0.1".to_vec(),
        ports: vec![8080],
        server_names: None,
        error_pages: None,
        client_max_body_size: None,
        routes,
    }
}

fn parse_request(wire: &[u8]) -> rust_local_server::http::Request {
    let mut p = Parser::new();
    p.parse(wire);
    assert_eq!(p.state, ParseState::Done);
    p.request
}

#[test]
fn longest_prefix_wins() {
    let mut r_short = route(b"/");
    r_short.root = Some(b"./short".to_vec());
    let mut r_long = route(b"/ro");
    r_long.root = Some(b"./long".to_vec());
    let router = Router::new(Config { servers: vec![server(vec![r_short, r_long])] });
    let req = parse_request(b"GET /ro/x HTTP/1.1\r\nHost: x\r\n\r\n");
    let (_, plan) = router.handle(&req);
    match plan {
        RoutePlan::Static { fs_path, .. } => assert_eq!(fs_path, b"./long/x".to_vec()),
        _ => panic!("expected static serving under the longer prefix"),
    }
}

#[test]
fn no_matching_route_is_404() {
    let router = Router::new(Config { servers: vec![server(vec![route(b"/api")])] });
    let req = parse_request(b"GET /elsewhere HTTP/1.1\r\n\r\n");
    let (_, plan) = router.handle(&req);
    assert!(matches!(plan, RoutePlan::Reply { status: 404 }));
}

#[test]
fn method_not_allowed_is_405() {
    let mut ro = route(b"/ro");
    ro.methods = Some(vec![b"GET".to_vec()]);
    let router = Router::new(Config { servers: vec![server(vec![ro])] });
    let req = parse_request(b"DELETE /ro/x HTTP/1.1\r\nHost: x\r\n\r\n");
    let (_, plan) = router.handle(&req);
    assert!(matches!(plan, RoutePlan::Reply { status: 405 }));
}

#[test]
fn redirect_route_yields_301_plan() {
    let mut old = route(b"/old");
    old.redirect = Some(b"/new".to_vec());
    let router = Router::new(Config { servers: vec![server(vec![old])] });
    let req = parse_request(b"GET /old HTTP/1.1\r\nHost: x\r\n\r\n");
    let (_, plan) = router.handle(&req);
    match plan {
        RoutePlan::Redirect { location } => assert_eq!(location, b"/new".to_vec()),
        _ => panic!("expected a redirect plan"),
    }
}

#[test]
fn cgi_route_resolves_script_and_env() {
    let mut cgi = route(b"/cgi/");
    cgi.cgi_extensions = Some(vec![(b".sh".to_vec(), b"/bin/sh".to_vec())]);
    let router = Router::new(Config { servers: vec![server(vec![cgi])] });
    let req = parse_request(
        b"POST /cgi/echo.sh HTTP/1.1\r\nHost: x\r\nContent-Length: 5\r\n\r\nhello",
    );
    let (_, plan) = router.handle(&req);
    match plan {
        RoutePlan::Cgi { script_path, interpreter, env } => {
            assert_eq!(script_path, b"./echo.sh".to_vec());
            assert_eq!(interpreter, b"/bin/sh".to_vec());
            assert!(env.contains(&(b"REQUEST_METHOD".to_vec(), b"POST".to_vec())));
            assert!(env.contains(&(b"PATH_INFO".to_vec(), b"/cgi/echo.sh".to_vec())));
            assert!(env.contains(&(b"CONTENT_LENGTH".to_vec(), b"5".to_vec())));
        },
        _ => panic!("expected a CGI plan"),
    }
}

#[test]
fn upload_plan_uses_the_filename_header() {
    let mut up = route(b"/up");
    up.allow_uploads = Some(true);
    up.root = Some(b"./files".to_vec());
    let router = Router::new(Config { servers: vec![server(vec![up])] });
    let req = parse_request(
        b"POST /up HTTP/1.1\r\nX-Filename: notes.txt\r\nContent-Length: 2\r\n\r\nhi",
    );
    let (_, plan) = router.handle(&req);
    match plan {
        RoutePlan::Upload { file_path } => assert_eq!(file_path, b"./files/notes.txt".to_vec()),
        _ => panic!("expected an upload plan"),
    }
}

#[test]
fn upload_without_filename_uses_the_default() {
    let mut up = route(b"/up");
    up.allow_uploads = Some(true);
    let router = Router::new(Config { servers: vec![server(vec![up])] });
    let req = parse_request(b"POST /up HTTP/1.1\r\nContent-Length: 2\r\n\r\nhi");
    let (_, plan) = router.handle(&req);
    match plan {
        RoutePlan::Upload { file_path } => {
            assert_eq!(file_path, b"static/uploads/uploaded_file".to_vec())
        },
        _ => panic!("expected an upload plan"),
    }
}

#[test]
fn delete_plan_resolves_under_the_route_root() {
    let mut del = route(b"/files");
    del.root = Some(b"./data".to_vec());
    let router = Router::new(Config { servers: vec![server(vec![del])] });
    let req = parse_request(b"DELETE /files/a.txt HTTP/1.1\r\nHost: x\r\n\r\n");
    let (_, plan) = router.handle(&req);
    match plan {
        RoutePlan::Delete { file_path } => assert_eq!(file_path, b"./data/a.txt".to_vec()),
        _ => panic!("expected a delete plan"),
    }
}

#[test]
fn static_get_resolves_the_file_path() {
    let mut root = route(b"/");
    root.root = Some(b"./public".to_vec());
    let router = Router::new(Config { servers: vec![server(vec![root])] });
    let req = parse_request(b"GET /hello.txt HTTP/1.1\r\nHost: x\r\n\r\n");
    let (_, plan) = router.handle(&req);
    match plan {
        RoutePlan::Static { fs_path, index, autoindex } => {
            assert_eq!(fs_path, b"./public/hello.txt".to_vec());
            assert!(index.is_none());
            assert!(!autoindex);
        },
        _ => panic!("expected static serving"),
    }
}

#[test]
fn dotdot_traversal_is_refused() {
    let mut root = route(b"/");
    root.root = Some(b"./public".to_vec());
    let router = Router::new(Config { servers: vec![server(vec![root])] });
    let req = parse_request(b"GET /../etc/passwd HTTP/1.1\r\nHost: x\r\n\r\n");
    let (_, plan) = router.handle(&req);
    assert!(matches!(plan, RoutePlan::Reply { status: 403 }));
}

#[test]
fn dotdot_in_the_upload_name_is_refused() {
    let mut up = route(b"/up");
    up.allow_uploads = Some(true);
    let router = Router::new(Config { servers: vec![server(vec![up])] });
    let req = parse_request(
        b"POST /up HTTP/1.1\r\nX-Filename: ../../evil\r\nContent-Length: 2\r\n\r\nhi",
    );
    let (_, plan) = router.handle(&req);
    assert!(matches!(plan, RoutePlan::Reply { status: 403 }));
}

#[test]
fn inner_dots_in_names_are_not_traversal() {
    let mut root = route(b"/");
    root.root = Some(b"./public".to_vec());
    let router = Router::new(Config { servers: vec![server(vec![root])] });
    let req = parse_request(b"GET /a..b/notes..txt HTTP/1.1\r\nHost: x\r\n\r\n");
    let (_, plan) = router.handle(&req);
    match plan {
        RoutePlan::Static { fs_path, .. } => {
            assert_eq!(fs_path, b"./public/a..b/notes..txt".to_vec())
        },
        _ => panic!("expected static serving"),
    }
}

#[test]
fn virtual_host_picks_the_matching_server() {
    let mut a = server(vec![route(b"/")]);
    a.server_names = Some(vec![b"alpha".to_vec()]);
    let mut b = server(vec![route(b"/")]);
    b.server_names = Some(vec![b"beta".to_vec()]);
    let router = Router::new(Config { servers: vec![a, b] });
    let req = parse_request(b"GET / HTTP/1.1\r\nHost: www.beta.example\r\n\r\n");
    let (idx, _) = router.handle(&req);
    assert_eq!(idx, 1);
}

#[test]
fn unmatched_host_falls_back_to_the_first_server() {
    let mut a = server(vec![route(b"/")]);
    a.server_names = Some(vec![b"alpha".to_vec()]);
    let mut b = server(vec![route(b"/")]);
    b.server_names = Some(vec![b"beta".to_vec()]);
    let router = Router::new(Config { servers: vec![a, b] });
    let req = parse_request(b"GET / HTTP/1.1\r\nHost: gamma\r\n\r\n");
    let (idx, _) = router.handle(&req);
    assert_eq!(idx, 0);
}
