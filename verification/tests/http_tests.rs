use fructa::http::Response;
use fructa::request::{choose_lang, parse_request, plain_response, route, route_status, Route};

fn pair(a: &str, b: &str) -> (String, String) {
    (a.to_string(), b.to_string())
}

fn route_of(dir: &str, params: Vec<(String, String)>) -> Option<Route> {
    route(&dir.to_string(), &params)
}

// ---------------------------------------------------------------------------
// Responses
// ---------------------------------------------------------------------------

#[test]
fn empty_response() {
    let r = Response::new();
    assert_eq!(r.code, 200);
    assert!(r.body.is_empty());
    assert!(r.headers.is_empty());
    assert_eq!(r.build(), "HTTP/1.1 200 OK\r\n\r\n\r\n");
}

#[test]
fn response_with_headers_and_body() {
    let r = Response {
        body: "hi".to_string(),
        headers: vec![pair("Set-Cookie", "lang=pl_pl"), pair("X", "y")],
        code: 404,
    };
    assert_eq!(
        r.build(),
        "HTTP/1.1 404 NOT FOUND\r\nSet-Cookie: lang=pl_pl\r\nX: y\r\n\r\n\r\nhi"
    );
}

#[test]
fn status_texts() {
    let mut r = Response::new();
    assert_eq!(r.get_status(), "OK");
    r.code = 100;
    assert_eq!(r.get_status(), "CONTINUE");
    r.code = 404;
    assert_eq!(r.get_status(), "NOT FOUND");
    r.code = 500;
    assert_eq!(r.get_status(), "UNKNOWN");
    assert_eq!(r.build(), "HTTP/1.1 500 UNKNOWN\r\n\r\n\r\n");
    r.code = -7;
    assert_eq!(r.build(), "HTTP/1.1 -7 UNKNOWN\r\n\r\n\r\n");
    r.code = i32::MIN;
    assert_eq!(r.build(), "HTTP/1.1 -2147483648 UNKNOWN\r\n\r\n\r\n");
}

// ---------------------------------------------------------------------------
// Requests
// ---------------------------------------------------------------------------

#[test]
fn reads_a_request() {
    let q = parse_request(
        "GET /projects?project=fructa HTTP/1.1\r\nHost: x\r\nCookie: lang = pl_pl\r\n\r\nbody",
    )
    .unwrap();
    assert_eq!(q.dir, "/projects");
    assert_eq!(q.params, vec![pair("project", "fructa")]);
    assert_eq!(q.headers, vec![pair("Host", "x"), pair("Cookie", "lang = pl_pl")]);
    assert_eq!(q.cookies, vec![pair("lang", "pl_pl")]);
}

#[test]
fn reads_query_parameters() {
    let q = parse_request("GET /a?x=1?y=2=3 HTTP/1.1\r\n\r\n").unwrap();
    assert_eq!(q.dir, "/a");
    assert_eq!(q.params, vec![pair("x", "1"), pair("y", "2")]);
    assert!(q.headers.is_empty());
    assert!(q.cookies.is_empty());
    let q = parse_request("GET / HTTP/1.1\r\nA: b: c\r\n\r\n\0\0").unwrap();
    assert_eq!(q.dir, "/");
    assert!(q.params.is_empty());
    assert_eq!(q.headers, vec![pair("A", "b")]);
}

#[test]
fn refused_requests() {
    assert!(parse_request("GET / HTTP/1.1\r\nHost: x\r\n").is_none());
    assert!(parse_request("GET / HTTP/1.1\r\nBad\r\n\r\n").is_none());
    assert!(parse_request("GET /a?b HTTP/1.1\r\n\r\n").is_none());
    assert!(parse_request("GET\r\n\r\n").is_none());
    assert!(parse_request("GET / HTTP/1.1\r\nCookie: x\r\n\r\n").is_none());
    assert!(parse_request("").is_none());
}

// ---------------------------------------------------------------------------
// Routes
// ---------------------------------------------------------------------------

#[test]
fn file_routes() {
    assert_eq!(
        route_of("/static/style.css", vec![]),
        Some(Route::File("static/style.css".to_string()))
    );
    assert_eq!(
        route_of("/dynamic/a_banner.png", vec![]),
        Some(Route::File("dynamic/a_banner.png".to_string()))
    );
    assert_eq!(
        route_of("/favicon.ico", vec![]),
        Some(Route::File("favicon.ico".to_string()))
    );
    assert_eq!(route_of("/static/../secret", vec![]), Some(Route::NotFound));
    assert_eq!(route_of("/static", vec![]), Some(Route::NotFound));
}

#[test]
fn page_routes() {
    for d in ["/", "/home", "/homepage", "/index", "/index.html"] {
        assert_eq!(route_of(d, vec![]), Some(Route::Index));
    }
    assert_eq!(route_of("/test", vec![]), Some(Route::Test));
    assert_eq!(route_of("/nope", vec![]), Some(Route::NotFound));
    assert_eq!(route_of("", vec![]), Some(Route::NotFound));
    assert_eq!(route_of("/projects", vec![]), Some(Route::Projects(vec![])));
    assert_eq!(
        route_of("/projects", vec![pair("project", "a"), pair("x", "y"), pair("project", "b")]),
        Some(Route::Projects(vec!["a".to_string(), "b".to_string()]))
    );
    assert_eq!(route_of("/terminal", vec![]), Some(Route::Terminal(None)));
    assert_eq!(
        route_of("/terminal", vec![pair("command", "ls")]),
        Some(Route::Terminal(Some("ls".to_string())))
    );
}

#[test]
fn change_lang_routes() {
    assert_eq!(
        route_of("/change_lang", vec![]),
        Some(Route::ChangeLang("en_uk".to_string(), "/".to_string()))
    );
    assert_eq!(
        route_of("/change_lang", vec![pair("lang", "1"), pair("redirect", "/projects")]),
        Some(Route::ChangeLang("pl_pl".to_string(), "/projects".to_string()))
    );
    assert_eq!(
        route_of("/change_lang", vec![pair("lang", "01"), pair("lang", "+0")]),
        Some(Route::ChangeLang("en_uk".to_string(), "/".to_string()))
    );
    assert_eq!(route_of("/change_lang", vec![pair("lang", "2")]), None);
    assert_eq!(route_of("/change_lang", vec![pair("lang", "x")]), None);
    assert_eq!(route_of("/change_lang", vec![pair("lang", "")]), None);
    assert_eq!(route_of("/change_lang", vec![pair("lang", "-0")]), None);
}

#[test]
fn statuses_of_routes() {
    assert_eq!(route_status(&Route::NotFound), 404);
    assert_eq!(route_status(&Route::Index), 200);
    assert_eq!(route_status(&Route::Terminal(None)), 200);
    assert_eq!(route_status(&Route::File("favicon.ico".to_string())), 200);
}

#[test]
fn language_from_cookies() {
    assert_eq!(choose_lang(&vec![]), "en_uk");
    assert_eq!(choose_lang(&vec![pair("lang", "pl_pl"), pair("x", "y")]), "pl_pl");
    assert_eq!(choose_lang(&vec![pair("lang", "a"), pair("lang", "b")]), "b");
    assert_eq!(choose_lang(&vec![pair("other", "pl_pl")]), "en_uk");
}

#[test]
fn plain_responses() {
    let r = plain_response(&Route::ChangeLang("pl_pl".to_string(), "/x".to_string())).unwrap();
    assert_eq!(r.code, 200);
    assert_eq!(r.body, "<script> window.location.replace(\"/x\"); </script>");
    assert_eq!(r.headers, vec![pair("Set-Cookie", "lang=pl_pl")]);
    assert_eq!(
        r.build(),
        "HTTP/1.1 200 OK\r\nSet-Cookie: lang=pl_pl\r\n\r\n\r\n<script> window.location.replace(\"/x\"); </script>"
    );

    let r = plain_response(&Route::Terminal(Some("ls".to_string()))).unwrap();
    assert_eq!(r.code, 200);
    assert_eq!(r.body, "{\"help\": \"me\"}");
    assert!(r.headers.is_empty());

    assert!(plain_response(&Route::Index).is_none());
    assert!(plain_response(&Route::Terminal(None)).is_none());
    assert!(plain_response(&Route::NotFound).is_none());
}

#[test]
fn law_files_stay_in_their_directories_example() {
    for d in [
        "/static/a/b.css",
        "/dynamic/x_banner.png",
        "/static/../main.rs",
        "/dynamic/..",
        "/favicon.ico",
        "/static",
        "/../static/x",
        "/etc/passwd",
    ] {
        if let Some(Route::File(p)) = route_of(d, vec![]) {
            assert!(
                p == "favicon.ico"
                    || ((p.starts_with("static/") || p.starts_with("dynamic/")) && !p.contains(".."))
            );
        }
    }
    assert_eq!(route_of("/dynamic/..", vec![]), Some(Route::NotFound));
}

#[test]
fn law_change_lang_sets_a_known_language_example() {
    for params in [
        vec![],
        vec![pair("lang", "1")],
        vec![pair("lang", "0"), pair("redirect", "/x")],
        vec![pair("lang", "pl_pl")],
        vec![pair("lang", "+1"), pair("lang", "00")],
    ] {
        if let Some(Route::ChangeLang(l, _)) = route_of("/change_lang", params) {
            assert!(l == "en_uk" || l == "pl_pl");
        }
    }
}
