use express::app::{fallback_response, App, Dispatch};
use express::param::{param_data, Data};
use express::request::Request;
use express::request_line::{chop_input, chop_text, handle_conection, HttpStatus};
use express::response::{file_is_text, file_response, text_response, Response};
use express::route::{is_file, match_endp_params};
use express::text::{split_str, trim_str};

fn buffer(text: &[u8]) -> [u8; 516] {
    let mut b = [0u8; 516];
    b[..text.len()].copy_from_slice(text);
    b
}

fn app() -> App {
    let mut app = App::new(4, String::from("./"));
    app.static_folder("static");
    app.set_views("views");
    app.get("/home/:param1", 1);
    app.get(" /about \t", 2);
    app.post("/submit", 3);
    app
}

fn handler_of(d: Dispatch) -> Option<usize> {
    match d {
        Dispatch::Handler { handler, .. } => Some(handler),
        _ => None,
    }
}

#[test]
fn trim_removes_unicode_white_space() {
    assert_eq!(trim_str("  /a \t\r\n"), "/a");
    assert_eq!(trim_str("\u{3000}x y\u{2028}"), "x y");
    assert_eq!(trim_str(" \t "), "");
    assert_eq!(trim_str("\0a\0"), "\0a\0");
}

#[test]
fn split_keeps_empty_pieces() {
    assert_eq!(split_str("/home/abc", '/'), vec!["", "home", "abc"]);
    assert_eq!(split_str("", '/'), vec![""]);
    assert_eq!(split_str("a//b/", '/'), vec!["a", "", "b", ""]);
}

#[test]
fn matching_takes_parameters_for_any_segment() {
    assert!(match_endp_params("/home/:param1", "/home/abc"));
    assert!(match_endp_params("/:id", "/5"));
    assert!(!match_endp_params("/home/about", "/home/contact"));
    assert!(!match_endp_params("/a/b", "/a"));
    assert!(!match_endp_params("/x/:p", "/y/z"));
    assert!(match_endp_params("/", "/"));
    assert!(match_endp_params("/:a/:b", "/1/2"));
    assert!(!match_endp_params("/a:b", "/ab"));
}

#[test]
fn files_are_named_by_a_dot() {
    assert!(is_file(&String::from("/style.css")));
    assert!(!is_file(&String::from("/home")));
}

#[test]
fn chop_takes_text_between_method_and_protocol() {
    assert_eq!(chop_input(&buffer(b"GET /home/abc HTTP/1.1\r\n")), " /home/abc ");
    assert_eq!(chop_input(&buffer(b"GET /Home HTTP/1.1\r\n")), " /Home ");
    assert_eq!(chop_input(&buffer(b"GET /home HTTP/1.1\r\n\r\n")), " /home ");
    assert_eq!(chop_input(&buffer("GET /\u{e9}\u{e9} HTTP/1.1\r\n".as_bytes())), " /\u{e9}\u{e9} ");
    assert_eq!(chop_text("GET / HTTP/1.1"), " / ");
    assert_eq!(chop_text("GET /x"), "GET /x");
    assert_eq!(chop_text("GET"), "GET");
}

#[test]
fn chop_decodes_invalid_bytes_as_replacement_characters() {
    assert_eq!(chop_input(b"GET /\xff HTTP/1.1"), " /\u{FFFD} ");
    assert_eq!(chop_input(b"GET /\xff"), "GET /\u{FFFD}");
}

#[test]
fn request_kind_comes_from_method_and_endpoint() {
    let (st, endp) = handle_conection(&buffer(b"GET /home/abc HTTP/1.1\r\n"));
    assert_eq!(st, HttpStatus::Get);
    assert_eq!(endp, "/home/abc");
    let (st, endp) = handle_conection(&buffer(b"POST /submit HTTP/1.1\r\n"));
    assert_eq!(st, HttpStatus::Post);
    assert_eq!(endp, "/submit");
    let (st, _) = handle_conection(&buffer(b"POST /a.txt HTTP/1.1\r\n"));
    assert_eq!(st, HttpStatus::File);
    let (st, _) = handle_conection(&buffer(b"PUT /a HTTP/1.1\r\n"));
    assert_eq!(st, HttpStatus::NotFound);
}

#[test]
fn parameter_values_are_typed() {
    match param_data(&String::from("abc")) {
        Data::STRING(s) => assert_eq!(s, "abc"),
        _ => panic!("expected text"),
    }
    for (t, v) in [("12", 12i64), ("-7", -7), ("+3", 3), ("007", 7), ("9223372036854775807", i64::MAX)] {
        match param_data(&String::from(t)) {
            Data::INT(n) => assert_eq!(n, v),
            _ => panic!("expected an integer for {}", t),
        }
    }
    for t in ["1.5e3", "+.5", "inf", "NaN", "Infinity", "99999999999999999999", "1."] {
        match param_data(&String::from(t)) {
            Data::FLOAT(s) => assert_eq!(s, t),
            _ => panic!("expected a float for {}", t),
        }
    }
    for t in ["-", "1e", ".", "e5", "1_000", " 1", "0x10", "1.2.3"] {
        match param_data(&String::from(t)) {
            Data::STRING(s) => assert_eq!(s, t),
            _ => panic!("expected text for {}", t),
        }
    }
}

#[test]
fn parameters_are_taken_once() {
    let mut req = Request::new("/home/abc", "/home/:param1");
    assert!(matches!(req.param("param1"), Some(Data::STRING(s)) if s == "abc"));
    assert!(matches!(req.param("param1"), Some(Data::STRING(_))));
    match req.get_param("param1") {
        Some(Data::STRING(s)) => assert_eq!(s, "abc"),
        _ => panic!("expected the parameter"),
    }
    assert!(req.get_param("param1").is_none());
    assert!(req.param("param1").is_none());
    assert!(req.get_param("home").is_none());
}

#[test]
fn later_parameter_segment_wins() {
    let mut req = Request::new("/1/2", "/:a/:a");
    match req.get_param("a") {
        Some(Data::INT(n)) => assert_eq!(n, 2),
        _ => panic!("expected the second value"),
    }
}

#[test]
fn integer_parameters_come_back_as_integers() {
    let mut req = Request::new("/user/7", "/user/:id");
    assert!(matches!(req.get_param("id"), Some(Data::INT(7))));
    assert!(req.get_param("user").is_none());
    let mut req = Request::new("/x/a:b", "/x/a:b");
    assert!(req.get_param(":b").is_none());
}

#[test]
fn dispatch_reaches_registered_handlers() {
    let app = app();
    assert_eq!(handler_of(app.dispatch(&buffer(b"GET /about HTTP/1.1\r\n"))), Some(2));
    assert_eq!(handler_of(app.dispatch(&buffer(b"POST /submit HTTP/1.1\r\n"))), Some(3));
    match app.dispatch(&buffer(b"GET /home/xyz HTTP/1.1\r\n")) {
        Dispatch::Handler { handler, mut request } => {
            assert_eq!(handler, 1);
            match request.get_param("param1") {
                Some(Data::STRING(s)) => assert_eq!(s, "xyz"),
                _ => panic!("expected the parameter"),
            }
        },
        _ => panic!("expected the pattern route"),
    }
}

#[test]
fn dispatch_falls_back_and_serves_files() {
    let app = app();
    assert!(matches!(app.dispatch(&buffer(b"GET /nothing HTTP/1.1\r\n")), Dispatch::Fallback { .. }));
    assert!(matches!(app.dispatch(&buffer(b"GET /home/a/b HTTP/1.1\r\n")), Dispatch::Fallback { .. }));
    assert!(matches!(app.dispatch(&buffer(b"POST /zzz HTTP/1.1\r\n")), Dispatch::Fallback { .. }));
    assert!(matches!(app.dispatch(&buffer(b"DELETE /a HTTP/1.1\r\n")), Dispatch::Fallback { .. }));
    match app.dispatch(&buffer(b"GET /style.css HTTP/1.1\r\n")) {
        Dispatch::File { path } => assert_eq!(path, "static//style.css"),
        _ => panic!("expected a file"),
    }
}

#[test]
fn dispatch_handles_any_endpoint_text() {
    let mut app = app();
    app.get("/caf\u{e9}/:n", 9);
    match app.dispatch(&buffer("GET /caf\u{e9}/42 HTTP/1.1\r\n".as_bytes())) {
        Dispatch::Handler { handler, mut request } => {
            assert_eq!(handler, 9);
            assert!(matches!(request.get_param("n"), Some(Data::INT(42))));
        },
        _ => panic!("expected the pattern route"),
    }
    assert!(matches!(app.dispatch(&buffer("POST /\u{e9}:x HTTP/1.1\r\n".as_bytes())), Dispatch::Fallback { .. }));
}

#[test]
fn fallback_answer_is_fixed() {
    assert_eq!(fallback_response(), " HTTP/1.1 200 OK\r\n\r\n noting here to show  ");
    assert_eq!(express::basic::fallback_response(), " HTTP/1.1 200 OK\r\n\r\nnada que mostrar ");
}

#[test]
fn registering_again_replaces_the_handler() {
    let mut app = app();
    app.get("/about", 5);
    assert_eq!(handler_of(app.dispatch(&buffer(b"GET /about HTTP/1.1\r\n"))), Some(5));
    assert_eq!(app.threads(), 4);
    assert_eq!(app.views(), "views");
}

#[test]
fn render_path_joins_and_adds_html() {
    let r = Response::new(String::from("views"));
    assert_eq!(r.render_path("index"), "views/index.html");
    assert_eq!(r.render_path("/a.html"), "views/a.html");
}

#[test]
fn responses_carry_the_status_head() {
    assert_eq!(text_response("hi"), " HTTP/1.1 200 OK\r\n\r\nhi ");
    assert_eq!(file_response(b"abc"), b" HTTP/1.1 200 OK\r\n\r\nabc ".to_vec());
    assert_eq!(file_response(&[0xff, 0xfe]), vec![0xff, 0xfe]);
    assert!(file_is_text(b"abc"));
    assert!(!file_is_text(&[0xff, 0xfe]));
}
