use express::basic::{chop_input, chop_text, handle_conection, App, Dispatch, HttpStatus, Request};

fn buffer(text: &[u8]) -> [u8; 516] {
    let mut b = [0u8; 516];
    b[..text.len()].copy_from_slice(text);
    b
}

#[test]
fn basic_chop_runs_from_the_fourth_byte_to_the_first_h() {
    assert_eq!(chop_input(&buffer(b"GET /home HTTP/1.1\r\n\r\n")), Some(String::from(" /home ")));
    assert_eq!(chop_text("GET /Hello HTTP/1.1"), Some(String::from(" /")));
    assert_eq!(chop_text("SET /b HTTP"), Some(String::from(" /b ")));
    assert_eq!(chop_text("GET /a"), Some(String::from("GET /a")));
    assert_eq!(chop_text("HEAD /a"), None);
    assert_eq!(chop_text("GET /\u{e9} H"), Some(String::from(" /\u{e9}")));
    assert_eq!(chop_text("GET /\u{e9}\u{e9} H"), None);
}

#[test]
fn basic_request_kinds() {
    let (st, endp) = handle_conection(&buffer(b"SET /x HTTP/1.1")).unwrap();
    assert_eq!(st, HttpStatus::SetVerb);
    assert_eq!(endp, "/x");
    let (st, endp) = handle_conection(&buffer(b"GET /Hello HTTP/1.1")).unwrap();
    assert_eq!(st, HttpStatus::Get);
    assert_eq!(endp, "/");
    let (st, _) = handle_conection(&buffer(b"GET /x.png HTTP/1.1")).unwrap();
    assert_eq!(st, HttpStatus::File);
    assert!(handle_conection(&buffer(b"HI")).is_none());
    let (st, _) = handle_conection(&buffer(b"PUT /a")).unwrap();
    assert_eq!(st, HttpStatus::NotFound);
}

#[test]
fn basic_params_pair_every_segment() {
    let req = Request::new("/a/b", "/x/y");
    assert_eq!(req.param("x").unwrap(), "a");
    assert_eq!(req.param("y").unwrap(), "b");
    assert_eq!(req.param("").unwrap(), "");
    assert!(req.param("z").is_none());
}

#[test]
fn basic_dispatch() {
    let mut app = App::new(2);
    app.get("/some/:p", 1);
    app.get("/some", 3);
    app.set(" /store ", 2);
    match app.dispatch(&buffer(b"GET /some HTTP/1.1")) {
        Some(Dispatch::Handler { handler, request }) => {
            assert_eq!(handler, 3);
            assert_eq!(request.param("some").unwrap(), "some");
        },
        _ => panic!("expected the handler"),
    }
    assert!(matches!(app.dispatch(&buffer(b"GET /some/abc HTTP/1.1")), Some(Dispatch::Fallback { .. })));
    assert!(matches!(app.dispatch(&buffer(b"SET /store HTTP/1.1")), Some(Dispatch::Handler { handler: 2, .. })));
    assert!(matches!(app.dispatch(&buffer(b"SET /other HTTP/1.1")), Some(Dispatch::Fallback { .. })));
    match app.dispatch(&buffer(b"GET /pic.png HTTP/1.1")) {
        Some(Dispatch::File { path }) => assert_eq!(path, ".///pic.png"),
        _ => panic!("expected a file"),
    }
    assert!(app.dispatch(&buffer(b"HEAD / HTTP/1.1")).is_none());
    assert_eq!(app.views(), "./");
}
