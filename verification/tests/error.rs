use udp_hole_punching::error::{Error, WithContext};

#[test]
fn error_without_message_or_context() {
    let e = Error::new("src/socket.rs", 27, None, "address in use".to_string());
    assert_eq!(e.message(), "[src/socket.rs:27] address in use");
}

#[test]
fn error_with_message() {
    let e = Error::new("a.rs", 0, Some("cannot bind to 1.2.3.4:5".to_string()), "denied".to_string());
    assert_eq!(e.message(), "[a.rs:0] cannot bind to 1.2.3.4:5: denied");
}

#[test]
fn line_numbers_are_decimal() {
    for line in [0u32, 9, 10, 99, 100, 1234567890, u32::MAX] {
        let e = Error::new("f", line, None, "s".to_string());
        assert_eq!(e.message(), format!("[f:{}] s", line));
    }
}

#[test]
fn context_is_shown_in_braces() {
    let mut e = Error::new("f.rs", 3, Some("send".to_string()), "timed out".to_string());
    e.ctx("file".to_string(), "a.txt".to_string());
    assert_eq!(e.message(), "[f.rs:3] send: timed out { file: a.txt }");
    e.ctx("block".to_string(), "7".to_string());
    assert_eq!(e.message(), "[f.rs:3] send: timed out { file: a.txt, block: 7 }");
    e.ctx("file".to_string(), "b.txt".to_string());
    assert_eq!(e.message(), "[f.rs:3] send: timed out { file: b.txt, block: 7 }");
    e.ctx(String::new(), String::new());
    assert_eq!(e.message(), "[f.rs:3] send: timed out { file: b.txt, block: 7, :  }");
}

#[test]
fn result_takes_context_only_when_it_is_an_error() {
    let ok: Result<u32, Error> = Ok(5);
    assert_eq!(ok.ctx("k".to_string(), "v".to_string()).ok(), Some(5));
    let err: Result<u32, Error> = Err(Error::new("f", 1, None, "s".to_string()));
    match err.ctx("k".to_string(), "v".to_string()) {
        Err(e) => assert_eq!(e.message(), "[f:1] s { k: v }"),
        Ok(_) => panic!("an error stays an error"),
    }
}
