use bc_rust::request::{
    get_leading_zeros, get_max_nonce, get_mine_content, get_mine_id, get_request_content, try_get_leading_zeros,
    try_get_max_nonce, try_get_mine_id, try_get_request_content,
};
use regex::Regex;

// The same patterns, read with the `regex` crate, where a failed cut or a
// failed number comes out as `None`.
fn regex_request_content(text: &str) -> Option<&str> {
    let re = Regex::new(r"(GET /convert_bc(.*) HTTP)").unwrap();
    match re.captures(text) {
        Some(caps) => {
            let m = caps.get(0).unwrap().as_str();
            let end_pos = m.len() - 5;
            m.get(18..end_pos)
        }
        None => Some(text),
    }
}

fn regex_digits(pattern: &str, open: usize, close: usize, text: &str, default: u64) -> Option<u64> {
    let re = Regex::new(pattern).unwrap();
    match re.captures(text) {
        Some(caps) => {
            let m = caps.get(0).unwrap().as_str();
            m[open..m.len() - close].parse::<u64>().ok()
        }
        None => Some(default),
    }
}

fn regex_mine_content(text: &str) -> &str {
    let re = Regex::new(r"__(.*) HTTP").unwrap();
    match re.captures(text) {
        Some(caps) => {
            let m = caps.get(0).unwrap().as_str();
            &m[2..m.len() - 5]
        }
        None => text,
    }
}

const SAMPLES: &[&str] = &[
    "GET /convert_bc?c=hello%20world HTTP/1.1\r\nHost: localhost\r\n\r\n",
    "GET /convert_bc*__my block HTTP/1.1\r\nUser-Agent: x HTTP\r\n",
    "GET /convert_bc HTTP/1.1\r\n",
    "GET /convert_bcab HTTP/1.1\r\n",
    "GET /convert_bc?c=\u{e9}t\u{e9} HTTP/1.1 HTTP/1.1\r\n",
    "GET /convert_bc?\u{e9}\u{e9} HTTP/1.1\r\n",
    "GET /convert_bc\u{e9}\u{e9} HTTP/1.1\r\n",
    "GET /convert_bc\n HTTP GET /convert_bc?x=y HTTP\n",
    "GET /minebc*2__new text HTTP/1.1\r\n",
    "GET /minebc*__x HTTP/1.1\r\n",
    "GET /minebc*99999999999999999999999__x HTTP/1.1\r\n",
    "GET /minebc*18446744073709551615__x HTTP/1.1\r\n",
    "GET /minebc*007__content with __ inside HTTP/1.1 HTTP/1.1\r\n",
    "GET /minebc*3_x__y HTTP/1.1\r\n",
    "GET /setting_bc*500__2 HTTP/1.1\r\n",
    "GET /setting_bc*__ HTTP/1.1\r\n",
    "GET /setting_bc*1000000__a HTTP/1.1\r\n",
    "GET /setting_bc*12__7 HTTP/1.1\r\nX: __9 HTTP\r\n",
    "___5 HTTP",
    "__\n HTTP __ok HTTP",
    "GET / HTTP/1.1\r\n",
    "",
    "no markers at all",
    "GET /minebc*5__a\u{e9}\u{1f600}b HTTP/1.1\r\n",
];

#[test]
fn request_content_agrees_with_regex() {
    for s in SAMPLES {
        assert_eq!(try_get_request_content(s), regex_request_content(s), "{:?}", s);
    }
}

#[test]
fn mine_id_agrees_with_regex() {
    for s in SAMPLES {
        assert_eq!(try_get_mine_id(s), regex_digits(r"(GET /minebc\*[0-9]*__)", 12, 2, s, 0), "{:?}", s);
    }
}

#[test]
fn mine_content_agrees_with_regex() {
    for s in SAMPLES {
        assert_eq!(get_mine_content(s), regex_mine_content(s), "{:?}", s);
    }
}

#[test]
fn max_nonce_agrees_with_regex() {
    for s in SAMPLES {
        assert_eq!(try_get_max_nonce(s), regex_digits(r"(GET /setting_bc\*[0-9]*__)", 16, 2, s, 1_000_000), "{:?}", s);
    }
}

#[test]
fn leading_zeros_agrees_with_regex() {
    for s in SAMPLES {
        assert_eq!(try_get_leading_zeros(s), regex_digits(r"__[0-9]* HTTP", 2, 5, s, 3), "{:?}", s);
    }
}

#[test]
fn request_content_examples() {
    assert_eq!(get_request_content("GET /convert_bc?c=hello%20world HTTP/1.1\r\n"), "hello%20world");
    assert_eq!(get_request_content("GET /convert_bc?c=a HTTP/1.1 HTTP/1.1\r\n"), "a HTTP/1.1");
    assert_eq!(get_request_content("nothing here"), "nothing here");
    assert_eq!(try_get_request_content("GET /convert_bc HTTP/1.1"), None);
    assert_eq!(try_get_request_content("GET /convert_bc?\u{e9}\u{e9} HTTP"), Some("\u{e9}"));
    assert_eq!(try_get_request_content("GET /convert_bc\u{e9}\u{e9} HTTP"), None);
    assert_eq!(try_get_request_content("GET /convert_bcabc HTTP"), Some(""));
}

#[test]
fn mine_id_examples() {
    assert_eq!(get_mine_id("GET /minebc*2__x HTTP/1.1"), 2);
    assert_eq!(get_mine_id("GET /minebc*0042__x HTTP/1.1"), 42);
    assert_eq!(get_mine_id("GET / HTTP/1.1"), 0);
    assert_eq!(get_mine_id("GET /minebc*18446744073709551615__"), u64::MAX);
    assert_eq!(try_get_mine_id("GET /minebc*18446744073709551616__"), None);
    assert_eq!(try_get_mine_id("GET /minebc*__"), None);
    assert_eq!(get_mine_id("GET /minebc*7x__ GET /minebc*8__"), 8);
}

#[test]
fn mine_content_examples() {
    assert_eq!(get_mine_content("GET /minebc*2__new text HTTP/1.1\r\n"), "new text");
    assert_eq!(get_mine_content("a__b HTTP c HTTP\nd HTTP"), "b HTTP c");
    assert_eq!(get_mine_content("__\n HTTP"), "__\n HTTP");
    assert_eq!(get_mine_content("x__ HTTP"), "");
}

#[test]
fn settings_examples() {
    assert_eq!(get_max_nonce("GET /setting_bc*500__2 HTTP/1.1"), 500);
    assert_eq!(get_leading_zeros("GET /setting_bc*500__2 HTTP/1.1"), 2);
    assert_eq!(get_max_nonce("GET / HTTP/1.1"), 1_000_000);
    assert_eq!(get_leading_zeros("GET / HTTP/1.1"), 3);
    assert_eq!(try_get_leading_zeros("__ HTTP"), None);
    assert_eq!(try_get_max_nonce("GET /setting_bc*__"), None);
    assert_eq!(get_leading_zeros("___5 HTTP"), 5);
}
