use edge_cache::compression::gzip::{chunk_header, last_chunk};
use edge_cache::handler::static_handler::{
    is_get_method, parse_request_line, strip_leading_separators, use_chunked,
};
use edge_cache::response_builder::http::{create_response, get_file_type, response_header};
use edge_cache::text::{push_decimal, push_hex};

#[test]
fn content_type_by_ending() {
    assert_eq!(get_file_type("index.html"), "text/html");
    assert_eq!(get_file_type("style.css"), "text/css");
    assert_eq!(get_file_type("app.js"), "application/javascript");
    assert_eq!(get_file_type("archive.tar.gz"), "application/octet-stream");
    assert_eq!(get_file_type("html"), "application/octet-stream");
}

#[test]
fn response_header_is_exact() {
    let contents = [1u8, 2, 3, 4, 5];
    assert_eq!(
        create_response(&contents, "index.html"),
        "HTTP/1.1 200 OK\r\nContent-Length: 5\r\nContent-Type: text/html\r\nConnection: close\r\n\r\n"
    );
    let empty: [u8; 0] = [];
    assert_eq!(
        create_response(&empty, "data.bin"),
        "HTTP/1.1 200 OK\r\nContent-Length: 0\r\nContent-Type: application/octet-stream\r\nConnection: close\r\n\r\n"
    );
    assert_eq!(
        response_header(104857600, "movie.bin"),
        "HTTP/1.1 200 OK\r\nContent-Length: 104857600\r\nContent-Type: application/octet-stream\r\nConnection: close\r\n\r\n"
    );
}

#[test]
fn decimal_rendering() {
    let mut s = String::new();
    push_decimal(&mut s, 0);
    assert_eq!(s, "0");
    let mut s = String::new();
    push_decimal(&mut s, 1024);
    assert_eq!(s, "1024");
    let mut s = String::from("len=");
    push_decimal(&mut s, 104857600);
    assert_eq!(s, "len=104857600");
}

#[test]
fn hex_rendering_and_chunk_framing() {
    let mut s = String::new();
    push_hex(&mut s, 48879);
    assert_eq!(s, "BEEF");
    assert_eq!(chunk_header(0), "0\r\n");
    assert_eq!(chunk_header(255), "FF\r\n");
    assert_eq!(chunk_header(4096), "1000\r\n");
    assert_eq!(last_chunk(), "0\r\n\r\n");
}

#[test]
fn request_line_parsing() {
    let req = b"GET /index.html HTTP/1.1\r\nHost: example\r\n\r\n".to_vec();
    let parsed = parse_request_line(&req);
    assert_eq!(parsed.method, b"GET".to_vec());
    assert_eq!(parsed.target, b"/index.html".to_vec());

    let bare = b"GET\r\n".to_vec();
    let parsed = parse_request_line(&bare);
    assert_eq!(parsed.method, b"GET".to_vec());
    assert_eq!(parsed.target, b"/".to_vec());

    let empty = Vec::new();
    let parsed = parse_request_line(&empty);
    assert_eq!(parsed.method, Vec::<u8>::new());
    assert_eq!(parsed.target, b"/".to_vec());

    let spaced = b"  POST\t/a/b  HTTP/1.0\nrest".to_vec();
    let parsed = parse_request_line(&spaced);
    assert_eq!(parsed.method, b"POST".to_vec());
    assert_eq!(parsed.target, b"/a/b".to_vec());
}

#[test]
fn get_method_in_any_case() {
    assert!(is_get_method(&b"GET".to_vec()));
    assert!(is_get_method(&b"get".to_vec()));
    assert!(is_get_method(&b"GeT".to_vec()));
    assert!(!is_get_method(&b"POST".to_vec()));
    assert!(!is_get_method(&b"GETX".to_vec()));
    assert!(!is_get_method(&Vec::new()));
}

#[test]
fn leading_separators_are_stripped() {
    assert_eq!(strip_leading_separators("///a/b"), "a/b");
    assert_eq!(strip_leading_separators("\\a"), "a");
    assert_eq!(strip_leading_separators("abc"), "abc");
    assert_eq!(strip_leading_separators(""), "");
    assert_eq!(strip_leading_separators("/"), "");
}

#[test]
fn chunking_threshold() {
    assert!(!use_chunked(0));
    assert!(!use_chunked(104857599));
    assert!(use_chunked(104857600));
    assert!(use_chunked(u64::MAX));
}
