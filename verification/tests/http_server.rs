use systems::http_server::{parse_request, HttpMethod, HttpRequest, HttpResponse, HttpServer, HttpServerBuilder, HttpStatus};

#[test]
fn test_http_method_display() {
    assert_eq!(HttpMethod::Get.to_string(), "GET");
    assert_eq!(HttpMethod::Post.to_string(), "POST");
    assert_eq!(HttpMethod::Unsupported("PATCH".to_string()).to_string(), "PATCH");
}

#[test]
fn test_http_method_from_str() {
    assert_eq!(HttpMethod::from("GET"), HttpMethod::Get);
    assert_eq!(HttpMethod::from("POST"), HttpMethod::Post);
    assert_eq!(HttpMethod::from("PATCH"), HttpMethod::Unsupported("PATCH".to_string()));
}

#[test]
fn test_http_status_reason_phrase() {
    assert_eq!(HttpStatus::OK.reason_phrase(), "OK");
    assert_eq!(HttpStatus::NotFound.reason_phrase(), "Not Found");
}

#[test]
fn test_response_builder() {
    let response = HttpResponse::new(HttpStatus::OK)
        .with_header("X-Custom", "Value")
        .with_body("Hello, World!");

    assert_eq!(response.status, HttpStatus::OK);
    assert_eq!(response.header("X-Custom").unwrap(), "Value");
    assert_eq!(response.header("Content-Length").unwrap(), "13");
    assert_eq!(String::from_utf8_lossy(&response.body), "Hello, World!");
}

#[test]
fn test_status_codes() {
    assert_eq!(HttpStatus::OK.code(), 200);
    assert_eq!(HttpStatus::Created.code(), 201);
    assert_eq!(HttpStatus::BadRequest.code(), 400);
    assert_eq!(HttpStatus::NotFound.code(), 404);
    assert_eq!(HttpStatus::InternalServerError.code(), 500);
    assert_eq!(HttpStatus::InternalServerError.reason_phrase(), "Internal Server Error");
}

#[test]
fn test_header_overwrite_and_content_type() {
    let response = HttpResponse::new(HttpStatus::Created)
        .with_header("Content-Type", "application/json")
        .with_header("X-A", "1")
        .with_header("X-A", "2")
        .with_body("{}");
    assert_eq!(response.header("X-A").unwrap(), "2");
    assert_eq!(response.header("Content-Type").unwrap(), "application/json");
    assert_eq!(response.header("Content-Length").unwrap(), "2");
    assert_eq!(response.headers.len(), 3);
    assert!(response.header("Missing").is_none());
}

fn request(method: &str, path: &str) -> HttpRequest {
    HttpRequest {
        method: HttpMethod::from(method),
        path: path.to_string(),
        version: "HTTP/1.1".to_string(),
        headers: Vec::new(),
        body: Vec::new(),
    }
}

#[test]
fn test_routing_and_fallback() {
    let server = HttpServerBuilder::new()
        .get("/", |_req: &HttpRequest| HttpResponse::new(HttpStatus::OK).with_body("home"))
        .post("/items", |req: &HttpRequest| {
            HttpResponse::new(HttpStatus::Created).with_body(&format!("{} bytes", req.body.len()))
        })
        .build();
    assert_eq!(server.route_for(&HttpMethod::Get, "/"), Some(0));
    assert_eq!(server.route_for(&HttpMethod::Post, "/"), None);

    let home = server.respond(&request("GET", "/"));
    assert_eq!(home.status, HttpStatus::OK);
    assert_eq!(home.body, b"home".to_vec());

    let created = server.respond(&request("POST", "/items"));
    assert_eq!(created.status, HttpStatus::Created);

    let missing = server.respond(&request("DELETE", "/"));
    assert_eq!(missing.status, HttpStatus::NotFound);
    assert_eq!(missing.body, b"404 Not Found".to_vec());
}

#[test]
fn test_custom_not_found_and_empty_server() {
    let server = HttpServerBuilder::new()
        .not_found(|_req: &HttpRequest| HttpResponse::new(HttpStatus::BadRequest))
        .build();
    assert_eq!(server.respond(&request("GET", "/x")).status, HttpStatus::BadRequest);

    let empty = HttpServer::new();
    assert_eq!(empty.respond(&request("GET", "/")).status, HttpStatus::NotFound);
}

#[test]
fn http_parse_request_full() {
    let raw = b"POST /submit HTTP/1.1\r\nHost: example.com\r\n Content-Type :  text/plain \r\nX-Note: a:b\r\nnocolon\r\n\r\nbody bytes";
    let req = parse_request(raw).unwrap();
    assert!(matches!(req.method, HttpMethod::Post));
    assert_eq!(req.path, "/submit");
    assert_eq!(req.version, "HTTP/1.1");
    assert_eq!(req.header("host").map(|s| s.as_str()), Some("example.com"));
    assert_eq!(req.header("content-type").map(|s| s.as_str()), Some("text/plain"));
    assert_eq!(req.header("x-note").map(|s| s.as_str()), Some("a:b"));
    assert_eq!(req.headers.len(), 3);
    assert_eq!(req.body, b"body bytes".to_vec());
}

#[test]
fn http_parse_request_errors() {
    assert_eq!(parse_request(b"").err(), Some("Empty request".to_string()));
    assert_eq!(parse_request(b"GET / HTTP/1.1\r\n").err(), Some("Invalid HTTP request format".to_string()));
    assert_eq!(parse_request(b"\r\n\r\n").err(), Some("Missing request line".to_string()));
    assert_eq!(parse_request(b"   \r\n\r\n").err(), Some("Missing method".to_string()));
    assert_eq!(parse_request(b"GET\r\n\r\n").err(), Some("Missing path".to_string()));
    assert_eq!(parse_request(b"GET /x\r\n\r\n").err(), Some("Missing version".to_string()));
    let later = parse_request(b"get /a HTTP/1.0\r\nA: 1\r\nA: 2\r\n\r\n").unwrap();
    assert!(matches!(later.method, HttpMethod::Unsupported(ref m) if m == "get"));
    assert_eq!(later.header("a").map(|s| s.as_str()), Some("2"));
    assert!(later.body.is_empty());
}

#[test]
fn http_response_to_bytes() {
    let resp = HttpResponse::new(HttpStatus::NotFound).with_body("nope");
    let bytes = resp.to_bytes();
    let text = String::from_utf8(bytes).unwrap();
    assert!(text.starts_with("HTTP/1.1 404 Not Found\r\n"));
    assert!(text.contains("Content-Length: 4\r\n"));
    assert!(text.contains("Content-Type: text/plain\r\n"));
    assert!(text.ends_with("\r\n\r\nnope"));
    let empty = HttpResponse::new(HttpStatus::OK).to_bytes();
    assert_eq!(empty, b"HTTP/1.1 200 OK\r\n\r\n".to_vec());
}
