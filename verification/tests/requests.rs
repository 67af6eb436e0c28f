use storyteller_opds_proxy::config::{Environment, ProxyConfig};
use storyteller_opds_proxy::download_queue::{
    finish_job, jobs, start_or_get, CachedFile, DownloadState,
};
use storyteller_opds_proxy::error::ProxyError;
use storyteller_opds_proxy::http::{
    download_reply, feed_reply, feed_reply_where_links_fit, fetch_reply, get_header, handle, public_base, query_param,
    request_target, route, upstream_failure_reply, Action, Body, DownloadReply, IncomingRequest,
    Reply,
};
use storyteller_opds_proxy::opds::proxied_url;
use storyteller_opds_proxy::web_url::WebUrl;

fn request(url: &str, headers: &[(&str, &str)]) -> IncomingRequest {
    IncomingRequest {
        url: url.to_string(),
        headers: headers.iter().map(|(k, v)| (k.to_string(), v.to_string())).collect(),
    }
}

fn config(public_url: Option<&str>) -> ProxyConfig {
    ProxyConfig::from_env(Environment {
        storyteller_url: Some("http://web:8001//".to_string()),
        public_url: public_url.map(|u| u.to_string()),
        cache_dir: None,
        listen_addr: None,
        threads: None,
        max_body_bytes: None,
        cache_ttl_secs: None,
    })
}

fn text(reply: Reply) -> (u16, String) {
    assert!(reply.headers.is_empty());
    match reply.body {
        Body::Text(text) => (reply.status, text),
        Body::Data(_) => panic!("data"),
    }
}

fn pair(key: &str, value: &str) -> (String, String) {
    (key.to_string(), value.to_string())
}

#[test]
fn the_first_header_counts() {
    let req = request("/", &[("X", "0"), ("authorization", "a"), ("Authorization", "b")]);
    assert_eq!(get_header(&req, "AUTHORIZATION"), Some("a".to_string()));
    assert_eq!(get_header(&req, "Auth"), None);
}

#[test]
fn targets_of_requests() {
    let req = request("/opds?u=a%20b", &[("Host", "h:1")]);
    let url = request_target(&req).unwrap();
    assert_eq!(url.text, "http://h:1/opds?u=a%20b");
    assert_eq!(url.path, "/opds");
    assert_eq!(url.pairs, vec![pair("u", "a b")]);
    let bare = request_target(&request("/x/../y", &[])).unwrap();
    assert_eq!(bare.text, "http://localhost:8088/y");
    let whole = request_target(&request("https://other/z?q", &[("Host", "h")])).unwrap();
    assert_eq!(whole.text, "https://other/z?q");
    assert_eq!(whole.path, "/z");
    assert!(matches!(
        request_target(&request("/", &[("Host", "[")])),
        Err(ProxyError::Url(_))
    ));
}

#[test]
fn the_first_query_pair_counts() {
    let url = WebUrl {
        text: String::new(),
        path: String::new(),
        pairs: vec![pair("a", "1"), pair("u", "2"), pair("u", "3")],
    };
    assert_eq!(query_param(&url, "u"), Some("2".to_string()));
    assert_eq!(query_param(&url, "U"), None);
}

#[test]
fn links_lead_to_the_public_address() {
    let req = request("/", &[("Host", "h:1")]);
    assert_eq!(public_base(&config(None), &req), "http://h:1");
    assert_eq!(public_base(&config(None), &request("/", &[])), "http://localhost:8088");
    assert_eq!(public_base(&config(Some("https://p/x//")), &req), "https://p/x");
}

#[test]
fn the_catalog_route() {
    let cfg = config(Some("http://p"));
    for path in ["/", "/opds"] {
        match handle(&request(path, &[("Authorization", " a ")]), &cfg).unwrap() {
            Action::Feed { upstream, base } => {
                assert_eq!(upstream.url, "http://web:8001/opds");
                assert_eq!(upstream.authorization, Some(" a ".to_string()));
                assert_eq!(base, "http://p");
            }
            _ => panic!("no feed"),
        }
    }
    match handle(&request("/opds?u=http%3A%2F%2Fx", &[]), &cfg).unwrap() {
        Action::Feed { upstream, .. } => {
            assert_eq!(upstream.url, "http://x");
            assert_eq!(upstream.authorization, None);
        }
        _ => panic!("no feed"),
    }
}

#[test]
fn the_file_route() {
    let cfg = config(None);
    match handle(&request("/fetch?u=x&u=y", &[("Authorization", "\u{a0}a b\t")]), &cfg).unwrap() {
        Action::Fetch(upstream) => {
            assert_eq!(upstream.url, "x");
            assert_eq!(upstream.authorization, Some("a b".to_string()));
        }
        _ => panic!("no fetch"),
    }
}

#[test]
fn the_book_route() {
    let cfg = config(None);
    match handle(&request("/download?u=x", &[("Authorization", " a ")]), &cfg).unwrap() {
        Action::Download { url, auth } => {
            assert_eq!(url, "x");
            assert_eq!(auth, Some(" a ".to_string()));
        }
        _ => panic!("no download"),
    }
}

#[test]
fn bad_requests_are_refused() {
    let cfg = config(None);
    for (path, status, message) in [
        ("/fetch", 400, "missing u"),
        ("/download?v=1", 400, "missing u"),
        ("/other", 404, "not found"),
        ("/opds/", 404, "not found"),
    ] {
        match handle(&request(path, &[]), &cfg).unwrap() {
            Action::Respond(reply) => assert_eq!(text(reply), (status, message.to_string())),
            _ => panic!("not refused"),
        }
    }
    assert!(matches!(
        handle(&request("/", &[("Host", "[")]), &cfg),
        Err(ProxyError::Url(_))
    ));
    assert!(matches!(handle(&request("/health", &[]), &cfg), Ok(Action::Health)));
}

#[test]
fn a_target_is_routed_by_its_path() {
    let url = WebUrl {
        text: String::new(),
        path: "/fetch".to_string(),
        pairs: vec![pair("u", "x")],
    };
    assert!(matches!(
        route(&url, &config(None), None, String::new()),
        Action::Fetch(_)
    ));
}

#[test]
fn links_of_a_catalog_lead_back_to_their_upstream() {
    let cfg = config(None);
    for upstream in ["http://web:8001/b?format=readaloud&x=%20+", "", "a&u=b#c \u{1f4d6}"] {
        for path in ["/opds", "/fetch", "/download"] {
            let link = proxied_url("http://h:1", path, upstream).unwrap();
            let target = link.text.strip_prefix("http://h:1").unwrap();
            let asked = match handle(&request(target, &[("Host", "h:1")]), &cfg).unwrap() {
                Action::Feed { upstream, .. } => ("/opds", upstream.url),
                Action::Fetch(upstream) => ("/fetch", upstream.url),
                Action::Download { url, .. } => ("/download", url),
                _ => panic!("not routed"),
            };
            assert_eq!(asked, (path, upstream.to_string()));
            let whole = request_target(&request(&link.text, &[])).unwrap();
            assert_eq!(whole.text, link.text);
            assert_eq!(whole.path, path);
            assert_eq!(query_param(&whole, "u"), Some(upstream.to_string()));
        }
    }
}

#[test]
fn catalog_replies() {
    let body = b"<feed><link href=\"x\"/></feed>";
    let reply = feed_reply("http://web/", "http://p", None, body).unwrap();
    assert_eq!(reply.status, 200);
    assert_eq!(
        reply.headers,
        vec![pair("Content-Type", "application/atom+xml;profile=opds-catalog")]
    );
    match reply.body {
        Body::Data(bytes) => assert_eq!(
            String::from_utf8(bytes).unwrap(),
            "<feed><link href=\"http://p/fetch?u=http%3A%2F%2Fweb%2Fx\"/></feed>"
        ),
        Body::Text(_) => panic!("text"),
    }
    let typed = feed_reply("http://web/", "http://p", Some("a/b".to_string()), b"").unwrap();
    assert_eq!(typed.headers, vec![pair("Content-Type", "a/b")]);
    assert!(matches!(feed_reply("web", "http://p", None, b""), Err(ProxyError::Url(_))));
    assert!(matches!(
        feed_reply("http://web/", "http://p", None, b"<a></b>"),
        Err(ProxyError::Xml(_))
    ));
}

#[test]
fn file_replies() {
    let reply = fetch_reply(None, vec![1, 2]);
    assert_eq!(reply.status, 200);
    assert_eq!(reply.headers, vec![pair("Content-Type", "application/octet-stream")]);
    assert!(matches!(reply.body, Body::Data(bytes) if bytes == vec![1, 2]));
    let typed = fetch_reply(Some("image/png".to_string()), vec![]);
    assert_eq!(typed.headers, vec![pair("Content-Type", "image/png")]);
}

#[test]
fn upstream_failures() {
    assert_eq!(
        text(upstream_failure_reply(Some(401), "x")),
        (401, "unauthorised".to_string())
    );
    assert_eq!(
        text(upstream_failure_reply(Some(404), "http status: 404")),
        (502, "upstream error: http status: 404".to_string())
    );
    assert_eq!(
        text(upstream_failure_reply(None, "timeout")),
        (502, "upstream error: timeout".to_string())
    );
}

#[test]
fn replies_to_downloads() {
    match download_reply(DownloadState::Ready { path: "p".to_string(), delete_after_open: true }) {
        DownloadReply::File { path, delete_after_open, headers } => {
            assert_eq!(path, "p");
            assert!(delete_after_open);
            assert_eq!(
                headers,
                vec![
                    pair("Content-Type", "application/epub+zip"),
                    pair(
                        "Content-Disposition",
                        "attachment; filename=\"readaloud-stripped.epub\""
                    ),
                ]
            );
        }
        DownloadReply::Respond(_) => panic!("no file"),
    }
    match download_reply(DownloadState::Preparing) {
        DownloadReply::Respond(reply) => {
            assert_eq!(reply.status, 202);
            assert_eq!(reply.headers, vec![pair("Retry-After", "10")]);
            assert!(matches!(reply.body, Body::Text(t) if t == "processing\n"));
        }
        _ => panic!("a file"),
    }
    match download_reply(DownloadState::Failed("bad".to_string())) {
        DownloadReply::Respond(reply) => {
            assert_eq!(text(reply), (502, "epub rewrite error: bad".to_string()))
        }
        _ => panic!("a file"),
    }
}

#[test]
fn a_download_can_be_retried() {
    let cfg = config(None);
    let mut table = jobs();
    let missing = CachedFile { exists: false, age_secs: None };
    let (state, job) = start_or_get("http://x", &None, &cfg, &missing, &mut table);
    assert!(matches!(download_reply(state), DownloadReply::Respond(r) if r.status == 202));
    let job = job.unwrap();
    let (state, none) = start_or_get("http://x", &None, &cfg, &missing, &mut table);
    assert!(matches!(download_reply(state), DownloadReply::Respond(r) if r.status == 202));
    assert!(none.is_none());
    finish_job(&mut table, job.key, Ok(()));
    let file = CachedFile { exists: true, age_secs: Some(0) };
    let (state, none) = start_or_get("http://x", &None, &cfg, &file, &mut table);
    assert!(none.is_none());
    assert!(matches!(
        download_reply(state),
        DownloadReply::File { path, delete_after_open: false, .. } if path == job.cache_path
    ));
}

#[test]
fn links_on_international_hosts_lead_back_too() {
    let link = proxied_url("http://b\u{fc}cher.example:81/x", "/fetch", "a b").unwrap();
    assert_eq!(link.text, "http://xn--bcher-kva.example:81/fetch?u=a+b");
    let whole = request_target(&request(&link.text, &[])).unwrap();
    assert_eq!(whole.text, link.text);
    assert_eq!(query_param(&whole, "u"), Some("a b".to_string()));
    let target = link.text.strip_prefix("http://xn--bcher-kva.example:81").unwrap();
    let req = request(target, &[("Host", "b\u{fc}cher.example:81")]);
    assert!(matches!(
        handle(&req, &config(None)),
        Ok(Action::Fetch(upstream)) if upstream.url == "a b"
    ));
}

#[test]
fn a_link_on_a_host_that_is_too_long_in_ascii_is_not_parsed_again() {
    let label: String = (0..1000u32)
        .map(|i| char::from_u32(0x4e00 + 20 * i).unwrap())
        .collect();
    let base = format!("http://{}", label);
    let link = proxied_url(&base, "/opds", "x").unwrap();
    assert_eq!(link.path, "/opds");
    assert_eq!(link.pairs, vec![pair("u", "x")]);
    assert!(link.text.ends_with("/opds?u=x"));
    assert!(url::Url::parse(&link.text).is_err());
    let req = request("/opds?u=x", &[("Host", &label)]);
    assert!(matches!(
        handle(&req, &config(None)),
        Ok(Action::Feed { upstream, .. }) if upstream.url == "x"
    ));
}

#[test]
fn catalog_replies_where_links_fit() {
    let body = b"<link href=\"x\"/>";
    let checked = feed_reply_where_links_fit("http://web/", "http://p", None, body);
    let plain = feed_reply("http://web/", "http://p", None, body).unwrap();
    match checked {
        Some(Ok(reply)) => {
            assert_eq!(reply.status, plain.status);
            assert_eq!(reply.headers, plain.headers);
        }
        _ => panic!("no reply"),
    }
    assert!(matches!(
        feed_reply_where_links_fit("http://web/", "nowhere", None, body),
        Some(Err(ProxyError::Url(_)))
    ));
}
