use storyteller_opds_proxy::config::{Environment, ProxyConfig};

fn environment() -> Environment {
    Environment {
        storyteller_url: None,
        public_url: None,
        cache_dir: None,
        listen_addr: None,
        threads: None,
        max_body_bytes: None,
        cache_ttl_secs: None,
    }
}

#[test]
fn defaults() {
    let cfg = ProxyConfig::from_env(environment());
    assert_eq!(cfg.storyteller_url, "http://localhost:8001");
    assert_eq!(cfg.public_url, None);
    assert_eq!(cfg.cache_dir, "./cache");
    assert_eq!(cfg.listen_addr, "0.0.0.0:8088");
    assert_eq!(cfg.threads, 4);
    assert_eq!(cfg.max_body_bytes, 5 * 1024 * 1024 * 1024);
    assert_eq!(cfg.cache_ttl_secs, 24 * 60 * 60);
}

#[test]
fn settings_are_taken_over() {
    let cfg = ProxyConfig::from_env(Environment {
        storyteller_url: Some("http://web:8001///".to_string()),
        public_url: Some("http://p/".to_string()),
        cache_dir: Some("/cache".to_string()),
        listen_addr: Some("127.0.0.1:1".to_string()),
        threads: Some("+16".to_string()),
        max_body_bytes: Some("007".to_string()),
        cache_ttl_secs: Some("0".to_string()),
    });
    assert_eq!(cfg.storyteller_url, "http://web:8001");
    assert_eq!(cfg.public_url, Some("http://p/".to_string()));
    assert_eq!(cfg.cache_dir, "/cache");
    assert_eq!(cfg.listen_addr, "127.0.0.1:1");
    assert_eq!(cfg.threads, 16);
    assert_eq!(cfg.max_body_bytes, 7);
    assert_eq!(cfg.cache_ttl_secs, 0);
}

#[test]
fn numbers_that_are_none_give_the_default() {
    for text in [
        "", "+", "-1", "-0", "1 ", " 1", "1.0", "x", "++1", "0x10", "\u{661}",
        "18446744073709551616", "99999999999999999999999999",
    ] {
        let cfg = ProxyConfig::from_env(Environment {
            threads: Some(text.to_string()),
            max_body_bytes: Some(text.to_string()),
            cache_ttl_secs: Some(text.to_string()),
            ..environment()
        });
        assert_eq!((cfg.threads, cfg.max_body_bytes, cfg.cache_ttl_secs), (4, 5368709120, 86400));
        assert!(text.parse::<u64>().is_err());
    }
}

#[test]
fn numbers_up_to_the_largest() {
    for text in ["18446744073709551615", "18446744073709551614", "+0018446744073709551615", "10"] {
        let cfg = ProxyConfig::from_env(Environment {
            max_body_bytes: Some(text.to_string()),
            ..environment()
        });
        assert_eq!(cfg.max_body_bytes, text.parse::<u64>().unwrap());
    }
}
