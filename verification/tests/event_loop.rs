use rust_local_server::config::{Config, RouteConfig, ServerConfig};
use rust_local_server::server::{
    consume_written, first_connection_token, listener_addrs, should_drop_connection,
    TIMEOUT_MILLIS,
};

fn server(host: &[u8], ports: Vec<u16>) -> ServerConfig {
    ServerConfig {
        host: host.to_vec(),
        ports,
        server_names: None,
        error_pages: None,
        client_max_body_size: None,
        routes: vec![RouteConfig {
            path: b"/".to_vec(),
            root: None,
            index: None,
            methods: None,
            autoindex: None,
            redirect: None,
            allow_uploads: None,
            cgi_extensions: None,
        }],
    }
}

#[test]
fn every_configured_port_gets_a_listener() {
    let config = Config {
        servers: vec![
            server(b"127.0.0.1", vec![8080, 8081]),
            server(b"0.0.0.0", vec![9090]),
        ],
    };
    let addrs = listener_addrs(&config);
    assert_eq!(addrs.len(), 3);
    assert_eq!(addrs[0], (b"127.0.0.1".to_vec(), 8080));
    assert_eq!(addrs[1], (b"127.0.0.1".to_vec(), 8081));
    assert_eq!(addrs[2], (b"0.0.0.0".to_vec(), 9090));
}

#[test]
fn connection_tokens_start_above_listener_tokens() {
    let t = first_connection_token(3);
    assert_eq!(t, 100);
    assert!(t >= 3);
}

#[test]
fn idle_connections_are_dropped_after_the_timeout() {
    assert_eq!(TIMEOUT_MILLIS, 30_000);
    assert!(should_drop_connection(false, 7, 31_000));
    assert!(!should_drop_connection(false, 7, 30_000));
    assert!(!should_drop_connection(false, 7, 0));
}

#[test]
fn closing_connections_wait_for_their_output_to_drain() {
    assert!(should_drop_connection(true, 0, 0));
    assert!(!should_drop_connection(true, 5, 0));
}

#[test]
fn written_prefix_is_consumed_in_order() {
    let mut buf = b"HTTP/1.1 200 OK".to_vec();
    consume_written(&mut buf, 9);
    assert_eq!(buf, b"200 OK".to_vec());
    consume_written(&mut buf, 6);
    assert!(buf.is_empty());
}
