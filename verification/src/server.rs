use vstd::prelude::*;

use crate::config::{Config, ServerConfig};

verus! {

/// The idle timeout in milliseconds: a connection silent longer than this
/// is dropped.
pub const TIMEOUT_MILLIS: u64 = 30_000;

/// The number of (host, port) listening endpoints over the first `n`
/// servers of the configuration.
pub open spec fn total_listeners(servers: Seq<ServerConfig>, n: int) -> int
    decreases n,
{
    if n <= 0 {
        0
    } else {
        total_listeners(servers, n - 1) + servers[n - 1].ports@.len()
    }
}

/// The listening endpoints of the first `n` servers, in configuration
/// order: each server's host paired with each of its ports.
pub open spec fn spec_listener_addrs(servers: Seq<ServerConfig>, n: int) -> Seq<(Seq<u8>, u16)>
    decreases n,
{
    if n <= 0 {
        Seq::<(Seq<u8>, u16)>::empty()
    } else {
        spec_listener_addrs(servers, n - 1) + servers[n - 1].ports@.map_values(
            |p: u16| (servers[n - 1].host@, p),
        )
    }
}

/// The endpoint list is exactly as long as the number of listeners:
/// a configuration with M ports in all yields M endpoints to bind.
pub proof fn lemma_listener_count(servers: Seq<ServerConfig>, n: int)
    requires
        0 <= n,
    ensures
        spec_listener_addrs(servers, n).len() == total_listeners(servers, n),
    decreases n,
{
    if n > 0 {
        lemma_listener_count(servers, n - 1);
    }
}

/// The abstract view of an executable endpoint list.
pub open spec fn addrs_view(addrs: Seq<(Vec<u8>, u16)>) -> Seq<(Seq<u8>, u16)> {
    addrs.map_values(|a: (Vec<u8>, u16)| (a.0@, a.1))
}

/// Enumerate every (host, port) endpoint of the configuration, one per
/// listener to bind, in configuration order.
pub fn listener_addrs(config: &Config) -> (r: Vec<(Vec<u8>, u16)>)
    ensures
        addrs_view(r@) == spec_listener_addrs(config.servers@, config.servers@.len() as int),
        r@.len() == total_listeners(config.servers@, config.servers@.len() as int),
{
    let mut r: Vec<(Vec<u8>, u16)> = Vec::new();
    let mut i: usize = 0;
    proof {
        assert(addrs_view(r@) =~= spec_listener_addrs(config.servers@, 0));
    }
    while i < config.servers.len()
        invariant
            0 <= i <= config.servers.len(),
            addrs_view(r@) == spec_listener_addrs(config.servers@, i as int),
        decreases config.servers.len() - i,
    {
        let ports = &config.servers[i].ports;
        let mut k: usize = 0;
        while k < ports.len()
            invariant
                0 <= i < config.servers.len(),
                0 <= k <= ports.len(),
                ports == &config.servers[i as int].ports,
                addrs_view(r@) == spec_listener_addrs(config.servers@, i as int)
                    + config.servers@[i as int].ports@.take(k as int).map_values(
                    |p: u16| (config.servers@[i as int].host@, p),
                ),
            decreases ports.len() - k,
        {
            let host = crate::router::copy_vec(&config.servers[i].host);
            let port = ports[k];
            let ghost r0 = r@;
            r.push((host, port));
            proof {
                assert(addrs_view(r@) =~~= addrs_view(r0).push(
                    (config.servers@[i as int].host@, config.servers@[i as int].ports@[k as int]),
                ));
                assert(config.servers@[i as int].ports@.take(k + 1) =~= config.servers@[
                    i as int].ports@.take(k as int).push(config.servers@[i as int].ports@[
                    k as int]));
                assert(addrs_view(r@) =~~= spec_listener_addrs(config.servers@, i as int)
                    + config.servers@[i as int].ports@.take(k + 1).map_values(
                    |p: u16| (config.servers@[i as int].host@, p),
                ));
            }
            k += 1;
        }
        proof {
            assert(config.servers@[i as int].ports@.take(ports@.len() as int) =~= config.servers@[
                i as int].ports@);
            assert(addrs_view(r@) =~~= spec_listener_addrs(config.servers@, i + 1));
        }
        i += 1;
    }
    proof {
        lemma_listener_count(config.servers@, config.servers@.len() as int);
        assert(r@.len() == addrs_view(r@).len());
    }
    r
}

/// The first identifier handed to accepted connections. It sits strictly
/// above every listener identifier, so the two identifier spaces stay
/// disjoint.
pub fn first_connection_token(listener_count: usize) -> (t: usize)
    requires
        listener_count <= 100,
    ensures
        t == 100,
        t >= listener_count,
{
    100
}

/// Whether the sweep drops a connection: it is marked closing with nothing
/// left to write, or it has been idle longer than the timeout.
pub fn should_drop_connection(is_closing: bool, outbound_len: usize, idle_millis: u64) -> (r:
    bool)
    ensures
        r == ((is_closing && outbound_len == 0) || idle_millis > TIMEOUT_MILLIS),
{
    (is_closing && outbound_len == 0) || idle_millis > TIMEOUT_MILLIS
}

/// Drop the prefix of the outbound buffer that a write managed to send;
/// the rest stays, in order.
pub fn consume_written(buf: &mut Vec<u8>, written: usize)
    requires
        written <= old(buf).len(),
    ensures
        final(buf)@ == old(buf)@.skip(written as int),
{
    crate::http::drain_front(buf, written);
}

} // verus!
