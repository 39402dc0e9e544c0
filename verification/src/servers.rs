//! The static table of game servers, looked up by network port.

use vstd::prelude::*;

verus! {

/// One game server of the cluster.
#[derive(Clone, Copy, Debug)]
pub struct Server {
    pub name: &'static str,
    pub port: u16,
}

/// The name of the server that listens on `port`, if the table has one.
pub open spec fn server_name(port: u16) -> Option<Seq<char>> {
    if port == 2337 {
        Some("basil"@)
    } else if port == 1337 {
        Some("sybil"@)
    } else if port == 3336 {
        Some("terry"@)
    } else if port == 1447 {
        Some("manuel"@)
    } else if port == 6337 {
        Some("campbell"@)
    } else if port == 4447 {
        Some("event-hall-us"@)
    } else {
        None
    }
}

/// Looks a server up by its port.
pub fn server_by_port(port: u16) -> (found: Option<&'static Server>)
    ensures
        match found {
            Some(server) => server.port == port && server_name(port) == Some(server.name@),
            None => server_name(port).is_none(),
        },
{
    if port == 2337 {
        Some(&Server { name: "basil", port: 2337 })
    } else if port == 1337 {
        Some(&Server { name: "sybil", port: 1337 })
    } else if port == 3336 {
        Some(&Server { name: "terry", port: 3336 })
    } else if port == 1447 {
        Some(&Server { name: "manuel", port: 1447 })
    } else if port == 6337 {
        Some(&Server { name: "campbell", port: 6337 })
    } else if port == 4447 {
        Some(&Server { name: "event-hall-us", port: 4447 })
    } else {
        None
    }
}

} // verus!
