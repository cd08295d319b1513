//! Operating-system guesses from the IP TTL and from the set of open ports.
use vstd::prelude::*;
use vstd::string::*;

verus! {

/// The OS family suggested by an initial TTL value.
pub open spec fn os_for_ttl(ttl: u8) -> Seq<char> {
    if ttl <= 64 {
        "Linux/Unix"@
    } else if ttl <= 128 {
        "Windows"@
    } else {
        "Network Device"@
    }
}

/// Guesses the OS from a TTL (Linux/macOS start at 64, Windows at 128, routers at 255).
pub fn guess_os_by_ttl(ttl: u8) -> (r: Option<&'static str>)
    ensures
        r matches Some(s) && s@ == os_for_ttl(ttl),
{
    if ttl <= 64 {
        Some("Linux/Unix")
    } else if ttl <= 128 {
        Some("Windows")
    } else {
        Some("Network Device")
    }
}

/// Ports typical of Windows hosts.
pub open spec fn is_windows_port(p: u16) -> bool {
    p == 135 || p == 139 || p == 445 || p == 3389
}

/// Ports typical of Linux/Unix hosts.
pub open spec fn is_linux_port(p: u16) -> bool {
    p == 22 || p == 111 || p == 2049
}

/// Ports typical of routers and other network devices.
pub open spec fn is_router_port(p: u16) -> bool {
    p == 53 || p == 67 || p == 68 || p == 1900 || p == 5000
}

/// The OS family suggested by a set of open ports.
pub open spec fn os_for_ports(ports: Seq<u16>) -> Seq<char> {
    let w = exists|i: int| 0 <= i < ports.len() && is_windows_port(#[trigger] ports[i]);
    let l = exists|i: int| 0 <= i < ports.len() && is_linux_port(#[trigger] ports[i]);
    let r = exists|i: int| 0 <= i < ports.len() && is_router_port(#[trigger] ports[i]);
    if w && !l {
        "Windows"@
    } else if !w && l {
        "Linux/Unix"@
    } else if r {
        "Network Device"@
    } else if w && l {
        "Unknown (mixed ports)"@
    } else {
        "Unknown"@
    }
}

/// Refines the OS guess from the profile of open ports.
pub fn refine_os_by_ports(ports: &[u16]) -> (r: Option<String>)
    ensures
        r matches Some(s) && s@ == os_for_ports(ports@),
{
    let mut w = false;
    let mut l = false;
    let mut rt = false;
    let mut i: usize = 0;
    while i < ports.len()
        invariant
            i <= ports@.len(),
            w == exists|k: int| 0 <= k < i && is_windows_port(#[trigger] ports@[k]),
            l == exists|k: int| 0 <= k < i && is_linux_port(#[trigger] ports@[k]),
            rt == exists|k: int| 0 <= k < i && is_router_port(#[trigger] ports@[k]),
        decreases ports@.len() - i,
    {
        let p = ports[i];
        if p == 135 || p == 139 || p == 445 || p == 3389 {
            w = true;
        }
        if p == 22 || p == 111 || p == 2049 {
            l = true;
        }
        if p == 53 || p == 67 || p == 68 || p == 1900 || p == 5000 {
            rt = true;
        }
        i = i + 1;
    }
    let os: &str = if w && !l {
        "Windows"
    } else if !w && l {
        "Linux/Unix"
    } else if rt {
        "Network Device"
    } else if w && l {
        "Unknown (mixed ports)"
    } else {
        "Unknown"
    };
    Some(String::from_str(os))
}

} // verus!
