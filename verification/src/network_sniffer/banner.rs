//! The bytes sent to an open port to coax a banner out of the service.
use vstd::prelude::*;

verus! {

/// The probe text sent to `port` before reading its banner.
pub open spec fn probe_text(port: u16) -> Seq<char> {
    if port == 25 || port == 587 {
        "EHLO probe\r\n"@
    } else if port == 80 || port == 8080 || port == 8000 || port == 8888 {
        "GET / HTTP/1.0\r\nHost: localhost\r\n\r\n"@
    } else if port == 6379 {
        "PING\r\n"@
    } else {
        ""@
    }
}

/// Returns a probe string appropriate for the given port (empty: just listen).
pub fn probe_for_port(port: u16) -> (r: &'static str)
    ensures
        r@ == probe_text(port),
{
    if port == 25 || port == 587 {
        "EHLO probe\r\n"
    } else if port == 80 || port == 8080 || port == 8000 || port == 8888 {
        "GET / HTTP/1.0\r\nHost: localhost\r\n\r\n"
    } else if port == 6379 {
        "PING\r\n"
    } else {
        ""
    }
}

} // verus!
