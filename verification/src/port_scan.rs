//! Service names for well-known TCP ports, used when reporting open ports.
use vstd::prelude::*;
use vstd::string::*;

verus! {

/// The service name reported for a well-known port, if any.
pub open spec fn service_for_port(port: u16) -> Option<Seq<char>> {
    if port == 20 || port == 21 { Some("FTP"@) }
    else if port == 22 { Some("SSH"@) }
    else if port == 23 { Some("Telnet"@) }
    else if port == 25 { Some("SMTP"@) }
    else if port == 53 { Some("DNS"@) }
    else if port == 80 { Some("HTTP"@) }
    else if port == 110 { Some("POP3"@) }
    else if port == 143 { Some("IMAP"@) }
    else if port == 443 { Some("HTTPS"@) }
    else if port == 465 { Some("SMTPS"@) }
    else if port == 587 { Some("SMTP Submission"@) }
    else if port == 993 { Some("IMAPS"@) }
    else if port == 995 { Some("POP3S"@) }
    else if port == 1433 { Some("MSSQL"@) }
    else if port == 1521 { Some("Oracle DB"@) }
    else if port == 3306 { Some("MySQL"@) }
    else if port == 3389 { Some("RDP"@) }
    else if port == 5432 { Some("PostgreSQL"@) }
    else if port == 5900 { Some("VNC"@) }
    else if port == 6379 { Some("Redis"@) }
    else if port == 8080 { Some("HTTP-Alt"@) }
    else if port == 8443 { Some("HTTPS-Alt"@) }
    else if port == 27017 { Some("MongoDB"@) }
    else { None }
}

/// Guesses the service behind an open port from its number alone.
pub fn guess_service(port: u16) -> (r: Option<String>)
    ensures
        match service_for_port(port) {
            Some(name) => r matches Some(s) && s@ == name,
            None => r is None,
        },
{
    let name: &str = if port == 20 || port == 21 { "FTP" }
    else if port == 22 { "SSH" }
    else if port == 23 { "Telnet" }
    else if port == 25 { "SMTP" }
    else if port == 53 { "DNS" }
    else if port == 80 { "HTTP" }
    else if port == 110 { "POP3" }
    else if port == 143 { "IMAP" }
    else if port == 443 { "HTTPS" }
    else if port == 465 { "SMTPS" }
    else if port == 587 { "SMTP Submission" }
    else if port == 993 { "IMAPS" }
    else if port == 995 { "POP3S" }
    else if port == 1433 { "MSSQL" }
    else if port == 1521 { "Oracle DB" }
    else if port == 3306 { "MySQL" }
    else if port == 3389 { "RDP" }
    else if port == 5432 { "PostgreSQL" }
    else if port == 5900 { "VNC" }
    else if port == 6379 { "Redis" }
    else if port == 8080 { "HTTP-Alt" }
    else if port == 8443 { "HTTPS-Alt" }
    else if port == 27017 { "MongoDB" }
    else { return None; };
    Some(String::from_str(name))
}

} // verus!
