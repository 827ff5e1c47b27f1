//! The name by which a TLS session knows its server.

use nago_rustls::rustls_pki_types::ServerName;
use vstd::prelude::*;
use vstd::string::StringExecFns;

use crate::error::{Error, ErrorView};
use crate::text::join;

verus! {

/// `rustls_pki_types::ServerName`: the name that a TLS session is asked to verify. It is carried
/// to the session as it is; nothing is said of what is inside.
#[verifier::external_type_specification]
#[verifier::external_body]
pub struct ExServerName<'a>(ServerName<'a>);

/// The server name that `ServerName::try_from` makes of a host, where it accepts the host as a DNS
/// name or an IP address.
pub uninterp spec fn server_name(host: Seq<char>) -> Option<ServerName<'static>>;

/// `<ServerName<'static> as TryFrom<String>>::try_from`: the name made of `host`, a function of
/// `host` alone, or `None` where it is neither a DNS name nor an IP address.
#[verifier::external_body]
fn try_server_name(host: String) -> (name: Option<ServerName<'static>>)
    ensures
        name == server_name(host@),
{
    ServerName::try_from(host).ok()
}

/// The name to verify the server by, given what was made of its host.
pub open spec fn name_for(host: Seq<char>, name: Option<ServerName<'static>>) -> Result<
    ServerName<'static>,
    ErrorView,
> {
    match name {
        Some(name) => Ok(name),
        None => Err(ErrorView::Tls("invalid server name "@ + host)),
    }
}

/// The view of a name or of why there is none.
pub open spec fn name_view(name: Result<ServerName<'static>, Error>) -> Result<
    ServerName<'static>,
    ErrorView,
> {
    match name {
        Ok(name) => Ok(name),
        Err(error) => Err(error@),
    }
}

/// The name to verify the server by, given what was made of its host.
pub fn accept_name(host: &str, name: Option<ServerName<'static>>) -> (accepted: Result<
    ServerName<'static>,
    Error,
>)
    ensures
        name_view(accepted) == name_for(host@, name),
{
    match name {
        Some(name) => Ok(name),
        None => Err(Error::Tls(join("invalid server name ", host))),
    }
}

/// The name to verify the server at `host` by.
pub fn name_of(host: &str) -> (name: Result<ServerName<'static>, Error>)
    ensures
        name_view(name) == name_for(host@, server_name(host@)),
{
    accept_name(host, try_server_name(String::from_str(host)))
}

} // verus!
