//! Hosts that have been resolved.

use nagoya::reactor::Addr;
use vstd::prelude::*;
use vstd::string::StringExecFns;

use crate::error::{Error, ErrorView};
use crate::number::{decimal, write_decimal};
use crate::sequence::occurs;
use crate::text::{contains_text, join, join3};
use crate::url::default_port;

verus! {

/// `nagoya::reactor::Addr`: an address to connect to. It is carried from the lookup to the
/// connection as it is; nothing is said of what is inside.
#[verifier::external_type_specification]
#[verifier::external_body]
pub struct ExAddr(Addr);

/// A host, resolved.
#[derive(Debug)]
pub struct Target {
    host: String,
    port: u16,
    addrs: Vec<Addr>,
    tls: bool,
}

/// A [`Target`] with its host as characters.
pub struct TargetView {
    pub host: Seq<char>,
    pub port: u16,
    pub addrs: Seq<Addr>,
    pub tls: bool,
}

impl View for Target {
    type V = TargetView;

    closed spec fn view(&self) -> TargetView {
        TargetView { host: self.host@, port: self.port, addrs: self.addrs@, tls: self.tls }
    }
}

impl Clone for Target {
    fn clone(&self) -> (copy: Self)
        ensures
            copy@ == self@,
    {
        proof {
            use_type_invariant(self);
        }
        let mut addrs: Vec<Addr> = Vec::new();
        let mut i: usize = 0;
        while i < self.addrs.len()
            invariant
                i <= self.addrs@.len(),
                addrs@ == self.addrs@.take(i as int),
            decreases self.addrs@.len() - i,
        {
            addrs.push(self.addrs[i]);
            i = i + 1;
            assert(addrs@ =~= self.addrs@.take(i as int));
        }
        assert(addrs@ =~= self.addrs@);
        Target { host: self.host.clone(), port: self.port, addrs, tls: self.tls }
    }
}

impl TargetView {
    /// The `Host` header value: an IPv6 address in brackets, and the port only when it is not the
    /// scheme's default.
    pub open spec fn host_header(self) -> Seq<char> {
        let host = if occurs(self.host, seq![':']) {
            "["@ + self.host + "]"@
        } else {
            self.host
        };
        if self.port == default_port(self.tls) {
            host
        } else {
            host + ":"@ + decimal(self.port as nat)
        }
    }
}

/// The target that a lookup gives: its addresses, or why there are none.
pub open spec fn target_from(
    host: Seq<char>,
    port: u16,
    tls: bool,
    lookup: Result<Seq<Addr>, Seq<char>>,
) -> Result<TargetView, ErrorView> {
    match lookup {
        Ok(addrs) => if addrs.len() == 0 {
            Err(ErrorView::Resolve(host + " has no addresses"@))
        } else {
            Ok(TargetView { host, port, addrs, tls })
        },
        Err(detail) => Err(ErrorView::Resolve(detail)),
    }
}

/// The view of a lookup.
pub open spec fn lookup_view(lookup: Result<Vec<Addr>, String>) -> Result<Seq<Addr>, Seq<char>> {
    match lookup {
        Ok(addrs) => Ok(addrs@),
        Err(detail) => Err(detail@),
    }
}

impl Target {
    /// A target has an address to connect to.
    #[verifier::type_invariant]
    spec fn has_address(self) -> bool {
        self.addrs@.len() > 0
    }

    /// The target that a lookup of `host` gives, to be reached over TLS or over plain TCP.
    pub fn resolved(host: &str, port: u16, tls: bool, lookup: Result<Vec<Addr>, String>) -> (target:
        Result<Self, Error>)
        ensures
            match target {
                Ok(target) => target_from(host@, port, tls, lookup_view(lookup)) == Ok::<
                    TargetView,
                    ErrorView,
                >(target@),
                Err(error) => target_from(host@, port, tls, lookup_view(lookup)) == Err::<
                    TargetView,
                    ErrorView,
                >(error@),
            },
    {
        match lookup {
            Ok(addrs) => if addrs.is_empty() {
                Err(Error::Resolve(join(host, " has no addresses")))
            } else {
                Ok(Target { host: String::from_str(host), port, addrs, tls })
            },
            Err(detail) => Err(Error::Resolve(detail)),
        }
    }

    /// The host, as it was given.
    pub fn host(&self) -> (host: &str)
        ensures
            host@ == self@.host,
    {
        self.host.as_str()
    }

    /// The port to connect to.
    pub fn port(&self) -> (port: u16)
        ensures
            port == self@.port,
    {
        self.port
    }

    /// The addresses to connect to, in the order in which to try them.
    pub fn addresses(&self) -> (addrs: &[Addr])
        ensures
            addrs@ == self@.addrs,
            addrs@.len() > 0,
    {
        proof {
            use_type_invariant(self);
        }
        self.addrs.as_slice()
    }

    /// Whether the target is reached over TLS.
    pub fn is_tls(&self) -> (tls: bool)
        ensures
            tls == self@.tls,
    {
        self.tls
    }

    /// The `Host` header value: an IPv6 address in brackets, and the port only when it is not the
    /// scheme's default (443, or 80 in plain).
    pub fn host_header(&self) -> (value: String)
        ensures
            value@ == self@.host_header(),
    {
        proof {
            reveal_strlit(":");
            assert(":"@ =~= seq![':']);
        }
        let host = if contains_text(self.host.as_str(), ":") {
            join3("[", self.host.as_str(), "]")
        } else {
            self.host.clone()
        };
        let default_port: u16 = if self.tls {
            443
        } else {
            80
        };
        if self.port == default_port {
            host
        } else {
            let port = write_decimal(self.port as u64);
            join3(host.as_str(), ":", port.as_str())
        }
    }
}

} // verus!
