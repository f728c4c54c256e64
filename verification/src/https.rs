//! The HTTPS listener, and the one place it is started from.
//!
//! A client that asks for a certificate is told a port, and that port has to
//! be one a TLS handshake will succeed on at the moment the answer is given.
//! So the listener is started at boot when a certificate is already on disk,
//! and restarted the moment a new one has been written. No configured
//! address means no listener and a clear refusal, never a wrong port.
use crate::addr::SocketAddr;
use crate::paths;
use crate::paths::join;
use crate::text::cat2;
use vstd::prelude::*;

verus! {

/// What an installation that finds no address says.
pub const NO_LISTENER: &'static str =
    "this server has no HTTPS listener configured (ServerConfig::https_addr is unset), so there is nothing to serve a certificate on";

/// What there is to do to serve a certificate.
#[derive(Debug, Clone, Copy, PartialEq, Eq, Structural)]
pub enum ServeStep {
    /// Nothing: there is no address, or nothing to serve on it.
    Nothing,
    /// Nothing: the listener runs, at this address.
    Running(SocketAddr),
    /// Bind this address and serve the certificate on disk.
    Bind(SocketAddr),
}

/// What there is to do to install a certificate.
#[derive(Debug, Clone, Copy, PartialEq, Eq, Structural)]
pub enum InstallStep {
    /// Refuse, before anything is written: no address is configured.
    Refuse,
    /// Write the certificate and the key, stop the listener that presents
    /// the old one, where there is one, and bind the address anew.
    Install { stop: Option<SocketAddr>, bind: SocketAddr },
}

/// The HTTPS listener's control block.
#[derive(Debug)]
pub struct HttpsListener {
    configured_addr: Option<SocketAddr>,
    cert_path: String,
    key_path: String,
    bound: Option<SocketAddr>,
}

/// What an [`HttpsListener`] says.
pub struct HttpsView {
    /// Where the listener binds.
    pub configured_addr: Option<SocketAddr>,
    /// The certificate and the key the listener serves.
    pub cert_path: Seq<char>,
    pub key_path: Seq<char>,
    /// Where the running listener is bound.
    pub bound: Option<SocketAddr>,
}

impl View for HttpsListener {
    type V = HttpsView;

    closed spec fn view(&self) -> HttpsView {
        HttpsView {
            configured_addr: self.configured_addr,
            cert_path: self.cert_path@,
            key_path: self.key_path@,
            bound: self.bound,
        }
    }
}

/// What there is to do to start a listener whose certificate is on disk, or
/// is not.
pub open spec fn start_spec(l: HttpsView, present: bool) -> ServeStep {
    match l.configured_addr {
        None => ServeStep::Nothing,
        Some(addr) => if !present {
            ServeStep::Nothing
        } else {
            match l.bound {
                Some(bound) => ServeStep::Running(bound),
                None => ServeStep::Bind(addr),
            }
        },
    }
}

/// What there is to do to install a certificate.
pub open spec fn install_spec(l: HttpsView) -> InstallStep {
    match l.configured_addr {
        None => InstallStep::Refuse,
        Some(addr) => InstallStep::Install { stop: l.bound, bind: addr },
    }
}

impl HttpsListener {
    pub fn new(configured_addr: Option<SocketAddr>, config_dir: &str) -> (l: Self)
        ensures
            l@ == (HttpsView {
                configured_addr,
                cert_path: paths::under(config_dir@, "https-cert.pem"@),
                key_path: paths::under(config_dir@, "https-key.pem"@),
                bound: None,
            }),
    {
        HttpsListener {
            configured_addr,
            cert_path: join(config_dir, "https-cert.pem"),
            key_path: join(config_dir, "https-key.pem"),
            bound: None,
        }
    }

    /// The address a listener would bind, whether or not one is running.
    pub fn configured_addr(&self) -> (r: Option<SocketAddr>)
        ensures
            r == self@.configured_addr,
    {
        self.configured_addr
    }

    /// Where the certificate is.
    pub fn cert_path(&self) -> (r: String)
        ensures
            r@ == self@.cert_path,
    {
        self.cert_path.clone()
    }

    /// Where the key is.
    pub fn key_path(&self) -> (r: String)
        ensures
            r@ == self@.key_path,
    {
        self.key_path.clone()
    }

    /// The address the listener is bound to right now, or `None` when it is
    /// not running.
    pub fn bound_addr(&self) -> (r: Option<SocketAddr>)
        ensures
            r == self@.bound,
    {
        self.bound
    }

    /// Whether a certificate and key are there to serve, from whether each
    /// of the two files exists.
    pub fn certificate_present(&self, cert_exists: bool, key_exists: bool) -> (r: bool)
        ensures
            r == (cert_exists && key_exists),
    {
        cert_exists && key_exists
    }

    /// What there is to do at boot, where a certificate from an earlier run
    /// may be on disk.
    pub fn start_if_certificate_present(&self, present: bool) -> (r: ServeStep)
        ensures
            r == start_spec(self@, present),
    {
        match self.configured_addr {
            None => ServeStep::Nothing,
            Some(addr) => {
                if !present {
                    return ServeStep::Nothing;
                }
                match self.bound {
                    Some(bound) => ServeStep::Running(bound),
                    None => ServeStep::Bind(addr),
                }
            },
        }
    }

    /// What there is to do with a certificate that was fetched. A listener
    /// presenting the old one has to go: from here on it does not run.
    pub fn install_certificate(&mut self) -> (r: InstallStep)
        ensures
            r == install_spec(old(self)@),
            final(self)@ == (if old(self)@.configured_addr is Some {
                HttpsView { bound: None, ..old(self)@ }
            } else {
                old(self)@
            }),
    {
        match self.configured_addr {
            None => InstallStep::Refuse,
            Some(addr) => {
                let stop: Option<SocketAddr> = self.bound;
                self.bound = None;
                InstallStep::Install { stop, bind: addr }
            },
        }
    }

    /// The listener runs, at this address.
    pub fn started(&mut self, bound: SocketAddr)
        ensures
            final(self)@ == (HttpsView { bound: Some(bound), ..old(self)@ }),
    {
        self.bound = Some(bound);
    }

    /// The listener is to stop: where it was bound, if it ran.
    pub fn stop(&mut self) -> (r: Option<SocketAddr>)
        ensures
            r == old(self)@.bound,
            final(self)@ == (HttpsView { bound: None, ..old(self)@ }),
    {
        let was: Option<SocketAddr> = self.bound;
        self.bound = None;
        was
    }
}

/// What a file is called while it is written, beside the name it gets once
/// it is whole.
pub fn staged(path: &str) -> (s: String)
    ensures
        s@ == path@ + ".tmp"@,
{
    cat2(path, ".tmp")
}

/// Without an address nothing is ever bound and no key is ever written.
pub proof fn no_address_means_no_listener(l: HttpsView, present: bool)
    requires
        l.configured_addr is None,
    ensures
        start_spec(l, present) is Nothing,
        install_spec(l) is Refuse,
{
}

/// A listener with an address and a certificate binds its address, unless it
/// is bound already; a certificate that is installed stops what runs and
/// binds the address anew.
pub proof fn a_certificate_brings_the_listener_up(
    l: HttpsView,
    addr: SocketAddr,
)
    requires
        l.configured_addr == Some(addr),
    ensures
        start_spec(l, false) is Nothing,
        l.bound is None ==> start_spec(l, true) == ServeStep::Bind(addr),
        l.bound matches Some(bound) ==> start_spec(l, true) == ServeStep::Running(bound),
        install_spec(l) == (InstallStep::Install { stop: l.bound, bind: addr }),
{
}

} // verus!
