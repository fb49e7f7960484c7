//! A TLS message stream over rustls, with the server certificate it met.
use crate::stream::TokioMessageStream;
use crate::tls::{base64_decodes_to, base64_encoded, base64_fits, certificate_base64};
use vstd::prelude::*;

verus! {

/// `tokio::net::TcpStream`, a TCP connection: declared so that a stream can
/// hold one; it is opaque here and nothing is claimed of it.
#[verifier::external_type_specification]
#[verifier::external_body]
pub struct ExTcpStream(tokio::net::TcpStream);

/// `tokio_rustls::client::TlsStream`, the client side of a TLS connection:
/// declared so that a stream can hold one; it is opaque here and nothing is
/// claimed of it.
#[verifier::external_type_specification]
#[verifier::external_body]
#[verifier::reject_recursive_types(IO)]
pub struct ExTlsStream<IO>(tokio_rustls::client::TlsStream<IO>);

/// A TLS-enabled message stream using rustls with certificate pinning
/// support: the stream, and the DER bytes of the certificate the server
/// presented, kept for pinning.
pub struct RustlsTlsMessageStream {
    inner: TokioMessageStream<tokio_rustls::client::TlsStream<tokio::net::TcpStream>>,
    server_cert: Option<Vec<u8>>,
}

impl RustlsTlsMessageStream {
    /// The certificate is short enough to be written as base64.
    pub closed spec fn wf(&self) -> bool {
        self.server_cert matches Some(c) ==> base64_fits(c@)
    }

    /// The DER bytes of the server certificate, if the server presented one.
    pub closed spec fn certificate(&self) -> Option<Seq<u8>> {
        match self.server_cert {
            Some(c) => Some(c@),
            None => None,
        }
    }

    /// The message stream over the TLS connection.
    pub closed spec fn message_stream(&self) -> TokioMessageStream<
        tokio_rustls::client::TlsStream<tokio::net::TcpStream>,
    > {
        self.inner
    }

    /// Wraps an established TLS connection and the certificate its server
    /// presented.
    pub fn new(
        inner: TokioMessageStream<tokio_rustls::client::TlsStream<tokio::net::TcpStream>>,
        server_cert: Option<Vec<u8>>,
    ) -> (r: Self)
        requires
            server_cert matches Some(c) ==> base64_fits(c@),
        ensures
            r.wf(),
            r.message_stream() == inner,
            server_cert matches Some(c) ==> r.certificate() == Some(c@),
            server_cert is None ==> r.certificate() is None,
    {
        RustlsTlsMessageStream { inner, server_cert }
    }

    /// The message stream, to send and receive packets on.
    pub fn message_stream_mut(&mut self) -> (r: &mut TokioMessageStream<
        tokio_rustls::client::TlsStream<tokio::net::TcpStream>,
    >)
        ensures
            *r == old(self).message_stream(),
            final(self).message_stream() == *final(r),
            final(self).certificate() == old(self).certificate(),
            final(self).wf() == old(self).wf(),
    {
        &mut self.inner
    }

    /// Get the server certificate for pinning purposes.
    pub fn server_certificate(&self) -> (r: Option<&Vec<u8>>)
        ensures
            r matches Some(c) ==> self.certificate() == Some(c@),
            r is None ==> self.certificate() is None,
    {
        match &self.server_cert {
            Some(c) => Some(c),
            None => None,
        }
    }

    /// Get the server certificate as a base64-encoded string for storage.
    ///
    /// The text decodes back to the certificate, so it can be passed as the
    /// pinned certificate of a later connection.
    pub fn server_certificate_base64(&self) -> (r: Option<String>)
        requires
            self.wf(),
        ensures
            self.certificate() matches Some(c) ==> (r matches Some(t) && t@ == base64_encoded(c)
                && base64_decodes_to(t@, c)),
            self.certificate() is None ==> r is None,
    {
        match &self.server_cert {
            Some(c) => Some(certificate_base64(c.as_slice())),
            None => None,
        }
    }
}

} // verus!
