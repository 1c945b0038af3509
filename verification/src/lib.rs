//! Client-side core for submitting structured log records to a remote
//! ingestion endpoint: a binary tag/length-prefixed encoder for log groups,
//! a request canonicalizer, and an HMAC-SHA1 request signer. The HTTP
//! transport lives outside; this crate builds the request and proves what
//! every byte of the body, the headers, and the signature is.
use vstd::prelude::*;

pub mod canonical;
pub mod clock;
pub mod crypto;
pub mod encode;
pub mod error;
pub mod model;
pub mod sign;
pub mod util;

use crate::canonical::{opt_view, Header};
use crate::encode::enc_log_group;
use crate::model::LogGroup;
use crate::sign::{hviews, HttpRequest};
use crate::util::{append_bytes, bytes_of, copy_bytes, dec_rep, push_decimal, txt};

verus! {

/// The protocol version placed in the x-log-apiversion header.
pub const API_VERSION: &'static str = "0.6.0";

/// The signature method placed in the x-log-signaturemethod header.
pub const SIGNATURE_METHOD: &'static str = "hmac-sha1";

/// The content type given to an encoded body when none is set.
pub const DEFAULT_CONTENT_TYPE: &'static str = "application/x-protobuf";

/// The user agent sent with every request.
pub const USER_AGENT_VALUE: &'static str = "log_producer/0.1.0";

/// A configured producer: the credentials and addressing needed to build
/// and sign a submission. The transport client that sends the result lives
/// with the caller.
pub struct LogProducer {
    pub access_key: Vec<u8>,
    pub access_secret: Vec<u8>,
    pub endpoint: Vec<u8>,
    pub host: Vec<u8>,
    pub logstore: Vec<u8>,
}

impl LogProducer {
    /// A producer for one project's logstore: the host is
    /// "<project>.<endpoint>", everything else is kept as given.
    pub fn new(
        access_key: &str,
        access_secret: &str,
        endpoint: &str,
        project: &str,
        logstore: &str,
    ) -> (r: Self)
        ensures
            r.access_key@ == txt(access_key),
            r.access_secret@ == txt(access_secret),
            r.endpoint@ == txt(endpoint),
            r.host@ == txt(project) + seq![46u8] + txt(endpoint),
            r.logstore@ == txt(logstore),
    {
        let mut host = bytes_of(project);
        host.push(46);
        let ep = bytes_of(endpoint);
        append_bytes(&mut host, &ep);
        proof {
            assert(host@ =~= txt(project) + seq![46u8] + txt(endpoint));
        }
        LogProducer {
            access_key: bytes_of(access_key),
            access_secret: bytes_of(access_secret),
            endpoint: ep,
            host,
            logstore: bytes_of(logstore),
        }
    }

    /// The absolute URL of a request: "https://<endpoint><path>". The URL
    /// names the bare endpoint; the project-qualified host travels in the
    /// Host header.
    pub fn request_url(&self, path: &Vec<u8>) -> (r: Vec<u8>)
        ensures
            r@ == txt("https://") + self.endpoint@ + path@,
    {
        let mut url = bytes_of("https://");
        append_bytes(&mut url, &self.endpoint);
        append_bytes(&mut url, path);
        proof {
            assert(url@ =~= txt("https://") + self.endpoint@ + path@);
        }
        url
    }

    /// A fresh request with the fixed headers: user agent, the current
    /// date, the host, and the two protocol markers. The date value is
    /// whatever the clock gives; everything else is pinned.
    pub fn new_request(&self, method: Vec<u8>, path: Vec<u8>, query: Option<Vec<u8>>) -> (r:
        HttpRequest)
        ensures
            r.method@ == method@,
            r.path@ == path@,
            opt_view(r.query) == opt_view(query),
            r.body is None,
            hviews(r.headers@).len() == 5,
            hviews(r.headers@)[0] == (canonical::HeaderV {
                name: txt("user-agent"),
                value: txt(USER_AGENT_VALUE),
            }),
            hviews(r.headers@)[1].name == txt("date"),
            hviews(r.headers@)[2] == (canonical::HeaderV { name: txt("host"), value: self.host@ }),
            hviews(r.headers@)[3] == (canonical::HeaderV {
                name: txt("x-log-apiversion"),
                value: txt(API_VERSION),
            }),
            hviews(r.headers@)[4] == (canonical::HeaderV {
                name: txt("x-log-signaturemethod"),
                value: txt(SIGNATURE_METHOD),
            }),
    {
        let mut headers: Vec<Header> = Vec::new();
        headers.push(Header { name: bytes_of("user-agent"), value: bytes_of(USER_AGENT_VALUE) });
        headers.push(Header { name: bytes_of("date"), value: clock::now_date_compact() });
        headers.push(Header { name: bytes_of("host"), value: copy_bytes(&self.host) });
        headers.push(Header { name: bytes_of("x-log-apiversion"), value: bytes_of(API_VERSION) });
        headers.push(
            Header { name: bytes_of("x-log-signaturemethod"), value: bytes_of(SIGNATURE_METHOD) },
        );
        HttpRequest { method, headers, body: None, path, query }
    }

    /// The log-submission request: POST to
    /// "/logstores/<logstore>/shards/lb", the encoded group as the body,
    /// and its raw byte count in the x-log-bodyrawsize header.
    pub fn put_logs_lb_request(&self, log_group: &LogGroup) -> (r: HttpRequest)
        ensures
            r.method@ == txt("POST"),
            r.path@ == txt("/logstores/") + self.logstore@ + txt("/shards/lb"),
            r.query is None,
            opt_view(r.body) == Some(enc_log_group(log_group@)),
            hviews(r.headers@).len() == 6,
            hviews(r.headers@)[1].name == txt("date"),
            hviews(r.headers@)[5] == (canonical::HeaderV {
                name: txt("x-log-bodyrawsize"),
                value: dec_rep(enc_log_group(log_group@).len()),
            }),
    {
        let body = log_group.encode();
        let mut path = bytes_of("/logstores/");
        append_bytes(&mut path, &self.logstore);
        let tail = bytes_of("/shards/lb");
        append_bytes(&mut path, &tail);
        proof {
            assert(path@ =~= txt("/logstores/") + self.logstore@ + txt("/shards/lb"));
        }
        let mut req = self.new_request(bytes_of("POST"), path, None);
        let mut size_value: Vec<u8> = Vec::new();
        push_decimal(&mut size_value, body.len() as u64);
        req.headers.push(Header { name: bytes_of("x-log-bodyrawsize"), value: size_value });
        req.body = Some(body);
        req
    }
}

} // verus!
