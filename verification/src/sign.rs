//! The request signer: header injection, the signing string, and the
//! Authorization credential.
//!
//! The signing string is, each field followed by one newline except the
//! last: the method, the content-MD5 line, the content-type line, the date,
//! the canonical header block (its entries each carry their own newline),
//! then the canonical resource. The MAC is HMAC-SHA1 under the caller's
//! secret taken as raw bytes, and the credential is
//! "LOG <access-key>:<base64 signature>".
//!
//! Header names are expected in lower case, the normalized form the HTTP
//! layer stores; lookups compare names byte-for-byte.
use vstd::prelude::*;

use crate::canonical::{
    canon_headers_block, canon_resource, canonical_headers, canonical_resource, opt_view, Header,
    HeaderV,
};
use crate::crypto::{base64_encode, base64_of, hmac_sha1, hmac_sha1_of, md5_digest, md5_of};
use crate::error::Error;
use crate::util::{
    append_bytes, bytes_eq, bytes_of, copy_bytes, dec_rep, hex_upper, push_decimal, to_hex_upper,
    txt,
};

verus! {

/// The newline that terminates each signing-string field.
pub open spec fn nl() -> Seq<u8> {
    seq![10u8]
}

/// An outbound request as the signer sees it: plain values only. The HTTP
/// layer turns it into a transport request after signing.
pub struct HttpRequest {
    pub method: Vec<u8>,
    pub headers: Vec<Header>,
    pub body: Option<Vec<u8>>,
    pub path: Vec<u8>,
    pub query: Option<Vec<u8>>,
}

/// The views of a vector of headers (re-exported shape used in contracts).
pub open spec fn hviews(v: Seq<Header>) -> Seq<HeaderV> {
    crate::canonical::hviews(v)
}

/// The value of the first header with the given name, if any.
pub open spec fn find_header(hs: Seq<HeaderV>, name: Seq<u8>) -> Option<Seq<u8>>
    decreases hs.len(),
{
    if hs.len() == 0 {
        None
    } else if hs[0].name == name {
        Some(hs[0].value)
    } else {
        find_header(hs.drop_first(), name)
    }
}

/// First-insert-wins injection: the list unchanged when the name is
/// already present, else the new header appended.
pub open spec fn inject(hs: Seq<HeaderV>, name: Seq<u8>, value: Seq<u8>) -> Seq<HeaderV> {
    if find_header(hs, name) is Some {
        hs
    } else {
        hs.push(HeaderV { name, value })
    }
}

/// Appending a header never disturbs an existing lookup, and a lookup of
/// the appended name finds it when it was absent.
pub proof fn lemma_find_push(hs: Seq<HeaderV>, x: HeaderV, name: Seq<u8>)
    ensures
        find_header(hs.push(x), name) == (match find_header(hs, name) {
            Some(v) => Some(v),
            None => if x.name == name {
                Some(x.value)
            } else {
                None
            },
        }),
    decreases hs.len(),
{
    if hs.len() == 0 {
        assert(hs.push(x)[0] == x);
        assert(hs.push(x).drop_first() =~= Seq::<HeaderV>::empty());
    } else {
        assert(hs.push(x).drop_first() =~= hs.drop_first().push(x));
        lemma_find_push(hs.drop_first(), x, name);
    }
}

/// The headers after the body-derived injections, in order: content-md5
/// from the body's digest, content-length from the body's byte count,
/// content-type defaulted — each only when absent. No body, no injection.
pub open spec fn with_md5(hs: Seq<HeaderV>, b: Seq<u8>) -> Seq<HeaderV> {
    inject(hs, txt("content-md5"), hex_upper(md5_of(b)))
}

pub open spec fn with_len(hs: Seq<HeaderV>, b: Seq<u8>) -> Seq<HeaderV> {
    inject(with_md5(hs, b), txt("content-length"), dec_rep(b.len()))
}

pub open spec fn with_type(hs: Seq<HeaderV>, b: Seq<u8>) -> Seq<HeaderV> {
    inject(with_len(hs, b), txt("content-type"), txt("application/x-protobuf"))
}

pub open spec fn body_fields(hs: Seq<HeaderV>, body: Option<Seq<u8>>) -> Seq<HeaderV> {
    match body {
        None => hs,
        Some(b) => with_type(hs, b),
    }
}

/// The content-MD5 line of the signing string: empty without a body; with
/// one, a pre-set content-md5 header wins, else the body digest in upper
/// hexadecimal.
pub open spec fn md5_line(hs: Seq<HeaderV>, body: Option<Seq<u8>>) -> Seq<u8> {
    match body {
        None => Seq::empty(),
        Some(b) => match find_header(hs, txt("content-md5")) {
            Some(v) => v,
            None => hex_upper(md5_of(b)),
        },
    }
}

/// The content-type line: empty without a body; with one, the request's
/// content-type if set, else the protocol default.
pub open spec fn type_line(hs: Seq<HeaderV>, body: Option<Seq<u8>>) -> Seq<u8> {
    match body {
        None => Seq::empty(),
        Some(b) => match find_header(with_len(hs, b), txt("content-type")) {
            Some(v) => v,
            None => txt("application/x-protobuf"),
        },
    }
}

/// The exact signing string.
pub open spec fn signing_string(
    method: Seq<u8>,
    md5l: Seq<u8>,
    typel: Seq<u8>,
    date: Seq<u8>,
    canon: Seq<u8>,
    resource: Seq<u8>,
) -> Seq<u8> {
    method + nl() + md5l + nl() + typel + nl() + date + nl() + canon + resource
}

/// The Authorization credential for a computed signature.
pub open spec fn auth_value(key: Seq<u8>, sig: Seq<u8>) -> Seq<u8> {
    txt("LOG ") + key + seq![58u8] + sig
}

/// With no body, the content-MD5 and content-type lines are both empty
/// strings, yet each still ends with its newline: three newlines stand
/// between the method and the date.
pub proof fn lemma_empty_body_signing_string(
    method: Seq<u8>,
    date: Seq<u8>,
    canon: Seq<u8>,
    resource: Seq<u8>,
    hs: Seq<HeaderV>,
)
    ensures
        md5_line(hs, None) == Seq::<u8>::empty(),
        type_line(hs, None) == Seq::<u8>::empty(),
        signing_string(method, md5_line(hs, None), type_line(hs, None), date, canon, resource)
            == method + nl() + nl() + nl() + date + nl() + canon + resource,
{
    assert(signing_string(
        method,
        md5_line(hs, None),
        type_line(hs, None),
        date,
        canon,
        resource,
    ) =~= method + nl() + nl() + nl() + date + nl() + canon + resource);
}

/// A content-md5 header set before signing is left untouched and is the
/// value signed, even though the body's own digest differs.
pub proof fn lemma_content_md5_first_insert_wins(hs: Seq<HeaderV>, b: Seq<u8>, v: Seq<u8>)
    requires
        find_header(hs, txt("content-md5")) == Some(v),
    ensures
        md5_line(hs, Some(b)) == v,
        with_md5(hs, b) == hs,
{
}

/// First header whose name equals `name`, scanning from `i`.
fn lookup_from(headers: &Vec<Header>, name: &Vec<u8>, i: usize) -> (r: Option<Vec<u8>>)
    requires
        i <= headers.len(),
    ensures
        r is Some <==> find_header(hviews(headers@).skip(i as int), name@) is Some,
        r is Some ==> r.unwrap()@ == find_header(hviews(headers@).skip(i as int), name@).unwrap(),
    decreases headers.len() - i,
{
    let ghost tail = hviews(headers@).skip(i as int);
    if i == headers.len() {
        proof {
            assert(tail =~= Seq::<HeaderV>::empty());
        }
        None
    } else {
        proof {
            assert(tail[0] == hviews(headers@)[i as int]);
            assert(tail.drop_first() =~= hviews(headers@).skip(i + 1));
        }
        if bytes_eq(&headers[i].name, name) {
            Some(copy_bytes(&headers[i].value))
        } else {
            lookup_from(headers, name, i + 1)
        }
    }
}

/// The value of the first header with the given name, if any.
pub fn lookup_header(headers: &Vec<Header>, name: &Vec<u8>) -> (r: Option<Vec<u8>>)
    ensures
        r is Some <==> find_header(hviews(headers@), name@) is Some,
        r is Some ==> r.unwrap()@ == find_header(hviews(headers@), name@).unwrap(),
{
    let r = lookup_from(headers, name, 0);
    proof {
        assert(hviews(headers@).skip(0) =~= hviews(headers@));
    }
    r
}

/// Signs the request in place and returns the Authorization value.
///
/// Before signing, injects — each only when absent — a content-md5 header
/// from the body's digest, a content-length header, a default content-type
/// (all three only when a body is present), and a date header from the
/// current time. The signature is computed over the final, post-injection
/// values. A malformed query is rejected before anything is touched.
pub fn sign_request(req: &mut HttpRequest, access_key: &Vec<u8>, access_secret: &Vec<u8>) -> (r:
    Result<Vec<u8>, Error>)
    ensures
        final(req).method@ == old(req).method@,
        final(req).path@ == old(req).path@,
        opt_view(final(req).query) == opt_view(old(req).query),
        opt_view(final(req).body) == opt_view(old(req).body),
        r is Err <==> canon_resource(old(req).path@, opt_view(old(req).query)) is None,
        r is Err ==> r == Err::<Vec<u8>, Error>(Error::BadUrl) && hviews(final(req).headers@)
            == hviews(old(req).headers@),
        r is Ok ==> ({
            let hs0 = hviews(old(req).headers@);
            let body0 = opt_view(old(req).body);
            let hs1 = body_fields(hs0, body0);
            let hsf = hviews(final(req).headers@);
            &&& find_header(hsf, txt("date")) is Some
            &&& hsf == inject(hs1, txt("date"), find_header(hsf, txt("date")).unwrap())
            &&& r.unwrap()@ == auth_value(
                access_key@,
                base64_of(
                    hmac_sha1_of(
                        access_secret@,
                        signing_string(
                            old(req).method@,
                            md5_line(hs0, body0),
                            type_line(hs0, body0),
                            find_header(hsf, txt("date")).unwrap(),
                            canon_headers_block(hsf),
                            canon_resource(old(req).path@, opt_view(old(req).query)).unwrap(),
                        ),
                    ),
                ),
            )
        }),
{
    let resource = match canonical_resource(&req.path, &req.query) {
        Ok(v) => v,
        Err(e) => {
            return Err(e);
        },
    };
    let ghost hs0 = hviews(old(req).headers@);
    let ghost body0 = opt_view(old(req).body);

    // Body digest and length, read before any header is touched.
    let mut digest_hex: Option<Vec<u8>> = None;
    let mut body_len: u64 = 0;
    match &req.body {
        Some(b) => {
            let d = md5_digest(b);
            digest_hex = Some(to_hex_upper(&d));
            body_len = b.len() as u64;
        },
        None => {},
    }

    let mut md5_line_e: Vec<u8> = Vec::new();
    let mut type_line_e: Vec<u8> = Vec::new();
    match digest_hex {
        Some(dhex) => {
            let md5name = bytes_of("content-md5");
            match lookup_header(&req.headers, &md5name) {
                Some(v) => {
                    md5_line_e = v;
                },
                None => {
                    md5_line_e = copy_bytes(&dhex);
                    req.headers.push(Header { name: md5name, value: dhex });
                },
            }
            proof {
                assert(hviews(req.headers@) =~= with_md5(hs0, body0.unwrap()));
                assert(md5_line_e@ == md5_line(hs0, body0));
            }
            let clname = bytes_of("content-length");
            match lookup_header(&req.headers, &clname) {
                Some(_) => {},
                None => {
                    let mut lv: Vec<u8> = Vec::new();
                    push_decimal(&mut lv, body_len);
                    req.headers.push(Header { name: clname, value: lv });
                },
            }
            proof {
                assert(hviews(req.headers@) =~= with_len(hs0, body0.unwrap()));
            }
            let ctname = bytes_of("content-type");
            match lookup_header(&req.headers, &ctname) {
                Some(v) => {
                    type_line_e = v;
                },
                None => {
                    let dv = bytes_of("application/x-protobuf");
                    type_line_e = copy_bytes(&dv);
                    req.headers.push(Header { name: ctname, value: dv });
                },
            }
            proof {
                assert(hviews(req.headers@) =~= with_type(hs0, body0.unwrap()));
                assert(type_line_e@ == type_line(hs0, body0));
            }
        },
        None => {
            proof {
                assert(hviews(req.headers@) =~= body_fields(hs0, body0));
            }
        },
    }
    let ghost hs1 = body_fields(hs0, body0);
    proof {
        assert(hviews(req.headers@) == hs1);
    }

    let datename = bytes_of("date");
    let date_line = match lookup_header(&req.headers, &datename) {
        Some(v) => v,
        None => {
            let d = crate::clock::now_date_rfc1123();
            let dc = copy_bytes(&d);
            req.headers.push(Header { name: datename, value: d });
            dc
        },
    };
    proof {
        if find_header(hs1, txt("date")) is Some {
            assert(hviews(req.headers@) == inject(hs1, txt("date"), date_line@));
        } else {
            assert(hviews(req.headers@) =~= hs1.push(
                HeaderV { name: txt("date"), value: date_line@ },
            ));
            lemma_find_push(hs1, HeaderV { name: txt("date"), value: date_line@ }, txt("date"));
        }
        assert(find_header(hviews(req.headers@), txt("date")) == Some(date_line@));
    }

    let canon = canonical_headers(&req.headers);

    let mut ss = copy_bytes(&req.method);
    ss.push(10);
    append_bytes(&mut ss, &md5_line_e);
    ss.push(10);
    append_bytes(&mut ss, &type_line_e);
    ss.push(10);
    append_bytes(&mut ss, &date_line);
    ss.push(10);
    append_bytes(&mut ss, &canon);
    append_bytes(&mut ss, &resource);
    proof {
        assert(ss@ =~= signing_string(
            old(req).method@,
            md5_line(hs0, body0),
            type_line(hs0, body0),
            date_line@,
            canon_headers_block(hviews(req.headers@)),
            canon_resource(old(req).path@, opt_view(old(req).query)).unwrap(),
        ));
    }

    let tag = hmac_sha1(access_secret, &ss);
    let sig = base64_encode(&tag);
    let mut auth = bytes_of("LOG ");
    append_bytes(&mut auth, access_key);
    auth.push(58);
    append_bytes(&mut auth, &sig);
    proof {
        assert(auth@ =~= auth_value(access_key@, sig@));
    }
    Ok(auth)
}

} // verus!
