//! A resource at one address: how it is reached, and what two requests tell about it.

use crate::source;
use crate::source::proxy_parses;
use crate::text;
use crate::types::{DownloadError, Result};
use crate::util;
use crate::util::{read_number, read_offer, read_total};
use vstd::prelude::*;

verus! {

/// A resource that can be downloaded.
#[derive(Debug)]
pub struct Resource {
    pub id: u64,
    /// The client that was used is kept for the next request.
    pub client_kept: bool,
    /// Connections can be kept.
    pub support_pool: bool,
    /// Byte ranges can be requested.
    pub accept_ranges: bool,
    pub url: String,
    /// The address of the proxy.
    pub proxy: Option<String>,
}

/// The reply to a plain request.
#[derive(Debug)]
pub struct PlainReply {
    /// The status is no error.
    pub ok: bool,
    pub content_length: Option<String>,
    pub accept_ranges: Option<String>,
}

/// The reply to a request for the first byte, if its status is no error.
#[derive(Debug)]
pub struct FirstByteReply {
    pub content_range: Option<String>,
    pub content_length: Option<String>,
}

/// Where the client for a request comes from.
#[derive(Debug)]
pub enum ClientPlan {
    /// It was kept.
    Kept,
    /// A new one, without a proxy.
    Direct,
    /// A new one, through this proxy.
    Proxied { url: String },
    /// There is none: the address of the proxy is not valid.
    BadProxy { url: String },
}

/// The size that a plain reply tells.
pub open spec fn plain_size(r: PlainReply) -> Option<u64> {
    if r.ok {
        util::number_in(r.content_length)
    } else {
        None
    }
}

/// The resource after a plain reply.
pub open spec fn after_plain(r: Resource, reply: PlainReply) -> Resource {
    match plain_size(reply) {
        Some(_) => Resource {
            client_kept: true,
            support_pool: true,
            accept_ranges: util::offers_bytes(reply.accept_ranges),
            ..r
        },
        None => r,
    }
}

/// The size that a reply to a request for the first byte tells.
pub open spec fn first_byte_size(reply: FirstByteReply) -> Option<u64> {
    match util::total_in(reply.content_range) {
        Some(n) => Some(n),
        None => util::number_in(reply.content_length),
    }
}

/// The resource after a reply to a request for the first byte.
pub open spec fn after_first_byte(r: Resource, reply: FirstByteReply) -> Resource {
    if util::total_in(reply.content_range) is Some {
        Resource { client_kept: true, support_pool: true, accept_ranges: true, ..r }
    } else if util::number_in(reply.content_length) is Some {
        Resource { client_kept: true, support_pool: true, ..r }
    } else {
        r
    }
}

/// A plain reply tells the size exactly if its status is no error and its length is a number, which is
/// then the size. Ranges are taken to be supported exactly if it offers ranges of bytes. Otherwise the
/// resource stays as it was.
pub proof fn law_plain_replies_tell_the_size(r: Resource, reply: PlainReply)
    ensures
        ({
            let length = match reply.content_length {
                Some(t) => text::parsed_number(t@),
                None => None,
            };
            let n = after_plain(r, reply);
            &&& reply.ok ==> plain_size(reply) == length
            &&& !reply.ok ==> plain_size(reply) is None
            &&& plain_size(reply) is None ==> n == r
            &&& plain_size(reply) is Some ==> n.client_kept && n.support_pool && (n.accept_ranges
                <==> reply.accept_ranges is Some && text::same_ignoring_case(
                reply.accept_ranges->0@,
                "bytes"@,
            ))
            &&& n.id == r.id && n.url == r.url && n.proxy == r.proxy
        }),
{
}

/// A reply to a request for the first byte tells the size by the total of its range, or else by its
/// length. Only a total shows that ranges are supported. Without either the resource stays as it was.
pub proof fn law_first_byte_replies_tell_the_size(r: Resource, reply: FirstByteReply)
    ensures
        ({
            let total = match reply.content_range {
                Some(t) => util::range_total(t@),
                None => None,
            };
            let length = match reply.content_length {
                Some(t) => text::parsed_number(t@),
                None => None,
            };
            let n = after_first_byte(r, reply);
            &&& total is Some ==> first_byte_size(reply) == total && n.accept_ranges
            &&& total is None ==> first_byte_size(reply) == length && n.accept_ranges
                == r.accept_ranges
            &&& first_byte_size(reply) is Some ==> n.client_kept && n.support_pool
            &&& first_byte_size(reply) is None ==> n == r
            &&& n.id == r.id && n.url == r.url && n.proxy == r.proxy
        }),
{
}

impl Resource {
    /// A resource of which nothing is known yet.
    pub fn new(id: u64, support_pool: bool, url: String, proxy: Option<String>) -> (r: Self)
        ensures
            r == (Resource {
                id,
                client_kept: false,
                support_pool,
                accept_ranges: false,
                url,
                proxy,
            }),
    {
        Resource { id, client_kept: false, support_pool, accept_ranges: false, url, proxy }
    }

    /// The id.
    pub fn get_id(&self) -> (r: u64)
        ensures
            r == self.id,
    {
        self.id
    }

    /// Where the client for the next request comes from.
    pub fn client_plan(&self) -> (r: ClientPlan)
        ensures
            r == (if self.client_kept {
                ClientPlan::Kept
            } else {
                match self.proxy {
                    None => ClientPlan::Direct,
                    Some(p) => if source::proxy_accepted(p@) {
                        ClientPlan::Proxied { url: p }
                    } else {
                        ClientPlan::BadProxy { url: p }
                    },
                }
            }),
    {
        if self.client_kept {
            return ClientPlan::Kept;
        }
        match &self.proxy {
            None => ClientPlan::Direct,
            Some(p) => if proxy_parses(p.as_str()) {
                ClientPlan::Proxied { url: p.clone() }
            } else {
                ClientPlan::BadProxy { url: p.clone() }
            },
        }
    }

    /// Takes in the reply to a plain request. Gives the size of the resource if it tells that; then
    /// the client is kept.
    pub fn on_plain_reply(&mut self, reply: &PlainReply) -> (r: Option<u64>)
        ensures
            r == plain_size(*reply),
            *final(self) == after_plain(*old(self), *reply),
    {
        if !reply.ok {
            return None;
        }
        match read_number(&reply.content_length) {
            Some(n) => {
                self.support_pool = true;
                self.accept_ranges = read_offer(&reply.accept_ranges);
                self.client_kept = true;
                Some(n)
            },
            None => None,
        }
    }

    /// Takes in the reply to a request for the first byte, made where the plain request did not tell
    /// the size. Gives the size: the total of the range, or else the length. Then the client is kept,
    /// and a total shows that ranges can be requested.
    pub fn on_first_byte_reply(&mut self, reply: &FirstByteReply) -> (r: Result<u64>)
        ensures
            r == (match first_byte_size(*reply) {
                Some(n) => Ok::<u64, DownloadError>(n),
                None => Err(DownloadError::MissingContentLength),
            }),
            *final(self) == after_first_byte(*old(self), *reply),
    {
        if let Some(n) = read_total(&reply.content_range) {
            self.support_pool = true;
            self.accept_ranges = true;
            self.client_kept = true;
            return Ok(n);
        }
        match read_number(&reply.content_length) {
            Some(n) => {
                self.support_pool = true;
                self.client_kept = true;
                Ok(n)
            },
            None => Err(DownloadError::MissingContentLength),
        }
    }
}

} // verus!
