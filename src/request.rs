use vstd::prelude::*;
use crate::paths::{key_for_url, request_key};
use crate::store::{AssetStore, AssetView};

verus! {

/// An inbound request, as the HTTP layer hands it over.
pub struct RequestView {
    pub method: String,
    pub url: String,
}

/// Whether a request found an asset.
#[derive(Clone, Copy, Debug, PartialEq, Eq, Structural)]
pub enum Status {
    Found,
    NotFound,
}

/// The outcome of a request: a status, and on a hit the asset's bytes and
/// content type.
pub struct ResponseView {
    pub status: Status,
    pub body: Option<Vec<u8>>,
    pub content_type: Option<String>,
}

/// The abstract value of a response.
pub type Outcome = (Status, Option<Seq<u8>>, Option<Seq<char>>);

impl ResponseView {
    pub open spec fn outcome(&self) -> Outcome {
        (
            self.status,
            match self.body {
                Some(b) => Some(b@),
                None => None,
            },
            match self.content_type {
                Some(c) => Some(c@),
                None => None,
            },
        )
    }
}

/// The response that `store` gives to a request for `url` under `root`:
/// the asset under the URL's key, or not-found with no body.
pub open spec fn response_for(store: Map<Seq<char>, AssetView>, root: Seq<char>, url: Seq<char>) -> Outcome {
    let k = request_key(root, url);
    if store.contains_key(k) {
        (Status::Found, Some(store[k].0), Some(store[k].1))
    } else {
        (Status::NotFound, None, None)
    }
}

/// Answers a request from the store: the URL, less one leading separator,
/// is joined onto `root` and looked up.
pub fn map_request(request: &RequestView, root: &str, store: &AssetStore) -> (r: ResponseView)
    requires
        store.wf(),
    ensures
        r.outcome() == response_for(store@, root@, request.url@),
{
    let key = key_for_url(root, request.url.as_str());
    match store.lookup(&key) {
        Some(asset) => {
            let body = asset.bytes.clone();
            assert(body@ =~= asset.bytes@);
            ResponseView {
                status: Status::Found,
                body: Some(body),
                content_type: Some(asset.content_type.clone()),
            }
        },
        None => ResponseView { status: Status::NotFound, body: None, content_type: None },
    }
}

} // verus!
