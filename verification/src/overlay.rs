//! External source overlays: resolving a download URL to a stable,
//! content-addressed cache path.

use vstd::prelude::*;

use crate::errors::Error;
use crate::text::{hex16, join_path_exec, path_join, u64_to_hex16};

verus! {

/// The 64-bit bucketing hash of a URL string. It depends on the characters
/// alone; it carries no content-integrity guarantee.
pub uninterp spec fn url_hash(url: Seq<char>) -> u64;

/// The final path segment of a URL, or nothing when the URL is unparsable
/// or has no path segments.
pub uninterp spec fn url_last_segment(url: Seq<char>) -> Option<Seq<char>>;

/// Relies on std's `DefaultHasher`: hashers made by `new` are identical, so
/// the digest of a string depends on its characters alone.
#[verifier::external_body]
fn hash_url(url: &String) -> (r: u64)
    ensures
        r == url_hash(url@),
{
    let mut h = std::collections::hash_map::DefaultHasher::new();
    std::hash::Hash::hash(url, &mut h);
    std::hash::Hasher::finish(&h)
}

/// Relies on `url::Url::parse` and `Url::path_segments`: the final path
/// segment of a URL depends on the URL string alone.
#[verifier::external_body]
fn url_filename(u: &String) -> (r: Option<String>)
    ensures
        (match r {
            Some(f) => url_last_segment(u@) == Some(f@),
            None => url_last_segment(u@) is None,
        }),
{
    let parsed = match url::Url::parse(u) {
        Ok(p) => p,
        Err(_) => return None,
    };
    let segments = match parsed.path_segments() {
        Some(s) => s,
        None => return None,
    };
    segments.last().map(|s| s.to_string())
}

/// An external archive, identified by URL, cached locally under a bucket
/// derived from the URL alone and extracted into the source tree.
pub struct Overlay {
    /// The download URL.
    pub url: String,
    /// The destination path, relative to the source root.
    pub path: String,
    /// The 64-bit hash of the URL; derived by `compute_for_cache`.
    pub hash: u64,
    /// The cached artifact path `<cache>/<hash as 16 hex digits>/<filename>`;
    /// derived by `compute_for_cache`.
    pub cached: String,
    /// The filename taken from the URL's final path segment; derived by
    /// `compute_for_cache`.
    pub filename: String,
}

impl Overlay {
    /// The derived fields hold exactly what the URL and the cache root
    /// dictate.
    pub open spec fn resolved_for(&self, cache: Seq<char>) -> bool {
        &&& url_last_segment(self.url@) == Some(self.filename@)
        &&& self.hash == url_hash(self.url@)
        &&& self.cached@ == path_join(path_join(cache, hex16(url_hash(self.url@))), self.filename@)
    }

    /// Derives the cache-bucket path and filename from the URL: the bucket
    /// is the URL hash as sixteen hexadecimal digits under `cache`, and the
    /// filename is the URL's final path segment. Fails exactly when the URL
    /// is unparsable or has no path segments.
    pub fn compute_for_cache(&mut self, cache: &String) -> (r: Result<(), Error>)
        ensures
            final(self).url == old(self).url,
            final(self).path == old(self).path,
            (match r {
                Ok(_) => final(self).resolved_for(cache@),
                Err(e) => {
                    &&& url_last_segment(old(self).url@) is None
                    &&& *final(self) == *old(self)
                    &&& e matches Error::URLError(u) && u@ == old(self).url@
                },
            }),
    {
        match url_filename(&self.url) {
            Some(f) => {
                let h = hash_url(&self.url);
                let hex = u64_to_hex16(h);
                let bucket = join_path_exec(cache.as_str(), hex.as_str());
                let cached = join_path_exec(bucket.as_str(), f.as_str());
                self.hash = h;
                self.cached = cached;
                self.filename = f;
                Ok(())
            },
            None => Err(Error::URLError(self.url.clone())),
        }
    }
}

/// Resolution is deterministic: two overlays with the same URL, resolved
/// against the same cache root, derive the same hash, cached path and
/// filename.
pub proof fn lemma_resolve_deterministic(a: &Overlay, b: &Overlay, cache: Seq<char>)
    requires
        a.resolved_for(cache),
        b.resolved_for(cache),
        a.url@ == b.url@,
    ensures
        a.hash == b.hash,
        a.filename@ == b.filename@,
        a.cached@ == b.cached@,
{
}

} // verus!
