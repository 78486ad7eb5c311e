use bonnibel::errors::Error;
use bonnibel::overlay::Overlay;
use bonnibel::text::{u64_to_dec, u64_to_hex16};

fn overlay(url: &str, path: &str) -> Overlay {
    Overlay {
        url: url.to_string(),
        path: path.to_string(),
        hash: 0,
        cached: String::new(),
        filename: String::new(),
    }
}

#[test]
fn resolve_takes_filename_from_last_segment() {
    let mut o = overlay("https://example.com/pkg/foo.tar.gz", "deps/foo");
    o.compute_for_cache(&"/cache".to_string()).unwrap();
    assert_eq!(o.filename, "foo.tar.gz");
    assert!(o.cached.starts_with("/cache/"));
    assert!(o.cached.ends_with("/foo.tar.gz"));
}

#[test]
fn resolve_bucket_is_sixteen_hex_digits() {
    let mut o = overlay("https://example.com/a.zip", "deps/a");
    o.compute_for_cache(&"/cache".to_string()).unwrap();
    let rest = o.cached.strip_prefix("/cache/").unwrap();
    let bucket = rest.split('/').next().unwrap();
    assert_eq!(bucket.len(), 16);
    assert!(bucket.chars().all(|c| c.is_ascii_hexdigit()));
    assert_eq!(bucket, u64_to_hex16(o.hash));
}

#[test]
fn resolve_is_deterministic_across_calls() {
    let url = "https://example.com/pkg/archive.tar.xz";
    let mut a = overlay(url, "deps/x");
    let mut b = overlay(url, "deps/elsewhere");
    a.compute_for_cache(&"/var/cache".to_string()).unwrap();
    b.compute_for_cache(&"/var/cache".to_string()).unwrap();
    assert_eq!(a.hash, b.hash);
    assert_eq!(a.cached, b.cached);
    assert_eq!(a.filename, b.filename);

    let before = (a.hash, a.cached.clone(), a.filename.clone());
    a.compute_for_cache(&"/var/cache".to_string()).unwrap();
    assert_eq!((a.hash, a.cached.clone(), a.filename.clone()), before);
}

#[test]
fn resolve_unparsable_url_fails() {
    let mut o = overlay("not a url at all", "deps/x");
    let err = o.compute_for_cache(&"/cache".to_string()).unwrap_err();
    assert_eq!(err, Error::URLError("not a url at all".to_string()));
}

#[test]
fn resolve_url_without_segments_fails() {
    let mut o = overlay("mailto:someone@example.com", "deps/x");
    let err = o.compute_for_cache(&"/cache".to_string()).unwrap_err();
    assert_eq!(err, Error::URLError("mailto:someone@example.com".to_string()));
}

#[test]
fn hex_and_decimal_renderings_are_exact() {
    assert_eq!(u64_to_hex16(0), "0000000000000000");
    assert_eq!(u64_to_hex16(255), "00000000000000ff");
    assert_eq!(u64_to_hex16(0xdeadbeef01234567), "deadbeef01234567");
    assert_eq!(u64_to_dec(0), "0");
    assert_eq!(u64_to_dec(1234567890), "1234567890");
    assert_eq!(u64_to_dec(u64::MAX), "18446744073709551615");
}
