use fastloop_guard::similarity::{match_count, shingles_sliceable, signature, MinHashSignature, NUM_PERM};

fn jaccard_estimate(a: &MinHashSignature, b: &MinHashSignature) -> f64 {
    match_count(a, b) as f64 / NUM_PERM as f64
}

#[test]
fn identical_text_high_similarity() {
    let a = signature("check disk usage on the server");
    let b = signature("check disk usage on the server");
    assert!(jaccard_estimate(&a, &b) > 0.99);
}

#[test]
fn near_identical_text_high_similarity() {
    let a = signature("check disk usage on the server");
    let b = signature("check disk usage on server");
    let sim = jaccard_estimate(&a, &b);
    assert!(sim > 0.7, "expected > 0.7, got {}", sim);
}

#[test]
fn different_text_low_similarity() {
    let a = signature("check disk usage");
    let b = signature("deploy kubernetes cluster");
    let sim = jaccard_estimate(&a, &b);
    assert!(sim < 0.4, "expected < 0.4, got {}", sim);
}

#[test]
fn empty_text() {
    let a = signature("");
    let b = signature("hello");
    let sim = jaccard_estimate(&a, &b);
    // Empty vs non-empty should have low similarity
    assert!(sim < 0.5);
}

#[test]
fn identical_perfect_match() {
    let a = signature("check disk usage");
    let b = signature("check disk usage");
    assert!(jaccard_estimate(&a, &b) > 0.99);
}

#[test]
fn near_duplicate_high_similarity() {
    let a = signature("list all running docker containers");
    let b = signature("list all running containers docker");
    let sim = jaccard_estimate(&a, &b);
    assert!(sim > 0.5, "expected > 0.5, got {}", sim);
}

#[test]
fn unrelated_low_similarity() {
    let a = signature("check disk usage");
    let b = signature("deploy kubernetes cluster to production");
    let sim = jaccard_estimate(&a, &b);
    assert!(sim < 0.4, "expected < 0.4, got {}", sim);
}

#[test]
fn empty_strings() {
    let a = signature("");
    let b = signature("");
    let sim = jaccard_estimate(&a, &b);
    assert!(sim > 0.99); // both empty → identical
}

#[test]
fn single_char() {
    let a = signature("a");
    let b = signature("a");
    assert!(jaccard_estimate(&a, &b) > 0.99);
}

#[test]
fn agreement_is_symmetric_and_bounded() {
    let a = signature("list all running docker containers");
    let b = signature("show docker containers");
    assert_eq!(match_count(&a, &b), match_count(&b, &a));
    assert!(match_count(&a, &b) as usize <= NUM_PERM);
    assert_eq!(match_count(&a, &a) as usize, NUM_PERM);
}

#[test]
fn normal_form_decides_signature() {
    let a = signature("Check   DISK usage");
    let b = signature("check disk usage");
    assert_eq!(match_count(&a, &b) as usize, NUM_PERM);
}

#[test]
fn sliceable_windows() {
    assert!(shingles_sliceable("plain ascii text"));
    assert!(shingles_sliceable("ab"));
    assert!(shingles_sliceable("é"));
    // "é" is two bytes, so the window starting inside it is not on a boundary.
    assert!(!shingles_sliceable("aébc"));
    // Three bytes exactly: one window, the whole string.
    assert!(shingles_sliceable("éa"));
}
