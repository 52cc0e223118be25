use aurora::idset::IdSet;
use aurora::modicons::IconRequests;

fn reqs(v: &[(&str, &str)]) -> Vec<(String, String)> {
    v.iter().map(|(a, b)| (a.to_string(), b.to_string())).collect()
}

#[test]
fn icons_are_asked_for_once() {
    let mut r = IconRequests::new();
    let mut decoded = IdSet::new();
    decoded.insert("u0");
    let first = r.plan(reqs(&[("m0", "u0"), ("m1", "u1"), ("m2", "u1"), ("m3", "u3")]), &decoded);
    assert_eq!(first, reqs(&[("m1", "u1"), ("m3", "u3")]));
    assert!(r.plan(reqs(&[("m1", "u1")]), &decoded).is_empty());
    r.finish("u1", true);
    r.finish("u3", false);
    assert_eq!(r.plan(reqs(&[("m1", "u1"), ("m3", "u3")]), &decoded), reqs(&[("m1", "u1")]));
}
