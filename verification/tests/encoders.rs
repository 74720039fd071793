use map_generator::encoders::{esc, ResourceKind};
use map_generator::fnv::Fnv;

#[test]
fn labels_escape_for_svg() {
    assert_eq!(esc("Tyre & Sidon <coast>"), "Tyre &amp; Sidon &lt;coast&gt;");
    assert_eq!(esc("&lt;"), "&amp;lt;");
    assert_eq!(esc("plain"), "plain");
    assert_eq!(esc(""), "");
}

#[test]
fn resource_kinds_have_wire_codes_and_names() {
    assert_eq!(ResourceKind::LineStrip.wire(), 0);
    assert_eq!(ResourceKind::RingLoop.wire(), 1);
    assert_eq!(ResourceKind::Points.wire(), 2);
    assert_eq!(ResourceKind::LineStrip.name(), "line");
    assert_eq!(ResourceKind::RingLoop.name(), "ring");
    assert_eq!(ResourceKind::Points.name(), "points");
}

#[test]
fn fnv_matches_the_reference_vectors() {
    assert_eq!(Fnv::new().finish(), 0xcbf29ce484222325);
    assert_eq!(Fnv::new().bytes(b"a").finish(), 0xaf63dc4c8601ec8c);
    assert_eq!(Fnv::new().bytes(b"foobar").finish(), 0x85944171f73967e8);
    assert_eq!(Fnv::default().finish(), Fnv::new().finish());
}

#[test]
fn fnv_streams_and_hashes_u64_big_endian() {
    let mut whole = Fnv::new();
    whole.bytes(b"foobar");
    let mut parts = Fnv::new();
    parts.bytes(b"foo").bytes(b"bar");
    assert_eq!(whole.finish(), parts.finish());
    let mut a = Fnv::new();
    a.u64(0x0102030405060708);
    let mut b = Fnv::new();
    b.bytes(&[1, 2, 3, 4, 5, 6, 7, 8]);
    assert_eq!(a.finish(), b.finish());
    let mut c = Fnv::new();
    c.u64(1).u64(2);
    assert_ne!(c.finish(), a.finish());
}
