use iref::buffer::{IriBuf, IriRefBuf};
use iref::reference::{Iri, IriRef};
use iref::resolve::remove_dot_segments;
use iref::Error;
use std::cmp::Ordering;

fn text(b: &[u8]) -> String {
    String::from_utf8(b.to_vec()).unwrap()
}

fn opt_text(b: Option<&[u8]>) -> Option<String> {
    b.map(text)
}

fn resolve(r: &str, base: &str) -> String {
    let base = Iri::new(base.as_bytes()).unwrap();
    let r = IriRef::new(r.as_bytes()).unwrap();
    let out = r.resolved(&base).unwrap();
    text(out.as_iri_ref().as_ref())
}

#[test]
fn round_trip_keeps_the_text() {
    for s in [
        "http://user@example.com:8042/over/there?name=ferret#nose",
        "foo:",
        "//example.org",
        "",
        "?q",
        "#f",
        "urn:isbn:0451450523",
        "http://[::1]:80/a",
        "http://h/%C3%A9t%C3%A9",
        "http://h/été",
    ] {
        let r = IriRef::new(s.as_bytes()).unwrap();
        assert_eq!(text(r.as_ref()), s);
        assert_eq!(r.len(), s.len());
        let b = IriRefBuf::new(s.as_bytes()).unwrap();
        assert_eq!(text(b.as_bytes()), s);
    }
}

#[test]
fn components_are_split_at_their_delimiters() {
    let r = IriRef::new("foo://user@example.com:8042/over/there?name=ferret#nose".as_bytes()).unwrap();
    assert_eq!(opt_text(r.scheme()), Some("foo".to_string()));
    assert_eq!(opt_text(r.authority()), Some("user@example.com:8042".to_string()));
    assert_eq!(text(r.path()), "/over/there");
    assert_eq!(opt_text(r.query()), Some("name=ferret".to_string()));
    assert_eq!(opt_text(r.fragment()), Some("nose".to_string()));
    let p = r.parsing_data();
    let a = p.authority.unwrap();
    assert_eq!(a.userinfo_len, Some(4));
    assert_eq!(a.host_len, 11);
    assert_eq!(a.port_len, Some(4));
}

#[test]
fn concatenated_components_give_the_input() {
    let s = "foo://example.com:8042/over/there?name=ferret#nose";
    let r = IriRef::new(s.as_bytes()).unwrap();
    let mut out = String::new();
    if let Some(x) = r.scheme() {
        out.push_str(&text(x));
        out.push(':');
    }
    if let Some(x) = r.authority() {
        out.push_str("//");
        out.push_str(&text(x));
    }
    out.push_str(&text(r.path()));
    if let Some(x) = r.query() {
        out.push('?');
        out.push_str(&text(x));
    }
    if let Some(x) = r.fragment() {
        out.push('#');
        out.push_str(&text(x));
    }
    assert_eq!(out, s);
}

#[test]
fn absent_and_empty_components_differ() {
    let a = IriRef::new("http://h/p?#".as_bytes()).unwrap();
    assert_eq!(opt_text(a.query()), Some(String::new()));
    assert_eq!(opt_text(a.fragment()), Some(String::new()));
    let b = IriRef::new("http://h/p".as_bytes()).unwrap();
    assert_eq!(b.query(), None);
    assert_eq!(b.fragment(), None);
    let c = IriRef::new("foo:#fragment".as_bytes()).unwrap();
    assert!(c.path().is_empty());
    assert_eq!(c.authority(), None);
    let d = IriRef::new("//example.com:8042".as_bytes()).unwrap();
    assert_eq!(d.scheme(), None);
}

#[test]
fn leading_segment_without_scheme_grammar_is_a_path() {
    let r = IriRef::new("1a:b".as_bytes()).unwrap();
    assert_eq!(r.scheme(), None);
    assert_eq!(text(r.path()), "1a:b");
}

#[test]
fn control_character_in_path_gives_its_offset() {
    let r = IriRef::new("http://a/b\u{1}c".as_bytes());
    assert_eq!(r.err(), Some(Error::InvalidCharacter { offset: 10 }));
    let r = IriRef::new("http://a/b c".as_bytes());
    assert_eq!(r.err(), Some(Error::InvalidCharacter { offset: 10 }));
    let r = IriRef::new("ab\u{7f}".as_bytes());
    assert_eq!(r.err(), Some(Error::InvalidCharacter { offset: 2 }));
}

#[test]
fn invalid_utf8_is_refused() {
    let r = IriRef::new(&[b'h', b':', 0xff][..]);
    assert_eq!(r.err(), Some(Error::NotUtf8));
}

#[test]
fn malformed_authorities_are_refused() {
    assert_eq!(IriRef::new("http://h:80x/".as_bytes()).err(), Some(Error::InvalidAuthority));
    assert_eq!(IriRef::new("http://[::1/".as_bytes()).err(), Some(Error::InvalidAuthority));
    assert_eq!(IriRef::new("http://[::1]x/".as_bytes()).err(), Some(Error::InvalidAuthority));
    assert!(IriRef::new("http://h:/".as_bytes()).is_ok());
}

#[test]
fn iri_needs_a_scheme() {
    assert_eq!(Iri::new("//a/b".as_bytes()).err(), Some(Error::MissingScheme));
    assert_eq!(IriBuf::new("//a/b".as_bytes()).err(), Some(Error::MissingScheme));
    let r = IriRef::new("//a/b".as_bytes()).unwrap();
    assert!(r.into_iri().is_err());
    let r = IriRef::new("s://a/b".as_bytes()).unwrap();
    assert!(r.into_iri().is_ok());
    let e = IriBuf::from_vec(b"rel/path".to_vec()).err().unwrap();
    assert_eq!(e.0, Error::MissingScheme);
    assert_eq!(e.1, b"rel/path".to_vec());
}

#[test]
fn rfc_worked_examples() {
    let base = "http://a/b/c/d;p?q";
    assert_eq!(resolve("g;x=1/../y", base), "http://a/b/c/y");
    assert_eq!(resolve("g", base), "http://a/b/c/g");
    assert_eq!(resolve("../../../g", base), "http://a/g");
    assert_eq!(resolve("", base), "http://a/b/c/d;p?q");
    assert_eq!(resolve("#s", base), "http://a/b/c/d;p?q#s");
}

#[test]
fn rfc_normal_and_abnormal_examples() {
    let base = "http://a/b/c/d;p?q";
    let cases = [
        ("g:h", "g:h"),
        ("./g", "http://a/b/c/g"),
        ("g/", "http://a/b/c/g/"),
        ("/g", "http://a/g"),
        ("//g", "http://g"),
        ("?y", "http://a/b/c/d;p?y"),
        ("g?y", "http://a/b/c/g?y"),
        ("g#s", "http://a/b/c/g#s"),
        (";x", "http://a/b/c/;x"),
        ("g;x", "http://a/b/c/g;x"),
        ("g;x?y#s", "http://a/b/c/g;x?y#s"),
        (".", "http://a/b/c/"),
        ("./", "http://a/b/c/"),
        ("..", "http://a/b/"),
        ("../", "http://a/b/"),
        ("../g", "http://a/b/g"),
        ("../..", "http://a/"),
        ("../../", "http://a/"),
        ("../../g", "http://a/g"),
        ("../../../../g", "http://a/g"),
        ("/./g", "http://a/g"),
        ("/../g", "http://a/g"),
        ("g.", "http://a/b/c/g."),
        (".g", "http://a/b/c/.g"),
        ("g..", "http://a/b/c/g.."),
        ("..g", "http://a/b/c/..g"),
        ("./../g", "http://a/b/g"),
        ("./g/.", "http://a/b/c/g/"),
        ("g/./h", "http://a/b/c/g/h"),
        ("g/../h", "http://a/b/c/h"),
        ("g;x=1/./y", "http://a/b/c/g;x=1/y"),
        ("g?y/./x", "http://a/b/c/g?y/./x"),
        ("g#s/../x", "http://a/b/c/g#s/../x"),
    ];
    for (r, expected) in cases {
        assert_eq!(resolve(r, base), expected, "resolving {}", r);
    }
}

#[test]
fn reference_with_scheme_resolves_to_itself() {
    assert_eq!(resolve("foo://x/./y/../z?q#f", "http://a/b"), "foo://x/./y/../z?q#f");
    assert_eq!(resolve("g:h", "http://a/b/c/d;p?q"), "g:h");
}

#[test]
fn base_without_authority_and_empty_path() {
    assert_eq!(resolve("g", "foo:"), "foo:g");
    assert_eq!(resolve("g", "http://a"), "http://a/g");
}

#[test]
fn dot_segments_are_removed() {
    assert_eq!(remove_dot_segments(b"/a/b/c/./../../g"), b"/a/g".to_vec());
    assert_eq!(remove_dot_segments(b"mid/content=5/../6"), b"mid/6".to_vec());
    assert_eq!(remove_dot_segments(b""), b"".to_vec());
    assert_eq!(remove_dot_segments(b"/.."), b"/".to_vec());
    assert_eq!(remove_dot_segments(b"a/"), b"a/".to_vec());
}

#[test]
fn query_and_fragment_setters() {
    let mut b = IriRefBuf::new("http://h/p?q#f".as_bytes()).unwrap();
    assert_eq!(b.set_query(None), Ok(()));
    assert_eq!(text(b.as_bytes()), "http://h/p#f");
    assert_eq!(b.set_query(Some(b"")), Ok(()));
    assert_eq!(text(b.as_bytes()), "http://h/p?#f");
    assert_eq!(b.set_query(Some(b"x=1")), Ok(()));
    assert_eq!(text(b.as_bytes()), "http://h/p?x=1#f");
    assert_eq!(b.set_fragment(Some(b"")), Ok(()));
    assert_eq!(text(b.as_bytes()), "http://h/p?x=1#");
    assert_eq!(b.set_fragment(None), Ok(()));
    assert_eq!(text(b.as_bytes()), "http://h/p?x=1");
    assert_eq!(b.set_fragment(Some(b"top")), Ok(()));
    assert_eq!(text(b.as_bytes()), "http://h/p?x=1#top");
    let r = b.as_iri_ref();
    assert_eq!(opt_text(r.query()), Some("x=1".to_string()));
    assert_eq!(opt_text(r.fragment()), Some("top".to_string()));
}

#[test]
fn setters_refuse_invalid_values_and_leave_the_buffer() {
    let mut b = IriRefBuf::new("http://h/p?q#f".as_bytes()).unwrap();
    assert_eq!(b.set_query(Some(b"a#b")), Err(Error::InvalidComponentSyntax));
    assert_eq!(b.set_path(b"/a?b"), Err(Error::InvalidComponentSyntax));
    assert_eq!(b.set_path(b"rel"), Err(Error::InvalidComponentSyntax));
    assert_eq!(b.set_fragment(Some(b"a b")), Err(Error::InvalidComponentSyntax));
    assert_eq!(b.set_scheme(Some(b"1x")), Err(Error::InvalidComponentSyntax));
    assert_eq!(b.set_authority(Some(b"a/b")), Err(Error::InvalidComponentSyntax));
    assert_eq!(b.set_authority(Some(b"h:port")), Err(Error::InvalidComponentSyntax));
    assert_eq!(text(b.as_bytes()), "http://h/p?q#f");
}

#[test]
fn setting_own_values_changes_nothing() {
    let s = "http://u@h:1/p/q?x#y";
    let mut b = IriRefBuf::new(s.as_bytes()).unwrap();
    let before = b.as_iri_ref().parsing_data();
    assert_eq!(b.set_scheme(Some(b"http")), Ok(()));
    assert_eq!(b.set_authority(Some(b"u@h:1")), Ok(()));
    assert_eq!(b.set_path(b"/p/q"), Ok(()));
    assert_eq!(b.set_query(Some(b"x")), Ok(()));
    assert_eq!(b.set_fragment(Some(b"y")), Ok(()));
    assert_eq!(text(b.as_bytes()), s);
    assert_eq!(b.as_iri_ref().parsing_data(), before);
}

#[test]
fn scheme_and_path_setters_shift_what_follows() {
    let mut b = IriRefBuf::new("//h/p?q".as_bytes()).unwrap();
    assert_eq!(b.set_scheme(Some(b"https")), Ok(()));
    assert_eq!(text(b.as_bytes()), "https://h/p?q");
    assert_eq!(b.set_path(b"/longer/path"), Ok(()));
    assert_eq!(text(b.as_bytes()), "https://h/longer/path?q");
    assert_eq!(b.set_scheme(None), Ok(()));
    assert_eq!(text(b.as_bytes()), "//h/longer/path?q");
    let r = b.as_iri_ref();
    assert_eq!(opt_text(r.authority()), Some("h".to_string()));
    assert_eq!(opt_text(r.query()), Some("q".to_string()));
}

#[test]
fn authority_setter() {
    let mut b = IriRefBuf::new("http:/p".as_bytes()).unwrap();
    assert_eq!(b.set_authority(Some(b"user@[::1]:8080")), Ok(()));
    assert_eq!(text(b.as_bytes()), "http://user@[::1]:8080/p");
    let a = b.as_iri_ref().parsing_data().authority.unwrap();
    assert_eq!(a.userinfo_len, Some(4));
    assert_eq!(a.host_len, 5);
    assert_eq!(a.port_len, Some(4));
    assert_eq!(b.set_authority(None), Ok(()));
    assert_eq!(text(b.as_bytes()), "http:/p");
}

#[test]
fn clearing_authority_before_double_slash_path_is_refused() {
    let mut b = IriRefBuf::new("http://host//x/../y".as_bytes()).unwrap();
    assert_eq!(b.set_authority(None), Err(Error::AmbiguousPathAfterAuthorityRemoval));
    assert_eq!(text(b.as_bytes()), "http://host//x/../y");
    let mut c = IriRefBuf::new("http://host/../x".as_bytes()).unwrap();
    assert_eq!(c.set_authority(None), Ok(()));
    assert_eq!(text(c.as_bytes()), "http:/../x");
    let again = IriRefBuf::new(c.as_bytes()).unwrap();
    assert_eq!(again.as_iri_ref().parsing_data(), c.as_iri_ref().parsing_data());
}

#[test]
fn iri_buf_construction_and_setters() {
    let mut i = IriBuf::from_scheme(b"mailto").unwrap();
    assert_eq!(text(i.as_iri_ref().as_ref()), "mailto:");
    assert_eq!(text(i.scheme()), "mailto");
    assert_eq!(i.set_path(b"someone@example.org"), Ok(()));
    assert_eq!(i.set_scheme(b"MAILTO"), Ok(()));
    assert_eq!(text(i.as_iri().as_iri_ref().as_ref()), "MAILTO:someone@example.org");
    assert_eq!(IriBuf::from_scheme(b"").err(), Some(Error::InvalidComponentSyntax));
    assert_eq!(i.set_scheme(b"a b"), Err(Error::InvalidComponentSyntax));
    let mut j = IriBuf::new("http://x/y".as_bytes()).unwrap();
    assert_eq!(j.set_authority(Some(b"z")), Ok(()));
    assert_eq!(j.set_query(Some(b"k")), Ok(()));
    assert_eq!(j.set_fragment(Some(b"f")), Ok(()));
    let (bytes, p) = j.into_raw_parts();
    assert_eq!(text(&bytes), "http://z/y?k#f");
    assert_eq!(p.path_len, 2);
}

#[test]
fn ordering_is_component_wise() {
    let a = IriRef::new("HTTP://Example.COM/a".as_bytes()).unwrap();
    let b = IriRef::new("http://example.com/a".as_bytes()).unwrap();
    assert_eq!(a.cmp(&b), Ordering::Equal);
    assert!(a.eq(&b));
    let c = IriRef::new("http://example.com/A".as_bytes()).unwrap();
    assert!(!b.eq(&c));
    assert_eq!(c.cmp(&b), Ordering::Less);
    assert_eq!(b.cmp(&c), Ordering::Greater);
    let no_query = IriRef::new("http://h/p".as_bytes()).unwrap();
    let empty_query = IriRef::new("http://h/p?".as_bytes()).unwrap();
    assert_eq!(no_query.cmp(&empty_query), Ordering::Less);
    let rel = IriRef::new("/p".as_bytes()).unwrap();
    assert_eq!(rel.cmp(&no_query), Ordering::Less);
    let user = IriRef::new("http://U@h/p".as_bytes()).unwrap();
    let user2 = IriRef::new("http://u@h/p".as_bytes()).unwrap();
    assert!(!user.eq(&user2));
}

#[test]
fn ordering_is_transitive_on_examples() {
    let xs = ["a:b", "a://h", "b:", "/x", "", "?q", "a:b#f", "A:B"];
    for x in xs {
        for y in xs {
            for z in xs {
                let (x, y, z) = (
                    IriRef::new(x.as_bytes()).unwrap(),
                    IriRef::new(y.as_bytes()).unwrap(),
                    IriRef::new(z.as_bytes()).unwrap(),
                );
                assert_eq!(x.cmp(&y), y.cmp(&x).reverse());
                assert_eq!(x.cmp(&y) == Ordering::Equal, x.eq(&y));
                if x.cmp(&y) != Ordering::Greater && y.cmp(&z) != Ordering::Greater {
                    assert_ne!(x.cmp(&z), Ordering::Greater);
                }
            }
        }
    }
}

#[test]
fn setters_keep_the_text_parseable() {
    let mut b = IriRefBuf::new("http://h/p?q".as_bytes()).unwrap();
    assert_eq!(b.set_query(Some(&[0xff][..])), Err(Error::InvalidComponentSyntax));
    assert_eq!(b.set_path(&[b'/', 0xc3][..]), Err(Error::InvalidComponentSyntax));
    assert_eq!(text(b.as_bytes()), "http://h/p?q");
    let mut c = IriRefBuf::new("a:b:c".as_bytes()).unwrap();
    assert_eq!(c.set_scheme(None), Err(Error::InvalidComponentSyntax));
    assert_eq!(text(c.as_bytes()), "a:b:c");
    let mut d = IriRefBuf::new("rel".as_bytes()).unwrap();
    assert_eq!(d.set_path(b"a:b"), Err(Error::InvalidComponentSyntax));
    assert_eq!(d.set_path(b"./a:b"), Ok(()));
    assert_eq!(text(d.as_bytes()), "./a:b");
    let again = IriRefBuf::new(d.as_bytes()).unwrap();
    assert_eq!(again.as_iri_ref().parsing_data(), d.as_iri_ref().parsing_data());
}

#[test]
fn resolution_that_would_misread_is_refused() {
    let base = Iri::new("foo:/".as_bytes()).unwrap();
    let r = IriRef::new(".//x".as_bytes()).unwrap();
    assert_eq!(r.resolved(&base).err(), Some(Error::InvalidPath));
}

#[test]
fn absolute_reference_resolves_to_an_equal_iri() {
    let base = Iri::new("http://a/b/c/d;p?q".as_bytes()).unwrap();
    let r = IriRef::new("foo://u@x:9/y?q#f".as_bytes()).unwrap();
    let out = r.resolved(&base).unwrap();
    assert!(out.as_iri_ref().eq(&r));
    assert_eq!(out.as_iri_ref().parsing_data(), r.parsing_data());
}

#[test]
fn authority_sub_views() {
    let r = IriRef::new("http://user:pw@[::1]:8080/x".as_bytes()).unwrap();
    assert_eq!(opt_text(r.userinfo()), Some("user:pw".to_string()));
    assert_eq!(opt_text(r.host()), Some("[::1]".to_string()));
    assert_eq!(opt_text(r.port()), Some("8080".to_string()));
    let s = IriRef::new("http://h/x".as_bytes()).unwrap();
    assert_eq!(s.userinfo(), None);
    assert_eq!(opt_text(s.host()), Some("h".to_string()));
    assert_eq!(s.port(), None);
    let t = IriRef::new("mailto:x@y".as_bytes()).unwrap();
    assert_eq!(t.host(), None);
}

#[test]
fn owned_iri_comparison_and_conversion() {
    let a = IriBuf::new("HTTP://H/p".as_bytes()).unwrap();
    let b = IriBuf::new("http://h/p".as_bytes()).unwrap();
    let c = IriBuf::new("http://h/q".as_bytes()).unwrap();
    assert!(a.eq(&b));
    assert_eq!(a.cmp(&c), Ordering::Less);
    assert_eq!(c.cmp(&b), Ordering::Greater);
    let r = IriRefBuf::new("s:x".as_bytes()).unwrap();
    assert!(IriBuf::try_from_ref_buf(r).is_ok());
    let r = IriRefBuf::new("x/y".as_bytes()).unwrap();
    let back = IriBuf::try_from_ref_buf(r).err().unwrap();
    assert_eq!(text(back.as_bytes()), "x/y");
}

#[test]
fn authority_parts_setter() {
    let mut b = IriRefBuf::new("http://h/p".as_bytes()).unwrap();
    assert_eq!(b.set_authority_parts(Some(b"me"), b"example.org", Some(b"81")), Ok(()));
    assert_eq!(text(b.as_bytes()), "http://me@example.org:81/p");
    let r = b.as_iri_ref();
    assert_eq!(opt_text(r.userinfo()), Some("me".to_string()));
    assert_eq!(opt_text(r.host()), Some("example.org".to_string()));
    assert_eq!(opt_text(r.port()), Some("81".to_string()));
    assert_eq!(b.set_authority_parts(None, b"h", Some(b"x")), Err(Error::InvalidComponentSyntax));
    assert_eq!(text(b.as_bytes()), "http://me@example.org:81/p");
    let mut i = IriBuf::new("http://h/p".as_bytes()).unwrap();
    assert_eq!(i.set_authority_parts(None, b"[::1]", None), Ok(()));
    assert_eq!(text(i.as_iri_ref().as_ref()), "http://[::1]/p");
}
