//! Borrowed IRI references: a byte slice with its descriptor, component views,
//! and the algebra that ties descriptors to the bytes they describe.
use vstd::prelude::*;
use crate::parsing::{
    ParsedAuthority,
    lemma_parse_matches, opt_len, parse, spec_parse, ParsedIriRef, COLON, HASH, QMARK, SLASH,
};
use crate::Error;

verus! {

/// The components of an IRI reference, as byte sequences. Path is always present.
pub struct Components {
    pub scheme: Option<Seq<u8>>,
    pub authority: Option<Seq<u8>>,
    pub path: Seq<u8>,
    pub query: Option<Seq<u8>>,
    pub fragment: Option<Seq<u8>>,
}

/// `scheme:` if there is a scheme.
pub open spec fn scheme_piece(c: Components) -> Seq<u8> {
    match c.scheme {
        Some(x) => x.push(COLON),
        None => Seq::empty(),
    }
}

/// `//authority` if there is an authority.
pub open spec fn authority_piece(c: Components) -> Seq<u8> {
    match c.authority {
        Some(a) => seq![SLASH, SLASH] + a,
        None => Seq::empty(),
    }
}

/// `?query` if there is a query.
pub open spec fn query_piece(c: Components) -> Seq<u8> {
    match c.query {
        Some(q) => seq![QMARK] + q,
        None => Seq::empty(),
    }
}

/// `#fragment` if there is a fragment.
pub open spec fn fragment_piece(c: Components) -> Seq<u8> {
    match c.fragment {
        Some(f) => seq![HASH] + f,
        None => Seq::empty(),
    }
}

/// The text of a reference made of the given components, delimiters included.
pub open spec fn compose(c: Components) -> Seq<u8> {
    scheme_piece(c) + authority_piece(c) + c.path + query_piece(c) + fragment_piece(c)
}

/// The components that the descriptor `p` marks out in `s`.
pub open spec fn components(p: ParsedIriRef, s: Seq<u8>) -> Components {
    Components {
        scheme: match p.scheme_len {
            Some(k) => Some(s.subrange(0, k as int)),
            None => None,
        },
        authority: match p.authority {
            Some(a) => Some(
                s.subrange(p.authority_offset(), p.authority_offset() + a.spec_len()),
            ),
            None => None,
        },
        path: s.subrange(p.path_offset(), p.path_offset() + p.path_len),
        query: match p.query_len {
            Some(n) => Some(s.subrange(p.query_offset(), p.query_offset() + n)),
            None => None,
        },
        fragment: match p.fragment_len {
            Some(n) => Some(s.subrange(p.fragment_offset(), p.fragment_offset() + n)),
            None => None,
        },
    }
}

pub open spec fn len_agrees(o: Option<usize>, x: Option<Seq<u8>>) -> bool {
    match (o, x) {
        (Some(n), Some(v)) => v.len() == n,
        (None, None) => true,
        _ => false,
    }
}

/// The descriptor `p` has the lengths of the components `c`.
pub open spec fn describes(p: ParsedIriRef, c: Components) -> bool {
    &&& len_agrees(p.scheme_len, c.scheme)
    &&& match (p.authority, c.authority) {
        (Some(a), Some(v)) => v.len() == a.spec_len(),
        (None, None) => true,
        _ => false,
    }
    &&& c.path.len() == p.path_len
    &&& len_agrees(p.query_len, c.query)
    &&& len_agrees(p.fragment_len, c.fragment)
}

/// The descriptor with the lengths of `c` and the authority split `a`.
pub open spec fn desc_of(c: Components, a: Option<ParsedAuthority>) -> ParsedIriRef {
    ParsedIriRef {
        scheme_len: match c.scheme {
            Some(x) => Some(x.len() as usize),
            None => None,
        },
        authority: a,
        path_len: c.path.len() as usize,
        query_len: match c.query {
            Some(x) => Some(x.len() as usize),
            None => None,
        },
        fragment_len: match c.fragment {
            Some(x) => Some(x.len() as usize),
            None => None,
        },
    }
}

/// A descriptor is rebuilt from the lengths of the components it describes.
pub proof fn lemma_desc_of(p: ParsedIriRef, c: Components)
    requires
        describes(p, c),
    ensures
        desc_of(c, p.authority) == p,
{
}

/// Composing the components with delimiters gives text that the descriptor
/// matches, and whose components are the ones composed.
pub proof fn lemma_compose_inverse(p: ParsedIriRef, c: Components)
    requires
        describes(p, c),
        compose(c).len() <= usize::MAX,
    ensures
        p.matches(compose(c)),
        components(p, compose(c)) == c,
{
    let s = compose(c);
    let a = scheme_piece(c);
    let b = authority_piece(c);
    let ab = a + b;
    let abc = ab + c.path;
    let abcd = abc + query_piece(c);
    assert(a.len() == opt_len(p.scheme_len));
    assert(ab.len() == p.path_offset());
    let r = components(p, s);
    if let Some(x) = c.scheme {
        assert(s.subrange(0, x.len() as int) =~= x);
    }
    if let Some(v) = c.authority {
        assert(s.subrange(p.authority_offset(), p.authority_offset() + v.len()) =~= v);
    }
    assert(s.subrange(p.path_offset(), p.path_offset() + p.path_len) =~= c.path);
    if let Some(v) = c.query {
        assert(s.subrange(p.query_offset(), p.query_offset() + v.len()) =~= v);
    }
    if let Some(v) = c.fragment {
        assert(s.subrange(p.fragment_offset(), p.fragment_offset() + v.len()) =~= v);
    }
    assert(r.scheme == c.scheme);
    assert(r.authority == c.authority);
    assert(r.query == c.query);
    assert(r.fragment == c.fragment);
}

/// Offset consistency: the components that a matching descriptor marks out,
/// put back together with their delimiters, give the original bytes exactly.
pub proof fn lemma_offsets_consistent(p: ParsedIriRef, s: Seq<u8>)
    requires
        p.matches(s),
    ensures
        compose(components(p, s)) == s,
        describes(p, components(p, s)),
{
    let c = components(p, s);
    let t = compose(c);
    assert(t.len() == s.len());
    assert forall|i: int| 0 <= i < s.len() implies t[i] == s[i] by {
        let a = scheme_piece(c);
        let b = authority_piece(c);
        let d = query_piece(c);
        assert(t == a + b + c.path + d + fragment_piece(c));
    }
    assert(t =~= s);
}

/// The bytes that an optional view holds.
pub open spec fn opt_view(o: Option<&[u8]>) -> Option<Seq<u8>> {
    match o {
        Some(x) => Some(x@),
        None => None,
    }
}

/// IRI-reference slice: borrowed bytes together with their descriptor.
#[derive(Clone, Copy)]
pub struct IriRef<'a> {
    p: ParsedIriRef,
    data: &'a [u8],
}

impl<'a> View for IriRef<'a> {
    type V = Seq<u8>;

    closed spec fn view(&self) -> Seq<u8> {
        self.data@
    }
}

impl<'a> IriRef<'a> {
    /// The descriptor of the reference.
    pub closed spec fn desc(&self) -> ParsedIriRef {
        self.p
    }

    /// The descriptor matches the bytes, and is what parsing them gives.
    pub open spec fn wf(&self) -> bool {
        self.desc().matches(self@) && spec_parse(self@) == Ok::<ParsedIriRef, Error>(self.desc())
    }

    /// The components of the reference.
    pub open spec fn comps(&self) -> Components {
        components(self.desc(), self@)
    }

    /// Builds a reference from bytes and the descriptor that parsing them gives.
    pub(crate) fn from_parts(data: &'a [u8], p: ParsedIriRef) -> (r: IriRef<'a>)
        requires
            p.matches(data@),
            spec_parse(data@) == Ok::<ParsedIriRef, Error>(p),
        ensures
            r@ == data@,
            r.desc() == p,
            r.wf(),
    {
        IriRef { p, data }
    }

    /// Parses `buffer` as an IRI reference, without copying it.
    pub fn new(buffer: &'a [u8]) -> (r: Result<IriRef<'a>, Error>)
        ensures
            match r {
                Ok(x) => spec_parse(buffer@) == Ok::<ParsedIriRef, Error>(x.desc()) && x@ == buffer@ && x.wf(),
                Err(e) => spec_parse(buffer@) == Err::<ParsedIriRef, Error>(e),
            },
    {
        let n = buffer.len();
        match parse(buffer) {
            Ok(p) => {
                proof {
                    assert(buffer@.len() == n);
                    lemma_parse_matches(buffer@);
                }
                Ok(IriRef { p, data: buffer })
            },
            Err(e) => Err(e),
        }
    }

    /// The descriptor of the reference.
    pub fn parsing_data(&self) -> (r: ParsedIriRef)
        ensures
            r == self.desc(),
    {
        self.p
    }

    /// Length in bytes.
    pub fn len(&self) -> (r: usize)
        ensures
            r == self@.len(),
    {
        self.data.len()
    }

    /// The bytes of the reference.
    pub fn as_ref(&self) -> (r: &[u8])
        ensures
            r@ == self@,
    {
        self.data
    }

    /// The bytes of the reference, for as long as they are borrowed.
    pub fn into_ref(self) -> (r: &'a [u8])
        ensures
            r@ == self@,
    {
        self.data
    }

    /// The scheme, before the first `:`.
    pub fn scheme(&self) -> (r: Option<&'a [u8]>)
        requires
            self.wf(),
        ensures
            opt_view(r) == self.comps().scheme,
    {
        match self.p.scheme_len {
            Some(k) => Some(vstd::slice::slice_subrange(self.data, 0, k)),
            None => None,
        }
    }

    /// The authority, after `//`.
    pub fn authority(&self) -> (r: Option<&'a [u8]>)
        requires
            self.wf(),
        ensures
            opt_view(r) == self.comps().authority,
    {
        match self.p.authority {
            Some(a) => {
                let o = self.p.authority_offset_exec();
                Some(vstd::slice::slice_subrange(self.data, o, o + a.len()))
            },
            None => None,
        }
    }

    /// The path; always there, possibly empty.
    pub fn path(&self) -> (r: &'a [u8])
        requires
            self.wf(),
        ensures
            r@ == self.comps().path,
    {
        let o = self.p.path_offset_exec();
        vstd::slice::slice_subrange(self.data, o, o + self.p.path_len)
    }

    /// The query, after `?`.
    pub fn query(&self) -> (r: Option<&'a [u8]>)
        requires
            self.wf(),
        ensures
            opt_view(r) == self.comps().query,
    {
        match self.p.query_len {
            Some(n) => {
                let o = self.p.query_offset_exec();
                Some(vstd::slice::slice_subrange(self.data, o, o + n))
            },
            None => None,
        }
    }

    /// The fragment, after `#`.
    pub fn fragment(&self) -> (r: Option<&'a [u8]>)
        requires
            self.wf(),
        ensures
            opt_view(r) == self.comps().fragment,
    {
        match self.p.fragment_len {
            Some(n) => {
                let o = self.p.fragment_offset_exec();
                Some(vstd::slice::slice_subrange(self.data, o, o + n))
            },
            None => None,
        }
    }

    /// The reference as an IRI, when it has a scheme; itself otherwise.
    pub fn into_iri(self) -> (r: Result<Iri<'a>, IriRef<'a>>)
        requires
            self.wf(),
        ensures
            match r {
                Ok(i) => self.desc().scheme_len is Some && i.as_ref_spec() == self,
                Err(x) => self.desc().scheme_len is None && x == self,
            },
    {
        if self.p.scheme_len.is_some() {
            Ok(Iri { r: self })
        } else {
            Err(self)
        }
    }
}

/// An IRI slice: a reference that has a scheme.
#[derive(Clone, Copy)]
pub struct Iri<'a> {
    r: IriRef<'a>,
}

impl<'a> Iri<'a> {
    pub closed spec fn as_ref_spec(&self) -> IriRef<'a> {
        self.r
    }

    /// Well formed, with a non-empty scheme.
    pub open spec fn wf(&self) -> bool {
        self.as_ref_spec().wf() && (self.as_ref_spec().desc().scheme_len matches Some(k) && k > 0)
    }

    /// Parses `buffer` as an IRI: a reference with a scheme.
    pub fn new(buffer: &'a [u8]) -> (r: Result<Iri<'a>, Error>)
        ensures
            match r {
                Ok(x) => spec_parse(buffer@) == Ok::<ParsedIriRef, Error>(x.as_ref_spec().desc()) && x.as_ref_spec()@
                    == buffer@ && x.wf(),
                Err(Error::MissingScheme) => spec_parse(buffer@) matches Ok(p) && p.scheme_len is None,
                Err(e) => spec_parse(buffer@) == Err::<ParsedIriRef, Error>(e),
            },
    {
        proof {
            crate::parsing::lemma_parse_errors(buffer@);
        }
        match IriRef::new(buffer) {
            Ok(x) => if x.p.scheme_len.is_some() {
                Ok(Iri::from_iri_ref(x))
            } else {
                Err(Error::MissingScheme)
            },
            Err(e) => Err(e),
        }
    }

    /// An IRI from a reference that has a scheme.
    pub(crate) fn from_iri_ref(r: IriRef<'a>) -> (i: Iri<'a>)
        requires
            r.wf(),
            r.desc().scheme_len is Some,
        ensures
            i.as_ref_spec() == r,
            i.wf(),
    {
        proof {
            lemma_parse_matches(r@);
        }
        Iri { r }
    }

    /// The IRI as a reference.
    pub fn as_iri_ref(&self) -> (r: IriRef<'a>)
        ensures
            r == self.as_ref_spec(),
    {
        self.r
    }
}

} // verus!
