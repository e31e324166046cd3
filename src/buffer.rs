//! Owned IRI references and the splice engine that rewrites one component in place.
use vstd::prelude::*;
use crate::parsing::{
    authority_ok, check_authority, check_path, check_query, check_clean, check_scheme, is_clean,
    is_scheme, lemma_authority_len, lemma_parse_matches, parse, path_ok, query_ok, spec_parse,
    spec_parse_authority, ParsedAuthority, ParsedIriRef, AT, COLON, HASH, QMARK, SLASH,
};
use crate::reference::{
    authority_piece, compose, components, desc_of, describes, Iri, fragment_piece, lemma_compose_inverse,
    lemma_offsets_consistent, opt_view, query_piece, scheme_piece, Components, IriRef,
};
use crate::Error;

verus! {

/// Appends `src[from..to]` to `out`.
fn push_range(out: &mut Vec<u8>, src: &[u8], from: usize, to: usize)
    requires
        from <= to <= src@.len(),
    ensures
        final(out)@ == old(out)@ + src@.subrange(from as int, to as int),
{
    let mut i = from;
    while i < to
        invariant
            from <= i <= to <= src@.len(),
            out@ == old(out)@ + src@.subrange(from as int, i as int),
        decreases to - i,
    {
        out.push(src[i]);
        i = i + 1;
        assert(out@ =~= old(out)@ + src@.subrange(from as int, i as int));
    }
}

/// `data` with `data[start..end]` replaced by `rep`.
fn spliced(data: &[u8], start: usize, end: usize, rep: &[u8]) -> (r: Vec<u8>)
    requires
        start <= end <= data@.len(),
    ensures
        r@ == data@.subrange(0, start as int) + rep@ + data@.subrange(
            end as int,
            data@.len() as int,
        ),
{
    let mut out: Vec<u8> = Vec::new();
    push_range(&mut out, data, 0, start);
    push_range(&mut out, rep, 0, rep.len());
    push_range(&mut out, data, end, data.len());
    assert(rep@.subrange(0, rep@.len() as int) =~= rep@);
    out
}

/// `d` followed by `x`, or nothing.
fn delimited_before(d: u8, x: Option<&[u8]>) -> (r: Vec<u8>)
    ensures
        r@ == match opt_view(x) {
            Some(v) => seq![d] + v,
            None => Seq::<u8>::empty(),
        },
{
    let mut out: Vec<u8> = Vec::new();
    if let Some(v) = x {
        out.push(d);
        push_range(&mut out, v, 0, v.len());
        assert(v@.subrange(0, v@.len() as int) =~= v@);
        assert(out@ =~= seq![d] + v@);
    }
    out
}

proof fn lemma_splice(pre: Seq<u8>, mid: Seq<u8>, post: Seq<u8>, rep: Seq<u8>)
    ensures
        ({
            let s = pre + mid + post;
            s.subrange(0, pre.len() as int) + rep + s.subrange(
                (pre.len() + mid.len()) as int,
                s.len() as int,
            )
        }) == pre + rep + post,
{
    let s = pre + mid + post;
    assert(s.subrange(0, pre.len() as int) =~= pre);
    assert(s.subrange((pre.len() + mid.len()) as int, s.len() as int) =~= post);
}

/// The path may follow the authority (or its absence) without being misread.
pub open spec fn path_fits(has_authority: bool, x: Seq<u8>) -> bool {
    if has_authority {
        x.len() == 0 || x[0] == SLASH
    } else {
        !(x.len() >= 2 && x[0] == SLASH && x[1] == SLASH)
    }
}

/// The composition of `c` parses back to exactly `p`.
pub open spec fn reparses(c: Components, p: ParsedIriRef) -> bool {
    spec_parse(compose(c)) == Ok::<ParsedIriRef, Error>(p)
}

/// The authority `userinfo@host:port`, each optional part with its delimiter.
pub open spec fn join_authority(
    userinfo: Option<Seq<u8>>,
    host: Seq<u8>,
    port: Option<Seq<u8>>,
) -> Seq<u8> {
    (match userinfo {
        Some(u) => u.push(AT),
        None => Seq::empty(),
    }) + host + match port {
        Some(p) => seq![COLON] + p,
        None => Seq::empty(),
    }
}

/// The length of an optional value.
pub open spec fn opt_slice_len(o: Option<&[u8]>) -> Option<usize> {
    match o {
        Some(x) => Some(x@.len() as usize),
        None => None,
    }
}

/// Owned IRI reference: bytes together with the descriptor that parsing them gives.
pub struct IriRefBuf {
    p: ParsedIriRef,
    data: Vec<u8>,
}

impl View for IriRefBuf {
    type V = Seq<u8>;

    closed spec fn view(&self) -> Seq<u8> {
        self.data@
    }
}

impl IriRefBuf {
    pub closed spec fn desc(&self) -> ParsedIriRef {
        self.p
    }

    /// The descriptor matches the bytes, and is what parsing them gives (so the bytes
    /// are UTF-8 and hold no forbidden byte).
    pub open spec fn wf(&self) -> bool {
        self.desc().matches(self@) && spec_parse(self@) == Ok::<ParsedIriRef, Error>(self.desc())
    }

    /// The components of the reference.
    pub open spec fn comps(&self) -> Components {
        components(self.desc(), self@)
    }

    /// The reference made of `data` and `p`, when `data` parses to exactly `p`.
    fn checked(data: Vec<u8>, p: ParsedIriRef) -> (r: Option<IriRefBuf>)
        requires
            p.matches(data@),
        ensures
            r is Some <==> spec_parse(data@) == Ok::<ParsedIriRef, Error>(p),
            r matches Some(x) ==> x@ == data@ && x.desc() == p && x.wf(),
    {
        match parse(data.as_slice()) {
            Ok(q) => if q == p {
                Some(IriRefBuf { p, data })
            } else {
                None
            },
            Err(_) => None,
        }
    }

    /// Takes `data` and `p` in place of the current bytes and descriptor, when `data`
    /// parses to exactly `p`; changes nothing otherwise.
    fn commit(&mut self, data: Vec<u8>, p: ParsedIriRef) -> (r: bool)
        requires
            p.matches(data@),
        ensures
            r == (spec_parse(data@) == Ok::<ParsedIriRef, Error>(p)),
            r ==> final(self)@ == data@ && final(self).desc() == p && final(self).wf(),
            !r ==> *final(self) == *old(self),
    {
        match IriRefBuf::checked(data, p) {
            Some(x) => {
                *self = x;
                true
            },
            None => false,
        }
    }

    /// Parses `buffer` and copies it.
    pub fn new(buffer: &[u8]) -> (r: Result<IriRefBuf, Error>)
        ensures
            match r {
                Ok(x) => spec_parse(buffer@) == Ok::<ParsedIriRef, Error>(x.desc()) && x@
                    == buffer@ && x.wf(),
                Err(e) => spec_parse(buffer@) == Err::<ParsedIriRef, Error>(e),
            },
    {
        let n = buffer.len();
        match parse(buffer) {
            Ok(p) => {
                proof {
                    assert(buffer@.len() == n);
                    lemma_parse_matches(buffer@);
                }
                Ok(IriRefBuf { p, data: vstd::slice::slice_to_vec(buffer) })
            },
            Err(e) => Err(e),
        }
    }

    /// Parses `buffer` and keeps it; hands it back with the error on failure.
    pub fn from_vec(buffer: Vec<u8>) -> (r: Result<IriRefBuf, (Error, Vec<u8>)>)
        ensures
            match r {
                Ok(x) => spec_parse(buffer@) == Ok::<ParsedIriRef, Error>(x.desc()) && x@
                    == buffer@ && x.wf(),
                Err((e, b)) => spec_parse(buffer@) == Err::<ParsedIriRef, Error>(e) && b@
                    == buffer@,
            },
    {
        let n = buffer.len();
        match parse(buffer.as_slice()) {
            Ok(p) => {
                proof {
                    assert(buffer@.len() == n);
                    lemma_parse_matches(buffer@);
                }
                Ok(IriRefBuf { p, data: buffer })
            },
            Err(e) => Err((e, buffer)),
        }
    }

    /// Borrows the reference as a slice.
    pub fn as_iri_ref(&self) -> (r: IriRef<'_>)
        requires
            self.wf(),
        ensures
            r@ == self@,
            r.desc() == self.desc(),
            r.wf(),
    {
        IriRef::from_parts(self.data.as_slice(), self.p)
    }

    /// The bytes and the descriptor.
    pub fn into_raw_parts(self) -> (r: (Vec<u8>, ParsedIriRef))
        ensures
            r.0@ == self@,
            r.1 == self.desc(),
    {
        (self.data, self.p)
    }

    /// The bytes.
    pub fn into_bytes(self) -> (r: Vec<u8>)
        ensures
            r@ == self@,
    {
        self.data
    }

    /// The bytes, borrowed.
    pub fn as_bytes(&self) -> (r: &[u8])
        ensures
            r@ == self@,
    {
        self.data.as_slice()
    }

    /// Sets or clears the query. `Some` of an empty value keeps a bare `?`.
    /// Refused when the value holds `#` or a forbidden byte, or when the new text
    /// would not parse back to the new components (bytes that are not UTF-8).
    pub fn set_query(&mut self, query: Option<&[u8]>) -> (r: Result<(), Error>)
        requires
            old(self).wf(),
            query matches Some(x) ==> old(self)@.len() + x@.len() + 1 <= usize::MAX,
        ensures
            final(self).wf(),
            r is Ok <==> (query matches Some(x) ==> query_ok(x@)) && reparses(
                Components { query: opt_view(query), ..old(self).comps() },
                ParsedIriRef { query_len: opt_slice_len(query), ..old(self).desc() },
            ),
            r is Err ==> r == Err::<(), Error>(Error::InvalidComponentSyntax) && *final(self)
                == *old(self),
            r is Ok ==> final(self).comps() == (Components {
                query: opt_view(query),
                ..old(self).comps()
            }),
            r is Ok ==> final(self).desc() == (ParsedIriRef {
                query_len: opt_slice_len(query),
                ..old(self).desc()
            }),
            r is Ok ==> final(self)@ == compose(final(self).comps()),
    {
        if let Some(x) = query {
            if !check_query(x) {
                return Err(Error::InvalidComponentSyntax);
            }
        }
        let ghost c = self.comps();
        let ghost c2 = Components { query: opt_view(query), ..c };
        proof {
            lemma_offsets_consistent(self.p, self.data@);
        }
        let start = self.p.path_offset_exec() + self.p.path_len;
        let end = match self.p.query_len {
            Some(n) => start + n + 1,
            None => start,
        };
        let rep = delimited_before(QMARK, query);
        let ghost pre = scheme_piece(c) + authority_piece(c) + c.path;
        proof {
            assert(pre.len() == start);
            assert(query_piece(c).len() == end - start);
            assert(compose(c) =~= pre + query_piece(c) + fragment_piece(c));
            assert(compose(c2) =~= pre + rep@ + fragment_piece(c));
            lemma_splice(pre, query_piece(c), fragment_piece(c), rep@);
        }
        let data = spliced(self.data.as_slice(), start, end, rep.as_slice());
        let p = ParsedIriRef {
            query_len: match query {
                Some(x) => Some(x.len()),
                None => None,
            },
            ..self.p
        };
        proof {
            assert(describes(p, c2));
            lemma_compose_inverse(p, c2);
        }
        if self.commit(data, p) {
            Ok(())
        } else {
            Err(Error::InvalidComponentSyntax)
        }
    }

    /// Sets or clears the fragment. `Some` of an empty value keeps a bare `#`.
    /// Refused when the value holds a forbidden byte, or when the new text would not
    /// parse back to the new components (bytes that are not UTF-8).
    pub fn set_fragment(&mut self, fragment: Option<&[u8]>) -> (r: Result<(), Error>)
        requires
            old(self).wf(),
            fragment matches Some(x) ==> old(self)@.len() + x@.len() + 1 <= usize::MAX,
        ensures
            final(self).wf(),
            r is Ok <==> (fragment matches Some(x) ==> is_clean(x@)) && reparses(
                Components { fragment: opt_view(fragment), ..old(self).comps() },
                ParsedIriRef { fragment_len: opt_slice_len(fragment), ..old(self).desc() },
            ),
            r is Err ==> r == Err::<(), Error>(Error::InvalidComponentSyntax) && *final(self)
                == *old(self),
            r is Ok ==> final(self).comps() == (Components {
                fragment: opt_view(fragment),
                ..old(self).comps()
            }),
            r is Ok ==> final(self).desc() == (ParsedIriRef {
                fragment_len: opt_slice_len(fragment),
                ..old(self).desc()
            }),
            r is Ok ==> final(self)@ == compose(final(self).comps()),
    {
        if let Some(x) = fragment {
            if !check_clean(x) {
                return Err(Error::InvalidComponentSyntax);
            }
        }
        let ghost c = self.comps();
        let ghost c2 = Components { fragment: opt_view(fragment), ..c };
        proof {
            lemma_offsets_consistent(self.p, self.data@);
        }
        let n = self.data.len();
        let start = match self.p.fragment_len {
            Some(f) => n - f - 1,
            None => n,
        };
        let rep = delimited_before(HASH, fragment);
        let ghost pre = scheme_piece(c) + authority_piece(c) + c.path + query_piece(c);
        proof {
            assert(compose(c) =~= pre + fragment_piece(c) + Seq::<u8>::empty());
            assert(compose(c2) =~= pre + rep@ + Seq::<u8>::empty());
            lemma_splice(pre, fragment_piece(c), Seq::<u8>::empty(), rep@);
        }
        let data = spliced(self.data.as_slice(), start, n, rep.as_slice());
        let p = ParsedIriRef {
            fragment_len: match fragment {
                Some(x) => Some(x.len()),
                None => None,
            },
            ..self.p
        };
        proof {
            assert(describes(p, c2));
            lemma_compose_inverse(p, c2);
        }
        if self.commit(data, p) {
            Ok(())
        } else {
            Err(Error::InvalidComponentSyntax)
        }
    }

    /// Replaces the path. It must hold no `?` or `#`; after an authority it must be
    /// empty or start with `/`; without one it must not start with `//`; and the new
    /// text must parse back to the new components (so `a:b` cannot stand as the path
    /// of a reference without scheme or authority).
    pub fn set_path(&mut self, path: &[u8]) -> (r: Result<(), Error>)
        requires
            old(self).wf(),
            old(self)@.len() + path@.len() <= usize::MAX,
        ensures
            final(self).wf(),
            r is Ok <==> path_ok(path@) && path_fits(old(self).comps().authority is Some, path@)
                && reparses(
                Components { path: path@, ..old(self).comps() },
                ParsedIriRef { path_len: path@.len() as usize, ..old(self).desc() },
            ),
            r is Err ==> r == Err::<(), Error>(Error::InvalidComponentSyntax) && *final(self)
                == *old(self),
            r is Ok ==> final(self).comps() == (Components { path: path@, ..old(self).comps() }),
            r is Ok ==> final(self).desc() == (ParsedIriRef {
                path_len: path@.len() as usize,
                ..old(self).desc()
            }),
            r is Ok ==> final(self)@ == compose(final(self).comps()),
    {
        let ghost c = self.comps();
        if !check_path(path) {
            return Err(Error::InvalidComponentSyntax);
        }
        let has_authority = self.p.authority.is_some();
        if has_authority {
            if path.len() > 0 && path[0] != SLASH {
                return Err(Error::InvalidComponentSyntax);
            }
        } else if path.len() >= 2 && path[0] == SLASH && path[1] == SLASH {
            return Err(Error::InvalidComponentSyntax);
        }
        let ghost c2 = Components { path: path@, ..c };
        proof {
            lemma_offsets_consistent(self.p, self.data@);
        }
        let start = self.p.path_offset_exec();
        let end = start + self.p.path_len;
        let ghost pre = scheme_piece(c) + authority_piece(c);
        let ghost post = query_piece(c) + fragment_piece(c);
        proof {
            assert(pre.len() == start);
            assert(compose(c) =~= pre + c.path + post);
            assert(compose(c2) =~= pre + path@ + post);
            lemma_splice(pre, c.path, post, path@);
        }
        let data = spliced(self.data.as_slice(), start, end, path);
        let p = ParsedIriRef { path_len: path.len(), ..self.p };
        proof {
            assert(describes(p, c2));
            lemma_compose_inverse(p, c2);
        }
        if self.commit(data, p) {
            Ok(())
        } else {
            Err(Error::InvalidComponentSyntax)
        }
    }

    /// Sets or clears the authority. Clearing it is refused with
    /// `AmbiguousPathAfterAuthorityRemoval` when the path starts with `//`, which would
    /// then read as an authority; any other value whose text would not parse back to
    /// the new components is refused with `InvalidComponentSyntax`.
    pub fn set_authority(&mut self, authority: Option<&[u8]>) -> (r: Result<(), Error>)
        requires
            old(self).wf(),
            authority matches Some(x) ==> old(self)@.len() + x@.len() + 2 <= usize::MAX,
        ensures
            final(self).wf(),
            r is Ok <==> match authority {
                Some(x) => authority_ok(x@) && path_fits(true, old(self).comps().path),
                None => path_fits(false, old(self).comps().path),
            } && reparses(
                Components { authority: opt_view(authority), ..old(self).comps() },
                ParsedIriRef {
                    authority: match authority {
                        Some(x) => spec_parse_authority(x@),
                        None => None,
                    },
                    ..old(self).desc()
                },
            ),
            r is Err ==> *final(self) == *old(self),
            r matches Err(e) ==> e == if authority is None && !path_fits(
                false,
                old(self).comps().path,
            ) {
                Error::AmbiguousPathAfterAuthorityRemoval
            } else {
                Error::InvalidComponentSyntax
            },
            r is Ok ==> final(self).comps() == (Components {
                authority: opt_view(authority),
                ..old(self).comps()
            }),
            r is Ok ==> final(self).desc() == (ParsedIriRef {
                authority: match authority {
                    Some(x) => spec_parse_authority(x@),
                    None => None,
                },
                ..old(self).desc()
            }),
            r is Ok ==> final(self)@ == compose(final(self).comps()),
    {
        let o = self.p.path_offset_exec();
        let path = vstd::slice::slice_subrange(self.data.as_slice(), o, o + self.p.path_len);
        assert(path@ == self.comps().path);
        let parsed = match authority {
            Some(x) => {
                match check_authority(x) {
                    Some(pa) => {
                        if path.len() > 0 && path[0] != SLASH {
                            return Err(Error::InvalidComponentSyntax);
                        }
                        proof {
                            lemma_authority_len(x@);
                        }
                        Some(pa)
                    },
                    None => {
                        return Err(Error::InvalidComponentSyntax);
                    },
                }
            },
            None => {
                if path.len() >= 2 && path[0] == SLASH && path[1] == SLASH {
                    return Err(Error::AmbiguousPathAfterAuthorityRemoval);
                }
                None
            },
        };
        if self.replace_authority(authority, parsed) {
            Ok(())
        } else {
            Err(Error::InvalidComponentSyntax)
        }
    }

    #[verifier::spinoff_prover]
    #[verifier::rlimit(30)]
    fn replace_authority(&mut self, authority: Option<&[u8]>, parsed: Option<ParsedAuthority>) -> (r: bool)
        requires
            old(self).wf(),
            authority matches Some(x) ==> old(self)@.len() + x@.len() + 2 <= usize::MAX,
            authority matches Some(x) ==> (parsed matches Some(pa) && pa.spec_len() == x@.len()),
            authority is None ==> parsed is None,
        ensures
            r == reparses(
                Components { authority: opt_view(authority), ..old(self).comps() },
                ParsedIriRef { authority: parsed, ..old(self).desc() },
            ),
            !r ==> *final(self) == *old(self),
            r ==> final(self).wf(),
            r ==> final(self).comps() == (Components {
                authority: opt_view(authority),
                ..old(self).comps()
            }),
            r ==> final(self)@ == compose(final(self).comps()),
            r ==> final(self).desc() == (ParsedIriRef { authority: parsed, ..old(self).desc() }),
    {
        let ghost c = self.comps();
        proof {
            lemma_offsets_consistent(self.p, self.data@);
        }
        let start = match self.p.scheme_len {
            Some(k) => k + 1,
            None => 0,
        };
        let end = self.p.path_offset_exec();
        let mut rep: Vec<u8> = Vec::new();
        if let Some(x) = authority {
            rep.push(SLASH);
            rep.push(SLASH);
            push_range(&mut rep, x, 0, x.len());
            proof {
                assert(x@.subrange(0, x@.len() as int) =~= x@);
            }
        }
        let ghost c2 = Components { authority: opt_view(authority), ..c };
        let ghost pre = scheme_piece(c);
        let ghost post = c.path + query_piece(c) + fragment_piece(c);
        proof {
            assert(rep@ =~= authority_piece(c2));
            assert(pre.len() == start);
            assert(authority_piece(c).len() == end - start);
            assert(compose(c) =~= pre + authority_piece(c) + post);
            assert(compose(c2) =~= pre + rep@ + post);
            lemma_splice(pre, authority_piece(c), post, rep@);
        }
        let data = spliced(self.data.as_slice(), start, end, rep.as_slice());
        let p = ParsedIriRef { authority: parsed, ..self.p };
        proof {
            assert(describes(p, c2));
            lemma_compose_inverse(p, c2);
        }
        self.commit(data, p)
    }

    /// Sets or clears the scheme. Refused when the value is not a scheme, or when the
    /// new text would not parse back to the new components (clearing the scheme of
    /// `a:b:c` would leave `b:c`, which reads as having scheme `b`).
    #[verifier::spinoff_prover]
    #[verifier::rlimit(30)]
    pub fn set_scheme(&mut self, scheme: Option<&[u8]>) -> (r: Result<(), Error>)
        requires
            old(self).wf(),
            scheme matches Some(x) ==> old(self)@.len() + x@.len() + 1 <= usize::MAX,
        ensures
            final(self).wf(),
            r is Ok <==> (scheme matches Some(x) ==> is_scheme(x@)) && reparses(
                Components { scheme: opt_view(scheme), ..old(self).comps() },
                ParsedIriRef { scheme_len: opt_slice_len(scheme), ..old(self).desc() },
            ),
            r is Err ==> r == Err::<(), Error>(Error::InvalidComponentSyntax) && *final(self)
                == *old(self),
            r is Ok ==> final(self).comps() == (Components {
                scheme: opt_view(scheme),
                ..old(self).comps()
            }),
            r is Ok ==> final(self).desc() == (ParsedIriRef {
                scheme_len: opt_slice_len(scheme),
                ..old(self).desc()
            }),
            r is Ok ==> final(self)@ == compose(final(self).comps()),
    {
        let ghost c = self.comps();
        let mut rep: Vec<u8> = Vec::new();
        if let Some(x) = scheme {
            if !check_scheme(x) {
                return Err(Error::InvalidComponentSyntax);
            }
            push_range(&mut rep, x, 0, x.len());
            rep.push(COLON);
            proof {
                assert(x@.subrange(0, x@.len() as int) =~= x@);
            }
        }
        let ghost c2 = Components { scheme: opt_view(scheme), ..c };
        proof {
            lemma_offsets_consistent(self.p, self.data@);
        }
        let end = match self.p.scheme_len {
            Some(k) => k + 1,
            None => 0,
        };
        let ghost pre = Seq::<u8>::empty();
        let ghost post = authority_piece(c) + c.path + query_piece(c) + fragment_piece(c);
        proof {
            assert(rep@ =~= scheme_piece(c2));
            assert(scheme_piece(c).len() == end);
            assert(compose(c) =~= pre + scheme_piece(c) + post);
            assert(compose(c2) =~= pre + rep@ + post);
            lemma_splice(pre, scheme_piece(c), post, rep@);
        }
        let data = spliced(self.data.as_slice(), 0, end, rep.as_slice());
        let p = ParsedIriRef {
            scheme_len: match scheme {
                Some(x) => Some(x.len()),
                None => None,
            },
            ..self.p
        };
        proof {
            assert(describes(p, c2));
            lemma_compose_inverse(p, c2);
        }
        if self.commit(data, p) {
            Ok(())
        } else {
            Err(Error::InvalidComponentSyntax)
        }
    }

    /// Sets the authority from its parts: user-info, host and port. The result is that
    /// of [`IriRefBuf::set_authority`] on `userinfo@host:port`.
    pub fn set_authority_parts(
        &mut self,
        userinfo: Option<&[u8]>,
        host: &[u8],
        port: Option<&[u8]>,
    ) -> (r: Result<(), Error>)
        requires
            old(self).wf(),
            old(self)@.len() + join_authority(opt_view(userinfo), host@, opt_view(port)).len() + 2
                <= usize::MAX,
        ensures
            final(self).wf(),
            ({
                let x = join_authority(opt_view(userinfo), host@, opt_view(port));
                &&& r is Ok <==> authority_ok(x) && path_fits(true, old(self).comps().path)
                    && reparses(
                    Components { authority: Some(x), ..old(self).comps() },
                    ParsedIriRef { authority: spec_parse_authority(x), ..old(self).desc() },
                )
                &&& r is Err ==> r == Err::<(), Error>(Error::InvalidComponentSyntax)
                &&& r is Err ==> *final(self) == *old(self)
                &&& r is Ok ==> final(self).comps() == (Components {
                    authority: Some(x),
                    ..old(self).comps()
                })
                &&& r is Ok ==> final(self).desc() == (ParsedIriRef {
                    authority: spec_parse_authority(x),
                    ..old(self).desc()
                })
                &&& r is Ok ==> final(self)@ == compose(final(self).comps())
            }),
    {
        let mut a: Vec<u8> = Vec::new();
        if let Some(u) = userinfo {
            push_range(&mut a, u, 0, u.len());
            a.push(AT);
            assert(u@.subrange(0, u@.len() as int) =~= u@);
        }
        push_range(&mut a, host, 0, host.len());
        assert(host@.subrange(0, host@.len() as int) =~= host@);
        let p = delimited_before(COLON, port);
        push_range(&mut a, p.as_slice(), 0, p.len());
        assert(p@.subrange(0, p@.len() as int) =~= p@);
        assert(a@ =~= join_authority(opt_view(userinfo), host@, opt_view(port)));
        self.set_authority(Some(a.as_slice()))
    }

    /// Puts components together, the authority split as `authority` gives it; `None`
    /// when the text would not parse back to exactly those components.
    pub(crate) fn from_components(
        scheme: Option<&[u8]>,
        authority: Option<(&[u8], ParsedAuthority)>,
        path: &[u8],
        query: Option<&[u8]>,
        fragment: Option<&[u8]>,
    ) -> (r: Option<IriRefBuf>)
        requires
            authority matches Some((a, pa)) ==> pa.spec_len() == a@.len(),
        ensures
            ({
                let c = Components {
                    scheme: opt_view(scheme),
                    authority: match authority {
                        Some((a, _)) => Some(a@),
                        None => None,
                    },
                    path: path@,
                    query: opt_view(query),
                    fragment: opt_view(fragment),
                };
                let d = desc_of(
                    c,
                    match authority {
                        Some((_, pa)) => Some(pa),
                        None => None,
                    },
                );
                &&& r is Some <==> reparses(c, d)
                &&& r matches Some(x) ==> x.wf() && x.comps() == c && x@ == compose(c) && x.desc()
                    == d
            }),
    {
        let ghost c = Components {
            scheme: opt_view(scheme),
            authority: match authority {
                Some((a, _)) => Some(a@),
                None => None,
            },
            path: path@,
            query: opt_view(query),
            fragment: opt_view(fragment),
        };
        let mut data: Vec<u8> = Vec::new();
        if let Some(s) = scheme {
            push_range(&mut data, s, 0, s.len());
            data.push(COLON);
            assert(s@.subrange(0, s@.len() as int) =~= s@);
        }
        assert(data@ =~= scheme_piece(c));
        let mut pa: Option<ParsedAuthority> = None;
        if let Some((a, d)) = authority {
            data.push(SLASH);
            data.push(SLASH);
            push_range(&mut data, a, 0, a.len());
            assert(a@.subrange(0, a@.len() as int) =~= a@);
            pa = Some(d);
        }
        assert(data@ =~= scheme_piece(c) + authority_piece(c));
        push_range(&mut data, path, 0, path.len());
        assert(path@.subrange(0, path@.len() as int) =~= path@);
        let q = delimited_before(QMARK, query);
        push_range(&mut data, q.as_slice(), 0, q.len());
        assert(q@.subrange(0, q@.len() as int) =~= q@);
        let f = delimited_before(HASH, fragment);
        push_range(&mut data, f.as_slice(), 0, f.len());
        assert(f@.subrange(0, f@.len() as int) =~= f@);
        assert(data@ =~= compose(c));
        let p = ParsedIriRef {
            scheme_len: match scheme {
                Some(s) => Some(s.len()),
                None => None,
            },
            authority: pa,
            path_len: path.len(),
            query_len: match query {
                Some(x) => Some(x.len()),
                None => None,
            },
            fragment_len: match fragment {
                Some(x) => Some(x.len()),
                None => None,
            },
        };
        let total = data.len();
        proof {
            assert(compose(c).len() == total);
            assert(describes(p, c));
            lemma_compose_inverse(p, c);
        }
        IriRefBuf::checked(data, p)
    }
}

/// Setting a component to the value it already has leaves the reference as it is:
/// each setter yields the composition of the new components, composing a
/// reference's own components gives back its bytes, those bytes parse back to its
/// descriptor (so the setter's re-parse check passes), and the descriptor is the one
/// rebuilt from the components' lengths.
pub proof fn lemma_set_own_value(b: IriRefBuf)
    requires
        b.wf(),
    ensures
        compose(Components { scheme: b.comps().scheme, ..b.comps() }) == b@,
        compose(Components { authority: b.comps().authority, ..b.comps() }) == b@,
        compose(Components { path: b.comps().path, ..b.comps() }) == b@,
        compose(Components { query: b.comps().query, ..b.comps() }) == b@,
        compose(Components { fragment: b.comps().fragment, ..b.comps() }) == b@,
        reparses(b.comps(), b.desc()),
        desc_of(b.comps(), b.desc().authority) == b.desc(),
{
    lemma_offsets_consistent(b.desc(), b@);
    crate::reference::lemma_desc_of(b.desc(), b.comps());
}

/// Once the authority is gone and the path does not start with `//` (the only case in
/// which `set_authority(None)` succeeds), no `//` stands where an authority would
/// begin, so the text cannot be read back as having one.
pub proof fn lemma_no_authority_marker(c: Components)
    requires
        c.authority is None,
        path_fits(false, c.path),
    ensures
        ({
            let s = compose(c);
            let k = scheme_piece(c).len() as int;
            !(k + 2 <= s.len() && s[k] == SLASH && s[k + 1] == SLASH)
        }),
{
    let s = compose(c);
    let a = scheme_piece(c);
    let rest = query_piece(c) + fragment_piece(c);
    assert(s =~= a + (c.path + rest));
    let k = a.len() as int;
    if k + 2 <= s.len() {
        assert(s[k] == (c.path + rest)[0]);
        assert(s[k + 1] == (c.path + rest)[1]);
        if c.path.len() == 0 {
            assert(rest.len() > 0);
            assert(rest[0] == QMARK || rest[0] == HASH);
        } else if c.path.len() == 1 {
            assert(rest.len() > 0);
            assert(rest[0] == QMARK || rest[0] == HASH);
        }
    }
}

/// Owned IRI: an owned reference that always has a non-empty scheme.
pub struct IriBuf {
    inner: IriRefBuf,
}

impl View for IriBuf {
    type V = Seq<u8>;

    closed spec fn view(&self) -> Seq<u8> {
        self.inner@
    }
}

impl IriBuf {
    /// The reference that the IRI is.
    pub closed spec fn reference(&self) -> IriRefBuf {
        self.inner
    }

    pub open spec fn desc(&self) -> ParsedIriRef {
        self.reference().desc()
    }

    pub open spec fn comps(&self) -> Components {
        self.reference().comps()
    }

    /// The reference is well formed and has a non-empty scheme.
    pub open spec fn wf(&self) -> bool {
        &&& self.reference().wf()
        &&& self.desc().scheme_len matches Some(k) && k > 0
        &&& self@ == self.reference()@
    }

    /// The owned reference as an IRI when it has a scheme; itself otherwise.
    pub fn try_from_ref_buf(r: IriRefBuf) -> (res: Result<IriBuf, IriRefBuf>)
        requires
            r.wf(),
        ensures
            match res {
                Ok(b) => r.desc().scheme_len is Some && b.reference() == r && b.wf(),
                Err(x) => r.desc().scheme_len is None && x == r,
            },
    {
        if r.p.scheme_len.is_some() {
            proof {
                lemma_parse_matches(r@);
            }
            Ok(IriBuf { inner: r })
        } else {
            Err(r)
        }
    }

    /// Parses `buffer` as an IRI and copies it.
    pub fn new(buffer: &[u8]) -> (r: Result<IriBuf, Error>)
        ensures
            match r {
                Ok(x) => spec_parse(buffer@) == Ok::<ParsedIriRef, Error>(x.desc()) && x@
                    == buffer@ && x.wf(),
                Err(Error::MissingScheme) => spec_parse(buffer@) matches Ok(p)
                    && p.scheme_len is None,
                Err(e) => spec_parse(buffer@) == Err::<ParsedIriRef, Error>(e),
            },
    {
        proof {
            crate::parsing::lemma_parse_errors(buffer@);
        }
        match IriRefBuf::new(buffer) {
            Ok(x) => match IriBuf::try_from_ref_buf(x) {
                Ok(b) => Ok(b),
                Err(_) => Err(Error::MissingScheme),
            },
            Err(e) => Err(e),
        }
    }

    /// Parses `buffer` as an IRI and keeps it; hands it back with the error on failure.
    pub fn from_vec(buffer: Vec<u8>) -> (r: Result<IriBuf, (Error, Vec<u8>)>)
        ensures
            match r {
                Ok(x) => spec_parse(buffer@) == Ok::<ParsedIriRef, Error>(x.desc()) && x@
                    == buffer@ && x.wf(),
                Err((Error::MissingScheme, b)) => spec_parse(buffer@) matches Ok(p)
                    && p.scheme_len is None && b@ == buffer@,
                Err((e, b)) => spec_parse(buffer@) == Err::<ParsedIriRef, Error>(e) && b@
                    == buffer@,
            },
    {
        proof {
            crate::parsing::lemma_parse_errors(buffer@);
        }
        match IriRefBuf::from_vec(buffer) {
            Ok(x) => match IriBuf::try_from_ref_buf(x) {
                Ok(b) => Ok(b),
                Err(x) => Err((Error::MissingScheme, x.into_bytes())),
            },
            Err(e) => Err(e),
        }
    }

    /// The bytes and the descriptor.
    pub fn into_raw_parts(self) -> (r: (Vec<u8>, ParsedIriRef))
        ensures
            r.0@ == self@,
            r.1 == self.desc(),
    {
        self.inner.into_raw_parts()
    }

    /// The IRI `scheme:`, with an empty path and nothing else.
    pub fn from_scheme(scheme: &[u8]) -> (r: Result<IriBuf, Error>)
        ensures
            r is Ok <==> is_scheme(scheme@) && reparses(
                Components {
                    scheme: Some(scheme@),
                    authority: None,
                    path: Seq::empty(),
                    query: None,
                    fragment: None,
                },
                ParsedIriRef {
                    scheme_len: Some(scheme@.len() as usize),
                    authority: None,
                    path_len: 0,
                    query_len: None,
                    fragment_len: None,
                },
            ),
            r matches Err(e) ==> e == Error::InvalidComponentSyntax,
            r matches Ok(x) ==> x.wf() && x@ == scheme@.push(COLON) && x.comps() == (Components {
                scheme: Some(scheme@),
                authority: None,
                path: Seq::empty(),
                query: None,
                fragment: None,
            }),
    {
        if !check_scheme(scheme) {
            return Err(Error::InvalidComponentSyntax);
        }
        let empty: Vec<u8> = Vec::new();
        let ghost c = Components {
            scheme: Some(scheme@),
            authority: None,
            path: Seq::empty(),
            query: None,
            fragment: None,
        };
        assert(empty@ =~= Seq::<u8>::empty());
        match IriRefBuf::from_components(Some(scheme), None, empty.as_slice(), None, None) {
            Some(inner) => {
                proof {
                    assert(compose(c) =~= scheme@.push(COLON));
                }
                Ok(IriBuf { inner })
            },
            None => Err(Error::InvalidComponentSyntax),
        }
    }

    /// Borrows the IRI as an IRI slice.
    pub fn as_iri(&self) -> (r: Iri<'_>)
        requires
            self.wf(),
        ensures
            r.as_ref_spec()@ == self@,
            r.as_ref_spec().desc() == self.desc(),
            r.wf(),
    {
        Iri::from_iri_ref(self.inner.as_iri_ref())
    }

    /// Borrows the IRI as a reference slice.
    pub fn as_iri_ref(&self) -> (r: IriRef<'_>)
        requires
            self.wf(),
        ensures
            r@ == self@,
            r.desc() == self.desc(),
            r.wf(),
    {
        self.inner.as_iri_ref()
    }

    /// Borrows the owned reference that the IRI is.
    pub fn as_iri_ref_buf(&self) -> (r: &IriRefBuf)
        ensures
            *r == self.reference(),
    {
        &self.inner
    }

    /// The scheme, never empty.
    pub fn scheme(&self) -> (r: &[u8])
        requires
            self.wf(),
        ensures
            self.comps().scheme == Some(r@),
            r@.len() > 0,
    {
        let k = self.inner.p.scheme_len.unwrap();
        vstd::slice::slice_subrange(self.inner.data.as_slice(), 0, k)
    }

    /// Replaces the scheme; see [`IriRefBuf::set_scheme`].
    pub fn set_scheme(&mut self, scheme: &[u8]) -> (r: Result<(), Error>)
        requires
            old(self).wf(),
            old(self)@.len() + scheme@.len() + 1 <= usize::MAX,
        ensures
            final(self).wf(),
            r is Ok <==> is_scheme(scheme@) && reparses(
                Components { scheme: Some(scheme@), ..old(self).comps() },
                ParsedIriRef { scheme_len: Some(scheme@.len() as usize), ..old(self).desc() },
            ),
            r is Err ==> r == Err::<(), Error>(Error::InvalidComponentSyntax) && *final(self)
                == *old(self),
            r is Ok ==> final(self).comps() == (Components {
                scheme: Some(scheme@),
                ..old(self).comps()
            }),
            r is Ok ==> final(self).desc() == (ParsedIriRef {
                scheme_len: Some(scheme@.len() as usize),
                ..old(self).desc()
            }),
            r is Ok ==> final(self)@ == compose(final(self).comps()),
    {
        self.inner.set_scheme(Some(scheme))
    }

    /// Sets or clears the authority; see [`IriRefBuf::set_authority`].
    pub fn set_authority(&mut self, authority: Option<&[u8]>) -> (r: Result<(), Error>)
        requires
            old(self).wf(),
            authority matches Some(x) ==> old(self)@.len() + x@.len() + 2 <= usize::MAX,
        ensures
            final(self).wf(),
            r is Ok <==> match authority {
                Some(x) => authority_ok(x@) && path_fits(true, old(self).comps().path),
                None => path_fits(false, old(self).comps().path),
            } && reparses(
                Components { authority: opt_view(authority), ..old(self).comps() },
                ParsedIriRef {
                    authority: match authority {
                        Some(x) => spec_parse_authority(x@),
                        None => None,
                    },
                    ..old(self).desc()
                },
            ),
            r is Err ==> *final(self) == *old(self),
            r matches Err(e) ==> e == if authority is None && !path_fits(
                false,
                old(self).comps().path,
            ) {
                Error::AmbiguousPathAfterAuthorityRemoval
            } else {
                Error::InvalidComponentSyntax
            },
            r is Ok ==> final(self).comps() == (Components {
                authority: opt_view(authority),
                ..old(self).comps()
            }),
            r is Ok ==> final(self).desc() == (ParsedIriRef {
                authority: match authority {
                    Some(x) => spec_parse_authority(x@),
                    None => None,
                },
                ..old(self).desc()
            }),
            r is Ok ==> final(self)@ == compose(final(self).comps()),
    {
        self.inner.set_authority(authority)
    }

    /// Sets the authority from its parts; see [`IriRefBuf::set_authority_parts`].
    pub fn set_authority_parts(
        &mut self,
        userinfo: Option<&[u8]>,
        host: &[u8],
        port: Option<&[u8]>,
    ) -> (r: Result<(), Error>)
        requires
            old(self).wf(),
            old(self)@.len() + join_authority(opt_view(userinfo), host@, opt_view(port)).len() + 2
                <= usize::MAX,
        ensures
            final(self).wf(),
            ({
                let x = join_authority(opt_view(userinfo), host@, opt_view(port));
                &&& r is Ok <==> authority_ok(x) && path_fits(true, old(self).comps().path)
                    && reparses(
                    Components { authority: Some(x), ..old(self).comps() },
                    ParsedIriRef { authority: spec_parse_authority(x), ..old(self).desc() },
                )
                &&& r is Err ==> r == Err::<(), Error>(Error::InvalidComponentSyntax)
                &&& r is Err ==> *final(self) == *old(self)
                &&& r is Ok ==> final(self).comps() == (Components {
                    authority: Some(x),
                    ..old(self).comps()
                })
                &&& r is Ok ==> final(self).desc() == (ParsedIriRef {
                    authority: spec_parse_authority(x),
                    ..old(self).desc()
                })
                &&& r is Ok ==> final(self)@ == compose(final(self).comps())
            }),
    {
        self.inner.set_authority_parts(userinfo, host, port)
    }

    /// Replaces the path; see [`IriRefBuf::set_path`].
    pub fn set_path(&mut self, path: &[u8]) -> (r: Result<(), Error>)
        requires
            old(self).wf(),
            old(self)@.len() + path@.len() <= usize::MAX,
        ensures
            final(self).wf(),
            r is Ok <==> path_ok(path@) && path_fits(old(self).comps().authority is Some, path@)
                && reparses(
                Components { path: path@, ..old(self).comps() },
                ParsedIriRef { path_len: path@.len() as usize, ..old(self).desc() },
            ),
            r is Err ==> r == Err::<(), Error>(Error::InvalidComponentSyntax) && *final(self)
                == *old(self),
            r is Ok ==> final(self).comps() == (Components { path: path@, ..old(self).comps() }),
            r is Ok ==> final(self).desc() == (ParsedIriRef {
                path_len: path@.len() as usize,
                ..old(self).desc()
            }),
            r is Ok ==> final(self)@ == compose(final(self).comps()),
    {
        self.inner.set_path(path)
    }

    /// Sets or clears the query; see [`IriRefBuf::set_query`].
    pub fn set_query(&mut self, query: Option<&[u8]>) -> (r: Result<(), Error>)
        requires
            old(self).wf(),
            query matches Some(x) ==> old(self)@.len() + x@.len() + 1 <= usize::MAX,
        ensures
            final(self).wf(),
            r is Ok <==> (query matches Some(x) ==> query_ok(x@)) && reparses(
                Components { query: opt_view(query), ..old(self).comps() },
                ParsedIriRef { query_len: opt_slice_len(query), ..old(self).desc() },
            ),
            r is Err ==> r == Err::<(), Error>(Error::InvalidComponentSyntax) && *final(self)
                == *old(self),
            r is Ok ==> final(self).comps() == (Components {
                query: opt_view(query),
                ..old(self).comps()
            }),
            r is Ok ==> final(self).desc() == (ParsedIriRef {
                query_len: opt_slice_len(query),
                ..old(self).desc()
            }),
            r is Ok ==> final(self)@ == compose(final(self).comps()),
    {
        self.inner.set_query(query)
    }

    /// Sets or clears the fragment; see [`IriRefBuf::set_fragment`].
    pub fn set_fragment(&mut self, fragment: Option<&[u8]>) -> (r: Result<(), Error>)
        requires
            old(self).wf(),
            fragment matches Some(x) ==> old(self)@.len() + x@.len() + 1 <= usize::MAX,
        ensures
            final(self).wf(),
            r is Ok <==> (fragment matches Some(x) ==> is_clean(x@)) && reparses(
                Components { fragment: opt_view(fragment), ..old(self).comps() },
                ParsedIriRef { fragment_len: opt_slice_len(fragment), ..old(self).desc() },
            ),
            r is Err ==> r == Err::<(), Error>(Error::InvalidComponentSyntax) && *final(self)
                == *old(self),
            r is Ok ==> final(self).comps() == (Components {
                fragment: opt_view(fragment),
                ..old(self).comps()
            }),
            r is Ok ==> final(self).desc() == (ParsedIriRef {
                fragment_len: opt_slice_len(fragment),
                ..old(self).desc()
            }),
            r is Ok ==> final(self)@ == compose(final(self).comps()),
    {
        self.inner.set_fragment(fragment)
    }
}

} // verus!
