//! Reference resolution (RFC 3986, section 5): dot-segment removal and the
//! merge of a relative reference with a base IRI.
use vstd::prelude::*;
use crate::buffer::{reparses, IriBuf, IriRefBuf};
use crate::parsing::{find3, first_of, lemma_first_of, DOT, SLASH};
use crate::reference::{
    compose, desc_of, lemma_desc_of, lemma_offsets_consistent, Components, Iri, IriRef,
};
use crate::Error;

verus! {

/// Length of the directory part of a path: up to and including its last `/`.
pub open spec fn dir_len(s: Seq<u8>) -> int
    decreases s.len(),
{
    if s.len() == 0 {
        0
    } else if s.last() == SLASH {
        s.len() as int
    } else {
        dir_len(s.drop_last())
    }
}

/// The output buffer without its last segment and the `/` before it.
pub open spec fn pop_segment(s: Seq<u8>) -> Seq<u8> {
    if dir_len(s) > 0 {
        s.subrange(0, dir_len(s) - 1)
    } else {
        Seq::empty()
    }
}

/// Length of the first segment of the input buffer, with its leading `/` if it has
/// one; at least one byte.
pub open spec fn first_segment_len(s: Seq<u8>) -> int {
    let e = if s.len() > 0 && s[0] == SLASH {
        first_of(s, 1, SLASH, SLASH, SLASH)
    } else {
        first_of(s, 0, SLASH, SLASH, SLASH)
    };
    if e < 1 {
        1
    } else {
        e
    }
}

/// The state machine of RFC 3986, 5.2.4: `input` is what is left to read, `output`
/// what has been written so far.
pub open spec fn dot_segments(input: Seq<u8>, output: Seq<u8>) -> Seq<u8>
    decreases input.len(),
{
    let s = input;
    if s.len() == 0 {
        output
    } else if s.len() >= 3 && s[0] == DOT && s[1] == DOT && s[2] == SLASH {
        dot_segments(s.subrange(3, s.len() as int), output)
    } else if s.len() >= 2 && s[0] == DOT && s[1] == SLASH {
        dot_segments(s.subrange(2, s.len() as int), output)
    } else if s.len() >= 3 && s[0] == SLASH && s[1] == DOT && s[2] == SLASH {
        dot_segments(s.subrange(2, s.len() as int), output)
    } else if s.len() == 2 && s[0] == SLASH && s[1] == DOT {
        dot_segments(seq![SLASH], output)
    } else if s.len() >= 4 && s[0] == SLASH && s[1] == DOT && s[2] == DOT && s[3] == SLASH {
        dot_segments(s.subrange(3, s.len() as int), pop_segment(output))
    } else if s.len() == 3 && s[0] == SLASH && s[1] == DOT && s[2] == DOT {
        dot_segments(seq![SLASH], pop_segment(output))
    } else if (s.len() == 1 && s[0] == DOT) || (s.len() == 2 && s[0] == DOT && s[1] == DOT) {
        output
    } else {
        let n = first_segment_len(s);
        if n <= s.len() {
            dot_segments(s.subrange(n, s.len() as int), output + s.subrange(0, n))
        } else {
            output + s
        }
    }
}

/// `remove_dot_segments` of RFC 3986.
pub open spec fn spec_remove_dot_segments(path: Seq<u8>) -> Seq<u8> {
    dot_segments(path, Seq::empty())
}

proof fn lemma_first_of_at(s: Seq<u8>, from: int, j: int, x: u8)
    requires
        0 <= from <= j <= s.len(),
        forall|k: int| from <= k < j ==> s[k] != x,
        j == s.len() || s[j] == x,
    ensures
        first_of(s, from, x, x, x) == j,
    decreases j - from,
{
    if from < j {
        lemma_first_of_at(s, from + 1, j, x);
    }
}

proof fn lemma_dir_len(s: Seq<u8>)
    ensures
        0 <= dir_len(s) <= s.len(),
        dir_len(s) > 0 ==> s[dir_len(s) - 1] == SLASH,
    decreases s.len(),
{
    if s.len() > 0 && s.last() != SLASH {
        lemma_dir_len(s.drop_last());
    }
}

/// Removes the last segment of `out` and the `/` before it.
fn pop_last_segment(out: &mut Vec<u8>)
    ensures
        final(out)@ == pop_segment(old(out)@),
{
    while out.len() > 0 && out[out.len() - 1] != SLASH
        invariant
            pop_segment(out@) == pop_segment(old(out)@),
        decreases out@.len(),
    {
        let ghost before = out@;
        out.pop();
        proof {
            assert(out@ =~= before.drop_last());
            lemma_dir_len(out@);
            if dir_len(out@) > 0 {
                assert(before.subrange(0, dir_len(out@) - 1) =~= out@.subrange(
                    0,
                    dir_len(out@) - 1,
                ));
            }
        }
    }
    if out.len() > 0 {
        let ghost before = out@;
        out.pop();
        proof {
            lemma_dir_len(before);
        }
        assert(out@ =~= before.subrange(0, dir_len(before) - 1));
    }
}

/// Removes `.` and `..` segments from a path, as RFC 3986, 5.2.4 describes.
pub fn remove_dot_segments(path: &[u8]) -> (r: Vec<u8>)
    ensures
        r@ == spec_remove_dot_segments(path@),
{
    let n = path.len();
    let mut out: Vec<u8> = Vec::new();
    let mut i: usize = 0;
    assert(path@.subrange(0, n as int) =~= path@);
    while i < n
        invariant
            n == path@.len(),
            i <= n,
            dot_segments(path@.subrange(i as int, n as int), out@) == spec_remove_dot_segments(
                path@,
            ),
        decreases n - i,
    {
        let ghost s = path@.subrange(i as int, n as int);
        let rest = n - i;
        if rest >= 3 && path[i] == DOT && path[i + 1] == DOT && path[i + 2] == SLASH {
            assert(s.subrange(3, s.len() as int) =~= path@.subrange(i + 3, n as int));
            i = i + 3;
        } else if rest >= 2 && path[i] == DOT && path[i + 1] == SLASH {
            assert(s.subrange(2, s.len() as int) =~= path@.subrange(i + 2, n as int));
            i = i + 2;
        } else if rest >= 3 && path[i] == SLASH && path[i + 1] == DOT && path[i + 2] == SLASH {
            assert(s.subrange(2, s.len() as int) =~= path@.subrange(i + 2, n as int));
            i = i + 2;
        } else if rest == 2 && path[i] == SLASH && path[i + 1] == DOT {
            let ghost o = out@;
            out.push(SLASH);
            proof {
                let t: Seq<u8> = seq![SLASH];
                assert(first_segment_len(t) == 1);
                assert(t.subrange(1, 1) =~= Seq::<u8>::empty());
                assert(t.subrange(0, 1) =~= t);
                assert(dot_segments(t, o) == dot_segments(Seq::<u8>::empty(), o + t));
                assert(path@.subrange(n as int, n as int) =~= Seq::<u8>::empty());
            }
            i = n;
        } else if rest >= 4 && path[i] == SLASH && path[i + 1] == DOT && path[i + 2] == DOT
            && path[i + 3] == SLASH {
            assert(s.subrange(3, s.len() as int) =~= path@.subrange(i + 3, n as int));
            pop_last_segment(&mut out);
            i = i + 3;
        } else if rest == 3 && path[i] == SLASH && path[i + 1] == DOT && path[i + 2] == DOT {
            pop_last_segment(&mut out);
            let ghost o = out@;
            out.push(SLASH);
            proof {
                let t: Seq<u8> = seq![SLASH];
                assert(first_segment_len(t) == 1);
                assert(t.subrange(1, 1) =~= Seq::<u8>::empty());
                assert(t.subrange(0, 1) =~= t);
                assert(dot_segments(t, o) == dot_segments(Seq::<u8>::empty(), o + t));
                assert(path@.subrange(n as int, n as int) =~= Seq::<u8>::empty());
            }
            i = n;
        } else if (rest == 1 && path[i] == DOT) || (rest == 2 && path[i] == DOT && path[i + 1]
            == DOT) {
            assert(path@.subrange(n as int, n as int) =~= Seq::<u8>::empty());
            i = n;
        } else {
            let from: usize = if path[i] == SLASH {
                i + 1
            } else {
                i
            };
            let j = find3(path, from, SLASH, SLASH, SLASH);
            proof {
                lemma_first_of(path@, from as int, SLASH, SLASH, SLASH);
                lemma_first_of_at(s, (from - i) as int, (j - i) as int, SLASH);
            }
            let end: usize = if j > i {
                j
            } else {
                i + 1
            };
            assert(first_segment_len(s) == end - i);
            let ghost o = out@;
            let mut k = i;
            while k < end
                invariant
                    i <= k <= end <= n,
                    n == path@.len(),
                    out@ == o + path@.subrange(i as int, k as int),
                decreases end - k,
            {
                out.push(path[k]);
                k = k + 1;
                assert(out@ =~= o + path@.subrange(i as int, k as int));
            }
            assert(s.subrange(0, end - i) =~= path@.subrange(i as int, end as int));
            assert(s.subrange(end - i, s.len() as int) =~= path@.subrange(end as int, n as int));
            i = end;
        }
    }
    assert(path@.subrange(n as int, n as int) =~= Seq::<u8>::empty());
    out
}

/// RFC 3986, 5.2.3: the reference path appended to the base's directory.
pub open spec fn spec_merge(b: Components, rp: Seq<u8>) -> Seq<u8> {
    if b.authority is Some && b.path.len() == 0 {
        seq![SLASH] + rp
    } else {
        b.path.subrange(0, dir_len(b.path)) + rp
    }
}

/// RFC 3986, 5.2.2: the components of reference `r` resolved against base `b`.
/// A reference with a scheme of its own is already absolute and stays as it is.
pub open spec fn spec_resolve(r: Components, b: Components) -> Components {
    if r.scheme is Some {
        r
    } else if r.authority is Some {
        Components { scheme: b.scheme, path: spec_remove_dot_segments(r.path), ..r }
    } else if r.path.len() == 0 {
        Components {
            scheme: b.scheme,
            authority: b.authority,
            path: b.path,
            query: if r.query is Some {
                r.query
            } else {
                b.query
            },
            fragment: r.fragment,
        }
    } else if r.path[0] == SLASH {
        Components {
            scheme: b.scheme,
            authority: b.authority,
            path: spec_remove_dot_segments(r.path),
            query: r.query,
            fragment: r.fragment,
        }
    } else {
        Components {
            scheme: b.scheme,
            authority: b.authority,
            path: spec_remove_dot_segments(spec_merge(b, r.path)),
            query: r.query,
            fragment: r.fragment,
        }
    }
}

/// A reference that has a scheme resolves to itself, whatever the base.
pub proof fn lemma_resolve_absolute(r: Components, b: Components)
    requires
        r.scheme is Some,
    ensures
        spec_resolve(r, b) == r,
{
}

/// The authority of `x` with its descriptor.
fn authority_parts<'a>(x: &IriRef<'a>) -> (r: Option<(&'a [u8], crate::parsing::ParsedAuthority)>)
    requires
        x.wf(),
    ensures
        match r {
            Some((a, pa)) => x.comps().authority == Some(a@) && pa.spec_len() == a@.len()
                && x.desc().authority == Some(pa),
            None => x.comps().authority is None && x.desc().authority is None,
        },
{
    match x.authority() {
        Some(a) => Some((a, x.parsing_data().authority.unwrap())),
        None => None,
    }
}

/// The base's directory followed by the reference path.
fn merge(base: &IriRef, rp: &[u8]) -> (r: Vec<u8>)
    requires
        base.wf(),
    ensures
        r@ == spec_merge(base.comps(), rp@),
{
    let bp = base.path();
    let mut out: Vec<u8> = Vec::new();
    if base.authority().is_some() && bp.len() == 0 {
        out.push(SLASH);
    } else {
        let mut d = bp.len();
        assert(bp@.subrange(0, d as int) =~= bp@);
        while d > 0 && bp[d - 1] != SLASH
            invariant
                d <= bp@.len(),
                dir_len(bp@.subrange(0, d as int)) == dir_len(bp@),
            decreases d,
        {
            assert(bp@.subrange(0, d as int).drop_last() =~= bp@.subrange(0, d - 1));
            d = d - 1;
        }
        proof {
            if d == 0 {
                assert(bp@.subrange(0, 0) =~= Seq::<u8>::empty());
            }
        }
        let mut k: usize = 0;
        while k < d
            invariant
                k <= d <= bp@.len(),
                out@ == bp@.subrange(0, k as int),
            decreases d - k,
        {
            out.push(bp[k]);
            k = k + 1;
            assert(out@ =~= bp@.subrange(0, k as int));
        }
    }
    let mut k: usize = 0;
    let ghost o = out@;
    while k < rp.len()
        invariant
            k <= rp@.len(),
            out@ == o + rp@.subrange(0, k as int),
        decreases rp@.len() - k,
    {
        out.push(rp[k]);
        k = k + 1;
        assert(out@ =~= o + rp@.subrange(0, k as int));
    }
    assert(rp@.subrange(0, rp@.len() as int) =~= rp@);
    out
}

/// Which authority split the resolution of `r` against `b` keeps: the reference's
/// when the authority comes from it, the base's otherwise.
pub open spec fn resolved_authority(r: IriRef, b: Iri) -> Option<crate::parsing::ParsedAuthority> {
    if r.desc().scheme_len is Some || r.desc().authority is Some {
        r.desc().authority
    } else {
        b.as_ref_spec().desc().authority
    }
}

impl<'a> IriRef<'a> {
    /// Resolves the reference against the base IRI `base`, giving a new IRI. Fails with
    /// `InvalidPath` when the resolved text would be read back as other components
    /// (a path starting with `//` where there is no authority, say).
    pub fn resolved(&self, base: &Iri) -> (r: Result<IriBuf, Error>)
        requires
            self.wf(),
            base.wf(),
        ensures
            ({
                let c = spec_resolve(self.comps(), base.as_ref_spec().comps());
                let d = desc_of(c, resolved_authority(*self, *base));
                &&& r is Ok <==> reparses(c, d)
                &&& r matches Ok(b) ==> b.wf() && b.comps() == c && b.desc() == d && b@
                    == compose(c)
                &&& r matches Err(e) ==> e == Error::InvalidPath
            }),
            self.desc().scheme_len is Some ==> (r matches Ok(b) && b@ == self@ && b.desc()
                == self.desc()),
    {
        let b = base.as_iri_ref();
        proof {
            lemma_offsets_consistent(self.desc(), self@);
            lemma_offsets_consistent(b.desc(), b@);
            lemma_desc_of(self.desc(), self.comps());
        }
        let t = if self.scheme().is_some() {
            IriRefBuf::from_components(
                self.scheme(),
                authority_parts(self),
                self.path(),
                self.query(),
                self.fragment(),
            )
        } else if self.authority().is_some() {
            let path = remove_dot_segments(self.path());
            IriRefBuf::from_components(
                b.scheme(),
                authority_parts(self),
                path.as_slice(),
                self.query(),
                self.fragment(),
            )
        } else if self.path().len() == 0 {
            let query = if self.query().is_some() {
                self.query()
            } else {
                b.query()
            };
            IriRefBuf::from_components(
                b.scheme(),
                authority_parts(&b),
                b.path(),
                query,
                self.fragment(),
            )
        } else if self.path()[0] == SLASH {
            let path = remove_dot_segments(self.path());
            IriRefBuf::from_components(
                b.scheme(),
                authority_parts(&b),
                path.as_slice(),
                self.query(),
                self.fragment(),
            )
        } else {
            let merged = merge(&b, self.path());
            let path = remove_dot_segments(merged.as_slice());
            IriRefBuf::from_components(
                b.scheme(),
                authority_parts(&b),
                path.as_slice(),
                self.query(),
                self.fragment(),
            )
        };
        match t {
            Some(x) => match IriBuf::try_from_ref_buf(x) {
                Ok(i) => Ok(i),
                Err(_) => Err(Error::InvalidPath),
            },
            None => Err(Error::InvalidPath),
        }
    }
}

} // verus!
