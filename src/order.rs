//! Component-wise ordering and equality of IRI references: scheme and host compare
//! without regard to ASCII case, everything else byte by byte, absent before present.
use vstd::prelude::*;
use crate::parsing::{opt_len, ParsedAuthority};
use crate::buffer::IriBuf;
use crate::reference::{opt_view, Components, IriRef};

verus! {

/// ASCII lower case of a byte.
pub open spec fn lower(b: u8) -> u8 {
    if 65 <= b && b <= 90 {
        (b + 32) as u8
    } else {
        b
    }
}

pub open spec fn fold(s: Seq<u8>) -> Seq<u8> {
    s.map_values(|b: u8| lower(b))
}

pub open spec fn fold_opt(o: Option<Seq<u8>>) -> Option<Seq<u8>> {
    match o {
        Some(s) => Some(fold(s)),
        None => None,
    }
}

/// Lexicographic comparison of `a` and `b` from index `i` on: -1, 0 or 1.
pub open spec fn cmp_bytes_from(a: Seq<u8>, b: Seq<u8>, i: int) -> int
    decreases a.len() + b.len() - 2 * i,
{
    if i < 0 || (i >= a.len() && i >= b.len()) {
        0
    } else if i >= a.len() {
        -1
    } else if i >= b.len() {
        1
    } else if a[i] < b[i] {
        -1
    } else if a[i] > b[i] {
        1
    } else {
        cmp_bytes_from(a, b, i + 1)
    }
}

pub open spec fn cmp_bytes(a: Seq<u8>, b: Seq<u8>) -> int {
    cmp_bytes_from(a, b, 0)
}

/// Absent before present; present values lexicographically.
pub open spec fn cmp_opt(a: Option<Seq<u8>>, b: Option<Seq<u8>>) -> int {
    match (a, b) {
        (None, None) => 0,
        (None, Some(_)) => -1,
        (Some(_), None) => 1,
        (Some(x), Some(y)) => cmp_bytes(x, y),
    }
}

/// Lexicographic comparison of two key lists from index `i` on.
pub open spec fn cmp_keys_from(a: Seq<Option<Seq<u8>>>, b: Seq<Option<Seq<u8>>>, i: int) -> int
    decreases a.len() - i,
{
    if i < 0 || i >= a.len() || i >= b.len() {
        0
    } else if cmp_opt(a[i], b[i]) != 0 {
        cmp_opt(a[i], b[i])
    } else {
        cmp_keys_from(a, b, i + 1)
    }
}

proof fn lemma_cmp_bytes(a: Seq<u8>, b: Seq<u8>, i: int)
    requires
        0 <= i,
        i <= a.len(),
        i <= b.len(),
    ensures
        cmp_bytes_from(a, b, i) == -cmp_bytes_from(b, a, i),
        -1 <= cmp_bytes_from(a, b, i) <= 1,
        cmp_bytes_from(a, b, i) == 0 <==> (a.len() == b.len() && forall|k: int|
            i <= k < a.len() ==> a[k] == b[k]),
    decreases a.len() + b.len() - 2 * i,
{
    if i < a.len() && i < b.len() {
        if a[i] == b[i] {
            lemma_cmp_bytes(a, b, i + 1);
            if a.len() == b.len() && (forall|k: int| i + 1 <= k < a.len() ==> a[k] == b[k]) {
                assert(forall|k: int| i <= k < a.len() ==> a[k] == b[k]);
            }
        } else {
            assert(!(forall|k: int| i <= k < a.len() ==> a[k] == b[k])) by {
                assert(a[i] != b[i]);
            }
        }
    }
}

proof fn lemma_cmp_bytes_trans(a: Seq<u8>, b: Seq<u8>, c: Seq<u8>, i: int)
    requires
        0 <= i,
        cmp_bytes_from(a, b, i) == -1,
        cmp_bytes_from(b, c, i) == -1,
    ensures
        cmp_bytes_from(a, c, i) == -1,
    decreases a.len() + b.len() - 2 * i,
{
    if i < a.len() && i < b.len() && i < c.len() && a[i] == b[i] && b[i] == c[i] {
        lemma_cmp_bytes_trans(a, b, c, i + 1);
    }
}

proof fn lemma_cmp_opt(a: Option<Seq<u8>>, b: Option<Seq<u8>>)
    ensures
        cmp_opt(a, b) == -cmp_opt(b, a),
        -1 <= cmp_opt(a, b) <= 1,
        cmp_opt(a, b) == 0 <==> a == b,
{
    if let (Some(x), Some(y)) = (a, b) {
        lemma_cmp_bytes(x, y, 0);
        if x.len() == y.len() && (forall|k: int| 0 <= k < x.len() ==> x[k] == y[k]) {
            assert(x =~= y);
        }
    }
}

proof fn lemma_cmp_opt_trans(a: Option<Seq<u8>>, b: Option<Seq<u8>>, c: Option<Seq<u8>>)
    requires
        cmp_opt(a, b) == -1,
        cmp_opt(b, c) == -1,
    ensures
        cmp_opt(a, c) == -1,
{
    if let (Some(x), Some(y), Some(z)) = (a, b, c) {
        lemma_cmp_bytes_trans(x, y, z, 0);
    }
}

proof fn lemma_cmp_keys(a: Seq<Option<Seq<u8>>>, b: Seq<Option<Seq<u8>>>, i: int)
    requires
        0 <= i <= a.len(),
        a.len() == b.len(),
    ensures
        cmp_keys_from(a, b, i) == -cmp_keys_from(b, a, i),
        -1 <= cmp_keys_from(a, b, i) <= 1,
        cmp_keys_from(a, b, i) == 0 <==> a.subrange(i, a.len() as int) == b.subrange(
            i,
            b.len() as int,
        ),
    decreases a.len() - i,
{
    if i < a.len() {
        lemma_cmp_opt(a[i], b[i]);
        lemma_cmp_keys(a, b, i + 1);
        if cmp_opt(a[i], b[i]) == 0 && cmp_keys_from(a, b, i + 1) == 0 {
            assert(a.subrange(i, a.len() as int) =~= b.subrange(i, b.len() as int)) by {
                assert(a.subrange(i + 1, a.len() as int) == b.subrange(i + 1, b.len() as int));
                assert forall|k: int| 0 <= k < a.len() - i implies a.subrange(i, a.len() as int)[k]
                    == b.subrange(i, b.len() as int)[k] by {
                    if k > 0 {
                        assert(a.subrange(i + 1, a.len() as int)[k - 1] == b.subrange(
                            i + 1,
                            b.len() as int,
                        )[k - 1]);
                    }
                }
            }
        }
        if a.subrange(i, a.len() as int) == b.subrange(i, b.len() as int) {
            assert(a[i] == a.subrange(i, a.len() as int)[0]);
            assert(b[i] == b.subrange(i, b.len() as int)[0]);
            assert(a.subrange(i + 1, a.len() as int) =~= a.subrange(i, a.len() as int).subrange(
                1,
                a.len() - i,
            ));
            assert(b.subrange(i + 1, b.len() as int) =~= b.subrange(i, b.len() as int).subrange(
                1,
                b.len() - i,
            ));
        }
    } else {
        assert(a.subrange(i, a.len() as int) =~= b.subrange(i, b.len() as int));
    }
}

proof fn lemma_cmp_keys_trans(
    a: Seq<Option<Seq<u8>>>,
    b: Seq<Option<Seq<u8>>>,
    c: Seq<Option<Seq<u8>>>,
    i: int,
)
    requires
        0 <= i <= a.len(),
        a.len() == b.len(),
        b.len() == c.len(),
        cmp_keys_from(a, b, i) == -1,
        cmp_keys_from(b, c, i) == -1,
    ensures
        cmp_keys_from(a, c, i) == -1,
    decreases a.len() - i,
{
    if i < a.len() {
        lemma_cmp_opt(a[i], b[i]);
        lemma_cmp_opt(b[i], c[i]);
        lemma_cmp_opt(a[i], c[i]);
        if cmp_opt(a[i], b[i]) == 0 && cmp_opt(b[i], c[i]) == 0 {
            lemma_cmp_keys_trans(a, b, c, i + 1);
        } else if cmp_opt(a[i], b[i]) == -1 && cmp_opt(b[i], c[i]) == -1 {
            lemma_cmp_opt_trans(a[i], b[i], c[i]);
        }
    }
}

/// The user-info of an authority `a` that `pa` describes.
pub open spec fn userinfo_of(a: Seq<u8>, pa: ParsedAuthority) -> Option<Seq<u8>> {
    match pa.userinfo_len {
        Some(u) => Some(a.subrange(0, u as int)),
        None => None,
    }
}

/// The host of an authority `a` that `pa` describes.
pub open spec fn host_of(a: Seq<u8>, pa: ParsedAuthority) -> Seq<u8> {
    let h0 = opt_len(pa.userinfo_len);
    a.subrange(h0, h0 + pa.host_len)
}

/// The port of an authority `a` that `pa` describes.
pub open spec fn port_of(a: Seq<u8>, pa: ParsedAuthority) -> Option<Seq<u8>> {
    match pa.port_len {
        Some(n) => {
            let p0 = opt_len(pa.userinfo_len) + pa.host_len + 1;
            Some(a.subrange(p0, p0 + n))
        },
        None => None,
    }
}

/// What two references are compared on, in order: scheme (case folded), whether
/// there is an authority, user-info, host (case folded), port, path, query, fragment.
pub open spec fn order_key(c: Components, d: Option<ParsedAuthority>) -> Seq<Option<Seq<u8>>> {
    match (c.authority, d) {
        (Some(a), Some(pa)) => seq![
            fold_opt(c.scheme),
            Some(Seq::<u8>::empty()),
            userinfo_of(a, pa),
            Some(fold(host_of(a, pa))),
            port_of(a, pa),
            Some(c.path),
            c.query,
            c.fragment,
        ],
        _ => seq![fold_opt(c.scheme), None, None, None, None, Some(c.path), c.query, c.fragment],
    }
}

/// The key of a reference.
pub open spec fn key_of(x: IriRef) -> Seq<Option<Seq<u8>>> {
    order_key(x.comps(), x.desc().authority)
}

/// The comparison of two references: -1, 0 or 1.
pub open spec fn spec_compare(x: IriRef, y: IriRef) -> int {
    cmp_keys_from(key_of(x), key_of(y), 0)
}

/// Two references are equal when their keys are: components equal, scheme and host
/// without regard to ASCII case.
pub open spec fn spec_equal(x: IriRef, y: IriRef) -> bool {
    key_of(x) == key_of(y)
}

pub open spec fn to_ordering(c: int) -> core::cmp::Ordering {
    if c < 0 {
        core::cmp::Ordering::Less
    } else if c == 0 {
        core::cmp::Ordering::Equal
    } else {
        core::cmp::Ordering::Greater
    }
}

/// Comparison of references is a total order that agrees with their equality:
/// reflexive, antisymmetric, transitive, and equal exactly when equal.
pub proof fn lemma_total_order(x: IriRef, y: IriRef, z: IriRef)
    ensures
        spec_compare(x, x) == 0,
        spec_compare(x, y) == -spec_compare(y, x),
        spec_compare(x, y) == 0 <==> spec_equal(x, y),
        spec_compare(x, y) <= 0 && spec_compare(y, x) <= 0 ==> spec_equal(x, y),
        spec_compare(x, y) <= 0 && spec_compare(y, z) <= 0 ==> spec_compare(x, z) <= 0,
{
    let (kx, ky, kz) = (key_of(x), key_of(y), key_of(z));
    assert(kx.len() == 8 && ky.len() == 8 && kz.len() == 8);
    lemma_cmp_keys(kx, kx, 0);
    lemma_cmp_keys(kx, ky, 0);
    lemma_cmp_keys(ky, kz, 0);
    lemma_cmp_keys(kx, kz, 0);
    assert(kx.subrange(0, 8) =~= kx);
    assert(ky.subrange(0, 8) =~= ky);
    assert(kz.subrange(0, 8) =~= kz);
    if spec_compare(x, y) == -1 && spec_compare(y, z) == -1 {
        lemma_cmp_keys_trans(kx, ky, kz, 0);
    }
}

fn lower_byte(b: u8) -> (r: u8)
    ensures
        r == lower(b),
{
    if 65 <= b && b <= 90 {
        b + 32
    } else {
        b
    }
}

/// Compares two byte strings, case folded or not.
fn cmp_slices(a: &[u8], b: &[u8], folded: bool) -> (r: i8)
    ensures
        r == if folded {
            cmp_bytes(fold(a@), fold(b@))
        } else {
            cmp_bytes(a@, b@)
        },
{
    let ghost fa = if folded {
        fold(a@)
    } else {
        a@
    };
    let ghost fb = if folded {
        fold(b@)
    } else {
        b@
    };
    assert(forall|k: int| 0 <= k < a@.len() ==> fa[k] == if folded {
        lower(a@[k])
    } else {
        a@[k]
    });
    assert(forall|k: int| 0 <= k < b@.len() ==> fb[k] == if folded {
        lower(b@[k])
    } else {
        b@[k]
    });
    assert(fa == if folded {
        fold(a@)
    } else {
        a@
    } && fb == if folded {
        fold(b@)
    } else {
        b@
    });
    let mut i: usize = 0;
    while i < a.len() && i < b.len()
        invariant
            i <= a@.len(),
            i <= b@.len(),
            fa.len() == a@.len(),
            fb.len() == b@.len(),
            forall|k: int| 0 <= k < a@.len() ==> fa[k] == if folded {
                lower(a@[k])
            } else {
                a@[k]
            },
            forall|k: int| 0 <= k < b@.len() ==> fb[k] == if folded {
                lower(b@[k])
            } else {
                b@[k]
            },
            cmp_bytes_from(fa, fb, i as int) == cmp_bytes_from(fa, fb, 0),
            fa == if folded {
                fold(a@)
            } else {
                a@
            },
            fb == if folded {
                fold(b@)
            } else {
                b@
            },
        decreases a@.len() - i,
    {
        let x = if folded {
            lower_byte(a[i])
        } else {
            a[i]
        };
        let y = if folded {
            lower_byte(b[i])
        } else {
            b[i]
        };
        assert(fa[i as int] == x && fb[i as int] == y);
        if x < y {
            assert(cmp_bytes_from(fa, fb, i as int) == -1);
            assert(cmp_bytes(fa, fb) == -1);
            return -1;
        }
        if x > y {
            assert(cmp_bytes_from(fa, fb, i as int) == 1);
            assert(cmp_bytes(fa, fb) == 1);
            return 1;
        }
        i = i + 1;
    }
    if i < a.len() {
        1
    } else if i < b.len() {
        -1
    } else {
        0
    }
}

fn cmp_opt_slices(a: Option<&[u8]>, b: Option<&[u8]>, folded: bool) -> (r: i8)
    ensures
        r == cmp_opt(
            if folded {
                fold_opt(crate::reference::opt_view(a))
            } else {
                crate::reference::opt_view(a)
            },
            if folded {
                fold_opt(crate::reference::opt_view(b))
            } else {
                crate::reference::opt_view(b)
            },
        ),
{
    match (a, b) {
        (None, None) => 0,
        (None, Some(_)) => -1,
        (Some(_), None) => 1,
        (Some(x), Some(y)) => cmp_slices(x, y, folded),
    }
}

/// User-info, host and port of a reference, when it has an authority.
fn authority_parts<'a>(x: &IriRef<'a>) -> (r: (Option<&'a [u8]>, Option<&'a [u8]>, Option<&'a [u8]>))
    requires
        x.wf(),
    ensures
        match (x.comps().authority, x.desc().authority) {
            (Some(a), Some(pa)) => crate::reference::opt_view(r.0) == userinfo_of(a, pa)
                && crate::reference::opt_view(r.1) == Some(host_of(a, pa))
                && crate::reference::opt_view(r.2) == port_of(a, pa),
            _ => r.0 is None && r.1 is None && r.2 is None,
        },
{
    match (x.authority(), x.parsing_data().authority) {
        (Some(a), Some(pa)) => {
            let ui = match pa.userinfo_len {
                Some(u) => Some(vstd::slice::slice_subrange(a, 0, u)),
                None => None,
            };
            let h0: usize = match pa.userinfo_len {
                Some(u) => u + 1,
                None => 0,
            };
            let host = vstd::slice::slice_subrange(a, h0, h0 + pa.host_len);
            let port = match pa.port_len {
                Some(n) => {
                    let p0 = h0 + pa.host_len + 1;
                    Some(vstd::slice::slice_subrange(a, p0, p0 + n))
                },
                None => None,
            };
            (ui, Some(host), port)
        },
        _ => (None, None, None),
    }
}

impl<'a> IriRef<'a> {
    /// Compares component by component: scheme, authority (user-info, host, port),
    /// path, query, fragment. Scheme and host compare without regard to ASCII case;
    /// an absent component comes before a present one.
    pub fn cmp(&self, other: &IriRef) -> (r: core::cmp::Ordering)
        requires
            self.wf(),
            other.wf(),
        ensures
            r == to_ordering(spec_compare(*self, *other)),
    {
        let (u1, h1, p1) = authority_parts(self);
        let (u2, h2, p2) = authority_parts(other);
        let a1 = self.authority().is_some();
        let a2 = other.authority().is_some();
        let c0 = cmp_opt_slices(self.scheme(), other.scheme(), true);
        let c1: i8 = if a1 == a2 {
            0
        } else if !a1 {
            -1
        } else {
            1
        };
        let c2 = cmp_opt_slices(u1, u2, false);
        let c3 = cmp_opt_slices(h1, h2, true);
        let c4 = cmp_opt_slices(p1, p2, false);
        let c5 = cmp_slices(self.path(), other.path(), false);
        let c6 = cmp_opt_slices(self.query(), other.query(), false);
        let c7 = cmp_opt_slices(self.fragment(), other.fragment(), false);
        let ghost kx = key_of(*self);
        let ghost ky = key_of(*other);
        proof {
            assert(cmp_opt(kx[0], ky[0]) == c0);
            assert(cmp_opt(kx[1], ky[1]) == c1);
            assert(cmp_opt(kx[2], ky[2]) == c2);
            assert(cmp_opt(kx[3], ky[3]) == c3);
            assert(cmp_opt(kx[4], ky[4]) == c4);
            assert(cmp_opt(kx[5], ky[5]) == c5);
            assert(cmp_opt(kx[6], ky[6]) == c6);
            assert(cmp_opt(kx[7], ky[7]) == c7);
            reveal_with_fuel(cmp_keys_from, 9);
        }
        let c = if c0 != 0 {
            c0
        } else if c1 != 0 {
            c1
        } else if c2 != 0 {
            c2
        } else if c3 != 0 {
            c3
        } else if c4 != 0 {
            c4
        } else if c5 != 0 {
            c5
        } else if c6 != 0 {
            c6
        } else {
            c7
        };
        if c < 0 {
            core::cmp::Ordering::Less
        } else if c == 0 {
            core::cmp::Ordering::Equal
        } else {
            core::cmp::Ordering::Greater
        }
    }

    /// Component-wise equality, scheme and host without regard to ASCII case.
    pub fn eq(&self, other: &IriRef) -> (r: bool)
        requires
            self.wf(),
            other.wf(),
        ensures
            r == spec_equal(*self, *other),
    {
        proof {
            lemma_total_order(*self, *other, *other);
        }
        match self.cmp(other) {
            core::cmp::Ordering::Equal => true,
            _ => false,
        }
    }
}

impl<'a> IriRef<'a> {
    /// The user-info of the authority, before `@`.
    pub fn userinfo(&self) -> (r: Option<&'a [u8]>)
        requires
            self.wf(),
        ensures
            match (self.comps().authority, self.desc().authority) {
                (Some(a), Some(pa)) => opt_view(r) == userinfo_of(a, pa),
                _ => r is None,
            },
    {
        authority_parts(self).0
    }

    /// The host of the authority; a bracketed literal keeps its brackets.
    pub fn host(&self) -> (r: Option<&'a [u8]>)
        requires
            self.wf(),
        ensures
            match (self.comps().authority, self.desc().authority) {
                (Some(a), Some(pa)) => opt_view(r) == Some(host_of(a, pa)),
                _ => r is None,
            },
    {
        authority_parts(self).1
    }

    /// The port of the authority, after `:`.
    pub fn port(&self) -> (r: Option<&'a [u8]>)
        requires
            self.wf(),
        ensures
            match (self.comps().authority, self.desc().authority) {
                (Some(a), Some(pa)) => opt_view(r) == port_of(a, pa),
                _ => r is None,
            },
    {
        authority_parts(self).2
    }
}

impl IriBuf {
    /// Compares as the references do; see [`IriRef::cmp`].
    pub fn cmp(&self, other: &IriBuf) -> (r: core::cmp::Ordering)
        requires
            self.wf(),
            other.wf(),
        ensures
            r == to_ordering(
                cmp_keys_from(
                    order_key(self.comps(), self.desc().authority),
                    order_key(other.comps(), other.desc().authority),
                    0,
                ),
            ),
    {
        self.as_iri_ref().cmp(&other.as_iri_ref())
    }

    /// Equality as the references have it; see [`IriRef::eq`].
    pub fn eq(&self, other: &IriBuf) -> (r: bool)
        requires
            self.wf(),
            other.wf(),
        ensures
            r == (order_key(self.comps(), self.desc().authority) == order_key(
                other.comps(),
                other.desc().authority,
            )),
    {
        self.as_iri_ref().eq(&other.as_iri_ref())
    }
}

} // verus!
