//! The grammar: component descriptors, the spec of how bytes decompose, and the parser.
use vstd::prelude::*;
use crate::Error;

verus! {

pub const DQUOTE: u8 = 34;
pub const HASH: u8 = 35;
pub const PLUS: u8 = 43;
pub const MINUS: u8 = 45;
pub const DOT: u8 = 46;
pub const SLASH: u8 = 47;
pub const COLON: u8 = 58;
pub const LT: u8 = 60;
pub const GT: u8 = 62;
pub const QMARK: u8 = 63;
pub const AT: u8 = 64;
pub const LBRACKET: u8 = 91;
pub const BACKSLASH: u8 = 92;
pub const RBRACKET: u8 = 93;
pub const CARET: u8 = 94;
pub const BACKTICK: u8 = 96;
pub const LBRACE: u8 = 123;
pub const PIPE: u8 = 124;
pub const RBRACE: u8 = 125;

/// Lengths of the sub-components of an authority, relative to the authority's start.
#[derive(Clone, Copy, Debug, PartialEq, Eq, Structural)]
pub struct ParsedAuthority {
    pub userinfo_len: Option<usize>,
    pub host_len: usize,
    pub port_len: Option<usize>,
}

/// Lengths of the components of an IRI reference. Offsets are derived from them.
#[derive(Clone, Copy, Debug, PartialEq, Eq, Structural)]
pub struct ParsedIriRef {
    pub scheme_len: Option<usize>,
    pub authority: Option<ParsedAuthority>,
    pub path_len: usize,
    pub query_len: Option<usize>,
    pub fragment_len: Option<usize>,
}

/// Length of an optional component together with its one-byte delimiter.
pub open spec fn opt_len(o: Option<usize>) -> int {
    match o {
        Some(n) => n + 1,
        None => 0,
    }
}

impl ParsedAuthority {
    /// Total length of `userinfo@host:port`.
    pub open spec fn spec_len(&self) -> int {
        opt_len(self.userinfo_len) + self.host_len + opt_len(self.port_len)
    }

    pub fn len(&self) -> (r: usize)
        requires
            self.spec_len() <= usize::MAX,
        ensures
            r == self.spec_len(),
    {
        let mut n: usize = self.host_len;
        if let Some(u) = self.userinfo_len {
            n = n + u + 1;
        }
        if let Some(p) = self.port_len {
            n = n + p + 1;
        }
        n
    }
}

impl ParsedIriRef {
    /// Offset of the authority (just after `scheme://`).
    pub open spec fn authority_offset(&self) -> int {
        opt_len(self.scheme_len) + 2
    }

    /// Offset of the path.
    pub open spec fn path_offset(&self) -> int {
        opt_len(self.scheme_len) + match self.authority {
            Some(a) => 2 + a.spec_len(),
            None => 0,
        }
    }

    /// Offset of the query (just after `?`).
    pub open spec fn query_offset(&self) -> int {
        self.path_offset() + self.path_len + 1
    }

    /// Offset of the fragment (just after `#`).
    pub open spec fn fragment_offset(&self) -> int {
        self.path_offset() + self.path_len + opt_len(self.query_len) + 1
    }

    /// Length of the whole reference that the descriptor describes.
    pub open spec fn spec_len(&self) -> int {
        self.path_offset() + self.path_len + opt_len(self.query_len) + opt_len(self.fragment_len)
    }

    /// The descriptor is that of the reference `s`: lengths add up and delimiters stand
    /// where the lengths place them.
    pub open spec fn matches(&self, s: Seq<u8>) -> bool {
        &&& self.spec_len() == s.len()
        &&& s.len() <= usize::MAX
        &&& (self.scheme_len matches Some(k) ==> s[k as int] == COLON)
        &&& (self.authority is Some ==> s[self.authority_offset() - 2] == SLASH && s[
            self.authority_offset() - 1] == SLASH)
        &&& (self.query_len is Some ==> s[self.query_offset() - 1] == QMARK)
        &&& (self.fragment_len is Some ==> s[self.fragment_offset() - 1] == HASH)
    }

    pub fn authority_offset_exec(&self) -> (r: usize)
        requires
            self.authority_offset() <= usize::MAX,
        ensures
            r == self.authority_offset(),
    {
        match self.scheme_len {
            Some(k) => k + 3,
            None => 2,
        }
    }

    pub fn path_offset_exec(&self) -> (r: usize)
        requires
            self.spec_len() <= usize::MAX,
        ensures
            r == self.path_offset(),
    {
        let mut n: usize = match self.scheme_len {
            Some(k) => k + 1,
            None => 0,
        };
        if let Some(a) = self.authority {
            n = n + 2 + a.len();
        }
        n
    }

    pub fn query_offset_exec(&self) -> (r: usize)
        requires
            self.spec_len() <= usize::MAX,
            self.query_len is Some,
        ensures
            r == self.query_offset(),
    {
        self.path_offset_exec() + self.path_len + 1
    }

    pub fn fragment_offset_exec(&self) -> (r: usize)
        requires
            self.spec_len() <= usize::MAX,
            self.fragment_len is Some,
        ensures
            r == self.fragment_offset(),
    {
        let n = self.path_offset_exec() + self.path_len;
        match self.query_len {
            Some(q) => n + q + 2,
            None => n + 1,
        }
    }

    /// Length of the whole reference.
    pub fn len(&self) -> (r: usize)
        requires
            self.spec_len() <= usize::MAX,
        ensures
            r == self.spec_len(),
    {
        let mut n = self.path_offset_exec() + self.path_len;
        if let Some(q) = self.query_len {
            n = n + q + 1;
        }
        if let Some(f) = self.fragment_len {
            n = n + f + 1;
        }
        n
    }
}

// ---------------------------------------------------------------------------
// Character classes
pub open spec fn is_alpha(b: u8) -> bool {
    (65 <= b && b <= 90) || (97 <= b && b <= 122)
}

pub open spec fn is_digit(b: u8) -> bool {
    48 <= b && b <= 57
}

pub open spec fn is_scheme_char(b: u8) -> bool {
    is_alpha(b) || is_digit(b) || b == PLUS || b == MINUS || b == DOT
}

/// Bytes that no component may hold: controls, space, and the characters RFC 3987
/// excludes outright.
pub open spec fn is_forbidden(b: u8) -> bool {
    b <= 32 || b == 127 || b == DQUOTE || b == LT || b == GT || b == BACKSLASH || b == CARET
        || b == BACKTICK || b == LBRACE || b == PIPE || b == RBRACE
}

pub open spec fn in3(b: u8, x: u8, y: u8, z: u8) -> bool {
    b == x || b == y || b == z
}

/// Index of the first byte at or after `from` that is `x`, `y` or `z`; the length if none is.
pub open spec fn first_of(s: Seq<u8>, from: int, x: u8, y: u8, z: u8) -> int
    decreases s.len() - from,
{
    if from >= s.len() {
        s.len() as int
    } else if in3(s[from], x, y, z) {
        from
    } else {
        first_of(s, from + 1, x, y, z)
    }
}

/// Index of the first forbidden byte at or after `from`; the length if there is none.
pub open spec fn first_forbidden(s: Seq<u8>, from: int) -> int
    decreases s.len() - from,
{
    if from >= s.len() {
        s.len() as int
    } else if is_forbidden(s[from]) {
        from
    } else {
        first_forbidden(s, from + 1)
    }
}

/// Index of the first byte at or after `from` that cannot stand in a scheme.
pub open spec fn scheme_run(s: Seq<u8>, from: int) -> int
    decreases s.len() - from,
{
    if from >= s.len() {
        s.len() as int
    } else if !is_scheme_char(s[from]) {
        from
    } else {
        scheme_run(s, from + 1)
    }
}

pub open spec fn all_digits(s: Seq<u8>, from: int, to: int) -> bool {
    forall|i: int| from <= i < to ==> is_digit(#[trigger] s[i])
}

/// A valid scheme: a letter, then letters, digits, `+`, `-` or `.`.
pub open spec fn is_scheme(x: Seq<u8>) -> bool {
    &&& x.len() > 0
    &&& is_alpha(x[0])
    &&& forall|i: int| 1 <= i < x.len() ==> is_scheme_char(#[trigger] x[i])
}

pub proof fn lemma_first_of(s: Seq<u8>, from: int, x: u8, y: u8, z: u8)
    requires
        0 <= from <= s.len(),
    ensures
        from <= first_of(s, from, x, y, z) <= s.len(),
        forall|i: int| from <= i < first_of(s, from, x, y, z) ==> !in3(#[trigger] s[i], x, y, z),
        first_of(s, from, x, y, z) < s.len() ==> in3(s[first_of(s, from, x, y, z)], x, y, z),
    decreases s.len() - from,
{
    if from < s.len() && !in3(s[from], x, y, z) {
        lemma_first_of(s, from + 1, x, y, z);
    }
}

pub proof fn lemma_first_forbidden(s: Seq<u8>, from: int)
    requires
        0 <= from <= s.len(),
    ensures
        from <= first_forbidden(s, from) <= s.len(),
        forall|i: int| from <= i < first_forbidden(s, from) ==> !is_forbidden(#[trigger] s[i]),
        first_forbidden(s, from) < s.len() ==> is_forbidden(s[first_forbidden(s, from)]),
    decreases s.len() - from,
{
    if from < s.len() && !is_forbidden(s[from]) {
        lemma_first_forbidden(s, from + 1);
    }
}

pub proof fn lemma_scheme_run(s: Seq<u8>, from: int)
    requires
        0 <= from <= s.len(),
    ensures
        from <= scheme_run(s, from) <= s.len(),
        forall|i: int| from <= i < scheme_run(s, from) ==> is_scheme_char(#[trigger] s[i]),
        scheme_run(s, from) < s.len() ==> !is_scheme_char(s[scheme_run(s, from)]),
    decreases s.len() - from,
{
    if from < s.len() && is_scheme_char(s[from]) {
        lemma_scheme_run(s, from + 1);
    }
}

/// Relies on `std::str::from_utf8`: whether the bytes are well-formed UTF-8.
pub uninterp spec fn utf8_valid(b: Seq<u8>) -> bool;

/// Relies on `std::str::from_utf8`, which accepts exactly the well-formed UTF-8 sequences;
/// ASCII text is always one.
#[verifier::external_body]
fn is_utf8(b: &[u8]) -> (r: bool)
    ensures
        r == utf8_valid(b@),
        (forall|i: int| 0 <= i < b@.len() ==> b@[i] < 128) ==> r,
{
    std::str::from_utf8(b).is_ok()
}

// ---------------------------------------------------------------------------
// The grammar as a function of the bytes

/// Length of the scheme that `s` begins with, if it begins with `scheme:`.
pub open spec fn spec_scheme_len(s: Seq<u8>) -> Option<int> {
    if s.len() > 0 && is_alpha(s[0]) && scheme_run(s, 1) < s.len() && s[scheme_run(s, 1)]
        == COLON {
        Some(scheme_run(s, 1))
    } else {
        None
    }
}

/// Where the host of the authority `a` ends, when its user-info part ends at `h0`.
pub open spec fn host_end(a: Seq<u8>, h0: int) -> Option<int> {
    if h0 < a.len() && a[h0] == LBRACKET {
        let rb = first_of(a, h0, RBRACKET, RBRACKET, RBRACKET);
        if rb < a.len() {
            Some(rb + 1)
        } else {
            None
        }
    } else {
        Some(first_of(a, h0, COLON, COLON, COLON))
    }
}

/// Decomposition of the authority `a` into `userinfo@host:port`, if it is one.
pub open spec fn spec_parse_authority(a: Seq<u8>) -> Option<ParsedAuthority> {
    let at = first_of(a, 0, AT, AT, AT);
    let h0 = if at < a.len() {
        at + 1
    } else {
        0
    };
    let ui: Option<usize> = if at < a.len() {
        Some(at as usize)
    } else {
        None
    };
    match host_end(a, h0) {
        None => None,
        Some(he) => if he == a.len() {
            Some(ParsedAuthority { userinfo_len: ui, host_len: (he - h0) as usize, port_len: None })
        } else if a[he] == COLON && all_digits(a, he + 1, a.len() as int) {
            Some(
                ParsedAuthority {
                    userinfo_len: ui,
                    host_len: (he - h0) as usize,
                    port_len: Some((a.len() - he - 1) as usize),
                },
            )
        } else {
            None
        },
    }
}

/// Path, query and fragment of `s`, the path starting at `ps`.
pub open spec fn spec_parse_rest(
    s: Seq<u8>,
    scheme_len: Option<usize>,
    authority: Option<ParsedAuthority>,
    ps: int,
) -> ParsedIriRef {
    let pe = first_of(s, ps, QMARK, HASH, HASH);
    let has_query = pe < s.len() && s[pe] == QMARK;
    let qe = if has_query {
        first_of(s, pe + 1, HASH, HASH, HASH)
    } else {
        pe
    };
    ParsedIriRef {
        scheme_len,
        authority,
        path_len: (pe - ps) as usize,
        query_len: if has_query {
            Some((qe - pe - 1) as usize)
        } else {
            None
        },
        fragment_len: if qe < s.len() {
            Some((s.len() - qe - 1) as usize)
        } else {
            None
        },
    }
}

/// What parsing `s` gives: the first forbidden byte, else invalid UTF-8, else the
/// decomposition into scheme, authority, path, query and fragment.
///
/// The grammar is delimiter driven and deliberately lax inside components: one set of
/// bytes is forbidden everywhere; percent escapes are not checked (that belongs to
/// percent decoding), and `[`, `]` outside a host or `#` inside a fragment are taken
/// as content. What is accepted always splits back into the same components.
#[verifier::opaque]
pub open spec fn spec_parse(s: Seq<u8>) -> Result<ParsedIriRef, Error> {
    let f = first_forbidden(s, 0);
    if f < s.len() {
        Err(Error::InvalidCharacter { offset: f as usize })
    } else if !utf8_valid(s) {
        Err(Error::NotUtf8)
    } else {
        let sch = spec_scheme_len(s);
        let p0 = match sch {
            Some(k) => k + 1,
            None => 0,
        };
        let sl: Option<usize> = match sch {
            Some(k) => Some(k as usize),
            None => None,
        };
        if p0 + 2 <= s.len() && s[p0] == SLASH && s[p0 + 1] == SLASH {
            let ae = first_of(s, p0 + 2, SLASH, QMARK, HASH);
            match spec_parse_authority(s.subrange(p0 + 2, ae)) {
                None => Err(Error::InvalidAuthority),
                Some(a) => Ok(spec_parse_rest(s, sl, Some(a), ae)),
            }
        } else {
            Ok(spec_parse_rest(s, sl, None, p0))
        }
    }
}

pub proof fn lemma_authority_len(a: Seq<u8>)
    requires
        spec_parse_authority(a) is Some,
        a.len() <= usize::MAX,
    ensures
        spec_parse_authority(a).unwrap().spec_len() == a.len(),
{
    lemma_first_of(a, 0, AT, AT, AT);
    let at = first_of(a, 0, AT, AT, AT);
    let h0 = if at < a.len() {
        at + 1
    } else {
        0
    };
    if h0 < a.len() && a[h0] == LBRACKET {
        lemma_first_of(a, h0, RBRACKET, RBRACKET, RBRACKET);
    } else {
        lemma_first_of(a, h0, COLON, COLON, COLON);
    }
}

/// A descriptor that parsing produces matches the parsed bytes.
#[verifier::rlimit(50)]
pub proof fn lemma_parse_matches(s: Seq<u8>)
    requires
        spec_parse(s) is Ok,
        s.len() <= usize::MAX,
    ensures
        spec_parse(s).unwrap().matches(s),
        spec_parse(s).unwrap().scheme_len matches Some(k) ==> k > 0,
{
    reveal(spec_parse);
    lemma_first_forbidden(s, 0);
    let sch = spec_scheme_len(s);
    if s.len() >= 1 {
        lemma_scheme_run(s, 1);
    }
    let p0 = match sch {
        Some(k) => k + 1,
        None => 0,
    };
    let ps = if p0 + 2 <= s.len() && s[p0] == SLASH && s[p0 + 1] == SLASH {
        let ae = first_of(s, p0 + 2, SLASH, QMARK, HASH);
        lemma_first_of(s, p0 + 2, SLASH, QMARK, HASH);
        lemma_authority_len(s.subrange(p0 + 2, ae));
        ae
    } else {
        p0
    };
    lemma_first_of(s, ps, QMARK, HASH, HASH);
    let pe = first_of(s, ps, QMARK, HASH, HASH);
    if pe < s.len() && s[pe] == QMARK {
        lemma_first_of(s, pe + 1, HASH, HASH, HASH);
    }
}

proof fn lemma_first_forbidden_at(s: Seq<u8>, from: int, k: int)
    requires
        0 <= from <= k < s.len(),
        is_forbidden(s[k]),
        forall|j: int| from <= j < k ==> !is_forbidden(#[trigger] s[j]),
    ensures
        first_forbidden(s, from) == k,
    decreases k - from,
{
    if from < k {
        lemma_first_forbidden_at(s, from + 1, k);
    }
}

/// Parsing fails only on a forbidden byte, invalid UTF-8 or a malformed authority.
pub proof fn lemma_parse_errors(s: Seq<u8>)
    ensures
        spec_parse(s) matches Err(e) ==> (e is InvalidCharacter || e == Error::NotUtf8 || e
            == Error::InvalidAuthority),
{
    reveal(spec_parse);
}

/// A byte that no component may hold (a control character, say) at index `k`, with
/// none before it, makes parsing fail with an error whose offset is `k`.
pub proof fn lemma_error_offset(s: Seq<u8>, k: int)
    requires
        0 <= k < s.len(),
        is_forbidden(s[k]),
        forall|j: int| 0 <= j < k ==> !is_forbidden(#[trigger] s[j]),
    ensures
        spec_parse(s) == Err::<ParsedIriRef, Error>(Error::InvalidCharacter { offset: k as usize }),
{
    reveal(spec_parse);
    lemma_first_forbidden_at(s, 0, k);
}

// ---------------------------------------------------------------------------
// The parser

/// First index at or after `from` whose byte is `x`, `y` or `z`, or the length.
pub fn find3(s: &[u8], from: usize, x: u8, y: u8, z: u8) -> (r: usize)
    requires
        from <= s@.len(),
    ensures
        r == first_of(s@, from as int, x, y, z),
{
    let mut i = from;
    while i < s.len()
        invariant
            from <= i <= s@.len(),
            first_of(s@, i as int, x, y, z) == first_of(s@, from as int, x, y, z),
        decreases s@.len() - i,
    {
        let b = s[i];
        if b == x || b == y || b == z {
            return i;
        }
        i = i + 1;
    }
    i
}

fn find_forbidden(s: &[u8]) -> (r: usize)
    ensures
        r == first_forbidden(s@, 0),
{
    let mut i: usize = 0;
    while i < s.len()
        invariant
            i <= s@.len(),
            first_forbidden(s@, i as int) == first_forbidden(s@, 0),
        decreases s@.len() - i,
    {
        let b = s[i];
        if b <= 32 || b == 127 || b == DQUOTE || b == LT || b == GT || b == BACKSLASH || b == CARET
            || b == BACKTICK || b == LBRACE || b == PIPE || b == RBRACE {
            return i;
        }
        i = i + 1;
    }
    i
}

fn scheme_char(b: u8) -> (r: bool)
    ensures
        r == is_scheme_char(b),
{
    (65 <= b && b <= 90) || (97 <= b && b <= 122) || (48 <= b && b <= 57) || b == PLUS || b
        == MINUS || b == DOT
}

fn scan_scheme(s: &[u8]) -> (r: Option<usize>)
    ensures
        r matches Some(k) ==> spec_scheme_len(s@) == Some(k as int),
        r is None ==> spec_scheme_len(s@) is None,
{
    if s.len() == 0 {
        return None;
    }
    let b0 = s[0];
    if !((65 <= b0 && b0 <= 90) || (97 <= b0 && b0 <= 122)) {
        return None;
    }
    let mut i: usize = 1;
    while i < s.len() && scheme_char(s[i])
        invariant
            1 <= i <= s@.len(),
            scheme_run(s@, i as int) == scheme_run(s@, 1),
        decreases s@.len() - i,
    {
        i = i + 1;
    }
    if i < s.len() && s[i] == COLON {
        Some(i)
    } else {
        None
    }
}

fn digits_only(a: &[u8], from: usize) -> (r: bool)
    requires
        from <= a@.len(),
    ensures
        r == all_digits(a@, from as int, a@.len() as int),
{
    let mut i = from;
    while i < a.len()
        invariant
            from <= i <= a@.len(),
            all_digits(a@, from as int, i as int),
        decreases a@.len() - i,
    {
        if !(48 <= a[i] && a[i] <= 57) {
            return false;
        }
        i = i + 1;
    }
    true
}

/// Splits an authority into user-info, host and port.
pub fn parse_authority(a: &[u8]) -> (r: Option<ParsedAuthority>)
    ensures
        r == spec_parse_authority(a@),
{
    let at = find3(a, 0, AT, AT, AT);
    proof {
        lemma_first_of(a@, 0, AT, AT, AT);
    }
    let h0: usize = if at < a.len() {
        at + 1
    } else {
        0
    };
    let ui: Option<usize> = if at < a.len() {
        Some(at)
    } else {
        None
    };
    let he: usize;
    if h0 < a.len() && a[h0] == LBRACKET {
        let rb = find3(a, h0, RBRACKET, RBRACKET, RBRACKET);
        proof {
            lemma_first_of(a@, h0 as int, RBRACKET, RBRACKET, RBRACKET);
        }
        if rb < a.len() {
            he = rb + 1;
        } else {
            return None;
        }
    } else {
        he = find3(a, h0, COLON, COLON, COLON);
        proof {
            lemma_first_of(a@, h0 as int, COLON, COLON, COLON);
        }
    }
    assert(host_end(a@, h0 as int) == Some(he as int));
    if he == a.len() {
        Some(ParsedAuthority { userinfo_len: ui, host_len: he - h0, port_len: None })
    } else if a[he] == COLON && digits_only(a, he + 1) {
        Some(ParsedAuthority { userinfo_len: ui, host_len: he - h0, port_len: Some(a.len() - he - 1) })
    } else {
        None
    }
}

fn parse_rest(
    s: &[u8],
    scheme_len: Option<usize>,
    authority: Option<ParsedAuthority>,
    ps: usize,
) -> (r: ParsedIriRef)
    requires
        ps <= s@.len(),
    ensures
        r == spec_parse_rest(s@, scheme_len, authority, ps as int),
{
    let pe = find3(s, ps, QMARK, HASH, HASH);
    proof {
        lemma_first_of(s@, ps as int, QMARK, HASH, HASH);
    }
    let has_query = pe < s.len() && s[pe] == QMARK;
    let qe = if has_query {
        let q = find3(s, pe + 1, HASH, HASH, HASH);
        proof {
            lemma_first_of(s@, pe + 1, HASH, HASH, HASH);
        }
        q
    } else {
        pe
    };
    ParsedIriRef {
        scheme_len,
        authority,
        path_len: pe - ps,
        query_len: if has_query {
            Some(qe - pe - 1)
        } else {
            None
        },
        fragment_len: if qe < s.len() {
            Some(s.len() - qe - 1)
        } else {
            None
        },
    }
}

/// Parses an IRI reference in one left-to-right pass, without copying.
pub fn parse(s: &[u8]) -> (r: Result<ParsedIriRef, Error>)
    ensures
        r == spec_parse(s@),
{
    reveal(spec_parse);
    let f = find_forbidden(s);
    proof {
        lemma_first_forbidden(s@, 0);
    }
    if f < s.len() {
        return Err(Error::InvalidCharacter { offset: f });
    }
    if !is_utf8(s) {
        return Err(Error::NotUtf8);
    }
    let sch = scan_scheme(s);
    proof {
        if s@.len() >= 1 {
            lemma_scheme_run(s@, 1);
        }
    }
    let p0: usize = match sch {
        Some(k) => k + 1,
        None => 0,
    };
    if s.len() >= 2 && p0 <= s.len() - 2 && s[p0] == SLASH && s[p0 + 1] == SLASH {
        let ae = find3(s, p0 + 2, SLASH, QMARK, HASH);
        proof {
            lemma_first_of(s@, p0 + 2, SLASH, QMARK, HASH);
        }
        let a = vstd::slice::slice_subrange(s, p0 + 2, ae);
        match parse_authority(a) {
            None => Err(Error::InvalidAuthority),
            Some(auth) => Ok(parse_rest(s, sch, Some(auth), ae)),
        }
    } else {
        Ok(parse_rest(s, sch, None, p0))
    }
}

/// No forbidden byte.
pub open spec fn is_clean(x: Seq<u8>) -> bool {
    first_forbidden(x, 0) == x.len()
}

/// A valid authority on its own: it parses, and holds no `/`, `?` or `#`.
pub open spec fn authority_ok(x: Seq<u8>) -> bool {
    &&& is_clean(x)
    &&& first_of(x, 0, SLASH, QMARK, HASH) == x.len()
    &&& spec_parse_authority(x) is Some
}

/// A valid path on its own: no `?` or `#`.
pub open spec fn path_ok(x: Seq<u8>) -> bool {
    is_clean(x) && first_of(x, 0, QMARK, HASH, HASH) == x.len()
}

/// A valid query on its own: no `#`.
pub open spec fn query_ok(x: Seq<u8>) -> bool {
    is_clean(x) && first_of(x, 0, HASH, HASH, HASH) == x.len()
}

pub fn check_scheme(x: &[u8]) -> (r: bool)
    ensures
        r == is_scheme(x@),
{
    if x.len() == 0 {
        return false;
    }
    let b0 = x[0];
    if !((65 <= b0 && b0 <= 90) || (97 <= b0 && b0 <= 122)) {
        return false;
    }
    let mut i: usize = 1;
    while i < x.len()
        invariant
            1 <= i <= x@.len(),
            forall|j: int| 1 <= j < i ==> is_scheme_char(#[trigger] x@[j]),
        decreases x@.len() - i,
    {
        if !scheme_char(x[i]) {
            return false;
        }
        i = i + 1;
    }
    true
}

pub fn check_clean(x: &[u8]) -> (r: bool)
    ensures
        r == is_clean(x@),
{
    find_forbidden(x) == x.len()
}

pub fn check_authority(x: &[u8]) -> (r: Option<ParsedAuthority>)
    ensures
        authority_ok(x@) <==> r is Some,
        r is Some ==> r == spec_parse_authority(x@),
{
    if check_clean(x) && find3(x, 0, SLASH, QMARK, HASH) == x.len() {
        parse_authority(x)
    } else {
        None
    }
}

pub fn check_path(x: &[u8]) -> (r: bool)
    ensures
        r == path_ok(x@),
{
    check_clean(x) && find3(x, 0, QMARK, HASH, HASH) == x.len()
}

pub fn check_query(x: &[u8]) -> (r: bool)
    ensures
        r == query_ok(x@),
{
    check_clean(x) && find3(x, 0, HASH, HASH, HASH) == x.len()
}

} // verus!
