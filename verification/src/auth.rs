//! Bearer-token extraction: the staged validation of the `Authorization`
//! header that guards every protected handler.
//!
//! The whole decision is captured by the spec function [`header_check`]
//! (header shape) and, once the store lookup is added on top in
//! [`crate::routes`], every stage returns the exact error the original
//! contract names, in the order the stages are listed.

use vstd::prelude::*;

verus! {

/// Why a request was rejected before its handler ran.
///
/// The first five variants are malformed-request failures (HTTP 400), each
/// naming the precondition that failed; `StoreUnreachable` is a wiring defect
/// (500); `InvalidToken` covers both an unknown and an expired credential
/// (401) so that a caller cannot tell the two apart.
#[derive(Clone, Copy, PartialEq, Eq, Structural, Debug)]
pub enum AuthError {
    MissingHeader,
    MalformedHeader,
    MissingType,
    UnsupportedType,
    MissingToken,
    StoreUnreachable,
    InvalidToken,
}

impl AuthError {
    /// The HTTP status this rejection resolves to.
    pub open spec fn spec_status(self) -> u16 {
        match self {
            AuthError::StoreUnreachable => 500,
            AuthError::InvalidToken => 401,
            _ => 400,
        }
    }

    pub fn status(&self) -> (r: u16)
        ensures
            r == self.spec_status(),
    {
        match self {
            AuthError::StoreUnreachable => 500,
            AuthError::InvalidToken => 401,
            _ => 400,
        }
    }

    /// The client-visible message for this rejection.
    pub open spec fn spec_message(self) -> Seq<char> {
        match self {
            AuthError::MissingHeader => "missing Authorization header"@,
            AuthError::MalformedHeader => "malformed Authorization header"@,
            AuthError::MissingType => "missing Authorization type"@,
            AuthError::UnsupportedType => "unsupported Authorization type"@,
            AuthError::MissingToken => "missing Bearer token"@,
            AuthError::StoreUnreachable => "internal error"@,
            AuthError::InvalidToken => "invalid Bearer token"@,
        }
    }

    pub fn message(&self) -> (r: &'static str)
        ensures
            r@ == self.spec_message(),
    {
        match self {
            AuthError::MissingHeader => "missing Authorization header",
            AuthError::MalformedHeader => "malformed Authorization header",
            AuthError::MissingType => "missing Authorization type",
            AuthError::UnsupportedType => "unsupported Authorization type",
            AuthError::MissingToken => "missing Bearer token",
            AuthError::StoreUnreachable => "internal error",
            AuthError::InvalidToken => "invalid Bearer token",
        }
    }
}

/// A header value decodes as text when every byte is visible ASCII or a tab.
pub open spec fn is_valid_header_byte(b: u8) -> bool {
    b == 9 || (32 <= b && b < 127)
}

pub open spec fn header_is_text(s: Seq<u8>) -> bool {
    forall|i: int| 0 <= i < s.len() ==> is_valid_header_byte(#[trigger] s[i])
}

/// ASCII whitespace, the separators the header value is split on.
pub open spec fn is_ws_byte(b: u8) -> bool {
    b == 32 || b == 9 || b == 10 || b == 12 || b == 13
}

/// Index of the first non-whitespace byte at or after `from` (the length if
/// there is none).
pub open spec fn token_start(s: Seq<u8>, from: int) -> int
    decreases s.len() - from,
{
    if from >= s.len() {
        s.len() as int
    } else if is_ws_byte(s[from]) {
        token_start(s, from + 1)
    } else {
        from
    }
}

/// Index of the first whitespace byte at or after `from` (the length if
/// there is none).
pub open spec fn token_end(s: Seq<u8>, from: int) -> int
    decreases s.len() - from,
{
    if from >= s.len() {
        s.len() as int
    } else if is_ws_byte(s[from]) {
        from
    } else {
        token_end(s, from + 1)
    }
}

pub proof fn lemma_token_start_bounds(s: Seq<u8>, from: int)
    requires
        0 <= from <= s.len(),
    ensures
        from <= token_start(s, from) <= s.len(),
    decreases s.len() - from,
{
    if from < s.len() && is_ws_byte(s[from]) {
        lemma_token_start_bounds(s, from + 1);
    }
}

pub proof fn lemma_token_end_bounds(s: Seq<u8>, from: int)
    requires
        0 <= from <= s.len(),
    ensures
        from <= token_end(s, from) <= s.len(),
    decreases s.len() - from,
{
    if from < s.len() && !is_ws_byte(s[from]) {
        lemma_token_end_bounds(s, from + 1);
    }
}

/// The one authorization scheme the authenticator admits, byte for byte:
/// `Bearer` (the ASCII codes of `B`, `e`, `a`, `r`, `e`, `r`).
pub open spec fn bearer_scheme() -> Seq<u8> {
    seq![66u8, 101u8, 97u8, 114u8, 101u8, 114u8]
}

pub open spec fn scheme_start(s: Seq<u8>) -> int {
    token_start(s, 0)
}

pub open spec fn scheme_end(s: Seq<u8>) -> int {
    token_end(s, scheme_start(s))
}

/// The first whitespace-delimited word of the header value.
pub open spec fn scheme_of(s: Seq<u8>) -> Seq<u8> {
    s.subrange(scheme_start(s), scheme_end(s))
}

pub open spec fn credential_start(s: Seq<u8>) -> int {
    token_start(s, scheme_end(s))
}

pub open spec fn credential_end(s: Seq<u8>) -> int {
    token_end(s, credential_start(s))
}

/// The second whitespace-delimited word: the bearer credential itself.
pub open spec fn credential_of(s: Seq<u8>) -> Seq<u8> {
    s.subrange(credential_start(s), credential_end(s))
}

/// The complete shape check of the `Authorization` header, stage by stage:
/// the header must be present, decode as text, name a scheme, name the
/// scheme `Bearer` (case-sensitively), and carry a credential after it.
pub open spec fn header_check(h: Option<Seq<u8>>) -> Result<Seq<u8>, AuthError> {
    match h {
        None => Err(AuthError::MissingHeader),
        Some(s) => {
            if !header_is_text(s) {
                Err(AuthError::MalformedHeader)
            } else if scheme_start(s) >= s.len() {
                Err(AuthError::MissingType)
            } else if scheme_of(s) != bearer_scheme() {
                Err(AuthError::UnsupportedType)
            } else if credential_start(s) >= s.len() {
                Err(AuthError::MissingToken)
            } else {
                Ok(credential_of(s))
            }
        },
    }
}

/// A credential that passed the shape check consists of bytes of text, so
/// each of its bytes is ASCII.
pub proof fn lemma_credential_ascii(s: Seq<u8>)
    requires
        header_is_text(s),
    ensures
        0 <= credential_start(s) <= credential_end(s) <= s.len(),
        forall|i: int| 0 <= i < credential_of(s).len() ==> #[trigger] credential_of(s)[i] < 128,
{
    lemma_token_start_bounds(s, 0);
    lemma_token_end_bounds(s, scheme_start(s));
    lemma_token_start_bounds(s, scheme_end(s));
    lemma_token_end_bounds(s, credential_start(s));
    assert forall|i: int| 0 <= i < credential_of(s).len() implies #[trigger] credential_of(s)[i]
        < 128 by {
        assert(credential_of(s)[i] == s[credential_start(s) + i]);
        assert(is_valid_header_byte(s[credential_start(s) + i]));
    }
}

/// The ghost value of an optional header argument.
pub open spec fn opt_bytes(header: Option<&Vec<u8>>) -> Option<Seq<u8>> {
    match header {
        Some(v) => Some(v@),
        None => None,
    }
}

fn is_ws(b: u8) -> (r: bool)
    ensures
        r == is_ws_byte(b),
{
    b == 32 || b == 9 || b == 10 || b == 12 || b == 13
}

fn text_ok(v: &Vec<u8>) -> (r: bool)
    ensures
        r == header_is_text(v@),
{
    let mut i: usize = 0;
    while i < v.len()
        invariant
            0 <= i <= v@.len(),
            forall|k: int| 0 <= k < i ==> is_valid_header_byte(#[trigger] v@[k]),
        decreases v@.len() - i,
    {
        let b = v[i];
        if !(b == 9 || (32 <= b && b < 127)) {
            return false;
        }
        i = i + 1;
    }
    true
}

fn skip_ws(v: &Vec<u8>, from: usize) -> (r: usize)
    requires
        from <= v@.len(),
    ensures
        r == token_start(v@, from as int),
        from <= r <= v@.len(),
{
    let mut i: usize = from;
    while i < v.len() && is_ws(v[i])
        invariant
            from <= i <= v@.len(),
            token_start(v@, from as int) == token_start(v@, i as int),
        decreases v@.len() - i,
    {
        i = i + 1;
    }
    i
}

fn scan_token(v: &Vec<u8>, from: usize) -> (r: usize)
    requires
        from <= v@.len(),
    ensures
        r == token_end(v@, from as int),
        from <= r <= v@.len(),
{
    let mut i: usize = from;
    while i < v.len() && !is_ws(v[i])
        invariant
            from <= i <= v@.len(),
            token_end(v@, from as int) == token_end(v@, i as int),
        decreases v@.len() - i,
    {
        i = i + 1;
    }
    i
}

fn scheme_is_bearer(v: &Vec<u8>, start: usize, end: usize) -> (r: bool)
    requires
        start <= end <= v@.len(),
    ensures
        r == (v@.subrange(start as int, end as int) == bearer_scheme()),
{
    let ghost word = v@.subrange(start as int, end as int);
    if end - start != 6 {
        proof {
            assert(word.len() != bearer_scheme().len());
        }
        return false;
    }
    let expected: [u8; 6] = [66u8, 101u8, 97u8, 114u8, 101u8, 114u8];
    let mut i: usize = 0;
    while i < 6
        invariant
            0 <= i <= 6,
            start + 6 == end <= v@.len(),
            expected@ =~= bearer_scheme(),
            word == v@.subrange(start as int, end as int),
            forall|k: int| 0 <= k < i ==> word[k] == bearer_scheme()[k],
        decreases 6 - i,
    {
        if v[start + i] != expected[i] {
            proof {
                assert(word[i as int] != bearer_scheme()[i as int]);
            }
            return false;
        }
        i = i + 1;
    }
    proof {
        assert(word =~= bearer_scheme());
    }
    true
}

fn copy_range(v: &Vec<u8>, start: usize, end: usize) -> (r: Vec<u8>)
    requires
        start <= end <= v@.len(),
    ensures
        r@ == v@.subrange(start as int, end as int),
{
    let mut out: Vec<u8> = Vec::new();
    let mut i: usize = start;
    while i < end
        invariant
            start <= i <= end <= v@.len(),
            out@ =~= v@.subrange(start as int, i as int),
        decreases end - i,
    {
        out.push(v[i]);
        proof {
            assert(out@ =~= v@.subrange(start as int, i + 1));
        }
        i = i + 1;
    }
    proof {
        assert(out@ =~= v@.subrange(start as int, end as int));
    }
    out
}

/// Validate the shape of an `Authorization` header value and extract the
/// bearer credential's bytes, reporting the first stage that fails.
pub fn parse_bearer(header: Option<&Vec<u8>>) -> (r: Result<Vec<u8>, AuthError>)
    ensures
        (match r {
            Ok(c) => header_check(opt_bytes(header)) == Ok::<Seq<u8>, AuthError>(c@),
            Err(e) => header_check(opt_bytes(header)) == Err::<Seq<u8>, AuthError>(e),
        }),
{
    let v = match header {
        Some(v) => v,
        None => {
            return Err(AuthError::MissingHeader);
        },
    };
    if !text_ok(v) {
        return Err(AuthError::MalformedHeader);
    }
    let st1 = skip_ws(v, 0);
    if st1 == v.len() {
        return Err(AuthError::MissingType);
    }
    let en1 = scan_token(v, st1);
    if !scheme_is_bearer(v, st1, en1) {
        return Err(AuthError::UnsupportedType);
    }
    let st2 = skip_ws(v, en1);
    if st2 == v.len() {
        return Err(AuthError::MissingToken);
    }
    let en2 = scan_token(v, st2);
    Ok(copy_range(v, st2, en2))
}

} // verus!
