//! Session state and the one-retry protocol of a full sync.
//!
//! The portal transaction itself (the multi-step login) and the transport
//! are the host's business; this module holds the session token, decides
//! what to do after each step of a pass, and pins the protocol: a pass that
//! fails as unauthenticated is retried exactly once after one
//! re-authentication from cached credentials, a second failure of any kind
//! is final, and rejected credentials are never retried.

use vstd::prelude::*;

verus! {

/// The failure taxonomy of a sync pass.
#[derive(Clone, Copy, PartialEq, Eq, Structural, Debug)]
pub enum SyncError {
    /// The session is missing or expired; drives the single retry.
    Unauthenticated,
    /// The login transaction was rejected; never retried.
    BadCredentials,
    /// A download response declared no content type.
    MissingContentType,
    /// A response body could not be decoded.
    ParseError,
    /// A network-level failure.
    TransportError,
    /// A snapshot could not be loaded or saved; never fatal to a pass.
    PersistenceError,
}

/// What one full sync reports to the host.
#[derive(Clone, Copy, PartialEq, Eq, Structural, Debug)]
pub enum SyncStatus {
    Synced,
    NeedsCredentials,
    Failed(SyncError),
}

/// A credential pair as submitted by the host, with the wish to keep it.
pub struct Credentials {
    pub username: String,
    pub password: String,
    pub persistent: bool,
}

/// The session credential attached to authenticated requests.
pub struct Session {
    pub token: Option<String>,
}

impl Session {
    /// A session that has not authenticated yet.
    pub fn new() -> (s: Session)
        ensures
            s.token is None,
    {
        Session { token: None }
    }

    /// Install a freshly acquired token.
    pub fn set_token(&mut self, token: String)
        ensures
            final (self).token matches Some(t) && t@ == token@,
    {
        self.token = Some(token);
    }

    /// Whether a token is installed.
    pub fn is_authenticated(&self) -> (b: bool)
        ensures
            b == (self.token is Some),
    {
        self.token.is_some()
    }

    /// The cookie value attached to authenticated requests.
    pub fn cookie(&self) -> (r: Option<String>)
        ensures
            match self.token {
                Some(t) => r matches Some(c) && c@ == "PHPSESSID="@ + t@,
                None => r is None,
            },
    {
        match &self.token {
            Some(t) => {
                let mut c = "PHPSESSID=".to_owned();
                c.append(t.as_str());
                Some(c)
            },
            None => None,
        }
    }
}

/// Characters that stay themselves under form encoding.
pub open spec fn unreserved(c: char) -> bool {
    ('a' as int <= c as int && c as int <= 'z' as int) || ('A' as int <= c as int && c as int
        <= 'Z' as int) || ('0' as int <= c as int && c as int <= '9' as int) || c == '-' || c == '_'
        || c == '.' || c == '~'
}

/// The hexadecimal digit for a value below sixteen.
pub open spec fn hex_digit(v: int) -> char {
    if v == 0 {
        '0'
    } else if v == 1 {
        '1'
    } else if v == 2 {
        '2'
    } else if v == 3 {
        '3'
    } else if v == 4 {
        '4'
    } else if v == 5 {
        '5'
    } else if v == 6 {
        '6'
    } else if v == 7 {
        '7'
    } else if v == 8 {
        '8'
    } else if v == 9 {
        '9'
    } else if v == 10 {
        'A'
    } else if v == 11 {
        'B'
    } else if v == 12 {
        'C'
    } else if v == 13 {
        'D'
    } else if v == 14 {
        'E'
    } else {
        'F'
    }
}

/// How one character is form encoded: kept, or escaped as a percent pair.
pub open spec fn encoded_char(c: char) -> Seq<char> {
    if unreserved(c) {
        seq![c]
    } else {
        seq!['%', hex_digit(c as int / 16), hex_digit(c as int % 16)]
    }
}

/// The form encoding of a whole string of characters below `0x80`.
pub open spec fn encoded(s: Seq<char>) -> Seq<char>
    decreases s.len(),
{
    if s.len() == 0 {
        Seq::empty()
    } else {
        encoded(s.drop_last()) + encoded_char(s.last())
    }
}

fn push_hex(out: &mut String, v: u32)
    requires
        v < 16,
    ensures
        final (out)@ == old(out)@.push(hex_digit(v as int)),
{
    let digits = "0123456789ABCDEF";
    proof {
        reveal_strlit("0123456789ABCDEF");
    }
    let c = digits.get_char(v as usize);
    proof {
        assert(c == hex_digit(v as int)) by {
            assert(digits@.len() == 16);
        }
    }
    out.push(c);
}

/// Percent-encode a string for a form body. Only plain (seven-bit)
/// strings are encodable here; anything else is refused.
pub fn percent_encode(s: &str) -> (r: Option<String>)
    ensures
        r matches Some(enc) ==> enc@ == encoded(s@),
        (r is Some) ==> (forall|i: int| 0 <= i < s@.len() ==> ((#[trigger] s@[i]) as int) < 128),
        (r is None) ==> (exists|i: int| 0 <= i < s@.len() && ((#[trigger] s@[i]) as int) >= 128),
{
    let n = s.unicode_len();
    let mut out = String::new();
    let mut i: usize = 0;
    while i < n
        invariant
            n == s@.len(),
            i <= n,
            out@ == encoded(s@.subrange(0, i as int)),
            forall|k: int| 0 <= k < i ==> ((#[trigger] s@[k]) as int) < 128,
        decreases n - i,
    {
        let c = s.get_char(i);
        let v = c as u32;
        if v >= 128 {
            return None;
        }
        let ghost pre = s@.subrange(0, i as int);
        let ghost ext = s@.subrange(0, i + 1);
        let keep = (c >= 'a' && c <= 'z') || (c >= 'A' && c <= 'Z') || (c >= '0' && c <= '9') || c
            == '-' || c == '_' || c == '.' || c == '~';
        if keep {
            out.push(c);
        } else {
            out.push('%');
            push_hex(&mut out, v / 16);
            push_hex(&mut out, v % 16);
        }
        proof {
            assert(ext.drop_last() =~= pre);
            assert(ext.last() == c);
            assert(out@ =~= encoded(pre) + encoded_char(c));
        }
        i += 1;
    }
    proof {
        assert(s@.subrange(0, n as int) =~= s@);
    }
    Some(out)
}

/// Build the credential submission body of the portal's login form. The
/// login context is percent-encoded; the credentials are passed as the
/// portal expects them, so they must be plain (seven-bit) text.
pub fn login_form_body(context: &str, username: &str, password: &str) -> (r: Option<String>)
    ensures
        match r {
            Some(b) => b@ == "LoginForm%5Bcontext%5D="@ + encoded(context@)
                + "&LoginForm%5Busername%5D="@ + username@ + "&LoginForm%5Bpassword%5D="@
                + password@ + "&yt0=Login"@,
            None => (exists|i: int|
                0 <= i < context@.len() && ((#[trigger] context@[i]) as int) >= 128),
        },
{
    let enc = match percent_encode(context) {
        Some(enc) => enc,
        None => {
            return None;
        },
    };
    let mut body = "LoginForm%5Bcontext%5D=".to_owned();
    body.append(enc.as_str());
    body.append("&LoginForm%5Busername%5D=");
    body.append(username);
    body.append("&LoginForm%5Bpassword%5D=");
    body.append(password);
    body.append("&yt0=Login");
    Some(body)
}

/// Build the assertion submission body of the portal's login transaction,
/// with both fields percent-encoded.
pub fn saml_form_body(relay_state: &str, assertion: &str) -> (r: Option<String>)
    ensures
        match r {
            Some(b) => b@ == "RelayState="@ + encoded(relay_state@) + "&SAMLResponse="@ + encoded(
                assertion@,
            ),
            None => (exists|i: int|
                0 <= i < relay_state@.len() && ((#[trigger] relay_state@[i]) as int) >= 128) || (
            exists|i: int|
                0 <= i < assertion@.len() && ((#[trigger] assertion@[i]) as int) >= 128),
        },
{
    let r = match percent_encode(relay_state) {
        Some(r) => r,
        None => {
            return None;
        },
    };
    let a = match percent_encode(assertion) {
        Some(a) => a,
        None => {
            return None;
        },
    };
    let mut body = "RelayState=".to_owned();
    body.append(r.as_str());
    body.append("&SAMLResponse=");
    body.append(a.as_str());
    Some(body)
}

/// The decision after the first pass of a sync.
#[derive(Clone, Copy, PartialEq, Eq, Structural, Debug)]
pub enum AfterFirst {
    /// The sync is over with this status.
    Settled(SyncStatus),
    /// Re-authenticate with the cached credentials, then run a second pass.
    Reauthenticate,
}

/// The decision after the re-authentication attempt.
#[derive(Clone, Copy, PartialEq, Eq, Structural, Debug)]
pub enum AfterAuth {
    Settled(SyncStatus),
    RunSecondPass,
}

pub open spec fn spec_after_first_pass(r: Result<(), SyncError>, has_cached: bool) -> AfterFirst {
    match r {
        Ok(u) => AfterFirst::Settled(SyncStatus::Synced),
        Err(SyncError::Unauthenticated) => if has_cached {
            AfterFirst::Reauthenticate
        } else {
            AfterFirst::Settled(SyncStatus::NeedsCredentials)
        },
        Err(e) => AfterFirst::Settled(SyncStatus::Failed(e)),
    }
}

/// Decide what follows the first pass: success settles the sync; an
/// unauthenticated failure asks for the single re-authentication when
/// cached credentials exist and for credentials otherwise; any other
/// failure is final.
pub fn after_first_pass(r: &Result<(), SyncError>, has_cached: bool) -> (a: AfterFirst)
    ensures
        a == spec_after_first_pass(*r, has_cached),
{
    match r {
        Ok(u) => AfterFirst::Settled(SyncStatus::Synced),
        Err(SyncError::Unauthenticated) => {
            if has_cached {
                AfterFirst::Reauthenticate
            } else {
                AfterFirst::Settled(SyncStatus::NeedsCredentials)
            }
        },
        Err(e) => AfterFirst::Settled(SyncStatus::Failed(*e)),
    }
}

pub open spec fn spec_after_auth(r: Result<(), SyncError>) -> AfterAuth {
    match r {
        Ok(u) => AfterAuth::RunSecondPass,
        Err(e) => AfterAuth::Settled(SyncStatus::Failed(e)),
    }
}

/// Decide what follows the re-authentication: a working session runs the
/// second pass; a failure — rejected credentials above all — is final and
/// never retried.
pub fn after_auth(r: &Result<(), SyncError>) -> (a: AfterAuth)
    ensures
        a == spec_after_auth(*r),
{
    match r {
        Ok(u) => AfterAuth::RunSecondPass,
        Err(e) => AfterAuth::Settled(SyncStatus::Failed(*e)),
    }
}

pub open spec fn spec_after_second_pass(r: Result<(), SyncError>) -> SyncStatus {
    match r {
        Ok(u) => SyncStatus::Synced,
        Err(e) => SyncStatus::Failed(e),
    }
}

/// Decide what the second pass settles on: any failure, even another
/// expired session, is final for this sync.
pub fn after_second_pass(r: &Result<(), SyncError>) -> (s: SyncStatus)
    ensures
        s == spec_after_second_pass(*r),
{
    match r {
        Ok(u) => SyncStatus::Synced,
        Err(e) => SyncStatus::Failed(*e),
    }
}

/// The status a full sync settles on, given what each step would return:
/// the first pass, and — only where the protocol asks for them — the
/// re-authentication and the second pass.
pub open spec fn trigger_outcome(
    first: Result<(), SyncError>,
    has_cached: bool,
    auth: Result<(), SyncError>,
    second: Result<(), SyncError>,
) -> SyncStatus {
    match spec_after_first_pass(first, has_cached) {
        AfterFirst::Settled(s) => s,
        AfterFirst::Reauthenticate => match spec_after_auth(auth) {
            AfterAuth::Settled(s) => s,
            AfterAuth::RunSecondPass => spec_after_second_pass(second),
        },
    }
}

/// How many authentication calls a full sync makes, given the first pass's
/// result.
pub open spec fn auth_calls(first: Result<(), SyncError>, has_cached: bool) -> int {
    if spec_after_first_pass(first, has_cached) is Reauthenticate {
        1
    } else {
        0
    }
}

/// Authentication is attempted at most once per sync, whatever happens.
pub proof fn lemma_single_reauthentication(first: Result<(), SyncError>, has_cached: bool)
    ensures
        0 <= auth_calls(first, has_cached) <= 1,
        auth_calls(first, has_cached) == 1 <==> (first == Err::<(), SyncError>(
            SyncError::Unauthenticated,
        ) && has_cached),
{
}

/// A first pass that fails unauthenticated, with valid cached credentials
/// and a clean second pass, settles on success after exactly one
/// re-authentication.
pub proof fn lemma_auth_retry_succeeds(second: Result<(), SyncError>)
    requires
        second is Ok,
    ensures
        trigger_outcome(
            Err(SyncError::Unauthenticated),
            true,
            Ok(()),
            second,
        ) == SyncStatus::Synced,
        auth_calls(Err(SyncError::Unauthenticated), true) == 1,
{
}

/// Invalid cached credentials settle the sync on their failure without any
/// further pass or retry.
pub proof fn lemma_bad_credentials_fatal(second: Result<(), SyncError>)
    ensures
        trigger_outcome(
            Err(SyncError::Unauthenticated),
            true,
            Err(SyncError::BadCredentials),
            second,
        ) == SyncStatus::Failed(SyncError::BadCredentials),
        auth_calls(Err(SyncError::Unauthenticated), true) <= 1,
{
}

} // verus!
