//! Credentials, session tokens with sliding expiry, and the paid-plan check.

use vstd::prelude::*;
use sha3::Digest;

verus! {

/// Seconds a token stays valid after its last use: five days.
pub const TOKEN_LIFETIME: i64 = 432000;

/// Seconds a monthly payment covers: thirty-one days.
pub const BILLING_PERIOD: i64 = 2678400;

/// Administrator credentials.
#[derive(Debug, Clone)]
pub struct AdminCredentials {
    pub key: String,
}

/// What a client presents to authenticate: a user id and a session token.
#[derive(Debug, Clone)]
pub struct TokenAuth {
    pub id: i64,
    pub token: String,
}

/// A stored session token: the SHA3-256 digest of the secret, and when it was
/// last used (seconds since the Unix epoch).
#[derive(Debug, Clone)]
pub struct Token {
    pub tk: Vec<u8>,
    pub from_dt: i64,
}

impl View for Token {
    type V = (Seq<u8>, i64);

    open spec fn view(&self) -> (Seq<u8>, i64) {
        (self.tk@, self.from_dt)
    }
}

/// Login and password, to sign in.
#[derive(Debug, Clone)]
pub struct SignInCredentials {
    pub login: String,
    pub pass: String,
}

/// Login and password, to sign up.
#[derive(Debug, Clone)]
pub struct SignUpCredentials {
    pub login: String,
    pub pass: String,
}

/// What is stored of a user's credentials: salt, salted password, tokens.
#[derive(Debug, Clone)]
pub struct UserCredentials {
    pub salt: Vec<u8>,
    pub salted_pass: Vec<u8>,
    pub tokens: Vec<Token>,
}

/// Billing record of an account.
#[derive(Debug, Clone)]
pub struct AccountPlanDetails {
    /// Paid once, for good.
    pub billed_forever: bool,
    /// Handed to the payment provider to ask about the subscription.
    pub payment_data: String,
    /// Whether `last_payment` can be trusted.
    pub is_paid_whenever: bool,
    /// Last monthly payment (seconds since the Unix epoch).
    pub last_payment: i64,
}

/// The views of a token list.
pub open spec fn token_views(ts: Seq<Token>) -> Seq<(Seq<u8>, i64)> {
    ts.map_values(|t: Token| t@)
}

/// A token last used at `t.1` is still alive at `now`.
pub open spec fn alive(now: i64, t: (Seq<u8>, i64)) -> bool {
    now - t.1 < TOKEN_LIFETIME
}

/// A token after a validation at `now`: refreshed when it is the presented one.
pub open spec fn refreshed(t: (Seq<u8>, i64), presented: Seq<u8>, now: i64) -> (Seq<u8>, i64) {
    if t.0 == presented {
        (t.0, now)
    } else {
        t
    }
}

/// The token list after a validation at `now`: dead tokens dropped, the
/// presented one refreshed, order kept.
pub open spec fn after_validation(ts: Seq<(Seq<u8>, i64)>, presented: Seq<u8>, now: i64) -> Seq<
    (Seq<u8>, i64),
> {
    ts.filter(|t: (Seq<u8>, i64)| alive(now, t)).map_values(
        |t: (Seq<u8>, i64)| refreshed(t, presented, now),
    )
}

/// Some live token is the presented one.
pub open spec fn session_valid(ts: Seq<(Seq<u8>, i64)>, presented: Seq<u8>, now: i64) -> bool {
    exists|i: int| 0 <= i < ts.len() && alive(now, ts[i]) && #[trigger] ts[i].0 == presented
}

/// Some token has died.
pub open spec fn any_dead(ts: Seq<(Seq<u8>, i64)>, now: i64) -> bool {
    exists|i: int| 0 <= i < ts.len() && !alive(now, #[trigger] ts[i])
}

/// The account counts as paid at `now`.
pub open spec fn billed_at(b: AccountPlanDetails, now: i64) -> bool {
    b.billed_forever || (b.is_paid_whenever && now - b.last_payment < BILLING_PERIOD)
}

/// Whether two byte strings are equal.
pub fn bytes_equal(a: &Vec<u8>, b: &Vec<u8>) -> (r: bool)
    ensures
        r == (a@ == b@),
{
    if a.len() != b.len() {
        return false;
    }
    let mut i: usize = 0;
    while i < a.len()
        invariant
            a@.len() == b@.len(),
            0 <= i <= a@.len(),
            forall|j: int| 0 <= j < i ==> a@[j] == b@[j],
        decreases a@.len() - i,
    {
        if a[i] != b[i] {
            return false;
        }
        i += 1;
    }
    assert(a@ =~= b@);
    true
}

/// A copy of a byte string.
pub fn copy_bytes(a: &Vec<u8>) -> (r: Vec<u8>)
    ensures
        r@ == a@,
{
    let mut r: Vec<u8> = Vec::new();
    let mut i: usize = 0;
    while i < a.len()
        invariant
            0 <= i <= a@.len(),
            r@ == a@.take(i as int),
        decreases a@.len() - i,
    {
        r.push(a[i]);
        i += 1;
        assert(r@ =~= a@.take(i as int));
    }
    assert(a@.take(a@.len() as int) =~= a@);
    r
}

/// Validates a presented token digest against the list at `now`, compacting
/// the list in one pass: tokens that have lived `TOKEN_LIFETIME` or longer
/// since their last use are dropped; a live token that matches is refreshed to
/// `now`. Returns whether the session is valid, and whether the list changed
/// and so must be stored.
pub fn validate_session(tokens: &mut Vec<Token>, presented: &Vec<u8>, now: i64) -> (r: (bool, bool))
    ensures
        token_views(final(tokens)@) == after_validation(token_views(old(tokens)@), presented@, now),
        r.0 == session_valid(token_views(old(tokens)@), presented@, now),
        r.1 == (r.0 || any_dead(token_views(old(tokens)@), now)),
{
    let ghost ov = token_views(tokens@);
    let ghost alive_now = |t: (Seq<u8>, i64)| alive(now, t);
    let ghost refresh = |t: (Seq<u8>, i64)| refreshed(t, presented@, now);
    let mut kept: Vec<Token> = Vec::new();
    let mut valid = false;
    let mut dropped = false;
    let mut i: usize = 0;
    while i < tokens.len()
        invariant
            0 <= i <= tokens@.len(),
            ov == token_views(tokens@),
            ov.len() == tokens@.len(),
            alive_now == (|t: (Seq<u8>, i64)| alive(now, t)),
            refresh == (|t: (Seq<u8>, i64)| refreshed(t, presented@, now)),
            token_views(kept@) == ov.take(i as int).filter(alive_now).map_values(refresh),
            valid == session_valid(ov.take(i as int), presented@, now),
            dropped == any_dead(ov.take(i as int), now),
        decreases tokens@.len() - i,
    {
        let t = &tokens[i];
        let ghost tv = t@;
        let ghost pre = ov.take(i as int);
        let ghost post = ov.take(i as int + 1);
        proof {
            assert(post =~= pre.push(tv));
            pre.lemma_filter_push(tv, alive_now);
            assert(forall|w: int| 0 <= w < i ==> #[trigger] post[w] == pre[w]);
        }
        let d = (now as i128) - (t.from_dt as i128);
        if d < (TOKEN_LIFETIME as i128) {
            let same = bytes_equal(&t.tk, presented);
            let nt = Token { tk: copy_bytes(&t.tk), from_dt: if same { now } else { t.from_dt } };
            let ghost before = kept@;
            kept.push(nt);
            proof {
                let f = pre.filter(alive_now);
                assert(token_views(kept@) =~= token_views(before).push(nt@));
                assert(f.push(tv).map_values(refresh) =~= f.map_values(refresh).push(refresh(tv)));
                assert(nt@ == refresh(tv));
                if same {
                    assert(post[i as int] == tv);
                }
            }
            valid = valid || same;
        } else {
            proof {
                assert(post[i as int] == tv);
            }
            dropped = true;
        }
        i += 1;
    }
    proof {
        assert(ov.take(ov.len() as int) =~= ov);
    }
    *tokens = kept;
    (valid, valid || dropped)
}

/// Whether the account counts as paid at `now`: paid for good, or a trusted
/// monthly payment less than `BILLING_PERIOD` ago.
pub fn is_billed(billing: &AccountPlanDetails, now: i64) -> (r: bool)
    ensures
        r == billed_at(*billing, now),
{
    billing.billed_forever || (billing.is_paid_whenever && (now as i128) - (
    billing.last_payment as i128) < (BILLING_PERIOD as i128))
}

/// Sliding expiry: a token used at `t0` and presented four days later is
/// valid and is refreshed to that instant; presented six days after that
/// refresh, it is no longer valid and is dropped from the list.
pub proof fn lemma_sliding_expiry(tk: Seq<u8>, t0: i64)
    requires
        t0 + 10 * 86400 <= i64::MAX,
    ensures
        session_valid(seq![(tk, t0)], tk, (t0 + 4 * 86400) as i64),
        after_validation(seq![(tk, t0)], tk, (t0 + 4 * 86400) as i64) == seq![
            (tk, (t0 + 4 * 86400) as i64),
        ],
        !session_valid(seq![(tk, (t0 + 4 * 86400) as i64)], tk, (t0 + 10 * 86400) as i64),
        after_validation(seq![(tk, (t0 + 4 * 86400) as i64)], tk, (t0 + 10 * 86400) as i64)
            == Seq::<(Seq<u8>, i64)>::empty(),
{
    let t1 = (t0 + 4 * 86400) as i64;
    let t2 = (t0 + 10 * 86400) as i64;
    let a = seq![(tk, t0)];
    let b = seq![(tk, t1)];
    reveal_with_fuel(Seq::filter, 2);
    assert(a.drop_last() =~= Seq::<(Seq<u8>, i64)>::empty());
    assert(b.drop_last() =~= Seq::<(Seq<u8>, i64)>::empty());
    assert(a.filter(|t: (Seq<u8>, i64)| alive(t1, t)) =~= a);
    assert(a.map_values(|t: (Seq<u8>, i64)| refreshed(t, tk, t1)) =~= b);
    assert(b.filter(|t: (Seq<u8>, i64)| alive(t2, t)) =~= Seq::<(Seq<u8>, i64)>::empty());
    assert(a[0].0 == tk);
}

/// Names the SHA3-256 digest of a string's UTF-8 bytes.
pub uninterp spec fn sha3_256_of(s: Seq<char>) -> Seq<u8>;

/// Relies on sha3::Sha3_256 (update, finalize): the digest of the string's
/// bytes, which depends on them alone and is 32 bytes long.
#[verifier::external_body]
fn sha3_digest(s: &str) -> (r: Vec<u8>)
    ensures
        r@ == sha3_256_of(s@),
        r@.len() == 32,
{
    let mut hasher = sha3::Sha3_256::new();
    hasher.update(s.as_bytes());
    hasher.finalize().to_vec()
}

/// Relies on chrono::Utc::now and DateTime::timestamp: the current time in
/// whole seconds since the Unix epoch. Nothing is promised of its value.
#[verifier::external_body]
fn now_seconds() -> i64 {
    chrono::Utc::now().timestamp()
}

/// Checks a presented session against the user's tokens at the current time:
/// the presented secret is hashed, dead tokens are dropped and a live match is
/// refreshed. Returns whether the session is valid, whether the account counts
/// as paid, and whether the token list changed and must be stored.
pub fn verify_user(tokens: &mut Vec<Token>, billing: &AccountPlanDetails, token_auth: &TokenAuth)
    -> (r: (bool, bool, bool))
    ensures
        exists|now: i64|
            {
                &&& token_views(final(tokens)@) == #[trigger] after_validation(
                    token_views(old(tokens)@),
                    sha3_256_of(token_auth.token@),
                    now,
                )
                &&& r.0 == session_valid(token_views(old(tokens)@), sha3_256_of(token_auth.token@), now)
                &&& r.1 == billed_at(*billing, now)
                &&& r.2 == (r.0 || any_dead(token_views(old(tokens)@), now))
            },
{
    let now = now_seconds();
    let digest = sha3_digest(token_auth.token.as_str());
    let (valid, store) = validate_session(tokens, &digest, now);
    let billed = is_billed(billing, now);
    (valid, billed, store)
}

/// Opens a new session for user `id`: a fresh 64-character secret is
/// generated, its digest is appended to the tokens as used now, and the secret
/// is handed back.
pub fn get_new_token(tokens: &mut Vec<Token>, id: i64) -> (r: Result<TokenAuth, &'static str>)
    ensures
        r is Ok,
        match r {
            Ok(ta) => ta.id == id && ta.token@.len() == 64 && exists|now: i64|
                token_views(final(tokens)@) == #[trigger] token_views(old(tokens)@).push(
                    (sha3_256_of(ta.token@), now),
                ),
            Err(_) => final(tokens)@ == old(tokens)@,
        },
{
    let token = crate::keys::generate_strong(64)?;
    let digest = sha3_digest(token.as_str());
    let now = now_seconds();
    let ghost before = tokens@;
    tokens.push(Token { tk: digest, from_dt: now });
    proof {
        assert(token_views(tokens@) =~= token_views(before).push((sha3_256_of(token@), now)));
    }
    let ta = TokenAuth { id, token };
    proof {
        assert(token_views(tokens@) == token_views(old(tokens)@).push((sha3_256_of(ta.token@), now)));
    }
    Ok(ta)
}

/// The records of a new account with password `pass`: a fresh salt and the
/// salted password, no tokens, and an unpaid plan dated now.
pub fn create_user(pass: &String) -> (r: Result<
    (UserCredentials, AccountPlanDetails),
    &'static str,
>)
    ensures
        match r {
            Ok((creds, plan)) => {
                &&& creds.salt@.len() == 16
                &&& crate::keys::bcrypt_of(10, creds.salt@, pass@) == Some(creds.salted_pass@)
                &&& creds.tokens@.len() == 0
                &&& !plan.billed_forever
                &&& !plan.is_paid_whenever
                &&& plan.payment_data@.len() == 0
            },
            Err(_) => exists|salt: Seq<u8>|
                salt.len() == 16 && #[trigger] crate::keys::bcrypt_of(10, salt, pass@) is None,
        },
        pass@.len() == 0 ==> r is Err,
{
    let (salt, salted_pass) = crate::keys::salt_pass(pass)?;
    let creds = UserCredentials { salt, salted_pass, tokens: Vec::new() };
    let plan = AccountPlanDetails {
        billed_forever: false,
        payment_data: String::new(),
        is_paid_whenever: false,
        last_payment: now_seconds(),
    };
    Ok((creds, plan))
}

} // verus!
