//! Conversions from the stored formats of version 2.3.2 and earlier.

use vstd::prelude::*;
use crate::auth::UserCredentials;
use crate::model::BoardBackground;

verus! {

/// A session token as version 2.3.2 stored it: the secret in clear.
#[derive(Debug, Clone)]
pub struct Token2_3_2 {
    pub tk: String,
    /// Last use, in seconds since the Unix epoch.
    pub from_dt: i64,
}

/// User credentials as version 2.3.2 stored them.
#[derive(Debug, Clone)]
pub struct UserCredentials2_3_2 {
    pub salt: Vec<u8>,
    pub salted_pass: Vec<u8>,
    pub tokens: Vec<Token2_3_2>,
}

/// A board background from the plain color that version 2.3.2 stored.
pub fn integrate_boards_background_232_to_cur(background_color: &str) -> (r: BoardBackground)
    ensures
        match r {
            BoardBackground::Color { color } => color@ == background_color@,
            BoardBackground::URL { .. } => false,
        },
{
    BoardBackground::Color { color: background_color.to_owned() }
}

/// Current credentials from those of version 2.3.2: salt and salted password
/// are kept, and every old token is dropped, since tokens are now stored as
/// digests.
pub fn integrate_user_creds_232_to_cur(user_credentials: &UserCredentials2_3_2) -> (r:
    UserCredentials)
    ensures
        r.salt@ == user_credentials.salt@,
        r.salted_pass@ == user_credentials.salted_pass@,
        r.tokens@.len() == 0,
{
    UserCredentials {
        salt: crate::auth::copy_bytes(&user_credentials.salt),
        salted_pass: crate::auth::copy_bytes(&user_credentials.salted_pass),
        tokens: Vec::new(),
    }
}

} // verus!
