//! Secrets and salted passwords.

use vstd::prelude::*;

verus! {

/// Names the bcrypt hash of a password with a salt at a cost, when bcrypt
/// accepts the input.
pub uninterp spec fn bcrypt_of(cost: u8, salt: Seq<u8>, pass: Seq<char>) -> Option<Seq<u8>>;

/// Relies on passwords::hasher::bcrypt: a 24-byte hash that depends on cost,
/// salt and password alone; refused for a cost of 32 or more, or an empty password.
#[verifier::external_body]
fn bcrypt_hash(cost: u8, salt: &Vec<u8>, pass: &str) -> (r: Result<Vec<u8>, &'static str>)
    ensures
        match r {
            Ok(h) => bcrypt_of(cost, salt@, pass@) == Some(h@) && h@.len() == 24,
            Err(_) => bcrypt_of(cost, salt@, pass@) is None,
        },
        cost >= 32 ==> r is Err,
        pass@.len() == 0 ==> r is Err,
{
    match passwords::hasher::bcrypt(cost, salt.as_slice(), pass) {
        Ok(h) => Ok(h.to_vec()),
        Err(e) => Err(e),
    }
}

/// Relies on passwords::hasher::gen_salt: 16 random bytes.
#[verifier::external_body]
fn gen_salt_bytes() -> (r: Vec<u8>)
    ensures
        r@.len() == 16,
{
    passwords::hasher::gen_salt().to_vec()
}

/// Relies on passwords::PasswordGenerator::generate_one: a random secret of
/// digits, letters of both cases and symbols, without spaces or look-alike
/// characters, exactly `length` characters long. Each of the four kinds must
/// occur, so a length under 4 is refused.
#[verifier::external_body]
pub fn generate_strong(length: usize) -> (r: Result<String, &'static str>)
    ensures
        (r is Ok) == (length >= 4),
        r is Ok ==> r->Ok_0@.len() == length,
{
    let pg = passwords::PasswordGenerator {
        length,
        numbers: true,
        lowercase_letters: true,
        uppercase_letters: true,
        symbols: true,
        strict: true,
        exclude_similar_characters: true,
        spaces: false,
    };
    pg.generate_one()
}

/// Salts and hashes a password for storage. Returns the salt and the salted
/// password.
pub fn salt_pass(pass: &String) -> (r: Result<(Vec<u8>, Vec<u8>), &'static str>)
    ensures
        match r {
            Ok((salt, salted)) => salt@.len() == 16 && bcrypt_of(10, salt@, pass@) == Some(salted@),
            Err(_) => exists|salt: Seq<u8>| salt.len() == 16 && bcrypt_of(10, salt, pass@) is None,
        },
        pass@.len() == 0 ==> r is Err,
{
    let salt = gen_salt_bytes();
    match bcrypt_hash(10, &salt, pass.as_str()) {
        Ok(salted) => Ok((salt, salted)),
        Err(e) => Err(e),
    }
}

/// Whether `guessed_pass`, salted with `salt`, gives the stored `salted_pass`.
pub fn check_pass(salt: &Vec<u8>, salted_pass: &Vec<u8>, guessed_pass: &String) -> (r: bool)
    ensures
        r == (bcrypt_of(10, salt@, guessed_pass@) == Some(salted_pass@)),
{
    match bcrypt_hash(10, salt, guessed_pass.as_str()) {
        Ok(h) => crate::auth::bytes_equal(&h, salted_pass),
        Err(_) => false,
    }
}

} // verus!
