use taskboard::auth::{
    bytes_equal, copy_bytes, create_user, get_new_token, is_billed, validate_session, verify_user,
    AccountPlanDetails, Token, TokenAuth, UserCredentials,
};
use taskboard::color::{validate_color, IncorrectColor};
use taskboard::compat::{
    integrate_boards_background_232_to_cur, integrate_user_creds_232_to_cur, Token2_3_2,
    UserCredentials2_3_2,
};
use taskboard::keys::{check_pass, generate_strong, salt_pass};
use taskboard::model::BoardBackground;

const DAY: i64 = 86400;

fn plan(forever: bool, trusted: bool, last: i64) -> AccountPlanDetails {
    AccountPlanDetails {
        billed_forever: forever,
        payment_data: String::new(),
        is_paid_whenever: trusted,
        last_payment: last,
    }
}

#[test]
fn color_shapes() {
    assert_eq!(validate_color("#1a2b3"), Err(IncorrectColor::IncompatibleColorLen));
    assert_eq!(validate_color("1a2b3c"), Err(IncorrectColor::IncompatibleColorLen));
    assert_eq!(validate_color("#1a2b3c"), Ok(()));
    assert_eq!(validate_color("x1a2b3c"), Err(IncorrectColor::IncompatibleColorBeginning));
    assert_eq!(validate_color(""), Err(IncorrectColor::IncompatibleColorLen));
    assert_eq!(validate_color("#1a2b3cd"), Err(IncorrectColor::IncompatibleColorLen));
}

#[test]
fn sliding_expiry() {
    let t0: i64 = 1_700_000_000;
    let secret = vec![1u8, 2, 3];
    let mut tokens = vec![Token { tk: secret.clone(), from_dt: t0 }];
    assert_eq!(validate_session(&mut tokens, &secret, t0 + 4 * DAY), (true, true));
    assert_eq!(tokens.len(), 1);
    assert_eq!(tokens[0].from_dt, t0 + 4 * DAY);
    assert_eq!(validate_session(&mut tokens, &secret, t0 + 10 * DAY), (false, true));
    assert!(tokens.is_empty());
}

#[test]
fn expiry_is_checked_before_identity() {
    let now: i64 = 1_000_000_000;
    let mut tokens = vec![
        Token { tk: vec![1], from_dt: now - 5 * DAY },
        Token { tk: vec![2], from_dt: now - 5 * DAY + 1 },
        Token { tk: vec![3], from_dt: now - 9 * DAY },
        Token { tk: vec![4], from_dt: now - DAY },
    ];
    assert_eq!(validate_session(&mut tokens, &vec![1], now), (false, true));
    assert_eq!(tokens.len(), 2);
    assert_eq!(tokens[0].tk, vec![2]);
    assert_eq!(tokens[0].from_dt, now - 5 * DAY + 1);
    assert_eq!(tokens[1].tk, vec![4]);
}

#[test]
fn nothing_to_store_when_nothing_changed() {
    let now: i64 = 1_000_000_000;
    let mut tokens = vec![Token { tk: vec![7, 7], from_dt: now - DAY }];
    assert_eq!(validate_session(&mut tokens, &vec![8], now), (false, false));
    assert_eq!(tokens[0].from_dt, now - DAY);
    let mut none: Vec<Token> = vec![];
    assert_eq!(validate_session(&mut none, &vec![8], now), (false, false));
}

#[test]
fn billing_window() {
    let now: i64 = 1_000_000_000;
    assert!(is_billed(&plan(true, false, 0), now));
    assert!(is_billed(&plan(false, true, now - 30 * DAY), now));
    assert!(is_billed(&plan(false, true, now - 31 * DAY + 1), now));
    assert!(!is_billed(&plan(false, true, now - 31 * DAY), now));
    assert!(!is_billed(&plan(false, false, now), now));
}

#[test]
fn new_token_then_verify() {
    let mut tokens: Vec<Token> = vec![];
    let auth = get_new_token(&mut tokens, 42).unwrap();
    assert_eq!(auth.id, 42);
    assert_eq!(auth.token.chars().count(), 64);
    assert_eq!(tokens.len(), 1);
    assert_eq!(tokens[0].tk.len(), 32);
    assert!(!auth.token.as_bytes().starts_with(&tokens[0].tk));
    let (valid, billed, store) = verify_user(&mut tokens, &plan(true, false, 0), &auth);
    assert!(valid && billed && store);
    let wrong = TokenAuth { id: 42, token: "not-the-secret".to_string() };
    let (valid, billed, store) = verify_user(&mut tokens, &plan(false, false, 0), &wrong);
    assert!(!valid && !billed && !store);
    assert_eq!(tokens.len(), 1);
}

#[test]
fn known_sha3_digest_is_stored() {
    // SHA3-256 of "abc".
    let expected: Vec<u8> = vec![
        0x3a, 0x98, 0x5d, 0xa7, 0x4f, 0xe2, 0x25, 0xb2, 0x04, 0x5c, 0x17, 0x2d, 0x6b, 0xd3, 0x90,
        0xbd, 0x85, 0x5f, 0x08, 0x6e, 0x3e, 0x9d, 0x52, 0x5b, 0x46, 0xbf, 0xe2, 0x45, 0x11, 0x43,
        0x15, 0x32,
    ];
    let now = 4_000_000_000i64;
    let mut tokens = vec![Token { tk: expected, from_dt: now }];
    let auth = TokenAuth { id: 1, token: "abc".to_string() };
    let (valid, _, _) = verify_user(&mut tokens, &plan(false, false, 0), &auth);
    assert!(valid);
}

#[test]
fn passwords_are_salted() {
    let pass = "correct horse".to_string();
    let (salt, salted) = salt_pass(&pass).unwrap();
    assert_eq!(salt.len(), 16);
    assert_eq!(salted.len(), 24);
    assert_ne!(salted, pass.as_bytes().to_vec());
    assert!(check_pass(&salt, &salted, &pass));
    assert!(!check_pass(&salt, &salted, &"wrong horse".to_string()));
    assert!(salt_pass(&String::new()).is_err());
    assert!(!check_pass(&salt, &salted, &String::new()));
}

#[test]
fn new_user_records() {
    let (creds, billing): (UserCredentials, AccountPlanDetails) =
        create_user(&"secret-pass".to_string()).unwrap();
    assert!(creds.tokens.is_empty());
    assert!(check_pass(&creds.salt, &creds.salted_pass, &"secret-pass".to_string()));
    assert!(!billing.billed_forever && !billing.is_paid_whenever);
    assert!(create_user(&String::new()).is_err());
}

#[test]
fn generated_secrets() {
    let a = generate_strong(64).unwrap();
    let b = generate_strong(64).unwrap();
    assert_eq!(a.chars().count(), 64);
    assert_ne!(a, b);
    assert!(generate_strong(0).is_err());
    assert!(generate_strong(3).is_err());
    assert_eq!(generate_strong(4).unwrap().chars().count(), 4);
}

#[test]
fn byte_helpers() {
    assert!(bytes_equal(&vec![1, 2], &vec![1, 2]));
    assert!(!bytes_equal(&vec![1, 2], &vec![1]));
    assert!(!bytes_equal(&vec![1, 2], &vec![1, 3]));
    assert_eq!(copy_bytes(&vec![9, 8, 7]), vec![9, 8, 7]);
}

#[test]
fn legacy_records() {
    match integrate_boards_background_232_to_cur("#abcdef") {
        BoardBackground::Color { color } => assert_eq!(color, "#abcdef"),
        BoardBackground::URL { .. } => panic!("expected a color"),
    }
    let old = UserCredentials2_3_2 {
        salt: vec![1, 2],
        salted_pass: vec![3, 4],
        tokens: vec![Token2_3_2 { tk: "t".to_string(), from_dt: 5 }],
    };
    let creds = integrate_user_creds_232_to_cur(&old);
    assert_eq!(creds.salt, vec![1, 2]);
    assert_eq!(creds.salted_pass, vec![3, 4]);
    assert!(creds.tokens.is_empty());
}
