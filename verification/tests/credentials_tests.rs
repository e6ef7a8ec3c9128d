use dropbox_cp::credentials::{
    choose_credentials, incomplete_credentials_message, missing_credentials_message, Credentials,
};

#[test]
fn access_token_wins() {
    match choose_credentials("  tok ", "k", "s", "r") {
        Credentials::AccessToken { token } => assert_eq!(token, "tok"),
        other => panic!("unexpected {:?}", other),
    }
}

#[test]
fn refresh_triple() {
    match choose_credentials(" ", " k", "s ", "\tr") {
        Credentials::RefreshToken { app_key, app_secret, refresh_token } => {
            assert_eq!(app_key, "k");
            assert_eq!(app_secret, "s");
            assert_eq!(refresh_token, "r");
        }
        other => panic!("unexpected {:?}", other),
    }
}

#[test]
fn incomplete_lists_each_variable() {
    let expected = "Incomplete Dropbox credentials for refresh-token authentication. Each variable below must be set (non-empty):\n  DROPBOX_APP_KEY  (set) Dropbox app key (OAuth client_id) from the App Console.\n  DROPBOX_APP_SECRET  — MISSING — Dropbox app secret (OAuth client_secret) from the App Console.\n  DROPBOX_REFRESH_TOKEN  — MISSING — OAuth2 refresh token for the user you want to upload as.\n";
    assert_eq!(incomplete_credentials_message(true, false, false), expected);
    match choose_credentials("", "key", "  ", "") {
        Credentials::Incomplete { message } => assert_eq!(message, expected),
        other => panic!("unexpected {:?}", other),
    }
}

#[test]
fn nothing_set_is_missing() {
    match choose_credentials("", " ", "", "\n") {
        Credentials::Missing { message } => {
            assert_eq!(message, missing_credentials_message());
            assert!(message.starts_with("Missing Dropbox credentials. Use one of the following:\n\nOption A"));
            assert!(message.ends_with("DROPBOX_APP_KEY, DROPBOX_APP_SECRET, DROPBOX_REFRESH_TOKEN (for option B)."));
        }
        other => panic!("unexpected {:?}", other),
    }
}
