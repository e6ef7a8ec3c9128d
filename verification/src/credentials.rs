//! Which Dropbox credentials to use, from the values of the credential
//! environment variables, and the messages shown when they are incomplete or
//! missing.

use vstd::prelude::*;
use crate::text::{trim, trimmed};

verus! {

/// Environment variable holding a long-lived access token (option A).
pub const DROPBOX_ACCESS_TOKEN: &'static str = "DROPBOX_ACCESS_TOKEN";
/// Environment variable holding the app key (option B).
pub const DROPBOX_APP_KEY: &'static str = "DROPBOX_APP_KEY";
/// Environment variable holding the app secret (option B).
pub const DROPBOX_APP_SECRET: &'static str = "DROPBOX_APP_SECRET";
/// Environment variable holding the refresh token (option B).
pub const DROPBOX_REFRESH_TOKEN: &'static str = "DROPBOX_REFRESH_TOKEN";

/// The credentials to authenticate with, or why there are none.
#[derive(Debug)]
pub enum Credentials {
    /// Option A: a long-lived access token.
    AccessToken { token: String },
    /// Option B: app key and secret with a refresh token.
    RefreshToken { app_key: String, app_secret: String, refresh_token: String },
    /// Some but not all of option B's variables are set; the message says which.
    Incomplete { message: String },
    /// No credential variable is set; the message explains both options.
    Missing { message: String },
}

/// `Credentials` with its texts as character sequences.
pub enum CredentialsView {
    AccessToken { token: Seq<char> },
    RefreshToken { app_key: Seq<char>, app_secret: Seq<char>, refresh_token: Seq<char> },
    Incomplete { message: Seq<char> },
    Missing { message: Seq<char> },
}

impl View for Credentials {
    type V = CredentialsView;

    open spec fn view(&self) -> CredentialsView {
        match self {
            Credentials::AccessToken { token } => CredentialsView::AccessToken { token: token@ },
            Credentials::RefreshToken { app_key, app_secret, refresh_token } => CredentialsView::RefreshToken {
                app_key: app_key@,
                app_secret: app_secret@,
                refresh_token: refresh_token@,
            },
            Credentials::Incomplete { message } => CredentialsView::Incomplete { message: message@ },
            Credentials::Missing { message } => CredentialsView::Missing { message: message@ },
        }
    }
}

/// The text shown when no credential variable is set.
pub open spec fn missing_credentials_text() -> Seq<char> {
    MISSING_TEXT@
}

/// The line of the incomplete-credentials message for one variable.
pub open spec fn credential_line(name: Seq<char>, present: bool, desc: Seq<char>) -> Seq<char> {
    "  "@ + name + "  "@ + (if present { "(set) "@ } else { "— MISSING — "@ }) + desc + "\n"@
}

/// The text shown when only some of option B's variables are set: a header,
/// then a line per variable saying whether it is set.
pub open spec fn incomplete_credentials_text(key_set: bool, secret_set: bool, refresh_set: bool) -> Seq<char> {
    "Incomplete Dropbox credentials for refresh-token authentication. Each variable below must be set (non-empty):\n"@
        + credential_line(DROPBOX_APP_KEY@, key_set, "Dropbox app key (OAuth client_id) from the App Console."@)
        + credential_line(DROPBOX_APP_SECRET@, secret_set, "Dropbox app secret (OAuth client_secret) from the App Console."@)
        + credential_line(DROPBOX_REFRESH_TOKEN@, refresh_set, "OAuth2 refresh token for the user you want to upload as."@)
}

/// The credentials chosen from the variables' values, each trimmed of white
/// space: the access token when it is set; else the refresh-token triple when
/// all three are set; else the incomplete message when any is set; else the
/// missing message.
pub open spec fn chosen_credentials(access: Seq<char>, key: Seq<char>, secret: Seq<char>, refresh: Seq<char>) -> CredentialsView {
    let a = trimmed(access);
    let k = trimmed(key);
    let s = trimmed(secret);
    let r = trimmed(refresh);
    if a.len() > 0 {
        CredentialsView::AccessToken { token: a }
    } else if k.len() > 0 && s.len() > 0 && r.len() > 0 {
        CredentialsView::RefreshToken { app_key: k, app_secret: s, refresh_token: r }
    } else if k.len() > 0 || s.len() > 0 || r.len() > 0 {
        CredentialsView::Incomplete { message: incomplete_credentials_text(k.len() > 0, s.len() > 0, r.len() > 0) }
    } else {
        CredentialsView::Missing { message: missing_credentials_text() }
    }
}

fn credential_line_string(out: String, name: &str, present: bool, desc: &str) -> (res: String)
    ensures
        res@ == out@ + credential_line(name@, present, desc@),
{
    let res = out.concat("  ").concat(name).concat("  ");
    let res = if present {
        res.concat("(set) ")
    } else {
        res.concat("— MISSING — ")
    };
    let res = res.concat(desc).concat("\n");
    assert(res@ =~= out@ + credential_line(name@, present, desc@));
    res
}

/// The message listing which of option B's variables are set.
pub fn incomplete_credentials_message(key_set: bool, secret_set: bool, refresh_set: bool) -> (m: String)
    ensures
        m@ == incomplete_credentials_text(key_set, secret_set, refresh_set),
{
    let m = String::from_str(
        "Incomplete Dropbox credentials for refresh-token authentication. Each variable below must be set (non-empty):\n",
    );
    let m = credential_line_string(m, DROPBOX_APP_KEY, key_set, "Dropbox app key (OAuth client_id) from the App Console.");
    let m = credential_line_string(m, DROPBOX_APP_SECRET, secret_set, "Dropbox app secret (OAuth client_secret) from the App Console.");
    let m = credential_line_string(m, DROPBOX_REFRESH_TOKEN, refresh_set, "OAuth2 refresh token for the user you want to upload as.");
    assert(m@ =~= incomplete_credentials_text(key_set, secret_set, refresh_set));
    m
}

/// The text of the message shown when no credential variable is set.
pub const MISSING_TEXT: &'static str = "Missing Dropbox credentials. Use one of the following:\n\nOption A — access token (short-lived unless you refresh it yourself):\nDROPBOX_ACCESS_TOKEN   OAuth2 access token for your Dropbox app (Bearer token).\n\nOption B — app + refresh token (recommended for automation):\nDROPBOX_APP_KEY          Your app's App key (OAuth client_id).\nDROPBOX_APP_SECRET      Your app's App secret (OAuth client_secret).\nDROPBOX_REFRESH_TOKEN   A refresh token for the linked user account.\n\nObtain tokens via the Dropbox App Console and OAuth 2 guide:\nhttps://www.dropbox.com/developers/documentation/http/documentation#authorization\n\nCurrently missing:\nDROPBOX_ACCESS_TOKEN (for option A), or all of:\nDROPBOX_APP_KEY, DROPBOX_APP_SECRET, DROPBOX_REFRESH_TOKEN (for option B).";

/// The message explaining both ways to provide credentials.
pub fn missing_credentials_message() -> (m: String)
    ensures
        m@ == missing_credentials_text(),
{
    String::from_str(MISSING_TEXT)
}

/// Chooses the credentials from the raw values of `DROPBOX_ACCESS_TOKEN`,
/// `DROPBOX_APP_KEY`, `DROPBOX_APP_SECRET` and `DROPBOX_REFRESH_TOKEN` (empty
/// when a variable is unset).
pub fn choose_credentials(access: &str, key: &str, secret: &str, refresh: &str) -> (c: Credentials)
    ensures
        c@ == chosen_credentials(access@, key@, secret@, refresh@),
{
    let a = trim(access);
    let k = trim(key);
    let s = trim(secret);
    let r = trim(refresh);
    if !a.is_empty() {
        Credentials::AccessToken { token: String::from_str(a) }
    } else if !k.is_empty() && !s.is_empty() && !r.is_empty() {
        Credentials::RefreshToken {
            app_key: String::from_str(k),
            app_secret: String::from_str(s),
            refresh_token: String::from_str(r),
        }
    } else if !k.is_empty() || !s.is_empty() || !r.is_empty() {
        Credentials::Incomplete {
            message: incomplete_credentials_message(!k.is_empty(), !s.is_empty(), !r.is_empty()),
        }
    } else {
        Credentials::Missing { message: missing_credentials_message() }
    }
}

/// Which credentials are chosen, told by the trimmed values alone: a set
/// access token is used as it is; otherwise the refresh-token set is used
/// only when all three of its values are set, and then exactly those; when
/// some but not all are set the result is the incomplete message, which says
/// of each whether it is set; when nothing is set, the missing message.
pub proof fn law_credentials_choice(access: Seq<char>, key: Seq<char>, secret: Seq<char>, refresh: Seq<char>)
    ensures
        ({
            let c = chosen_credentials(access, key, secret, refresh);
            let a = trimmed(access);
            let k = trimmed(key);
            let s = trimmed(secret);
            let r = trimmed(refresh);
            &&& a.len() > 0 ==> c == CredentialsView::AccessToken { token: a }
            &&& (c matches CredentialsView::RefreshToken { app_key, app_secret, refresh_token } ==> a.len() == 0
                && app_key.len() > 0 && app_secret.len() > 0 && refresh_token.len() > 0 && app_key == k
                && app_secret == s && refresh_token == r)
            &&& a.len() == 0 && k.len() > 0 && s.len() > 0 && r.len() > 0 ==> c is RefreshToken
            &&& a.len() == 0 && (k.len() == 0 || s.len() == 0 || r.len() == 0) && (k.len() > 0 || s.len()
                > 0 || r.len() > 0) ==> c == CredentialsView::Incomplete {
                message: incomplete_credentials_text(k.len() > 0, s.len() > 0, r.len() > 0),
            }
            &&& a.len() == 0 && k.len() == 0 && s.len() == 0 && r.len() == 0 ==> c == CredentialsView::Missing {
                message: missing_credentials_text(),
            }
        }),
{
}

/// The incomplete message says of each refresh-token variable whether it is
/// set: the same header, then each variable's line with "(set) " or
/// "— MISSING — " as given.
pub proof fn law_incomplete_message_lines(key_set: bool, secret_set: bool, refresh_set: bool)
    ensures
        incomplete_credentials_text(key_set, secret_set, refresh_set) == "Incomplete Dropbox credentials for refresh-token authentication. Each variable below must be set (non-empty):\n"@
            + ("  "@ + DROPBOX_APP_KEY@ + "  "@ + (if key_set { "(set) "@ } else { "— MISSING — "@ }) + "Dropbox app key (OAuth client_id) from the App Console."@ + "\n"@)
            + ("  "@ + DROPBOX_APP_SECRET@ + "  "@ + (if secret_set { "(set) "@ } else { "— MISSING — "@ }) + "Dropbox app secret (OAuth client_secret) from the App Console."@ + "\n"@)
            + ("  "@ + DROPBOX_REFRESH_TOKEN@ + "  "@ + (if refresh_set { "(set) "@ } else { "— MISSING — "@ }) + "OAuth2 refresh token for the user you want to upload as."@ + "\n"@),
{
}

} // verus!
