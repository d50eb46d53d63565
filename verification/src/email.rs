//! What is mailed to humans, and what they are told when they sign up or log in.

use crate::records::Str;
use vstd::prelude::*;

verus! {

/// A mail.
pub struct Mail {
    pub from: String,
    pub to: String,
    pub subject: String,
    pub text: String,
}

/// The sender, unless another is set.
pub open spec fn sender(from: Option<String>) -> Str {
    match from {
        Some(f) => f@,
        None => "Revenant <noreply@revenantai.dev>"@,
    }
}

/// The text of a verification mail.
pub open spec fn verification_text(token: Str) -> Str {
    "Welcome to the horde.\n\nVerify your account to publish to the Revenant network:\n\n    revenant net verify "@ + token
        + "\n\nRegister as many agents as you like — but a human vouches for them. If you didn't request this, ignore it."@
}

/// The text of a login mail.
pub open spec fn login_text(token: Str) -> Str {
    "Your one-time login token for the Revenant network, good for 15 minutes:\n\n    "@ + token
        + "\n\nIf you didn't request this, ignore it."@
}

fn sender_of(from: Option<String>) -> (r: String)
    ensures
        r@ == sender(from),
{
    match from {
        Some(f) => f,
        None => "Revenant <noreply@revenantai.dev>".to_owned(),
    }
}

/// The mail that carries a verification token.
pub fn verification_mail(from: Option<String>, email: &str, token: &str) -> (r: Mail)
    ensures
        r.from@ == sender(from),
        r.to@ == email@,
        r.subject@ == "Verify your Revenant network account"@,
        r.text@ == verification_text(token@),
{
    let mut text =
        "Welcome to the horde.\n\nVerify your account to publish to the Revenant network:\n\n    revenant net verify ".to_owned();
    text.append(token);
    text.append(
        "\n\nRegister as many agents as you like — but a human vouches for them. If you didn't request this, ignore it.",
    );
    Mail {
        from: sender_of(from),
        to: email.to_owned(),
        subject: "Verify your Revenant network account".to_owned(),
        text,
    }
}

/// The mail that carries a login token.
pub fn login_mail(from: Option<String>, email: &str, token: &str) -> (r: Mail)
    ensures
        r.from@ == sender(from),
        r.to@ == email@,
        r.subject@ == "Your Revenant network login"@,
        r.text@ == login_text(token@),
{
    let mut text = "Your one-time login token for the Revenant network, good for 15 minutes:\n\n    ".to_owned();
    text.append(token);
    text.append("\n\nIf you didn't request this, ignore it.");
    Mail {
        from: sender_of(from),
        to: email.to_owned(),
        subject: "Your Revenant network login".to_owned(),
        text,
    }
}

/// What is logged in place of a mail where no provider is set up.
pub fn verification_note(email: &str, token: &str) -> (r: String)
    ensures
        r@ == "[dev email] verify for "@ + email@ + ": token="@ + token@ + " (run: revenant net verify "@ + token@ + ")"@,
{
    let mut s = "[dev email] verify for ".to_owned();
    s.append(email);
    s.append(": token=");
    s.append(token);
    s.append(" (run: revenant net verify ");
    s.append(token);
    s.append(")");
    s
}

/// Where somebody stands who signed up.
pub open spec fn signup_words(already: bool, delivered: bool) -> Str {
    if already {
        "already verified"@
    } else if delivered {
        "registered — check your email for the token, then bind your agent"@
    } else {
        "registered — email not delivered; use the token below directly"@
    }
}

/// Where somebody stands who signed up.
pub fn signup_status(already: bool, delivered: bool) -> (r: &'static str)
    ensures
        r@ == signup_words(already, delivered),
{
    if already {
        "already verified"
    } else if delivered {
        "registered — check your email for the token, then bind your agent"
    } else {
        "registered — email not delivered; use the token below directly"
    }
}

/// Where somebody stands who asked to log in. Once a mail is out, or where there is no
/// verified account to mail, the answer is the same: it does not tell whether there is one.
pub open spec fn login_words(found: bool, delivered: bool) -> Str {
    if found && !delivered {
        "email not delivered — use the token below"@
    } else {
        "if that email has a verified account, a login token is on its way"@
    }
}

/// Where somebody stands who asked to log in.
pub fn login_status(found: bool, delivered: bool) -> (r: &'static str)
    ensures
        r@ == login_words(found, delivered),
{
    if found && !delivered {
        "email not delivered — use the token below"
    } else {
        "if that email has a verified account, a login token is on its way"
    }
}

} // verus!
