use vstd::prelude::*;

verus! {

/// What `str::trim` makes of a text: the text without its leading and
/// trailing whitespace.
pub uninterp spec fn trimmed(s: Seq<char>) -> Seq<char>;

/// Relies on `str::trim`: the result depends on the characters alone.
#[verifier::external_body]
fn trim<'a>(s: &'a str) -> (r: &'a str)
    ensures
        r@ == trimmed(s@),
{
    s.trim()
}

/// The configuration key of the display name.
pub open spec fn user_name_key() -> Seq<char> {
    "user.name"@
}

/// The configuration key of the email address.
pub open spec fn user_email_key() -> Seq<char> {
    "user.email"@
}

/// What a read of a setting reports where the tool gave no value.
pub open spec fn not_set() -> Seq<char> {
    "Not set"@
}

/// The message of a failed write of `key`, given what the tool wrote to its error stream.
pub open spec fn set_failure_message(key: Seq<char>, stderr: Seq<char>) -> Seq<char> {
    "Failed to set "@ + key + ": "@ + stderr
}

/// One setting to write: a key of the tool's global configuration and its value.
pub struct Setting {
    pub key: String,
    pub value: String,
}

impl View for Setting {
    type V = (Seq<char>, Seq<char>);

    open spec fn view(&self) -> (Seq<char>, Seq<char>) {
        (self.key@, self.value@)
    }
}

/// The key under which the display name is written.
pub fn user_name_key_string() -> (r: String)
    ensures
        r@ == user_name_key(),
{
    String::from_str("user.name")
}

/// The key under which the email address is written.
pub fn user_email_key_string() -> (r: String)
    ensures
        r@ == user_email_key(),
{
    String::from_str("user.email")
}

/// What a read of a setting yields: the tool's output without surrounding
/// whitespace where it succeeded, else "Not set".
pub fn get_outcome(success: bool, stdout: &str) -> (r: String)
    ensures
        r@ == if success {
            trimmed(stdout@)
        } else {
            not_set()
        },
{
    if success {
        String::from_str(trim(stdout))
    } else {
        String::from_str("Not set")
    }
}

/// What a write of `key` yields: success where the tool succeeded, else an
/// error that names the key and holds the tool's error output.
pub fn set_outcome(key: &str, success: bool, stderr: &str) -> (r: Result<(), String>)
    ensures
        success ==> r is Ok,
        !success ==> r is Err && r->Err_0@ == set_failure_message(key@, stderr@),
{
    if success {
        Ok(())
    } else {
        let mut message = String::from_str("Failed to set ");
        message.append(key);
        message.append(": ");
        message.append(stderr);
        Err(message)
    }
}

/// Whether a trimmed answer accepts: exactly "y" or "Y".
pub open spec fn is_yes_spec(t: Seq<char>) -> bool {
    t == seq!['y'] || t == seq!['Y']
}

/// Whether an answer, already trimmed, accepts.
pub fn is_yes(t: &str) -> (r: bool)
    ensures
        r == is_yes_spec(t@),
{
    if t.unicode_len() != 1 {
        return false;
    }
    let c = t.get_char(0);
    let r = c == 'y' || c == 'Y';
    proof {
        if r {
            assert(t@ =~= seq![c]);
        }
    }
    r
}

/// Whether an answer typed at the overwrite prompt accepts: "y" or "Y",
/// with any surrounding whitespace.
pub fn confirms_overwrite(answer: &str) -> (r: bool)
    ensures
        r == is_yes_spec(trimmed(answer@)),
{
    is_yes(trim(answer))
}

} // verus!
