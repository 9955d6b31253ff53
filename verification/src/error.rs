//! Client-facing, non-exceptional errors and the texts they carry.

use vstd::prelude::*;
use vstd::string::StringExecFns;

verus! {

/// A client-facing, non-exceptional error.
#[derive(Debug)]
pub struct Error {
    /// Error category.
    pub category: &'static str,
    /// Free-form description.
    pub message: String,
}

/// Category of errors about an unknown attribute, rule or sink.
pub open spec fn not_found() -> Seq<char> {
    "df.error.category/not-found"@
}

/// Category of errors about a duplicate rule or attribute, a rewind of logical time, or
/// a variable that no binding mentions.
pub open spec fn conflict() -> Seq<char> {
    "df.error.category/conflict"@
}

/// Category of errors about a malformed request.
pub open spec fn incorrect() -> Seq<char> {
    "df.error.category/incorrect"@
}

/// Category of errors about a request that is understood but not enabled.
pub open spec fn unsupported() -> Seq<char> {
    "df.error.category/unsupported"@
}

impl Error {
    /// Whether the error has the given category and message.
    pub open spec fn says(&self, category: Seq<char>, message: Seq<char>) -> bool {
        self.category@ == category && self.message@ == message
    }

    /// An error of category not-found.
    pub fn not_found(message: String) -> (error: Error)
        ensures
            error.says(not_found(), message@),
    {
        Error { category: "df.error.category/not-found", message }
    }

    /// An error of category conflict.
    pub fn conflict(message: String) -> (error: Error)
        ensures
            error.says(conflict(), message@),
    {
        Error { category: "df.error.category/conflict", message }
    }

    /// An error of category incorrect.
    pub fn incorrect(message: String) -> (error: Error)
        ensures
            error.says(incorrect(), message@),
    {
        Error { category: "df.error.category/incorrect", message }
    }

    /// An error of category unsupported.
    pub fn unsupported(message: String) -> (error: Error)
        ensures
            error.says(unsupported(), message@),
    {
        Error { category: "df.error.category/unsupported", message }
    }
}

/// `prefix`, then `name`, then `suffix`.
pub open spec fn framed(prefix: Seq<char>, name: Seq<char>, suffix: Seq<char>) -> Seq<char> {
    prefix + name + suffix
}

/// Builds the text `prefix`, `name`, `suffix`.
pub fn frame(prefix: &str, name: &str, suffix: &str) -> (text: String)
    ensures
        text@ == framed(prefix@, name@, suffix@),
{
    let mut text = String::from_str(prefix);
    text.append(name);
    text.append(suffix);
    text
}

/// The decimal digit `d` as text.
pub open spec fn digit(d: nat) -> Seq<char>
    recommends
        d < 10,
{
    if d == 0 {
        "0"@
    } else if d == 1 {
        "1"@
    } else if d == 2 {
        "2"@
    } else if d == 3 {
        "3"@
    } else if d == 4 {
        "4"@
    } else if d == 5 {
        "5"@
    } else if d == 6 {
        "6"@
    } else if d == 7 {
        "7"@
    } else if d == 8 {
        "8"@
    } else {
        "9"@
    }
}

/// The decimal notation of `n`, without leading zeros.
pub open spec fn decimal(n: nat) -> Seq<char>
    decreases n,
{
    if n < 10 {
        digit(n)
    } else {
        decimal(n / 10) + digit(n % 10)
    }
}

fn digit_text(d: u64) -> (text: &'static str)
    requires
        d < 10,
    ensures
        text@ == digit(d as nat),
{
    if d == 0 {
        "0"
    } else if d == 1 {
        "1"
    } else if d == 2 {
        "2"
    } else if d == 3 {
        "3"
    } else if d == 4 {
        "4"
    } else if d == 5 {
        "5"
    } else if d == 6 {
        "6"
    } else if d == 7 {
        "7"
    } else if d == 8 {
        "8"
    } else {
        "9"
    }
}

/// Writes `n` in decimal notation.
pub fn decimal_text(n: u64) -> (text: String)
    ensures
        text@ == decimal(n as nat),
    decreases n,
{
    if n < 10 {
        String::from_str(digit_text(n))
    } else {
        let mut text = decimal_text(n / 10);
        text.append(digit_text(n % 10));
        text
    }
}

} // verus!
