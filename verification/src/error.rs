//! Parse diagnostics.

use vstd::prelude::*;
use vstd::string::StringExecFns;

verus! {

/// A diagnostic of the tree builder: a message and the source line it was
/// reported at.
#[derive(Debug)]
pub struct Error {
    line: u64,
    message: String,
}

/// The value of an [`Error`].
pub struct ErrorView {
    pub line: u64,
    pub message: Seq<char>,
}

impl View for Error {
    type V = ErrorView;

    closed spec fn view(&self) -> ErrorView {
        ErrorView { line: self.line, message: self.message@ }
    }
}

/// The values of a list of diagnostics, in order.
pub open spec fn error_views(errors: Seq<Error>) -> Seq<ErrorView> {
    errors.map_values(|e: Error| e@)
}

/// The character of a decimal digit.
pub open spec fn digit(d: nat) -> char {
    if d == 0 {
        '0'
    } else if d == 1 {
        '1'
    } else if d == 2 {
        '2'
    } else if d == 3 {
        '3'
    } else if d == 4 {
        '4'
    } else if d == 5 {
        '5'
    } else if d == 6 {
        '6'
    } else if d == 7 {
        '7'
    } else if d == 8 {
        '8'
    } else {
        '9'
    }
}

/// The decimal digits of `n`, without leading zeros.
pub open spec fn decimal(n: nat) -> Seq<char>
    decreases n,
{
    if n < 10 {
        seq![digit(n)]
    } else {
        decimal(n / 10).push(digit(n % 10))
    }
}

/// The text of a diagnostic.
pub open spec fn error_text(e: ErrorView) -> Seq<char> {
    "sxd_html error at line "@ + decimal(e.line as nat) + " : "@ + e.message
}

fn digit_text(d: u64) -> (text: &'static str)
    requires
        d < 10,
    ensures
        text@ == seq![digit(d as nat)],
{
    proof {
        reveal_strlit("0");
        reveal_strlit("1");
        reveal_strlit("2");
        reveal_strlit("3");
        reveal_strlit("4");
        reveal_strlit("5");
        reveal_strlit("6");
        reveal_strlit("7");
        reveal_strlit("8");
        reveal_strlit("9");
    }
    let text = if d == 0 {
        "0"
    } else if d == 1 {
        "1"
    } else if d == 2 {
        "2"
    } else if d == 3 {
        "3"
    } else if d == 4 {
        "4"
    } else if d == 5 {
        "5"
    } else if d == 6 {
        "6"
    } else if d == 7 {
        "7"
    } else if d == 8 {
        "8"
    } else {
        "9"
    };
    assert(text@ =~= seq![digit(d as nat)]);
    text
}

/// The decimal digits of `n`.
pub fn decimal_text(n: u64) -> (text: String)
    ensures
        text@ == decimal(n as nat),
    decreases n,
{
    if n < 10 {
        String::from_str(digit_text(n))
    } else {
        let text = decimal_text(n / 10).concat(digit_text(n % 10));
        assert(text@ =~= decimal(n as nat));
        text
    }
}

impl Error {
    /// A diagnostic with the given line and message.
    pub fn new(line: u64, msg: String) -> (error: Error)
        ensures
            error@ == (ErrorView { line, message: msg@ }),
    {
        Error { line, message: msg }
    }

    /// The source line the diagnostic was reported at.
    pub fn line(&self) -> (line: u64)
        ensures
            line == self@.line,
    {
        self.line
    }

    /// The message of the diagnostic.
    pub fn message(&self) -> (message: &str)
        ensures
            message@ == self@.message,
    {
        self.message.as_str()
    }

    /// The diagnostic as one line of text.
    pub fn to_string(&self) -> (text: String)
        ensures
            text@ == error_text(self@),
    {
        let text = String::from_str("sxd_html error at line ").concat(decimal_text(self.line).as_str()).concat(
            " : ",
        ).concat(self.message.as_str());
        text
    }
}

} // verus!
