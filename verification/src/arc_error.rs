use vstd::prelude::*;

verus! {

/// `std::io::Error`, carried through as an opaque value.
#[verifier::external_type_specification]
#[verifier::external_body]
pub struct ExIoError(std::io::Error);

/// The error type of the whole gateway.
#[derive(Debug)]
pub enum ArcError {
    Io { op: &'static str, err: std::io::Error },
    Config { msg: String },
    Proto { msg: &'static str },
    Plugin { msg: &'static str },
    RateLimit { msg: &'static str },
    Observability { msg: &'static str },
    Internal { msg: String },
}

/// The text of an I/O error, as its `Display` writes it.
#[verifier::external_body]
fn io_error_text(e: &std::io::Error) -> String {
    format!("{e}")
}

impl ArcError {
    pub fn io(op: &'static str, err: std::io::Error) -> (r: Self)
        ensures
            r matches ArcError::Io { op: o, .. } && o == op,
    {
        ArcError::Io { op, err }
    }

    pub fn config(msg: String) -> (r: Self)
        ensures
            r == (ArcError::Config { msg }),
    {
        ArcError::Config { msg }
    }

    pub fn proto(msg: &'static str) -> (r: Self)
        ensures
            r == (ArcError::Proto { msg }),
    {
        ArcError::Proto { msg }
    }

    pub fn plugin(msg: &'static str) -> (r: Self)
        ensures
            r == (ArcError::Plugin { msg }),
    {
        ArcError::Plugin { msg }
    }

    pub fn rate_limit(msg: &'static str) -> (r: Self)
        ensures
            r == (ArcError::RateLimit { msg }),
    {
        ArcError::RateLimit { msg }
    }

    pub fn observability(msg: &'static str) -> (r: Self)
        ensures
            r == (ArcError::Observability { msg }),
    {
        ArcError::Observability { msg }
    }

    pub fn internal(msg: String) -> (r: Self)
        ensures
            r == (ArcError::Internal { msg }),
    {
        ArcError::Internal { msg }
    }

    /// The message of a config error; empty for the other kinds.
    pub open spec fn config_msg(self) -> Seq<char> {
        match self {
            ArcError::Config { msg } => msg@,
            _ => Seq::empty(),
        }
    }

    /// The text the error displays as: a prefix naming its kind, then its
    /// message (for I/O errors, the operation and the I/O error's text).
    pub fn describe(&self) -> (r: String)
        ensures
            self matches ArcError::Config { msg } ==> r@ == "config error: "@ + msg@,
            self matches ArcError::Internal { msg } ==> r@ == "internal error: "@ + msg@,
            self matches ArcError::Proto { msg } ==> r@ == "proto error: "@ + msg@,
            self matches ArcError::Plugin { msg } ==> r@ == "plugin error: "@ + msg@,
            self matches ArcError::RateLimit { msg } ==> r@ == "rate limit error: "@ + msg@,
            self matches ArcError::Observability { msg } ==> r@ == "observability error: "@ + msg@,
            self matches ArcError::Io { op, .. } ==> r@.subrange(0, 12 + op@.len() as int) == "io error in "@ + op@,
    {
        match self {
            ArcError::Io { op, err } => {
                let mut s = String::from_str("io error in ");
                s.append(op);
                s.append(": ");
                let t = io_error_text(err);
                s.append(t.as_str());
                proof {
                    reveal_strlit("io error in ");
                    assert(s@.subrange(0, 12 + op@.len() as int) =~= "io error in "@ + op@);
                }
                s
            },
            ArcError::Config { msg } => {
                let mut s = String::from_str("config error: ");
                s.append(msg.as_str());
                s
            },
            ArcError::Proto { msg } => {
                let mut s = String::from_str("proto error: ");
                s.append(msg);
                s
            },
            ArcError::Plugin { msg } => {
                let mut s = String::from_str("plugin error: ");
                s.append(msg);
                s
            },
            ArcError::RateLimit { msg } => {
                let mut s = String::from_str("rate limit error: ");
                s.append(msg);
                s
            },
            ArcError::Observability { msg } => {
                let mut s = String::from_str("observability error: ");
                s.append(msg);
                s
            },
            ArcError::Internal { msg } => {
                let mut s = String::from_str("internal error: ");
                s.append(msg.as_str());
                s
            },
        }
    }
}

} // verus!
