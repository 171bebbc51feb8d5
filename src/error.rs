//! Error types of the codecs.

use vstd::prelude::*;
use vstd::string::StringExecFns;

verus! {

/// Errors of the archive codec.
#[derive(Debug, Clone, PartialEq, Eq)]
pub enum MixError {
    /// A read or write of the surrounding program failed.
    IoError(String),
    /// The wrapped session key is too short, or the cipher rejected the key.
    CryptoError(String),
    /// The bytes do not hold a well-formed archive.
    InvalidFormat(String),
    /// A named file does not exist.
    FileNotFound(String),
    /// The arguments of a call contradict each other.
    InvalidArgument(String),
}

/// Errors shared by the asset codecs.
#[derive(Debug, Clone, PartialEq, Eq)]
pub enum Ra2Error {
    /// A read or write of the surrounding program failed.
    IoError(String),
    /// The wrapped session key is too short, or the cipher rejected the key.
    CryptoError {
        /// What went wrong.
        message: String,
    },
    /// The bytes do not hold a well-formed file of the expected format.
    InvalidFormat {
        /// What went wrong.
        message: String,
    },
    /// A value could not be written in an adjunct format.
    EncodeError {
        /// The format.
        format: String,
        /// What went wrong.
        message: String,
    },
    /// A value could not be read from an adjunct format.
    DecodeError {
        /// The format.
        format: String,
        /// What went wrong.
        message: String,
    },
    /// A named file does not exist.
    FileNotFound(String),
    /// An index lies outside the range it addresses.
    OutOfBoundary {
        /// The bound that was exceeded.
        limit: usize,
        /// What went wrong.
        message: String,
    },
}

/// The decimal digit `d`.
pub open spec fn digit_char(d: nat) -> char {
    ((48 + d) as u8) as char
}

/// The decimal digits of `n`, most significant first.
pub open spec fn decimal(n: nat) -> Seq<char>
    decreases n,
{
    if n < 10 {
        seq![digit_char(n)]
    } else {
        decimal(n / 10).push(digit_char(n % 10))
    }
}

/// The one-character text of the decimal digit `d`.
fn digit_text(d: usize) -> (r: &'static str)
    requires
        d < 10,
    ensures
        r@ == seq![digit_char(d as nat)],
{
    let r = match d {
        0 => {
            proof {
                reveal_strlit("0");
            }
            "0"
        },
        1 => {
            proof {
                reveal_strlit("1");
            }
            "1"
        },
        2 => {
            proof {
                reveal_strlit("2");
            }
            "2"
        },
        3 => {
            proof {
                reveal_strlit("3");
            }
            "3"
        },
        4 => {
            proof {
                reveal_strlit("4");
            }
            "4"
        },
        5 => {
            proof {
                reveal_strlit("5");
            }
            "5"
        },
        6 => {
            proof {
                reveal_strlit("6");
            }
            "6"
        },
        7 => {
            proof {
                reveal_strlit("7");
            }
            "7"
        },
        8 => {
            proof {
                reveal_strlit("8");
            }
            "8"
        },
        _ => {
            proof {
                reveal_strlit("9");
            }
            "9"
        },
    };
    assert(r@ =~= seq![digit_char(d as nat)]);
    r
}

/// The decimal digits of `n`.
fn decimal_text(n: usize) -> (r: String)
    ensures
        r@ == decimal(n as nat),
    decreases n,
{
    if n < 10 {
        String::from_str(digit_text(n))
    } else {
        decimal_text(n / 10).concat(digit_text(n % 10))
    }
}

/// `prefix` followed by `rest`.
fn joined(prefix: &str, rest: &str) -> (r: String)
    ensures
        r@ == prefix@ + rest@,
{
    String::from_str(prefix).concat(rest)
}

/// The text of an archive error.
pub open spec fn mix_error_text(e: MixError) -> Seq<char> {
    match e {
        MixError::IoError(m) => "IO error: "@ + m@,
        MixError::CryptoError(m) => "Crypto error: "@ + m@,
        MixError::InvalidFormat(m) => "Invalid file format: "@ + m@,
        MixError::FileNotFound(m) => "File not found: "@ + m@,
        MixError::InvalidArgument(m) => "Invalid argument: "@ + m@,
    }
}

impl MixError {
    /// The text of the error: its kind, then its message.
    pub fn to_string(&self) -> (r: String)
        ensures
            r@ == mix_error_text(*self),
    {
        match self {
            MixError::IoError(m) => joined("IO error: ", m.as_str()),
            MixError::CryptoError(m) => joined("Crypto error: ", m.as_str()),
            MixError::InvalidFormat(m) => joined("Invalid file format: ", m.as_str()),
            MixError::FileNotFound(m) => joined("File not found: ", m.as_str()),
            MixError::InvalidArgument(m) => joined("Invalid argument: ", m.as_str()),
        }
    }
}

/// The text of an error.
pub open spec fn ra2_error_text(e: Ra2Error) -> Seq<char> {
    match e {
        Ra2Error::IoError(m) => "IO error: "@ + m@,
        Ra2Error::CryptoError { message } => "Crypto error: "@ + message@,
        Ra2Error::InvalidFormat { message } => "Invalid file format: "@ + message@,
        Ra2Error::FileNotFound(m) => "File not found: "@ + m@,
        Ra2Error::DecodeError { format, message } => "Decode error: "@ + format@ + ": "@ + message@,
        Ra2Error::EncodeError { format, message } => "Encode error: "@ + format@ + ": "@ + message@,
        Ra2Error::OutOfBoundary { limit, message } => "Out of boundary "@ + decimal(limit as nat) + ": "@
            + message@,
    }
}

impl Ra2Error {
    /// The text of the error: its kind, then what it carries.
    pub fn to_string(&self) -> (r: String)
        ensures
            r@ == ra2_error_text(*self),
    {
        match self {
            Ra2Error::IoError(m) => joined("IO error: ", m.as_str()),
            Ra2Error::CryptoError { message } => joined("Crypto error: ", message.as_str()),
            Ra2Error::InvalidFormat { message } => joined("Invalid file format: ", message.as_str()),
            Ra2Error::FileNotFound(m) => joined("File not found: ", m.as_str()),
            Ra2Error::DecodeError { format, message } => {
                let head = joined("Decode error: ", format.as_str()).concat(": ");
                head.concat(message.as_str())
            },
            Ra2Error::EncodeError { format, message } => {
                let head = joined("Encode error: ", format.as_str()).concat(": ");
                head.concat(message.as_str())
            },
            Ra2Error::OutOfBoundary { limit, message } => {
                let number = decimal_text(*limit);
                let head = joined("Out of boundary ", number.as_str()).concat(": ");
                head.concat(message.as_str())
            },
        }
    }
}

} // verus!
