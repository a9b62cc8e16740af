//! Typed rejection reasons of the admission layer.
//!
//! Every error is recoverable by the caller: a rejected connection attempt
//! is simply refused, and a failed bootstrap validation tells the caller
//! not to start the node. `message` renders the reason as text fit for a
//! log line; the rendering is specified exactly, digit by digit.

use vstd::prelude::*;
use vstd::string::StringExecFns;

verus! {

/// Why the admission layer refused a connection or a configuration.
#[derive(Clone, Copy, Debug, PartialEq, Eq, Structural)]
pub enum SecurityError {
    /// A subnet already holds `limit` connections. `prefix_bits` is 24 or
    /// 16; `subnet` is the packed prefix key of [`crate::ip::IpAddress`].
    SubnetLimitExceeded { prefix_bits: u8, subnet: u32, limit: usize },
    /// The node already holds `limit` simultaneous connections.
    TotalLimitExceeded { limit: usize },
    /// Fewer bootstrap peers than the required minimum were configured.
    BootstrapCountTooLow { required: usize, actual: usize },
    /// The bootstrap peers cover fewer distinct /16 subnets than required.
    BootstrapDiversityTooLow { required: usize, actual: usize },
    /// The surrounding network configuration asked for zero maximum
    /// connections.
    InvalidConfiguration,
}

/// The decimal digit `n`, for `0 <= n <= 9`.
pub open spec fn digit_char(n: nat) -> char {
    if n == 0 {
        '0'
    } else if n == 1 {
        '1'
    } else if n == 2 {
        '2'
    } else if n == 3 {
        '3'
    } else if n == 4 {
        '4'
    } else if n == 5 {
        '5'
    } else if n == 6 {
        '6'
    } else if n == 7 {
        '7'
    } else if n == 8 {
        '8'
    } else {
        '9'
    }
}

/// The decimal rendering of `n`, most significant digit first, with no
/// leading zeros (a single `'0'` for zero).
pub open spec fn dec_chars(n: nat) -> Seq<char>
    decreases n,
{
    if n < 10 {
        seq![digit_char(n)]
    } else {
        dec_chars(n / 10).push(digit_char(n % 10))
    }
}

/// Appends the decimal rendering of `n` to `s`.
fn append_u64(s: &mut String, n: u64)
    ensures
        final(s)@ == old(s)@ + dec_chars(n as nat),
    decreases n,
{
    if n >= 10 {
        append_u64(s, n / 10);
    }
    let d = n % 10;
    let digit: &str = if d == 0 {
        "0"
    } else if d == 1 {
        "1"
    } else if d == 2 {
        "2"
    } else if d == 3 {
        "3"
    } else if d == 4 {
        "4"
    } else if d == 5 {
        "5"
    } else if d == 6 {
        "6"
    } else if d == 7 {
        "7"
    } else if d == 8 {
        "8"
    } else {
        "9"
    };
    proof {
        reveal_strlit("0");
        reveal_strlit("1");
        reveal_strlit("2");
        reveal_strlit("3");
        reveal_strlit("4");
        reveal_strlit("5");
        reveal_strlit("6");
        reveal_strlit("7");
        reveal_strlit("8");
        reveal_strlit("9");
        assert(digit@ =~= seq![digit_char((n % 10) as nat)]);
    }
    s.append(digit);
    proof {
        if n >= 10 {
            assert(final(s)@ =~= old(s)@ + dec_chars(n as nat));
        } else {
            assert(dec_chars(n as nat) =~= seq![digit_char(n as nat)]);
            assert(final(s)@ =~= old(s)@ + dec_chars(n as nat));
        }
    }
}

impl SecurityError {
    /// The log text of the error, rendered digit by digit.
    pub open spec fn spec_message(self) -> Seq<char> {
        match self {
            SecurityError::SubnetLimitExceeded { prefix_bits, subnet, limit } => {
                if prefix_bits == 16 {
                    "/16 subnet limit exceeded: max "@ + dec_chars(limit as nat)
                        + " connections from subnet "@ + dec_chars((subnet / 256) as nat) + "."@
                        + dec_chars((subnet % 256) as nat) + ".*.*"@
                } else {
                    "Subnet limit exceeded: max "@ + dec_chars(limit as nat)
                        + " connections from /24 subnet "@ + dec_chars((subnet / 65536) as nat)
                        + "."@ + dec_chars(((subnet / 256) % 256) as nat) + "."@ + dec_chars(
                        (subnet % 256) as nat,
                    ) + ".x"@
                }
            },
            SecurityError::TotalLimitExceeded { limit } => {
                "Connection limit exceeded: maximum "@ + dec_chars(limit as nat)
                    + " connections allowed"@
            },
            SecurityError::BootstrapCountTooLow { required, actual } => {
                "Minimum "@ + dec_chars(required as nat)
                    + " bootstrap peers required for eclipse attack protection, got "@ + dec_chars(
                    actual as nat,
                )
            },
            SecurityError::BootstrapDiversityTooLow { required, actual } => {
                "Bootstrap peers must be from at least "@ + dec_chars(required as nat)
                    + " different /16 subnets for eclipse attack protection, got "@ + dec_chars(
                    actual as nat,
                )
            },
            SecurityError::InvalidConfiguration => "max_connections must be greater than 0"@,
        }
    }

    /// Renders the error as text for a log line.
    pub fn message(&self) -> (r: String)
        ensures
            r@ == self.spec_message(),
    {
        let mut s = String::new();
        match self {
            SecurityError::SubnetLimitExceeded { prefix_bits, subnet, limit } => {
                if *prefix_bits == 16 {
                    s.append("/16 subnet limit exceeded: max ");
                    append_u64(&mut s, *limit as u64);
                    s.append(" connections from subnet ");
                    append_u64(&mut s, (*subnet / 256) as u64);
                    s.append(".");
                    append_u64(&mut s, (*subnet % 256) as u64);
                    s.append(".*.*");
                } else {
                    s.append("Subnet limit exceeded: max ");
                    append_u64(&mut s, *limit as u64);
                    s.append(" connections from /24 subnet ");
                    append_u64(&mut s, (*subnet / 65536) as u64);
                    s.append(".");
                    append_u64(&mut s, ((*subnet / 256) % 256) as u64);
                    s.append(".");
                    append_u64(&mut s, (*subnet % 256) as u64);
                    s.append(".x");
                }
            },
            SecurityError::TotalLimitExceeded { limit } => {
                s.append("Connection limit exceeded: maximum ");
                append_u64(&mut s, *limit as u64);
                s.append(" connections allowed");
            },
            SecurityError::BootstrapCountTooLow { required, actual } => {
                s.append("Minimum ");
                append_u64(&mut s, *required as u64);
                s.append(" bootstrap peers required for eclipse attack protection, got ");
                append_u64(&mut s, *actual as u64);
            },
            SecurityError::BootstrapDiversityTooLow { required, actual } => {
                s.append("Bootstrap peers must be from at least ");
                append_u64(&mut s, *required as u64);
                s.append(" different /16 subnets for eclipse attack protection, got ");
                append_u64(&mut s, *actual as u64);
            },
            SecurityError::InvalidConfiguration => {
                s.append("max_connections must be greater than 0");
            },
        }
        proof {
            assert(s@ =~= self.spec_message());
        }
        s
    }
}

} // verus!
