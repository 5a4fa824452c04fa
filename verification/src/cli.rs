use vstd::prelude::*;

verus! {

/// Whether to play a practice game or to challenge another player.
#[derive(Clone, Copy, Debug, PartialEq, Eq)]
pub enum Mode {
    Practice,
    Challenge,
}

impl Default for Mode {
    fn default() -> (m: Mode)
        ensures
            m == Mode::Practice,
    {
        Mode::Practice
    }
}

/// The value of a sequence of decimal digits.
pub open spec fn digits_value(s: Seq<char>) -> int
    decreases s.len(),
{
    if s.len() == 0 {
        0
    } else {
        digits_value(s.drop_last()) * 10 + (s.last() as int - '0' as int)
    }
}

pub open spec fn all_digits(s: Seq<char>) -> bool {
    forall|i: int| 0 <= i < s.len() ==> '0' <= #[trigger] s[i] <= '9'
}

/// How a string reads as an `i32`: an optional `+` or `-` sign followed by at
/// least one decimal digit and nothing else, with a value in range.
pub open spec fn spec_parse_i32(s: Seq<char>) -> Option<i32> {
    let neg = s.len() > 0 && s[0] == '-';
    let signed = s.len() > 0 && (s[0] == '-' || s[0] == '+');
    let body = if signed {
        s.skip(1)
    } else {
        s
    };
    let v = if neg {
        -digits_value(body)
    } else {
        digits_value(body)
    };
    if body.len() == 0 || !all_digits(body) || v < i32::MIN || v > i32::MAX {
        None
    } else {
        Some(v as i32)
    }
}

/// Calls `str::parse::<i32>`, which std documents as accepting exactly an optional
/// `+` or `-` sign followed by decimal digits whose value fits in an `i32`; this
/// contract claims that the result is the value so read, or `None` when the
/// string is not of that form.
#[verifier::external_body]
fn parse_i32(s: &str) -> (r: Option<i32>)
    ensures
        r == spec_parse_i32(s@),
{
    s.parse::<i32>().ok()
}

pub open spec fn not_an_integer(s: Seq<char>) -> Seq<char> {
    "`"@ + s + "`: not a valid integer"@
}

/// Reads the player slot given on the command line: 0 or 1.
pub fn parse_my_id(s: &str) -> (r: Result<i32, String>)
    ensures
        match spec_parse_i32(s@) {
            None => r matches Err(e) && e@ == not_an_integer(s@),
            Some(n) => if n == 0 || n == 1 {
                r == Ok::<i32, String>(n)
            } else {
                r matches Err(e) && e@ == "must be 0 or 1"@
            },
        },
        r matches Ok(n) ==> n == 0 || n == 1,
{
    let n = match parse_i32(s) {
        Some(n) => n,
        None => {
            let mut msg = String::from_str("`");
            msg.append(s);
            msg.append("`: not a valid integer");
            return Err(msg);
        },
    };
    if n == 0 || n == 1 {
        Ok(n)
    } else {
        Err(String::from_str("must be 0 or 1"))
    }
}

} // verus!
