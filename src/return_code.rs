use vstd::prelude::*;

verus! {

/// The response code carried in the low four bits of a header's second flag byte.
#[derive(Copy, Clone, Debug, PartialEq, Eq, Structural)]
pub enum ReturnCode {
    NOERROR,
    FORMERR,
    SERVFAIL,
    NXDOMAIN,
    NOTIMP,
    REFUSED,
}

/// The wire number of a response code.
pub open spec fn code_num(c: ReturnCode) -> u8 {
    match c {
        ReturnCode::NOERROR => 0,
        ReturnCode::FORMERR => 1,
        ReturnCode::SERVFAIL => 2,
        ReturnCode::NXDOMAIN => 3,
        ReturnCode::NOTIMP => 4,
        ReturnCode::REFUSED => 5,
    }
}

/// The response code of a wire number; numbers without a code read as `NOERROR`.
pub open spec fn code_of_num(n: u8) -> ReturnCode {
    if n == 1 {
        ReturnCode::FORMERR
    } else if n == 2 {
        ReturnCode::SERVFAIL
    } else if n == 3 {
        ReturnCode::NXDOMAIN
    } else if n == 4 {
        ReturnCode::NOTIMP
    } else if n == 5 {
        ReturnCode::REFUSED
    } else {
        ReturnCode::NOERROR
    }
}

impl ReturnCode {
    pub fn from_num(num: u8) -> (r: ReturnCode)
        ensures
            r == code_of_num(num),
    {
        match num {
            1 => ReturnCode::FORMERR,
            2 => ReturnCode::SERVFAIL,
            3 => ReturnCode::NXDOMAIN,
            4 => ReturnCode::NOTIMP,
            5 => ReturnCode::REFUSED,
            _ => ReturnCode::NOERROR,
        }
    }

    pub fn to_num(&self) -> (r: u8)
        ensures
            r == code_num(*self),
            r < 16,
    {
        match *self {
            ReturnCode::NOERROR => 0,
            ReturnCode::FORMERR => 1,
            ReturnCode::SERVFAIL => 2,
            ReturnCode::NXDOMAIN => 3,
            ReturnCode::NOTIMP => 4,
            ReturnCode::REFUSED => 5,
        }
    }
}

/// Every byte reads as one of the six codes, and only the numbers 1 to 5 read
/// as a code other than `NOERROR`.
pub proof fn lemma_from_num_total(n: u8)
    ensures
        code_of_num(n) == ReturnCode::NOERROR || code_of_num(n) == ReturnCode::FORMERR
            || code_of_num(n) == ReturnCode::SERVFAIL || code_of_num(n) == ReturnCode::NXDOMAIN
            || code_of_num(n) == ReturnCode::NOTIMP || code_of_num(n) == ReturnCode::REFUSED,
        !(1 <= n <= 5) ==> code_of_num(n) == ReturnCode::NOERROR,
        1 <= n <= 5 ==> code_of_num(n) != ReturnCode::NOERROR,
{
}

/// A code survives the trip to its number and back.
pub proof fn lemma_code_round_trip(c: ReturnCode)
    ensures
        code_of_num(code_num(c)) == c,
{
}

} // verus!
