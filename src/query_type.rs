use vstd::prelude::*;

verus! {

/// The record type of a query or of a resource record.
#[derive(PartialEq, Eq, Debug, Clone, Copy, Hash, Structural)]
pub enum QueryType {
    UNKNOWN(u16),
    A,
    NS,
    CNAME,
    MX,
    AAAA,
}

/// The number that stands on the wire for a record type.
pub open spec fn type_num(t: QueryType) -> u16 {
    match t {
        QueryType::A => 1,
        QueryType::NS => 2,
        QueryType::CNAME => 5,
        QueryType::MX => 15,
        QueryType::AAAA => 28,
        QueryType::UNKNOWN(n) => n,
    }
}

/// The record type that a wire number stands for; numbers without a named
/// type are kept as they are.
pub open spec fn type_of_num(n: u16) -> QueryType {
    if n == 1 {
        QueryType::A
    } else if n == 2 {
        QueryType::NS
    } else if n == 5 {
        QueryType::CNAME
    } else if n == 15 {
        QueryType::MX
    } else if n == 28 {
        QueryType::AAAA
    } else {
        QueryType::UNKNOWN(n)
    }
}

/// A type is well formed when it is named by its own variant: `UNKNOWN` never
/// carries the number of a named type.
pub open spec fn type_wf(t: QueryType) -> bool {
    match t {
        QueryType::UNKNOWN(n) => n != 1 && n != 2 && n != 5 && n != 15 && n != 28,
        _ => true,
    }
}

impl QueryType {
    pub fn to_num(&self) -> (r: u16)
        ensures
            r == type_num(*self),
    {
        match *self {
            QueryType::A => 1,
            QueryType::NS => 2,
            QueryType::CNAME => 5,
            QueryType::MX => 15,
            QueryType::AAAA => 28,
            QueryType::UNKNOWN(num) => num,
        }
    }

    pub fn from_num(num: u16) -> (r: QueryType)
        ensures
            r == type_of_num(num),
            type_wf(r),
    {
        match num {
            1 => QueryType::A,
            2 => QueryType::NS,
            5 => QueryType::CNAME,
            15 => QueryType::MX,
            28 => QueryType::AAAA,
            _ => QueryType::UNKNOWN(num),
        }
    }
}

/// Every number maps to a type and back to itself.
pub proof fn lemma_num_round_trip(n: u16)
    ensures
        type_num(type_of_num(n)) == n,
        type_wf(type_of_num(n)),
{
}

/// Every well-formed type maps to its number and back to itself.
pub proof fn lemma_type_round_trip(t: QueryType)
    requires
        type_wf(t),
    ensures
        type_of_num(type_num(t)) == t,
{
}

} // verus!
