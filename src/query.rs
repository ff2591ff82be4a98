use vstd::prelude::*;

use crate::error::DnsError;
use crate::name::{join_labels, name_walk, write_name};
use crate::packet_buffer::{
    be16, lemma_overwrite_append, overwrite, then_fixed, u16_at, PacketBuffer, BUF_SIZE,
};
use crate::query_type::{type_num, type_of_num, QueryType};

verus! {

/// The Internet class, the only one written.
pub const INTERNET_CLASS: u16 = 1;

/// An entry of the question section.
#[derive(Debug, Clone, PartialEq)]
pub struct Query {
    pub qname: String,
    pub qtype: QueryType,
}

/// What a query stands for.
pub struct QueryModel {
    pub qname: Seq<char>,
    pub qtype: QueryType,
}

impl View for Query {
    type V = QueryModel;

    open spec fn view(&self) -> QueryModel {
        QueryModel { qname: self.qname@, qtype: self.qtype }
    }
}

/// What writing the query `q` from position `at` gives.
pub open spec fn write_query(at: int, q: QueryModel) -> Result<Seq<u8>, DnsError> {
    then_fixed(at, write_name(at, q.qname), be16(type_num(q.qtype)) + be16(INTERNET_CLASS))
}

/// The query that the bytes of `d` from `at` on stand for, and where it ends.
pub open spec fn read_query(d: Seq<u8>, at: int) -> Result<(QueryModel, int), DnsError> {
    match name_walk(d, at, 0) {
        Ok((labels, end)) => if end + 4 <= 512 {
            Ok(
                (
                    QueryModel { qname: join_labels(labels), qtype: type_of_num(u16_at(d, end)) },
                    end + 4,
                ),
            )
        } else {
            Err(DnsError::EndOfBuffer)
        },
        Err(e) => Err(e),
    }
}

impl Query {
    pub fn new(qname: String, qtype: QueryType) -> (r: Query)
        ensures
            r@ == (QueryModel { qname: qname@, qtype }),
    {
        Query { qname, qtype }
    }

    /// Decodes the query at the cursor; its class is read and dropped.
    pub fn from_buffer(buffer: &mut PacketBuffer) -> (r: Result<Query, DnsError>)
        ensures
            final(buffer).data() == old(buffer).data(),
            match read_query(old(buffer).data(), old(buffer).cursor()) {
                Ok((q, end)) => r is Ok && r->Ok_0@ == q && final(buffer).cursor() == end,
                Err(e) => r == Err::<Query, DnsError>(e),
            },
    {
        let qname = buffer.read_compressed_name()?;
        let qtype = QueryType::from_num(buffer.read_u16()?);
        let _class = buffer.read_u16()?;
        Ok(Query::new(qname, qtype))
    }

    /// Encodes the query at the cursor, with the Internet class.
    pub fn write_to_buffer(&self, buffer: &mut PacketBuffer) -> (r: Result<(), DnsError>)
        ensures
            match write_query(old(buffer).cursor(), self@) {
                Ok(b) => r is Ok && final(buffer).data() == overwrite(
                    old(buffer).data(),
                    old(buffer).cursor(),
                    b,
                ) && final(buffer).cursor() == old(buffer).cursor() + b.len(),
                Err(e) => r == Err::<(), DnsError>(e),
            },
    {
        let ghost d = buffer.data();
        let ghost c = buffer.cursor();
        buffer.write_compressed_name(self.qname.as_str())?;
        let ghost w = buffer.cursor() - c;
        let ghost nb = write_name(c, self.qname@)->Ok_0;
        buffer.write_u16(self.qtype.to_num())?;
        proof {
            lemma_overwrite_append(d, c, nb, be16(type_num(self.qtype)));
        }
        buffer.write_u16(INTERNET_CLASS)?;
        proof {
            lemma_overwrite_append(d, c, nb + be16(type_num(self.qtype)), be16(INTERNET_CLASS));
            assert(nb + be16(type_num(self.qtype)) + be16(INTERNET_CLASS) =~= nb + (be16(
                type_num(self.qtype),
            ) + be16(INTERNET_CLASS)));
        }
        Ok(())
    }
}

} // verus!
