//! The parts of a message: header, questions, resource records, and what a
//! response holds for the caller.

use vstd::prelude::*;

verus! {

/// The length of a message header on the wire.
pub const HEADER_LEN: usize = 12;

/// The record type of an IPv4 address record.
pub const TYPE_A: u16 = 1;

/// The class of the Internet.
pub const CLASS_IN: u16 = 1;

/// The flags of a query that asks for recursion: only the RD bit is set.
pub const FLAGS_RECURSION_DESIRED: u16 = 0x0100;

/// The header of a message: the transaction id, the flags and the number of
/// entries that each of the four sections declares.
#[derive(Clone, Copy, Debug, PartialEq, Eq, Structural)]
pub struct Header {
    pub id: u16,
    pub flags: u16,
    pub question_count: u16,
    pub answer_count: u16,
    pub authority_count: u16,
    pub additional_count: u16,
}

impl Header {
    /// QR, the top bit of the flags: set in a response.
    pub open spec fn spec_is_response(&self) -> bool {
        self.flags / 0x8000 == 1
    }

    /// Opcode, the four bits below QR.
    pub open spec fn spec_opcode(&self) -> u8 {
        (self.flags / 0x800 % 16) as u8
    }

    /// AA: the answer is authoritative.
    pub open spec fn spec_is_authoritative(&self) -> bool {
        self.flags / 0x400 % 2 == 1
    }

    /// TC: the message was cut short by the transport.
    pub open spec fn spec_is_truncated(&self) -> bool {
        self.flags / 0x200 % 2 == 1
    }

    /// RD: recursion is desired.
    pub open spec fn spec_recursion_desired(&self) -> bool {
        self.flags / 0x100 % 2 == 1
    }

    /// RA: recursion is available.
    pub open spec fn spec_recursion_available(&self) -> bool {
        self.flags / 0x80 % 2 == 1
    }

    /// Z, the three reserved bits.
    pub open spec fn spec_reserved(&self) -> u8 {
        (self.flags / 0x10 % 8) as u8
    }

    /// RCODE, the low four bits: zero where the server reports no error.
    pub open spec fn spec_rcode(&self) -> u8 {
        (self.flags % 16) as u8
    }

    #[verifier::when_used_as_spec(spec_is_response)]
    pub fn is_response(&self) -> (set: bool)
        ensures
            set == self.spec_is_response(),
    {
        let flags = self.flags;
        assert((flags >> 15) & 1 == 1 <==> flags / 0x8000 == 1) by (bit_vector);
        (flags >> 15) & 1 == 1
    }

    #[verifier::when_used_as_spec(spec_opcode)]
    pub fn opcode(&self) -> (code: u8)
        ensures
            code == self.spec_opcode(),
    {
        let flags = self.flags;
        assert((flags >> 11) & 0xF == flags / 0x800 % 16) by (bit_vector);
        assert((flags >> 11) & 0xF < 16) by (bit_vector);
        ((flags >> 11) & 0xF) as u8
    }

    #[verifier::when_used_as_spec(spec_is_authoritative)]
    pub fn is_authoritative(&self) -> (set: bool)
        ensures
            set == self.spec_is_authoritative(),
    {
        let flags = self.flags;
        assert((flags >> 10) & 1 == 1 <==> flags / 0x400 % 2 == 1) by (bit_vector);
        (flags >> 10) & 1 == 1
    }

    #[verifier::when_used_as_spec(spec_is_truncated)]
    pub fn is_truncated(&self) -> (set: bool)
        ensures
            set == self.spec_is_truncated(),
    {
        let flags = self.flags;
        assert((flags >> 9) & 1 == 1 <==> flags / 0x200 % 2 == 1) by (bit_vector);
        (flags >> 9) & 1 == 1
    }

    #[verifier::when_used_as_spec(spec_recursion_desired)]
    pub fn recursion_desired(&self) -> (set: bool)
        ensures
            set == self.spec_recursion_desired(),
    {
        let flags = self.flags;
        assert((flags >> 8) & 1 == 1 <==> flags / 0x100 % 2 == 1) by (bit_vector);
        (flags >> 8) & 1 == 1
    }

    #[verifier::when_used_as_spec(spec_recursion_available)]
    pub fn recursion_available(&self) -> (set: bool)
        ensures
            set == self.spec_recursion_available(),
    {
        let flags = self.flags;
        assert((flags >> 7) & 1 == 1 <==> flags / 0x80 % 2 == 1) by (bit_vector);
        (flags >> 7) & 1 == 1
    }

    #[verifier::when_used_as_spec(spec_reserved)]
    pub fn reserved(&self) -> (bits: u8)
        ensures
            bits == self.spec_reserved(),
    {
        let flags = self.flags;
        assert((flags >> 4) & 0x7 == flags / 0x10 % 8) by (bit_vector);
        assert((flags >> 4) & 0x7 < 8) by (bit_vector);
        ((flags >> 4) & 0x7) as u8
    }

    #[verifier::when_used_as_spec(spec_rcode)]
    pub fn rcode(&self) -> (code: u8)
        ensures
            code == self.spec_rcode(),
    {
        let flags = self.flags;
        assert(flags & 0xF == flags % 16) by (bit_vector);
        assert(flags & 0xF < 16) by (bit_vector);
        (flags & 0xF) as u8
    }
}

/// A question: the name asked about, with the type and class asked for.
#[derive(Clone, Debug, PartialEq, Eq)]
pub struct Question {
    pub name: Vec<u8>,
    pub qtype: u16,
    pub qclass: u16,
}

/// A question in the model.
pub struct QuestionView {
    pub name: Seq<u8>,
    pub qtype: u16,
    pub qclass: u16,
}

impl View for Question {
    type V = QuestionView;

    open spec fn view(&self) -> QuestionView {
        QuestionView { name: self.name@, qtype: self.qtype, qclass: self.qclass }
    }
}

/// The data of a record: the four bytes of an IPv4 address where the record
/// has type A, else the bytes as they came.
#[derive(Clone, Debug, PartialEq, Eq)]
pub enum RData {
    Ipv4([u8; 4]),
    Opaque(Vec<u8>),
}

/// The data of a record in the model.
pub enum RDataView {
    Ipv4(Seq<u8>),
    Opaque(Seq<u8>),
}

impl View for RData {
    type V = RDataView;

    open spec fn view(&self) -> RDataView {
        match self {
            RData::Ipv4(octets) => RDataView::Ipv4(octets@),
            RData::Opaque(bytes) => RDataView::Opaque(bytes@),
        }
    }
}

/// A resource record: the name it is about, its type and class, the seconds
/// it may be kept, and its data.
#[derive(Clone, Debug, PartialEq, Eq)]
pub struct ResourceRecord {
    pub name: Vec<u8>,
    pub rtype: u16,
    pub class: u16,
    pub ttl: u32,
    pub rdata: RData,
}

/// A resource record in the model.
pub struct RecordView {
    pub name: Seq<u8>,
    pub rtype: u16,
    pub class: u16,
    pub ttl: u32,
    pub rdata: RDataView,
}

impl View for ResourceRecord {
    type V = RecordView;

    open spec fn view(&self) -> RecordView {
        RecordView {
            name: self.name@,
            rtype: self.rtype,
            class: self.class,
            ttl: self.ttl,
            rdata: self.rdata@,
        }
    }
}

/// What a response holds for the caller: its header, the questions it
/// echoes and its answer records, each in the order of the wire.
#[derive(Clone, Debug, PartialEq, Eq)]
pub struct ResolutionResult {
    pub header: Header,
    pub questions: Vec<Question>,
    pub answers: Vec<ResourceRecord>,
}

/// A response in the model.
pub struct MessageView {
    pub header: Header,
    pub questions: Seq<QuestionView>,
    pub answers: Seq<RecordView>,
}

/// The questions of a list, each in the model.
pub open spec fn question_views(questions: Seq<Question>) -> Seq<QuestionView> {
    Seq::new(questions.len(), |i: int| questions[i]@)
}

/// The records of a list, each in the model.
pub open spec fn record_views(records: Seq<ResourceRecord>) -> Seq<RecordView> {
    Seq::new(records.len(), |i: int| records[i]@)
}

impl View for ResolutionResult {
    type V = MessageView;

    open spec fn view(&self) -> MessageView {
        MessageView {
            header: self.header,
            questions: question_views(self.questions@),
            answers: record_views(self.answers@),
        }
    }
}

/// The IPv4 addresses among `answers`, in their order.
pub open spec fn addresses_of(answers: Seq<RecordView>) -> Seq<Seq<u8>>
    decreases answers.len(),
{
    if answers.len() == 0 {
        Seq::empty()
    } else {
        let before = addresses_of(answers.drop_last());
        match answers.last().rdata {
            RDataView::Ipv4(octets) => before.push(octets),
            RDataView::Opaque(_) => before,
        }
    }
}

/// The addresses of a list, each as its four bytes.
pub open spec fn address_views(addresses: Seq<[u8; 4]>) -> Seq<Seq<u8>> {
    Seq::new(addresses.len(), |i: int| addresses[i]@)
}

impl ResolutionResult {
    /// The IPv4 addresses that the answers hold, in the order of the
    /// answers. Answers of other types are passed over.
    pub fn addresses(&self) -> (list: Vec<[u8; 4]>)
        ensures
            address_views(list@) == addresses_of(self@.answers),
    {
        let mut list: Vec<[u8; 4]> = Vec::new();
        let mut i: usize = 0;
        let ghost answers = record_views(self.answers@);
        while i < self.answers.len()
            invariant
                i <= self.answers@.len(),
                answers == record_views(self.answers@),
                address_views(list@) == addresses_of(answers.take(i as int)),
            decreases self.answers@.len() - i,
        {
            assert(answers.take(i + 1).drop_last() == answers.take(i as int));
            match &self.answers[i].rdata {
                RData::Ipv4(octets) => {
                    list.push(*octets);
                },
                RData::Opaque(_) => {},
            }
            i += 1;
        }
        assert(answers.take(i as int) == answers);
        list
    }
}

} // verus!
