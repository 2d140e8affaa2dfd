use vstd::prelude::*;

verus! {

/// What can go wrong while a message is decoded, a question is resolved or the
/// record source is read.
#[derive(Clone, Copy, Debug, PartialEq, Eq, Structural)]
pub enum DnsError {
    /// A read would have gone past the end of the buffer.
    UnexpectedEndOfBuffer,
    /// A question carries a record type code other than A or CNAME.
    UnknownType,
    /// A question carries a class code other than IN.
    UnknownClass,
    /// The bytes of a label are not valid UTF-8 text.
    InvalidLabelEncoding,
    /// The value of an A record is not four dot-separated decimal octets.
    MalformedAddress,
    /// A line of the record source names a class or a type that is not known.
    RecordSourceError,
    /// A datagram is longer than the largest that is served; it may have been
    /// cut by the transport.
    DatagramTooLarge,
}

impl DnsError {
    /// What the error says, in words.
    pub open spec fn text(self) -> Seq<char> {
        match self {
            DnsError::UnexpectedEndOfBuffer => "unexpected end of buffer"@,
            DnsError::UnknownType => "unknown record type"@,
            DnsError::UnknownClass => "unknown record class"@,
            DnsError::InvalidLabelEncoding => "label is not valid UTF-8"@,
            DnsError::MalformedAddress => "malformed address"@,
            DnsError::RecordSourceError => "unknown class or type in record source"@,
            DnsError::DatagramTooLarge => "datagram too large"@,
        }
    }

    /// What the error says, in words.
    pub fn message(&self) -> (message: String)
        ensures
            message@ == self.text(),
    {
        match self {
            DnsError::UnexpectedEndOfBuffer => "unexpected end of buffer".to_owned(),
            DnsError::UnknownType => "unknown record type".to_owned(),
            DnsError::UnknownClass => "unknown record class".to_owned(),
            DnsError::InvalidLabelEncoding => "label is not valid UTF-8".to_owned(),
            DnsError::MalformedAddress => "malformed address".to_owned(),
            DnsError::RecordSourceError => "unknown class or type in record source".to_owned(),
            DnsError::DatagramTooLarge => "datagram too large".to_owned(),
        }
    }
}

} // verus!
