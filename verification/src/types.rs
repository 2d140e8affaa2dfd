//! Record types and classes: the symbols the responder knows and their codes
//! on the wire.

use vstd::prelude::*;
use crate::error::DnsError;

verus! {

/// The type of a record. Decoding yields only `A` and `CNAME`; `Unknown` is
/// there for a caller who wants to put another code on the wire.
#[derive(Clone, Copy, Debug, PartialEq, Eq, Structural)]
pub enum QType {
    Unknown(u16),
    A,
    CNAME,
}

/// The class of a record. Decoding yields only `IN`; `Unknown` is there for a
/// caller who wants to put another code on the wire.
#[derive(Clone, Copy, Debug, PartialEq, Eq, Structural)]
pub enum QClass {
    Unknown(u16),
    IN,
}

/// Whether two texts hold the same characters.
pub fn same_text(left: &str, right: &str) -> (same: bool)
    ensures
        same == (left@ == right@),
{
    let left_owned: String = left.to_owned();
    let right_owned: String = right.to_owned();
    left_owned == right_owned
}

impl QType {
    /// The code of a type on the wire.
    pub open spec fn code(self) -> u16 {
        match self {
            QType::A => 1,
            QType::CNAME => 5,
            QType::Unknown(code) => code,
        }
    }

    /// The type that a code stands for, if it is one of the known ones.
    pub open spec fn of_code(code: u16) -> Result<QType, DnsError> {
        if code == 1 {
            Ok(QType::A)
        } else if code == 5 {
            Ok(QType::CNAME)
        } else {
            Err(DnsError::UnknownType)
        }
    }

    /// The type that a name in a record source stands for.
    pub open spec fn of_name(name: Seq<char>) -> Option<QType> {
        if name == "A"@ {
            Some(QType::A)
        } else if name == "CNAME"@ {
            Some(QType::CNAME)
        } else {
            None
        }
    }

    /// Decodes a type code: 1 is `A`, 5 is `CNAME`, any other is refused.
    pub fn from_u16(value: u16) -> (res: Result<QType, DnsError>)
        ensures
            res == QType::of_code(value),
    {
        match value {
            1 => Ok(QType::A),
            5 => Ok(QType::CNAME),
            _ => Err(DnsError::UnknownType),
        }
    }

    /// Encodes a type: the fixed code of a known type, the stored code of an
    /// unknown one.
    pub fn to_u16(&self) -> (code: u16)
        ensures
            code == self.code(),
    {
        match self {
            QType::A => 1,
            QType::CNAME => 5,
            QType::Unknown(v) => *v,
        }
    }

    /// The type named `A` or `CNAME`; no other name is known.
    pub fn from_name(input: &str) -> (res: Option<QType>)
        ensures
            res == QType::of_name(input@),
    {
        if same_text(input, "A") {
            Some(QType::A)
        } else if same_text(input, "CNAME") {
            Some(QType::CNAME)
        } else {
            None
        }
    }
}

impl std::str::FromStr for QType {
    type Err = ();

    fn from_str(input: &str) -> (res: Result<QType, ()>)
        ensures
            res == (match QType::of_name(input@) {
                Some(qtype) => Ok::<QType, ()>(qtype),
                None => Err::<QType, ()>(()),
            }),
    {
        match QType::from_name(input) {
            Some(qtype) => Ok(qtype),
            None => Err(()),
        }
    }
}

impl QClass {
    /// The code of a class on the wire.
    pub open spec fn code(self) -> u16 {
        match self {
            QClass::IN => 1,
            QClass::Unknown(code) => code,
        }
    }

    /// The class that a code stands for, if it is the known one.
    pub open spec fn of_code(code: u16) -> Result<QClass, DnsError> {
        if code == 1 {
            Ok(QClass::IN)
        } else {
            Err(DnsError::UnknownClass)
        }
    }

    /// The class that a name in a record source stands for.
    pub open spec fn of_name(name: Seq<char>) -> Option<QClass> {
        if name == "IN"@ {
            Some(QClass::IN)
        } else {
            None
        }
    }

    /// Decodes a class code: 1 is `IN`, any other is refused.
    pub fn from_u16(value: u16) -> (res: Result<QClass, DnsError>)
        ensures
            res == QClass::of_code(value),
    {
        match value {
            1 => Ok(QClass::IN),
            _ => Err(DnsError::UnknownClass),
        }
    }

    /// Encodes a class: the fixed code of the known class, the stored code of
    /// an unknown one.
    pub fn to_u16(&self) -> (code: u16)
        ensures
            code == self.code(),
    {
        match self {
            QClass::IN => 1,
            QClass::Unknown(v) => *v,
        }
    }

    /// The class named `IN`; no other name is known.
    pub fn from_name(input: &str) -> (res: Option<QClass>)
        ensures
            res == QClass::of_name(input@),
    {
        if same_text(input, "IN") {
            Some(QClass::IN)
        } else {
            None
        }
    }
}

impl std::str::FromStr for QClass {
    type Err = ();

    fn from_str(input: &str) -> (res: Result<QClass, ()>)
        ensures
            res == (match QClass::of_name(input@) {
                Some(qclass) => Ok::<QClass, ()>(qclass),
                None => Err::<QClass, ()>(()),
            }),
    {
        match QClass::from_name(input) {
            Some(qclass) => Ok(qclass),
            None => Err(()),
        }
    }
}

/// A code that decodes is the code the decoded type encodes to, and a known
/// type decodes from its own code.
pub proof fn lemma_type_codes(code: u16, qtype: QType)
    ensures
        QType::of_code(code) matches Ok(t) ==> t.code() == code && !(t is Unknown),
        !(qtype is Unknown) ==> QType::of_code(qtype.code()) == Ok::<QType, DnsError>(qtype),
{
}

/// A code that decodes is the code the decoded class encodes to, and the
/// known class decodes from its own code.
pub proof fn lemma_class_codes(code: u16, qclass: QClass)
    ensures
        QClass::of_code(code) matches Ok(c) ==> c.code() == code && !(c is Unknown),
        !(qclass is Unknown) ==> QClass::of_code(qclass.code()) == Ok::<QClass, DnsError>(qclass),
{
}

} // verus!
