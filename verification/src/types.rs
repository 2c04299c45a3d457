//! The closed sets of record types and classes, with their wildcard
//! query-side counterparts and the fallible conversions from raw wire
//! integers.

use vstd::prelude::*;

verus! {

/// A resource record type.
#[derive(Clone, Copy, Debug, PartialEq, Eq, Structural)]
pub enum TYPE {
    /// An IPv4 host address record.
    A,
    /// An authoritative name server record.
    NS,
    /// The canonical name of an alias.
    CNAME,
    /// A domain name pointer.
    PTR,
    /// Descriptive text.
    TXT,
    /// An IPv6 host address record.
    AAAA,
    /// A service locator record.
    SRV,
}

/// A query-side record type: any concrete [`TYPE`] or the wildcard `ANY`.
#[derive(Clone, Copy, Debug, PartialEq, Eq, Structural)]
pub enum QTYPE {
    /// A concrete record type.
    TYPE(TYPE),
    /// Matches records of every type.
    ANY,
}

/// A resource record class.
#[derive(Clone, Copy, Debug, PartialEq, Eq, Structural)]
pub enum CLASS {
    /// The Internet class.
    IN,
    /// The CSNET class.
    CS,
    /// The CHAOS class.
    CH,
    /// The Hesiod class.
    HS,
}

/// A query-side class: any concrete [`CLASS`] or the wildcard `ANY`.
#[derive(Clone, Copy, Debug, PartialEq, Eq, Structural)]
pub enum QCLASS {
    /// A concrete class.
    CLASS(CLASS),
    /// Matches records of every class.
    ANY,
}

/// The 16-bit wire value of a record type.
pub open spec fn spec_type_code(t: TYPE) -> u16 {
    match t {
        TYPE::A => 1,
        TYPE::NS => 2,
        TYPE::CNAME => 5,
        TYPE::PTR => 12,
        TYPE::TXT => 16,
        TYPE::AAAA => 28,
        TYPE::SRV => 33,
    }
}

/// The record type denoted by a 16-bit wire value, if any.
pub open spec fn spec_type_from_code(c: u16) -> Option<TYPE> {
    if c == 1 {
        Some(TYPE::A)
    } else if c == 2 {
        Some(TYPE::NS)
    } else if c == 5 {
        Some(TYPE::CNAME)
    } else if c == 12 {
        Some(TYPE::PTR)
    } else if c == 16 {
        Some(TYPE::TXT)
    } else if c == 28 {
        Some(TYPE::AAAA)
    } else if c == 33 {
        Some(TYPE::SRV)
    } else {
        None
    }
}

/// The 16-bit wire value of a query type; `ANY` is 255.
pub open spec fn spec_qtype_code(q: QTYPE) -> u16 {
    match q {
        QTYPE::TYPE(t) => spec_type_code(t),
        QTYPE::ANY => 255,
    }
}

/// The query type denoted by a 16-bit wire value, if any.
pub open spec fn spec_qtype_from_code(c: u16) -> Option<QTYPE> {
    if c == 255 {
        Some(QTYPE::ANY)
    } else {
        match spec_type_from_code(c) {
            Some(t) => Some(QTYPE::TYPE(t)),
            None => None,
        }
    }
}

/// The 16-bit wire value of a class.
pub open spec fn spec_class_code(c: CLASS) -> u16 {
    match c {
        CLASS::IN => 1,
        CLASS::CS => 2,
        CLASS::CH => 3,
        CLASS::HS => 4,
    }
}

/// The class denoted by a 16-bit wire value, if any.
pub open spec fn spec_class_from_code(v: u16) -> Option<CLASS> {
    if v == 1 {
        Some(CLASS::IN)
    } else if v == 2 {
        Some(CLASS::CS)
    } else if v == 3 {
        Some(CLASS::CH)
    } else if v == 4 {
        Some(CLASS::HS)
    } else {
        None
    }
}

/// The 16-bit wire value of a query class; `ANY` is 255.
pub open spec fn spec_qclass_code(q: QCLASS) -> u16 {
    match q {
        QCLASS::CLASS(c) => spec_class_code(c),
        QCLASS::ANY => 255,
    }
}

/// The query class denoted by a 16-bit wire value, if any.
pub open spec fn spec_qclass_from_code(v: u16) -> Option<QCLASS> {
    if v == 255 {
        Some(QCLASS::ANY)
    } else {
        match spec_class_from_code(v) {
            Some(c) => Some(QCLASS::CLASS(c)),
            None => None,
        }
    }
}

impl TYPE {
    /// The 16-bit wire value of this record type.
    pub fn code(self) -> (r: u16)
        ensures
            r == spec_type_code(self),
    {
        match self {
            TYPE::A => 1,
            TYPE::NS => 2,
            TYPE::CNAME => 5,
            TYPE::PTR => 12,
            TYPE::TXT => 16,
            TYPE::AAAA => 28,
            TYPE::SRV => 33,
        }
    }

    /// Decodes a 16-bit wire value into a record type.
    pub fn from_code(c: u16) -> (r: Result<TYPE, crate::errors::SimpleDnsError>)
        ensures
            match r {
                Ok(t) => spec_type_from_code(c) == Some(t),
                Err(e) => spec_type_from_code(c) is None && e
                    == crate::errors::SimpleDnsError::UnrecognizedValue,
            },
    {
        if c == 1 {
            Ok(TYPE::A)
        } else if c == 2 {
            Ok(TYPE::NS)
        } else if c == 5 {
            Ok(TYPE::CNAME)
        } else if c == 12 {
            Ok(TYPE::PTR)
        } else if c == 16 {
            Ok(TYPE::TXT)
        } else if c == 28 {
            Ok(TYPE::AAAA)
        } else if c == 33 {
            Ok(TYPE::SRV)
        } else {
            Err(crate::errors::SimpleDnsError::UnrecognizedValue)
        }
    }
}

impl QTYPE {
    /// The 16-bit wire value of this query type.
    pub fn code(self) -> (r: u16)
        ensures
            r == spec_qtype_code(self),
    {
        match self {
            QTYPE::TYPE(t) => t.code(),
            QTYPE::ANY => 255,
        }
    }

    /// Decodes a 16-bit wire value into a query type.
    pub fn from_code(c: u16) -> (r: Result<QTYPE, crate::errors::SimpleDnsError>)
        ensures
            match r {
                Ok(q) => spec_qtype_from_code(c) == Some(q),
                Err(e) => spec_qtype_from_code(c) is None && e
                    == crate::errors::SimpleDnsError::UnrecognizedValue,
            },
    {
        if c == 255 {
            Ok(QTYPE::ANY)
        } else {
            match TYPE::from_code(c) {
                Ok(t) => Ok(QTYPE::TYPE(t)),
                Err(e) => Err(e),
            }
        }
    }
}

impl CLASS {
    /// The 16-bit wire value of this class.
    pub fn code(self) -> (r: u16)
        ensures
            r == spec_class_code(self),
    {
        match self {
            CLASS::IN => 1,
            CLASS::CS => 2,
            CLASS::CH => 3,
            CLASS::HS => 4,
        }
    }

    /// Decodes a 16-bit wire value into a class.
    pub fn from_code(v: u16) -> (r: Result<CLASS, crate::errors::SimpleDnsError>)
        ensures
            match r {
                Ok(c) => spec_class_from_code(v) == Some(c),
                Err(e) => spec_class_from_code(v) is None && e
                    == crate::errors::SimpleDnsError::UnrecognizedValue,
            },
    {
        if v == 1 {
            Ok(CLASS::IN)
        } else if v == 2 {
            Ok(CLASS::CS)
        } else if v == 3 {
            Ok(CLASS::CH)
        } else if v == 4 {
            Ok(CLASS::HS)
        } else {
            Err(crate::errors::SimpleDnsError::UnrecognizedValue)
        }
    }
}

impl QCLASS {
    /// The 16-bit wire value of this query class.
    pub fn code(self) -> (r: u16)
        ensures
            r == spec_qclass_code(self),
    {
        match self {
            QCLASS::CLASS(c) => c.code(),
            QCLASS::ANY => 255,
        }
    }

    /// Decodes a 16-bit wire value into a query class.
    pub fn from_code(v: u16) -> (r: Result<QCLASS, crate::errors::SimpleDnsError>)
        ensures
            match r {
                Ok(q) => spec_qclass_from_code(v) == Some(q),
                Err(e) => spec_qclass_from_code(v) is None && e
                    == crate::errors::SimpleDnsError::UnrecognizedValue,
            },
    {
        if v == 255 {
            Ok(QCLASS::ANY)
        } else {
            match CLASS::from_code(v) {
                Ok(c) => Ok(QCLASS::CLASS(c)),
                Err(e) => Err(e),
            }
        }
    }
}

impl From<TYPE> for QTYPE {
    /// Lifts a concrete record type into a query type.
    fn from(t: TYPE) -> (r: QTYPE) {
        QTYPE::TYPE(t)
    }
}

impl vstd::std_specs::convert::FromSpecImpl<TYPE> for QTYPE {
    open spec fn obeys_from_spec() -> bool {
        true
    }

    open spec fn from_spec(t: TYPE) -> QTYPE {
        QTYPE::TYPE(t)
    }
}

impl From<CLASS> for QCLASS {
    /// Lifts a concrete class into a query class.
    fn from(c: CLASS) -> (r: QCLASS) {
        QCLASS::CLASS(c)
    }
}

impl vstd::std_specs::convert::FromSpecImpl<CLASS> for QCLASS {
    open spec fn obeys_from_spec() -> bool {
        true
    }

    open spec fn from_spec(c: CLASS) -> QCLASS {
        QCLASS::CLASS(c)
    }
}

/// The wire value of every record type decodes back to that type.
pub proof fn lemma_type_code_round_trip(t: TYPE)
    ensures
        spec_type_from_code(spec_type_code(t)) == Some(t),
{
}

/// The wire value of every query type decodes back to that query type.
pub proof fn lemma_qtype_code_round_trip(q: QTYPE)
    ensures
        spec_qtype_from_code(spec_qtype_code(q)) == Some(q),
{
}

/// The wire value of every class decodes back to that class.
pub proof fn lemma_class_code_round_trip(c: CLASS)
    ensures
        spec_class_from_code(spec_class_code(c)) == Some(c),
{
}

/// The wire value of every query class decodes back to that query class.
pub proof fn lemma_qclass_code_round_trip(q: QCLASS)
    ensures
        spec_qclass_from_code(spec_qclass_code(q)) == Some(q),
{
}

/// Every query-type wire value is below the unicast/cache-flush bit.
pub proof fn lemma_qclass_code_small(q: QCLASS)
    ensures
        spec_qclass_code(q) < 32768,
{
}

} // verus!
