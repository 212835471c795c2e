//! The Type-Length-Value wire format: field descriptors, the packet and field
//! types the forwarder knows, and the errors of decoding.

use vstd::prelude::*;

pub mod stream_decode;
pub mod tlv;
pub mod varnumber;
pub mod vec_decode;

verus! {

/// Where one field lies in a buffer: its type, the declared length of its
/// value, and the offset of the value from the field's first byte.
#[derive(Debug, Clone, Copy, PartialEq, Eq, Structural)]
pub struct TLO {
    pub t: u64,
    pub l: u64,
    pub o: usize,
}

/// Why a buffer could not be decoded.
#[derive(Debug, Clone, Copy, PartialEq, Eq, Structural)]
pub enum DecodeError {
    /// The buffer ends inside a variable-length number.
    UnexpectedEof,
    /// The buffer is shorter than the length that a field declares.
    InsufficientLength,
    /// An integer field whose length is not 1, 2, 4 or 8.
    InvalidNni,
    /// Fewer bytes than a fixed-width integer needs.
    NotEnoughData,
    /// A name component that runs past the end of its name.
    IncorrectNameEncoding,
    /// A field of another type where a face address was expected.
    ExpectedAddress,
    /// A face address that is not a socket address in text form.
    InvalidAddress,
}

/// The kinds of decoding errors.
#[derive(Debug, Clone, Copy, PartialEq, Eq, Structural)]
pub enum ErrorKind {
    /// The buffer ends too early.
    UnexpectedEof,
    /// The buffer holds what the format does not allow.
    InvalidData,
    /// Anything else.
    Other,
}

impl DecodeError {
    /// The text that tells the error.
    pub open spec fn spec_message(&self) -> Seq<char> {
        match self {
            DecodeError::UnexpectedEof => "Unexpected EOF"@,
            DecodeError::InsufficientLength => "Insufficient length buffer"@,
            DecodeError::InvalidNni => "Invalid NNI"@,
            DecodeError::NotEnoughData => "Not enough data"@,
            DecodeError::IncorrectNameEncoding => "Incorrect name TLV encoding"@,
            DecodeError::ExpectedAddress => "Expected TLV type 4"@,
            DecodeError::InvalidAddress => "Invalid address"@,
        }
    }

    /// The text that tells the error.
    pub fn message(&self) -> (text: &'static str)
        ensures
            text@ == self.spec_message(),
    {
        match self {
            DecodeError::UnexpectedEof => "Unexpected EOF",
            DecodeError::InsufficientLength => "Insufficient length buffer",
            DecodeError::InvalidNni => "Invalid NNI",
            DecodeError::NotEnoughData => "Not enough data",
            DecodeError::IncorrectNameEncoding => "Incorrect name TLV encoding",
            DecodeError::ExpectedAddress => "Expected TLV type 4",
            DecodeError::InvalidAddress => "Invalid address",
        }
    }

    /// The kind of the error.
    pub open spec fn spec_kind(&self) -> ErrorKind {
        match self {
            DecodeError::UnexpectedEof => ErrorKind::UnexpectedEof,
            DecodeError::ExpectedAddress | DecodeError::InvalidAddress => ErrorKind::Other,
            _ => ErrorKind::InvalidData,
        }
    }

    /// The kind of the error: a buffer that ends too early, a buffer that
    /// holds something wrong, or a face address that is none.
    #[verifier::when_used_as_spec(spec_kind)]
    pub fn kind(&self) -> (k: ErrorKind)
        ensures
            k == self.spec_kind(),
    {
        match self {
            DecodeError::UnexpectedEof => ErrorKind::UnexpectedEof,
            DecodeError::ExpectedAddress | DecodeError::InvalidAddress => ErrorKind::Other,
            _ => ErrorKind::InvalidData,
        }
    }
}

/// The packet and field types that the forwarder knows by name.
#[derive(Debug, Copy, Clone, PartialEq, Eq, Structural)]
#[allow(dead_code)]
pub enum Type {
    Invalid,
    Interest,
    Data,
    Name,
    GenericNameComponent,
    ImplicitSha256DigestComponent,
    ParametersSha256DigestComponent,
    CanBePrefix,
    MustBeFresh,
    ForwardingHint,
    Nonce,
    InterestLifetime,
    HopLimit,
    ApplicationParameters,
    InterestSignatureInfo,
    InterestSignatureValue,
    MetaInfo,
    Content,
    SignatureInfo,
    SignatureValue,
    ContentType,
    FreshnessPeriod,
    FinalBlockId,
    SignatureType,
    KeyLocator,
    KeyDigest,
    SignatureNonce,
    SignatureTime,
    SignatureSeqNum,
}

impl Type {
    /// The number that stands for the type on the wire.
    pub open spec fn spec_code(self) -> u64 {
        match self {
            Type::Invalid => 0,
            Type::Interest => 5,
            Type::Data => 6,
            Type::Name => 7,
            Type::GenericNameComponent => 8,
            Type::ImplicitSha256DigestComponent => 1,
            Type::ParametersSha256DigestComponent => 2,
            Type::CanBePrefix => 33,
            Type::MustBeFresh => 18,
            Type::ForwardingHint => 30,
            Type::Nonce => 10,
            Type::InterestLifetime => 12,
            Type::HopLimit => 34,
            Type::ApplicationParameters => 36,
            Type::InterestSignatureInfo => 44,
            Type::InterestSignatureValue => 46,
            Type::MetaInfo => 20,
            Type::Content => 21,
            Type::SignatureInfo => 22,
            Type::SignatureValue => 23,
            Type::ContentType => 24,
            Type::FreshnessPeriod => 25,
            Type::FinalBlockId => 26,
            Type::SignatureType => 27,
            Type::KeyLocator => 28,
            Type::KeyDigest => 29,
            Type::SignatureNonce => 38,
            Type::SignatureTime => 40,
            Type::SignatureSeqNum => 42,
        }
    }

    /// The number that stands for the type on the wire.
    #[verifier::when_used_as_spec(spec_code)]
    pub fn code(self) -> (c: u64)
        ensures
            c == self.spec_code(),
    {
        match self {
            Type::Invalid => 0,
            Type::Interest => 5,
            Type::Data => 6,
            Type::Name => 7,
            Type::GenericNameComponent => 8,
            Type::ImplicitSha256DigestComponent => 1,
            Type::ParametersSha256DigestComponent => 2,
            Type::CanBePrefix => 33,
            Type::MustBeFresh => 18,
            Type::ForwardingHint => 30,
            Type::Nonce => 10,
            Type::InterestLifetime => 12,
            Type::HopLimit => 34,
            Type::ApplicationParameters => 36,
            Type::InterestSignatureInfo => 44,
            Type::InterestSignatureValue => 46,
            Type::MetaInfo => 20,
            Type::Content => 21,
            Type::SignatureInfo => 22,
            Type::SignatureValue => 23,
            Type::ContentType => 24,
            Type::FreshnessPeriod => 25,
            Type::FinalBlockId => 26,
            Type::SignatureType => 27,
            Type::KeyLocator => 28,
            Type::KeyDigest => 29,
            Type::SignatureNonce => 38,
            Type::SignatureTime => 40,
            Type::SignatureSeqNum => 42,
        }
    }

    /// The type that `code` stands for, if it is a known one.
    pub open spec fn spec_from_code(code: u64) -> Option<Type> {
        if code == 0 {
            Some(Type::Invalid)
        } else 
if code == 5 {
            Some(Type::Interest)
        } else 
if code == 6 {
            Some(Type::Data)
        } else 
if code == 7 {
            Some(Type::Name)
        } else 
if code == 8 {
            Some(Type::GenericNameComponent)
        } else 
if code == 1 {
            Some(Type::ImplicitSha256DigestComponent)
        } else 
if code == 2 {
            Some(Type::ParametersSha256DigestComponent)
        } else 
if code == 33 {
            Some(Type::CanBePrefix)
        } else 
if code == 18 {
            Some(Type::MustBeFresh)
        } else 
if code == 30 {
            Some(Type::ForwardingHint)
        } else 
if code == 10 {
            Some(Type::Nonce)
        } else 
if code == 12 {
            Some(Type::InterestLifetime)
        } else 
if code == 34 {
            Some(Type::HopLimit)
        } else 
if code == 36 {
            Some(Type::ApplicationParameters)
        } else 
if code == 44 {
            Some(Type::InterestSignatureInfo)
        } else 
if code == 46 {
            Some(Type::InterestSignatureValue)
        } else 
if code == 20 {
            Some(Type::MetaInfo)
        } else 
if code == 21 {
            Some(Type::Content)
        } else 
if code == 22 {
            Some(Type::SignatureInfo)
        } else 
if code == 23 {
            Some(Type::SignatureValue)
        } else 
if code == 24 {
            Some(Type::ContentType)
        } else 
if code == 25 {
            Some(Type::FreshnessPeriod)
        } else 
if code == 26 {
            Some(Type::FinalBlockId)
        } else 
if code == 27 {
            Some(Type::SignatureType)
        } else 
if code == 28 {
            Some(Type::KeyLocator)
        } else 
if code == 29 {
            Some(Type::KeyDigest)
        } else 
if code == 38 {
            Some(Type::SignatureNonce)
        } else 
if code == 40 {
            Some(Type::SignatureTime)
        } else 
if code == 42 {
            Some(Type::SignatureSeqNum)
        } else {
            None
        }
    }

    /// The type that `code` stands for; `None` for a number that stands for
    /// no type known here.
    pub fn from_code(code: u64) -> (t: Option<Type>)
        ensures
            t == Type::spec_from_code(code),
            t matches Some(ty) ==> ty.spec_code() == code,
    {
        match code {
            0 => Some(Type::Invalid),
            5 => Some(Type::Interest),
            6 => Some(Type::Data),
            7 => Some(Type::Name),
            8 => Some(Type::GenericNameComponent),
            1 => Some(Type::ImplicitSha256DigestComponent),
            2 => Some(Type::ParametersSha256DigestComponent),
            33 => Some(Type::CanBePrefix),
            18 => Some(Type::MustBeFresh),
            30 => Some(Type::ForwardingHint),
            10 => Some(Type::Nonce),
            12 => Some(Type::InterestLifetime),
            34 => Some(Type::HopLimit),
            36 => Some(Type::ApplicationParameters),
            44 => Some(Type::InterestSignatureInfo),
            46 => Some(Type::InterestSignatureValue),
            20 => Some(Type::MetaInfo),
            21 => Some(Type::Content),
            22 => Some(Type::SignatureInfo),
            23 => Some(Type::SignatureValue),
            24 => Some(Type::ContentType),
            25 => Some(Type::FreshnessPeriod),
            26 => Some(Type::FinalBlockId),
            27 => Some(Type::SignatureType),
            28 => Some(Type::KeyLocator),
            29 => Some(Type::KeyDigest),
            38 => Some(Type::SignatureNonce),
            40 => Some(Type::SignatureTime),
            42 => Some(Type::SignatureSeqNum),
            _ => None,
        }
    }
}

/// Every type is the one that its own number stands for.
pub proof fn lemma_type_code_round_trip(t: Type)
    ensures
        Type::spec_from_code(t.spec_code()) == Some(t),
{
}

} // verus!
