//! Data carried by a `typedstream` archive: class descriptors, type codes,
//! decoded values, and the entries stored in the object table, together with
//! their mathematical views.

use vstd::prelude::*;
use vstd::string::StringExecFns;

verus! {

/// Marks the start of a new object or type list in the stream.
pub const START: u8 = 0x84;

/// Marks an empty value, possibly the end of an inheritance chain.
pub const EMPTY: u8 = 0x85;

/// Marks the last byte of an object.
pub const END: u8 = 0x86;

/// Introduces an embedded type-encoding block.
pub const ENCODING_DETECTED: u8 = 0x95;

/// Bytes at or above this value are back-references: the byte minus this
/// tag is an index into a table of already-seen entries.
pub const REFERENCE_TAG: u8 = 0x92;

/// How a malformed archive is reported. Decoding never panics: every
/// failure surfaces to the caller as one of these.
#[derive(Debug, Clone, Copy, PartialEq, Eq, Structural)]
pub enum DecodeError {
    /// A read requested more bytes than remain in the buffer.
    UnexpectedEndOfStream,
    /// A text segment is not valid UTF-8.
    InvalidText,
    /// A back-reference index is not below the table's length at the
    /// time of the lookup.
    UnresolvedReference(usize),
    /// A back-reference pointer byte was expected, but the byte at the
    /// cursor is below the reference tag and cannot be one.
    MalformedClassChain,
}

/// A class descriptor read from the archive: a name and a version byte.
/// Immutable once constructed.
#[derive(Debug, PartialEq, Eq)]
pub struct Class {
    pub name: String,
    pub version: u8,
}

/// Mathematical value of a [`Class`].
pub struct ClassV {
    pub name: Seq<char>,
    pub version: u8,
}

impl View for Class {
    type V = ClassV;

    open spec fn view(&self) -> ClassV {
        ClassV { name: self.name@, version: self.version }
    }
}

impl Clone for Class {
    fn clone(&self) -> (r: Self)
        ensures
            r == *self,
    {
        Class { name: self.name.clone(), version: self.version }
    }
}

/// The character for one decimal digit.
pub open spec fn digit_char(d: int) -> char {
    if d == 0 {
        '0'
    } else if d == 1 {
        '1'
    } else if d == 2 {
        '2'
    } else if d == 3 {
        '3'
    } else if d == 4 {
        '4'
    } else if d == 5 {
        '5'
    } else if d == 6 {
        '6'
    } else if d == 7 {
        '7'
    } else if d == 8 {
        '8'
    } else {
        '9'
    }
}

/// The decimal digits of a byte, most significant first, no leading zeros.
pub open spec fn dec_digits(v: u8) -> Seq<char> {
    if v >= 100 {
        seq![
            digit_char(v as int / 100),
            digit_char((v as int / 10) % 10),
            digit_char(v as int % 10),
        ]
    } else if v >= 10 {
        seq![digit_char(v as int / 10), digit_char(v as int % 10)]
    } else {
        seq![digit_char(v as int)]
    }
}

/// One decimal digit as text.
fn digit_str(d: u8) -> (r: &'static str)
    requires
        d < 10,
    ensures
        r@ == seq![digit_char(d as int)],
{
    let s: &'static str = match d {
        0 => "0",
        1 => "1",
        2 => "2",
        3 => "3",
        4 => "4",
        5 => "5",
        6 => "6",
        7 => "7",
        8 => "8",
        _ => "9",
    };
    proof {
        reveal_strlit("0");
        reveal_strlit("1");
        reveal_strlit("2");
        reveal_strlit("3");
        reveal_strlit("4");
        reveal_strlit("5");
        reveal_strlit("6");
        reveal_strlit("7");
        reveal_strlit("8");
        reveal_strlit("9");
        assert(s@ =~= seq![digit_char(d as int)]);
    }
    s
}

impl Class {
    /// Build a class descriptor from its name and version.
    pub fn new(name: String, version: u8) -> (r: Self)
        ensures
            r@ == (ClassV { name: name@, version }),
    {
        Class { name, version }
    }

    /// Render the class as its name followed by its version.
    pub fn as_string(&self) -> (r: String)
        ensures
            r@ == self.name@ + " v"@ + dec_digits(self.version),
    {
        let mut s = self.name.clone();
        s.append(" v");
        let v = self.version;
        if v >= 100 {
            s.append(digit_str(v / 100));
            s.append(digit_str((v / 10) % 10));
            s.append(digit_str(v % 10));
        } else if v >= 10 {
            s.append(digit_str(v / 10));
            s.append(digit_str(v % 10));
        } else {
            s.append(digit_str(v));
        }
        proof {
            assert(s@ =~= self.name@ + " v"@ + dec_digits(self.version));
        }
        s
    }
}

/// A type code governing how the bytes that follow are decoded.
#[derive(Debug, PartialEq, Eq)]
pub enum Type {
    /// A length byte followed by that many bytes of UTF-8 text.
    Utf8String,
    /// A nested type-specification-plus-values block.
    EmbeddedData,
    /// An archived object: a class chain or a back-reference.
    Object,
    /// A one-byte signed integer.
    SignedInt,
    /// A one-byte unsigned integer.
    UnsignedInt,
    /// A class name literal reused as a synthetic type entry.
    InlineName(String),
    /// Any unrecognized code byte, preserved verbatim.
    Unknown(u8),
}

/// Mathematical value of a [`Type`].
pub enum TypeV {
    Utf8String,
    EmbeddedData,
    Object,
    SignedInt,
    UnsignedInt,
    InlineName(Seq<char>),
    Unknown(u8),
}

impl View for Type {
    type V = TypeV;

    open spec fn view(&self) -> TypeV {
        match self {
            Type::Utf8String => TypeV::Utf8String,
            Type::EmbeddedData => TypeV::EmbeddedData,
            Type::Object => TypeV::Object,
            Type::SignedInt => TypeV::SignedInt,
            Type::UnsignedInt => TypeV::UnsignedInt,
            Type::InlineName(s) => TypeV::InlineName(s@),
            Type::Unknown(b) => TypeV::Unknown(*b),
        }
    }
}

impl Clone for Type {
    fn clone(&self) -> (r: Self)
        ensures
            r == *self,
    {
        match self {
            Type::Utf8String => Type::Utf8String,
            Type::EmbeddedData => Type::EmbeddedData,
            Type::Object => Type::Object,
            Type::SignedInt => Type::SignedInt,
            Type::UnsignedInt => Type::UnsignedInt,
            Type::InlineName(s) => Type::InlineName(s.clone()),
            Type::Unknown(b) => Type::Unknown(*b),
        }
    }
}

/// The meaning of each recognized type-code byte. Codes outside the
/// recognized set map to [`TypeV::Unknown`] rather than an error.
pub open spec fn spec_type_from_byte(byte: u8) -> TypeV {
    if byte == 0x40 {
        TypeV::Object
    } else if byte == 0x2B {
        TypeV::Utf8String
    } else if byte == 0x2A {
        TypeV::EmbeddedData
    } else if byte == 0x69 {
        TypeV::UnsignedInt
    } else if byte == 0x49 {
        TypeV::SignedInt
    } else {
        TypeV::Unknown(byte)
    }
}

impl Type {
    /// Decode one type-code byte.
    pub fn from_byte(byte: &u8) -> (r: Self)
        ensures
            r@ == spec_type_from_byte(*byte),
    {
        match *byte {
            0x40 => Type::Object,
            0x2B => Type::Utf8String,
            0x2A => Type::EmbeddedData,
            0x69 => Type::UnsignedInt,
            0x49 => Type::SignedInt,
            other => Type::Unknown(other),
        }
    }

    /// Wrap a class name literal as a synthetic type entry.
    pub fn new_string(string: String) -> (r: Self)
        ensures
            r@ == TypeV::InlineName(string@),
    {
        Type::InlineName(string)
    }
}

/// One decoded value of the stream.
#[derive(Debug, PartialEq, Eq)]
pub enum OutputData {
    /// Decoded text.
    Text(String),
    /// A one-byte integer widened to 32 bits.
    Number(i32),
    /// An unrecognized type code's byte, passed through verbatim.
    RawByte(u8),
    /// A class descriptor that an object reference resolved to.
    ClassDescriptor(Class),
    /// Marks where a new object begins.
    NewObjectMarker,
    /// A back-reference into the object table.
    BackReference(u8),
    /// A position reserved before its data was available.
    Placeholder,
    /// An object reference that resolved to nothing.
    Empty,
}

/// Mathematical value of an [`OutputData`].
pub enum OutputV {
    Text(Seq<char>),
    Number(i32),
    RawByte(u8),
    ClassDescriptor(ClassV),
    NewObjectMarker,
    BackReference(u8),
    Placeholder,
    Empty,
}

impl View for OutputData {
    type V = OutputV;

    open spec fn view(&self) -> OutputV {
        match self {
            OutputData::Text(s) => OutputV::Text(s@),
            OutputData::Number(n) => OutputV::Number(*n),
            OutputData::RawByte(b) => OutputV::RawByte(*b),
            OutputData::ClassDescriptor(c) => OutputV::ClassDescriptor(c@),
            OutputData::NewObjectMarker => OutputV::NewObjectMarker,
            OutputData::BackReference(i) => OutputV::BackReference(*i),
            OutputData::Placeholder => OutputV::Placeholder,
            OutputData::Empty => OutputV::Empty,
        }
    }
}

impl Clone for OutputData {
    fn clone(&self) -> (r: Self)
        ensures
            r == *self,
    {
        match self {
            OutputData::Text(s) => OutputData::Text(s.clone()),
            OutputData::Number(n) => OutputData::Number(*n),
            OutputData::RawByte(b) => OutputData::RawByte(*b),
            OutputData::ClassDescriptor(c) => OutputData::ClassDescriptor(c.clone()),
            OutputData::NewObjectMarker => OutputData::NewObjectMarker,
            OutputData::BackReference(i) => OutputData::BackReference(*i),
            OutputData::Placeholder => OutputData::Placeholder,
            OutputData::Empty => OutputData::Empty,
        }
    }
}

/// One entry of the object table: either a decoded object's value list or
/// a class descriptor.
#[derive(Debug, PartialEq, Eq)]
pub enum Archivable {
    Object(Vec<OutputData>),
    Class(Class),
}

/// Mathematical value of an [`Archivable`].
pub enum ArchivableV {
    Object(Seq<OutputV>),
    Class(ClassV),
}

/// The views of a sequence of decoded values.
pub open spec fn outputs_view(s: Seq<OutputData>) -> Seq<OutputV> {
    s.map_values(|o: OutputData| o@)
}

impl View for Archivable {
    type V = ArchivableV;

    open spec fn view(&self) -> ArchivableV {
        match self {
            Archivable::Object(vals) => ArchivableV::Object(outputs_view(vals@)),
            Archivable::Class(c) => ArchivableV::Class(c@),
        }
    }
}

/// Copy a list of decoded values element by element.
pub fn clone_outputs(v: &Vec<OutputData>) -> (r: Vec<OutputData>)
    ensures
        r@ == v@,
{
    let mut r: Vec<OutputData> = Vec::new();
    let mut i: usize = 0;
    while i < v.len()
        invariant
            i <= v.len(),
            r@ =~= v@.take(i as int),
        decreases v.len() - i,
    {
        r.push(v[i].clone());
        i = i + 1;
    }
    assert(r@ =~= v@);
    r
}

/// Copy a list of type codes element by element.
pub fn clone_types(v: &Vec<Type>) -> (r: Vec<Type>)
    ensures
        r@ == v@,
{
    let mut r: Vec<Type> = Vec::new();
    let mut i: usize = 0;
    while i < v.len()
        invariant
            i <= v.len(),
            r@ =~= v@.take(i as int),
        decreases v.len() - i,
    {
        r.push(v[i].clone());
        i = i + 1;
    }
    assert(r@ =~= v@);
    r
}

impl Clone for Archivable {
    fn clone(&self) -> (r: Self)
        ensures
            r@ == self@,
    {
        match self {
            Archivable::Object(vals) => Archivable::Object(clone_outputs(vals)),
            Archivable::Class(c) => Archivable::Class(c.clone()),
        }
    }
}

} // verus!
