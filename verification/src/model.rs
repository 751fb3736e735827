//! Mathematical model of the decoder: a ghost reader state and a
//! fuel-indexed specification of every decoding step. The executable
//! reader's contracts tie each method to these functions, so two runs
//! over the same bytes are provably identical.

use vstd::prelude::*;
use vstd::utf8::{decode_utf8, valid_utf8};

use crate::archive::{
    ArchivableV, ClassV, DecodeError, OutputV, TypeV, spec_type_from_byte, EMPTY, END,
    ENCODING_DETECTED, REFERENCE_TAG, START,
};

verus! {

/// The bytes the header occupies at the start of a stream; they are
/// skipped, not individually parsed.
pub const HEADER_LEN: usize = 16;

/// Ghost state of a reader: the buffer, the cursor, and the two
/// append-only tables.
pub struct ReaderModel {
    pub stream: Seq<u8>,
    pub idx: int,
    pub types: Seq<Seq<TypeV>>,
    pub objects: Seq<ArchivableV>,
}

impl ReaderModel {
    /// The cursor stays inside the buffer: it may sit at the end, never past it.
    pub open spec fn wf(self) -> bool {
        0 <= self.idx <= self.stream.len()
    }

    /// How many bytes remain to be read.
    pub open spec fn remaining(self) -> int {
        self.stream.len() - self.idx
    }
}

/// The state a parse starts from: cursor at the front, both tables empty.
pub open spec fn init_model(bytes: Seq<u8>) -> ReaderModel {
    ReaderModel { stream: bytes, idx: 0, types: Seq::empty(), objects: Seq::empty() }
}

/// `m` with the cursor moved forward by `n` bytes.
pub open spec fn advance(m: ReaderModel, n: int) -> ReaderModel {
    ReaderModel { stream: m.stream, idx: m.idx + n, types: m.types, objects: m.objects }
}

/// `m` with one entry appended to the type table.
pub open spec fn push_type_entry(m: ReaderModel, entry: Seq<TypeV>) -> ReaderModel {
    ReaderModel { stream: m.stream, idx: m.idx, types: m.types.push(entry), objects: m.objects }
}

/// `m` with one entry appended to the object table.
pub open spec fn push_object_entry(m: ReaderModel, entry: ArchivableV) -> ReaderModel {
    ReaderModel { stream: m.stream, idx: m.idx, types: m.types, objects: m.objects.push(entry) }
}

/// What every decoding step may do to the state: read forward over the
/// same buffer, and only ever append to the two tables.
pub open spec fn evolves(pre: ReaderModel, post: ReaderModel) -> bool {
    &&& post.stream == pre.stream
    &&& pre.idx <= post.idx
    &&& pre.types.is_prefix_of(post.types)
    &&& pre.objects.is_prefix_of(post.objects)
}

/// Nothing changing is a legal evolution.
pub broadcast proof fn lemma_evolves_refl(m: ReaderModel)
    ensures
        #[trigger] evolves(m, m),
{
    assert(m.types =~= m.types.subrange(0, m.types.len() as int));
    assert(m.objects =~= m.objects.subrange(0, m.objects.len() as int));
}

/// Evolution composes: two steps in a row are one step.
pub broadcast proof fn lemma_evolves_trans(a: ReaderModel, b: ReaderModel, c: ReaderModel)
    requires
        #[trigger] evolves(a, b),
        #[trigger] evolves(b, c),
    ensures
        evolves(a, c),
{
    assert(a.types =~= c.types.subrange(0, a.types.len() as int));
    assert(a.objects =~= c.objects.subrange(0, a.objects.len() as int));
}

/// Appending keeps everything already in a table where it was.
pub broadcast proof fn lemma_prefix_push<T>(s: Seq<T>, x: T)
    ensures
        #[trigger] s.is_prefix_of(s.push(x)),
{
    assert(s =~= s.push(x).subrange(0, s.len() as int));
}

/// The byte at the cursor, without moving it.
pub open spec fn spec_peek(m: ReaderModel) -> Result<u8, DecodeError> {
    if m.idx < m.stream.len() {
        Ok(m.stream[m.idx])
    } else {
        Err(DecodeError::UnexpectedEndOfStream)
    }
}

/// The byte after the one at the cursor, without moving it.
pub open spec fn spec_peek_next(m: ReaderModel) -> Result<u8, DecodeError> {
    if m.idx + 1 < m.stream.len() {
        Ok(m.stream[m.idx + 1])
    } else {
        Err(DecodeError::UnexpectedEndOfStream)
    }
}

/// Read one byte and move past it.
pub open spec fn spec_read_int(m: ReaderModel) -> (ReaderModel, Result<u8, DecodeError>) {
    if m.idx < m.stream.len() {
        (advance(m, 1), Ok(m.stream[m.idx]))
    } else {
        (m, Err(DecodeError::UnexpectedEndOfStream))
    }
}

/// Read exactly `n` bytes and move past them.
pub open spec fn spec_read_exact_bytes(m: ReaderModel, n: int) -> (
    ReaderModel,
    Result<Seq<u8>, DecodeError>,
) {
    if m.idx + n <= m.stream.len() {
        (advance(m, n), Ok(m.stream.subrange(m.idx, m.idx + n)))
    } else {
        (m, Err(DecodeError::UnexpectedEndOfStream))
    }
}

/// Read exactly `n` bytes as UTF-8 text.
pub open spec fn spec_read_exact_as_string(m: ReaderModel, n: int) -> (
    ReaderModel,
    Result<Seq<char>, DecodeError>,
) {
    let (m1, r) = spec_read_exact_bytes(m, n);
    match r {
        Err(e) => (m1, Err(e)),
        Ok(bytes) => if valid_utf8(bytes) {
            (m1, Ok(decode_utf8(bytes)))
        } else {
            (m1, Err(DecodeError::InvalidText))
        },
    }
}

/// Read a length byte, then that many bytes as text.
pub open spec fn spec_read_string(m: ReaderModel) -> (ReaderModel, Result<Seq<char>, DecodeError>) {
    let (m1, r) = spec_read_int(m);
    match r {
        Err(e) => (m1, Err(e)),
        Ok(len) => spec_read_exact_as_string(m1, len as int),
    }
}

/// Read a back-reference pointer: the byte at the cursor must be at or
/// above the reference tag; subtracting the tag gives the index.
pub open spec fn spec_read_pointer(m: ReaderModel) -> (ReaderModel, Result<u8, DecodeError>) {
    if m.idx < m.stream.len() {
        let b = m.stream[m.idx];
        if b >= REFERENCE_TAG {
            (advance(m, 1), Ok((b - REFERENCE_TAG) as u8))
        } else {
            (m, Err(DecodeError::MalformedClassChain))
        }
    } else {
        (m, Err(DecodeError::UnexpectedEndOfStream))
    }
}

/// Read a length byte, then that many type-code bytes.
pub open spec fn spec_read_type(m: ReaderModel) -> (
    ReaderModel,
    Result<Seq<TypeV>, DecodeError>,
) {
    let (m1, r) = spec_read_int(m);
    match r {
        Err(e) => (m1, Err(e)),
        Ok(len) => {
            let (m2, rb) = spec_read_exact_bytes(m1, len as int);
            match rb {
                Err(e) => (m2, Err(e)),
                Ok(bytes) => (m2, Ok(bytes.map_values(|b: u8| spec_type_from_byte(b)))),
            }
        },
    }
}

/// Move past a run of bytes each equal to the byte that follows it, so a
/// repeated marker collapses to its last occurrence.
pub open spec fn spec_skip_dups(m: ReaderModel) -> ReaderModel
    decreases m.stream.len() - m.idx,
{
    if m.idx + 1 < m.stream.len() && m.stream[m.idx] == m.stream[m.idx + 1] {
        spec_skip_dups(advance(m, 1))
    } else {
        m
    }
}

/// Move past a run of consecutive start-of-object markers.
pub open spec fn spec_skip_starts(m: ReaderModel) -> ReaderModel
    decreases m.stream.len() - m.idx,
{
    if m.idx < m.stream.len() && m.stream[m.idx] == START {
        spec_skip_starts(advance(m, 1))
    } else {
        m
    }
}

/// Resolve the list of type codes at the cursor: a fresh list after a
/// start marker is registered and used; an end marker means the empty
/// list; anything else is a back-reference into the type table.
pub open spec fn spec_get_type(m: ReaderModel) -> (ReaderModel, Result<Seq<TypeV>, DecodeError>) {
    if m.idx >= m.stream.len() {
        (m, Err(DecodeError::UnexpectedEndOfStream))
    } else {
        let b = m.stream[m.idx];
        if b == START {
            let (m1, r) = spec_read_type(advance(m, 1));
            match r {
                Err(e) => (m1, Err(e)),
                Ok(types) => (push_type_entry(m1, types), Ok(types)),
            }
        } else if b == END {
            (m, Ok(Seq::empty()))
        } else {
            let m1 = spec_skip_dups(m);
            let (m2, r) = spec_read_pointer(m1);
            match r {
                Err(e) => (m2, Err(e)),
                Ok(p) => if (p as int) < m2.types.len() {
                    (m2, Ok(m2.types[p as int]))
                } else {
                    (m2, Err(DecodeError::UnresolvedReference(p as usize)))
                },
            }
        }
    }
}

/// Decode a class chain at the cursor. A start marker introduces either a
/// back-reference (a length byte at or above the reference tag) or a
/// literal name and version, which are registered in both tables before
/// the rest of the chain is read; the result is the index of the last
/// entry registered. `None` is returned when fuel runs out, never on a
/// malformed stream.
pub open spec fn spec_read_class(m: ReaderModel, fuel: nat) -> Option<
    (ReaderModel, Result<Option<int>, DecodeError>),
>
    decreases fuel,
{
    if fuel == 0 {
        None
    } else if m.idx >= m.stream.len() {
        Some((m, Err(DecodeError::UnexpectedEndOfStream)))
    } else {
        let b = m.stream[m.idx];
        if b == START {
            let m1 = spec_skip_starts(m);
            let (m2, r) = spec_read_int(m1);
            match r {
                Err(e) => Some((m2, Err(e))),
                Ok(len_byte) => if len_byte >= REFERENCE_TAG {
                    let index = (len_byte - REFERENCE_TAG) as int;
                    if index < m2.objects.len() {
                        Some((m2, Ok(Some(index))))
                    } else {
                        Some((m2, Err(DecodeError::UnresolvedReference(index as usize))))
                    }
                } else {
                    let (m3, rs) = spec_read_exact_as_string(m2, len_byte as int);
                    match rs {
                        Err(e) => Some((m3, Err(e))),
                        Ok(name) => {
                            let (m4, rv) = spec_read_int(m3);
                            match rv {
                                Err(e) => Some((m4, Err(e))),
                                Ok(version) => {
                                    let m5 = push_object_entry(
                                        push_type_entry(m4, seq![TypeV::InlineName(name)]),
                                        ArchivableV::Class(ClassV { name, version }),
                                    );
                                    match spec_read_class(m5, (fuel - 1) as nat) {
                                        None => None,
                                        Some((m6, Err(e))) => Some((m6, Err(e))),
                                        Some((m6, Ok(_))) => Some(
                                            (
                                                m6,
                                                Ok(
                                                    if m6.objects.len() > 0 {
                                                        Some(m6.objects.len() - 1)
                                                    } else {
                                                        None
                                                    },
                                                ),
                                            ),
                                        ),
                                    }
                                },
                            }
                        },
                    }
                },
            }
        } else if b == EMPTY {
            let m1 = advance(m, 1);
            Some(
                (
                    m1,
                    Ok(
                        if m1.objects.len() > 0 {
                            Some(m1.objects.len() - 1)
                        } else {
                            None
                        },
                    ),
                ),
            )
        } else if b == ENCODING_DETECTED {
            match spec_read_embedded_data(m, (fuel - 1) as nat) {
                None => None,
                Some((m1, Err(e))) => Some((m1, Err(e))),
                Some((m1, Ok(vals))) => {
                    let m2 = push_object_entry(m1, ArchivableV::Object(vals));
                    Some((m2, Ok(Some(m2.objects.len() - 1))))
                },
            }
        } else {
            let (m1, r) = spec_read_pointer(m);
            match r {
                Err(e) => Some((m1, Err(e))),
                Ok(p) => if (p as int) < m1.objects.len() {
                    Some((m1, Ok(Some(p as int))))
                } else {
                    Some((m1, Err(DecodeError::UnresolvedReference(p as usize))))
                },
            }
        }
    }
}

/// Decode an object at the cursor: a start marker begins a class chain,
/// an empty marker yields nothing, and any other byte is a back-reference
/// into the object table.
pub open spec fn spec_read_object(m: ReaderModel, fuel: nat) -> Option<
    (ReaderModel, Result<Option<int>, DecodeError>),
>
    decreases fuel,
{
    if fuel == 0 {
        None
    } else if m.idx >= m.stream.len() {
        Some((m, Err(DecodeError::UnexpectedEndOfStream)))
    } else {
        let b = m.stream[m.idx];
        if b == START {
            spec_read_class(m, (fuel - 1) as nat)
        } else if b == EMPTY {
            Some((advance(m, 1), Ok(None)))
        } else {
            let (m1, r) = spec_read_pointer(m);
            match r {
                Err(e) => Some((m1, Err(e))),
                Ok(p) => if (p as int) < m1.objects.len() {
                    Some((m1, Ok(Some(p as int))))
                } else {
                    Some((m1, Err(DecodeError::UnresolvedReference(p as usize))))
                },
            }
        }
    }
}

/// Decode a nested type-spec-plus-values block: move past the leading
/// marker byte, resolve the type list, and decode one value per code.
pub open spec fn spec_read_embedded_data(m: ReaderModel, fuel: nat) -> Option<
    (ReaderModel, Result<Seq<OutputV>, DecodeError>),
>
    decreases fuel,
{
    if fuel == 0 {
        None
    } else if m.idx >= m.stream.len() {
        Some((m, Err(DecodeError::UnexpectedEndOfStream)))
    } else {
        let (m1, r) = spec_get_type(advance(m, 1));
        match r {
            Err(e) => Some((m1, Err(e))),
            Ok(types) => spec_read_types(m1, types, (fuel - 1) as nat),
        }
    }
}

/// Decode the values for a single type code.
pub open spec fn spec_decode_one(m: ReaderModel, t: TypeV, fuel: nat) -> Option<
    (ReaderModel, Result<Seq<OutputV>, DecodeError>),
>
    decreases fuel,
{
    if fuel == 0 {
        None
    } else {
        match t {
            TypeV::Utf8String => {
                let (m1, r) = spec_read_string(m);
                match r {
                    Err(e) => Some((m1, Err(e))),
                    Ok(s) => Some((m1, Ok(seq![OutputV::Text(s)]))),
                }
            },
            TypeV::EmbeddedData => spec_read_embedded_data(m, (fuel - 1) as nat),
            TypeV::Object => match spec_read_object(m, (fuel - 1) as nat) {
                None => None,
                Some((m1, Err(e))) => Some((m1, Err(e))),
                Some((m1, Ok(resolved))) => match resolved {
                    Some(i) => match m1.objects[i] {
                        ArchivableV::Object(data) => Some((m1, Ok(data))),
                        ArchivableV::Class(c) => Some(
                            (m1, Ok(seq![OutputV::ClassDescriptor(c)])),
                        ),
                    },
                    None => Some((m1, Ok(seq![OutputV::Empty]))),
                },
            },
            TypeV::SignedInt => {
                let (m1, r) = spec_read_int(m);
                match r {
                    Err(e) => Some((m1, Err(e))),
                    Ok(b) => Some((m1, Ok(seq![OutputV::Number(b as i32)]))),
                }
            },
            TypeV::UnsignedInt => {
                let (m1, r) = spec_read_int(m);
                match r {
                    Err(e) => Some((m1, Err(e))),
                    Ok(b) => Some((m1, Ok(seq![OutputV::Number(b as i32)]))),
                }
            },
            TypeV::Unknown(b) => Some((m, Ok(seq![OutputV::RawByte(b)]))),
            TypeV::InlineName(s) => Some((m, Ok(seq![OutputV::Text(s)]))),
        }
    }
}

/// Decode one value list per type code, splicing the results in order.
pub open spec fn spec_read_types(m: ReaderModel, types: Seq<TypeV>, fuel: nat) -> Option<
    (ReaderModel, Result<Seq<OutputV>, DecodeError>),
>
    decreases fuel,
{
    if fuel == 0 {
        None
    } else if types.len() == 0 {
        Some((m, Ok(Seq::empty())))
    } else {
        match spec_decode_one(m, types[0], (fuel - 1) as nat) {
            None => None,
            Some((m1, Err(e))) => Some((m1, Err(e))),
            Some((m1, Ok(vals))) => match spec_read_types(m1, types.drop_first(), (fuel - 1) as nat) {
                None => None,
                Some((m2, Err(e))) => Some((m2, Err(e))),
                Some((m2, Ok(rest))) => Some((m2, Ok(vals + rest))),
            },
        }
    }
}

/// Decode top-level entries until the buffer is exhausted: end-of-object
/// markers are consumed without emitting, and every other position yields
/// one entry from its type list.
pub open spec fn spec_parse_entries(m: ReaderModel, fuel: nat) -> Option<
    (ReaderModel, Result<Seq<Seq<OutputV>>, DecodeError>),
>
    decreases fuel,
{
    if fuel == 0 {
        None
    } else if m.idx >= m.stream.len() {
        Some((m, Ok(Seq::empty())))
    } else if m.stream[m.idx] == END {
        spec_parse_entries(advance(m, 1), (fuel - 1) as nat)
    } else {
        let (m1, r) = spec_get_type(m);
        match r {
            Err(e) => Some((m1, Err(e))),
            Ok(types) => match spec_read_types(m1, types, (fuel - 1) as nat) {
                None => None,
                Some((m2, Err(e))) => Some((m2, Err(e))),
                Some((m2, Ok(vals))) => match spec_parse_entries(m2, (fuel - 1) as nat) {
                    None => None,
                    Some((m3, Err(e))) => Some((m3, Err(e))),
                    Some((m3, Ok(rest))) => Some((m3, Ok(seq![vals] + rest))),
                },
            },
        }
    }
}

/// Decode a whole stream: read past the fixed-size header, then decode
/// entries to the end of the buffer.
pub open spec fn spec_parse(m: ReaderModel, fuel: nat) -> Option<
    (ReaderModel, Result<Seq<Seq<OutputV>>, DecodeError>),
> {
    let (m1, r) = spec_read_exact_bytes(m, HEADER_LEN as int);
    match r {
        Err(e) => Some((m1, Err(e))),
        Ok(_) => spec_parse_entries(m1, fuel),
    }
}

/// Once enough fuel is given for class-chain decoding to complete, more
/// fuel changes nothing.
pub proof fn lemma_read_class_mono(m: ReaderModel, f1: nat, f2: nat)
    requires
        f1 <= f2,
        spec_read_class(m, f1) is Some,
    ensures
        spec_read_class(m, f2) == spec_read_class(m, f1),
    decreases f1,
{
    if m.idx < m.stream.len() {
        let b = m.stream[m.idx];
        if b == START {
            let m1 = spec_skip_starts(m);
            let (m2, r) = spec_read_int(m1);
            match r {
                Err(_) => {},
                Ok(len_byte) => {
                    if len_byte < REFERENCE_TAG {
                        let (m3, rs) = spec_read_exact_as_string(m2, len_byte as int);
                        match rs {
                            Err(_) => {},
                            Ok(name) => {
                                let (m4, rv) = spec_read_int(m3);
                                match rv {
                                    Err(_) => {},
                                    Ok(version) => {
                                        let m5 = push_object_entry(
                                            push_type_entry(m4, seq![TypeV::InlineName(name)]),
                                            ArchivableV::Class(ClassV { name, version }),
                                        );
                                        lemma_read_class_mono(m5, (f1 - 1) as nat, (f2 - 1) as nat);
                                    },
                                }
                            },
                        }
                    }
                },
            }
        } else if b == ENCODING_DETECTED {
            lemma_read_embedded_data_mono(m, (f1 - 1) as nat, (f2 - 1) as nat);
        }
    }
}

/// Once enough fuel is given for object decoding to complete, more fuel
/// changes nothing.
pub proof fn lemma_read_object_mono(m: ReaderModel, f1: nat, f2: nat)
    requires
        f1 <= f2,
        spec_read_object(m, f1) is Some,
    ensures
        spec_read_object(m, f2) == spec_read_object(m, f1),
    decreases f1,
{
    if m.idx < m.stream.len() {
        let b = m.stream[m.idx];
        if b == START {
            lemma_read_class_mono(m, (f1 - 1) as nat, (f2 - 1) as nat);
        }
    }
}

/// Once enough fuel is given for an embedded block to complete, more fuel
/// changes nothing.
pub proof fn lemma_read_embedded_data_mono(m: ReaderModel, f1: nat, f2: nat)
    requires
        f1 <= f2,
        spec_read_embedded_data(m, f1) is Some,
    ensures
        spec_read_embedded_data(m, f2) == spec_read_embedded_data(m, f1),
    decreases f1,
{
    if m.idx < m.stream.len() {
        let (m1, r) = spec_get_type(advance(m, 1));
        match r {
            Err(_) => {},
            Ok(types) => {
                lemma_read_types_mono(m1, types, (f1 - 1) as nat, (f2 - 1) as nat);
            },
        }
    }
}

/// Once enough fuel is given for one type code to complete, more fuel
/// changes nothing.
pub proof fn lemma_decode_one_mono(m: ReaderModel, t: TypeV, f1: nat, f2: nat)
    requires
        f1 <= f2,
        spec_decode_one(m, t, f1) is Some,
    ensures
        spec_decode_one(m, t, f2) == spec_decode_one(m, t, f1),
    decreases f1,
{
    match t {
        TypeV::EmbeddedData => {
            lemma_read_embedded_data_mono(m, (f1 - 1) as nat, (f2 - 1) as nat);
        },
        TypeV::Object => {
            lemma_read_object_mono(m, (f1 - 1) as nat, (f2 - 1) as nat);
        },
        _ => {},
    }
}

/// Once enough fuel is given for a type list to complete, more fuel
/// changes nothing.
pub proof fn lemma_read_types_mono(m: ReaderModel, types: Seq<TypeV>, f1: nat, f2: nat)
    requires
        f1 <= f2,
        spec_read_types(m, types, f1) is Some,
    ensures
        spec_read_types(m, types, f2) == spec_read_types(m, types, f1),
    decreases f1,
{
    if types.len() > 0 {
        lemma_decode_one_mono(m, types[0], (f1 - 1) as nat, (f2 - 1) as nat);
        match spec_decode_one(m, types[0], (f1 - 1) as nat) {
            None => {},
            Some((m1, r)) => {
                match r {
                    Err(_) => {},
                    Ok(_) => {
                        lemma_read_types_mono(
                            m1,
                            types.drop_first(),
                            (f1 - 1) as nat,
                            (f2 - 1) as nat,
                        );
                    },
                }
            },
        }
    }
}

/// Once enough fuel is given for the entry loop to complete, more fuel
/// changes nothing.
pub proof fn lemma_parse_entries_mono(m: ReaderModel, f1: nat, f2: nat)
    requires
        f1 <= f2,
        spec_parse_entries(m, f1) is Some,
    ensures
        spec_parse_entries(m, f2) == spec_parse_entries(m, f1),
    decreases f1,
{
    if m.idx < m.stream.len() {
        if m.stream[m.idx] == END {
            lemma_parse_entries_mono(advance(m, 1), (f1 - 1) as nat, (f2 - 1) as nat);
        } else {
            let (m1, r) = spec_get_type(m);
            match r {
                Err(_) => {},
                Ok(types) => {
                    lemma_read_types_mono(m1, types, (f1 - 1) as nat, (f2 - 1) as nat);
                    match spec_read_types(m1, types, (f1 - 1) as nat) {
                        None => {},
                        Some((m2, rr)) => {
                            match rr {
                                Err(_) => {},
                                Ok(_) => {
                                    lemma_parse_entries_mono(m2, (f1 - 1) as nat, (f2 - 1) as nat);
                                },
                            }
                        },
                    }
                },
            }
        }
    }
}

/// Skipping repeated bytes stays inside the buffer and moves only
/// forward, touching nothing else.
pub proof fn lemma_skip_dups_evolves(m: ReaderModel)
    requires
        m.wf(),
    ensures
        spec_skip_dups(m).wf(),
        m.idx <= spec_skip_dups(m).idx,
        spec_skip_dups(m).stream == m.stream,
        spec_skip_dups(m).types == m.types,
        spec_skip_dups(m).objects == m.objects,
    decreases m.stream.len() - m.idx,
{
    if m.idx + 1 < m.stream.len() && m.stream[m.idx] == m.stream[m.idx + 1] {
        lemma_skip_dups_evolves(advance(m, 1));
    }
}

/// Skipping start markers stays inside the buffer and moves only
/// forward, touching nothing else.
pub proof fn lemma_skip_starts_evolves(m: ReaderModel)
    requires
        m.wf(),
    ensures
        spec_skip_starts(m).wf(),
        m.idx <= spec_skip_starts(m).idx,
        spec_skip_starts(m).stream == m.stream,
        spec_skip_starts(m).types == m.types,
        spec_skip_starts(m).objects == m.objects,
    decreases m.stream.len() - m.idx,
{
    if m.idx < m.stream.len() && m.stream[m.idx] == START {
        lemma_skip_starts_evolves(advance(m, 1));
    }
}

/// Resolving a type list keeps the state well formed and moves the
/// cursor only forward; except at an end marker, success consumes at
/// least one byte.
pub proof fn lemma_get_type_evolves(m: ReaderModel)
    requires
        m.wf(),
    ensures
        ({
            let (m1, r) = spec_get_type(m);
            &&& m1.wf()
            &&& m.idx <= m1.idx
            &&& m1.stream == m.stream
            &&& (m.idx < m.stream.len() && m.stream[m.idx] != END && r is Ok ==> m.idx < m1.idx)
        }),
{
    if m.idx < m.stream.len() {
        let b = m.stream[m.idx];
        if b != START && b != END {
            lemma_skip_dups_evolves(m);
        }
    }
}

/// Class-chain decoding keeps the state well formed and moves the
/// cursor only forward.
pub proof fn lemma_read_class_evolves(m: ReaderModel, fuel: nat)
    requires
        m.wf(),
        spec_read_class(m, fuel) is Some,
    ensures
        ({
            let (m1, _) = spec_read_class(m, fuel)->0;
            &&& m1.wf()
            &&& m.idx <= m1.idx
            &&& m1.stream == m.stream
        }),
    decreases fuel,
{
    if m.idx < m.stream.len() {
        let b = m.stream[m.idx];
        if b == START {
            lemma_skip_starts_evolves(m);
            let m1 = spec_skip_starts(m);
            let (m2, r) = spec_read_int(m1);
            match r {
                Err(_) => {},
                Ok(len_byte) => {
                    if len_byte < REFERENCE_TAG {
                        let (m3, rs) = spec_read_exact_as_string(m2, len_byte as int);
                        match rs {
                            Err(_) => {},
                            Ok(name) => {
                                let (m4, rv) = spec_read_int(m3);
                                match rv {
                                    Err(_) => {},
                                    Ok(version) => {
                                        let m5 = push_object_entry(
                                            push_type_entry(m4, seq![TypeV::InlineName(name)]),
                                            ArchivableV::Class(ClassV { name, version }),
                                        );
                                        lemma_read_class_evolves(m5, (fuel - 1) as nat);
                                    },
                                }
                            },
                        }
                    }
                },
            }
        } else if b == ENCODING_DETECTED {
            lemma_read_embedded_data_evolves(m, (fuel - 1) as nat);
        }
    }
}

/// Object decoding keeps the state well formed and moves the cursor
/// only forward.
pub proof fn lemma_read_object_evolves(m: ReaderModel, fuel: nat)
    requires
        m.wf(),
        spec_read_object(m, fuel) is Some,
    ensures
        ({
            let (m1, _) = spec_read_object(m, fuel)->0;
            &&& m1.wf()
            &&& m.idx <= m1.idx
            &&& m1.stream == m.stream
        }),
    decreases fuel,
{
    if m.idx < m.stream.len() {
        let b = m.stream[m.idx];
        if b == START {
            lemma_read_class_evolves(m, (fuel - 1) as nat);
        }
    }
}

/// Embedded-block decoding keeps the state well formed and moves the
/// cursor only forward.
pub proof fn lemma_read_embedded_data_evolves(m: ReaderModel, fuel: nat)
    requires
        m.wf(),
        spec_read_embedded_data(m, fuel) is Some,
    ensures
        ({
            let (m1, _) = spec_read_embedded_data(m, fuel)->0;
            &&& m1.wf()
            &&& m.idx <= m1.idx
            &&& m1.stream == m.stream
        }),
    decreases fuel,
{
    if m.idx < m.stream.len() {
        lemma_get_type_evolves(advance(m, 1));
        let (m1, r) = spec_get_type(advance(m, 1));
        match r {
            Err(_) => {},
            Ok(types) => {
                lemma_read_types_evolves(m1, types, (fuel - 1) as nat);
            },
        }
    }
}

/// Decoding one type code keeps the state well formed and moves the
/// cursor only forward.
pub proof fn lemma_decode_one_evolves(m: ReaderModel, t: TypeV, fuel: nat)
    requires
        m.wf(),
        spec_decode_one(m, t, fuel) is Some,
    ensures
        ({
            let (m1, _) = spec_decode_one(m, t, fuel)->0;
            &&& m1.wf()
            &&& m.idx <= m1.idx
            &&& m1.stream == m.stream
        }),
    decreases fuel,
{
    match t {
        TypeV::EmbeddedData => {
            lemma_read_embedded_data_evolves(m, (fuel - 1) as nat);
        },
        TypeV::Object => {
            lemma_read_object_evolves(m, (fuel - 1) as nat);
        },
        _ => {},
    }
}

/// Decoding a type list keeps the state well formed and moves the
/// cursor only forward.
pub proof fn lemma_read_types_evolves(m: ReaderModel, types: Seq<TypeV>, fuel: nat)
    requires
        m.wf(),
        spec_read_types(m, types, fuel) is Some,
    ensures
        ({
            let (m1, _) = spec_read_types(m, types, fuel)->0;
            &&& m1.wf()
            &&& m.idx <= m1.idx
            &&& m1.stream == m.stream
        }),
    decreases fuel,
{
    if types.len() > 0 {
        lemma_decode_one_evolves(m, types[0], (fuel - 1) as nat);
        match spec_decode_one(m, types[0], (fuel - 1) as nat) {
            None => {},
            Some((m1, r)) => {
                match r {
                    Err(_) => {},
                    Ok(_) => {
                        lemma_read_types_evolves(m1, types.drop_first(), (fuel - 1) as nat);
                    },
                }
            },
        }
    }
}

/// With enough fuel, class-chain decoding always completes.
pub proof fn lemma_read_class_total(m: ReaderModel)
    requires
        m.wf(),
    ensures
        exists|fuel: nat| (#[trigger] spec_read_class(m, fuel)) is Some,
    decreases m.stream.len() - m.idx, 1int, 0int,
{
    if m.idx >= m.stream.len() {
        assert(spec_read_class(m, 1nat) is Some);
    } else {
        let b = m.stream[m.idx];
        if b == START {
            lemma_skip_starts_evolves(m);
            let m1 = spec_skip_starts(m);
            assert(spec_skip_starts(m) == spec_skip_starts(advance(m, 1)));
            lemma_skip_starts_evolves(advance(m, 1));
            let (m2, r) = spec_read_int(m1);
            match r {
                Err(_) => {
                    assert(spec_read_class(m, 1nat) is Some);
                },
                Ok(len_byte) => {
                    if len_byte >= REFERENCE_TAG {
                        assert(spec_read_class(m, 1nat) is Some);
                    } else {
                        let (m3, rs) = spec_read_exact_as_string(m2, len_byte as int);
                        match rs {
                            Err(_) => {
                                assert(spec_read_class(m, 1nat) is Some);
                            },
                            Ok(name) => {
                                let (m4, rv) = spec_read_int(m3);
                                match rv {
                                    Err(_) => {
                                        assert(spec_read_class(m, 1nat) is Some);
                                    },
                                    Ok(version) => {
                                        let m5 = push_object_entry(
                                            push_type_entry(m4, seq![TypeV::InlineName(name)]),
                                            ArchivableV::Class(ClassV { name, version }),
                                        );
                                        lemma_read_class_total(m5);
                                        let f = choose|f: nat| spec_read_class(m5, f) is Some;
                                        assert(spec_read_class(m, f + 1) is Some);
                                    },
                                }
                            },
                        }
                    }
                },
            }
        } else if b == EMPTY {
            assert(spec_read_class(m, 1nat) is Some);
        } else if b == ENCODING_DETECTED {
            lemma_read_embedded_data_total(m);
            let f = choose|f: nat| spec_read_embedded_data(m, f) is Some;
            assert(spec_read_class(m, f + 1) is Some);
        } else {
            assert(spec_read_class(m, 1nat) is Some);
        }
    }
}

/// With enough fuel, object decoding always completes.
pub proof fn lemma_read_object_total(m: ReaderModel)
    requires
        m.wf(),
    ensures
        exists|fuel: nat| (#[trigger] spec_read_object(m, fuel)) is Some,
    decreases m.stream.len() - m.idx, 2int, 0int,
{
    if m.idx >= m.stream.len() {
        assert(spec_read_object(m, 1nat) is Some);
    } else {
        let b = m.stream[m.idx];
        if b == START {
            lemma_read_class_total(m);
            let f = choose|f: nat| spec_read_class(m, f) is Some;
            assert(spec_read_object(m, f + 1) is Some);
        } else {
            assert(spec_read_object(m, 1nat) is Some);
        }
    }
}

/// With enough fuel, embedded-block decoding always completes.
pub proof fn lemma_read_embedded_data_total(m: ReaderModel)
    requires
        m.wf(),
    ensures
        exists|fuel: nat| (#[trigger] spec_read_embedded_data(m, fuel)) is Some,
    decreases m.stream.len() - m.idx, 0int, 0int,
{
    if m.idx >= m.stream.len() {
        assert(spec_read_embedded_data(m, 1nat) is Some);
    } else {
        lemma_get_type_evolves(advance(m, 1));
        let (m1, r) = spec_get_type(advance(m, 1));
        match r {
            Err(_) => {
                assert(spec_read_embedded_data(m, 1nat) is Some);
            },
            Ok(types) => {
                lemma_read_types_total(m1, types);
                let f = choose|f: nat| spec_read_types(m1, types, f) is Some;
                assert(spec_read_embedded_data(m, f + 1) is Some);
            },
        }
    }
}

/// With enough fuel, decoding one type code always completes.
pub proof fn lemma_decode_one_total(m: ReaderModel, t: TypeV)
    requires
        m.wf(),
    ensures
        exists|fuel: nat| (#[trigger] spec_decode_one(m, t, fuel)) is Some,
    decreases m.stream.len() - m.idx, 3int, 0int,
{
    match t {
        TypeV::EmbeddedData => {
            lemma_read_embedded_data_total(m);
            let f = choose|f: nat| spec_read_embedded_data(m, f) is Some;
            assert(spec_decode_one(m, t, f + 1) is Some);
        },
        TypeV::Object => {
            lemma_read_object_total(m);
            let f = choose|f: nat| spec_read_object(m, f) is Some;
            assert(spec_decode_one(m, t, f + 1) is Some);
        },
        _ => {
            assert(spec_decode_one(m, t, 1nat) is Some);
        },
    }
}

/// With enough fuel, decoding a type list always completes.
pub proof fn lemma_read_types_total(m: ReaderModel, types: Seq<TypeV>)
    requires
        m.wf(),
    ensures
        exists|fuel: nat| (#[trigger] spec_read_types(m, types, fuel)) is Some,
    decreases m.stream.len() - m.idx, 4int, types.len(),
{
    if types.len() == 0 {
        assert(spec_read_types(m, types, 1nat) is Some);
    } else {
        lemma_decode_one_total(m, types[0]);
        let f1 = choose|f: nat| spec_decode_one(m, types[0], f) is Some;
        lemma_decode_one_evolves(m, types[0], f1);
        let (m1, r) = spec_decode_one(m, types[0], f1)->0;
        match r {
            Err(_) => {
                assert(spec_read_types(m, types, f1 + 1) is Some);
            },
            Ok(_) => {
                lemma_read_types_total(m1, types.drop_first());
                let f2 = choose|f: nat| spec_read_types(m1, types.drop_first(), f) is Some;
                let fm: nat = if f1 >= f2 {
                    f1
                } else {
                    f2
                };
                lemma_decode_one_mono(m, types[0], f1, fm);
                lemma_read_types_mono(m1, types.drop_first(), f2, fm);
                assert(spec_read_types(m, types, fm + 1) is Some);
            },
        }
    }
}

/// With enough fuel, the entry loop always completes.
pub proof fn lemma_parse_entries_total(m: ReaderModel)
    requires
        m.wf(),
    ensures
        exists|fuel: nat| (#[trigger] spec_parse_entries(m, fuel)) is Some,
    decreases m.stream.len() - m.idx, 5int, 0int,
{
    if m.idx >= m.stream.len() {
        assert(spec_parse_entries(m, 1nat) is Some);
    } else if m.stream[m.idx] == END {
        lemma_parse_entries_total(advance(m, 1));
        let f = choose|f: nat| spec_parse_entries(advance(m, 1), f) is Some;
        assert(spec_parse_entries(m, f + 1) is Some);
    } else {
        lemma_get_type_evolves(m);
        let (m1, r) = spec_get_type(m);
        match r {
            Err(_) => {
                assert(spec_parse_entries(m, 1nat) is Some);
            },
            Ok(types) => {
                lemma_read_types_total(m1, types);
                let f1 = choose|f: nat| spec_read_types(m1, types, f) is Some;
                lemma_read_types_evolves(m1, types, f1);
                let (m2, r2) = spec_read_types(m1, types, f1)->0;
                match r2 {
                    Err(_) => {
                        assert(spec_parse_entries(m, f1 + 1) is Some);
                    },
                    Ok(_) => {
                        lemma_parse_entries_total(m2);
                        let f2 = choose|f: nat| spec_parse_entries(m2, f) is Some;
                        let fm: nat = if f1 >= f2 {
                            f1
                        } else {
                            f2
                        };
                        lemma_read_types_mono(m1, types, f1, fm);
                        lemma_parse_entries_mono(m2, f2, fm);
                        assert(spec_parse_entries(m, fm + 1) is Some);
                    },
                }
            },
        }
    }
}

/// Law: decoding always completes. For every byte buffer there is a
/// fuel on which the specification decoder finishes — with an output,
/// or with one of the four decode errors — and by determinism that one
/// outcome is the outcome of every run over those bytes.
pub proof fn lemma_parse_total(bytes: Seq<u8>)
    ensures
        exists|fuel: nat| (#[trigger] spec_parse(init_model(bytes), fuel)) is Some,
{
    let m = init_model(bytes);
    let (m1, r) = spec_read_exact_bytes(m, HEADER_LEN as int);
    match r {
        Err(_) => {
            assert(spec_parse(m, 1nat) is Some);
        },
        Ok(_) => {
            lemma_parse_entries_total(m1);
            let f = choose|f: nat| spec_parse_entries(m1, f) is Some;
            assert(spec_parse(m, f) is Some);
        },
    }
}

/// Law: a buffer too short to hold the fixed-size header always fails,
/// with the end-of-stream error, whatever fuel the specification is
/// given: no amount of work turns a missing header into output.
pub proof fn lemma_short_buffer_fails(bytes: Seq<u8>, fuel: nat)
    requires
        bytes.len() < HEADER_LEN,
    ensures
        spec_parse(init_model(bytes), fuel) == Some(
            (init_model(bytes), Err::<Seq<Seq<OutputV>>, DecodeError>(
                DecodeError::UnexpectedEndOfStream,
            )),
        ),
{
}

/// Law: the object table is append-only. Once an entry is registered at
/// an index, every later state of the same parse holds that entry,
/// unchanged, at that index.
pub proof fn lemma_object_table_stable(pre: ReaderModel, post: ReaderModel, i: int)
    requires
        evolves(pre, post),
        0 <= i < pre.objects.len(),
    ensures
        pre.objects.len() <= post.objects.len(),
        post.objects[i] == pre.objects[i],
{
    assert(pre.objects =~= post.objects.subrange(0, pre.objects.len() as int));
}

/// Law: the type table is append-only, exactly as the object table is.
pub proof fn lemma_type_table_stable(pre: ReaderModel, post: ReaderModel, i: int)
    requires
        evolves(pre, post),
        0 <= i < pre.types.len(),
    ensures
        pre.types.len() <= post.types.len(),
        post.types[i] == pre.types[i],
{
    assert(pre.types =~= post.types.subrange(0, pre.types.len() as int));
}

/// Law: decoding is a function of the bytes alone. Any two fuel values
/// that let the specification complete from the same state yield the very
/// same final state and the very same outcome, so two independent parses
/// of one buffer are identical.
pub proof fn lemma_parse_deterministic(m: ReaderModel, f1: nat, f2: nat)
    requires
        spec_parse(m, f1) is Some,
        spec_parse(m, f2) is Some,
    ensures
        spec_parse(m, f1) == spec_parse(m, f2),
{
    let (m1, r) = spec_read_exact_bytes(m, HEADER_LEN as int);
    match r {
        Err(_) => {},
        Ok(_) => {
            if f1 <= f2 {
                lemma_parse_entries_mono(m1, f1, f2);
            } else {
                lemma_parse_entries_mono(m1, f2, f1);
            }
        },
    }
}

} // verus!
