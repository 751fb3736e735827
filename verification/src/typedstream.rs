//! The executable `typedstream` reader: a bounds-checked byte cursor over
//! a borrowed buffer, the two append-only tables, and the decoding
//! methods. Every method's contract ties its effect to the mathematical
//! decoder in [`crate::model`], so the whole parse is pinned down as a
//! function of the input bytes.

use vstd::prelude::*;
use vstd::slice::{slice_index_get, slice_subrange};
use vstd::utf8::{decode_utf8, valid_utf8};

use crate::archive::{
    clone_types, outputs_view, Archivable, ArchivableV, Class, ClassV, DecodeError, OutputData,
    OutputV, Type, TypeV, EMPTY, END, ENCODING_DETECTED, REFERENCE_TAG, START,
};
use crate::model::{
    advance, evolves, init_model, lemma_decode_one_mono, lemma_evolves_refl, lemma_evolves_trans,
    lemma_parse_entries_mono, lemma_prefix_push, lemma_read_types_mono, push_object_entry,
    push_type_entry, spec_decode_one, spec_get_type, spec_parse, spec_parse_entries, spec_peek,
    spec_peek_next, spec_read_class, spec_read_embedded_data, spec_read_exact_as_string,
    spec_read_exact_bytes, spec_read_int, spec_read_object, spec_read_pointer, spec_read_string,
    spec_read_type, spec_read_types, spec_skip_dups, spec_skip_starts, ReaderModel, HEADER_LEN,
};

verus! {

broadcast use {
    lemma_evolves_refl,
    lemma_evolves_trans,
    lemma_prefix_push,
    vstd::prelude::Seq::lemma_push_map_commute,
    vstd::prelude::Seq::lemma_map_take_succ,
};

/// The views of a sequence of type codes.
pub open spec fn types_view(s: Seq<Type>) -> Seq<TypeV> {
    s.map_values(|t: Type| t@)
}

/// The views of the object table's entries.
pub open spec fn objects_view(s: Seq<Archivable>) -> Seq<ArchivableV> {
    s.map_values(|a: Archivable| a@)
}

/// The views of a sequence of decoded entries.
pub open spec fn entries_view(s: Seq<Vec<OutputData>>) -> Seq<Seq<OutputV>> {
    s.map_values(|v: Vec<OutputData>| outputs_view(v@))
}

/// A byte-slice result seen mathematically.
pub open spec fn bytes_res_view(r: Result<&[u8], DecodeError>) -> Result<Seq<u8>, DecodeError> {
    match r {
        Ok(b) => Ok(b@),
        Err(e) => Err(e),
    }
}

/// A string result seen mathematically.
pub open spec fn string_res_view(r: Result<String, DecodeError>) -> Result<
    Seq<char>,
    DecodeError,
> {
    match r {
        Ok(s) => Ok(s@),
        Err(e) => Err(e),
    }
}

/// A type-list result seen mathematically.
pub open spec fn types_res_view(r: Result<Vec<Type>, DecodeError>) -> Result<
    Seq<TypeV>,
    DecodeError,
> {
    match r {
        Ok(v) => Ok(types_view(v@)),
        Err(e) => Err(e),
    }
}

/// A table-index result seen mathematically.
pub open spec fn index_res_view(r: Result<Option<usize>, DecodeError>) -> Result<
    Option<int>,
    DecodeError,
> {
    match r {
        Ok(Some(i)) => Ok(Some(i as int)),
        Ok(None) => Ok(None),
        Err(e) => Err(e),
    }
}

/// A value-list result seen mathematically.
pub open spec fn outputs_res_view(r: Result<Vec<OutputData>, DecodeError>) -> Result<
    Seq<OutputV>,
    DecodeError,
> {
    match r {
        Ok(v) => Ok(outputs_view(v@)),
        Err(e) => Err(e),
    }
}

/// An entry-list result seen mathematically.
pub open spec fn entries_res_view(r: Result<Vec<Vec<OutputData>>, DecodeError>) -> Result<
    Seq<Seq<OutputV>>,
    DecodeError,
> {
    match r {
        Ok(v) => Ok(entries_view(v@)),
        Err(e) => Err(e),
    }
}

/// Relies on `core::str::from_utf8`: it returns `Ok` exactly when the
/// bytes are valid UTF-8, and the string it returns decodes them.
#[verifier::external_body]
fn parse_utf8<'b>(bytes: &'b [u8]) -> (r: Option<&'b str>)
    ensures
        r is Some <==> valid_utf8(bytes@),
        r matches Some(s) ==> s@ == decode_utf8(bytes@),
{
    core::str::from_utf8(bytes).ok()
}

/// A sequential reader over one `typedstream` buffer, together with the
/// type table and object table that back-references resolve into. The
/// buffer is borrowed, never copied; the tables are append-only and live
/// only as long as one parse.
#[derive(Debug)]
pub struct TypedStreamReader<'a> {
    /// The raw bytes being decoded.
    pub stream: &'a [u8],
    /// The cursor: index of the next byte to read.
    pub idx: usize,
    /// Registered type-signature lists, indexed by insertion order.
    pub types_table: Vec<Vec<Type>>,
    /// Registered classes and object value lists, indexed by insertion order.
    pub object_table: Vec<Archivable>,
}

impl<'a> View for TypedStreamReader<'a> {
    type V = ReaderModel;

    open spec fn view(&self) -> ReaderModel {
        ReaderModel {
            stream: self.stream@,
            idx: self.idx as int,
            types: self.types_table@.map_values(|v: Vec<Type>| types_view(v@)),
            objects: objects_view(self.object_table@),
        }
    }
}

impl<'a> TypedStreamReader<'a> {
    /// A fresh reader: cursor at the front, both tables empty.
    pub fn new(stream: &'a [u8]) -> (r: Self)
        ensures
            r@ == init_model(stream@),
            r@.wf(),
    {
        let r = TypedStreamReader {
            stream,
            idx: 0,
            types_table: Vec::new(),
            object_table: Vec::new(),
        };
        proof {
            assert(r@.types =~= init_model(stream@).types);
            assert(r@.objects =~= init_model(stream@).objects);
        }
        r
    }

    /// Read the byte at the cursor and move past it.
    pub fn read_int(&mut self) -> (r: Result<u8, DecodeError>)
        requires
            old(self)@.wf(),
        ensures
            final(self)@.wf(),
            evolves(old(self)@, final(self)@),
            (final(self)@, r) == spec_read_int(old(self)@),
    {
        if self.idx < self.stream.len() {
            let b = *slice_index_get(self.stream, self.idx);
            self.idx = self.idx + 1;
            Ok(b)
        } else {
            Err(DecodeError::UnexpectedEndOfStream)
        }
    }

    /// Read exactly `n` bytes and move past them.
    pub fn read_exact_bytes(&mut self, n: usize) -> (r: Result<&'a [u8], DecodeError>)
        requires
            old(self)@.wf(),
        ensures
            final(self)@.wf(),
            evolves(old(self)@, final(self)@),
            (final(self)@, bytes_res_view(r)) == spec_read_exact_bytes(old(self)@, n as int),
    {
        if n <= self.stream.len() - self.idx {
            let out = slice_subrange(self.stream, self.idx, self.idx + n);
            self.idx = self.idx + n;
            Ok(out)
        } else {
            Err(DecodeError::UnexpectedEndOfStream)
        }
    }

    /// Read exactly `n` bytes as UTF-8 text.
    pub fn read_exact_as_string(&mut self, n: usize) -> (r: Result<String, DecodeError>)
        requires
            old(self)@.wf(),
        ensures
            final(self)@.wf(),
            evolves(old(self)@, final(self)@),
            (final(self)@, string_res_view(r)) == spec_read_exact_as_string(old(self)@, n as int),
    {
        let bytes = match self.read_exact_bytes(n) {
            Ok(b) => b,
            Err(e) => {
                return Err(e);
            },
        };
        match parse_utf8(bytes) {
            Some(s) => Ok(s.to_owned()),
            None => Err(DecodeError::InvalidText),
        }
    }

    /// Read a length byte, then that many bytes as text.
    pub fn read_string(&mut self) -> (r: Result<String, DecodeError>)
        requires
            old(self)@.wf(),
        ensures
            final(self)@.wf(),
            evolves(old(self)@, final(self)@),
            (final(self)@, string_res_view(r)) == spec_read_string(old(self)@),
    {
        let length = match self.read_int() {
            Ok(l) => l,
            Err(e) => {
                return Err(e);
            },
        };
        self.read_exact_as_string(length as usize)
    }

    /// The byte at the cursor, without moving it.
    pub fn get_current_byte(&self) -> (r: Result<u8, DecodeError>)
        ensures
            r == spec_peek(self@),
    {
        if self.idx < self.stream.len() {
            Ok(*slice_index_get(self.stream, self.idx))
        } else {
            Err(DecodeError::UnexpectedEndOfStream)
        }
    }

    /// The byte after the one at the cursor, without moving the cursor.
    pub fn get_next_byte(&self) -> (r: Result<u8, DecodeError>)
        requires
            self@.wf(),
        ensures
            r == spec_peek_next(self@),
    {
        if self.stream.len() - self.idx >= 2 {
            Ok(*slice_index_get(self.stream, self.idx + 1))
        } else {
            Err(DecodeError::UnexpectedEndOfStream)
        }
    }

    /// Read a back-reference pointer: the byte at the cursor minus the
    /// reference tag. A byte below the tag cannot be a pointer and is
    /// reported as a malformed chain.
    pub fn read_pointer(&mut self) -> (r: Result<u8, DecodeError>)
        requires
            old(self)@.wf(),
        ensures
            final(self)@.wf(),
            evolves(old(self)@, final(self)@),
            (final(self)@, r) == spec_read_pointer(old(self)@),
    {
        if self.idx >= self.stream.len() {
            return Err(DecodeError::UnexpectedEndOfStream);
        }
        let b = *slice_index_get(self.stream, self.idx);
        if b >= REFERENCE_TAG {
            self.idx = self.idx + 1;
            Ok(b - REFERENCE_TAG)
        } else {
            Err(DecodeError::MalformedClassChain)
        }
    }

    /// Read a length byte, then that many type-code bytes.
    pub fn read_type(&mut self) -> (r: Result<Vec<Type>, DecodeError>)
        requires
            old(self)@.wf(),
        ensures
            final(self)@.wf(),
            evolves(old(self)@, final(self)@),
            (final(self)@, types_res_view(r)) == spec_read_type(old(self)@),
    {
        let length = match self.read_int() {
            Ok(l) => l,
            Err(e) => {
                return Err(e);
            },
        };
        let bytes = match self.read_exact_bytes(length as usize) {
            Ok(b) => b,
            Err(e) => {
                return Err(e);
            },
        };
        let mut types: Vec<Type> = Vec::new();
        let mut i: usize = 0;
        while i < bytes.len()
            invariant
                i <= bytes.len(),
                types_view(types@) =~= bytes@.take(i as int).map_values(
                    |b: u8| crate::archive::spec_type_from_byte(b),
                ),
            decreases bytes.len() - i,
        {
            types.push(Type::from_byte(slice_index_get(bytes, i)));
            proof {
                assert(types_view(types@) =~= bytes@.take(i as int + 1).map_values(
                    |b: u8| crate::archive::spec_type_from_byte(b),
                ));
            }
            i = i + 1;
        }
        proof {
            assert(bytes@.take(bytes@.len() as int) =~= bytes@);
        }
        Ok(types)
    }

    /// Append an entry to the type table; its index is the table's
    /// previous length, and every earlier entry keeps its place.
    pub fn register_type(&mut self, entry: Vec<Type>) -> (i: usize)
        ensures
            final(self)@ == push_type_entry(old(self)@, types_view(entry@)),
            i == old(self)@.types.len(),
            final(self)@.types.len() == old(self)@.types.len() + 1,
            evolves(old(self)@, final(self)@),
    {
        let i = self.types_table.len();
        let ghost pre = self@;
        self.types_table.push(entry);
        proof {
            assert(self@.types =~= pre.types.push(types_view(entry@)));
        }
        i
    }

    /// Append an entry to the object table; its index is the table's
    /// previous length, and every earlier entry keeps its place.
    pub fn register_object(&mut self, entry: Archivable) -> (i: usize)
        ensures
            final(self)@ == push_object_entry(old(self)@, entry@),
            i == old(self)@.objects.len(),
            final(self)@.objects.len() == old(self)@.objects.len() + 1,
            evolves(old(self)@, final(self)@),
    {
        let i = self.object_table.len();
        let ghost pre = self@;
        self.object_table.push(entry);
        proof {
            assert(self@.objects =~= pre.objects.push(entry@));
        }
        i
    }

    /// Look an index up in the object table. Exactly the indices below
    /// the table's current length resolve; any other index is an
    /// unresolved reference, never a crash.
    pub fn resolve_object(&self, index: usize) -> (r: Result<&Archivable, DecodeError>)
        ensures
            r is Ok <==> index < self@.objects.len(),
            r matches Ok(entry) ==> entry@ == self@.objects[index as int],
            r matches Err(e) ==> e == DecodeError::UnresolvedReference(index),
    {
        if index < self.object_table.len() {
            Ok(&self.object_table[index])
        } else {
            Err(DecodeError::UnresolvedReference(index))
        }
    }

    /// Resolve the type list at the cursor: a fresh list after a start
    /// marker is registered and returned; an end marker means the empty
    /// list; anything else is a back-reference into the type table, with
    /// any run of repeated marker bytes collapsed first.
    pub fn get_type(&mut self) -> (r: Result<Vec<Type>, DecodeError>)
        requires
            old(self)@.wf(),
        ensures
            final(self)@.wf(),
            evolves(old(self)@, final(self)@),
            (final(self)@, types_res_view(r)) == spec_get_type(old(self)@),
            r is Ok && old(self)@.idx < old(self)@.stream.len() && old(self)@.stream[old(
                self,
            )@.idx] != END ==> final(self)@.idx > old(self)@.idx,
    {
        let ghost m0 = self@;
        if self.idx >= self.stream.len() {
            return Err(DecodeError::UnexpectedEndOfStream);
        }
        let b = *slice_index_get(self.stream, self.idx);
        if b == START {
            self.idx = self.idx + 1;
            let types = match self.read_type() {
                Ok(t) => t,
                Err(e) => {
                    return Err(e);
                },
            };
            let copy = clone_types(&types);
            self.register_type(copy);
            Ok(types)
        } else if b == END {
            let empty: Vec<Type> = Vec::new();
            proof {
                assert(types_view(empty@) =~= Seq::<TypeV>::empty());
            }
            Ok(empty)
        } else {
            while self.stream.len() - self.idx >= 2 && *slice_index_get(self.stream, self.idx)
                == *slice_index_get(self.stream, self.idx + 1)
                invariant
                    self@.wf(),
                    self@.stream == m0.stream,
                    self@.types == m0.types,
                    self@.objects == m0.objects,
                    m0.idx <= self@.idx,
                    spec_skip_dups(self@) == spec_skip_dups(m0),
                decreases self@.stream.len() - self@.idx,
            {
                self.idx = self.idx + 1;
            }
            proof {
                assert(spec_skip_dups(self@) == self@);
            }
            let p = match self.read_pointer() {
                Ok(p) => p,
                Err(e) => {
                    return Err(e);
                },
            };
            let index = p as usize;
            if index < self.types_table.len() {
                let copy = clone_types(&self.types_table[index]);
                proof {
                    assert(types_view(copy@) == self@.types[index as int]);
                }
                Ok(copy)
            } else {
                Err(DecodeError::UnresolvedReference(index))
            }
        }
    }

    /// Decode the class chain at the cursor, registering every class met
    /// along it in both tables; the result is the object-table index of
    /// the entry the chain resolves to, if any.
    pub fn read_class(&mut self) -> (r: Result<Option<usize>, DecodeError>)
        requires
            old(self)@.wf(),
        ensures
            final(self)@.wf(),
            evolves(old(self)@, final(self)@),
            exists|fuel: nat|
                (#[trigger] spec_read_class(old(self)@, fuel)) == Some(
                    (final(self)@, index_res_view(r)),
                ),
            r matches Ok(Some(i)) ==> i < final(self)@.objects.len(),
        decreases self.stream@.len() - self.idx, 1int, 0int,
    {
        let ghost m0 = self@;
        if self.idx >= self.stream.len() {
            let r: Result<Option<usize>, DecodeError> = Err(DecodeError::UnexpectedEndOfStream);
            proof {
                assert(spec_read_class(m0, 1nat) == Some((self@, index_res_view(r))));
            }
            return r;
        }
        let b = *slice_index_get(self.stream, self.idx);
        if b == START {
            while self.idx < self.stream.len() && *slice_index_get(self.stream, self.idx) == START
                invariant
                    self@.wf(),
                    self@.stream == m0.stream,
                    self@.types == m0.types,
                    self@.objects == m0.objects,
                    m0.idx <= self@.idx,
                    spec_skip_starts(m0) == spec_skip_starts(self@),
                decreases self@.stream.len() - self@.idx,
            {
                self.idx = self.idx + 1;
            }
            proof {
                assert(spec_skip_starts(self@) == self@);
            }
            let length = match self.read_int() {
                Ok(l) => l,
                Err(e) => {
                    let r: Result<Option<usize>, DecodeError> = Err(e);
                    proof {
                        assert(spec_read_class(m0, 1nat) == Some((self@, index_res_view(r))));
                    }
                    return r;
                },
            };
            if length >= REFERENCE_TAG {
                let index = (length - REFERENCE_TAG) as usize;
                if index < self.object_table.len() {
                    let r: Result<Option<usize>, DecodeError> = Ok(Some(index));
                    proof {
                        assert(spec_read_class(m0, 1nat) == Some((self@, index_res_view(r))));
                    }
                    r
                } else {
                    let r: Result<Option<usize>, DecodeError> = Err(
                        DecodeError::UnresolvedReference(index),
                    );
                    proof {
                        assert(spec_read_class(m0, 1nat) == Some((self@, index_res_view(r))));
                    }
                    r
                }
            } else {
                let name = match self.read_exact_as_string(length as usize) {
                    Ok(s) => s,
                    Err(e) => {
                        let r: Result<Option<usize>, DecodeError> = Err(e);
                        proof {
                            assert(spec_read_class(m0, 1nat) == Some((self@, index_res_view(r))));
                        }
                        return r;
                    },
                };
                let version = match self.read_int() {
                    Ok(v) => v,
                    Err(e) => {
                        let r: Result<Option<usize>, DecodeError> = Err(e);
                        proof {
                            assert(spec_read_class(m0, 1nat) == Some((self@, index_res_view(r))));
                        }
                        return r;
                    },
                };
                let ghost m4 = self@;
                let ghost namev = name@;
                let mut type_entry: Vec<Type> = Vec::new();
                type_entry.push(Type::new_string(name.clone()));
                proof {
                    assert(types_view(type_entry@) =~= seq![TypeV::InlineName(namev)]);
                }
                self.register_type(type_entry);
                self.register_object(Archivable::Class(Class::new(name, version)));
                let ghost m5 = self@;
                proof {
                    assert(m5 == push_object_entry(
                        push_type_entry(m4, seq![TypeV::InlineName(namev)]),
                        ArchivableV::Class(ClassV { name: namev, version }),
                    ));
                }
                match self.read_class() {
                    Err(e) => {
                        let r: Result<Option<usize>, DecodeError> = Err(e);
                        proof {
                            let f = choose|f: nat|
                                spec_read_class(m5, f) == Some((self@, index_res_view(r)));
                            assert(spec_read_class(m0, f + 1) == Some((self@, index_res_view(r))));
                        }
                        r
                    },
                    Ok(sub) => {
                        let r: Result<Option<usize>, DecodeError> = if self.object_table.len()
                            > 0 {
                            Ok(Some(self.object_table.len() - 1))
                        } else {
                            Ok(None)
                        };
                        proof {
                            let rsub: Result<Option<usize>, DecodeError> = Ok(sub);
                            let f = choose|f: nat|
                                spec_read_class(m5, f) == Some((self@, index_res_view(rsub)));
                            assert(spec_read_class(m0, f + 1) == Some((self@, index_res_view(r))));
                        }
                        r
                    },
                }
            }
        } else if b == EMPTY {
            self.idx = self.idx + 1;
            let r: Result<Option<usize>, DecodeError> = if self.object_table.len() > 0 {
                Ok(Some(self.object_table.len() - 1))
            } else {
                Ok(None)
            };
            proof {
                assert(spec_read_class(m0, 1nat) == Some((self@, index_res_view(r))));
            }
            r
        } else if b == ENCODING_DETECTED {
            let vals = match self.read_embedded_data() {
                Ok(v) => v,
                Err(e) => {
                    let r: Result<Option<usize>, DecodeError> = Err(e);
                    proof {
                        let re: Result<Vec<OutputData>, DecodeError> = Err(e);
                        let f = choose|f: nat|
                            spec_read_embedded_data(m0, f) == Some((self@, outputs_res_view(re)));
                        assert(spec_read_class(m0, f + 1) == Some((self@, index_res_view(r))));
                    }
                    return r;
                },
            };
            let ghost m1 = self@;
            let ghost valsv = outputs_view(vals@);
            let ghost fsub = choose|f: nat|
                spec_read_embedded_data(m0, f) == Some((m1, Ok::<Seq<OutputV>, DecodeError>(valsv)));
            let i = self.register_object(Archivable::Object(vals));
            let r: Result<Option<usize>, DecodeError> = Ok(Some(i));
            proof {
                assert(spec_read_class(m0, fsub + 1) == Some((self@, index_res_view(r))));
            }
            r
        } else {
            let p = match self.read_pointer() {
                Ok(p) => p,
                Err(e) => {
                    let r: Result<Option<usize>, DecodeError> = Err(e);
                    proof {
                        assert(spec_read_class(m0, 1nat) == Some((self@, index_res_view(r))));
                    }
                    return r;
                },
            };
            let index = p as usize;
            if index < self.object_table.len() {
                let r: Result<Option<usize>, DecodeError> = Ok(Some(index));
                proof {
                    assert(spec_read_class(m0, 1nat) == Some((self@, index_res_view(r))));
                }
                r
            } else {
                let r: Result<Option<usize>, DecodeError> = Err(
                    DecodeError::UnresolvedReference(index),
                );
                proof {
                    assert(spec_read_class(m0, 1nat) == Some((self@, index_res_view(r))));
                }
                r
            }
        }
    }

    /// Decode the object at the cursor: a start marker begins a class
    /// chain, an empty marker yields nothing, and any other byte is a
    /// back-reference into the object table.
    pub fn read_object(&mut self) -> (r: Result<Option<usize>, DecodeError>)
        requires
            old(self)@.wf(),
        ensures
            final(self)@.wf(),
            evolves(old(self)@, final(self)@),
            exists|fuel: nat|
                (#[trigger] spec_read_object(old(self)@, fuel)) == Some(
                    (final(self)@, index_res_view(r)),
                ),
            r matches Ok(Some(i)) ==> i < final(self)@.objects.len(),
        decreases self.stream@.len() - self.idx, 2int, 0int,
    {
        let ghost m0 = self@;
        if self.idx >= self.stream.len() {
            let r: Result<Option<usize>, DecodeError> = Err(DecodeError::UnexpectedEndOfStream);
            proof {
                assert(spec_read_object(m0, 1nat) == Some((self@, index_res_view(r))));
            }
            return r;
        }
        let b = *slice_index_get(self.stream, self.idx);
        if b == START {
            let r = self.read_class();
            proof {
                let f = choose|f: nat| spec_read_class(m0, f) == Some((self@, index_res_view(r)));
                assert(spec_read_object(m0, f + 1) == Some((self@, index_res_view(r))));
            }
            r
        } else if b == EMPTY {
            self.idx = self.idx + 1;
            let r: Result<Option<usize>, DecodeError> = Ok(None);
            proof {
                assert(spec_read_object(m0, 1nat) == Some((self@, index_res_view(r))));
            }
            r
        } else {
            let p = match self.read_pointer() {
                Ok(p) => p,
                Err(e) => {
                    let r: Result<Option<usize>, DecodeError> = Err(e);
                    proof {
                        assert(spec_read_object(m0, 1nat) == Some((self@, index_res_view(r))));
                    }
                    return r;
                },
            };
            let index = p as usize;
            if index < self.object_table.len() {
                let r: Result<Option<usize>, DecodeError> = Ok(Some(index));
                proof {
                    assert(spec_read_object(m0, 1nat) == Some((self@, index_res_view(r))));
                }
                r
            } else {
                let r: Result<Option<usize>, DecodeError> = Err(
                    DecodeError::UnresolvedReference(index),
                );
                proof {
                    assert(spec_read_object(m0, 1nat) == Some((self@, index_res_view(r))));
                }
                r
            }
        }
    }

    /// Decode a nested type-spec-plus-values block: move past the leading
    /// marker byte, resolve the type list, and decode its values.
    pub fn read_embedded_data(&mut self) -> (r: Result<Vec<OutputData>, DecodeError>)
        requires
            old(self)@.wf(),
        ensures
            final(self)@.wf(),
            evolves(old(self)@, final(self)@),
            exists|fuel: nat|
                (#[trigger] spec_read_embedded_data(old(self)@, fuel)) == Some(
                    (final(self)@, outputs_res_view(r)),
                ),
        decreases self.stream@.len() - self.idx, 0int, 0int,
    {
        let ghost m0 = self@;
        if self.idx >= self.stream.len() {
            let r: Result<Vec<OutputData>, DecodeError> = Err(DecodeError::UnexpectedEndOfStream);
            proof {
                assert(spec_read_embedded_data(m0, 1nat) == Some((self@, outputs_res_view(r))));
            }
            return r;
        }
        self.idx = self.idx + 1;
        let types = match self.get_type() {
            Ok(t) => t,
            Err(e) => {
                let r: Result<Vec<OutputData>, DecodeError> = Err(e);
                proof {
                    assert(spec_read_embedded_data(m0, 1nat) == Some((self@, outputs_res_view(r))));
                }
                return r;
            },
        };
        let ghost m2 = self@;
        let ghost tv = types_view(types@);
        let r = self.read_types(types);
        proof {
            let f = choose|f: nat| spec_read_types(m2, tv, f) == Some((self@, outputs_res_view(r)));
            assert(spec_read_embedded_data(m0, f + 1) == Some((self@, outputs_res_view(r))));
        }
        r
    }

    /// Decode the values for a single type code.
    #[verifier::rlimit(100)]
    fn decode_one(&mut self, t: Type) -> (r: Result<Vec<OutputData>, DecodeError>)
        requires
            old(self)@.wf(),
        ensures
            final(self)@.wf(),
            evolves(old(self)@, final(self)@),
            exists|fuel: nat|
                (#[trigger] spec_decode_one(old(self)@, t@, fuel)) == Some(
                    (final(self)@, outputs_res_view(r)),
                ),
        decreases self.stream@.len() - self.idx, 3int, 0int,
    {
        let ghost m0 = self@;
        match t {
            Type::Utf8String => {
                let s = match self.read_string() {
                    Ok(s) => s,
                    Err(e) => {
                        let r: Result<Vec<OutputData>, DecodeError> = Err(e);
                        proof {
                            assert(spec_decode_one(m0, t@, 1nat) == Some(
                                (self@, outputs_res_view(r)),
                            ));
                        }
                        return r;
                    },
                };
                let ghost sv = s@;
                let mut v: Vec<OutputData> = Vec::new();
                v.push(OutputData::Text(s));
                proof {
                    assert(outputs_view(v@) =~= seq![OutputV::Text(sv)]);
                }
                let r: Result<Vec<OutputData>, DecodeError> = Ok(v);
                proof {
                    assert(spec_decode_one(m0, t@, 1nat) == Some(
                        (self@, outputs_res_view(r)),
                    ));
                }
                r
            },
            Type::EmbeddedData => {
                let r = self.read_embedded_data();
                proof {
                    let f = choose|f: nat|
                        spec_read_embedded_data(m0, f) == Some((self@, outputs_res_view(r)));
                    assert(spec_decode_one(m0, t@, f + 1) == Some(
                        (self@, outputs_res_view(r)),
                    ));
                }
                r
            },
            Type::Object => {
                let resolved = match self.read_object() {
                    Ok(o) => o,
                    Err(e) => {
                        let r: Result<Vec<OutputData>, DecodeError> = Err(e);
                        proof {
                            let re: Result<Option<usize>, DecodeError> = Err(e);
                            let f = choose|f: nat|
                                spec_read_object(m0, f) == Some((self@, index_res_view(re)));
                            assert(spec_decode_one(m0, t@, f + 1) == Some(
                                (self@, outputs_res_view(r)),
                            ));
                        }
                        return r;
                    },
                };
                let ghost m1 = self@;
                let ghost rres: Result<Option<int>, DecodeError> = Ok(
                    if resolved is Some {
                        Some(resolved->0 as int)
                    } else {
                        None
                    },
                );
                let ghost fobj = choose|f: nat|
                    spec_read_object(m0, f) == Some((m1, rres));
                match resolved {
                    Some(i) => {
                        let entry = self.object_table[i].clone();
                        match entry {
                            Archivable::Object(data) => {
                                let r: Result<Vec<OutputData>, DecodeError> = Ok(data);
                                proof {
                                    assert(spec_decode_one(m0, t@, fobj + 1) == Some(
                                        (self@, outputs_res_view(r)),
                                    ));
                                }
                                r
                            },
                            Archivable::Class(cls) => {
                                let ghost cv = cls@;
                                let mut v: Vec<OutputData> = Vec::new();
                                v.push(OutputData::ClassDescriptor(cls));
                                proof {
                                    assert(outputs_view(v@) =~= seq![OutputV::ClassDescriptor(cv)]);
                                }
                                let r: Result<Vec<OutputData>, DecodeError> = Ok(v);
                                proof {
                                    assert(spec_decode_one(m0, t@, fobj + 1) == Some(
                                        (self@, outputs_res_view(r)),
                                    ));
                                }
                                r
                            },
                        }
                    },
                    None => {
                        let mut v: Vec<OutputData> = Vec::new();
                        v.push(OutputData::Empty);
                        proof {
                            assert(outputs_view(v@) =~= seq![OutputV::Empty]);
                        }
                        let r: Result<Vec<OutputData>, DecodeError> = Ok(v);
                        proof {
                            assert(spec_decode_one(m0, t@, fobj + 1) == Some(
                                (self@, outputs_res_view(r)),
                            ));
                        }
                        r
                    },
                }
            },
            Type::SignedInt => {
                let n = match self.read_int() {
                    Ok(n) => n,
                    Err(e) => {
                        let r: Result<Vec<OutputData>, DecodeError> = Err(e);
                        proof {
                            assert(spec_decode_one(m0, t@, 1nat) == Some(
                                (self@, outputs_res_view(r)),
                            ));
                        }
                        return r;
                    },
                };
                let mut v: Vec<OutputData> = Vec::new();
                v.push(OutputData::Number(n as i32));
                proof {
                    assert(outputs_view(v@) =~= seq![OutputV::Number(n as i32)]);
                }
                let r: Result<Vec<OutputData>, DecodeError> = Ok(v);
                proof {
                    assert(spec_decode_one(m0, t@, 1nat) == Some(
                        (self@, outputs_res_view(r)),
                    ));
                }
                r
            },
            Type::UnsignedInt => {
                let n = match self.read_int() {
                    Ok(n) => n,
                    Err(e) => {
                        let r: Result<Vec<OutputData>, DecodeError> = Err(e);
                        proof {
                            assert(spec_decode_one(m0, t@, 1nat) == Some(
                                (self@, outputs_res_view(r)),
                            ));
                        }
                        return r;
                    },
                };
                let mut v: Vec<OutputData> = Vec::new();
                v.push(OutputData::Number(n as i32));
                proof {
                    assert(outputs_view(v@) =~= seq![OutputV::Number(n as i32)]);
                }
                let r: Result<Vec<OutputData>, DecodeError> = Ok(v);
                proof {
                    assert(spec_decode_one(m0, t@, 1nat) == Some(
                        (self@, outputs_res_view(r)),
                    ));
                }
                r
            },
            Type::Unknown(bb) => {
                let mut v: Vec<OutputData> = Vec::new();
                v.push(OutputData::RawByte(bb));
                proof {
                    assert(outputs_view(v@) =~= seq![OutputV::RawByte(bb)]);
                }
                let r: Result<Vec<OutputData>, DecodeError> = Ok(v);
                proof {
                    assert(spec_decode_one(m0, t@, 1nat) == Some(
                        (self@, outputs_res_view(r)),
                    ));
                }
                r
            },
            Type::InlineName(s) => {
                let ghost sv = s@;
                let mut v: Vec<OutputData> = Vec::new();
                v.push(OutputData::Text(s));
                proof {
                    assert(outputs_view(v@) =~= seq![OutputV::Text(sv)]);
                }
                let r: Result<Vec<OutputData>, DecodeError> = Ok(v);
                proof {
                    assert(spec_decode_one(m0, t@, 1nat) == Some(
                        (self@, outputs_res_view(r)),
                    ));
                }
                r
            },
        }
    }

    /// Decode one value list per code in `found_types`, splicing nested
    /// results inline in order.
    pub fn read_types(&mut self, found_types: Vec<Type>) -> (r: Result<
        Vec<OutputData>,
        DecodeError,
    >)
        requires
            old(self)@.wf(),
        ensures
            final(self)@.wf(),
            evolves(old(self)@, final(self)@),
            exists|fuel: nat|
                (#[trigger] spec_read_types(old(self)@, types_view(found_types@), fuel)) == Some(
                    (final(self)@, outputs_res_view(r)),
                ),
        decreases self.stream@.len() - self.idx, 4int, found_types@.len(),
    {
        let ghost m0 = self@;
        let ghost tv = types_view(found_types@);
        if found_types.len() == 0 {
            let empty: Vec<OutputData> = Vec::new();
            let r: Result<Vec<OutputData>, DecodeError> = Ok(empty);
            proof {
                assert(outputs_res_view(r)->Ok_0 =~= Seq::<OutputV>::empty());
                assert(spec_read_types(m0, tv, 1nat) == Some((self@, outputs_res_view(r))));
            }
            return r;
        }
        let mut rest = found_types;
        let head = rest.remove(0);
        proof {
            assert(types_view(rest@) =~= tv.drop_first());
            assert(head@ == tv[0]);
        }
        let mut vals = match self.decode_one(head) {
            Ok(v) => v,
            Err(e) => {
                let r: Result<Vec<OutputData>, DecodeError> = Err(e);
                proof {
                    let f = choose|f: nat|
                        spec_decode_one(m0, tv[0], f) == Some((self@, outputs_res_view(r)));
                    assert(spec_read_types(m0, tv, f + 1) == Some((self@, outputs_res_view(r))));
                }
                return r;
            },
        };
        let ghost m1 = self@;
        let ghost hv = outputs_view(vals@);
        let ghost f1 = choose|f: nat| spec_decode_one(m0, tv[0], f) == Some((m1, Ok::<Seq<OutputV>, DecodeError>(hv)));
        let mut rest_vals = match self.read_types(rest) {
            Ok(v) => v,
            Err(e) => {
                let r: Result<Vec<OutputData>, DecodeError> = Err(e);
                proof {
                    let f2 = choose|f: nat|
                        spec_read_types(m1, tv.drop_first(), f) == Some(
                            (self@, outputs_res_view(r)),
                        );
                    let fm: nat = if f1 >= f2 {
                        f1
                    } else {
                        f2
                    };
                    lemma_decode_one_mono(m0, tv[0], f1, fm);
                    lemma_read_types_mono(m1, tv.drop_first(), f2, fm);
                    assert(spec_read_types(m0, tv, fm + 1) == Some((self@, outputs_res_view(r))));
                }
                return r;
            },
        };
        let ghost m2 = self@;
        let ghost rv = outputs_view(rest_vals@);
        let ghost f2 = choose|f: nat|
            spec_read_types(m1, tv.drop_first(), f) == Some((m2, Ok::<Seq<OutputV>, DecodeError>(rv)));
        vals.append(&mut rest_vals);
        let ghost allv = vals@;
        let r: Result<Vec<OutputData>, DecodeError> = Ok(vals);
        proof {
            assert(outputs_view(allv) =~= hv + rv);
            let fm: nat = if f1 >= f2 {
                f1
            } else {
                f2
            };
            lemma_decode_one_mono(m0, tv[0], f1, fm);
            lemma_read_types_mono(m1, tv.drop_first(), f2, fm);
            assert(spec_read_types(m0, tv, fm + 1) == Some((self@, outputs_res_view(r))));
        }
        r
    }

    /// Decode top-level entries from the cursor to the end of the buffer.
    fn parse_entries(&mut self) -> (r: Result<Vec<Vec<OutputData>>, DecodeError>)
        requires
            old(self)@.wf(),
        ensures
            final(self)@.wf(),
            evolves(old(self)@, final(self)@),
            exists|fuel: nat|
                (#[trigger] spec_parse_entries(old(self)@, fuel)) == Some(
                    (final(self)@, entries_res_view(r)),
                ),
        decreases self.stream@.len() - self.idx, 5int, 0int,
    {
        let ghost m0 = self@;
        if self.idx >= self.stream.len() {
            let empty: Vec<Vec<OutputData>> = Vec::new();
            let r: Result<Vec<Vec<OutputData>>, DecodeError> = Ok(empty);
            proof {
                assert(entries_res_view(r)->Ok_0 =~= Seq::<Seq<OutputV>>::empty());
                assert(spec_parse_entries(m0, 1nat) == Some((self@, entries_res_view(r))));
            }
            return r;
        }
        let b = *slice_index_get(self.stream, self.idx);
        if b == END {
            self.idx = self.idx + 1;
            let r = self.parse_entries();
            proof {
                let f = choose|f: nat|
                    spec_parse_entries(advance(m0, 1), f) == Some((self@, entries_res_view(r)));
                assert(spec_parse_entries(m0, f + 1) == Some((self@, entries_res_view(r))));
            }
            return r;
        }
        let types = match self.get_type() {
            Ok(t) => t,
            Err(e) => {
                let r: Result<Vec<Vec<OutputData>>, DecodeError> = Err(e);
                proof {
                    assert(spec_parse_entries(m0, 1nat) == Some((self@, entries_res_view(r))));
                }
                return r;
            },
        };
        let ghost m1 = self@;
        let ghost tv = types_view(types@);
        let vals = match self.read_types(types) {
            Ok(v) => v,
            Err(e) => {
                let r: Result<Vec<Vec<OutputData>>, DecodeError> = Err(e);
                proof {
                    let re: Result<Vec<OutputData>, DecodeError> = Err(e);
                    let f = choose|f: nat|
                        spec_read_types(m1, tv, f) == Some((self@, outputs_res_view(re)));
                    assert(spec_parse_entries(m0, f + 1) == Some((self@, entries_res_view(r))));
                }
                return r;
            },
        };
        let ghost m2 = self@;
        let ghost vv = outputs_view(vals@);
        let ghost f1 = choose|f: nat| spec_read_types(m1, tv, f) == Some((m2, Ok::<Seq<OutputV>, DecodeError>(vv)));
        let mut rest = match self.parse_entries() {
            Ok(v) => v,
            Err(e) => {
                let r: Result<Vec<Vec<OutputData>>, DecodeError> = Err(e);
                proof {
                    let re: Result<Vec<Vec<OutputData>>, DecodeError> = Err(e);
                    let f2 = choose|f: nat|
                        spec_parse_entries(m2, f) == Some((self@, entries_res_view(re)));
                    let fm: nat = if f1 >= f2 {
                        f1
                    } else {
                        f2
                    };
                    lemma_read_types_mono(m1, tv, f1, fm);
                    lemma_parse_entries_mono(m2, f2, fm);
                    assert(spec_parse_entries(m0, fm + 1) == Some((self@, entries_res_view(r))));
                }
                return r;
            },
        };
        let ghost m3 = self@;
        let ghost restv = entries_view(rest@);
        let ghost f2 = choose|f: nat| spec_parse_entries(m2, f) == Some((m3, Ok::<Seq<Seq<OutputV>>, DecodeError>(restv)));
        rest.insert(0, vals);
        let ghost allv = rest@;
        let r: Result<Vec<Vec<OutputData>>, DecodeError> = Ok(rest);
        proof {
            assert(entries_view(allv) =~= seq![vv] + restv);
            let fm: nat = if f1 >= f2 {
                f1
            } else {
                f2
            };
            lemma_read_types_mono(m1, tv, f1, fm);
            lemma_parse_entries_mono(m2, f2, fm);
            assert(spec_parse_entries(m0, fm + 1) == Some((self@, entries_res_view(r))));
        }
        r
    }

    /// Parse the whole stream: skip the fixed-size header, then decode
    /// entries until the buffer is exhausted. Decoding never panics:
    /// truncated or malformed input surfaces as a [`DecodeError`].
    pub fn parse(&mut self) -> (r: Result<Vec<Vec<OutputData>>, DecodeError>)
        requires
            old(self)@.wf(),
        ensures
            final(self)@.wf(),
            evolves(old(self)@, final(self)@),
            exists|fuel: nat|
                (#[trigger] spec_parse(old(self)@, fuel)) == Some(
                    (final(self)@, entries_res_view(r)),
                ),
    {
        let ghost m0 = self@;
        match self.read_exact_bytes(HEADER_LEN) {
            Ok(_) => {},
            Err(e) => {
                let r: Result<Vec<Vec<OutputData>>, DecodeError> = Err(e);
                proof {
                    assert(spec_parse(m0, 1nat) == Some((self@, entries_res_view(r))));
                }
                return r;
            },
        }
        let ghost m1 = self@;
        let r = self.parse_entries();
        proof {
            let f = choose|f: nat| spec_parse_entries(m1, f) == Some((self@, entries_res_view(r)));
            assert(spec_parse(m0, f) == Some((self@, entries_res_view(r))));
        }
        r
    }
}

} // verus!
