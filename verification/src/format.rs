//! `.minq`: the self-contained (optionally quantized) model format.
//!
//! Binary layout:
//!
//! ```text
//! offset  size      field
//! 0       8         magic "MINQ0001" (legacy "MINFER01" is also accepted)
//! 8       4         u32 LE, length of the config JSON
//! 12      ..        config JSON
//! ..      ..        tensor records until the end:
//!                     u32 name_len | name bytes (UTF-8)
//!                     u8  storage tag: 0 = f32, 1 = q8_0, 2 = q4_0
//!                     u8  ndim | ndim x u64 LE shape
//!                     u64 data byte length | data bytes
//! ```
//!
//! Dense tensors are stored as little-endian binary32; quantized tensors as the
//! raw block bytes of [`crate::quantize`].

use vstd::bytes::*;
use vstd::prelude::*;
use vstd::slice::slice_subrange;
use vstd::utf8::*;

use crate::error::{Field, FormatErrorOf, MinqError};
use crate::quantize::{QuantDtype, QuantizedTensor, QuantizedView};
use crate::tensor;
use crate::tensor::{Tensor, TensorView};

verus! {

/// Magic bytes at the start of every `.minq` file: "MINQ0001".
pub const MAGIC: [u8; 8] = [0x4D, 0x49, 0x4E, 0x51, 0x30, 0x30, 0x30, 0x31];

/// Magic of the older `.minfer` files: "MINFER01". The layout is the same;
/// readers accept it, writers never emit it.
pub const LEGACY_MAGIC: [u8; 8] = [0x4D, 0x49, 0x4E, 0x46, 0x45, 0x52, 0x30, 0x31];

const TAG_F32: u8 = 0;

const TAG_Q8_0: u8 = 1;

const TAG_Q4_0: u8 = 2;

/// A named weight as stored in a `.minq` file: either dense or quantized.
#[derive(Debug, PartialEq)]
pub enum WeightTensor {
    F32(Tensor),
    Quant(QuantizedTensor),
}

/// The contents of a [`WeightTensor`].
pub enum WeightView {
    F32(TensorView),
    Quant(QuantizedView),
}

impl View for WeightTensor {
    type V = WeightView;

    open spec fn view(&self) -> WeightView {
        match *self {
            WeightTensor::F32(t) => WeightView::F32(t@),
            WeightTensor::Quant(q) => WeightView::Quant(q@),
        }
    }
}

impl Clone for WeightTensor {
    fn clone(&self) -> (t: WeightTensor)
        ensures
            t@ == self@,
    {
        match self {
            WeightTensor::F32(t) => WeightTensor::F32(t.clone()),
            WeightTensor::Quant(q) => WeightTensor::Quant(q.clone()),
        }
    }
}

/// A format error in a contract.
pub type FormatFault = FormatErrorOf<Seq<char>, Seq<usize>>;

/// A record in a contract: a name and a weight.
pub type Record = (Seq<char>, WeightView);

/// The contents of a list of named weights.
pub open spec fn records_view(tensors: Seq<(String, WeightTensor)>) -> Seq<Record> {
    tensors.map_values(|e: (String, WeightTensor)| (e.0@, e.1@))
}

/// Where a field of `len` bytes that starts at `pos` ends.
pub open spec fn field_end(pos: int, len: int, file_len: int, what: Field) -> Result<
    int,
    FormatFault,
> {
    if pos + len > u64::MAX {
        Err(FormatErrorOf::LengthOverflow { what })
    } else if pos + len > file_len {
        Err(
            FormatErrorOf::BeyondEnd {
                what,
                len: len as u64,
                offset: pos as u64,
                file_len: file_len as u64,
            },
        )
    } else {
        Ok(pos + len)
    }
}

/// Advances the read cursor, rejecting any length field that points beyond the
/// end of the file. Every field goes through here before it is read, so that a
/// malformed file can neither ask for huge allocations nor overflow the cursor.
pub fn take(pos: &mut u64, len: u64, file_len: u64, what: Field) -> (r: Result<(), MinqError>)
    ensures
        match field_end(*old(pos) as int, len as int, file_len as int, what) {
            Ok(end) => r is Ok && *final(pos) == end,
            Err(e) => r is Err && r->Err_0.is_format(e) && *final(pos) == *old(pos),
        },
{
    match pos.checked_add(len) {
        None => Err(MinqError::Format(FormatErrorOf::LengthOverflow { what })),
        Some(end) => {
            if end > file_len {
                let offset: u64 = *pos;
                return Err(
                    MinqError::Format(FormatErrorOf::BeyondEnd { what, len, offset, file_len }),
                );
            }
            *pos = end;
            Ok(())
        },
    }
}

/// The error for a source that ends too early.
///
/// Calls `std::io::Error::from` on `ErrorKind::UnexpectedEof`, which is
/// documented to give an error of that kind; its kind is not stated here.
#[verifier::external_body]
pub(crate) fn unexpected_eof() -> (e: std::io::Error) {
    std::io::Error::from(std::io::ErrorKind::UnexpectedEof)
}

/// Reads a little-endian `u32` and moves past it.
pub fn read_u32(r: &mut &[u8]) -> (v: Result<u32, MinqError>)
    ensures
        match v {
            Ok(x) => old(r)@.len() >= 4 && x == spec_u32_from_le_bytes(old(r)@.subrange(0, 4))
                && final(r)@ == old(r)@.skip(4),
            Err(e) => old(r)@.len() < 4 && e is Io && final(r)@ == old(r)@,
        },
{
    let all: &[u8] = *r;
    if all.len() < 4 {
        return Err(MinqError::Io(unexpected_eof()));
    }
    let x: u32 = u32_from_le_bytes(slice_subrange(all, 0, 4));
    *r = slice_subrange(all, 4, all.len());
    Ok(x)
}

/// Reads a little-endian `u64` and moves past it.
pub fn read_u64(r: &mut &[u8]) -> (v: Result<u64, MinqError>)
    ensures
        match v {
            Ok(x) => old(r)@.len() >= 8 && x == spec_u64_from_le_bytes(old(r)@.subrange(0, 8))
                && final(r)@ == old(r)@.skip(8),
            Err(e) => old(r)@.len() < 8 && e is Io && final(r)@ == old(r)@,
        },
{
    let all: &[u8] = *r;
    if all.len() < 8 {
        return Err(MinqError::Io(unexpected_eof()));
    }
    let x: u64 = u64_from_le_bytes(slice_subrange(all, 0, 8));
    *r = slice_subrange(all, 8, all.len());
    Ok(x)
}

/// How many of the first `n` bytes are valid UTF-8 by themselves, at most.
pub open spec fn valid_upto(bytes: Seq<u8>, n: int) -> int
    decreases n,
{
    if n <= 0 || valid_utf8(bytes.subrange(0, n)) {
        n
    } else {
        valid_upto(bytes, n - 1)
    }
}

/// How many bytes of an invalid UTF-8 text are wrong where it stops being valid;
/// nothing if the text just ends too early.
pub uninterp spec fn utf8_error_len(bytes: Seq<u8>) -> Option<usize>;

/// A string from its UTF-8 bytes, or where they stop being valid and how many
/// bytes are wrong there.
///
/// Calls `String::from_utf8`, which is documented to succeed exactly on valid
/// UTF-8 and to give the string with those bytes, and takes its error apart by
/// `Utf8Error::valid_up_to`, documented as the largest index up to which the bytes
/// are valid, and `Utf8Error::error_len`, which follows from the bytes.
#[verifier::external_body]
pub(crate) fn string_from_utf8(bytes: Vec<u8>) -> (r: Result<String, (usize, Option<usize>)>)
    ensures
        match r {
            Ok(s) => valid_utf8(bytes@) && s@ == decode_utf8(bytes@),
            Err((valid, wrong)) => {
                &&& !valid_utf8(bytes@)
                &&& valid == valid_upto(bytes@, bytes@.len() as int)
                &&& wrong == utf8_error_len(bytes@)
            },
        },
{
    String::from_utf8(bytes).map_err(|e| (e.utf8_error().valid_up_to(), e.utf8_error().error_len()))
}

/// The name at the start of a record, and where it ends.
pub open spec fn name_at(bytes: Seq<u8>, pos: int) -> Result<(Seq<char>, int), FormatFault> {
    match field_end(pos, 4, bytes.len() as int, Field::NameLength) {
        Err(e) => Err(e),
        Ok(start) => {
            let len = spec_u32_from_le_bytes(bytes.subrange(pos, start)) as int;
            match field_end(start, len, bytes.len() as int, Field::Name) {
                Err(e) => Err(e),
                Ok(end) => {
                    let raw = bytes.subrange(start, end);
                    if valid_utf8(raw) {
                        Ok((decode_utf8(raw), end))
                    } else {
                        Err(
                            FormatErrorOf::InvalidName {
                                valid: valid_upto(raw, raw.len() as int) as usize,
                                wrong: utf8_error_len(raw),
                            },
                        )
                    }
                },
            }
        },
    }
}

/// The first `n` dimensions of a shape that starts at `pos`.
pub open spec fn dims_upto(bytes: Seq<u8>, pos: int, name: Seq<char>, n: int) -> Result<
    Seq<usize>,
    FormatFault,
>
    decreases n,
{
    if n <= 0 {
        Ok(Seq::empty())
    } else {
        match dims_upto(bytes, pos, name, n - 1) {
            Err(e) => Err(e),
            Ok(dims) => {
                let dim = spec_u64_from_le_bytes(
                    bytes.subrange(pos + 8 * (n - 1), pos + 8 * (n - 1) + 8),
                );
                if dim > usize::MAX {
                    Err(FormatErrorOf::DimensionTooLarge { name, dim })
                } else {
                    Ok(dims.push(dim as usize))
                }
            },
        }
    }
}

/// The storage tag and the shape after a record's name, and where they end.
pub open spec fn shape_at(bytes: Seq<u8>, pos: int, name: Seq<char>) -> Result<
    (u8, Seq<usize>, int),
    FormatFault,
> {
    match field_end(pos, 2, bytes.len() as int, Field::TagAndRank) {
        Err(e) => Err(e),
        Ok(start) => match field_end(
            start,
            8 * bytes[pos + 1],
            bytes.len() as int,
            Field::Shape,
        ) {
            Err(e) => Err(e),
            Ok(end) => match dims_upto(bytes, start, name, bytes[pos + 1] as int) {
                Err(e) => Err(e),
                Ok(shape) => if tensor::countable(shape) {
                    Ok((bytes[pos], shape, end))
                } else {
                    Err(FormatErrorOf::ShapeOverflow { name, shape })
                },
            },
        },
    }
}

/// The dtype that a storage tag stands for, if it is one of a quantized tensor.
pub open spec fn tag_dtype(tag: u8) -> QuantDtype {
    if tag == 1 {
        QuantDtype::Q8_0
    } else {
        QuantDtype::Q4_0
    }
}

/// The number of data bytes that a storage tag and a shape imply.
pub open spec fn data_len_of(name: Seq<char>, tag: u8, shape: Seq<usize>) -> Result<
    int,
    FormatFault,
> {
    if tag > 2 {
        Err(FormatErrorOf::UnknownTag { name, tag })
    } else if tag != 0 && shape.len() != 2 {
        Err(FormatErrorOf::NotTwoDim { name, shape })
    } else if tag != 0 && shape[1] % 32 != 0 {
        Err(FormatErrorOf::NotBlockAligned { name, cols: shape[1] as u64 })
    } else {
        let expected = if tag == 0 {
            tensor::numel_of(shape) * 4
        } else {
            shape[0] * (shape[1] as int / 32) * tag_dtype(tag).block_len()
        };
        if expected > u64::MAX {
            Err(FormatErrorOf::ByteCountOverflow { name })
        } else {
            Ok(expected)
        }
    }
}

/// Little-endian values, four bytes each.
pub open spec fn values_of(data: Seq<u8>) -> Seq<u32> {
    Seq::new(
        (data.len() as int / 4) as nat,
        |i: int| spec_u32_from_le_bytes(data.subrange(4 * i, 4 * i + 4)),
    )
}

/// The weight with the given storage.
pub open spec fn weight_of(tag: u8, shape: Seq<usize>, data: Seq<u8>) -> WeightView {
    if tag == 0 {
        WeightView::F32(tensor::tensor_of(values_of(data), shape))
    } else {
        WeightView::Quant(
            QuantizedView { dtype: tag_dtype(tag), rows: shape[0], cols: shape[1], data },
        )
    }
}

/// The record that starts at `pos`, and where it ends.
pub open spec fn record_at(bytes: Seq<u8>, pos: int) -> Result<(Record, int), FormatFault> {
    match name_at(bytes, pos) {
        Err(e) => Err(e),
        Ok((name, after_name)) => match shape_at(bytes, after_name, name) {
            Err(e) => Err(e),
            Ok((tag, shape, after_shape)) => match field_end(
                after_shape,
                8,
                bytes.len() as int,
                Field::DataLength,
            ) {
                Err(e) => Err(e),
                Ok(start) => {
                    let data_len = spec_u64_from_le_bytes(bytes.subrange(after_shape, start));
                    match data_len_of(name, tag, shape) {
                        Err(e) => Err(e),
                        Ok(expected) => if data_len != expected {
                            Err(
                                FormatErrorOf::DataLength {
                                    name,
                                    data_len,
                                    expected: expected as u64,
                                },
                            )
                        } else {
                            match field_end(
                                start,
                                data_len as int,
                                bytes.len() as int,
                                Field::Data,
                            ) {
                                Err(e) => Err(e),
                                Ok(end) => Ok(
                                    ((name, weight_of(tag, shape, bytes.subrange(start, end))), end),
                                ),
                            }
                        },
                    }
                },
            },
        },
    }
}

/// The records from `pos` to the end of the file.
pub open spec fn records_from(bytes: Seq<u8>, pos: int) -> Result<Seq<Record>, FormatFault>
    decreases bytes.len() - pos,
{
    if pos >= bytes.len() {
        Ok(Seq::empty())
    } else {
        match record_at(bytes, pos) {
            Err(e) => Err(e),
            Ok((record, end)) => prepend(seq![record], records_from(bytes, end)),
        }
    }
}

/// Records in front of other records, unless these could not be read.
pub open spec fn prepend(front: Seq<Record>, rest: Result<Seq<Record>, FormatFault>) -> Result<
    Seq<Record>,
    FormatFault,
> {
    match rest {
        Err(e) => Err(e),
        Ok(records) => Ok(front + records),
    }
}

/// The config JSON at the start of a file, and where the records begin.
pub open spec fn header_of(bytes: Seq<u8>) -> Result<(Seq<u8>, int), FormatFault> {
    match field_end(0, 8, bytes.len() as int, Field::Magic) {
        Err(e) => Err(e),
        Ok(after_magic) => {
            let magic = bytes.subrange(0, after_magic);
            if magic != MAGIC@ && magic != LEGACY_MAGIC@ {
                Err(FormatErrorOf::BadMagic)
            } else {
                match field_end(after_magic, 4, bytes.len() as int, Field::ConfigLength) {
                    Err(e) => Err(e),
                    Ok(start) => {
                        let len = spec_u32_from_le_bytes(bytes.subrange(after_magic, start)) as int;
                        match field_end(start, len, bytes.len() as int, Field::ConfigJson) {
                            Err(e) => Err(e),
                            Ok(end) => Ok((bytes.subrange(start, end), end)),
                        }
                    },
                }
            }
        },
    }
}

/// The config JSON and the records of a file.
pub open spec fn contents_of(bytes: Seq<u8>) -> Result<(Seq<u8>, Seq<Record>), FormatFault> {
    match header_of(bytes) {
        Err(e) => Err(e),
        Ok((config, pos)) => match records_from(bytes, pos) {
            Err(e) => Err(e),
            Ok(records) => Ok((config, records)),
        },
    }
}

/// The bytes from `start` to `end` as a vector of their own.
fn copy_range(bytes: &[u8], start: u64, end: u64) -> (r: Vec<u8>)
    requires
        start <= end <= bytes@.len(),
    ensures
        r@ == bytes@.subrange(start as int, end as int),
{
    let total: usize = bytes.len();
    assert(end <= total);
    vstd::slice::slice_to_vec(slice_subrange(bytes, start as usize, end as usize))
}

fn read_name(bytes: &[u8], pos: &mut u64) -> (r: Result<String, MinqError>)
    requires
        *old(pos) <= bytes@.len(),
    ensures
        match name_at(bytes@, *old(pos) as int) {
            Ok((name, end)) => r is Ok && r->Ok_0@ == name && *final(pos) == end && *old(pos) < end
                <= bytes@.len(),
            Err(e) => r is Err && r->Err_0.is_format(e),
        },
{
    let file_len: u64 = bytes.len() as u64;
    let at: u64 = *pos;
    match take(pos, 4, file_len, Field::NameLength) {
        Err(e) => {
            return Err(e);
        },
        Ok(()) => {},
    }
    let mut rest: &[u8] = slice_subrange(bytes, at as usize, *pos as usize);
    let len: u64 = match read_u32(&mut rest) {
        Err(e) => {
            return Err(e);
        },
        Ok(len) => len as u64,
    };
    assert(bytes@.subrange(at as int, *pos as int).subrange(0, 4) =~= bytes@.subrange(
        at as int,
        *pos as int,
    ));
    let start: u64 = *pos;
    match take(pos, len, file_len, Field::Name) {
        Err(e) => {
            return Err(e);
        },
        Ok(()) => {},
    }
    match string_from_utf8(copy_range(bytes, start, *pos)) {
        Err((valid, wrong)) => Err(
            MinqError::Format(FormatErrorOf::InvalidName { valid, wrong }),
        ),
        Ok(name) => Ok(name),
    }
}

fn read_shape(bytes: &[u8], pos: &mut u64, name: &String) -> (r: Result<(u8, Vec<usize>), MinqError>)
    requires
        *old(pos) <= bytes@.len(),
    ensures
        match shape_at(bytes@, *old(pos) as int, name@) {
            Ok((tag, shape, end)) => {
                &&& r is Ok && r->Ok_0.0 == tag && r->Ok_0.1@ == shape
                &&& *final(pos) == end
                &&& *old(pos) <= end <= bytes@.len()
            },
            Err(e) => r is Err && r->Err_0.is_format(e),
        },
{
    let file_len: u64 = bytes.len() as u64;
    let at: u64 = *pos;
    match take(pos, 2, file_len, Field::TagAndRank) {
        Err(e) => {
            return Err(e);
        },
        Ok(()) => {},
    }
    let tag: u8 = bytes[at as usize];
    let rank: u8 = bytes[at as usize + 1];
    let start: u64 = *pos;
    match take(pos, 8 * rank as u64, file_len, Field::Shape) {
        Err(e) => {
            return Err(e);
        },
        Ok(()) => {},
    }
    let ghost total = *pos;
    let mut rest: &[u8] = slice_subrange(bytes, start as usize, *pos as usize);
    let mut shape: Vec<usize> = Vec::new();
    let mut n: u8 = 0;
    while n < rank
        invariant
            n <= rank,
            start + 8 * rank == total <= bytes@.len(),
            rest@ == bytes@.subrange(start + 8 * n, total as int),
            dims_upto(bytes@, start as int, name@, n as int) == Ok::<Seq<usize>, FormatFault>(
                shape@,
            ),
            shape_at(bytes@, at as int, name@) == (match dims_upto(
                bytes@,
                start as int,
                name@,
                rank as int,
            ) {
                Err(e) => Err(e),
                Ok(shape) => if tensor::countable(shape) {
                    Ok((tag, shape, total as int))
                } else {
                    Err(FormatErrorOf::ShapeOverflow { name: name@, shape })
                },
            }),
            at == *old(pos),
        decreases rank - n,
    {
        let ghost before = rest@;
        let dim: u64 = match read_u64(&mut rest) {
            Err(e) => {
                assert(false);
                return Err(e);
            },
            Ok(dim) => dim,
        };
        proof {
            assert(before.subrange(0, 8) =~= bytes@.subrange(
                start + 8 * n,
                start + 8 * n + 8,
            ));
            assert(rest@ =~= bytes@.subrange(start + 8 * (n + 1), total as int));
            assert(dim > usize::MAX ==> dims_upto(bytes@, start as int, name@, n + 1) == Err::<
                Seq<usize>,
                FormatFault,
            >(FormatErrorOf::DimensionTooLarge { name: name@, dim }));
        }
        if dim > usize::MAX as u64 {
            proof {
                lemma_dims_error(bytes@, start as int, name@, n + 1, rank as int);
            }
            return Err(
                MinqError::Format(FormatErrorOf::DimensionTooLarge { name: name.clone(), dim }),
            );
        }
        shape.push(dim as usize);
        n += 1;
    }
    match tensor::numel_checked(&shape) {
        None => Err(MinqError::Format(FormatErrorOf::ShapeOverflow { name: name.clone(), shape })),
        Some(_) => Ok((tag, shape)),
    }
}

proof fn lemma_dims_error(bytes: Seq<u8>, pos: int, name: Seq<char>, n: int, m: int)
    requires
        n <= m,
        dims_upto(bytes, pos, name, n) is Err,
    ensures
        dims_upto(bytes, pos, name, m) == dims_upto(bytes, pos, name, n),
    decreases m - n,
{
    if n < m {
        lemma_dims_error(bytes, pos, name, n, m - 1);
    }
}

fn expected_len(name: &String, tag: u8, shape: &Vec<usize>) -> (r: Result<u64, MinqError>)
    requires
        tensor::countable(shape@),
    ensures
        match data_len_of(name@, tag, shape@) {
            Ok(len) => r is Ok && r->Ok_0 == len,
            Err(e) => r is Err && r->Err_0.is_format(e),
        },
{
    let expected: Option<u64> = if tag == TAG_F32 {
        let numel: usize = match tensor::numel_checked(shape) {
            None => 0,
            Some(n) => n,
        };
        (numel as u64).checked_mul(4)
    } else if tag == TAG_Q8_0 || tag == TAG_Q4_0 {
        if shape.len() != 2 {
            return Err(
                MinqError::Format(
                    FormatErrorOf::NotTwoDim { name: name.clone(), shape: shape.clone() },
                ),
            );
        }
        let dtype = if tag == TAG_Q8_0 {
            QuantDtype::Q8_0
        } else {
            QuantDtype::Q4_0
        };
        let rows: u64 = shape[0] as u64;
        let cols: u64 = shape[1] as u64;
        if cols % 32 != 0 {
            return Err(
                MinqError::Format(FormatErrorOf::NotBlockAligned { name: name.clone(), cols }),
            );
        }
        match rows.checked_mul(cols / 32) {
            None => {
                proof {
                    let b = rows * (cols as int / 32);
                    let bb = dtype.block_len();
                    assert(b * bb >= b) by (nonlinear_arith)
                        requires
                            b >= 0,
                            bb >= 1,
                    ;
                }
                None
            },
            Some(blocks) => blocks.checked_mul(dtype.block_bytes() as u64),
        }
    } else {
        return Err(MinqError::Format(FormatErrorOf::UnknownTag { name: name.clone(), tag }));
    };
    match expected {
        None => Err(MinqError::Format(FormatErrorOf::ByteCountOverflow { name: name.clone() })),
        Some(len) => Ok(len),
    }
}

/// Reads little-endian words until fewer than four bytes are left.
pub(crate) fn read_values(data: &[u8]) -> (values: Vec<u32>)
    ensures
        values@ == values_of(data@),
{
    let mut values: Vec<u32> = Vec::new();
    let total: usize = data.len();
    let n: usize = total / 4;
    let mut i: usize = 0;
    while i < n
        invariant
            i <= n,
            n == total / 4,
            total == data@.len(),
            values@.len() == i,
            forall|j: int| 0 <= j < i ==> values@[j] == values_of(data@)[j],
        decreases n - i,
    {
        values.push(u32_from_le_bytes(slice_subrange(data, 4 * i, 4 * i + 4)));
        i += 1;
    }
    assert(values@ =~= values_of(data@));
    values
}

fn read_record(bytes: &[u8], pos: &mut u64) -> (r: Result<(String, WeightTensor), MinqError>)
    requires
        *old(pos) <= bytes@.len(),
    ensures
        match record_at(bytes@, *old(pos) as int) {
            Ok((record, end)) => {
                &&& r is Ok && (r->Ok_0.0@, r->Ok_0.1@) == record
                &&& *final(pos) == end
                &&& *old(pos) < end <= bytes@.len()
            },
            Err(e) => r is Err && r->Err_0.is_format(e),
        },
{
    let file_len: u64 = bytes.len() as u64;
    let name = match read_name(bytes, pos) {
        Err(e) => {
            return Err(e);
        },
        Ok(name) => name,
    };
    let (tag, shape) = match read_shape(bytes, pos, &name) {
        Err(e) => {
            return Err(e);
        },
        Ok(r) => r,
    };
    let after_shape: u64 = *pos;
    match take(pos, 8, file_len, Field::DataLength) {
        Err(e) => {
            return Err(e);
        },
        Ok(()) => {},
    }
    let start: u64 = *pos;
    let mut rest: &[u8] = slice_subrange(bytes, after_shape as usize, start as usize);
    let data_len: u64 = match read_u64(&mut rest) {
        Err(e) => {
            return Err(e);
        },
        Ok(len) => len,
    };
    assert(bytes@.subrange(after_shape as int, start as int).subrange(0, 8) =~= bytes@.subrange(
        after_shape as int,
        start as int,
    ));
    let expected: u64 = match expected_len(&name, tag, &shape) {
        Err(e) => {
            return Err(e);
        },
        Ok(len) => len,
    };
    if data_len != expected {
        return Err(
            MinqError::Format(FormatErrorOf::DataLength { name, data_len, expected }),
        );
    }
    match take(pos, data_len, file_len, Field::Data) {
        Err(e) => {
            return Err(e);
        },
        Ok(()) => {},
    }
    let data = copy_range(bytes, start, *pos);
    let weight = if tag == TAG_F32 {
        match Tensor::new(read_values(&data), shape) {
            Err(e) => {
                return Err(e);
            },
            Ok(t) => WeightTensor::F32(t),
        }
    } else {
        let dtype = if tag == TAG_Q8_0 {
            QuantDtype::Q8_0
        } else {
            QuantDtype::Q4_0
        };
        WeightTensor::Quant(QuantizedTensor { dtype, rows: shape[0], cols: shape[1], data })
    };
    Ok((name, weight))
}

/// Reads the header of a file: gives back the config JSON and the position at
/// which the records begin.
pub fn read_minq_header(bytes: &[u8]) -> (r: Result<(Vec<u8>, u64), MinqError>)
    ensures
        match header_of(bytes@) {
            Ok((config, pos)) => {
                &&& r is Ok && r->Ok_0.0@ == config && r->Ok_0.1 == pos
                &&& pos <= bytes@.len()
            },
            Err(e) => r is Err && r->Err_0.is_format(e),
        },
{
    let file_len: u64 = bytes.len() as u64;
    let mut pos: u64 = 0;
    match take(&mut pos, 8, file_len, Field::Magic) {
        Err(e) => {
            return Err(e);
        },
        Ok(()) => {},
    }
    let magic = slice_subrange(bytes, 0, 8);
    if !same_magic(magic, MAGIC) && !same_magic(magic, LEGACY_MAGIC) {
        return Err(MinqError::Format(FormatErrorOf::BadMagic));
    }
    match take(&mut pos, 4, file_len, Field::ConfigLength) {
        Err(e) => {
            return Err(e);
        },
        Ok(()) => {},
    }
    let mut rest: &[u8] = slice_subrange(bytes, 8, 12);
    let len: u64 = match read_u32(&mut rest) {
        Err(e) => {
            return Err(e);
        },
        Ok(len) => len as u64,
    };
    assert(bytes@.subrange(8, 12).subrange(0, 4) =~= bytes@.subrange(8, 12));
    match take(&mut pos, len, file_len, Field::ConfigJson) {
        Err(e) => {
            return Err(e);
        },
        Ok(()) => {},
    }
    Ok((copy_range(bytes, 12, pos), pos))
}

fn same_magic(bytes: &[u8], magic: [u8; 8]) -> (r: bool)
    requires
        bytes@.len() == 8,
    ensures
        r == (bytes@ == magic@),
{
    let mut i: usize = 0;
    while i < 8
        invariant
            i <= 8 == bytes@.len(),
            forall|j: int| 0 <= j < i ==> bytes@[j] == magic@[j],
        decreases 8 - i,
    {
        if bytes[i] != magic[i] {
            return false;
        }
        i += 1;
    }
    assert(bytes@ =~= magic@);
    true
}

/// Reads the tensor records from `pos` to the end of the file.
pub fn read_minq_records(bytes: &[u8], pos: u64) -> (r: Result<
    Vec<(String, WeightTensor)>,
    MinqError,
>)
    requires
        pos <= bytes@.len(),
    ensures
        match records_from(bytes@, pos as int) {
            Ok(records) => r is Ok && records_view(r->Ok_0@) == records,
            Err(e) => r is Err && r->Err_0.is_format(e),
        },
{
    let mut tensors: Vec<(String, WeightTensor)> = Vec::new();
    let mut at: u64 = pos;
    assert(records_view(tensors@) =~= Seq::empty());
    proof {
        lemma_prepend_empty(records_from(bytes@, pos as int));
    }
    while (at as usize) < bytes.len()
        invariant
            at <= bytes@.len(),
            records_from(bytes@, pos as int) == prepend(
                records_view(tensors@),
                records_from(bytes@, at as int),
            ),
        decreases bytes@.len() - at,
    {
        let ghost before = tensors@;
        match read_record(bytes, &mut at) {
            Err(e) => {
                return Err(e);
            },
            Ok(record) => {
                tensors.push(record);
                proof {
                    let new = (record.0@, record.1@);
                    assert(records_view(tensors@) =~= records_view(before) + seq![new]);
                    lemma_prepend_twice(
                        records_view(before),
                        seq![new],
                        records_from(bytes@, at as int),
                    );
                }
            },
        }
    }
    assert(records_view(tensors@) + Seq::<Record>::empty() =~= records_view(tensors@));
    Ok(tensors)
}

proof fn lemma_prepend_empty(rest: Result<Seq<Record>, FormatFault>)
    ensures
        prepend(Seq::empty(), rest) == rest,
{
    match rest {
        Ok(s) => {
            assert(Seq::<Record>::empty() + s =~= s);
        },
        Err(_) => {},
    }
}

proof fn lemma_prepend_twice(a: Seq<Record>, b: Seq<Record>, rest: Result<Seq<Record>, FormatFault>)
    ensures
        prepend(a, prepend(b, rest)) == prepend(a + b, rest),
{
    match rest {
        Ok(s) => {
            assert(a + (b + s) =~= (a + b) + s);
        },
        Err(_) => {},
    }
}

/// Parses a `.minq` file back into its config JSON and named tensors. Files
/// with the legacy `.minfer` magic are accepted as well (same layout).
pub fn read_minq(bytes: &[u8]) -> (r: Result<(Vec<u8>, Vec<(String, WeightTensor)>), MinqError>)
    ensures
        match contents_of(bytes@) {
            Ok((config, records)) => r is Ok && r->Ok_0.0@ == config && records_view(r->Ok_0.1@)
                == records,
            Err(e) => r is Err && r->Err_0.is_format(e),
        },
{
    match read_minq_header(bytes) {
        Err(e) => Err(e),
        Ok((config, pos)) => match read_minq_records(bytes, pos) {
            Err(e) => Err(e),
            Ok(tensors) => Ok((config, tensors)),
        },
    }
}

impl WeightView {
    /// The storage tag.
    pub open spec fn tag(self) -> u8 {
        match self {
            WeightView::F32(_) => 0,
            WeightView::Quant(q) => match q.dtype {
                QuantDtype::Q8_0 => 1,
                QuantDtype::Q4_0 => 2,
            },
        }
    }

    /// The stored shape.
    pub open spec fn shape(self) -> Seq<usize> {
        match self {
            WeightView::F32(t) => t.shape,
            WeightView::Quant(q) => seq![q.rows, q.cols],
        }
    }

    /// The stored bytes.
    pub open spec fn bytes(self) -> Seq<u8> {
        match self {
            WeightView::F32(t) => value_bytes(t.data),
            WeightView::Quant(q) => q.data,
        }
    }

    /// Whether the weight is one that a file can hold.
    pub open spec fn wf(self) -> bool {
        &&& tensor::countable(self.shape())
        &&& self.shape().len() <= 255
        &&& match self {
            WeightView::F32(t) => t.wf(),
            WeightView::Quant(q) => q.wf(),
        }
    }
}

/// Values as little-endian bytes.
pub open spec fn value_bytes(values: Seq<u32>) -> Seq<u8> {
    Seq::new(4 * values.len(), |i: int| spec_u32_to_le_bytes(values[i / 4])[i % 4])
}

/// Dimensions as little-endian bytes.
pub open spec fn dim_bytes(shape: Seq<usize>) -> Seq<u8> {
    Seq::new(8 * shape.len(), |i: int| spec_u64_to_le_bytes(shape[i / 8] as u64)[i % 8])
}

/// The bytes of a header. The length field holds the low 32 bits of the length.
pub open spec fn header_bytes(config: Seq<u8>) -> Seq<u8> {
    MAGIC@ + spec_u32_to_le_bytes(config.len() as u32) + config
}

/// The bytes of a record. The length fields hold the low 32 bits of the name's
/// length and the low 8 bits of the rank.
pub open spec fn record_bytes(record: Record) -> Seq<u8> {
    let name = encode_utf8(record.0);
    let shape = record.1.shape();
    let data = record.1.bytes();
    spec_u32_to_le_bytes(name.len() as u32) + name + seq![record.1.tag(), shape.len() as u8]
        + dim_bytes(shape) + spec_u64_to_le_bytes(data.len() as u64) + data
}

/// The bytes of consecutive records.
pub open spec fn records_bytes(records: Seq<Record>) -> Seq<u8>
    decreases records.len(),
{
    if records.len() == 0 {
        Seq::empty()
    } else {
        records_bytes(records.drop_last()) + record_bytes(records.last())
    }
}

/// Writes the file header (magic + config JSON). First half of the streaming
/// export: callers that quantize tensors one at a time can write the header up
/// front and then append each record with [`write_minq_record`], keeping one
/// tensor in memory instead of the whole packed model.
pub fn write_minq_header(w: &mut Vec<u8>, config: &[u8])
    ensures
        final(w)@ == old(w)@ + header_bytes(config@),
{
    let ghost before = w@;
    let magic = MAGIC;
    let mut i: usize = 0;
    while i < 8
        invariant
            i <= 8,
            magic@ == MAGIC@,
            w@ == before + MAGIC@.subrange(0, i as int),
        decreases 8 - i,
    {
        w.push(magic[i]);
        i += 1;
        assert(w@ =~= before + MAGIC@.subrange(0, i as int));
    }
    let mut len = u32_to_le_bytes(config.len() as u32);
    w.append(&mut len);
    w.extend_from_slice(config);
    assert(w@ =~= before + header_bytes(config@));
}

fn push_dims(w: &mut Vec<u8>, shape: &[usize])
    ensures
        final(w)@ == old(w)@ + dim_bytes(shape@),
{
    let ghost before = w@;
    let mut n: usize = 0;
    assert(w@ =~= before + dim_bytes(shape@.subrange(0, 0)));
    while n < shape.len()
        invariant
            n <= shape@.len(),
            w@ == before + dim_bytes(shape@.subrange(0, n as int)),
        decreases shape@.len() - n,
    {
        let mut dim = u64_to_le_bytes(shape[n] as u64);
        w.append(&mut dim);
        n += 1;
        assert(w@ =~= before + dim_bytes(shape@.subrange(0, n as int)));
    }
    assert(shape@.subrange(0, n as int) =~= shape@);
}

fn push_values(w: &mut Vec<u8>, values: &[u32])
    ensures
        final(w)@ == old(w)@ + value_bytes(values@),
{
    let ghost before = w@;
    let mut n: usize = 0;
    assert(w@ =~= before + value_bytes(values@.subrange(0, 0)));
    while n < values.len()
        invariant
            n <= values@.len(),
            w@ == before + value_bytes(values@.subrange(0, n as int)),
        decreases values@.len() - n,
    {
        let mut value = u32_to_le_bytes(values[n]);
        w.append(&mut value);
        n += 1;
        assert(w@ =~= before + value_bytes(values@.subrange(0, n as int)));
    }
    assert(values@.subrange(0, n as int) =~= values@);
}

/// Appends one tensor record. The bytes are exactly those that [`write_minq`]
/// emits per record, so that streaming and batch exports are interchangeable.
pub fn write_minq_record(w: &mut Vec<u8>, name: &str, tensor: &WeightTensor)
    requires
        tensor@.bytes().len() <= u64::MAX,
    ensures
        final(w)@ == old(w)@ + record_bytes((name@, tensor@)),
{
    let ghost before = w@;
    let raw = name.as_bytes();
    let mut len = u32_to_le_bytes(raw.len() as u32);
    w.append(&mut len);
    w.extend_from_slice(raw);
    match tensor {
        WeightTensor::F32(t) => {
            w.push(TAG_F32);
            w.push(t.shape.len() as u8);
            push_dims(w, &t.shape);
            let mut data_len = u64_to_le_bytes(4 * (t.data.len() as u64));
            w.append(&mut data_len);
            push_values(w, &t.data);
        },
        WeightTensor::Quant(q) => {
            let tag: u8 = match q.dtype {
                QuantDtype::Q8_0 => TAG_Q8_0,
                QuantDtype::Q4_0 => TAG_Q4_0,
            };
            w.push(tag);
            w.push(2);
            let mut shape: Vec<usize> = Vec::new();
            shape.push(q.rows);
            shape.push(q.cols);
            assert(shape@ =~= tensor@.shape());
            push_dims(w, &shape);
            let mut data_len = u64_to_le_bytes(q.data.len() as u64);
            w.append(&mut data_len);
            w.extend_from_slice(&q.data);
        },
    }
    assert(w@ =~= before + record_bytes((name@, tensor@)));
}

/// Serializes a config and its tensors to the bytes of a `.minq` file.
pub fn write_minq(config: &[u8], tensors: &[(String, WeightTensor)]) -> (w: Vec<u8>)
    requires
        forall|i: int| 0 <= i < tensors@.len() ==> (#[trigger] tensors@[i]).1@.bytes().len()
            <= u64::MAX,
    ensures
        w@ == header_bytes(config@) + records_bytes(records_view(tensors@)),
{
    let mut w: Vec<u8> = Vec::new();
    write_minq_header(&mut w, config);
    let mut n: usize = 0;
    assert(records_view(tensors@.subrange(0, 0)) =~= Seq::empty());
    assert(w@ =~= header_bytes(config@) + records_bytes(records_view(tensors@.subrange(0, 0))));
    while n < tensors.len()
        invariant
            n <= tensors@.len(),
            forall|i: int| 0 <= i < tensors@.len() ==> (#[trigger] tensors@[i]).1@.bytes().len()
                <= u64::MAX,
            w@ == header_bytes(config@) + records_bytes(
                records_view(tensors@.subrange(0, n as int)),
            ),
        decreases tensors@.len() - n,
    {
        let ghost written = records_view(tensors@.subrange(0, n as int));
        write_minq_record(&mut w, tensors[n].0.as_str(), &tensors[n].1);
        n += 1;
        proof {
            let next = records_view(tensors@.subrange(0, n as int));
            assert(next.drop_last() =~= written);
            assert(w@ =~= header_bytes(config@) + records_bytes(next));
        }
    }
    assert(tensors@.subrange(0, n as int) =~= tensors@);
    w
}

/// Whether a file can hold the record: the weight is one it can hold, and the
/// length of the name fits its field.
pub open spec fn storable(record: Record) -> bool {
    record.1.wf() && encode_utf8(record.0).len() <= u32::MAX
}

/// The bytes of a file.
pub open spec fn file_bytes(config: Seq<u8>, records: Seq<Record>) -> Seq<u8> {
    header_bytes(config) + records_bytes(records)
}

proof fn lemma_dims_read(bytes: Seq<u8>, pos: int, name: Seq<char>, shape: Seq<usize>, n: int)
    requires
        0 <= n <= shape.len(),
        0 <= pos,
        pos + 8 * shape.len() <= bytes.len(),
        bytes.subrange(pos, pos + 8 * shape.len()) == dim_bytes(shape),
    ensures
        dims_upto(bytes, pos, name, n) == Ok::<Seq<usize>, FormatFault>(shape.subrange(0, n)),
    decreases n,
{
    if n > 0 {
        lemma_dims_read(bytes, pos, name, shape, n - 1);
        lemma_auto_spec_u64_to_from_le_bytes();
        let k = n - 1;
        let raw = bytes.subrange(pos + 8 * k, pos + 8 * k + 8);
        assert forall|i: int| 0 <= i < 8 implies raw[i] == spec_u64_to_le_bytes(
            shape[k] as u64,
        )[i] by {
            assert(raw[i] == bytes.subrange(pos, pos + 8 * shape.len())[8 * k + i]);
            assert((8 * k + i) / 8 == k && (8 * k + i) % 8 == i);
        }
        assert(raw =~= spec_u64_to_le_bytes(shape[k] as u64));
        assert(shape.subrange(0, k).push(shape[k]) =~= shape.subrange(0, n));
    } else {
        assert(shape.subrange(0, 0) =~= Seq::empty());
    }
}

proof fn lemma_values_read(values: Seq<u32>)
    ensures
        values_of(value_bytes(values)) == values,
{
    lemma_auto_spec_u32_to_from_le_bytes();
    let data = value_bytes(values);
    assert forall|k: int| 0 <= k < values.len() implies values_of(data)[k] == values[k] by {
        let raw = data.subrange(4 * k, 4 * k + 4);
        assert forall|i: int| 0 <= i < 4 implies raw[i] == spec_u32_to_le_bytes(values[k])[i] by {
            assert((4 * k + i) / 4 == k && (4 * k + i) % 4 == i);
        }
        assert(raw =~= spec_u32_to_le_bytes(values[k]));
    }
    assert(values_of(data) =~= values);
}

proof fn lemma_values_written(data: Seq<u8>)
    requires
        data.len() % 4 == 0,
    ensures
        value_bytes(values_of(data)) == data,
{
    lemma_auto_spec_u32_to_from_le_bytes();
    assert forall|i: int| 0 <= i < data.len() implies value_bytes(values_of(data))[i] == data[i] by {
        let k = i / 4;
        let raw = data.subrange(4 * k, 4 * k + 4);
        assert(spec_u32_to_le_bytes(spec_u32_from_le_bytes(raw)) == raw);
        assert(raw[i % 4] == data[i]);
    }
    assert(value_bytes(values_of(data)) =~= data);
}

/// The length of the stored bytes is the one that tag and shape imply.
proof fn lemma_data_len(name: Seq<char>, w: WeightView)
    requires
        w.wf(),
        w.bytes().len() <= u64::MAX,
    ensures
        data_len_of(name, w.tag(), w.shape()) == Ok::<int, FormatFault>(w.bytes().len() as int),
        weight_of(w.tag(), w.shape(), w.bytes()) == w,
{
    match w {
        WeightView::F32(t) => {
            lemma_values_read(t.data);
        },
        WeightView::Quant(q) => {
            let c = q.cols as int / 32;
            let bb = q.dtype.block_len();
            assert(q.rows * (c * bb) == q.rows * c * bb) by (nonlinear_arith);
        },
    }
}

proof fn lemma_record_read(front: Seq<u8>, record: Record, tail: Seq<u8>)
    requires
        storable(record),
        (front + record_bytes(record) + tail).len() <= u64::MAX,
    ensures
        record_at(front + record_bytes(record) + tail, front.len() as int) == Ok::<
            (Record, int),
            FormatFault,
        >((record, (front.len() + record_bytes(record).len()) as int)),
{
    lemma_auto_spec_u32_to_from_le_bytes();
    lemma_auto_spec_u64_to_from_le_bytes();
    let bytes = front + record_bytes(record) + tail;
    let name = encode_utf8(record.0);
    let shape = record.1.shape();
    let data = record.1.bytes();
    encode_utf8_valid_utf8(record.0);
    encode_utf8_decode_utf8(record.0);
    let p0 = front.len() as int;
    let p1 = p0 + 4;
    let p2 = p1 + name.len();
    let p3 = p2 + 2;
    let p4 = p3 + 8 * shape.len();
    let p5 = p4 + 8;
    let p6 = p5 + data.len();
    assert(bytes.subrange(p0, p1) =~= spec_u32_to_le_bytes(name.len() as u32));
    assert(bytes.subrange(p1, p2) =~= name);
    assert(name_at(bytes, p0) == Ok::<(Seq<char>, int), FormatFault>((record.0, p2)));
    assert(bytes[p2] == record.1.tag());
    assert(bytes[p2 + 1] == shape.len());
    assert(bytes.subrange(p3, p4) =~= dim_bytes(shape));
    lemma_dims_read(bytes, p3, record.0, shape, shape.len() as int);
    assert(shape.subrange(0, shape.len() as int) =~= shape);
    assert(shape_at(bytes, p2, record.0) == Ok::<(u8, Seq<usize>, int), FormatFault>(
        (record.1.tag(), shape, p4),
    ));
    assert(bytes.subrange(p4, p5) =~= spec_u64_to_le_bytes(data.len() as u64));
    assert(bytes.subrange(p5, p6) =~= data);
    lemma_data_len(record.0, record.1);
}

proof fn lemma_records_read(front: Seq<u8>, records: Seq<Record>, tail: Seq<u8>)
    requires
        forall|i: int| 0 <= i < records.len() ==> storable(#[trigger] records[i]),
        (front + records_bytes(records) + tail).len() <= u64::MAX,
    ensures
        records_from(front + records_bytes(records) + tail, front.len() as int) == prepend(
            records,
            records_from(
                front + records_bytes(records) + tail,
                (front.len() + records_bytes(records).len()) as int,
            ),
        ),
    decreases records.len(),
{
    let bytes = front + records_bytes(records) + tail;
    if records.len() == 0 {
        assert(records =~= Seq::empty());
        lemma_prepend_empty(records_from(bytes, front.len() as int));
    } else {
        let init = records.drop_last();
        let last = records.last();
        let middle = front + records_bytes(init);
        assert(bytes =~= front + records_bytes(init) + (record_bytes(last) + tail));
        assert(bytes =~= middle + record_bytes(last) + tail);
        lemma_records_read(front, init, record_bytes(last) + tail);
        lemma_record_read(middle, last, tail);
        let end = (middle.len() + record_bytes(last).len()) as int;
        lemma_prepend_twice(init, seq![last], records_from(bytes, end));
        assert(init + seq![last] =~= records);
        lemma_auto_spec_u32_to_from_le_bytes();
        assert(record_bytes(last).len() >= 4);
    }
}

/// Reading what was written gives back the config JSON and every record, as
/// long as each record can be stored and the file length fits its counters.
pub proof fn law_read_what_was_written(config: Seq<u8>, records: Seq<Record>)
    requires
        config.len() <= u32::MAX,
        forall|i: int| 0 <= i < records.len() ==> storable(#[trigger] records[i]),
        file_bytes(config, records).len() <= u64::MAX,
    ensures
        contents_of(file_bytes(config, records)) == Ok::<(Seq<u8>, Seq<Record>), FormatFault>(
            (config, records),
        ),
{
    lemma_auto_spec_u32_to_from_le_bytes();
    let bytes = file_bytes(config, records);
    let header = header_bytes(config);
    assert(bytes.subrange(0, 8) =~= MAGIC@);
    assert(bytes.subrange(8, 12) =~= spec_u32_to_le_bytes(config.len() as u32));
    assert(bytes.subrange(12, (12 + config.len()) as int) =~= config);
    assert(bytes =~= header + records_bytes(records) + Seq::<u8>::empty());
    lemma_records_read(header, records, Seq::<u8>::empty());
    assert(records + Seq::<Record>::empty() =~= records);
}

proof fn lemma_dims_written(bytes: Seq<u8>, pos: int, name: Seq<char>, n: int)
    requires
        0 <= n,
        0 <= pos,
        pos + 8 * n <= bytes.len(),
        dims_upto(bytes, pos, name, n) is Ok,
    ensures
        dims_upto(bytes, pos, name, n)->Ok_0.len() == n,
        dim_bytes(dims_upto(bytes, pos, name, n)->Ok_0) == bytes.subrange(pos, pos + 8 * n),
    decreases n,
{
    if n > 0 {
        lemma_dims_written(bytes, pos, name, n - 1);
        lemma_auto_spec_u64_to_from_le_bytes();
        let k = n - 1;
        let raw = bytes.subrange(pos + 8 * k, pos + 8 * k + 8);
        let before = dims_upto(bytes, pos, name, k)->Ok_0;
        let shape = dims_upto(bytes, pos, name, n)->Ok_0;
        assert(spec_u64_to_le_bytes(spec_u64_from_le_bytes(raw)) == raw);
        assert forall|i: int| 0 <= i < 8 * n implies dim_bytes(shape)[i] == bytes.subrange(
            pos,
            pos + 8 * n,
        )[i] by {
            if i < 8 * k {
                assert(shape[i / 8] == before[i / 8]);
                assert(dim_bytes(before)[i] == bytes.subrange(pos, pos + 8 * k)[i]);
            } else {
                assert(i / 8 == k);
                assert(raw[i % 8] == bytes[pos + i]);
            }
        }
        assert(dim_bytes(shape) =~= bytes.subrange(pos, pos + 8 * n));
    } else {
        assert(dim_bytes(Seq::empty()) =~= bytes.subrange(pos, pos));
    }
}

proof fn lemma_record_written(bytes: Seq<u8>, pos: int)
    requires
        0 <= pos,
        record_at(bytes, pos) is Ok,
    ensures
        ({
            let (record, end) = record_at(bytes, pos)->Ok_0;
            &&& storable(record)
            &&& pos < end <= bytes.len()
            &&& record_bytes(record) == bytes.subrange(pos, end)
        }),
{
    lemma_auto_spec_u32_to_from_le_bytes();
    lemma_auto_spec_u64_to_from_le_bytes();
    let (record, end) = record_at(bytes, pos)->Ok_0;
    let p1 = pos + 4;
    let (name, p2) = name_at(bytes, pos)->Ok_0;
    let raw = bytes.subrange(p1, p2);
    decode_utf8_encode_utf8(raw);
    let p3 = p2 + 2;
    let (tag, shape, p4) = shape_at(bytes, p2, name)->Ok_0;
    let rank = bytes[p2 + 1];
    lemma_dims_written(bytes, p3, name, rank as int);
    let p5 = p4 + 8;
    let data = bytes.subrange(p5, end);
    if tag == 0 {
        lemma_values_written(data);
        assert(data.len() == tensor::numel_of(shape) * 4);
    } else {
        let rows = shape[0];
        let c = shape[1] as int / 32;
        let bb = tag_dtype(tag).block_len();
        assert(rows * (c * bb) == rows * c * bb) by (nonlinear_arith);
        assert(seq![shape[0], shape[1]] =~= shape);
    }
    assert(record.1.tag() == tag);
    assert(record.1.shape() == shape);
    assert(record.1.bytes() == data);
    assert(bytes.subrange(pos, p1) =~= spec_u32_to_le_bytes(raw.len() as u32));
    assert(bytes.subrange(p4, p5) =~= spec_u64_to_le_bytes(data.len() as u64));
    assert(record_bytes(record) =~= bytes.subrange(pos, end));
}

proof fn lemma_records_written(bytes: Seq<u8>, pos: int)
    requires
        0 <= pos <= bytes.len(),
        records_from(bytes, pos) is Ok,
    ensures
        forall|i: int|
            0 <= i < records_from(bytes, pos)->Ok_0.len() ==> storable(
                #[trigger] records_from(bytes, pos)->Ok_0[i],
            ),
        records_bytes(records_from(bytes, pos)->Ok_0) == bytes.skip(pos),
    decreases bytes.len() - pos,
{
    let records = records_from(bytes, pos)->Ok_0;
    if pos < bytes.len() {
        lemma_record_written(bytes, pos);
        let (record, end) = record_at(bytes, pos)->Ok_0;
        lemma_records_written(bytes, end);
        let rest = records_from(bytes, end)->Ok_0;
        assert(records == seq![record] + rest);
        law_streaming_export(seq![record], rest);
        assert(seq![record].drop_last() =~= Seq::empty());
        assert(records_bytes(seq![record].drop_last()) =~= Seq::empty());
        assert(records_bytes(seq![record]) =~= record_bytes(record));
        assert(bytes.skip(pos) =~= bytes.subrange(pos, end) + bytes.skip(end));
        assert forall|i: int| 0 <= i < records.len() implies storable(#[trigger] records[i]) by {
            if i > 0 {
                assert(records[i] == rest[i - 1]);
            }
        }
    } else {
        assert(bytes.skip(pos) =~= Seq::empty());
    }
}

/// Writing what was read gives the same bytes again, with the current magic in
/// front. So a file that can be read is in canonical form, and everything read
/// from it can be stored.
pub proof fn law_write_what_was_read(bytes: Seq<u8>)
    requires
        contents_of(bytes) is Ok,
    ensures
        ({
            let (config, records) = contents_of(bytes)->Ok_0;
            &&& file_bytes(config, records) == MAGIC@ + bytes.skip(8)
            &&& forall|i: int| 0 <= i < records.len() ==> storable(#[trigger] records[i])
        }),
{
    lemma_auto_spec_u32_to_from_le_bytes();
    let (config, pos) = header_of(bytes)->Ok_0;
    lemma_records_written(bytes, pos);
    assert(bytes.subrange(8, 12) =~= spec_u32_to_le_bytes(config.len() as u32));
    let (c, records) = contents_of(bytes)->Ok_0;
    assert(file_bytes(config, records) =~= MAGIC@ + bytes.skip(8));
}

/// A streaming export, which writes the records in several goes, gives the same
/// bytes as a batch export.
pub proof fn law_streaming_export(first: Seq<Record>, then: Seq<Record>)
    ensures
        records_bytes(first + then) == records_bytes(first) + records_bytes(then),
    decreases then.len(),
{
    if then.len() == 0 {
        assert(first + then =~= first);
        assert(records_bytes(first) + records_bytes(then) =~= records_bytes(first));
    } else {
        law_streaming_export(first, then.drop_last());
        assert((first + then).drop_last() =~= first + then.drop_last());
        assert(records_bytes(first) + records_bytes(then) =~= records_bytes(first) + records_bytes(
            then.drop_last(),
        ) + record_bytes(then.last()));
    }
}

proof fn lemma_same_records(a: Seq<u8>, b: Seq<u8>, from: int, pos: int)
    requires
        a.len() == b.len(),
        0 <= from <= pos,
        forall|i: int| from <= i < a.len() ==> a[i] == b[i],
    ensures
        records_from(a, pos) == records_from(b, pos),
    decreases a.len() - pos,
{
    if pos < a.len() {
        assert forall|x: int, y: int| from <= x <= y <= a.len() implies #[trigger] a.subrange(x, y)
            == b.subrange(x, y) by {
            assert(a.subrange(x, y) =~= b.subrange(x, y));
        }
        assert(name_at(a, pos) == name_at(b, pos));
        if name_at(a, pos) is Ok {
            let (name, p2) = name_at(a, pos)->Ok_0;
            if p2 + 2 + 8 * a[p2 + 1] <= a.len() {
                lemma_same_dims(a, b, from, p2 + 2, name, a[p2 + 1] as int);
            }
            assert(shape_at(a, p2, name) == shape_at(b, p2, name));
        }
        assert(record_at(a, pos) == record_at(b, pos));
        if record_at(a, pos) is Ok {
            lemma_same_records(a, b, from, record_at(a, pos)->Ok_0.1);
        }
    }
}

proof fn lemma_same_dims(a: Seq<u8>, b: Seq<u8>, from: int, pos: int, name: Seq<char>, n: int)
    requires
        a.len() == b.len(),
        0 <= from <= pos,
        pos + 8 * n <= a.len(),
        forall|i: int| from <= i < a.len() ==> a[i] == b[i],
    ensures
        dims_upto(a, pos, name, n) == dims_upto(b, pos, name, n),
    decreases n,
{
    if n > 0 {
        lemma_same_dims(a, b, from, pos, name, n - 1);
        let k = 8 * (n - 1);
        assert(a.subrange(pos + k, pos + k + 8) =~= b.subrange(pos + k, pos + k + 8));
    }
}

/// A file with the legacy magic holds what the same file with the current magic
/// holds, errors included.
pub proof fn law_legacy_magic(rest: Seq<u8>)
    ensures
        contents_of(LEGACY_MAGIC@ + rest) == contents_of(MAGIC@ + rest),
{
    let a = LEGACY_MAGIC@ + rest;
    let b = MAGIC@ + rest;
    assert(a.subrange(0, 8) =~= LEGACY_MAGIC@);
    assert(b.subrange(0, 8) =~= MAGIC@);
    if a.len() >= 12 {
        assert(a.subrange(8, 12) =~= b.subrange(8, 12));
        let len = spec_u32_from_le_bytes(a.subrange(8, 12)) as int;
        if 12 + len <= a.len() {
            assert(a.subrange(12, 12 + len) =~= b.subrange(12, 12 + len));
            lemma_same_records(a, b, 8, 12 + len);
        }
    }
}

/// Dimensions that end before a cut are read as before.
proof fn lemma_cut_dims(bytes: Seq<u8>, cut: int, pos: int, name: Seq<char>, n: int)
    requires
        0 <= pos,
        pos + 8 * n <= cut <= bytes.len(),
    ensures
        dims_upto(bytes.subrange(0, cut), pos, name, n) == dims_upto(bytes, pos, name, n),
    decreases n,
{
    if n > 0 {
        lemma_cut_dims(bytes, cut, pos, name, n - 1);
        let k = pos + 8 * (n - 1);
        assert(bytes.subrange(0, cut).subrange(k, k + 8) =~= bytes.subrange(k, k + 8));
    }
}

/// A record that ends before a cut is read as before, and one that does not is
/// refused.
proof fn lemma_cut_record(bytes: Seq<u8>, cut: int, pos: int)
    requires
        0 <= pos <= cut <= bytes.len(),
        record_at(bytes, pos) is Ok,
    ensures
        ({
            let (record, end) = record_at(bytes, pos)->Ok_0;
            if end <= cut {
                record_at(bytes.subrange(0, cut), pos) == record_at(bytes, pos)
            } else {
                record_at(bytes.subrange(0, cut), pos) is Err
            }
        }),
{
    let short = bytes.subrange(0, cut);
    assert forall|x: int, y: int| 0 <= x <= y <= cut implies #[trigger] short.subrange(x, y)
        == bytes.subrange(x, y) by {
        assert(short.subrange(x, y) =~= bytes.subrange(x, y));
    }
    let (name, p2) = name_at(bytes, pos)->Ok_0;
    if p2 <= cut {
        assert(name_at(short, pos) == name_at(bytes, pos));
        let p3 = p2 + 2;
        let (tag, shape, p4) = shape_at(bytes, p2, name)->Ok_0;
        if p4 <= cut {
            lemma_cut_dims(bytes, cut, p3, name, bytes[p2 + 1] as int);
            assert(shape_at(short, p2, name) == shape_at(bytes, p2, name));
        }
    }
}

/// What a cut leaves of the records from `pos` on.
proof fn lemma_cut_records(bytes: Seq<u8>, cut: int, pos: int)
    requires
        0 <= pos <= cut <= bytes.len(),
        records_from(bytes, pos) is Ok,
    ensures
        ({
            let records = records_from(bytes, pos)->Ok_0;
            let left = records_from(bytes.subrange(0, cut), pos);
            &&& forall|j: int|
                0 <= j <= records.len() && cut == pos + records_bytes(
                    #[trigger] records.subrange(0, j),
                ).len() ==> left == Ok::<Seq<Record>, FormatFault>(records.subrange(0, j))
            &&& (forall|j: int|
                0 <= j <= records.len() ==> cut != pos + records_bytes(
                    #[trigger] records.subrange(0, j),
                ).len()) ==> left is Err
        }),
    decreases bytes.len() - pos,
{
    let records = records_from(bytes, pos)->Ok_0;
    let short = bytes.subrange(0, cut);
    let left = records_from(short, pos);
    assert(records.subrange(0, 0) =~= Seq::empty());
    if pos == cut {
        assert forall|j: int|
            0 <= j <= records.len() && cut == pos + records_bytes(
                #[trigger] records.subrange(0, j),
            ).len() implies left == Ok::<Seq<Record>, FormatFault>(records.subrange(0, j)) by {
            if j > 0 {
                lemma_auto_spec_u32_to_from_le_bytes();
                assert(record_bytes(records.subrange(0, j).last()).len() >= 4);
            }
        }
    } else {
        lemma_record_written(bytes, pos);
        lemma_cut_record(bytes, cut, pos);
        let (record, end) = record_at(bytes, pos)->Ok_0;
        let rest = records_from(bytes, end)->Ok_0;
        assert(records == seq![record] + rest);
        assert(seq![record].drop_last() =~= Seq::empty());
        assert(records_bytes(seq![record].drop_last()) =~= Seq::empty());
        assert(records_bytes(seq![record]) =~= record_bytes(record));
        assert forall|j: int| 1 <= j <= records.len() implies records_bytes(
            #[trigger] records.subrange(0, j),
        ).len() == end - pos + records_bytes(rest.subrange(0, j - 1)).len() by {
            assert(records.subrange(0, j) =~= seq![record] + rest.subrange(0, j - 1));
            law_streaming_export(seq![record], rest.subrange(0, j - 1));
        }
        if end <= cut {
            lemma_cut_records(bytes, cut, end);
            let after = records_from(short, end);
            assert(left == prepend(seq![record], after));
            assert forall|j: int|
                0 <= j <= records.len() && cut == pos + records_bytes(
                    #[trigger] records.subrange(0, j),
                ).len() implies left == Ok::<Seq<Record>, FormatFault>(records.subrange(0, j)) by {
                assert(j > 0);
                assert(records.subrange(0, j) =~= seq![record] + rest.subrange(0, j - 1));
            }
            if forall|j: int|
                0 <= j <= records.len() ==> cut != pos + records_bytes(
                    #[trigger] records.subrange(0, j),
                ).len() {
                assert forall|j: int| 0 <= j <= rest.len() implies cut != end + records_bytes(
                    #[trigger] rest.subrange(0, j),
                ).len() by {
                    assert(cut != pos + records_bytes(records.subrange(0, j + 1)).len());
                }
            }
        }
    }
}

/// A file that is cut short is accepted at the end of a record (or of the header)
/// only, and then holds the records before the cut. One that is cut anywhere else
/// is refused.
pub proof fn law_cut_file(bytes: Seq<u8>, cut: int)
    requires
        contents_of(bytes) is Ok,
        0 <= cut <= bytes.len(),
    ensures
        ({
            let (config, records) = contents_of(bytes)->Ok_0;
            let left = contents_of(bytes.subrange(0, cut));
            &&& forall|j: int|
                0 <= j <= records.len() && cut == file_bytes(
                    config,
                    #[trigger] records.subrange(0, j),
                ).len() ==> left == Ok::<(Seq<u8>, Seq<Record>), FormatFault>(
                    (config, records.subrange(0, j)),
                )
            &&& (forall|j: int|
                0 <= j <= records.len() ==> cut != file_bytes(
                    config,
                    #[trigger] records.subrange(0, j),
                ).len()) ==> left is Err
        }),
{
    lemma_auto_spec_u32_to_from_le_bytes();
    let (config, pos) = header_of(bytes)->Ok_0;
    let records = records_from(bytes, pos)->Ok_0;
    let short = bytes.subrange(0, cut);
    assert(header_bytes(config).len() == pos);
    if cut >= 8 {
        assert(short.subrange(0, 8) =~= bytes.subrange(0, 8));
        if cut >= 12 {
            assert(short.subrange(8, 12) =~= bytes.subrange(8, 12));
            if cut >= pos {
                assert(short.subrange(12, pos) =~= bytes.subrange(12, pos));
                lemma_cut_records(bytes, cut, pos);
                if forall|j: int|
                    0 <= j <= records.len() ==> cut != file_bytes(
                        config,
                        #[trigger] records.subrange(0, j),
                    ).len() {
                    assert forall|j: int| 0 <= j <= records.len() implies cut != pos
                        + records_bytes(#[trigger] records.subrange(0, j)).len() by {
                        assert(cut != file_bytes(config, records.subrange(0, j)).len());
                    }
                }
            }
        }
    }
}

/// Anything else in front is rejected.
pub proof fn law_bad_magic(bytes: Seq<u8>)
    requires
        bytes.len() >= 8,
        bytes.subrange(0, 8) != MAGIC@,
        bytes.subrange(0, 8) != LEGACY_MAGIC@,
    ensures
        contents_of(bytes) == Err::<(Seq<u8>, Seq<Record>), FormatFault>(FormatErrorOf::BadMagic),
{
}

} // verus!
