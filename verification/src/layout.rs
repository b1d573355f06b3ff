//! Where each part of a `.minq` file stands.

use vstd::bytes::*;
use vstd::prelude::*;
use vstd::utf8::*;

use crate::format::{dim_bytes, header_bytes, record_bytes, storable, value_bytes, Record, WeightView};
use crate::quantize::{block_of, in_range, QuantDtype};

verus! {

/// The parts of a header: eight bytes that name the format, the length of the config in
/// four bytes, little end first, and the config.
pub proof fn law_header_layout(config: Seq<u8>)
    requires
        config.len() <= u32::MAX,
    ensures
        ({
            let bytes = header_bytes(config);
            &&& bytes.len() == 12 + config.len()
            &&& bytes.subrange(0, 8) == seq![77u8, 73, 78, 81, 48, 48, 48, 49]
            &&& spec_u32_from_le_bytes(bytes.subrange(8, 12)) == config.len()
            &&& bytes.subrange(12, bytes.len() as int) == config
        }),
{
    lemma_auto_spec_u32_to_from_le_bytes();
    let bytes = header_bytes(config);
    assert(bytes.subrange(0, 8) =~= seq![77u8, 73, 78, 81, 48, 48, 48, 49]);
    assert(bytes.subrange(8, 12) =~= spec_u32_to_le_bytes(config.len() as u32));
    assert(bytes.subrange(12, bytes.len() as int) =~= config);
}

/// The parts of a record: the length of the name in four bytes and the name; one byte
/// for the storage, which is 0 for dense, 1 for Q8_0 and 2 for Q4_0; one byte for the
/// rank; eight bytes for each dimension; the length of the data in eight bytes; and the
/// data, which are the values of a dense tensor in four bytes each or the blocks of a
/// quantized one. All numbers have the little end first.
pub proof fn law_record_layout(record: Record, i: int)
    requires
        storable(record),
        record_bytes(record).len() <= u64::MAX,
    ensures
        ({
            let bytes = record_bytes(record);
            let name = encode_utf8(record.0);
            let shape = record.1.shape();
            let rank_at = 4 + name.len() as int + 1;
            let dims_at = rank_at + 1;
            let len_at = dims_at + 8 * shape.len();
            let data_at = len_at + 8;
            let data = bytes.subrange(data_at, bytes.len() as int);
            &&& data_at <= bytes.len()
            &&& spec_u32_from_le_bytes(bytes.subrange(0, 4)) == name.len()
            &&& bytes.subrange(4, 4 + name.len() as int) == name
            &&& bytes[rank_at - 1] == match record.1 {
                WeightView::F32(_) => 0u8,
                WeightView::Quant(q) => match q.dtype {
                    QuantDtype::Q8_0 => 1,
                    QuantDtype::Q4_0 => 2,
                },
            }
            &&& bytes[rank_at] == shape.len()
            &&& 0 <= i < shape.len() ==> spec_u64_from_le_bytes(
                bytes.subrange(dims_at + 8 * i, dims_at + 8 * i + 8),
            ) == shape[i]
            &&& spec_u64_from_le_bytes(bytes.subrange(len_at, data_at)) == data.len()
            &&& match record.1 {
                WeightView::F32(t) => {
                    &&& shape == t.shape
                    &&& data.len() == 4 * t.data.len()
                    &&& 0 <= i < t.data.len() ==> spec_u32_from_le_bytes(
                        data.subrange(4 * i, 4 * i + 4),
                    ) == t.data[i]
                },
                WeightView::Quant(q) => shape == seq![q.rows, q.cols] && data == q.data,
            }
        }),
{
    lemma_auto_spec_u32_to_from_le_bytes();
    lemma_auto_spec_u64_to_from_le_bytes();
    let bytes = record_bytes(record);
    let name = encode_utf8(record.0);
    let shape = record.1.shape();
    let stored = record.1.bytes();
    let rank_at = 4 + name.len() as int + 1;
    let dims_at = rank_at + 1;
    let len_at = dims_at + 8 * shape.len();
    let data_at = len_at + 8;
    let data = bytes.subrange(data_at, bytes.len() as int);
    assert(bytes.subrange(0, 4) =~= spec_u32_to_le_bytes(name.len() as u32));
    assert(bytes.subrange(4, 4 + name.len() as int) =~= name);
    assert(bytes.subrange(len_at, data_at) =~= spec_u64_to_le_bytes(stored.len() as u64));
    assert(data =~= stored);
    if 0 <= i < shape.len() {
        let raw = bytes.subrange(dims_at + 8 * i, dims_at + 8 * i + 8);
        assert forall|k: int| 0 <= k < 8 implies raw[k] == spec_u64_to_le_bytes(shape[i] as u64)[k] by {
            assert(raw[k] == dim_bytes(shape)[8 * i + k]);
            assert((8 * i + k) / 8 == i && (8 * i + k) % 8 == k);
        }
        assert(raw =~= spec_u64_to_le_bytes(shape[i] as u64));
    }
    match record.1 {
        WeightView::F32(t) => {
            if 0 <= i < t.data.len() {
                let raw = data.subrange(4 * i, 4 * i + 4);
                assert forall|k: int| 0 <= k < 4 implies raw[k] == spec_u32_to_le_bytes(
                    t.data[i],
                )[k] by {
                    assert(raw[k] == value_bytes(t.data)[4 * i + k]);
                    assert((4 * i + k) / 4 == i && (4 * i + k) % 4 == k);
                }
                assert(raw =~= spec_u32_to_le_bytes(t.data[i]));
            }
        },
        WeightView::Quant(_) => {},
    }
}

/// The parts of a block: the scale in four bytes, little end first, and the codes of 32
/// elements. A Q8_0 code is a byte in two's complement. A Q4_0 byte holds two codes, each
/// plus 8: that of the even element in its lower half, that of the odd one in its upper.
pub proof fn law_block_layout(dtype: QuantDtype, scale: u32, codes: Seq<int>, i: int)
    requires
        codes.len() == 32,
        forall|k: int| 0 <= k < 32 ==> in_range(dtype, #[trigger] codes[k]),
        0 <= i < 32,
    ensures
        ({
            let block = block_of(dtype, scale, codes);
            &&& spec_u32_from_le_bytes(block.subrange(0, 4)) == scale
            &&& match dtype {
                QuantDtype::Q8_0 => block.len() == 36 && block[4 + i] == if codes[i] < 0 {
                    codes[i] + 256
                } else {
                    codes[i]
                },
                QuantDtype::Q4_0 => block.len() == 20 && (if i % 2 == 0 {
                    block[4 + i / 2] % 16 == codes[i] + 8
                } else {
                    block[4 + i / 2] / 16 == codes[i] + 8
                }),
            }
        }),
{
    lemma_auto_spec_u32_to_from_le_bytes();
    let block = block_of(dtype, scale, codes);
    assert(block.subrange(0, 4) =~= spec_u32_to_le_bytes(scale));
    assert(in_range(dtype, codes[i]));
    if dtype is Q4_0 {
        let h = i / 2;
        assert(in_range(dtype, codes[2 * h]));
        assert(in_range(dtype, codes[2 * h + 1]));
        assert(i == 2 * h || i == 2 * h + 1);
    }
}

} // verus!
