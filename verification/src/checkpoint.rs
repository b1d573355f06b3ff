//! Reading checkpoints: HuggingFace `config.json` files and safetensors weights
//! (LLaMA / Qwen2 / Qwen3 naming).

use safetensors::{SafeTensorError, SafeTensors};
use serde_json::Value;
use vstd::bytes::*;
use vstd::prelude::*;
use vstd::utf8::*;

use crate::arith;
use crate::arith::Arith;
use crate::bits;
use crate::config::{ConfigView, Heads, ModelConfig};
use crate::error::{ErrorView, MinqError, ModelErrorOf};
use crate::format::{read_u64, Record, WeightTensor, WeightView};
use crate::load;
use crate::model::Model;
use crate::tensor;
use crate::tensor::{Tensor, TensorView};

verus! {

/// The deserialized file of the `safetensors` crate.
#[verifier::external_type_specification]
#[verifier::external_body]
pub struct ExSafeTensors<'data>(SafeTensors<'data>);

/// A tensor of a checkpoint. The dtype is the name of how the elements are
/// stored, such as `F32`.
pub struct StTensor<'data> {
    pub dtype: String,
    pub shape: Vec<usize>,
    pub data: &'data [u8],
}

/// The contents of a [`StTensor`].
pub struct StView {
    pub dtype: Seq<char>,
    pub shape: Seq<usize>,
    pub data: Seq<u8>,
}

impl<'data> View for StTensor<'data> {
    type V = StView;

    open spec fn view(&self) -> StView {
        StView { dtype: self.dtype@, shape: self.shape@, data: self.data@ }
    }
}

impl StView {
    /// Whether the elements can be read.
    pub open spec fn supported(self) -> bool {
        self.dtype == "F32"@ || self.dtype == "F16"@ || self.dtype == "BF16"@
    }

    /// The number of bytes of an element that can be read.
    pub open spec fn element_len(self) -> int {
        if self.dtype == "F32"@ {
            4
        } else {
            2
        }
    }

    /// Whether the data are those of the shape.
    pub open spec fn sound(self) -> bool {
        self.supported() ==> {
            &&& tensor::countable(self.shape)
            &&& self.data.len() == tensor::numel_of(self.shape) * self.element_len()
        }
    }
}

/// The tensors that a deserialized file holds.
pub uninterp spec fn st_contents(st: SafeTensors<'_>) -> Map<Seq<char>, StView>;

/// The tensors of a file with the given bytes, if it is one.
pub uninterp spec fn st_parse(bytes: Seq<u8>) -> Option<Map<Seq<char>, StView>>;

/// Whether every tensor that the fields of a header of `len` bytes declare ends
/// where a file can: the length of the header's own field, the header and the
/// data together can be counted.
pub open spec fn ends_fit(fields: Seq<FieldView>, len: int) -> bool {
    forall|i: int|
        #![trigger fields[i]]
        0 <= i < fields.len() ==> match end_in(fields[i]) {
            Some(end) => end + 8 + len <= usize::MAX,
            None => true,
        }
}

/// Whether the header of a file, if it has one, declares no tensor that ends
/// beyond every possible file.
pub open spec fn countable_file(bytes: Seq<u8>) -> bool {
    let len = spec_u64_from_le_bytes(bytes.subrange(0, 8)) as int;
    bytes.len() >= 8 && 8 + len <= bytes.len() ==> match json_object(bytes.subrange(8, 8 + len)) {
        Some(Some(fields)) => ends_fit(fields, len),
        _ => true,
    }
}

/// The tensors of a file with the given bytes. A file with a tensor that ends
/// beyond every possible file is none.
pub open spec fn file_of(bytes: Seq<u8>) -> Option<Map<Seq<char>, StView>> {
    if countable_file(bytes) {
        st_parse(bytes)
    } else {
        None
    }
}

/// Deserializes a safetensors file.
///
/// Calls `SafeTensors::deserialize`, which parses the header and checks it
/// against the data. It adds the end of the last tensor, 8 and the length of the
/// header without a check, so that the sum has to fit. Whether it succeeds, and
/// what the file then holds, follow from the bytes; the data of each tensor are a
/// part of them.
#[verifier::external_body]
fn deserialize<'a>(bytes: &'a [u8]) -> (r: Result<SafeTensors<'a>, SafeTensorError>)
    requires
        countable_file(bytes@),
    ensures
        match r {
            Ok(st) => {
                &&& st_parse(bytes@) == Some(st_contents(st))
                &&& forall|name: Seq<char>| #[trigger]
                    st_contents(st).contains_key(name) ==> st_contents(st)[name].data.len()
                        <= bytes@.len()
            },
            Err(_) => st_parse(bytes@) is None,
        },
{
    SafeTensors::deserialize(bytes)
}

/// The error for a file that a declared tensor would end beyond, which is the one
/// for a header and data that disagree in length. A header that is wrong in other
/// ways too gets this error as well.
///
/// Makes a `SafeTensorError::MetadataIncompleteBuffer`; which error it is is not
/// stated here.
#[verifier::external_body]
fn incomplete() -> (e: SafeTensorError) {
    SafeTensorError::MetadataIncompleteBuffer
}

/// Whether the tensors that the fields of a header declare end where a file can.
pub fn check_ends(fields: &Vec<JsonField>, len: u64) -> (r: bool)
    requires
        8 + len <= usize::MAX,
    ensures
        r == ends_fit(fields_view(fields@), len as int),
{
    let ghost all = fields_view(fields@);
    let most: u64 = usize::MAX as u64 - 8 - len;
    let mut i: usize = 0;
    while i < fields.len()
        invariant
            i <= fields@.len(),
            all == fields_view(fields@),
            most + 8 + len == usize::MAX,
            forall|j: int|
                #![trigger all[j]]
                0 <= j < i ==> match end_in(all[j]) {
                    Some(end) => end + 8 + len <= usize::MAX,
                    None => true,
                },
        decreases fields@.len() - i,
    {
        assert(all[i as int] == fields@[i as int]@);
        if let Some(end) = declared_end(&fields[i]) {
            if end > most {
                return false;
            }
        }
        i += 1;
    }
    true
}

/// Whether the header of a file, if it has one, declares no tensor that ends
/// beyond every possible file.
pub fn is_countable(bytes: &[u8]) -> (r: bool)
    ensures
        r == countable_file(bytes@),
{
    let total: usize = bytes.len();
    let mut rest: &[u8] = bytes;
    let len: u64 = match read_u64(&mut rest) {
        Err(_) => {
            return true;
        },
        Ok(len) => len,
    };
    if len > total as u64 - 8 {
        return true;
    }
    let header = vstd::slice::slice_subrange(bytes, 8, 8 + len as usize);
    match parse_object(header) {
        Ok(Some(fields)) => check_ends(&fields, len),
        _ => true,
    }
}

/// Opens a safetensors file.
fn open_file<'a>(bytes: &'a [u8]) -> (r: Result<SafeTensors<'a>, MinqError>)
    ensures
        match r {
            Ok(st) => {
                &&& file_of(bytes@) == Some(st_contents(st))
                &&& forall|name: Seq<char>| #[trigger]
                    st_contents(st).contains_key(name) ==> st_contents(st)[name].data.len()
                        <= bytes@.len()
            },
            Err(e) => file_of(bytes@) is None && e@ == ErrorView::SafeTensor,
        },
{
    if !is_countable(bytes) {
        return Err(MinqError::SafeTensor(incomplete()));
    }
    match deserialize(bytes) {
        Err(e) => Err(MinqError::SafeTensor(e)),
        Ok(st) => Ok(st),
    }
}

/// The names of all tensors of a deserialized file.
///
/// Calls `SafeTensors::names`, which collects the keys of a hash map: each name
/// once, in no particular order.
#[verifier::external_body]
fn names(st: &SafeTensors) -> (names: Vec<String>)
    ensures
        forall|i: int| 0 <= i < names@.len() ==> st_contents(*st).contains_key((#[trigger] names@[i])@),
        forall|name: Seq<char>| #[trigger]
            st_contents(*st).contains_key(name) ==> exists|i: int|
                0 <= i < names@.len() && (#[trigger] names@[i])@ == name,
{
    st.names().into_iter().cloned().collect()
}

/// One tensor of a deserialized file.
///
/// Calls `SafeTensors::tensor`, which fails exactly if there is no tensor of
/// that name, and takes the view apart; the dtype is named by its `Debug` form,
/// which is the name of the variant of `Dtype`. Only `deserialize` makes a
/// `SafeTensors`, and it has checked that the product of the dimensions can be
/// counted and, times the size of an element, is the length of the data.
#[verifier::external_body]
fn find_tensor<'a>(st: &SafeTensors<'a>, name: &str) -> (r: Result<StTensor<'a>, SafeTensorError>)
    ensures
        match r {
            Ok(t) => {
                &&& st_contents(*st).contains_key(name@)
                &&& t@ == st_contents(*st)[name@]
                &&& t@.sound()
            },
            Err(_) => !st_contents(*st).contains_key(name@),
        },
{
    let view = st.tensor(name)?;
    Ok(StTensor {
        dtype: format!("{:?}", view.dtype()),
        shape: view.shape().to_vec(),
        data: view.data(),
    })
}

/// The 16-bit word of two little-endian bytes.
pub open spec fn word_of(low: u8, high: u8) -> int {
    low + 256 * high
}

/// The binary32 encoding of a binary16 number. The value is the same; a NaN
/// keeps its payload and becomes quiet.
pub open spec fn half_of(low: u8, high: u8) -> int {
    let w = word_of(low, high);
    let sign = w / 0x8000 * 0x8000_0000;
    let exp = w / 0x400 % 32;
    let man = w % 0x400;
    sign + if exp == 0 {
        bits::scaled_24_of(man as u32) as int
    } else if exp < 31 {
        (exp + 112) * 0x80_0000 + man * 0x2000
    } else if man == 0 || man >= 0x200 {
        0x7F80_0000 + man * 0x2000
    } else {
        0x7FC0_0000 + man * 0x2000
    }
}

/// The binary32 encoding of a bfloat16 number, which is its upper half. A NaN
/// becomes quiet.
pub open spec fn bf16_of(low: u8, high: u8) -> int {
    let w = word_of(low, high);
    if w % 0x8000 > 0x7F80 && w / 0x40 % 2 == 0 {
        (w + 0x40) * 0x1_0000
    } else {
        w * 0x1_0000
    }
}

/// The binary32 encoding of a binary16 number.
fn half_bits(low: u8, high: u8) -> (r: u32)
    ensures
        r == half_of(low, high),
{
    let w: u32 = low as u32 + 256 * high as u32;
    let sign: u32 = w / 0x8000 * 0x8000_0000;
    let exp: u32 = w / 0x400 % 32;
    let man: u32 = w % 0x400;
    if exp == 0 {
        sign + bits::scaled_24(man)
    } else if exp < 31 {
        sign + ((exp + 112) * 0x80_0000 + man * 0x2000)
    } else if man == 0 || man >= 0x200 {
        sign + (0x7F80_0000 + man * 0x2000)
    } else {
        sign + (0x7FC0_0000 + man * 0x2000)
    }
}

/// The binary32 encoding of a bfloat16 number.
///
/// Calls `half::bf16::from_le_bytes` and `half::bf16::to_f32`, which shifts the
/// encoding to the upper half, with the quiet bit of a NaN set.
#[verifier::external_body]
fn bf16_bits(low: u8, high: u8) -> (r: u32)
    ensures
        r == bf16_of(low, high),
{
    half::bf16::from_le_bytes([low, high]).to_f32().to_bits()
}

/// The elements of a tensor of a checkpoint that can be read.
pub open spec fn st_values(t: StView) -> Seq<u32> {
    if t.dtype == "F32"@ {
        crate::format::values_of(t.data)
    } else if t.dtype == "F16"@ {
        Seq::new(
            (t.data.len() as int / 2) as nat,
            |i: int| half_of(t.data[2 * i], t.data[2 * i + 1]) as u32,
        )
    } else {
        Seq::new(
            (t.data.len() as int / 2) as nat,
            |i: int| bf16_of(t.data[2 * i], t.data[2 * i + 1]) as u32,
        )
    }
}

/// The tensor that the elements of a checkpoint's tensor make up.
pub open spec fn dense_of(t: StView) -> TensorView {
    tensor::tensor_of(st_values(t), t.shape)
}

/// Converts one safetensors tensor (F32 / F16 / BF16) to a dense tensor.
pub fn st_to_tensor(st: &SafeTensors, name: &str) -> (r: Result<Tensor, MinqError>)
    ensures
        if !st_contents(*st).contains_key(name@) {
            r is Err && r->Err_0@ == ErrorView::SafeTensor
        } else if !st_contents(*st)[name@].supported() {
            r is Err && r->Err_0@ == ErrorView::Model(
                ModelErrorOf::UnsupportedDtype {
                    name: name@,
                    dtype: st_contents(*st)[name@].dtype,
                },
            )
        } else {
            r is Ok && r->Ok_0@ == dense_of(st_contents(*st)[name@]) && r->Ok_0@.wf()
        },
{
    match find_tensor(st, name) {
        Err(e) => Err(MinqError::SafeTensor(e)),
        Ok(t) => convert(t, name),
    }
}

/// Reads one tensor of a safetensors file.
pub fn read_tensor(bytes: &[u8], name: &str) -> (r: Result<Tensor, MinqError>)
    ensures
        match file_of(bytes@) {
            None => r is Err && r->Err_0@ == ErrorView::SafeTensor,
            Some(file) => if !file.contains_key(name@) {
                r is Err && r->Err_0@ == ErrorView::SafeTensor
            } else if !file[name@].supported() {
                r is Err && r->Err_0@ == ErrorView::Model(
                    ModelErrorOf::UnsupportedDtype { name: name@, dtype: file[name@].dtype },
                )
            } else {
                &&& r is Ok && r->Ok_0@ == dense_of(file[name@]) && r->Ok_0@.wf()
                &&& 2 * r->Ok_0@.data.len() <= bytes@.len()
            },
        },
{
    match open_file(bytes) {
        Err(e) => Err(e),
        Ok(st) => st_to_tensor(&st, name),
    }
}

/// Converts the bytes of a tensor to a dense tensor.
pub fn convert(t: StTensor, name: &str) -> (r: Result<Tensor, MinqError>)
    requires
        t@.sound(),
    ensures
        if !t@.supported() {
            r is Err && r->Err_0@ == ErrorView::Model(
                ModelErrorOf::UnsupportedDtype { name: name@, dtype: t.dtype@ },
            )
        } else {
            r is Ok && r->Ok_0@ == dense_of(t@) && r->Ok_0@.wf()
        },
{
    let data = t.data;
    let total: usize = data.len();
    let values: Vec<u32>;
    if t.dtype == "F32".to_owned() {
        values = crate::format::read_values(data);
    } else if t.dtype == "F16".to_owned() {
        let n: usize = total / 2;
        let mut halves: Vec<u32> = Vec::with_capacity(n);
        while halves.len() < n
            invariant
                halves@.len() <= n == total / 2,
                total == data@.len(),
                data@ == t@.data,
                t@.dtype != "F32"@,
                t@.dtype == "F16"@,
                forall|j: int| 0 <= j < halves@.len() ==> halves@[j] == st_values(t@)[j],
            decreases n - halves@.len(),
        {
            let i: usize = halves.len();
            halves.push(half_bits(data[2 * i], data[2 * i + 1]));
        }
        values = halves;
    } else if t.dtype == "BF16".to_owned() {
        let n: usize = total / 2;
        let mut halves: Vec<u32> = Vec::with_capacity(n);
        while halves.len() < n
            invariant
                halves@.len() <= n == total / 2,
                total == data@.len(),
                data@ == t@.data,
                t@.dtype != "F32"@,
                t@.dtype != "F16"@,
                forall|j: int| 0 <= j < halves@.len() ==> halves@[j] == st_values(t@)[j],
            decreases n - halves@.len(),
        {
            let i: usize = halves.len();
            halves.push(bf16_bits(data[2 * i], data[2 * i + 1]));
        }
        values = halves;
    } else {
        return Err(
            MinqError::Model(
                ModelErrorOf::UnsupportedDtype { name: name.to_owned(), dtype: t.dtype },
            ),
        );
    }
    assert(values@ =~= st_values(t@));
    Tensor::new(values, t.shape)
}

/// What is found under a name when the tensors of a file are added to weights.
pub open spec fn found_after(
    before: Seq<Record>,
    file: Map<Seq<char>, StView>,
    name: Seq<char>,
) -> Option<WeightView> {
    if file.contains_key(name) {
        Some(WeightView::F32(dense_of(file[name])))
    } else {
        load::find(before, name)
    }
}

/// Whether weights are followed by tensors of a file that can be read, and by
/// nothing else.
pub open spec fn followed_by(
    before: Seq<Record>,
    after: Seq<Record>,
    file: Map<Seq<char>, StView>,
) -> bool {
    &&& before.len() <= after.len()
    &&& after.subrange(0, before.len() as int) == before
    &&& forall|i: int|
        before.len() <= i < after.len() ==> {
            &&& file.contains_key((#[trigger] after[i]).0)
            &&& file[after[i].0].supported()
            &&& after[i].1 == WeightView::F32(dense_of(file[after[i].0]))
        }
}

/// Whether every tensor of a file can be read.
pub open spec fn readable(file: Map<Seq<char>, StView>) -> bool {
    forall|name: Seq<char>| #[trigger]
        file.contains_key(name) ==> file[name].supported()
}

proof fn lemma_find_push(weights: Seq<Record>, record: Record, name: Seq<char>)
    ensures
        load::find(weights.push(record), name) == if record.0 == name {
            Some(record.1)
        } else {
            load::find(weights, name)
        },
{
    assert(weights.push(record).drop_last() =~= weights);
}

/// Adds the tensors of a safetensors file to the weights read so far. A name
/// that occurs again stands for the newer tensor.
pub fn add_file(weights: &mut Vec<(String, WeightTensor)>, bytes: &[u8]) -> (r: Result<
    (),
    MinqError,
>)
    ensures
        match file_of(bytes@) {
            None => r is Err && r->Err_0@ == ErrorView::SafeTensor && final(weights)@ == old(
                weights,
            )@,
            Some(file) => {
                &&& r is Ok <==> readable(file)
                &&& followed_by(
                    crate::format::records_view(old(weights)@),
                    crate::format::records_view(final(weights)@),
                    file,
                )
                &&& r is Ok ==> forall|name: Seq<char>|
                    load::find(#[trigger] crate::format::records_view(final(weights)@), name)
                        == found_after(crate::format::records_view(old(weights)@), file, name)
                &&& r is Err ==> exists|name: Seq<char>|
                    {
                        &&& #[trigger] file.contains_key(name)
                        &&& !file[name].supported()
                        &&& r->Err_0@ == ErrorView::Model(
                            ModelErrorOf::UnsupportedDtype { name, dtype: file[name].dtype },
                        )
                    }
            },
        },
{
    let st = match open_file(bytes) {
        Err(e) => {
            return Err(e);
        },
        Ok(st) => st,
    };
    let ghost file = st_contents(st);
    let ghost before = crate::format::records_view(weights@);
    let all = names(&st);
    let mut i: usize = 0;
    assert(before.subrange(0, before.len() as int) =~= before);
    while i < all.len()
        invariant
            i <= all@.len(),
            file == st_contents(st),
            file_of(bytes@) == Some(file),
            before == crate::format::records_view(old(weights)@),
            followed_by(before, crate::format::records_view(weights@), file),
            forall|j: int| 0 <= j < all@.len() ==> file.contains_key((#[trigger] all@[j])@),
            forall|j: int| 0 <= j < i ==> file[(#[trigger] all@[j])@].supported(),
            forall|name: Seq<char>|
                load::find(#[trigger] crate::format::records_view(weights@), name) == (if exists|
                    j: int,
                | 0 <= j < i && (#[trigger] all@[j])@ == name {
                    Some(WeightView::F32(dense_of(file[name])))
                } else {
                    load::find(before, name)
                }),
        decreases all@.len() - i,
    {
        let name = all[i].clone();
        let ghost prev = crate::format::records_view(weights@);
        assert(file.contains_key(all@[i as int]@));
        match st_to_tensor(&st, name.as_str()) {
            Err(e) => {
                return Err(e);
            },
            Ok(t) => {
                weights.push((name, WeightTensor::F32(t)));
                proof {
                    let record = (name@, WeightView::F32(t@));
                    let now = crate::format::records_view(weights@);
                    assert(now =~= prev.push(record));
                    assert(now.subrange(0, before.len() as int) =~= prev.subrange(
                        0,
                        before.len() as int,
                    ));
                    assert forall|other: Seq<char>|
                        load::find(#[trigger] crate::format::records_view(weights@), other) == (
                        if exists|j: int| 0 <= j < i + 1 && (#[trigger] all@[j])@ == other {
                            Some(WeightView::F32(dense_of(file[other])))
                        } else {
                            load::find(before, other)
                        }) by {
                        lemma_find_push(prev, record, other);
                        assert(load::find(prev, other) == (if exists|j: int|
                            0 <= j < i && (#[trigger] all@[j])@ == other {
                            Some(WeightView::F32(dense_of(file[other])))
                        } else {
                            load::find(before, other)
                        }));
                        if other == name@ {
                            assert(all@[i as int]@ == other);
                        }
                        if exists|j: int| 0 <= j < i + 1 && (#[trigger] all@[j])@ == other {
                            let j = choose|j: int| 0 <= j < i + 1 && (#[trigger] all@[j])@ == other;
                            if j < i {
                                assert(all@[j]@ == other);
                            }
                        }
                    }
                }
            },
        }
        i += 1;
    }
    proof {
        assert(readable(file)) by {
            assert forall|name: Seq<char>| #[trigger] file.contains_key(name) implies
                file[name].supported() by {
                let j = choose|j: int| 0 <= j < all@.len() && (#[trigger] all@[j])@ == name;
                assert(file[all@[j]@].supported());
            }
        }
        assert forall|name: Seq<char>|
            load::find(#[trigger] crate::format::records_view(weights@), name) == found_after(
                before,
                file,
                name,
            ) by {
            if exists|j: int| 0 <= j < i && (#[trigger] all@[j])@ == name {
                let j = choose|j: int| 0 <= j < i && (#[trigger] all@[j])@ == name;
                assert(file.contains_key(all@[j]@));
            }
        }
    }
    Ok(())
}

/// The config of a dense model: biases are there if the first layer has one.
pub open spec fn dense_config(c: ConfigView, w: Seq<Record>) -> ConfigView {
    ConfigView {
        has_qkv_bias: load::find(w, "model.layers.0.self_attn.q_proj.bias"@) is Some,
        dtype: "f32"@,
        ..c
    }
}

/// Assembles a dense model from the weights of a checkpoint.
pub fn load_safetensors<A: Arith>(config: ModelConfig, weights: &Vec<(String, WeightTensor)>) -> (r:
    Result<Model, MinqError>)
    requires
        ({
            let w = crate::format::records_view(weights@);
            load::divisible(dense_config(config@, w), w)
        }),
    ensures
        ({
            let w = crate::format::records_view(weights@);
            let c = dense_config(config@, w);
            match load::assemble_error(c, w) {
                Some(e) => r is Err && r->Err_0@ == e,
                None => r is Ok && load::assembled::<A>(c, w, r->Ok_0@),
            }
        }),
{
    let bias = "model.layers.0.self_attn.q_proj.bias".to_owned();
    let mut config = config;
    config.has_qkv_bias = load::has_weight(weights, &bias);
    config.dtype = "f32".to_owned();
    load::assemble::<A>(&config, weights)
}

/// The counts in a JSON value, if it is an array.
pub type Counts = Option<Vec<Option<u64>>>;

/// The contents of [`Counts`].
pub type CountsView = Option<Seq<Option<u64>>>;

/// The contents of [`Counts`].
pub open spec fn counts_view(counts: Counts) -> CountsView {
    match counts {
        Some(c) => Some(c@),
        None => None,
    }
}

/// A value inside a JSON object: its key, and the counts in it.
pub struct JsonPart {
    pub key: String,
    pub counts: Counts,
}

/// The contents of a [`JsonPart`].
pub struct PartView {
    pub key: Seq<char>,
    pub counts: CountsView,
}

impl View for JsonPart {
    type V = PartView;

    open spec fn view(&self) -> PartView {
        PartView { key: self.key@, counts: counts_view(self.counts) }
    }
}

/// A field of a JSON object: its value as a count and as a binary64 bit pattern,
/// if it is a number, the values inside, if it is an object, and the counts in the
/// values inside, if it is an array.
pub struct JsonField {
    pub key: String,
    pub count: Option<u64>,
    pub number: Option<u64>,
    pub parts: Vec<JsonPart>,
    pub items: Vec<Counts>,
}

/// The contents of a [`JsonField`].
pub struct FieldView {
    pub key: Seq<char>,
    pub count: Option<u64>,
    pub number: Option<u64>,
    pub parts: Seq<PartView>,
    pub items: Seq<CountsView>,
}

/// The contents of a list of parts.
pub open spec fn parts_view(parts: Seq<JsonPart>) -> Seq<PartView> {
    parts.map_values(|p: JsonPart| p@)
}

/// The contents of a list of counts.
pub open spec fn items_view(items: Seq<Counts>) -> Seq<CountsView> {
    items.map_values(|c: Counts| counts_view(c))
}

impl View for JsonField {
    type V = FieldView;

    open spec fn view(&self) -> FieldView {
        FieldView {
            key: self.key@,
            count: self.count,
            number: self.number,
            parts: parts_view(self.parts@),
            items: items_view(self.items@),
        }
    }
}

/// The contents of a list of fields.
pub open spec fn fields_view(fields: Seq<JsonField>) -> Seq<FieldView> {
    fields.map_values(|f: JsonField| f@)
}

/// The fields of the object that a JSON text is: nothing if the text is not
/// JSON, and nothing inside if it is something else than an object.
pub uninterp spec fn json_object(text: Seq<u8>) -> Option<Option<Seq<FieldView>>>;

/// Parses a JSON text.
///
/// Calls `serde_json::from_slice` for a `Value`, and `as_object`,
/// `as_array`, `as_u64` and `as_f64` to take the value apart. What comes back
/// follows from the text.
#[verifier::external_body]
fn parse_object(text: &[u8]) -> (r: Result<Option<Vec<JsonField>>, serde_json::Error>)
    ensures
        match r {
            Err(_) => json_object(text@) is None,
            Ok(None) => json_object(text@) == Some(None::<Seq<FieldView>>),
            Ok(Some(fields)) => json_object(text@) == Some(Some(fields_view(fields@))),
        },
{
    let value: Value = serde_json::from_slice(text)?;
    let counts = |v: &Value| v.as_array().map(|a| a.iter().map(Value::as_u64).collect());
    Ok(value.as_object().map(|o| o.iter().map(|(key, v)| JsonField {
        key: key.clone(),
        count: v.as_u64(),
        number: v.as_f64().map(|n| n.to_bits()),
        parts: v.as_object().into_iter().flatten().map(|(key, p)| JsonPart {
            key: key.clone(),
            counts: counts(p),
        }).collect(),
        items: v.as_array().into_iter().flatten().map(counts).collect(),
    }).collect()))
}

/// The first part with the given key.
pub open spec fn part_of(parts: Seq<PartView>, key: Seq<char>) -> Option<PartView>
    decreases parts.len(),
{
    if parts.len() == 0 {
        None
    } else if parts[0].key == key {
        Some(parts[0])
    } else {
        part_of(parts.drop_first(), key)
    }
}

/// What a tensor's declaration says of where its data lie: under the key
/// `data_offsets` of an object, or third in an array.
pub open spec fn offsets_in(field: FieldView) -> CountsView {
    match part_of(field.parts, "data_offsets"@) {
        Some(p) => p.counts,
        None => if field.items.len() > 2 {
            field.items[2]
        } else {
            None
        },
    }
}

/// Where the data of a declared tensor end: the second of its offsets.
pub open spec fn end_in(field: FieldView) -> Option<u64> {
    match offsets_in(field) {
        Some(c) => if c.len() > 1 {
            c[1]
        } else {
            None
        },
        None => None,
    }
}

fn part<'a>(parts: &'a Vec<JsonPart>, key: &str) -> (r: Option<&'a JsonPart>)
    ensures
        match part_of(parts_view(parts@), key@) {
            Some(p) => r is Some && r->Some_0@ == p,
            None => r is None,
        },
{
    let ghost all = parts_view(parts@);
    let wanted = key.to_owned();
    let mut i: usize = 0;
    assert(all.subrange(0, all.len() as int) =~= all);
    while i < parts.len()
        invariant
            i <= parts@.len(),
            all == parts_view(parts@),
            wanted@ == key@,
            part_of(all, key@) == part_of(all.subrange(i as int, all.len() as int), key@),
        decreases parts@.len() - i,
    {
        proof {
            let rest = all.subrange(i as int, all.len() as int);
            assert(rest[0] == all[i as int]);
            assert(rest.drop_first() =~= all.subrange(i + 1, all.len() as int));
        }
        if parts[i].key == wanted {
            return Some(&parts[i]);
        }
        i += 1;
    }
    None
}

/// Where the data of a declared tensor end.
pub fn declared_end(field: &JsonField) -> (r: Option<u64>)
    ensures
        r == end_in(field@),
{
    let offsets: &Counts = match part(&field.parts, "data_offsets") {
        Some(p) => &p.counts,
        None => {
            if field.items.len() <= 2 {
                return None;
            }
            &field.items[2]
        },
    };
    match offsets {
        None => None,
        Some(c) => {
            if c.len() > 1 {
                c[1]
            } else {
                None
            }
        },
    }
}

/// The first field with the given key.
pub open spec fn field_of(fields: Seq<FieldView>, key: Seq<char>) -> Option<FieldView>
    decreases fields.len(),
{
    if fields.len() == 0 {
        None
    } else if fields[0].key == key {
        Some(fields[0])
    } else {
        field_of(fields.drop_first(), key)
    }
}

/// The count under a key.
pub open spec fn count_at(fields: Seq<FieldView>, key: Seq<char>) -> Option<usize> {
    match field_of(fields, key) {
        Some(f) => match f.count {
            Some(n) => Some(n as usize),
            None => None,
        },
        None => None,
    }
}

/// The number under a key, as a binary32 bit pattern.
pub open spec fn number_at<A: Arith>(fields: Seq<FieldView>, key: Seq<char>) -> Option<u32> {
    match field_of(fields, key) {
        Some(f) => match f.number {
            Some(n) => Some(arith::narrow_of::<A>(n)),
            None => None,
        },
        None => None,
    }
}

fn field<'a>(fields: &'a Vec<JsonField>, key: &str) -> (r: Option<&'a JsonField>)
    ensures
        match field_of(fields_view(fields@), key@) {
            Some(f) => r is Some && r->Some_0@ == f,
            None => r is None,
        },
{
    let ghost all = fields_view(fields@);
    let wanted = key.to_owned();
    let mut i: usize = 0;
    assert(all.subrange(0, all.len() as int) =~= all);
    while i < fields.len()
        invariant
            i <= fields@.len(),
            all == fields_view(fields@),
            wanted@ == key@,
            field_of(all, key@) == field_of(all.subrange(i as int, all.len() as int), key@),
        decreases fields@.len() - i,
    {
        proof {
            let rest = all.subrange(i as int, all.len() as int);
            assert(rest[0] == all[i as int]);
            assert(rest.drop_first() =~= all.subrange(i + 1, all.len() as int));
        }
        if fields[i].key == wanted {
            return Some(&fields[i]);
        }
        i += 1;
    }
    None
}

fn count(fields: &Vec<JsonField>, key: &str) -> (r: Option<usize>)
    ensures
        r == count_at(fields_view(fields@), key@),
{
    match field(fields, key) {
        None => None,
        Some(f) => match f.count {
            None => None,
            Some(n) => Some(n as usize),
        },
    }
}

fn needed_count(fields: &Vec<JsonField>, key: &str) -> (r: Result<usize, MinqError>)
    ensures
        match count_at(fields_view(fields@), key@) {
            Some(n) => r is Ok && r->Ok_0 == n,
            None => r is Err && r->Err_0@ == ErrorView::Model(
                ModelErrorOf::MissingKey { key: key@ },
            ),
        },
{
    match count(fields, key) {
        Some(n) => Ok(n),
        None => Err(MinqError::Model(ModelErrorOf::MissingKey { key: key.to_owned() })),
    }
}

fn number<A: Arith>(fields: &Vec<JsonField>, key: &str, default: u32) -> (r: u32)
    ensures
        number_at::<A>(fields_view(fields@), key@) is None ==> r == default,
        arith::deterministic::<A>() ==> match number_at::<A>(fields_view(fields@), key@) {
            Some(n) => r == n,
            None => r == default,
        },
{
    match field(fields, key) {
        None => default,
        Some(f) => match f.number {
            None => default,
            Some(n) => A::narrow(n),
        },
    }
}

/// `10000.0`: the rotary base of a config that names none.
pub const DEFAULT_THETA: u32 = 0x461C_4000;

/// `1e-6`: the normalization epsilon of a config that names none.
pub const DEFAULT_EPS: u32 = 0x3586_37BD;

/// The context length of a config that names none.
pub const DEFAULT_MAX_SEQ_LEN: usize = 4096;

/// A key that must be there.
pub open spec fn missing(fields: Seq<FieldView>, key: Seq<char>) -> Option<ErrorView> {
    if count_at(fields, key) is None {
        Some(ErrorView::Model(ModelErrorOf::MissingKey { key }))
    } else {
        None
    }
}

/// Why a config lacks what comes before the width of the heads.
pub open spec fn early_error(f: Seq<FieldView>) -> Option<ErrorView> {
    load::earlier(
        load::earlier(missing(f, "hidden_size"@), missing(f, "num_attention_heads"@)),
        load::earlier(missing(f, "intermediate_size"@), missing(f, "num_hidden_layers"@)),
    )
}

/// A count with a default.
pub open spec fn count_or(f: Seq<FieldView>, key: Seq<char>, default: usize) -> usize {
    match count_at(f, key) {
        Some(n) => n,
        None => default,
    }
}

/// The heads that the fields of a config describe.
pub open spec fn heads_of(f: Seq<FieldView>) -> Heads {
    let heads = count_at(f, "num_attention_heads"@)->Some_0;
    let hidden = count_at(f, "hidden_size"@)->Some_0;
    Heads {
        n_heads: heads,
        n_kv_heads: count_or(f, "num_key_value_heads"@, heads),
        head_dim: count_or(f, "head_dim"@, hidden / heads),
    }
}

/// The config that the fields describe, if none that must be there is missing.
pub open spec fn config_of<A: Arith>(f: Seq<FieldView>) -> ConfigView {
    ConfigView {
        hidden_size: count_at(f, "hidden_size"@)->Some_0,
        intermediate_size: count_at(f, "intermediate_size"@)->Some_0,
        n_layers: count_at(f, "num_hidden_layers"@)->Some_0,
        heads: heads_of(f),
        vocab_size: count_at(f, "vocab_size"@)->Some_0,
        max_seq_len: count_or(f, "max_position_embeddings"@, DEFAULT_MAX_SEQ_LEN),
        rope_theta: match number_at::<A>(f, "rope_theta"@) {
            Some(n) => n,
            None => DEFAULT_THETA,
        },
        rms_norm_eps: match number_at::<A>(f, "rms_norm_eps"@) {
            Some(n) => n,
            None => DEFAULT_EPS,
        },
        has_qkv_bias: false,
        dtype: "f32"@,
    }
}

/// Whether a config with the given fields declares heads that its width can be
/// divided by, unless it fails before.
pub open spec fn has_heads(f: Seq<FieldView>) -> bool {
    early_error(f) is None ==> count_at(f, "num_attention_heads"@) != Some(0usize)
}

/// The config that the fields of a HuggingFace `config.json` describe (LLaMA /
/// Qwen2 field names). Biases are refined later from the presence of tensors.
pub fn config_from_fields<A: Arith>(fields: &Vec<JsonField>) -> (r: Result<ModelConfig, MinqError>)
    requires
        has_heads(fields_view(fields@)),
    ensures
        ({
            let f = fields_view(fields@);
            match load::earlier(early_error(f), missing(f, "vocab_size"@)) {
                Some(e) => r is Err && r->Err_0@ == e,
                None => {
                    let c = r->Ok_0@;
                    let exact = config_of::<A>(f);
                    &&& r is Ok
                    &&& arith::deterministic::<A>() ==> c == exact
                    &&& c == (ConfigView {
                        rope_theta: c.rope_theta,
                        rms_norm_eps: c.rms_norm_eps,
                        ..exact
                    })
                    &&& number_at::<A>(f, "rope_theta"@) is None ==> c.rope_theta == DEFAULT_THETA
                    &&& number_at::<A>(f, "rms_norm_eps"@) is None ==> c.rms_norm_eps == DEFAULT_EPS
                },
            }
        }),
{
    let hidden_size: usize = match needed_count(fields, "hidden_size") {
        Err(e) => {
            return Err(e);
        },
        Ok(n) => n,
    };
    let n_heads: usize = match needed_count(fields, "num_attention_heads") {
        Err(e) => {
            return Err(e);
        },
        Ok(n) => n,
    };
    let intermediate_size: usize = match needed_count(fields, "intermediate_size") {
        Err(e) => {
            return Err(e);
        },
        Ok(n) => n,
    };
    let n_layers: usize = match needed_count(fields, "num_hidden_layers") {
        Err(e) => {
            return Err(e);
        },
        Ok(n) => n,
    };
    let n_kv_heads: usize = match count(fields, "num_key_value_heads") {
        Some(n) => n,
        None => n_heads,
    };
    let head_dim: usize = match count(fields, "head_dim") {
        Some(n) => n,
        None => hidden_size / n_heads,
    };
    let vocab_size: usize = match needed_count(fields, "vocab_size") {
        Err(e) => {
            return Err(e);
        },
        Ok(n) => n,
    };
    let max_seq_len: usize = match count(fields, "max_position_embeddings") {
        Some(n) => n,
        None => DEFAULT_MAX_SEQ_LEN,
    };
    Ok(
        ModelConfig {
            hidden_size,
            intermediate_size,
            n_layers,
            n_heads,
            n_kv_heads,
            head_dim,
            vocab_size,
            max_seq_len,
            rope_theta: number::<A>(fields, "rope_theta", DEFAULT_THETA),
            rms_norm_eps: number::<A>(fields, "rms_norm_eps", DEFAULT_EPS),
            has_qkv_bias: false,
            dtype: "f32".to_owned(),
        },
    )
}

/// The fields of a JSON text that may be something else than an object, which
/// has none.
pub open spec fn fields_or_none(object: Option<Seq<FieldView>>) -> Seq<FieldView> {
    match object {
        Some(f) => f,
        None => Seq::empty(),
    }
}

/// Parses a HuggingFace `config.json` (LLaMA / Qwen2 field names). A config
/// that declares no attention heads is refused.
pub fn hf_config<A: Arith>(text: &str) -> (r: Result<ModelConfig, MinqError>)
    ensures
        match json_object(encode_utf8(text@)) {
            None => r is Err && r->Err_0@ == ErrorView::Json,
            Some(object) => {
                let f = fields_or_none(object);
                if !has_heads(f) {
                    r is Err && r->Err_0@ == ErrorView::Model(ModelErrorOf::ZeroHeads)
                } else {
                    match load::earlier(early_error(f), missing(f, "vocab_size"@)) {
                        Some(e) => r is Err && r->Err_0@ == e,
                        None => {
                            let c = r->Ok_0@;
                            let exact = config_of::<A>(f);
                            &&& r is Ok
                            &&& arith::deterministic::<A>() ==> c == exact
                            &&& c == (ConfigView {
                                rope_theta: c.rope_theta,
                                rms_norm_eps: c.rms_norm_eps,
                                ..exact
                            })
                            &&& number_at::<A>(f, "rope_theta"@) is None ==> c.rope_theta
                                == DEFAULT_THETA
                            &&& number_at::<A>(f, "rms_norm_eps"@) is None ==> c.rms_norm_eps
                                == DEFAULT_EPS
                        },
                    }
                }
            },
        },
{
    let fields: Vec<JsonField> = match parse_object(text.as_bytes()) {
        Err(e) => {
            return Err(MinqError::Json(e));
        },
        Ok(Some(fields)) => fields,
        Ok(None) => {
            let none: Vec<JsonField> = Vec::new();
            assert(fields_view(none@) =~= Seq::empty());
            none
        },
    };
    if count(&fields, "hidden_size").is_some() && count(&fields, "intermediate_size").is_some()
        && count(&fields, "num_hidden_layers").is_some() {
        if let Some(0) = count(&fields, "num_attention_heads") {
            return Err(MinqError::Model(ModelErrorOf::ZeroHeads));
        }
    }
    config_from_fields::<A>(&fields)
}

/// The longest safetensors header that is taken for genuine: 64 MiB.
pub const MAX_HEADER_LEN: u64 = 0x400_0000;

/// Why the start of a safetensors file gives no header.
pub open spec fn header_error(prefix: Seq<u8>) -> Option<ErrorView> {
    if prefix.len() < 8 {
        Some(ErrorView::Io)
    } else {
        let header_len = spec_u64_from_le_bytes(prefix.subrange(0, 8));
        if header_len > MAX_HEADER_LEN {
            Some(ErrorView::Model(ModelErrorOf::HeaderTooLong { header_len }))
        } else {
            None
        }
    }
}

/// The length of a safetensors file's header, from the first 8 bytes. The
/// header JSON is tiny in practice; a cap rejects corrupt files before anything
/// is allocated.
pub fn safetensors_header_len(prefix: &[u8]) -> (r: Result<u64, MinqError>)
    ensures
        match header_error(prefix@) {
            Some(e) => r is Err && r->Err_0@ == e,
            None => r is Ok && r->Ok_0 == spec_u64_from_le_bytes(prefix@.subrange(0, 8)),
        },
{
    let mut rest: &[u8] = prefix;
    match read_u64(&mut rest) {
        Err(e) => Err(e),
        Ok(header_len) => {
            if header_len > MAX_HEADER_LEN {
                return Err(MinqError::Model(ModelErrorOf::HeaderTooLong { header_len }));
            }
            Ok(header_len)
        },
    }
}

/// The keys of all fields but the metadata.
pub open spec fn tensor_keys(fields: Seq<FieldView>) -> Seq<Seq<char>>
    decreases fields.len(),
{
    if fields.len() == 0 {
        Seq::empty()
    } else {
        let front = tensor_keys(fields.drop_last());
        if fields.last().key == "__metadata__"@ {
            front
        } else {
            front.push(fields.last().key)
        }
    }
}

/// The names of the tensors that a header's fields declare.
pub fn names_from_fields(fields: &Vec<JsonField>) -> (names: Vec<String>)
    ensures
        crate::error::names_view(names@) == tensor_keys(fields_view(fields@)),
{
    let metadata = "__metadata__".to_owned();
    let ghost all = fields_view(fields@);
    let mut names: Vec<String> = Vec::new();
    let mut i: usize = 0;
    assert(crate::error::names_view(names@) =~= tensor_keys(all.subrange(0, 0)));
    while i < fields.len()
        invariant
            i <= fields@.len(),
            all == fields_view(fields@),
            metadata@ == "__metadata__"@,
            crate::error::names_view(names@) == tensor_keys(all.subrange(0, i as int)),
        decreases fields@.len() - i,
    {
        let ghost before = crate::error::names_view(names@);
        proof {
            let next = all.subrange(0, i + 1);
            assert(next.drop_last() =~= all.subrange(0, i as int));
            assert(next.last() == all[i as int]);
        }
        if fields[i].key != metadata {
            let key = fields[i].key.clone();
            names.push(key);
            assert(crate::error::names_view(names@) =~= before.push(key@));
        }
        i += 1;
    }
    assert(all.subrange(0, i as int) =~= all);
    names
}

/// The tensor names of a safetensors file, from its first bytes: the length of
/// the header and the header itself, without any weight data. Used to plan a
/// streaming export.
pub fn scan_safetensors_names(prefix: &[u8]) -> (r: Result<Vec<String>, MinqError>)
    ensures
        match header_error(prefix@) {
            Some(e) => r is Err && r->Err_0@ == e,
            None => {
                let len = spec_u64_from_le_bytes(prefix@.subrange(0, 8));
                if 8 + len > prefix@.len() {
                    r is Err && r->Err_0@ == ErrorView::Io
                } else {
                    match json_object(prefix@.subrange(8, 8 + len)) {
                        None => r is Err && r->Err_0@ == ErrorView::Json,
                        Some(None) => r is Err && r->Err_0@ == ErrorView::Model(
                            ModelErrorOf::BadHeader,
                        ),
                        Some(Some(fields)) => r is Ok && crate::error::names_view(r->Ok_0@)
                            == tensor_keys(fields),
                    }
                }
            },
        },
{
    let len: u64 = match safetensors_header_len(prefix) {
        Err(e) => {
            return Err(e);
        },
        Ok(len) => len,
    };
    let total: usize = prefix.len();
    if 8 + len > total as u64 {
        return Err(MinqError::Io(crate::format::unexpected_eof()));
    }
    let header = vstd::slice::slice_subrange(prefix, 8, 8 + len as usize);
    match parse_object(header) {
        Err(e) => Err(MinqError::Json(e)),
        Ok(None) => Err(MinqError::Model(ModelErrorOf::BadHeader)),
        Ok(Some(fields)) => Ok(names_from_fields(&fields)),
    }
}

} // verus!
