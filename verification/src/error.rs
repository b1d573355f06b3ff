//! Error values shared by all modules.
//!
//! Each error carries the numbers and names that its message needs, not the
//! message itself, so that a contract can say exactly which error comes back.
//! The enums are generic in how they hold a name (`N`), a shape (`S`) and a
//! list of names (`L`): the executable ones own strings and vectors, and their
//! views hold sequences.

use safetensors::SafeTensorError;
use vstd::prelude::*;

verus! {

/// The error type of `std::io`, carried through for callers that do I/O.
#[verifier::external_type_specification]
#[verifier::external_body]
pub struct ExIoError(std::io::Error);

/// The error type of the `safetensors` crate, carried through.
#[verifier::external_type_specification]
#[verifier::external_body]
pub struct ExSafeTensorError(SafeTensorError);

/// The error type of the `serde_json` crate, carried through.
#[verifier::external_type_specification]
#[verifier::external_body]
pub struct ExJsonError(serde_json::Error);

/// The parts of a `.minq` file whose extent is checked before they are read.
#[derive(Clone, Copy, Debug, PartialEq, Eq, Structural)]
pub enum Field {
    Magic,
    ConfigLength,
    ConfigJson,
    NameLength,
    Name,
    TagAndRank,
    Shape,
    DataLength,
    Data,
}

/// Operands whose sizes do not fit together.
#[derive(Debug)]
pub enum ShapeErrorOf<S> {
    /// A shape implies `numel` elements, but `len` were given.
    Elements { shape: S, numel: usize, len: usize },
    /// A row was asked of a tensor that is not a matrix.
    RowOfNonMatrix { shape: S },
    /// A row index at or beyond the number of rows.
    RowOutOfBounds { row: usize, rows: usize },
    /// Two matrices that cannot be multiplied.
    Matmul { left: S, right: S },
    /// A matrix and a vector that cannot be multiplied.
    Matvec { shape: S, len: usize },
    /// A block-quantized matrix and a vector that cannot be multiplied.
    QuantMatvec { cols: usize, len: usize },
    /// A number of elements that is not a whole number of blocks.
    NotWholeBlocks { len: usize },
    /// Block bytes and an output whose sizes disagree.
    Dequantize { bytes: usize, outputs: usize },
    /// A tensor that cannot be block-quantized.
    NotQuantizable { shape: S },
}

pub type ShapeError = ShapeErrorOf<Vec<usize>>;

impl View for ShapeErrorOf<Vec<usize>> {
    type V = ShapeErrorOf<Seq<usize>>;

    open spec fn view(&self) -> ShapeErrorOf<Seq<usize>> {
        match *self {
            ShapeErrorOf::Elements { shape, numel, len } => ShapeErrorOf::Elements {
                shape: shape@,
                numel,
                len,
            },
            ShapeErrorOf::RowOfNonMatrix { shape } => ShapeErrorOf::RowOfNonMatrix {
                shape: shape@,
            },
            ShapeErrorOf::RowOutOfBounds { row, rows } => ShapeErrorOf::RowOutOfBounds {
                row,
                rows,
            },
            ShapeErrorOf::Matmul { left, right } => ShapeErrorOf::Matmul {
                left: left@,
                right: right@,
            },
            ShapeErrorOf::Matvec { shape, len } => ShapeErrorOf::Matvec { shape: shape@, len },
            ShapeErrorOf::QuantMatvec { cols, len } => ShapeErrorOf::QuantMatvec { cols, len },
            ShapeErrorOf::NotWholeBlocks { len } => ShapeErrorOf::NotWholeBlocks { len },
            ShapeErrorOf::Dequantize { bytes, outputs } => ShapeErrorOf::Dequantize {
                bytes,
                outputs,
            },
            ShapeErrorOf::NotQuantizable { shape } => ShapeErrorOf::NotQuantizable {
                shape: shape@,
            },
        }
    }
}

/// Bytes that are not a `.minq` file, or a dtype name that does not exist.
#[derive(Debug)]
pub enum FormatErrorOf<N, S> {
    /// A length field that overflows the read position.
    LengthOverflow { what: Field },
    /// A length field that points beyond the end of the file.
    BeyondEnd { what: Field, len: u64, offset: u64, file_len: u64 },
    /// Neither the current nor the legacy magic.
    BadMagic,
    /// A tensor name that is not UTF-8: how many of its bytes are valid before
    /// the first that is not, and how many are wrong there, unless it just ends
    /// too early.
    InvalidName { valid: usize, wrong: Option<usize> },
    /// A dimension that does not fit the machine word.
    DimensionTooLarge { name: N, dim: u64 },
    /// A shape whose element count overflows.
    ShapeOverflow { name: N, shape: S },
    /// A quantized tensor that is not 2-D.
    NotTwoDim { name: N, shape: S },
    /// A quantized tensor whose rows are not whole blocks.
    NotBlockAligned { name: N, cols: u64 },
    /// A storage tag that stands for nothing.
    UnknownTag { name: N, tag: u8 },
    /// A shape whose byte count overflows.
    ByteCountOverflow { name: N },
    /// A data length that does not follow from the shape.
    DataLength { name: N, data_len: u64, expected: u64 },
    /// A quantization dtype name that does not exist.
    UnknownDtype { name: N },
}

pub type FormatError = FormatErrorOf<String, Vec<usize>>;

impl View for FormatErrorOf<String, Vec<usize>> {
    type V = FormatErrorOf<Seq<char>, Seq<usize>>;

    open spec fn view(&self) -> FormatErrorOf<Seq<char>, Seq<usize>> {
        match *self {
            FormatErrorOf::LengthOverflow { what } => FormatErrorOf::LengthOverflow { what },
            FormatErrorOf::BeyondEnd { what, len, offset, file_len } => FormatErrorOf::BeyondEnd {
                what,
                len,
                offset,
                file_len,
            },
            FormatErrorOf::BadMagic => FormatErrorOf::BadMagic,
            FormatErrorOf::InvalidName { valid, wrong } => FormatErrorOf::InvalidName {
                valid,
                wrong,
            },
            FormatErrorOf::DimensionTooLarge { name, dim } => FormatErrorOf::DimensionTooLarge {
                name: name@,
                dim,
            },
            FormatErrorOf::ShapeOverflow { name, shape } => FormatErrorOf::ShapeOverflow {
                name: name@,
                shape: shape@,
            },
            FormatErrorOf::NotTwoDim { name, shape } => FormatErrorOf::NotTwoDim {
                name: name@,
                shape: shape@,
            },
            FormatErrorOf::NotBlockAligned { name, cols } => FormatErrorOf::NotBlockAligned {
                name: name@,
                cols,
            },
            FormatErrorOf::UnknownTag { name, tag } => FormatErrorOf::UnknownTag {
                name: name@,
                tag,
            },
            FormatErrorOf::ByteCountOverflow { name } => FormatErrorOf::ByteCountOverflow {
                name: name@,
            },
            FormatErrorOf::DataLength { name, data_len, expected } => FormatErrorOf::DataLength {
                name: name@,
                data_len,
                expected,
            },
            FormatErrorOf::UnknownDtype { name } => FormatErrorOf::UnknownDtype { name: name@ },
        }
    }
}

/// A model, a prompt or a checkpoint that cannot be used.
#[derive(Debug)]
pub enum ModelErrorOf<N, S, L> {
    EmptyPrompt,
    EmptyTokens,
    SequenceTooLong { max_seq_len: usize },
    OddHeadDim,
    UnevenHeads,
    MissingTensor { name: N },
    /// A weight matrix that is not 2-D.
    NotMatrix { name: N, shape: S },
    /// A gain or a bias that is not a dense 1-D vector.
    NotVector { name: N },
    /// An embedding table that is not a dense matrix.
    BadEmbedding,
    /// The tensors that an export needs and the checkpoint lacks.
    MissingTensors { names: L },
    /// A required key of `config.json` that is absent or not a count.
    MissingKey { key: N },
    /// A `config.json` that declares no attention heads.
    ZeroHeads,
    /// A checkpoint tensor stored as something else than F32, F16 or BF16.
    UnsupportedDtype { name: N, dtype: N },
    /// A safetensors header too long to be genuine.
    HeaderTooLong { header_len: u64 },
    /// A safetensors header that is not a JSON object.
    BadHeader,
    TooFewTokens { len: usize },
    ContextTooShort { context: usize },
    ContextTooLong { context: usize, max_seq_len: usize },
    NothingScored,
    /// A failure that a caller reports through the library.
    Other { message: N },
}

pub type ModelError = ModelErrorOf<String, Vec<usize>, Vec<String>>;

/// The contents of a list of names.
pub open spec fn names_view(names: Seq<String>) -> Seq<Seq<char>> {
    names.map_values(|n: String| n@)
}

impl View for ModelErrorOf<String, Vec<usize>, Vec<String>> {
    type V = ModelErrorOf<Seq<char>, Seq<usize>, Seq<Seq<char>>>;

    open spec fn view(&self) -> ModelErrorOf<Seq<char>, Seq<usize>, Seq<Seq<char>>> {
        match *self {
            ModelErrorOf::EmptyPrompt => ModelErrorOf::EmptyPrompt,
            ModelErrorOf::EmptyTokens => ModelErrorOf::EmptyTokens,
            ModelErrorOf::SequenceTooLong { max_seq_len } => ModelErrorOf::SequenceTooLong {
                max_seq_len,
            },
            ModelErrorOf::OddHeadDim => ModelErrorOf::OddHeadDim,
            ModelErrorOf::UnevenHeads => ModelErrorOf::UnevenHeads,
            ModelErrorOf::MissingTensor { name } => ModelErrorOf::MissingTensor { name: name@ },
            ModelErrorOf::NotMatrix { name, shape } => ModelErrorOf::NotMatrix {
                name: name@,
                shape: shape@,
            },
            ModelErrorOf::NotVector { name } => ModelErrorOf::NotVector { name: name@ },
            ModelErrorOf::BadEmbedding => ModelErrorOf::BadEmbedding,
            ModelErrorOf::MissingTensors { names } => ModelErrorOf::MissingTensors {
                names: names_view(names@),
            },
            ModelErrorOf::MissingKey { key } => ModelErrorOf::MissingKey { key: key@ },
            ModelErrorOf::ZeroHeads => ModelErrorOf::ZeroHeads,
            ModelErrorOf::UnsupportedDtype { name, dtype } => ModelErrorOf::UnsupportedDtype {
                name: name@,
                dtype: dtype@,
            },
            ModelErrorOf::HeaderTooLong { header_len } => ModelErrorOf::HeaderTooLong { header_len },
            ModelErrorOf::BadHeader => ModelErrorOf::BadHeader,
            ModelErrorOf::TooFewTokens { len } => ModelErrorOf::TooFewTokens { len },
            ModelErrorOf::ContextTooShort { context } => ModelErrorOf::ContextTooShort {
                context,
            },
            ModelErrorOf::ContextTooLong { context, max_seq_len } => ModelErrorOf::ContextTooLong {
                context,
                max_seq_len,
            },
            ModelErrorOf::NothingScored => ModelErrorOf::NothingScored,
            ModelErrorOf::Other { message } => ModelErrorOf::Other { message: message@ },
        }
    }
}

/// Unified error type for the engine.
#[derive(Debug)]
pub enum MinqError {
    Io(std::io::Error),
    Shape(ShapeError),
    Format(FormatError),
    Model(ModelError),
    Tokenizer(String),
    SafeTensor(SafeTensorError),
    Json(serde_json::Error),
}

/// The contents of a [`MinqError`], as far as they can be told apart.
pub enum ErrorView {
    Io,
    Shape(ShapeErrorOf<Seq<usize>>),
    Format(FormatErrorOf<Seq<char>, Seq<usize>>),
    Model(ModelErrorOf<Seq<char>, Seq<usize>, Seq<Seq<char>>>),
    Tokenizer(Seq<char>),
    SafeTensor,
    Json,
}

impl View for MinqError {
    type V = ErrorView;

    open spec fn view(&self) -> ErrorView {
        match *self {
            MinqError::Io(_) => ErrorView::Io,
            MinqError::Shape(e) => ErrorView::Shape(e@),
            MinqError::Format(e) => ErrorView::Format(e@),
            MinqError::Model(e) => ErrorView::Model(e@),
            MinqError::Tokenizer(message) => ErrorView::Tokenizer(message@),
            MinqError::SafeTensor(_) => ErrorView::SafeTensor,
            MinqError::Json(_) => ErrorView::Json,
        }
    }
}

impl MinqError {
    /// Whether this is the shape error with view `e`.
    pub open spec fn is_shape(self, e: ShapeErrorOf<Seq<usize>>) -> bool {
        self matches MinqError::Shape(s) && s@ == e
    }

    /// Whether this is the format error with view `e`.
    pub open spec fn is_format(self, e: FormatErrorOf<Seq<char>, Seq<usize>>) -> bool {
        self matches MinqError::Format(f) && f@ == e
    }
}

} // verus!
