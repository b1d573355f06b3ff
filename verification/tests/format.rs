use minq::arith::Arith;
use minq::error::{Field, FormatErrorOf};
use minq::format::{
    read_minq, read_u32, read_u64, take, write_minq, write_minq_header, write_minq_record,
    WeightTensor, LEGACY_MAGIC, MAGIC,
};
use minq::quantize::{QuantDtype, QuantizedTensor};
use minq::tensor::Tensor;
use minq::MinqError;

/// The machine's own floating point.
struct Native;

impl Arith for Native {
    fn add32(a: u32, b: u32) -> u32 {
        (f32::from_bits(a) + f32::from_bits(b)).to_bits()
    }
    fn sub32(a: u32, b: u32) -> u32 {
        (f32::from_bits(a) - f32::from_bits(b)).to_bits()
    }
    fn mul32(a: u32, b: u32) -> u32 {
        (f32::from_bits(a) * f32::from_bits(b)).to_bits()
    }
    fn div32(a: u32, b: u32) -> u32 {
        (f32::from_bits(a) / f32::from_bits(b)).to_bits()
    }
    fn sqrt32(a: u32) -> u32 {
        f32::from_bits(a).sqrt().to_bits()
    }
    fn exp32(a: u32) -> u32 {
        f32::from_bits(a).exp().to_bits()
    }
    fn pow32(base: u32, exponent: u32) -> u32 {
        f32::from_bits(base).powf(f32::from_bits(exponent)).to_bits()
    }
    fn sin32(a: u32) -> u32 {
        f32::from_bits(a).sin().to_bits()
    }
    fn cos32(a: u32) -> u32 {
        f32::from_bits(a).cos().to_bits()
    }
    fn count32(n: usize) -> u32 {
        (n as f32).to_bits()
    }
    fn int32(n: i32) -> u32 {
        (n as f32).to_bits()
    }
    fn narrow(a: u64) -> u32 {
        (f64::from_bits(a) as f32).to_bits()
    }
    fn widen(a: u32) -> u64 {
        (f32::from_bits(a) as f64).to_bits()
    }
    fn add64(a: u64, b: u64) -> u64 {
        (f64::from_bits(a) + f64::from_bits(b)).to_bits()
    }
    fn sub64(a: u64, b: u64) -> u64 {
        (f64::from_bits(a) - f64::from_bits(b)).to_bits()
    }
    fn div64(a: u64, b: u64) -> u64 {
        (f64::from_bits(a) / f64::from_bits(b)).to_bits()
    }
    fn exp64(a: u64) -> u64 {
        f64::from_bits(a).exp().to_bits()
    }
    fn ln64(a: u64) -> u64 {
        f64::from_bits(a).ln().to_bits()
    }
    fn count64(n: usize) -> u64 {
        (n as f64).to_bits()
    }
}

fn enc(values: &[f32]) -> Vec<u32> {
    values.iter().map(|v| v.to_bits()).collect()
}

fn dec(bits: &[u32]) -> Vec<f32> {
    bits.iter().map(|b| f32::from_bits(*b)).collect()
}

fn test_config() -> Vec<u8> {
    let json = "{\"hidden_size\":64,\"intermediate_size\":128,\"n_layers\":2,\"n_heads\":4,\
        \"n_kv_heads\":2,\"head_dim\":16,\"vocab_size\":128,\"max_seq_len\":64,\
        \"rope_theta\":10000.0,\"rms_norm_eps\":1e-5,\"has_qkv_bias\":false,\"dtype\":\"q8_0\"}";
    json.as_bytes().to_vec()
}

fn sample_tensors() -> Vec<(String, WeightTensor)> {
    let dense = Tensor::new(enc(&[1.0, 2.0, 3.0, 4.0, 5.0, 6.0]), vec![2, 3]).unwrap();
    let values: Vec<f32> = (0..4 * 64).map(|i| i as f32 * 0.01).collect();
    let w = Tensor::new(enc(&values), vec![4, 64]).unwrap();
    let quant = QuantizedTensor::from_tensor::<Native>(&w, QuantDtype::Q8_0).unwrap();
    vec![
        ("dense.weight".to_string(), WeightTensor::F32(dense)),
        ("quant.weight".to_string(), WeightTensor::Quant(quant)),
    ]
}

#[test]
fn minq_file_roundtrip() {
    let tensors = sample_tensors();
    let cfg = test_config();

    let raw = write_minq(&cfg, &tensors);
    // The writer must emit the new magic.
    assert_eq!(&raw[..8], &MAGIC);
    assert_eq!(&raw[..8], b"MINQ0001");

    let (cfg2, tensors2) = read_minq(&raw).unwrap();

    assert_eq!(cfg, cfg2);
    assert_eq!(tensors, tensors2);
}

#[test]
fn legacy_minfer_magic_is_accepted() {
    // A file with the older magic ("MINFER01") must still load: take a file
    // and patch only the magic bytes.
    let tensors = sample_tensors();
    let cfg = test_config();
    let mut raw = write_minq(&cfg, &tensors);
    raw[..8].copy_from_slice(&LEGACY_MAGIC);
    assert_eq!(&raw[..8], b"MINFER01");

    let (cfg2, tensors2) = read_minq(&raw).unwrap();

    assert_eq!(cfg, cfg2);
    assert_eq!(tensors, tensors2);
}

#[test]
fn rejects_bad_magic() {
    let result = read_minq(b"NOTMINFER junk");
    assert!(result.is_err());
    assert!(matches!(result, Err(MinqError::Format(FormatErrorOf::BadMagic))));
}

/// A valid header (magic + config) followed by the given record bytes.
fn crafted(record: &[u8]) -> Vec<u8> {
    let cfg = test_config();
    let mut buf = Vec::new();
    buf.extend_from_slice(&MAGIC);
    buf.extend_from_slice(&(cfg.len() as u32).to_le_bytes());
    buf.extend_from_slice(&cfg);
    buf.extend_from_slice(record);
    buf
}

fn expect_format_err(tag: &str, record: &[u8]) -> MinqError {
    let result = read_minq(&crafted(record));
    assert!(result.is_err(), "{tag}: expected Err, got Ok");
    result.unwrap_err()
}

#[test]
fn rejects_oversized_name_len() {
    // name_len = u32::MAX with nothing behind it.
    let record = u32::MAX.to_le_bytes();
    let e = expect_format_err("huge_name_len", &record);
    assert!(matches!(
        e,
        MinqError::Format(FormatErrorOf::BeyondEnd { what: Field::Name, len: 0xFFFF_FFFF, .. })
    ));
}

#[test]
fn rejects_oversized_data_len() {
    // Valid f32 record header for shape [1] but a u64::MAX data length.
    let mut record = Vec::new();
    record.extend_from_slice(&1u32.to_le_bytes()); // name_len
    record.extend_from_slice(b"a");
    record.push(0); // tag f32
    record.push(1); // ndim
    record.extend_from_slice(&1u64.to_le_bytes()); // shape [1]
    record.extend_from_slice(&u64::MAX.to_le_bytes()); // data_len
    let e = expect_format_err("huge_data_len", &record);
    assert!(matches!(
        e,
        MinqError::Format(FormatErrorOf::DataLength { data_len: u64::MAX, expected: 4, .. })
    ));
}

#[test]
fn rejects_shape_data_len_mismatch() {
    // f32 [2, 3] needs 24 data bytes, header declares 8.
    let mut record = Vec::new();
    record.extend_from_slice(&1u32.to_le_bytes());
    record.extend_from_slice(b"w");
    record.push(0); // tag f32
    record.push(2); // ndim
    record.extend_from_slice(&2u64.to_le_bytes());
    record.extend_from_slice(&3u64.to_le_bytes());
    record.extend_from_slice(&8u64.to_le_bytes()); // data_len, should be 24
    record.extend_from_slice(&[0u8; 8]);
    let e = expect_format_err("shape_data_mismatch", &record);
    assert!(matches!(
        e,
        MinqError::Format(FormatErrorOf::DataLength { data_len: 8, expected: 24, .. })
    ));
}

#[test]
fn rejects_shape_product_overflow() {
    // [usize::MAX, 2] overflows any element-count multiplication.
    let mut record = Vec::new();
    record.extend_from_slice(&3u32.to_le_bytes());
    record.extend_from_slice(b"big");
    record.push(0); // tag f32
    record.push(2); // ndim
    record.extend_from_slice(&u64::MAX.to_le_bytes());
    record.extend_from_slice(&2u64.to_le_bytes());
    record.extend_from_slice(&16u64.to_le_bytes()); // any data_len
    record.extend_from_slice(&[0u8; 16]);
    let e = expect_format_err("shape_overflow", &record);
    match e {
        MinqError::Format(FormatErrorOf::ShapeOverflow { name, .. }) => assert_eq!(name, "big"),
        other => panic!("unexpected {other:?}"),
    }
}

fn record_header(name: &[u8], tag: u8, shape: &[u64], data_len: u64) -> Vec<u8> {
    let mut record = Vec::new();
    record.extend_from_slice(&(name.len() as u32).to_le_bytes());
    record.extend_from_slice(name);
    record.push(tag);
    record.push(shape.len() as u8);
    for dim in shape {
        record.extend_from_slice(&dim.to_le_bytes());
    }
    record.extend_from_slice(&data_len.to_le_bytes());
    record
}

#[test]
fn each_malformed_record_is_named() {
    let e = expect_format_err("utf8", &record_header(&[0xFF], 0, &[1], 4));
    assert!(matches!(
        e,
        MinqError::Format(FormatErrorOf::InvalidName { valid: 0, wrong: Some(1) })
    ));
    let e = expect_format_err("cut", &record_header(&[b'a', b'b', 0xE2, 0x82], 0, &[1], 4));
    assert!(matches!(
        e,
        MinqError::Format(FormatErrorOf::InvalidName { valid: 2, wrong: None })
    ));
    let e = expect_format_err("tag", &record_header(b"x", 3, &[1], 4));
    assert!(matches!(e, MinqError::Format(FormatErrorOf::UnknownTag { tag: 3, .. })));
    let e = expect_format_err("rank", &record_header(b"x", 1, &[64], 72));
    assert!(matches!(e, MinqError::Format(FormatErrorOf::NotTwoDim { .. })));
    let e = expect_format_err("align", &record_header(b"x", 2, &[1, 33], 20));
    assert!(matches!(e, MinqError::Format(FormatErrorOf::NotBlockAligned { cols: 33, .. })));
    let e = expect_format_err("bytes", &record_header(b"x", 0, &[1 << 62], 0));
    assert!(matches!(e, MinqError::Format(FormatErrorOf::ByteCountOverflow { .. })));
    let e = expect_format_err("data", &record_header(b"x", 0, &[2], 8));
    assert!(matches!(
        e,
        MinqError::Format(FormatErrorOf::BeyondEnd { what: Field::Data, len: 8, .. })
    ));
    let e = expect_format_err("truncated", &[1, 0]);
    assert!(matches!(
        e,
        MinqError::Format(FormatErrorOf::BeyondEnd { what: Field::NameLength, len: 4, .. })
    ));
}

#[test]
fn truncated_headers_are_named() {
    for (raw, what) in [
        (b"MINQ".to_vec(), Field::Magic),
        (b"MINQ0001\x01\x00".to_vec(), Field::ConfigLength),
        (b"MINQ0001\x05\x00\x00\x00{}".to_vec(), Field::ConfigJson),
    ] {
        match read_minq(&raw) {
            Err(MinqError::Format(FormatErrorOf::BeyondEnd { what: found, file_len, .. })) => {
                assert_eq!(found, what);
                assert_eq!(file_len, raw.len() as u64);
            }
            other => panic!("unexpected {other:?}"),
        }
    }
}

#[test]
fn streaming_and_batch_exports_agree() {
    let tensors = sample_tensors();
    let cfg = test_config();
    let mut streamed = Vec::new();
    write_minq_header(&mut streamed, &cfg);
    for (name, tensor) in &tensors {
        write_minq_record(&mut streamed, name, tensor);
    }
    assert_eq!(streamed, write_minq(&cfg, &tensors));
}

#[test]
fn reading_and_writing_again_is_the_identity() {
    let raw = write_minq(&test_config(), &sample_tensors());
    let (cfg, tensors) = read_minq(&raw).unwrap();
    assert_eq!(write_minq(&cfg, &tensors), raw);
}

#[test]
fn record_bytes_are_exact() {
    let t = Tensor::new(enc(&[1.0, -2.0]), vec![2]).unwrap();
    let mut out = Vec::new();
    write_minq_record(&mut out, "ab", &WeightTensor::F32(t));
    let mut expected = vec![2, 0, 0, 0, b'a', b'b', 0, 1];
    expected.extend_from_slice(&2u64.to_le_bytes());
    expected.extend_from_slice(&8u64.to_le_bytes());
    expected.extend_from_slice(&1.0f32.to_le_bytes());
    expected.extend_from_slice(&(-2.0f32).to_le_bytes());
    assert_eq!(out, expected);
}

#[test]
fn names_may_be_any_text() {
    let t = Tensor::new(enc(&[1.0]), vec![1]).unwrap();
    let name = "\u{3bb}\u{1F600}.weight".to_string();
    let raw = write_minq(b"{}", &[(name.clone(), WeightTensor::F32(t))]);
    let (_, tensors) = read_minq(&raw).unwrap();
    assert_eq!(tensors[0].0, name);
}

#[test]
fn cursor_does_not_pass_the_end() {
    let mut pos = 4u64;
    take(&mut pos, 6, 10, Field::Shape).unwrap();
    assert_eq!(pos, 10);
    assert!(matches!(
        take(&mut pos, 1, 10, Field::Shape),
        Err(MinqError::Format(FormatErrorOf::BeyondEnd {
            what: Field::Shape,
            len: 1,
            offset: 10,
            file_len: 10,
        }))
    ));
    assert_eq!(pos, 10);
    assert!(matches!(
        take(&mut pos, u64::MAX, 10, Field::Data),
        Err(MinqError::Format(FormatErrorOf::LengthOverflow { what: Field::Data }))
    ));
}

#[test]
fn integers_are_little_endian() {
    let bytes = [0x78, 0x56, 0x34, 0x12, 1, 0, 0, 0, 0, 0, 0, 0x80, 9];
    let mut r: &[u8] = &bytes;
    assert_eq!(read_u32(&mut r).unwrap(), 0x1234_5678);
    assert_eq!(read_u64(&mut r).unwrap(), 0x8000_0000_0000_0001);
    assert_eq!(r, &[9]);
    match read_u32(&mut r) {
        Err(MinqError::Io(e)) => assert_eq!(e.kind(), std::io::ErrorKind::UnexpectedEof),
        other => panic!("unexpected {other:?}"),
    }
}

#[test]
fn a_cut_file_is_read_up_to_a_whole_record_only() {
    let cfg = test_config();
    let tensors = sample_tensors();
    for magic in [MAGIC, LEGACY_MAGIC] {
        let mut raw = write_minq(&cfg, &tensors);
        raw[..8].copy_from_slice(&magic);
        let ends: Vec<usize> =
            (0..tensors.len() + 1).map(|j| write_minq(&cfg, &tensors[..j]).len()).collect();
        assert_eq!(ends[tensors.len()], raw.len());
        for cut in 0..raw.len() + 1 {
            match ends.iter().position(|end| *end == cut) {
                Some(j) => {
                    let (cfg2, tensors2) = read_minq(&raw[..cut]).unwrap();
                    assert_eq!(cfg, cfg2);
                    assert_eq!(tensors2, tensors[..j]);
                }
                None => assert!(read_minq(&raw[..cut]).is_err(), "cut at {cut}"),
            }
        }
    }
}
