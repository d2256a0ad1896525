use geo_coding::error::Error;
use geo_coding::read::Read;
use geo_coding::write::Write;

fn written_magnitude(values: &[u32]) -> Vec<u8> {
    let mut bytes = Vec::new();
    bytes.write_magnitude(values).unwrap();
    bytes
}

fn written_monotonic(values: &[u32]) -> Vec<u8> {
    let mut bytes = Vec::new();
    bytes.write_magnitude_monotonic(values).unwrap();
    bytes
}

fn written_signed(values: &[i64]) -> Vec<u8> {
    let mut bytes = Vec::new();
    bytes.write_sign_magnitude(values).unwrap();
    bytes
}

#[test]
fn magnitude_uses_the_width_of_the_greatest_value() {
    assert_eq!(written_magnitude(&[1, 2, 300]), vec![2, 1, 0, 2, 0, 44, 1]);
    assert_eq!(written_magnitude(&[7]), vec![1, 7]);
    assert_eq!(written_magnitude(&[0x0100_0000]), vec![4, 0, 0, 0, 1]);
    assert_eq!(written_magnitude(&[u32::MAX, 0]), vec![4, 255, 255, 255, 255, 0, 0, 0, 0]);
}

#[test]
fn magnitude_of_zeros_is_the_width_alone() {
    assert_eq!(written_magnitude(&[0, 0, 0]), vec![0]);
    assert_eq!(written_monotonic(&[0, 0, 0]), vec![0]);
    let mut source: &[u8] = &[0, 9];
    assert_eq!(source.read_magnitude(3), Ok(vec![0, 0, 0]));
    assert_eq!(source, &[9]);
    let mut source: &[u8] = &[0, 9];
    assert_eq!(source.read_magnitude_monotonic(2), Ok(vec![0, 0]));
    assert_eq!(source, &[9]);
}

#[test]
fn monotonic_writes_differences() {
    assert_eq!(written_monotonic(&[5, 5, 5]), vec![1, 5, 0, 0]);
    assert_eq!(written_monotonic(&[2, 3, 0, 4]), vec![4, 2, 0, 0, 0, 1, 0, 0, 0, 253, 255, 255, 255, 4, 0, 0, 0]);
    assert_eq!(written_monotonic(&[0, 2, 0, 3, 4]).len(), 1 + 5 * 4);
    assert_eq!(written_monotonic(&[0, 2, 2, 3, 300]), vec![2, 0, 0, 2, 0, 0, 0, 1, 0, 41, 1]);
}

#[test]
fn sign_magnitude_writes_sizes_then_signs() {
    assert_eq!(written_signed(&[10, 7]), vec![1, 10, 3, 0, 1]);
    assert_eq!(written_signed(&[-1]), vec![1, 1, 1]);
    assert_eq!(written_signed(&[0, 0]), vec![1, 0, 0, 0, 0]);
    assert_eq!(written_signed(&[256, 0]), vec![2, 0, 1, 0, 1, 0, 1]);
    assert_eq!(
        written_signed(&[i64::MIN]),
        vec![8, 0, 0, 0, 0, 0, 0, 0, 0x80, 1]
    );
}

#[test]
fn empty_sequences_write_and_read_nothing() {
    assert!(written_magnitude(&[]).is_empty());
    assert!(written_monotonic(&[]).is_empty());
    assert!(written_signed(&[]).is_empty());
    let mut source: &[u8] = &[9, 9, 9];
    assert_eq!(source.read_magnitude(0), Ok(vec![]));
    assert_eq!(source.read_magnitude_monotonic(0), Ok(vec![]));
    assert_eq!(source.read_sign_magnitude(0), Ok(vec![]));
    assert_eq!(source, &[9, 9, 9]);
    let mut nothing: &[u8] = &[];
    assert_eq!(nothing.read_sign_magnitude(0), Ok(vec![]));
}

#[test]
fn u32_sequences_read_back() {
    let cases: Vec<Vec<u32>> = vec![
        vec![0],
        vec![0, 0, 0, 0],
        vec![1],
        vec![u32::MAX],
        vec![1, 2, 3, 4, 5],
        vec![5, 4, 3, 2, 1],
        vec![0, u32::MAX, 0, u32::MAX],
        vec![255, 256, 65535, 65536, 16777215, 16777216],
    ];
    for values in cases {
        let bytes = written_magnitude(&values);
        let mut source: &[u8] = &bytes;
        assert_eq!(source.read_magnitude(values.len()), Ok(values.clone()));
        assert!(source.is_empty());
        let bytes = written_monotonic(&values);
        let mut source: &[u8] = &bytes;
        assert_eq!(source.read_magnitude_monotonic(values.len()), Ok(values.clone()));
        assert!(source.is_empty());
    }
}

#[test]
fn i64_sequences_read_back() {
    let cases: Vec<Vec<i64>> = vec![
        vec![0],
        vec![0, 0, 0],
        vec![i64::MIN],
        vec![i64::MAX],
        vec![i64::MAX, i64::MIN],
        vec![i64::MIN, i64::MAX, i64::MIN],
        vec![-1, 1, -1, 1],
        vec![i64::MIN, 0, i64::MIN],
        vec![-180_000_000_000, 180_000_000_000, 13_404_954_000],
    ];
    for values in cases {
        let bytes = written_signed(&values);
        let mut source: &[u8] = &bytes;
        assert_eq!(source.read_sign_magnitude(values.len()), Ok(values.clone()));
        assert!(source.is_empty());
    }
}

#[test]
fn the_least_size_with_sign_one_is_not_negated() {
    let mut source: &[u8] = &[8, 0, 0, 0, 0, 0, 0, 0, 0x80, 1];
    assert_eq!(source.read_sign_magnitude(1), Ok(vec![i64::MIN]));
    let mut source: &[u8] = &[8, 0, 0, 0, 0, 0, 0, 0, 0x80, 0];
    assert_eq!(source.read_sign_magnitude(1), Ok(vec![i64::MIN]));
    let mut source: &[u8] = &[8, 255, 255, 255, 255, 255, 255, 255, 255, 0];
    assert_eq!(source.read_sign_magnitude(1), Ok(vec![-1]));
    let mut source: &[u8] = &[8, 255, 255, 255, 255, 255, 255, 255, 255, 1];
    assert_eq!(source.read_sign_magnitude(1), Ok(vec![1]));
}

#[test]
fn width_nine_is_refused() {
    let mut source: &[u8] = &[9, 1, 2, 3, 4, 5, 6, 7, 8, 9, 0];
    assert_eq!(source.read_sign_magnitude(1), Err(Error::InvalidWidth));
    let mut source: &[u8] = &[9];
    assert_eq!(source.read_sign_magnitude(1), Err(Error::InvalidWidth));
    let mut source: &[u8] = &[255, 0, 0];
    assert_eq!(source.read_sign_magnitude(2), Err(Error::InvalidWidth));
}

#[test]
fn widths_out_of_range_are_refused() {
    let mut source: &[u8] = &[0, 0];
    assert_eq!(source.read_sign_magnitude(1), Err(Error::InvalidWidth));
    let mut source: &[u8] = &[5, 1, 2, 3, 4, 5];
    assert_eq!(source.read_magnitude(1), Err(Error::InvalidWidth));
    let mut source: &[u8] = &[5, 1, 2, 3, 4, 5];
    assert_eq!(source.read_magnitude_monotonic(1), Err(Error::InvalidWidth));
}

#[test]
fn a_sign_other_than_zero_or_one_is_refused() {
    let mut source: &[u8] = &[1, 10, 3, 0, 2];
    assert_eq!(source.read_sign_magnitude(2), Err(Error::InvalidSign));
    let mut source: &[u8] = &[1, 10, 3, 7];
    assert_eq!(source.read_sign_magnitude(2), Err(Error::InvalidSign));
}

#[test]
fn a_short_stream_is_an_unexpected_end() {
    let mut source: &[u8] = &[];
    assert_eq!(source.read_magnitude(1), Err(Error::UnexpectedEnd));
    let mut source: &[u8] = &[2, 1, 0, 2];
    assert_eq!(source.read_magnitude(2), Err(Error::UnexpectedEnd));
    let mut source: &[u8] = &[1, 10, 3, 0];
    assert_eq!(source.read_sign_magnitude(2), Err(Error::UnexpectedEnd));
    let mut source: &[u8] = &[1, 10];
    assert_eq!(source.read_sign_magnitude(2), Err(Error::UnexpectedEnd));
    let mut source: &[u8] = &[1, 2, 3];
    assert_eq!(source.read_u32(), Err(Error::UnexpectedEnd));
}

#[test]
fn plain_u32_is_four_bytes_least_first() {
    let mut bytes = Vec::new();
    bytes.write_u32(0x0403_0201).unwrap();
    bytes.write_u32(0).unwrap();
    bytes.write_u32(u32::MAX).unwrap();
    assert_eq!(bytes, vec![1, 2, 3, 4, 0, 0, 0, 0, 255, 255, 255, 255]);
    let mut source: &[u8] = &bytes;
    assert_eq!(source.read_u32(), Ok(0x0403_0201));
    assert_eq!(source.read_u32(), Ok(0));
    assert_eq!(source.read_u32(), Ok(u32::MAX));
    assert!(source.is_empty());
}

#[test]
fn bytes_are_taken_from_the_front() {
    let mut source: &[u8] = &[1, 2, 3, 4, 5];
    let mut buf = [0_u8; 2];
    assert_eq!(source.read_bytes(&mut buf), Ok(()));
    assert_eq!(buf, [1, 2]);
    assert_eq!(source, &[3, 4, 5]);
    let mut big = [0_u8; 4];
    assert_eq!(source.read_bytes(&mut big), Err(Error::UnexpectedEnd));
    let mut sink: Vec<u8> = vec![9];
    sink.write_bytes(&[1, 2]).unwrap();
    assert_eq!(sink, vec![9, 1, 2]);
}

#[test]
fn every_error_has_its_reason() {
    assert_eq!(Error::UnexpectedEnd.reason(), "unexpected end of input");
    assert_eq!(Error::InvalidWidth.reason(), "invalid field width");
    assert_eq!(Error::InvalidSign.reason(), "invalid sign byte");
    assert_eq!(Error::InvalidWord.reason(), "word is not UTF-8");
    assert_eq!(Error::InvalidWordIndex.reason(), "invalid word reference");
    assert_eq!(Error::InvalidLink.reason(), "invalid child reference");
    assert_eq!(Error::TooLarge.reason(), "too large to encode");
    assert_eq!(Error::Failed.reason(), "reading or writing failed");
}
