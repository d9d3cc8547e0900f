use prefix_varint::varint::{decode, encode, prefix_len, size_of, Error};

fn test_num(val: u64) {
    let buf = encode(val);
    assert_eq!(buf.len(), size_of(val));
    let (got, used) = decode(&buf).unwrap();
    assert_eq!(got, val);
    assert_eq!(used, buf.len());
}

#[test]
fn test_encode_decode() {
    for i in 0..64 {
        let base = 1u64 << i;
        test_num(base);
        test_num(base - 1);
    }
}

#[test]
fn boundary_lengths() {
    assert_eq!(size_of(0), 1);
    assert_eq!(size_of(127), 1);
    assert_eq!(size_of(128), 2);
    assert_eq!(size_of(16383), 2);
    assert_eq!(size_of(16384), 3);
    assert_eq!(size_of(2097151), 3);
    assert_eq!(size_of(2097152), 4);
    assert_eq!(size_of((1u64 << 56) - 1), 8);
    assert_eq!(size_of(1u64 << 56), 9);
    assert_eq!(size_of(u64::MAX), 9);
}

#[test]
fn boundary_encodings() {
    assert_eq!(encode(0), vec![0x01]);
    assert_eq!(encode(127), vec![0xFF]);
    assert_eq!(encode(128), vec![0x02, 0x02]);
    assert_eq!(
        encode(1u64 << 56),
        vec![0x00, 0x00, 0x00, 0x00, 0x00, 0x00, 0x00, 0x00, 0x01]
    );
    assert_eq!(
        encode(u64::MAX),
        vec![0x00, 0xFF, 0xFF, 0xFF, 0xFF, 0xFF, 0xFF, 0xFF, 0xFF]
    );
}

#[test]
fn boundary_decodes() {
    assert_eq!(decode(&[0x01]).unwrap(), (0, 1));
    assert_eq!(decode(&[0xFF]).unwrap(), (127, 1));
    assert_eq!(decode(&[0x02, 0x02]).unwrap(), (128, 2));
    assert_eq!(
        decode(&[0x00, 0x00, 0x00, 0x00, 0x00, 0x00, 0x00, 0x00, 0x01]).unwrap(),
        (1u64 << 56, 9)
    );
    assert_eq!(
        decode(&[0x00, 0xFF, 0xFF, 0xFF, 0xFF, 0xFF, 0xFF, 0xFF, 0xFF]).unwrap(),
        (u64::MAX, 9)
    );
}

#[test]
fn truncated_input_fails() {
    let empty: [u8; 0] = [];
    assert_eq!(decode(&empty), Err(Error::UnexpectedEnd));
    // A first byte with two trailing zeros declares three bytes in total.
    assert_eq!(decode(&[0x04]), Err(Error::UnexpectedEnd));
    assert_eq!(decode(&[0x04, 0x01]), Err(Error::UnexpectedEnd));
    // An all-zero first byte declares nine.
    assert_eq!(decode(&[0x00]), Err(Error::UnexpectedEnd));
    assert_eq!(
        decode(&[0x00, 0xFF, 0xFF, 0xFF, 0xFF, 0xFF, 0xFF, 0xFF]),
        Err(Error::UnexpectedEnd)
    );
    assert!(decode(&[0x04, 0x01, 0x01]).is_ok());
}

#[test]
fn trailing_bytes_do_not_matter() {
    assert_eq!(decode(&[0x01, 0xAB, 0xCD]).unwrap(), (0, 1));
    assert_eq!(decode(&[0x02, 0x02, 0x99]).unwrap(), (128, 2));
}

#[test]
fn first_byte_declares_length() {
    for i in 0..64 {
        let v = 1u64 << i;
        let buf = encode(v);
        assert_eq!(prefix_len(buf[0]), buf.len());
    }
}

#[test]
fn distinct_values_distinct_encodings() {
    let vals = [
        0u64,
        1,
        127,
        128,
        129,
        16383,
        16384,
        (1u64 << 56) - 1,
        1u64 << 56,
        u64::MAX,
    ];
    for i in 0..vals.len() {
        for j in 0..vals.len() {
            if i != j {
                assert_ne!(encode(vals[i]), encode(vals[j]));
            }
        }
    }
}
