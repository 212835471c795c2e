use ndn_forwarder::tlv::stream_decode;
use ndn_forwarder::tlv::tlv::{encode, TLV};
use ndn_forwarder::tlv::varnumber::VarNumber;
use ndn_forwarder::tlv::vec_decode::{
    read_nni, read_tlo, read_u16, read_u32, read_u64, read_u8, read_varnumber,
};
use ndn_forwarder::tlv::{DecodeError, ErrorKind, Type, TLO};

#[test]
fn varnumber_one_byte_up_to_252() {
    assert_eq!(VarNumber::from_u64(0).to_bytes(), vec![0]);
    assert_eq!(VarNumber::from_u64(252).to_bytes(), vec![252]);
    assert_eq!(VarNumber::from_u64(252).length(), 1);
    assert_eq!(VarNumber::from_u64(7).as_u64(), 7);
}

#[test]
fn varnumber_three_bytes_up_to_65535() {
    assert_eq!(VarNumber::from_u64(253).to_bytes(), vec![253, 0, 253]);
    assert_eq!(VarNumber::from_u64(0x1234).to_bytes(), vec![253, 0x12, 0x34]);
    assert_eq!(VarNumber::from_u64(65535).to_bytes(), vec![253, 255, 255]);
    assert_eq!(VarNumber::from_u64(65535).length(), 3);
}

#[test]
fn varnumber_five_bytes_up_to_u32_max() {
    assert_eq!(VarNumber::from_u64(65536).to_bytes(), vec![254, 0, 1, 0, 0]);
    assert_eq!(VarNumber::from_u64(0xdead_beef).to_bytes(), vec![254, 0xde, 0xad, 0xbe, 0xef]);
    assert_eq!(VarNumber::from_u64(4294967295).length(), 5);
}

#[test]
fn varnumber_nine_bytes_beyond() {
    assert_eq!(VarNumber::from_u64(4294967296).to_bytes(), vec![255, 0, 0, 0, 1, 0, 0, 0, 0]);
    assert_eq!(
        VarNumber::from_u64(0x0102_0304_0506_0708).to_bytes(),
        vec![255, 1, 2, 3, 4, 5, 6, 7, 8]
    );
    assert_eq!(VarNumber::from_u64(u64::MAX).to_bytes(), vec![255; 9]);
    assert_eq!(VarNumber::from_u64(u64::MAX).length(), 9);
}

#[test]
fn varnumber_round_trip() {
    let values: [u64; 12] = [
        0,
        1,
        252,
        253,
        254,
        255,
        65535,
        65536,
        4294967295,
        4294967296,
        0x1122_3344_5566_7788,
        u64::MAX,
    ];
    for v in values {
        let n = VarNumber::from_u64(v);
        let mut bytes = n.to_bytes();
        let len = bytes.len();
        assert_eq!(len, n.length());
        bytes.extend_from_slice(&[9, 9, 9]);
        assert_eq!(read_varnumber(&bytes), Ok((v, len)));
    }
}

#[test]
fn varnumber_clone_and_eq() {
    let n = VarNumber::from_u64(1000);
    let m = n.clone();
    assert_eq!(n, m);
    assert_eq!(m.as_u64(), 1000);
    assert_ne!(n, VarNumber::from_u64(1001));
}

#[test]
fn read_varnumber_consumes_nine_bytes_for_marker_255() {
    let bytes = [255u8, 0, 0, 0, 0, 0, 0, 1, 0, 42];
    assert_eq!(read_varnumber(&bytes), Ok((256, 9)));
}

#[test]
fn read_varnumber_accepts_long_forms_of_small_numbers() {
    assert_eq!(read_varnumber(&[253, 0, 5]), Ok((5, 3)));
    assert_eq!(read_varnumber(&[254, 0, 0, 0, 5]), Ok((5, 5)));
}

#[test]
fn read_varnumber_truncated() {
    assert_eq!(read_varnumber(&[]), Err(DecodeError::UnexpectedEof));
    assert_eq!(read_varnumber(&[253]), Err(DecodeError::UnexpectedEof));
    assert_eq!(read_varnumber(&[253, 1]), Err(DecodeError::UnexpectedEof));
    assert_eq!(read_varnumber(&[254, 1, 2, 3]), Err(DecodeError::UnexpectedEof));
    assert_eq!(read_varnumber(&[255, 1, 2, 3, 4, 5, 6, 7]), Err(DecodeError::UnexpectedEof));
}

#[test]
fn read_nni_widths() {
    let bytes = [1u8, 2, 3, 4, 5, 6, 7, 8, 9];
    assert_eq!(read_nni(&bytes, 1), Ok(1));
    assert_eq!(read_nni(&bytes, 2), Ok(0x0102));
    assert_eq!(read_nni(&bytes, 4), Ok(0x0102_0304));
    assert_eq!(read_nni(&bytes, 8), Ok(0x0102_0304_0506_0708));
}

#[test]
fn read_nni_errors() {
    let bytes = [1u8, 2, 3, 4];
    assert_eq!(read_nni(&bytes, 3), Err(DecodeError::InvalidNni));
    assert_eq!(read_nni(&bytes, 0), Err(DecodeError::InvalidNni));
    assert_eq!(read_nni(&bytes, 5), Err(DecodeError::InsufficientLength));
    assert_eq!(read_nni(&bytes, 8), Err(DecodeError::InsufficientLength));
    assert_eq!(read_nni(&[], 1), Err(DecodeError::InsufficientLength));
}

#[test]
fn read_fixed_width() {
    let bytes = [0xa1u8, 0xb2, 0xc3, 0xd4, 0xe5, 0xf6, 0x07, 0x18, 0x29];
    assert_eq!(read_u8(&bytes), Ok(0xa1));
    assert_eq!(read_u16(&bytes), Ok(0xa1b2));
    assert_eq!(read_u32(&bytes), Ok(0xa1b2_c3d4));
    assert_eq!(read_u64(&bytes), Ok(0xa1b2_c3d4_e5f6_0718));
}

#[test]
fn read_fixed_width_too_short() {
    assert_eq!(read_u8(&[]), Err(DecodeError::NotEnoughData));
    assert_eq!(read_u16(&[1]), Err(DecodeError::NotEnoughData));
    assert_eq!(read_u32(&[1, 2, 3]), Err(DecodeError::NotEnoughData));
    assert_eq!(read_u64(&[1, 2, 3, 4, 5, 6, 7]), Err(DecodeError::NotEnoughData));
}

#[test]
fn read_tlo_short_and_long_forms() {
    assert_eq!(read_tlo(&[5, 3, 1, 2, 3]), Ok(TLO { t: 5, l: 3, o: 2 }));
    assert_eq!(read_tlo(&[253, 1, 0, 254, 0, 1, 0, 0]), Ok(TLO { t: 256, l: 65536, o: 8 }));
    assert_eq!(read_tlo(&[7, 200]), Ok(TLO { t: 7, l: 200, o: 2 }));
}

#[test]
fn read_tlo_truncated() {
    assert_eq!(read_tlo(&[]), Err(DecodeError::UnexpectedEof));
    assert_eq!(read_tlo(&[5]), Err(DecodeError::UnexpectedEof));
    assert_eq!(read_tlo(&[5, 253, 1]), Err(DecodeError::UnexpectedEof));
}

#[test]
fn tlv_round_trip() {
    let values: [Vec<u8>; 4] = [vec![], vec![1], vec![7; 252], vec![3; 300]];
    let types: [u64; 4] = [0, 8, 253, 1 << 40];
    for t in types {
        for v in &values {
            let mut bytes = encode(t, v);
            let whole = bytes.len();
            bytes.extend_from_slice(&[1, 2, 3]);
            let tlo = read_tlo(&bytes).unwrap();
            assert_eq!(tlo.t, t);
            assert_eq!(tlo.l, v.len() as u64);
            assert_eq!(tlo.o + v.len(), whole);
            assert_eq!(&bytes[tlo.o..tlo.o + v.len()], &v[..]);
        }
    }
}

#[test]
fn tlv_to_bytes() {
    let tlv = TLV::new(6, 2, vec![0xaa, 0xbb]);
    assert_eq!(tlv.to_bytes(), vec![6, 2, 0xaa, 0xbb]);
    assert_eq!(tlv.clone().to_bytes(), vec![6, 2, 0xaa, 0xbb]);
    let odd = TLV::new(300, 1000, vec![1]);
    assert_eq!(odd.to_bytes(), vec![253, 1, 44, 253, 3, 232, 1]);
    assert_eq!(encode(21, &[9, 8, 7]), vec![21, 3, 9, 8, 7]);
}

#[test]
fn type_codes() {
    assert_eq!(Type::Invalid.code(), 0);
    assert_eq!(Type::Interest.code(), 5);
    assert_eq!(Type::Data.code(), 6);
    assert_eq!(Type::Name.code(), 7);
    assert_eq!(Type::GenericNameComponent.code(), 8);
    assert_eq!(Type::ImplicitSha256DigestComponent.code(), 1);
    assert_eq!(Type::ParametersSha256DigestComponent.code(), 2);
    assert_eq!(Type::CanBePrefix.code(), 33);
    assert_eq!(Type::MustBeFresh.code(), 18);
    assert_eq!(Type::ForwardingHint.code(), 30);
    assert_eq!(Type::Nonce.code(), 10);
    assert_eq!(Type::InterestLifetime.code(), 12);
    assert_eq!(Type::HopLimit.code(), 34);
    assert_eq!(Type::ApplicationParameters.code(), 36);
    assert_eq!(Type::InterestSignatureInfo.code(), 44);
    assert_eq!(Type::InterestSignatureValue.code(), 46);
    assert_eq!(Type::MetaInfo.code(), 20);
    assert_eq!(Type::Content.code(), 21);
    assert_eq!(Type::SignatureInfo.code(), 22);
    assert_eq!(Type::SignatureValue.code(), 23);
    assert_eq!(Type::ContentType.code(), 24);
    assert_eq!(Type::FreshnessPeriod.code(), 25);
    assert_eq!(Type::FinalBlockId.code(), 26);
    assert_eq!(Type::SignatureType.code(), 27);
    assert_eq!(Type::KeyLocator.code(), 28);
    assert_eq!(Type::KeyDigest.code(), 29);
    assert_eq!(Type::SignatureNonce.code(), 38);
    assert_eq!(Type::SignatureTime.code(), 40);
    assert_eq!(Type::SignatureSeqNum.code(), 42);
}

#[test]
fn type_from_code() {
    for code in 0..300u64 {
        match Type::from_code(code) {
            Some(t) => assert_eq!(t.code(), code),
            None => {}
        }
    }
    assert_eq!(Type::from_code(5), Some(Type::Interest));
    assert_eq!(Type::from_code(34), Some(Type::HopLimit));
    assert_eq!(Type::from_code(3), None);
    assert_eq!(Type::from_code(u64::MAX), None);
}

#[test]
fn stream_asks_for_the_next_bytes() {
    assert_eq!(stream_decode::missing(&[]), 1);
    assert_eq!(stream_decode::missing(&[6]), 1);
    assert_eq!(stream_decode::missing(&[253]), 2);
    assert_eq!(stream_decode::missing(&[253, 1]), 1);
    assert_eq!(stream_decode::missing(&[253, 1, 0]), 1);
    assert_eq!(stream_decode::missing(&[6, 254]), 4);
    assert_eq!(stream_decode::missing(&[6, 3]), 3);
    assert_eq!(stream_decode::missing(&[6, 3, 1]), 2);
    assert_eq!(stream_decode::missing(&[6, 3, 1, 2, 3]), 0);
    assert_eq!(stream_decode::missing(&[6, 0]), 0);
    assert_eq!(stream_decode::missing(&[6, 253, 1, 0]), 256);
}

#[test]
fn stream_reads_a_frame_with_its_raw_bytes() {
    let tlv = stream_decode::read_tlv(&[6, 3, 1, 2, 3, 99, 98]).unwrap();
    assert_eq!(tlv.t, 6);
    assert_eq!(tlv.l, 3);
    assert_eq!(tlv.v, vec![1, 2, 3]);
    assert_eq!(tlv.data, vec![6, 3, 1, 2, 3]);
}

#[test]
fn stream_frame_by_steps() {
    let wire: Vec<u8> = encode(300, &vec![5u8; 270]);
    let mut read: Vec<u8> = Vec::new();
    let mut steps = 0;
    loop {
        let n = stream_decode::missing(&read) as usize;
        if n == 0 {
            break;
        }
        let from = read.len();
        read.extend_from_slice(&wire[from..from + n]);
        steps += 1;
    }
    assert_eq!(steps, 5);
    let tlv = stream_decode::read_tlv(&read).unwrap();
    assert_eq!(tlv.t, 300);
    assert_eq!(tlv.l, 270);
    assert_eq!(tlv.v, vec![5u8; 270]);
    assert_eq!(tlv.data, wire);
}

#[test]
fn truncated_frame_is_an_error_at_every_point() {
    let wire: Vec<u8> = encode(253, &vec![1u8; 300]);
    for k in 0..wire.len() {
        assert!(matches!(stream_decode::read_tlv(&wire[..k]), Err(DecodeError::UnexpectedEof)));
        assert!(stream_decode::missing(&wire[..k]) > 0);
    }
    assert!(stream_decode::read_tlv(&wire).is_ok());
}

#[test]
fn varnumber_from_integers() {
    assert_eq!(VarNumber::from(7u8).to_bytes(), vec![7]);
    assert_eq!(VarNumber::from(255u8).to_bytes(), vec![253, 0, 255]);
    assert_eq!(VarNumber::from(0x1234u16).to_bytes(), vec![253, 0x12, 0x34]);
    assert_eq!(VarNumber::from(0x0001_0000u32).to_bytes(), vec![254, 0, 1, 0, 0]);
    assert_eq!(VarNumber::from(1u64 << 32).to_bytes(), vec![255, 0, 0, 0, 1, 0, 0, 0, 0]);
    assert_eq!(VarNumber::from(300usize).as_u64(), 300);
    assert_eq!(VarNumber::from(21u64), VarNumber::from_u64(21));
}

#[test]
fn varnumber_sums() {
    let sum = VarNumber::from(250u64) + VarNumber::from(3u64);
    assert_eq!(sum.as_u64(), 253);
    assert_eq!(sum.to_bytes(), vec![253, 0, 253]);
    let more = sum + 65283u64;
    assert_eq!(more.as_u64(), 65536);
    assert_eq!(more.length(), 5);
}

#[test]
fn error_messages_and_kinds() {
    assert_eq!(DecodeError::UnexpectedEof.message(), "Unexpected EOF");
    assert_eq!(DecodeError::InsufficientLength.message(), "Insufficient length buffer");
    assert_eq!(DecodeError::InvalidNni.message(), "Invalid NNI");
    assert_eq!(DecodeError::NotEnoughData.message(), "Not enough data");
    assert_eq!(DecodeError::IncorrectNameEncoding.message(), "Incorrect name TLV encoding");
    assert_eq!(DecodeError::ExpectedAddress.message(), "Expected TLV type 4");
    assert_eq!(DecodeError::InvalidAddress.message(), "Invalid address");
    assert_eq!(DecodeError::UnexpectedEof.kind(), ErrorKind::UnexpectedEof);
    assert_eq!(DecodeError::InsufficientLength.kind(), ErrorKind::InvalidData);
    assert_eq!(DecodeError::InvalidNni.kind(), ErrorKind::InvalidData);
    assert_eq!(DecodeError::NotEnoughData.kind(), ErrorKind::InvalidData);
    assert_eq!(DecodeError::IncorrectNameEncoding.kind(), ErrorKind::InvalidData);
    assert_eq!(DecodeError::ExpectedAddress.kind(), ErrorKind::Other);
    assert_eq!(DecodeError::InvalidAddress.kind(), ErrorKind::Other);
}
