use lib::audio::Error as AudioError;
use lib::binary::Error as BinaryError;
use lib::bsp::Error;

#[test]
fn states_a_read_past_the_end() {
    let error = BinaryError::UnexpectedEof { offset: 10, requested: 4, remaining: 2 };
    assert_eq!(error.message(), "unexpected end at 10: requested 4 bytes, 2 remain");
    let error = BinaryError::LimitExceeded { what: "string", value: 300, limit: 256 };
    assert_eq!(error.message(), "string value 300 exceeds limit 256");
    assert_eq!(BinaryError::InvalidBitCount(65).message(), "invalid bit count 65; maximum is 64");
}

#[test]
fn states_what_is_wrong_with_a_map() {
    assert_eq!(Error::InvalidIdent(0x0000_beef).message(), "invalid BSP identifier 0x0000beef");
    assert_eq!(Error::UnsupportedVersion(-3).message(), "unsupported BSP version -3");
    assert_eq!(
        Error::InvalidLump { index: 7, offset: -1, length: 20 }.message(),
        "BSP lump 7 has invalid range -1+20"
    );
    assert_eq!(
        Error::InvalidLightmapExtent { size: [16, -1] }.message(),
        "BSP face has an unusable lightmap extent 16x-1"
    );
    assert_eq!(
        Error::InvalidStaticPropLeaves { index: 2, first: 3, count: 4 }.message(),
        "static prop 2 names leaves 3..7, which the lump does not hold"
    );
    assert_eq!(
        Error::Binary(BinaryError::InvalidSeek { offset: 9, length: 4 }).message(),
        "offset 9 is outside a 4-byte buffer"
    );
    assert_eq!(Error::InvalidCluster(i32::MIN).message(), "invalid BSP cluster -2147483648");
    assert_eq!(Error::FileTooLarge(0).message(), "BSP is larger than the configured limit: 0");
}

#[test]
fn states_what_is_wrong_with_a_sound() {
    assert_eq!(
        AudioError::InvalidSignature(*b"RIFX").message(),
        "invalid RIFF signature [82, 73, 70, 88]"
    );
    assert_eq!(
        AudioError::InvalidChunkRange { id: *b"data", offset: 44, size: 9 }.message(),
        "RIFF chunk [100, 97, 116, 97] has invalid range 44+9"
    );
    assert_eq!(AudioError::MissingDataChunk.message(), "WAVE file has no data chunk");
}
