use vigb_decoder::MaxError;

#[test]
fn bad_magic_displays() {
    let e = MaxError::BadMagic { offset: 0x42 };
    assert_eq!(e.message(), "not a ViGB file: bad magic at offset 0x42");
}

#[test]
fn truncated_displays() {
    let e = MaxError::Truncated {
        offset: 0x100,
        need: 8,
        have: 3,
    };
    assert_eq!(e.message(), "truncated chunk at 0x100: need 8 bytes, have 3");
}

#[test]
fn image_too_large_displays() {
    let e = MaxError::ImageTooLarge {
        width: 65535,
        height: 65535,
        pixels: 4_294_836_225,
        max: 200 * 1024 * 1024,
    };
    let s = e.message();
    assert!(s.contains("65535x65535"));
    assert!(s.contains("4294836225 pixels"));
}

#[test]
fn io_error_wrapping_round_trips() {
    let io = std::io::Error::new(std::io::ErrorKind::NotFound, "no such file");
    let e: MaxError = io.into();
    assert!(matches!(e, MaxError::Io(_)));
    assert!(e.message().contains("io:"));
}

#[test]
fn messages_render_numbers_exactly() {
    assert_eq!(
        MaxError::BadMagic { offset: 0 }.message(),
        "not a ViGB file: bad magic at offset 0x0"
    );
    assert_eq!(
        MaxError::BadMagic { offset: 0xdead_beef }.message(),
        "not a ViGB file: bad magic at offset 0xdeadbeef"
    );
    assert_eq!(
        MaxError::ImageTooLarge {
            width: 16384,
            height: 16384,
            pixels: 268_435_456,
            max: 209_715_200
        }
        .message(),
        "image dimensions 16384x16384 exceed maximum supported size (268435456 pixels, max 209715200 pixels)"
    );
    assert_eq!(
        MaxError::TooManyPages { count: 1025, max: 1024 }.message(),
        "too many pages: 1025 image chunks, max 1024"
    );
    let io = std::io::Error::new(std::io::ErrorKind::Other, "disk on fire");
    assert_eq!(MaxError::from(io).message(), "io: disk on fire");
}
