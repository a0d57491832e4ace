use blurslice::{from_byte_slice, pixels_to_bytes, SliceSizeError};

#[test]
fn test_successful_byte_slice() {
    let expected_results_rgb: Vec<(Vec<u8>, Result<Vec<[u8; 3]>, SliceSizeError>)> = vec![
        (vec![0xff, 0xb0, 0x00], Ok(vec![[0xff, 0xb0, 0x00]])),
        (vec![], Ok(vec![])),
        (vec![0xff, 0xb0, 0x00, 0x01], Err(SliceSizeError { expected: 3, actual: 4, channels: 3 })),
        (vec![0xff, 0xb0, 0x00, 0x01, 0x02], Err(SliceSizeError { expected: 3, actual: 5, channels: 3 })),
        (vec![0xff], Err(SliceSizeError { expected: 0, actual: 1, channels: 3 })),
        (vec![0xff, 0xb0], Err(SliceSizeError { expected: 0, actual: 2, channels: 3 })),
    ];

    for expected in expected_results_rgb {
        let mut mutable = expected.0.clone();
        let result = from_byte_slice::<3>(&mut mutable);
        let mapped = result.map(|r| -> Vec<_> { r.to_owned() });
        assert_eq!(expected.1, mapped);
    }

    let expected_results_rgba: Vec<(Vec<u8>, Result<Vec<[u8; 4]>, SliceSizeError>)> = vec![
        (vec![0xff, 0xb0, 0x00, 0x01], Ok(vec![[0xff, 0xb0, 0x00, 0x01]])),
        (vec![], Ok(vec![])),
        (vec![0xff, 0xb0, 0x00, 0x01, 0x02], Err(SliceSizeError { expected: 4, actual: 5, channels: 4 })),
        (vec![0xff], Err(SliceSizeError { expected: 0, actual: 1, channels: 4 })),
        (vec![0xff, 0xb0], Err(SliceSizeError { expected: 0, actual: 2, channels: 4 })),
        (vec![0xff, 0xb0, 0x00], Err(SliceSizeError { expected: 0, actual: 3, channels: 4 })),
        (
            vec![0xff, 0xb0, 0x00, 0x01, 0xff, 0xb0, 0x00, 0x01, 0x50, 0x99, 0x44, 0x34],
            Ok(vec![[0xff, 0xb0, 0x00, 0x01], [0xff, 0xb0, 0x00, 0x01], [0x50, 0x99, 0x44, 0x34]]),
        ),
    ];

    for expected in expected_results_rgba {
        let mut mutable = expected.0.clone();
        let result = from_byte_slice::<4>(&mut mutable);
        let mapped = result.map(|r| -> Vec<_> { r.to_owned() });
        assert_eq!(expected.1, mapped);
    }

    let expected_results_luma: Vec<(Vec<u8>, Result<Vec<[u8; 1]>, SliceSizeError>)> = vec![
        (vec![0xff], Ok(vec![[0xff]])),
        (vec![0xff, 0xb0, 0x00, 0x01], Ok(vec![[0xff], [0xb0], [0x00], [0x01]])),
        (vec![], Ok(vec![])),
    ];

    for expected in expected_results_luma {
        let mut mutable = expected.0.clone();
        let result = from_byte_slice::<1>(&mut mutable);
        let mapped = result.map(|r| -> Vec<_> { r.to_owned() });
        assert_eq!(expected.1, mapped);
    }
}

#[test]
fn rgb_slice_of_four_bytes_is_rejected() {
    let bytes = vec![0xff, 0xb0, 0x00, 0x01];
    assert_eq!(
        from_byte_slice::<3>(&bytes),
        Err(SliceSizeError { expected: 3, actual: 4, channels: 3 })
    );
    assert_eq!(from_byte_slice::<3>(&[]), Ok(vec![]));
}

#[test]
fn reshape_then_flatten_gives_bytes_back() {
    let bytes: Vec<u8> = (0..24u8).map(|b| b.wrapping_mul(37)).collect();
    let pixels = from_byte_slice::<4>(&bytes).unwrap();
    assert_eq!(pixels.len(), 6);
    assert_eq!(pixels[1], [bytes[4], bytes[5], bytes[6], bytes[7]]);
    assert_eq!(pixels_to_bytes(&pixels), bytes);
    let pixels3 = from_byte_slice::<3>(&bytes).unwrap();
    assert_eq!(pixels_to_bytes(&pixels3), bytes);
}

#[test]
fn size_error_message_names_lengths() {
    let e = SliceSizeError { expected: 3, actual: 4, channels: 3 };
    assert_eq!(
        e.message(),
        "incorrect u8 slice length 4 for 3 channel image, expected 3 or 6"
    );
}
