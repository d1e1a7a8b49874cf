use greenfield::color::Rgb;
use greenfield::error::GreenfieldError;
use greenfield::image::Image;
use greenfield::quantization::UniformQuantization;

#[test]
/// Should create a new image
fn image_new() {
    // Ok
    let image = Image::new(
        1,
        1,
        UniformQuantization::new(1, 1, 1).unwrap(),
        vec![Rgb::new(0, 0, 0)],
    )
    .unwrap();
    assert_eq!(image.width, 1);
    assert_eq!(image.height, 1);
    assert_eq!(
        image.uniform_quantization,
        UniformQuantization::new(1, 1, 1).unwrap()
    );
    assert_eq!(image.data, vec![Rgb::new(0, 0, 0)]);

    // You can specify a width and height of 0, as long as the data is empty.
    let image = Image::new(0, 0, UniformQuantization::new(1, 1, 1).unwrap(), vec![]).unwrap();
    assert_eq!(image.width, 0);
    assert_eq!(image.height, 0);
    assert_eq!(
        image.uniform_quantization,
        UniformQuantization::new(1, 1, 1).unwrap()
    );

    // Invalid quantization
    let quantization = UniformQuantization::new(0, 1, 1);
    assert!(quantization.is_err());

    // Invalid data
    let image = Image::new(
        1,
        1,
        UniformQuantization::new(1, 1, 1).unwrap(),
        vec![Rgb::new(0, 0, 0), Rgb::new(0, 0, 0)],
    );
    assert!(image.is_err());
}

#[test]
/// Shoud serialize an image
fn image_serialize() {
    let image = Image::new(
        1,
        1,
        UniformQuantization::new(8, 8, 8).unwrap(),
        vec![Rgb::new(0, 0, 0)],
    )
    .unwrap();
    let serialized = image.serialize().unwrap();
    let expected = vec![
        103, 114, 110, 102, 108, 100, 52, 50, 0, 0, 0, 1, 0, 0, 0, 1, 136, 128, 0, 0, 0,
    ];
    assert_eq!(serialized, expected);
}

#[test]
/// Should deserialize an image
fn image_deserialize() {
    // Ok
    let serialized = vec![
        103, 114, 110, 102, 108, 100, 52, 50, 0, 0, 0, 1, 0, 0, 0, 1, 136, 128, 0, 0, 0,
    ];
    let image = Image::deserialize(&serialized).unwrap();
    let expected = Image::new(
        1,
        1,
        UniformQuantization::new(8, 8, 8).unwrap(),
        vec![Rgb::new(0, 0, 0)],
    )
    .unwrap();
    assert_eq!(image, expected);

    // Invalid data: lower colors than expected
    let serialized = vec![
        103, 114, 110, 102, 108, 100, 52, 50, 0, 0, 0, 1, 0, 0, 0, 1, 136, 128,
    ];
    let image = Image::deserialize(&serialized);
    assert!(image.is_err());

    // Ok: additional data will be ignored
    let serialized = vec![
        103, 114, 110, 102, 108, 100, 52, 50, 0, 0, 0, 1, 0, 0, 0, 1, 136, 128, 0, 0, 0, 0,
    ];
    let image = Image::deserialize(&serialized).unwrap();
    assert_eq!(image, expected);

    // Invalid data: invalid magic number
    let serialized = vec![
        103, 114, 110, 102, 108, 100, 52, 51, 0, 0, 0, 1, 0, 0, 0, 1, 136, 128, 0, 0, 0,
    ];
    let image = Image::deserialize(&serialized);
    assert!(image.is_err());
}

#[test]
// Should serialize and deserialize an image
fn image_serialize_deserialize() {
    let image = Image::new(
        1,
        1,
        UniformQuantization::new(8, 8, 8).unwrap(),
        vec![Rgb::new(0, 0, 0)],
    )
    .unwrap();
    let serialized = image.clone().serialize().unwrap();
    let deserialized = Image::deserialize(&serialized).unwrap();
    assert_eq!(image, deserialized);
}

#[test]
/// Should debug an image
fn image_debug() {
    let image = Image::new(
        2,
        2,
        UniformQuantization::new(8, 8, 8).unwrap(),
        vec![
            Rgb::random(),
            Rgb::random(),
            Rgb::random(),
            Rgb::random(),
        ],
    )
    .unwrap();
    println!("{:?}", image);
}

#[test]
/// Should correctly iterate over the image as colors
fn image_colors() {
    let image = Image::new(
        10,
        10,
        UniformQuantization::new(8, 8, 8).unwrap(),
        vec![Rgb::default(); 100],
    )
    .unwrap();

    let colors = image.colors();
    assert_eq!(colors.len(), 100);
}

#[test]
/// Should correctly into iterate over the image as pixels
fn image_pixels() {
    let image = Image::new(
        10,
        10,
        UniformQuantization::new(8, 8, 8).unwrap(),
        vec![Rgb::default(); 100],
    )
    .unwrap();

    let iter = image.pixels();
    assert_eq!(iter.len(), 100);
}

#[test]
/// Should correctly into iterate over the image as bytes
fn image_bytes() {
    let image = Image::new(
        10,
        10,
        UniformQuantization::new(8, 8, 8).unwrap(),
        vec![Rgb::default(); 100],
    )
    .unwrap();

    let iter = image.bytes();
    assert_eq!(iter.len(), 300);
}

#[test]
/// Should correctly get the image dimensions
fn image_dimensions() {
    let image = Image::new(
        10,
        10,
        UniformQuantization::new(8, 8, 8).unwrap(),
        vec![Rgb::default(); 100],
    )
    .unwrap();
    let (width, height) = image.dimensions();

    assert_eq!(width, 10);
    assert_eq!(height, 10);
}

#[test]
/// Should correctly get the image quantization
fn image_quantization() {
    let quantization = UniformQuantization::new(8, 8, 8).unwrap();
    let image = Image::new(10, 10, quantization.clone(), vec![Rgb::default(); 100]).unwrap();
    let image_quantization = image.quantization();

    assert_eq!(*image_quantization, quantization);
}

#[test]
/// A serialized empty image is exactly the 18-byte header
fn image_serialize_empty() {
    let image = Image::new(0, 0, UniformQuantization::new(8, 8, 8).unwrap(), vec![]).unwrap();
    let serialized = image.serialize().unwrap();
    let expected = vec![
        103, 114, 110, 102, 108, 100, 52, 50, 0, 0, 0, 0, 0, 0, 0, 0, 136, 128,
    ];
    assert_eq!(serialized, expected);
}

#[test]
/// A narrowed scheme survives the serialize/deserialize round trip with its
/// stored (already-quantized) pixels intact
fn image_round_trip_quantized() {
    let quantization = UniformQuantization::new(5, 6, 5).unwrap();
    let image = Image::new(
        2,
        2,
        quantization,
        vec![
            Rgb::new(12, 6, 12),
            Rgb::new(255, 0, 128),
            Rgb::new(1, 2, 3),
            Rgb::new(200, 100, 50),
        ],
    )
    .unwrap();
    let serialized = image.clone().serialize().unwrap();
    let deserialized = Image::deserialize(&serialized).unwrap();
    assert_eq!(image, deserialized);
}

#[test]
/// Construction fails at the 0x0 boundary unless the pixel array is empty
fn image_new_zero_dimensions() {
    let err = Image::new(
        0,
        0,
        UniformQuantization::new(8, 8, 8).unwrap(),
        vec![Rgb::new(1, 2, 3)],
    );
    assert_eq!(err, Err(GreenfieldError::InvalidImageDimension(1, 0)));
}

#[test]
/// Deserialization reports a dimension mismatch when pixel chunks are missing
fn image_deserialize_missing_chunks() {
    let quantization = UniformQuantization::new(5, 6, 5).unwrap();
    let image = Image::new(
        2,
        2,
        quantization,
        vec![
            Rgb::new(10, 20, 30),
            Rgb::new(40, 50, 60),
            Rgb::new(70, 80, 90),
            Rgb::new(100, 110, 120),
        ],
    )
    .unwrap();
    let mut serialized = image.serialize().unwrap();
    // Remove the last pixel bytes: fewer than 4 whole 16-bit chunks remain.
    serialized.truncate(serialized.len() - 3);
    let result = Image::deserialize(&serialized);
    assert!(matches!(
        result,
        Err(GreenfieldError::InvalidImageDimension(_, 4))
    ));
}

#[test]
/// Deserialization ignores trailing bytes beyond the declared pixels
fn image_deserialize_trailing_bytes() {
    let quantization = UniformQuantization::new(5, 6, 5).unwrap();
    let image = Image::new(
        2,
        2,
        quantization,
        vec![
            Rgb::new(10, 20, 30),
            Rgb::new(40, 50, 60),
            Rgb::new(70, 80, 90),
            Rgb::new(100, 110, 120),
        ],
    )
    .unwrap();
    let mut serialized = image.clone().serialize().unwrap();
    serialized.extend_from_slice(&[0xAB, 0xCD, 0xEF, 0x01, 0x23]);
    let deserialized = Image::deserialize(&serialized).unwrap();
    assert_eq!(image, deserialized);
}

#[test]
/// Any single-bit corruption of the magic value is rejected
fn image_deserialize_magic_bit_flip() {
    let image = Image::new(
        1,
        1,
        UniformQuantization::new(8, 8, 8).unwrap(),
        vec![Rgb::new(0, 0, 0)],
    )
    .unwrap();
    let serialized = image.serialize().unwrap();
    for byte in 0..8 {
        for bit in 0..8 {
            let mut corrupted = serialized.clone();
            corrupted[byte] ^= 1u8 << bit;
            let result = Image::deserialize(&corrupted);
            assert_eq!(result, Err(GreenfieldError::MalformedHeader));
        }
    }
}

#[test]
/// A header that declares a channel width outside [1, 8] is rejected
fn image_deserialize_invalid_scheme() {
    // Magic, 1x1, then scheme nibbles (0, 8, 8).
    let serialized = vec![
        103, 114, 110, 102, 108, 100, 52, 50, 0, 0, 0, 1, 0, 0, 0, 1, 0x08, 0x80, 0, 0, 0,
    ];
    let result = Image::deserialize(&serialized);
    assert_eq!(
        result,
        Err(GreenfieldError::InvalidQuantizationLevel(0, 8, 8))
    );
}

#[test]
/// A buffer shorter than the fixed header is rejected as malformed
fn image_deserialize_short_buffer() {
    let result = Image::deserialize(&vec![103, 114, 110]);
    assert_eq!(result, Err(GreenfieldError::MalformedHeader));

    let result = Image::deserialize(&vec![
        103, 114, 110, 102, 108, 100, 52, 50, 0, 0, 0, 1, 0, 0, 0, 1, 136,
    ]);
    assert_eq!(result, Err(GreenfieldError::MalformedHeader));
}
