use greenfield::color::Rgb;
use greenfield::quantization::UniformQuantization;

/// Builds a bit sequence from 0/1 digits.
fn bits(xs: &[u8]) -> Vec<bool> {
    xs.iter().map(|&x| x == 1).collect()
}

#[test]
/// All quantizations fields correctly set
fn quantization_new_ok() {
    let quantization = UniformQuantization::new(1, 1, 1).unwrap();
    assert_eq!(
        quantization,
        UniformQuantization {
            bits_r: 1,
            bits_g: 1,
            bits_b: 1
        }
    );
}

#[test]
/// Fields lower than 1 or higher than 8 are not allowed
fn quantization_new_err() {
    let quantization = UniformQuantization::new(0, 1, 1);
    assert!(quantization.is_err());

    let quantization = UniformQuantization::new(1, 0, 1);
    assert!(quantization.is_err());

    let quantization = UniformQuantization::new(1, 1, 0);
    assert!(quantization.is_err());

    let quantization = UniformQuantization::new(9, 1, 1);
    assert!(quantization.is_err());

    let quantization = UniformQuantization::new(1, 9, 1);
    assert!(quantization.is_err());

    let quantization = UniformQuantization::new(1, 1, 9);
    assert!(quantization.is_err());
}

#[test]
/// The default quantization is 8 bits per channel
fn quantization_default() {
    let quantization = UniformQuantization::default();
    assert_eq!(
        quantization,
        UniformQuantization {
            bits_r: 8,
            bits_g: 8,
            bits_b: 8
        }
    );
}

#[test]
/// A color should be correctly quantized
fn quantization_get_quantized_color() {
    let color = Rgb::new(0, 0, 0);
    let quantization = UniformQuantization::new(1, 1, 1).unwrap();
    let quantized_color = quantization.get_quantized_color(&color);
    let expected_color = Rgb::new(0, 0, 0);
    assert_eq!(quantized_color, expected_color);

    let color = Rgb::new(255, 255, 255);
    let quantization = UniformQuantization::new(1, 1, 1).unwrap();
    let quantized_color = quantization.get_quantized_color(&color);
    let expected_color = Rgb::new(1, 1, 1);
    assert_eq!(quantized_color, expected_color);

    let color = Rgb::new(100, 100, 100);
    let quantization = UniformQuantization::new(1, 1, 1).unwrap();
    let quantized_color = quantization.get_quantized_color(&color);
    let expected_color = Rgb::new(0, 0, 0);
    assert_eq!(quantized_color, expected_color);

    let color = Rgb::new(200, 200, 200);
    let quantization = UniformQuantization::new(1, 1, 1).unwrap();
    let quantized_color = quantization.get_quantized_color(&color);
    let expected_color = Rgb::new(1, 1, 1);
    assert_eq!(quantized_color, expected_color);

    let color = Rgb::new(255, 255, 255);
    let quantization = UniformQuantization::new(5, 6, 5).unwrap();
    let quantized_color = quantization.get_quantized_color(&color);
    let expected_color = Rgb::new(31, 63, 31);
    assert_eq!(quantized_color, expected_color);

    let color = Rgb::new(255, 255, 255);
    let quantization = UniformQuantization::new(8, 8, 8).unwrap();
    let quantized_color = quantization.get_quantized_color(&color);
    let expected_color = Rgb::new(255, 255, 255);
    assert_eq!(quantized_color, expected_color);
}

#[test]
/// A color should be correctly quantized in place
fn quantization_quantify_color() {
    let mut color = Rgb::new(0, 0, 0);
    let quantization = UniformQuantization::new(1, 1, 1).unwrap();
    quantization.quantify_color(&mut color);
    let expected_color = Rgb::new(0, 0, 0);
    assert_eq!(color, expected_color);

    let mut color = Rgb::new(255, 255, 255);
    let quantization = UniformQuantization::new(1, 1, 1).unwrap();
    quantization.quantify_color(&mut color);
    let expected_color = Rgb::new(1, 1, 1);
    assert_eq!(color, expected_color);

    let mut color = Rgb::new(100, 100, 100);
    let quantization = UniformQuantization::new(1, 1, 1).unwrap();
    quantization.quantify_color(&mut color);
    let expected_color = Rgb::new(0, 0, 0);
    assert_eq!(color, expected_color);

    let mut color = Rgb::new(200, 200, 200);
    let quantization = UniformQuantization::new(1, 1, 1).unwrap();
    quantization.quantify_color(&mut color);
    let expected_color = Rgb::new(1, 1, 1);
    assert_eq!(color, expected_color);

    let mut color = Rgb::new(255, 255, 255);
    let quantization = UniformQuantization::new(5, 6, 5).unwrap();
    quantization.quantify_color(&mut color);
    let expected_color = Rgb::new(31, 63, 31);
    assert_eq!(color, expected_color);

    let mut color = Rgb::new(255, 255, 255);
    let quantization = UniformQuantization::new(8, 8, 8).unwrap();
    quantization.quantify_color(&mut color);
    let expected_color = Rgb::new(255, 255, 255);
    assert_eq!(color, expected_color);
}

#[test]
/// A color should be correctly dequantized
fn quantization_get_dequantized_color() {
    let color = Rgb::new(0, 0, 0);
    let quantization = UniformQuantization::new(1, 1, 1).unwrap();
    let dequantized_color = quantization.get_dequantized_color(&color);
    let expected_color = Rgb::new(64, 64, 64);
    assert_eq!(dequantized_color, expected_color);

    let color = Rgb::new(1, 1, 1);
    let quantization = UniformQuantization::new(1, 1, 1).unwrap();
    let dequantized_color = quantization.get_dequantized_color(&color);
    let expected_color = Rgb::new(192, 192, 192);
    assert_eq!(dequantized_color, expected_color);

    let color = Rgb::new(0, 0, 0);
    let quantization = UniformQuantization::new(5, 6, 5).unwrap();
    let dequantized_color = quantization.get_dequantized_color(&color);
    let expected_color = Rgb::new(4, 2, 4);
    assert_eq!(dequantized_color, expected_color);

    let color = Rgb::new(31, 63, 31);
    let quantization = UniformQuantization::new(5, 6, 5).unwrap();
    let dequantized_color = quantization.get_dequantized_color(&color);
    let expected_color = Rgb::new(252, 254, 252);
    assert_eq!(dequantized_color, expected_color);

    let color = Rgb::new(255, 255, 255);
    let quantization = UniformQuantization::new(8, 8, 8).unwrap();
    let dequantized_color = quantization.get_dequantized_color(&color);
    let expected_color = Rgb::new(255, 255, 255);
    assert_eq!(dequantized_color, expected_color);
}

#[test]
/// A color should be correctly dequantized in place
fn quantization_dequantify_color() {
    let mut color = Rgb::new(0, 0, 0);
    let quantization = UniformQuantization::new(1, 1, 1).unwrap();
    quantization.dequantify_color(&mut color);
    let expected_color = Rgb::new(64, 64, 64);
    assert_eq!(color, expected_color);

    let mut color = Rgb::new(1, 1, 1);
    let quantization = UniformQuantization::new(1, 1, 1).unwrap();
    quantization.dequantify_color(&mut color);
    let expected_color = Rgb::new(192, 192, 192);
    assert_eq!(color, expected_color);

    let mut color = Rgb::new(0, 0, 0);
    let quantization = UniformQuantization::new(5, 6, 5).unwrap();
    quantization.dequantify_color(&mut color);
    let expected_color = Rgb::new(4, 2, 4);
    assert_eq!(color, expected_color);

    let mut color = Rgb::new(31, 63, 31);
    let quantization = UniformQuantization::new(5, 6, 5).unwrap();
    quantization.dequantify_color(&mut color);
    let expected_color = Rgb::new(252, 254, 252);
    assert_eq!(color, expected_color);

    let mut color = Rgb::new(255, 255, 255);
    let quantization = UniformQuantization::new(8, 8, 8).unwrap();
    quantization.dequantify_color(&mut color);
    let expected_color = Rgb::new(255, 255, 255);
    assert_eq!(color, expected_color);
}

#[test]
/// A compressed bit sequence should be correctly decompressed to a Vec of Colors
fn quantization_decompress() {
    let compressed = bits(&[0, 0, 0, 0, 0, 0, 0, 1, 0, 0, 0, 0, 0, 0, 0, 1, 0, 0, 0, 0, 0, 0, 0, 1]);
    let quantization = UniformQuantization::new(8, 8, 8).unwrap();
    let decompressed = quantization.decompress(&compressed);
    let expected = vec![Rgb::new(1, 1, 1)];
    assert_eq!(decompressed, expected);

    let compressed = bits(&[0, 0, 0, 0, 1, 0, 0, 0, 0, 0, 1, 0, 0, 0, 0, 1]);
    let quantization = UniformQuantization::new(5, 6, 5).unwrap();
    let decompressed = quantization.decompress(&compressed);
    let expected = vec![Rgb::new(12, 6, 12)];
    assert_eq!(decompressed, expected);

    let compressed = bits(
        &[0, 0, 0, 0, 1, 0, 0, 0, 0, 0, 1, 0, 0, 0, 0, 1, 0, 0, 0, 0, 1, 0, 0, 0, 0, 0, 1, 0, 0, 0, 0, 1],
    );
    let quantization = UniformQuantization::new(5, 6, 5).unwrap();
    let decompressed = quantization.decompress(&compressed);
    let expected = vec![Rgb::new(12, 6, 12), Rgb::new(12, 6, 12)];
    assert_eq!(decompressed, expected);

    let compressed = bits(&[1, 1, 1, 1, 1, 1]);
    let quantization = UniformQuantization::new(2, 2, 2).unwrap();
    let decompressed = quantization.decompress(&compressed);
    let expected = vec![Rgb::new(224, 224, 224)];
    assert_eq!(decompressed, expected);
}

#[test]
/// A Vec of Colors should be correctly compressed to a bit sequence
fn quantization_compress() {
    let colors = vec![Rgb::new(1, 1, 1)];
    let quantization = UniformQuantization::new(8, 8, 8).unwrap();
    let compressed = quantization.compress(&colors);
    let expected = bits(&[0, 0, 0, 0, 0, 0, 0, 1, 0, 0, 0, 0, 0, 0, 0, 1, 0, 0, 0, 0, 0, 0, 0, 1]);
    assert_eq!(compressed, expected);

    let colors = vec![Rgb::new(12, 6, 12)];
    let quantization = UniformQuantization::new(5, 6, 5).unwrap();
    let compressed = quantization.compress(&colors);
    let expected = bits(&[0, 0, 0, 0, 1, 0, 0, 0, 0, 0, 1, 0, 0, 0, 0, 1]);
    assert_eq!(compressed, expected);

    let colors = vec![Rgb::new(12, 6, 12), Rgb::new(12, 6, 12)];
    let quantization = UniformQuantization::new(5, 6, 5).unwrap();
    let compressed = quantization.compress(&colors);
    let expected = bits(
        &[0, 0, 0, 0, 1, 0, 0, 0, 0, 0, 1, 0, 0, 0, 0, 1, 0, 0, 0, 0, 1, 0, 0, 0, 0, 0, 1, 0, 0, 0, 0, 1],
    );
    assert_eq!(compressed, expected);

    let colors = vec![Rgb::new(224, 224, 224)];
    let quantization = UniformQuantization::new(2, 2, 2).unwrap();
    let compressed = quantization.compress(&colors);
    let expected = bits(&[1, 1, 1, 1, 1, 1]);
    assert_eq!(compressed, expected);
}

#[test]
/// Dequantizing keeps a color inside its quantization interval: quantizing
/// the dequantized color gives the same indices again
fn quantization_requantize_stable() {
    let quantization = UniformQuantization::new(1, 1, 1).unwrap();
    let q1 = quantization.get_quantized_color(&Rgb::new(100, 100, 100));
    assert_eq!(q1, Rgb::new(0, 0, 0));
    let d = quantization.get_dequantized_color(&q1);
    assert_eq!(d, Rgb::new(64, 64, 64));
    let q2 = quantization.get_quantized_color(&d);
    assert_eq!(q1, q2);

    let quantization = UniformQuantization::new(3, 5, 2).unwrap();
    let q1 = quantization.get_quantized_color(&Rgb::new(100, 37, 200));
    let d = quantization.get_dequantized_color(&q1);
    let q2 = quantization.get_quantized_color(&d);
    assert_eq!(q1, q2);
}

#[test]
/// At full precision quantize and dequantize are both the identity
fn quantization_full_precision_identity() {
    let quantization = UniformQuantization::new(8, 8, 8).unwrap();
    let color = Rgb::new(13, 77, 250);
    assert_eq!(quantization.get_quantized_color(&color), color);
    assert_eq!(quantization.get_dequantized_color(&color), color);
}

#[test]
/// Compressing then decompressing yields dequantize(quantize(c)) per record
fn quantization_compress_decompress_round_trip() {
    let quantization = UniformQuantization::new(5, 6, 5).unwrap();
    let colors = vec![
        Rgb::new(12, 6, 12),
        Rgb::new(255, 0, 128),
        Rgb::new(1, 2, 3),
        Rgb::new(200, 100, 50),
    ];
    let compressed = quantization.compress(&colors);
    assert_eq!(compressed.len(), colors.len() * 16);
    let decompressed = quantization.decompress(&compressed);
    let expected = colors
        .iter()
        .map(|c| quantization.get_dequantized_color(&quantization.get_quantized_color(c)))
        .collect::<Vec<Rgb>>();
    assert_eq!(decompressed, expected);
}
