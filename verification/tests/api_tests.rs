use rand::Rng;
use rlzav::api::{compress_bound, compress_default, decompress};
use rlzav::bound::lzav_compress_bound;
use rlzav::compress::lzav_compress;
use rlzav::constants::LZAV_MIN_COMPRESS_SIZE;
use rlzav::decompress::lzav_decompress;

fn verify_roundtrip(original: &[u8]) {
    let mut compressed = vec![0u8; compress_bound(original.len() as i32) as usize];

    let mut decompressed = vec![0u8; original.len()];

    let compressed_len = compress_default(original, &mut compressed);
    assert!(compressed_len > 0, "Compression failed");

    println!("\nCompression Results:");
    println!("Original size: {} bytes", original.len());
    println!("Compressed size: {} bytes", compressed_len);
    println!(
        "Compression ratio: {:.2}%",
        (compressed_len as f64 / original.len() as f64) * 100.0
    );

    let decompressed_len = decompress(&compressed[..compressed_len as usize], &mut decompressed);

    {
        let decompressed_length = decompressed_len as usize;
        assert_eq!(
            decompressed_length,
            original.len(),
            "Decompressed length does not match original length"
        );
        assert_eq!(
            &decompressed[..decompressed_length],
            original,
            "Decompressed data does not match original"
        );
    }

    println!("\nData sample (first 16 bytes or less):");
    println!("Original:    {:02x?}", &original[..original.len().min(16)]);
    println!("Decompressed:{:02x?}", &decompressed[..decompressed.len().min(16)]);

    if original.len() > 16 {
        println!("...");
    }
}

#[test]
fn test_compress_decompress() {
    let original = b"Hello, World!";
    verify_roundtrip(original);
}

#[test]
fn test_compress_bound() {
    {
        assert!(compress_bound(100) > 0);
        assert_eq!(compress_bound(0), 16);
        assert!(compress_bound(1) > 0);
    }
}

#[test]
fn test_roundtrip_random_data() {
    let mut rng = rand::thread_rng();
    let size = 1024;
    let original: Vec<u8> = (0..size).map(|_| rng.gen()).collect();
    verify_roundtrip(&original);
}

#[test]
fn test_html_compression() {
    let data = br#"<!DOCTYPE html>
<html>
<head>
    <title>Test Page</title>
</head>
<body>
    <div class="container">
        <h1>Welcome</h1>
        <p>This is a test page with repeating content.</p>
        <div class="container">
            <h1>Welcome</h1>
            <p>This is a test page with repeating content.</p>
        </div>
    </div>
</body>
</html>"#;
    verify_roundtrip(data);
}

#[test]
fn test_json_compression() {
    let data = br#"{"key":"value","array":[1,2,3],"nested":{"hello":"world","array":[1,2,3,4,5]},"repeated":{"hello":"world","array":[1,2,3,4,5]}}"#;
    verify_roundtrip(data);
}

#[test]
fn test_markdown_compression() {
    let data = br#"# Title

Some text with **bold** formatting.

## Section 1
- List item 1
- List item 2
- List item 3

## Section 2
Same content repeated:
- List item 1
- List item 2
- List item 3
"#;
    verify_roundtrip(data);
}

#[test]
fn test_compression_ratios() {
    let test_cases = vec![
        (
            std::iter::repeat("ABCDEFGHIJKLMNOP")
                .take(64)
                .collect::<String>()
                .into_bytes(),
            "repeating_pattern",
            0.1,
        ),
        (
            "The quick brown fox jumps over the lazy dog. "
                .repeat(64)
                .into_bytes(),
            "english_text",
            0.5,
        ),
        (
            {
                let mut data = Vec::with_capacity(1024);
                for i in 0..1024 {
                    data.push((i % 256) as u8);
                }
                data
            },
            "binary_pattern",
            0.7,
        ),
        (
            {
                let mut data = Vec::new();
                data.extend_from_slice(b"Header:");
                data.extend(std::iter::repeat(b"1234567890").take(32).flatten());
                data.extend_from_slice(b"Footer:");
                data.extend(std::iter::repeat(b"ABCDEFGHIJ").take(32).flatten());
                data
            },
            "mixed_content",
            0.4,
        ),
    ];

    for (input, name, expected_ratio) in test_cases {
        let input = if input.len() < LZAV_MIN_COMPRESS_SIZE {
            input.repeat((LZAV_MIN_COMPRESS_SIZE / input.len()) + 1)
        } else {
            input
        };

        let bound = lzav_compress_bound(input.len() as i32) as usize;
        let mut compressed = vec![0u8; bound];
        let compressed_size =
            lzav_compress(&input, &mut compressed, None).expect("Compression failed");
        compressed.truncate(compressed_size);

        let ratio = compressed.len() as f64 / input.len() as f64;

        let mut decompressed = vec![0u8; input.len()];
        let decompressed_size = match lzav_decompress(&compressed, &mut decompressed, input.len()) {
            Ok(size) => size,
            Err(e) => {
                println!("Decompression failed: {}", e);
                return;
            }
        };

        assert_eq!(decompressed_size, input.len(), "Decompression size mismatch");
        assert_eq!(&decompressed, &input, "Decompression content mismatch");
        assert!(
            ratio < expected_ratio,
            "Compression ratio for {} ({}%) exceeds expected {}%",
            name,
            (ratio * 100.0) as i32,
            (expected_ratio * 100.0) as i32
        );

        println!(
            "Test case '{}': Original size: {}, Compressed size: {}, Ratio: {:.2}%",
            name,
            input.len(),
            compressed.len(),
            ratio * 100.0
        );
    }
}

#[test]
fn test_real_world_data() {
    let json = r#"{
        "name": "Test Object",
        "numbers": [1,2,3,4,5],
        "nested": {
            "field1": "value1",
            "field2": "value2"
        }
    }"#
    .repeat(10);

    let input = json.into_bytes();
    let bound = lzav_compress_bound(input.len() as i32) as usize;
    let mut compressed = vec![0u8; bound];

    let compressed_size =
        lzav_compress(&input, &mut compressed, None).expect("JSON compression failed");
    compressed.truncate(compressed_size);

    let ratio = compressed.len() as f64 / input.len() as f64;
    println!("JSON compression ratio: {:.2}%", ratio * 100.0);
    assert!(ratio < 0.5, "JSON compression ratio ({:.2}%) exceeds 50%", ratio * 100.0);

    let html = r#"<!DOCTYPE html>
    <html>
    <head><title>Test Page</title></head>
    <body>
        <div class="container">
            <h1>Hello World</h1>
            <p>This is a test paragraph with some repeated content.</p>
        </div>
    </body>
    </html>"#
        .repeat(10);

    let input = html.into_bytes();
    let bound = lzav_compress_bound(input.len() as i32) as usize;
    let mut compressed = vec![0u8; bound];

    let compressed_size =
        lzav_compress(&input, &mut compressed, None).expect("HTML compression failed");
    compressed.truncate(compressed_size);

    let ratio = compressed.len() as f64 / input.len() as f64;
    println!("HTML compression ratio: {:.2}%", ratio * 100.0);
    assert!(ratio < 0.4, "HTML compression ratio ({:.2}%) exceeds 40%", ratio * 100.0);
}

#[test]
fn test_large_input_handling() {
    let large_input = vec![0u8; LZAV_MIN_COMPRESS_SIZE * 4];
    let bound = lzav_compress_bound(large_input.len() as i32) as usize;
    let mut compressed = vec![0u8; bound];
    let res = lzav_compress(&large_input, &mut compressed, None);
    assert!(res.is_ok());
}
