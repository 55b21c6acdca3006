use cifar10_cnn::api::image_util::rgb32_to_planar;
use cifar10_cnn::training::capacity::{batch_fits, batches_fit_check};
use cifar10_cnn::config::ModelConfig;
use cifar10_cnn::api::gpu::parse_gpu_query;
use cifar10_cnn::api::image_util::image_bytes_to_tensor;
use cifar10_cnn::api::paths::{validate_checkpoint_path, validate_data_dir};
use cifar10_cnn::api::types::{cifar10_param_count, ApiBackend, CIFAR10_CLASS_NAMES};
use cifar10_cnn::training::network::Backend;
use image::{DynamicImage, ImageFormat, Rgb, RgbImage};
use std::io::Cursor;

fn png(image: RgbImage) -> Vec<u8> {
    let mut bytes = Vec::new();
    DynamicImage::ImageRgb8(image).write_to(&mut Cursor::new(&mut bytes), ImageFormat::Png).unwrap();
    bytes
}

#[test]
fn image_to_tensor_shape_and_range() {
    let mut image = RgbImage::new(4, 4);
    for pixel in image.pixels_mut() {
        *pixel = Rgb([128, 64, 32]);
    }

    let tensor = image_bytes_to_tensor(&png(image)).unwrap();

    assert_eq!(tensor.shape, vec![1, 3, 32, 32]);
    assert_eq!(tensor.data.len(), 3 * 32 * 32);
    assert!(tensor.data[..1024].iter().all(|v| *v == 128));
    assert!(tensor.data[1024..2048].iter().all(|v| *v == 64));
    assert!(tensor.data[2048..].iter().all(|v| *v == 32));
}

#[test]
fn image_to_tensor_separates_channels() {
    let mut image = RgbImage::new(32, 32);
    image.put_pixel(0, 0, Rgb([10, 20, 30]));
    image.put_pixel(31, 0, Rgb([40, 50, 60]));

    let tensor = image_bytes_to_tensor(&png(image)).unwrap();

    assert_eq!(tensor.data[0], 10);
    assert_eq!(tensor.data[1024], 20);
    assert_eq!(tensor.data[2048], 30);
    assert_eq!(tensor.data[31], 40);
    assert_eq!(tensor.data[1024 + 31], 50);
    assert_eq!(tensor.data[2048 + 31], 60);
}

#[test]
fn image_to_tensor_rejects_bytes_that_are_no_image() {
    let err = image_bytes_to_tensor(b"definitely not an image").unwrap_err();
    assert!(!err.message.is_empty());
}

#[test]
fn checkpoint_paths_without_parent_components_are_accepted() {
    assert_eq!(validate_checkpoint_path("weights/model.ck10"), Ok(()));
    assert_eq!(validate_checkpoint_path("a/..b/c.."), Ok(()));
    assert_eq!(validate_checkpoint_path("./x/.../y"), Ok(()));
}

#[test]
fn checkpoint_paths_are_rejected_when_empty_or_escaping() {
    assert_eq!(validate_checkpoint_path(""), Err("path must not be empty".to_string()));
    for path in ["..", "../x", "a/../b", "a/..", "/tmp/../etc"] {
        assert_eq!(
            validate_checkpoint_path(path),
            Err("path must not contain '..' components".to_string()),
            "{path}"
        );
    }
}

#[test]
fn data_dir_checks_use_their_own_messages() {
    assert_eq!(validate_data_dir("data/cifar-10-batches-bin"), Ok(()));
    assert_eq!(validate_data_dir(""), Err("data_dir must not be empty".to_string()));
    assert_eq!(validate_data_dir("data/../x"), Err("data_dir must not contain '..' components".to_string()));
}

#[test]
fn cifar10_param_count_sums_every_tensor() {
    assert_eq!(cifar10_param_count(), 864 + 32 + 18_432 + 64 + 40_960 + 10);
}

#[test]
fn class_names_cover_the_ten_classes() {
    assert_eq!(CIFAR10_CLASS_NAMES.len(), 10);
    assert_eq!(CIFAR10_CLASS_NAMES[0], "airplane");
    assert_eq!(CIFAR10_CLASS_NAMES[9], "truck");
}

#[test]
fn api_backend_converts_to_backend() {
    assert_eq!(Backend::from(ApiBackend::Cpu), Backend::Cpu);
    assert_eq!(Backend::from(ApiBackend::Gpu), Backend::Gpu);
}

#[test]
fn gpu_query_reads_name_memory_and_driver() {
    let q = parse_gpu_query(b"NVIDIA GeForce RTX 3080, 10240, 535.54.03\nsecond, 1, 2\n");
    assert!(q.available);
    assert_eq!(q.name, Some(b"NVIDIA GeForce RTX 3080".to_vec()));
    assert_eq!(q.vram_mb, Some(10240));
    assert_eq!(q.driver_version, Some(b"535.54.03".to_vec()));
}

#[test]
fn gpu_query_handles_crlf_and_partial_lines() {
    let q = parse_gpu_query(b" Tesla T4 ,+15360\r\n");
    assert!(!q.available);
    assert_eq!(q.name, Some(b"Tesla T4".to_vec()));
    assert_eq!(q.vram_mb, Some(15360));
    assert_eq!(q.driver_version, None);

    let q = parse_gpu_query(b"");
    assert!(!q.available);
    assert_eq!(q.name, Some(Vec::new()));
    assert_eq!(q.vram_mb, None);
}

#[test]
fn gpu_query_rejects_memory_that_is_no_number() {
    assert_eq!(parse_gpu_query(b"a, -1, c").vram_mb, None);
    assert_eq!(parse_gpu_query(b"a, 12x, c").vram_mb, None);
    assert_eq!(parse_gpu_query(b"a, 99999999999999999999999, c").vram_mb, None);
    assert_eq!(parse_gpu_query(b"a, +, c").vram_mb, None);
    assert_eq!(parse_gpu_query(b"a, , c").vram_mb, None);
    assert_eq!(parse_gpu_query(b"a, 007, c").vram_mb, Some(7));
}

#[test]
fn gpu_query_trims_unicode_whitespace_like_str_trim() {
    let line = "\u{a0}Tesla T4\u{3000}, 15360\u{2009}, 535.1\u{85}\n";
    let q = parse_gpu_query(line.as_bytes());
    let expected: Vec<&str> = line.lines().next().unwrap().split(',').map(str::trim).collect();
    assert_eq!(q.name.as_deref(), Some(expected[0].as_bytes()));
    assert_eq!(q.vram_mb, expected[1].parse().ok());
    assert_eq!(q.driver_version.as_deref(), Some(expected[2].as_bytes()));
    assert_eq!(q.vram_mb, Some(15360));
}

#[test]
fn rgb32_to_planar_separates_the_channels() {
    let raw: Vec<u8> = (0..3072).map(|i| (i % 251) as u8).collect();
    let t = rgb32_to_planar(&raw);
    assert_eq!(t.shape, vec![1, 3, 32, 32]);
    for ch in 0..3 {
        for p in 0..1024 {
            assert_eq!(t.data[ch * 1024 + p], raw[p * 3 + ch]);
        }
    }
}

#[test]
fn batch_size_checks_follow_the_buffer_limits() {
    let cfg = ModelConfig::cifar10();
    assert!(batch_fits(cfg, 64));
    assert!(!batch_fits(cfg, 0));
    assert!(!batch_fits(cfg, usize::MAX / 2));
    assert!(batches_fit_check(cfg, 8));
}
