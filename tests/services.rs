use pixelate::assets::{AssetError, AssetManager, ImageData};
use pixelate::logger::{LogLevel, Logger};
use pixelate::window::WindowConfiguration;

fn png_bytes(width: u32, height: u32, pixel: [u8; 4]) -> Vec<u8> {
    let image = image::RgbaImage::from_pixel(width, height, image::Rgba(pixel));
    let mut out = std::io::Cursor::new(Vec::new());
    image.write_to(&mut out, image::ImageFormat::Png).unwrap();
    out.into_inner()
}

#[test]
fn logger_filters_below_minimum() {
    let mut logger = Logger::new(LogLevel::Info);
    assert_eq!(logger.min_level(), LogLevel::Info);
    assert!(!logger.should_log(LogLevel::Debug));
    assert!(logger.should_log(LogLevel::Info));
    assert!(logger.should_log(LogLevel::Critical));
    logger.set_min_level(LogLevel::Error);
    assert_eq!(logger.min_level(), LogLevel::Error);
    assert!(!logger.should_log(LogLevel::Warn));
    assert!(logger.should_log(LogLevel::Error));
}

#[test]
fn logger_colors() {
    assert_eq!(Logger::color_level(LogLevel::Debug), "\x1b[90m");
    assert_eq!(Logger::color_level(LogLevel::Info), "\x1b[32m");
    assert_eq!(Logger::color_level(LogLevel::Warn), "\x1b[33m");
    assert_eq!(Logger::color_level(LogLevel::Error), "\x1b[31m");
    assert_eq!(Logger::color_level(LogLevel::Critical), "\x1b[1;31m");
    assert_eq!(Logger::color_reset(), "\x1b[0m");
}

#[test]
fn window_configuration_defaults() {
    let config = WindowConfiguration::default();
    assert_eq!(config.title, "Untitled");
    assert_eq!((config.width, config.height), (800, 800));
}

#[test]
fn assets_store_lookup_unload() {
    let mut assets = AssetManager::new();
    assert!(!assets.is_loaded("a.png"));
    assert!(matches!(assets.image("a.png"), Err(AssetError::NotLoaded { path }) if path == "a.png"));
    assert!(assets.store_image("a.png", ImageData::from_bytes(vec![1, 2, 3, 4], 1, 1)));
    assert!(!assets.store_image("a.png", ImageData::from_bytes(vec![9, 9, 9, 9], 1, 1)));
    assert_eq!(assets.image("a.png").ok().unwrap().rgba_bytes, vec![1, 2, 3, 4]);
    assert!(assets.store_image("b.png", ImageData::from_bytes(Vec::new(), 0, 0)));
    assert!(assets.unload_image("a.png"));
    assert!(!assets.unload_image("a.png"));
    assert!(assets.is_loaded("b.png"));
    assets.clear_all();
    assert!(!assets.is_loaded("b.png"));
}

#[test]
fn assets_decode_png() {
    let mut assets = AssetManager::new();
    let bytes = png_bytes(3, 2, [10, 20, 30, 40]);
    assert!(matches!(assets.load_image_from_bytes("p.png", &bytes), Ok(true)));
    let image = assets.image("p.png").ok().unwrap();
    assert_eq!((image.width, image.height), (3, 2));
    assert_eq!(image.rgba_bytes, [10, 20, 30, 40].repeat(6));
    assert!(matches!(assets.load_image_from_bytes("p.png", &[]), Ok(false)));
}

#[test]
fn assets_reject_garbage() {
    let mut assets = AssetManager::new();
    let result = assets.load_image_from_bytes("x.png", &[1, 2, 3]);
    assert!(matches!(result, Err(AssetError::ImageDecode { path, .. }) if path == "x.png"));
    assert!(!assets.is_loaded("x.png"));
}
