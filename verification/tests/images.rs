use mdcat::render::images::{decode_image, render_diagram, render_dynamic_image, render_image, RgbaImage};
use mdcat::render::svg::{image_from_pixels, image_location, rasterize_svg, svg_canvas_size, ImageLocation};
use mdcat::render::{Config, KittyImageStore};
use mdcat::terminal::ImageProtocol;

fn config(protocol: ImageProtocol) -> Config {
    Config {
        width: 80,
        images: true,
        mermaid: true,
        mermaid_binary: "mmdc".to_string(),
        theme: "base16-ocean.dark".to_string(),
        image_protocol: None,
        protocol,
        cell_pixel_width: 10,
        kitty_capture: false,
    }
}

fn black(width: u32, height: u32) -> RgbaImage {
    RgbaImage { width, height, data: vec![0u8; (4 * width * height) as usize] }
}

#[test]
fn kitty_encoding_sends_base64_pixels() {
    let cfg = config(ImageProtocol::Kitty);
    let mut store = KittyImageStore::new();
    let out = render_dynamic_image(&black(1, 1), &cfg, Some(3), &mut store).unwrap();
    assert_eq!(out, "\x1b_Ga=T,f=32,s=1,v=1,c=3,q=2,m=0;AAAAAA==\x1b\\\n");
    assert!(store.images.is_empty());
}

#[test]
fn kitty_encoding_chunks_large_images() {
    let cfg = config(ImageProtocol::Kitty);
    let mut store = KittyImageStore::new();
    // 4096 bytes of pixels are 5464 base64 characters: two chunks.
    let out = render_dynamic_image(&black(32, 32), &cfg, None, &mut store).unwrap();
    assert!(out.starts_with("\x1b_Ga=T,f=32,s=32,v=32,q=2,m=1;"));
    assert!(out.contains("\x1b\\\x1b_Gm=0;"));
    assert!(out.ends_with("\x1b\\\n"));
}

#[test]
fn iterm2_encoding_is_an_inline_png() {
    let cfg = config(ImageProtocol::ITerm2);
    let mut store = KittyImageStore::new();
    let out = render_dynamic_image(&black(2, 2), &cfg, Some(5), &mut store).unwrap();
    // "iVBORw0KGgo" is the base64 of the PNG signature.
    assert!(out.starts_with("\x1b]1337;File=inline=1;width=5;preserveAspectRatio=1:iVBORw0KGgo"));
    assert!(out.ends_with("\x07\n"));
}

#[test]
fn blocks_encoding_draws_two_rows_per_line() {
    let cfg = config(ImageProtocol::Blocks);
    let mut store = KittyImageStore::new();
    let img = RgbaImage { width: 1, height: 2, data: vec![255, 0, 0, 255, 0, 0, 255, 255] };
    let out = render_dynamic_image(&img, &cfg, None, &mut store).unwrap();
    assert_eq!(out, "\x1b[38;2;255;0;0m\x1b[48;2;0;0;255m\u{2580}\x1b[0m\n\n");
}

#[test]
fn blocks_encoding_of_empty_image_is_empty() {
    let cfg = config(ImageProtocol::Sixel);
    let mut store = KittyImageStore::new();
    assert_eq!(render_dynamic_image(&black(0, 3), &cfg, None, &mut store).unwrap(), "");
}

#[test]
fn blocks_encoding_scales_to_max_cols() {
    let cfg = config(ImageProtocol::Blocks);
    let mut store = KittyImageStore::new();
    // 8×8 pixels at 4 columns: 4 pixels high, two lines of four cells.
    let out = render_dynamic_image(&black(8, 8), &cfg, Some(4), &mut store).unwrap();
    assert_eq!(out.matches('\u{2580}').count(), 8);
    assert_eq!(out.matches("\x1b[0m\n").count(), 2);
}

#[test]
fn capture_stores_the_image_and_returns_a_sentinel() {
    let mut cfg = config(ImageProtocol::Kitty);
    cfg.kitty_capture = true;
    let mut store = KittyImageStore::new();
    let first = render_dynamic_image(&black(3, 2), &cfg, Some(7), &mut store).unwrap();
    let second = render_dynamic_image(&black(1, 1), &cfg, None, &mut store).unwrap();
    assert_eq!(first, "\x00KITTY:1:7:3:2\x00\n");
    assert_eq!(second, "\x00KITTY:2:0:1:1\x00\n");
    assert_eq!(store.images.len(), 2);
    assert_eq!(store.images[0].id, 1);
    assert_eq!(store.images[0].display_cols, Some(7));
    assert_eq!(store.images[1].id, 2);
    assert_eq!(store.next_id, 3);
}

#[test]
fn wide_images_are_capped_to_the_width() {
    let mut cfg = config(ImageProtocol::Kitty);
    cfg.width = 5;
    let mut store = KittyImageStore::new();
    // 100 px over 10 px cells is 10 columns, more than 5.
    let out = render_image(&black(100, 1), &cfg, &mut store).unwrap();
    assert!(out.starts_with("\x1b_Ga=T,f=32,s=100,v=1,c=5,q=2,"));
    let narrow = render_image(&black(40, 1), &cfg, &mut store).unwrap();
    assert!(narrow.starts_with("\x1b_Ga=T,f=32,s=40,v=1,q=2,"));
}

#[test]
fn diagrams_show_at_their_natural_columns() {
    let cfg = config(ImageProtocol::Kitty);
    let mut store = KittyImageStore::new();
    let out = render_diagram(&black(35, 1), &cfg, &mut store).unwrap();
    assert!(out.starts_with("\x1b_Ga=T,f=32,s=35,v=1,c=3,q=2,"));
}

#[test]
fn svg_is_rasterized_at_its_size() {
    let svg = b"<svg xmlns='http://www.w3.org/2000/svg' width='4' height='2'><rect width='4' height='2' fill='#ff0000'/></svg>";
    let img = rasterize_svg(svg).unwrap();
    assert_eq!((img.width, img.height), (4, 2));
    assert_eq!(img.data.len(), 32);
    assert_eq!(&img.data[0..4], &[255, 0, 0, 255]);
}

#[test]
fn fractional_svg_sizes_round_up() {
    let svg = b"<svg xmlns='http://www.w3.org/2000/svg' width='2.5' height='0.5'><rect width='2.5' height='0.5' fill='#ff0000'/></svg>";
    let img = rasterize_svg(svg).unwrap();
    assert_eq!((img.width, img.height), (3, 1));
    assert_eq!(img.data.len(), 12);
}

#[test]
fn bad_svg_is_an_error() {
    match rasterize_svg(b"not svg") {
        Err(e) => assert_eq!(e, "failed to parse SVG"),
        Ok(_) => panic!("expected an error"),
    }
}

#[test]
fn image_locations() {
    assert!(matches!(image_location("https://x.org/a.png"), ImageLocation::Remote { url } if url == "https://x.org/a.png"));
    assert!(matches!(image_location("http://x.org/a.png"), ImageLocation::Remote { .. }));
    assert!(matches!(image_location("data:image/png;base64,AA"),
        ImageLocation::Unsupported { reason } if reason == "data: URI images not yet supported"));
    assert!(matches!(image_location("file:///tmp/a.png"), ImageLocation::Local { path } if path == "/tmp/a.png"));
    assert!(matches!(image_location("img/a.png"), ImageLocation::Local { path } if path == "img/a.png"));
}

#[test]
fn pixels_make_an_image_only_when_they_fill_it() {
    let img = image_from_pixels(2, 1, vec![1, 2, 3, 4, 5, 6, 7, 8]).unwrap();
    assert_eq!((img.width, img.height, img.data.len()), (2, 1, 8));
    match image_from_pixels(2, 2, vec![0; 8]) {
        Err(e) => assert_eq!(e, "failed to convert pixmap to image"),
        Ok(_) => panic!("expected an error"),
    }
}

#[test]
fn png_bytes_decode_to_rgba_pixels() {
    let src = image::RgbaImage::from_raw(2, 1, vec![255, 0, 0, 255, 0, 0, 255, 128]).unwrap();
    let mut png: Vec<u8> = Vec::new();
    src.write_to(&mut std::io::Cursor::new(&mut png), image::ImageFormat::Png).unwrap();
    let img = decode_image(&png).unwrap();
    assert_eq!((img.width, img.height), (2, 1));
    assert_eq!(img.data, vec![255, 0, 0, 255, 0, 0, 255, 128]);
    assert!(decode_image(b"not an image").is_none());
    assert!(decode_image(&[]).is_none());
}

#[test]
fn svg_without_a_size_takes_its_content_size_and_huge_svg_cannot_get_a_pixmap() {
    let svg = b"<svg xmlns='http://www.w3.org/2000/svg'><rect width='4' height='2' fill='#00ff00'/></svg>";
    let img = rasterize_svg(svg).unwrap();
    assert_eq!((img.width, img.height), (4, 2));
    let huge = b"<svg xmlns='http://www.w3.org/2000/svg' width='1000000000' height='1'/>";
    match rasterize_svg(huge) {
        Err(e) => assert_eq!(e, "failed to create pixmap"),
        Ok(_) => panic!("expected an error"),
    }
}

#[test]
fn svg_canvas_is_at_least_one_pixel() {
    assert_eq!(svg_canvas_size(0, 0), (1, 1));
    assert_eq!(svg_canvas_size(3, 0), (3, 1));
    assert_eq!(svg_canvas_size(7, 9), (7, 9));
}
