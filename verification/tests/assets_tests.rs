use space_game::assets::Assets;
use std::io::Cursor;

static SHOT: &[u8] = &[1, 2, 3];
static BOOM: &[u8] = &[4, 5];
static CLICK: &[u8] = &[6];

fn png(w: u32, h: u32) -> Vec<u8> {
    let img = image::DynamicImage::ImageRgba8(image::RgbaImage::from_pixel(w, h, image::Rgba([10, 20, 30, 255])));
    let mut out = Cursor::new(Vec::new());
    img.write_to(&mut out, image::ImageOutputFormat::Png).unwrap();
    out.into_inner()
}

#[test]
fn load_decodes_and_shrinks_bomb() {
    let ship = png(16, 8);
    let beam = png(2, 6);
    let enemy = png(12, 12);
    let bomb = png(40, 60);
    let assets = Assets::load([&ship, &beam, &enemy, &bomb], SHOT, BOOM, CLICK).expect("decodes");
    assert_eq!((assets.ship().width, assets.ship().height), (16, 8));
    assert_eq!(assets.ship().pixels.len(), 16 * 8 * 4);
    assert_eq!(&assets.ship().pixels[0..4], &[10, 20, 30, 255]);
    assert_eq!((assets.beam().width, assets.beam().height), (2, 6));
    assert_eq!((assets.enemy().width, assets.enemy().height), (12, 12));
    assert_eq!((assets.bomb().width, assets.bomb().height), (2, 3));
    assert_eq!(assets.bomb().pixels.len(), 2 * 3 * 4);
    assert_eq!(assets.sfx_shot, SHOT);
    assert_eq!(assets.sfx_explosion, BOOM);
    assert_eq!(assets.sfx_overheat, CLICK);
}

#[test]
fn load_refuses_undecodable_image() {
    let ship = png(4, 4);
    let junk = vec![0u8, 1, 2, 3];
    assert!(Assets::load([&ship, &ship, &junk, &ship], SHOT, BOOM, CLICK).is_none());
}

#[test]
fn sprites_hold_their_images_in_order() {
    let ship = png(5, 3);
    let beam = png(1, 4);
    let enemy = png(7, 2);
    let bomb = png(100, 20);
    let assets = Assets::load([&ship, &beam, &enemy, &bomb], SHOT, BOOM, CLICK).expect("decodes");
    for (i, data) in [&ship, &beam, &enemy].iter().enumerate() {
        let img = image::load_from_memory(data).unwrap().to_rgba8();
        assert_eq!((assets.sprites[i].width, assets.sprites[i].height), img.dimensions());
        assert_eq!(assets.sprites[i].pixels, img.into_raw());
    }
    // only the bomb is shrunk, to fit a twentieth of its size
    assert_eq!((assets.bomb().width, assets.bomb().height), (5, 1));
    assert_eq!(assets.bomb().pixels, vec![10, 20, 30, 255].repeat(5));
}
