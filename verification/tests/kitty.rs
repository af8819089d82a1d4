use base64::Engine;
use gat::framebuffer::Framebuffer;
use gat::render::kitty::{
    base_id, emit, encode, forget, forget_prints, next_id, parts, place, print_id, Placement,
    Quiet, PRINT_BASE, PRINT_SPAN,
};

fn payload_of(bytes: &[u8]) -> Vec<u8> {
    let mut b64 = Vec::new();
    let mut rest = bytes;
    while let Some(start) = rest.windows(3).position(|w| w == b"\x1b_G") {
        let body = &rest[start + 3..];
        let semi = body.iter().position(|&c| c == b';').unwrap();
        let end = body.windows(2).position(|w| w == b"\x1b\\").unwrap();
        b64.extend_from_slice(&body[semi + 1..end]);
        rest = &body[end + 2..];
    }
    let z = base64::engine::general_purpose::STANDARD.decode(&b64).unwrap();
    let mut out = Vec::new();
    std::io::copy(&mut flate2::read::ZlibDecoder::new(&z[..]), &mut out).unwrap();
    out
}

fn from_fn(w: u32, h: u32, f: impl Fn(u32, u32) -> [u8; 4]) -> Framebuffer {
    let mut px = Vec::new();
    for y in 0..h {
        for x in 0..w {
            px.extend_from_slice(&f(x, y));
        }
    }
    Framebuffer::from_raw(w, h, px).unwrap()
}

#[test]
fn payload_round_trips_to_the_original_pixels() {
    // 40x40 is large enough to need several chunks once
    // the gradient makes the payload incompressible
    let fb = from_fn(40, 40, |x, y| [x as u8, y as u8, (x * y) as u8, 255]);
    let mut out = String::new();
    gat::render::kitty::write(&mut out, &fb, 7, None);
    assert_eq!(payload_of(out.as_bytes()), *fb.as_raw());
}

#[test]
fn a_print_id_stays_inside_the_block_it_is_deleted_with() {
    // the block is deleted wholesale at the start of a
    // run, so an id outside it would survive and leak
    for n in [0, 1, 999, PRINT_SPAN - 1, PRINT_SPAN, PRINT_SPAN + 7, u32::MAX] {
        let id = print_id(n);
        assert!(
            (PRINT_BASE..PRINT_BASE + PRINT_SPAN).contains(&id),
            "image {n} took id {id:#x}, outside the block"
        );
    }
}

#[test]
fn the_block_delete_names_the_whole_block() {
    let mut out = String::new();
    forget_prints(&mut out);
    let lo = print_id(0);
    let hi = print_id(PRINT_SPAN - 1);
    assert_eq!(out, format!("\x1b_Ga=d,d=R,x={lo},y={hi},q=2;\x1b\\"));
}

#[test]
fn one_image_is_forgotten_by_its_id() {
    let mut out = String::new();
    forget(&mut out, 7);
    assert_eq!(out, "\x1b_Ga=d,d=I,i=7,q=2;\x1b\\");
}

#[test]
fn ids_are_distinct_and_never_zero() {
    let base = base_id(1_700_000_000, 123_456_789, 4242);
    let ids: Vec<u32> = (0..64).map(|n| next_id(base, n)).collect();
    assert!(ids.iter().all(|&i| i != 0));
    let mut sorted = ids.clone();
    sorted.sort_unstable();
    sorted.dedup();
    assert_eq!(sorted.len(), ids.len(), "ids repeated within one run");
}

#[test]
fn an_id_of_zero_is_passed_over() {
    assert_eq!(next_id(u32::MAX, 1), 1);
    assert_eq!(next_id(u32::MAX, 2), 2);
    assert_eq!((next_id(0, 0), next_id(0, 1)), (1, 2));
    assert_eq!(next_id(u32::MAX, 0), u32::MAX);
    assert_eq!(base_id(1, 0, 0), 1 << 11);
    assert_eq!(base_id(0, 5, 1), 5 ^ (1 << 19));
}

#[test]
fn header_declares_the_image_size_and_id() {
    let fb = Framebuffer::new(3, 5);
    let mut text = String::new();
    gat::render::kitty::write(&mut text, &fb, 42, None);
    assert!(
        text.starts_with("\x1b_Ga=T,C=1,i=42,q=2,f=32,o=z,s=3,v=5,m=0;"),
        "{}",
        &text[..44]
    );
}

#[test]
fn a_cell_box_rides_on_the_display_header() {
    let fb = Framebuffer::new(3, 5);
    let mut text = String::new();
    gat::render::kitty::write(&mut text, &fb, 42, Some((6, 2)));
    assert!(text.starts_with("\x1b_Ga=T,C=1,c=6,r=2,i=42,"), "{text:?}");
}

#[test]
fn every_chunk_but_the_last_is_flagged_and_full() {
    let fb = from_fn(200, 200, |x, y| [(x ^ y) as u8, (x * 7) as u8, (y * 13) as u8, 255]);
    let mut text = String::new();
    gat::render::kitty::write(&mut text, &fb, 1, None);
    let flags: Vec<&str> = text.match_indices("m=").map(|(i, _)| &text[i + 2..i + 3]).collect();
    assert!(flags.len() > 1, "test image did not chunk");
    assert!(flags[..flags.len() - 1].iter().all(|f| *f == "1"));
    assert_eq!(flags[flags.len() - 1], "0");
}

#[test]
fn a_stored_image_is_not_shown_and_its_failures_are_told() {
    let img = encode(&Framebuffer::new(3, 5));
    let mut out = String::new();
    emit(&mut out, &img, 9, false, None, Quiet::ErrorsOnly);
    assert!(out.starts_with("\x1b_Ga=t,i=9,q=1,f=32,o=z,s=3,v=5,m=0;"), "{out:?}");
    assert_eq!(parts(&img, 9), vec![out]);
}

#[test]
fn a_placement_names_its_rectangle_and_its_cells() {
    let mut out = String::new();
    place(
        &mut out,
        5,
        &Placement { src_x: 1, src_y: 2, src_w: 30, src_h: 40, z: -1, cols: 6, rows: 7 },
    );
    assert_eq!(out, "\x1b_Ga=p,i=5,p=1,q=2,C=1,x=1,y=2,w=30,h=40,c=6,r=7,z=-1;\x1b\\");
}

#[test]
fn compression_gives_the_pixels_back_and_is_no_copy() {
    let fb = from_fn(64, 64, |_, _| [9, 9, 9, 255]);
    let img = encode(&fb);
    assert_ne!(img.payload, *fb.as_raw());
    let mut out = Vec::new();
    std::io::copy(&mut flate2::read::ZlibDecoder::new(&img.payload[..]), &mut out).unwrap();
    assert_eq!(out, *fb.as_raw());
}
