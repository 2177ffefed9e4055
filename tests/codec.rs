use rugs::{from_parts, DecodeError, Image, Rgba};

fn px(r: u8, g: u8, b: u8, a: u8) -> Rgba {
    Rgba { r, g, b, a }
}

fn gradient(width: u32, height: u32) -> Image {
    let mut image_data = Vec::new();
    for y in 0..height {
        for x in 0..width {
            image_data.push(px((x * 7) as u8, (y * 13) as u8, ((x + y) * 3) as u8, 255));
        }
    }
    Image { width, height, image_data }
}

#[test]
fn two_red_pixels_round_trip() {
    let red = px(255, 0, 0, 255);
    let img = Image { width: 2, height: 1, image_data: vec![red, red] };
    let bytes = img.deserialize();
    assert_eq!(&bytes[0..4], b"RUGS");
    assert_eq!(u32::from_be_bytes([bytes[4], bytes[5], bytes[6], bytes[7]]), 2);
    assert_eq!(u32::from_be_bytes([bytes[8], bytes[9], bytes[10], bytes[11]]), 1);
    let back = Image::serialize(bytes).unwrap();
    assert_eq!(back.width, 2);
    assert_eq!(back.height, 1);
    assert_eq!(back.image_data, vec![red, red]);
}

#[test]
fn round_trip_gradient() {
    let img = gradient(37, 11);
    let back = Image::serialize(img.deserialize()).unwrap();
    assert_eq!(back.width, 37);
    assert_eq!(back.height, 11);
    assert_eq!(back.image_data, img.image_data);
}

#[test]
fn round_trip_empty_image() {
    let img = Image { width: 0, height: 5, image_data: vec![] };
    let back = Image::serialize(img.deserialize()).unwrap();
    assert_eq!(back.width, 0);
    assert_eq!(back.height, 5);
    assert!(back.image_data.is_empty());
}

#[test]
fn header_is_big_endian() {
    let img = Image { width: 0x0102_0304, height: 0, image_data: vec![] };
    let bytes = img.deserialize();
    assert_eq!(&bytes[0..12], &[82, 85, 71, 83, 1, 2, 3, 4, 0, 0, 0, 0]);
}

#[test]
fn payload_is_compressed() {
    let img = Image { width: 100, height: 10, image_data: vec![px(9, 9, 9, 9); 1000] };
    let bytes = img.deserialize();
    assert!(bytes.len() < 12 + 4000);
    assert_ne!(&bytes[12..], img.image_bytes().as_slice());
}

#[test]
fn wrong_magic_is_rejected() {
    let mut bytes = gradient(4, 4).deserialize();
    bytes[0] = b'P';
    assert!(matches!(Image::serialize(bytes), Err(DecodeError::FormatMismatch)));
    let mut other = b"PNG!".to_vec();
    other.extend_from_slice(&[0u8; 40]);
    assert!(matches!(Image::serialize(other), Err(DecodeError::FormatMismatch)));
}

#[test]
fn short_streams_are_rejected() {
    assert!(matches!(Image::serialize(vec![]), Err(DecodeError::FormatMismatch)));
    assert!(matches!(Image::serialize(b"RUG".to_vec()), Err(DecodeError::FormatMismatch)));
    assert!(matches!(Image::serialize(b"RUGS\0\0\0\x01".to_vec()), Err(DecodeError::Truncated)));
}

#[test]
fn bad_payload_is_corrupt() {
    let mut bytes = b"RUGS\0\0\0\x01\0\0\0\x01".to_vec();
    bytes.extend_from_slice(&[1, 2, 3, 4, 5]);
    assert!(matches!(Image::serialize(bytes), Err(DecodeError::CorruptPayload)));
}

#[test]
fn payload_of_wrong_size_is_corrupt() {
    let img = Image { width: 2, height: 2, image_data: vec![px(1, 2, 3, 4); 3] };
    assert!(matches!(Image::serialize(img.deserialize()), Err(DecodeError::CorruptPayload)));
}

#[test]
fn from_parts_checks_length() {
    let ok = from_parts(1, 2, vec![1, 2, 3, 4, 5, 6, 7, 8]).unwrap();
    assert_eq!(ok.image_data, vec![px(1, 2, 3, 4), px(5, 6, 7, 8)]);
    assert!(matches!(from_parts(1, 2, vec![1, 2, 3, 4, 5, 6, 7]), Err(DecodeError::CorruptPayload)));
    assert!(matches!(from_parts(2, 2, vec![0; 8]), Err(DecodeError::CorruptPayload)));
}

#[test]
fn pixel_bytes_in_rgba_order() {
    let img = Image { width: 2, height: 1, image_data: vec![px(1, 2, 3, 4), px(5, 6, 7, 8)] };
    assert_eq!(img.image_bytes(), vec![1, 2, 3, 4, 5, 6, 7, 8]);
    assert_eq!(px(9, 8, 7, 6).to_vec(), vec![9, 8, 7, 6]);
    assert_eq!(Rgba::from_bytes(&[10, 20, 30, 40, 50]), px(10, 20, 30, 40));
}
