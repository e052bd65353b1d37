use base64::Engine;
use gis_view::canvas::{Canvas, Color};
use gis_view::transport::{
    encode_image, frames_of_text, kitty_frames, next_frame, push_decimal, TransportState,
    CHUNK_SIZE,
};

fn payload(frame: &[u8]) -> Vec<u8> {
    assert!(frame.starts_with(b"\x1b_G"));
    assert!(frame.ends_with(b"\x1b\\"));
    let semi = frame.iter().position(|b| *b == b';').unwrap();
    frame[semi + 1..frame.len() - 2].to_vec()
}

fn control(frame: &[u8]) -> String {
    let semi = frame.iter().position(|b| *b == b';').unwrap();
    String::from_utf8(frame[3..semi].to_vec()).unwrap()
}

#[test]
fn single_pixel_is_one_frame_without_continuation() {
    let c = Canvas::filled(1, 1, Color { r: 1, g: 2, b: 3 }).unwrap();
    let frames = kitty_frames(&c);
    assert_eq!(frames.len(), 1);
    assert_eq!(frames[0], b"\x1b_Ga=T,f=32,s=1,v=1,m=0;AQID/w==\x1b\\".to_vec());
}

#[test]
fn large_image_is_sent_in_flagged_chunks() {
    let mut c = Canvas::filled(40, 40, Color { r: 10, g: 20, b: 30 }).unwrap();
    for i in 0..40 {
        c.plot(i, i, Color { r: i as u8, g: 255 - i as u8, b: 7 });
    }
    let text = base64::engine::general_purpose::STANDARD.encode(c.to_rgba());
    assert!(text.len() > CHUNK_SIZE);
    let frames = kitty_frames(&c);
    assert_eq!(frames.len(), (text.len() + CHUNK_SIZE - 1) / CHUNK_SIZE);
    assert!(frames.len() >= 2);
    let mut joined = Vec::new();
    for (k, frame) in frames.iter().enumerate() {
        let last = k + 1 == frames.len();
        let want = match (k == 0, last) {
            (true, _) => "a=T,f=32,s=40,v=40,m=1".to_string(),
            (false, false) => "m=1".to_string(),
            (false, true) => "m=0".to_string(),
        };
        assert_eq!(control(frame), want);
        let data = payload(frame);
        assert!(data.len() <= CHUNK_SIZE);
        assert!(last || data.len() == CHUNK_SIZE);
        joined.extend(data);
    }
    assert_eq!(joined, text.into_bytes());
}

#[test]
fn image_text_is_base64_of_the_rgba_bytes() {
    let mut c = Canvas::blank(2, 1).unwrap();
    c.plot(1, 0, Color { r: 255, g: 254, b: 253 });
    assert_eq!(encode_image(&c), b"AAAA///+/f8=".to_vec());
    let empty = Canvas::blank(0, 0).unwrap();
    assert_eq!(encode_image(&empty), Vec::<u8>::new());
}

#[test]
fn empty_image_sends_no_frame() {
    let c = Canvas::blank(0, 3).unwrap();
    assert_eq!(kitty_frames(&c), Vec::<Vec<u8>>::new());
    assert_eq!(frames_of_text(b"", 0, 3), Vec::<Vec<u8>>::new());
}

#[test]
fn text_of_exactly_one_chunk_is_one_frame() {
    let text = vec![b'A'; CHUNK_SIZE];
    let frames = frames_of_text(&text, 32, 32);
    assert_eq!(frames.len(), 1);
    assert_eq!(control(&frames[0]), "a=T,f=32,s=32,v=32,m=0");
    assert_eq!(payload(&frames[0]), text);
}

#[test]
fn text_one_byte_over_a_chunk_is_two_frames() {
    let mut text = vec![b'A'; CHUNK_SIZE];
    text.push(b'B');
    let frames = frames_of_text(&text, 7, 9);
    assert_eq!(frames.len(), 2);
    assert_eq!(control(&frames[0]), "a=T,f=32,s=7,v=9,m=1");
    assert_eq!(payload(&frames[0]), vec![b'A'; CHUNK_SIZE]);
    assert_eq!(frames[1], b"\x1b_Gm=0;B\x1b\\".to_vec());
}

#[test]
fn three_chunks_keep_their_order() {
    let mut text = Vec::new();
    for i in 0..(2 * CHUNK_SIZE + 10) {
        text.push(b'a' + (i % 26) as u8);
    }
    let frames = frames_of_text(&text, 1, 1);
    assert_eq!(frames.len(), 3);
    assert_eq!(control(&frames[1]), "m=1");
    assert_eq!(control(&frames[2]), "m=0");
    assert_eq!(payload(&frames[0]), text[..CHUNK_SIZE].to_vec());
    assert_eq!(payload(&frames[1]), text[CHUNK_SIZE..2 * CHUNK_SIZE].to_vec());
    assert_eq!(payload(&frames[2]), text[2 * CHUNK_SIZE..].to_vec());
}

#[test]
fn transport_state_machine() {
    let (first, state) = next_frame(TransportState::AwaitingFirst, 640, 480, b"QUJD", true);
    assert_eq!(first, b"\x1b_Ga=T,f=32,s=640,v=480,m=1;QUJD\x1b\\".to_vec());
    assert_eq!(state, TransportState::Sending);
    let (middle, state) = next_frame(state, 640, 480, b"REVG", true);
    assert_eq!(middle, b"\x1b_Gm=1;REVG\x1b\\".to_vec());
    assert_eq!(state, TransportState::Sending);
    let (last, state) = next_frame(state, 640, 480, b"", false);
    assert_eq!(last, b"\x1b_Gm=0;\x1b\\".to_vec());
    assert_eq!(state, TransportState::AwaitingFirst);
    let (only, state) = next_frame(state, 1, 2, b"eA==", false);
    assert_eq!(only, b"\x1b_Ga=T,f=32,s=1,v=2,m=0;eA==\x1b\\".to_vec());
    assert_eq!(state, TransportState::AwaitingFirst);
}

#[test]
fn decimal_digits_of_sizes() {
    for n in [0u32, 7, 10, 99, 100, 4096, 1_000_000, u32::MAX] {
        let mut out = b"s=".to_vec();
        push_decimal(&mut out, n);
        assert_eq!(String::from_utf8(out).unwrap(), format!("s={}", n));
    }
}
