//! The terminal image transport: the pixels of a canvas, encoded as base64 text and
//! framed in escape sequences of at most `CHUNK_SIZE` bytes of text each, in the form
//! that terminals with the kitty graphics protocol accept.

use crate::canvas::{canvas_height, canvas_pixels, canvas_width, interleave_rgba, Canvas};
use vstd::prelude::*;
use vstd::slice::slice_subrange;

verus! {

/// The most bytes of base64 text that one frame carries.
pub const CHUNK_SIZE: usize = 4096;

/// The base64 text of a run of bytes, in the standard alphabet and with padding.
pub uninterp spec fn base64_text(data: Seq<u8>) -> Seq<u8>;

/// The length of the base64 text of `n` bytes: four characters for every three bytes
/// or part of three bytes.
pub open spec fn encoded_length(n: int) -> int {
    4 * ((n + 2) / 3)
}

/// `Engine::encode` of the `base64` crate's `STANDARD` engine, and `String::into_bytes`:
/// the text of the given bytes, whose length is `encoded_length`. The call panics when
/// the text is too long for a vector, which `requires` excludes.
#[verifier::external_body]
fn encode_base64(raw: &[u8]) -> (text: Vec<u8>)
    requires
        encoded_length(raw@.len() as int) <= isize::MAX,
    ensures
        text@ == base64_text(raw@),
        text@.len() == encoded_length(raw@.len() as int),
{
    base64::Engine::encode(&base64::engine::general_purpose::STANDARD, raw).into_bytes()
}

/// The decimal digits of a number, as ASCII.
pub open spec fn decimal_digits(n: nat) -> Seq<u8>
    decreases n,
{
    if n < 10 {
        seq![(0x30 + n) as u8]
    } else {
        decimal_digits(n / 10).push((0x30 + n % 10) as u8)
    }
}

/// The bytes that open a frame: escape, `_`, `G`.
pub open spec fn frame_start() -> Seq<u8> {
    seq![0x1bu8, 0x5f, 0x47]
}

/// The bytes that close a frame: escape, backslash.
pub open spec fn frame_end() -> Seq<u8> {
    seq![0x1bu8, 0x5c]
}

/// The control data that only the first frame carries, `a=T,f=32,s=W,v=H,`: transmit
/// and display, 32-bit RGBA, the image's width and height in pixels.
pub open spec fn image_keys(width: u32, height: u32) -> Seq<u8> {
    seq![0x61u8, 0x3d, 0x54, 0x2c, 0x66, 0x3d, 0x33, 0x32, 0x2c, 0x73, 0x3d] + decimal_digits(
        width as nat,
    ) + seq![0x2cu8, 0x76, 0x3d] + decimal_digits(height as nat) + seq![0x2cu8]
}

/// The control data that every frame carries, `m=1;` or `m=0;`: whether more frames
/// follow, and the mark that ends the control data.
pub open spec fn more_key(more: bool) -> Seq<u8> {
    seq![0x6du8, 0x3d, if more {
        0x31u8
    } else {
        0x30u8
    }, 0x3b]
}

/// One frame: the opening bytes, the control data, the chunk of text, the closing
/// bytes.
pub open spec fn frame_bytes(first: bool, width: u32, height: u32, more: bool, data: Seq<u8>) -> Seq<
    u8,
> {
    frame_start() + (if first {
        image_keys(width, height)
    } else {
        Seq::<u8>::empty()
    }) + more_key(more) + data + frame_end()
}

/// How many frames carry a text of the given length.
pub open spec fn chunk_count(len: int) -> int {
    (len + CHUNK_SIZE - 1) / (CHUNK_SIZE as int)
}

/// Where chunk `k` of a text of the given length ends.
pub open spec fn chunk_end(len: int, k: int) -> int {
    if (k + 1) * CHUNK_SIZE < len {
        (k + 1) * CHUNK_SIZE
    } else {
        len
    }
}

/// Chunk `k` of a text: `CHUNK_SIZE` bytes from the position `k * CHUNK_SIZE`, or as
/// many as are left.
pub open spec fn chunk_of(text: Seq<u8>, k: int) -> Seq<u8> {
    text.subrange(k * CHUNK_SIZE, chunk_end(text.len() as int, k))
}

/// Frame `k` of the transmission of a text: the first frame carries the image's
/// control data, and every frame but the last says that more follow.
pub open spec fn frame_of(text: Seq<u8>, width: u32, height: u32, k: int) -> Seq<u8> {
    frame_bytes(k == 0, width, height, k + 1 < chunk_count(text.len() as int), chunk_of(text, k))
}

/// Where a transmission stands: before the first frame of an image, or between the
/// frames of one.
#[derive(Clone, Copy, Debug, PartialEq, Eq, Structural)]
pub enum TransportState {
    AwaitingFirst,
    Sending,
}

/// The state after a frame: between frames while more follow, and before the first
/// frame of the next image after the last.
pub open spec fn state_after(more: bool) -> TransportState {
    if more {
        TransportState::Sending
    } else {
        TransportState::AwaitingFirst
    }
}

/// Appends bytes to a buffer.
fn push_all(out: &mut Vec<u8>, bytes: &[u8])
    ensures
        final(out)@ == old(out)@ + bytes@,
{
    let mut i: usize = 0;
    while i < bytes.len()
        invariant
            i <= bytes.len(),
            out@ == old(out)@ + bytes@.take(i as int),
        decreases bytes.len() - i,
    {
        out.push(bytes[i]);
        assert(bytes@.take(i + 1) =~= bytes@.take(i as int).push(bytes@[i as int]));
        assert(out@ =~= old(out)@ + bytes@.take(i + 1));
        i += 1;
    }
    assert(bytes@.take(bytes@.len() as int) =~= bytes@);
}

/// Appends the decimal digits of a number to a buffer.
pub fn push_decimal(out: &mut Vec<u8>, n: u32)
    ensures
        final(out)@ == old(out)@ + decimal_digits(n as nat),
    decreases n,
{
    if n >= 10 {
        push_decimal(out, n / 10);
    }
    out.push(0x30 + (n % 10) as u8);
    assert(out@ =~= old(out)@ + decimal_digits(n as nat));
}

/// Builds the next frame of a transmission and says where the transmission stands
/// after it. The frame carries the image's control data if it is the first.
pub fn next_frame(state: TransportState, width: u32, height: u32, data: &[u8], more: bool) -> (out: (
    Vec<u8>,
    TransportState,
))
    ensures
        out.0@ == frame_bytes(state == TransportState::AwaitingFirst, width, height, more, data@),
        out.1 == state_after(more),
{
    let mut frame: Vec<u8> = Vec::new();
    let start: [u8; 3] = [0x1b, 0x5f, 0x47];
    push_all(&mut frame, start.as_slice());
    assert(start@ =~= frame_start());
    match state {
        TransportState::AwaitingFirst => {
            let keys: [u8; 11] = [0x61, 0x3d, 0x54, 0x2c, 0x66, 0x3d, 0x33, 0x32, 0x2c, 0x73, 0x3d];
            let ghost before = frame@;
            push_all(&mut frame, keys.as_slice());
            push_decimal(&mut frame, width);
            let v_key: [u8; 3] = [0x2c, 0x76, 0x3d];
            push_all(&mut frame, v_key.as_slice());
            push_decimal(&mut frame, height);
            frame.push(0x2c);
            assert(frame@ =~= before + image_keys(width, height));
        },
        TransportState::Sending => {
            assert(frame@ =~= frame@ + Seq::<u8>::empty());
        },
    }
    let ghost keyed = frame@;
    frame.push(0x6d);
    frame.push(0x3d);
    frame.push(if more {
        0x31
    } else {
        0x30
    });
    frame.push(0x3b);
    assert(frame@ =~= keyed + more_key(more));
    push_all(&mut frame, data);
    let end: [u8; 2] = [0x1b, 0x5c];
    push_all(&mut frame, end.as_slice());
    assert(end@ =~= frame_end());
    let next = if more {
        TransportState::Sending
    } else {
        TransportState::AwaitingFirst
    };
    (frame, next)
}

/// Frames a base64 text for transmission: the text is cut into chunks of `CHUNK_SIZE`
/// bytes, the last one shorter if need be, and each chunk is framed in turn. The
/// frames stand in the order in which they are to be sent.
pub fn frames_of_text(text: &[u8], width: u32, height: u32) -> (frames: Vec<Vec<u8>>)
    ensures
        frames@.len() == chunk_count(text@.len() as int),
        forall|k: int|
            0 <= k < frames@.len() ==> (#[trigger] frames@[k])@ == frame_of(
                text@,
                width,
                height,
                k,
            ),
{
    let len = text.len();
    let mut frames: Vec<Vec<u8>> = Vec::new();
    let mut state = TransportState::AwaitingFirst;
    let mut start: usize = 0;
    let ghost mut k: int = 0;
    while start < len
        invariant
            len == text@.len(),
            start <= len,
            start < len ==> start == k * CHUNK_SIZE,
            0 <= k <= chunk_count(len as int),
            start == len ==> k == chunk_count(len as int),
            frames@.len() == k,
            start < len ==> state == (if k == 0 {
                TransportState::AwaitingFirst
            } else {
                TransportState::Sending
            }),
            forall|j: int|
                0 <= j < k ==> (#[trigger] frames@[j])@ == frame_of(text@, width, height, j),
        decreases len - start,
    {
        let end: usize = if len - start > CHUNK_SIZE {
            start + CHUNK_SIZE
        } else {
            len
        };
        let more = end < len;
        proof {
            lemma_chunk_position(len as int, k);
        }
        let data = slice_subrange(text, start, end);
        let made = next_frame(state, width, height, data, more);
        frames.push(made.0);
        state = made.1;
        start = end;
        proof {
            k = k + 1;
        }
    }
    proof {
        if len == 0 {
            assert(chunk_count(0) == 0);
        }
    }
    frames
}

/// Where chunk `k` lies in a text that has a chunk `k`: it starts inside the text, it
/// ends `CHUNK_SIZE` bytes on or at the end of the text, and it is the last chunk
/// exactly if it ends at the end of the text.
pub proof fn lemma_chunk_position(len: int, k: int)
    requires
        0 <= k,
        k * CHUNK_SIZE < len,
    ensures
        k < chunk_count(len),
        k * CHUNK_SIZE < chunk_end(len, k) <= len,
        chunk_end(len, k) - k * CHUNK_SIZE <= CHUNK_SIZE,
        chunk_end(len, k) < len <==> k + 1 < chunk_count(len),
        chunk_end(len, k) == len <==> k + 1 == chunk_count(len),
{
    let c = chunk_count(len);
    crate::arith::lemma_quotient_bounds(len + CHUNK_SIZE - 1, CHUNK_SIZE as int);
    assert((k + 1) * CHUNK_SIZE == k * CHUNK_SIZE + CHUNK_SIZE) by (nonlinear_arith);
    assert((c + 1) * CHUNK_SIZE == c * CHUNK_SIZE + CHUNK_SIZE) by (nonlinear_arith);
    assert(k < c) by {
        if k >= c {
            assert(k * CHUNK_SIZE >= c * CHUNK_SIZE) by (nonlinear_arith)
                requires
                    k >= c,
            ;
        }
    }
    if (k + 1) * CHUNK_SIZE < len {
        assert(k + 1 < c) by {
            if k + 1 >= c {
                assert((k + 1) * CHUNK_SIZE >= c * CHUNK_SIZE) by (nonlinear_arith)
                    requires
                        k + 1 >= c,
                ;
            }
        }
    } else {
        assert(k + 1 >= c) by {
            if k + 1 < c {
                assert((k + 2) * CHUNK_SIZE <= c * CHUNK_SIZE) by (nonlinear_arith)
                    requires
                        k + 2 <= c,
                ;
                assert((k + 2) * CHUNK_SIZE == (k + 1) * CHUNK_SIZE + CHUNK_SIZE)
                    by (nonlinear_arith);
            }
        }
    }
}

/// The number of bytes that the pixels of a canvas take with four bytes each.
pub open spec fn rgba_length(c: Canvas) -> int {
    (4 * canvas_width(c) * canvas_height(c)) as int
}

/// The text of an image's pixels: the base64 text of their RGBA bytes.
pub open spec fn image_text(c: Canvas) -> Seq<u8> {
    base64_text(interleave_rgba(canvas_pixels(c)))
}

/// Encodes the pixels of a canvas for transmission: four bytes per pixel, red, green,
/// blue and an alpha of 255, as base64 text.
pub fn encode_image(canvas: &Canvas) -> (text: Vec<u8>)
    requires
        canvas.wf(),
    ensures
        text@ == image_text(*canvas),
        text@.len() == encoded_length(rgba_length(*canvas)),
{
    let raw = canvas.to_rgba();
    proof {
        let area = canvas_width(*canvas) * canvas_height(*canvas);
        assert(4 * canvas_width(*canvas) * canvas_height(*canvas) == 4 * area)
            by (nonlinear_arith)
            requires
                area == canvas_width(*canvas) * canvas_height(*canvas),
        ;
        assert(8 * canvas_width(*canvas) * canvas_height(*canvas) == 8 * area)
            by (nonlinear_arith)
            requires
                area == canvas_width(*canvas) * canvas_height(*canvas),
        ;
        assert(encoded_length(4 * (area as int)) <= 8 * area);
    }
    encode_base64(raw.as_slice())
}

/// Frames a canvas for transmission to the terminal: its pixels as base64 text, cut
/// into chunks and framed in the order in which the frames are to be sent. The first
/// frame carries the size of the image.
pub fn kitty_frames(canvas: &Canvas) -> (frames: Vec<Vec<u8>>)
    requires
        canvas.wf(),
    ensures
        image_text(*canvas).len() == encoded_length(rgba_length(*canvas)),
        frames@.len() == chunk_count(encoded_length(rgba_length(*canvas))),
        forall|k: int|
            0 <= k < frames@.len() ==> (#[trigger] frames@[k])@ == frame_of(
                image_text(*canvas),
                canvas_width(*canvas) as u32,
                canvas_height(*canvas) as u32,
                k,
            ),
{
    let text = encode_image(canvas);
    frames_of_text(text.as_slice(), canvas.width(), canvas.height())
}

/// The first `n` chunks of a text, joined in order.
pub open spec fn joined_chunks(text: Seq<u8>, n: int) -> Seq<u8>
    decreases n,
{
    if n <= 0 {
        Seq::<u8>::empty()
    } else {
        joined_chunks(text, n - 1) + chunk_of(text, n - 1)
    }
}

/// The first `n` chunks of a text, joined in order, are the text up to the end of
/// chunk `n - 1`.
proof fn lemma_joined_prefix(text: Seq<u8>, n: int)
    requires
        0 <= n <= chunk_count(text.len() as int),
    ensures
        joined_chunks(text, n) == text.take(
            if n == 0 {
                0
            } else {
                chunk_end(text.len() as int, n - 1)
            },
        ),
    decreases n,
{
    let len = text.len() as int;
    if n == 0 {
        assert(text.take(0) =~= Seq::<u8>::empty());
    } else {
        lemma_joined_prefix(text, n - 1);
        lemma_chunk_start(len, n - 1);
        lemma_chunk_position(len, n - 1);
        if n - 1 > 0 {
            lemma_chunk_start(len, n - 2);
            lemma_chunk_position(len, n - 2);
            assert((n - 2 + 1) * CHUNK_SIZE == (n - 1) * CHUNK_SIZE) by (nonlinear_arith);
        } else {
            assert((n - 1) * CHUNK_SIZE == 0) by (nonlinear_arith)
                requires
                    n == 1,
            ;
        }
        assert(joined_chunks(text, n) =~= text.take(chunk_end(len, n - 1)));
    }
}

/// Every chunk that a text has starts inside the text.
pub proof fn lemma_chunk_start(len: int, k: int)
    requires
        0 <= k < chunk_count(len),
    ensures
        k * CHUNK_SIZE < len,
{
    let c = chunk_count(len);
    crate::arith::lemma_quotient_bounds(len + CHUNK_SIZE - 1, CHUNK_SIZE as int);
    assert((k + 1) * CHUNK_SIZE <= c * CHUNK_SIZE) by (nonlinear_arith)
        requires
            k + 1 <= c,
    ;
    assert((k + 1) * CHUNK_SIZE == k * CHUNK_SIZE + CHUNK_SIZE) by (nonlinear_arith);
}

/// The chunks of a text, joined in the order of their frames, are the text: nothing
/// is lost, repeated or reordered.
pub proof fn lemma_chunks_rebuild_text(text: Seq<u8>)
    ensures
        joined_chunks(text, chunk_count(text.len() as int)) == text,
{
    let len = text.len() as int;
    let c = chunk_count(len);
    crate::arith::lemma_quotient_bounds(len + CHUNK_SIZE - 1, CHUNK_SIZE as int);
    assert(c >= 0) by {
        if c < 0 {
            assert((c + 1) * CHUNK_SIZE <= 0) by (nonlinear_arith)
                requires
                    c + 1 <= 0,
            ;
        }
    }
    lemma_joined_prefix(text, c);
    if c == 0 {
        assert(len == 0) by {
            assert((0 + 1) * CHUNK_SIZE == CHUNK_SIZE) by (nonlinear_arith);
        }
        assert(text.take(0) =~= text);
    } else {
        lemma_chunk_start(len, c - 1);
        lemma_chunk_position(len, c - 1);
        assert(text.take(len) =~= text);
    }
}

/// An empty text has no chunk, a text of at most `CHUNK_SIZE` bytes has one, and a
/// longer text has two or more. No chunk is empty and none is longer than
/// `CHUNK_SIZE`.
pub proof fn lemma_chunk_counts(text: Seq<u8>)
    ensures
        text.len() == 0 ==> chunk_count(text.len() as int) == 0,
        0 < text.len() <= CHUNK_SIZE ==> chunk_count(text.len() as int) == 1,
        text.len() > CHUNK_SIZE ==> chunk_count(text.len() as int) >= 2,
        forall|k: int|
            0 <= k < chunk_count(text.len() as int) ==> 0 < (#[trigger] chunk_of(text, k)).len()
                <= CHUNK_SIZE,
{
    let len = text.len() as int;
    let c = chunk_count(len);
    crate::arith::lemma_quotient_bounds(len + CHUNK_SIZE - 1, CHUNK_SIZE as int);
    assert((0 + 1) * CHUNK_SIZE == CHUNK_SIZE) by (nonlinear_arith);
    assert((1 + 1) * CHUNK_SIZE == 2 * CHUNK_SIZE) by (nonlinear_arith);
    if len > 0 {
        lemma_chunk_position(len, 0);
        if len > CHUNK_SIZE {
            lemma_chunk_position(len, 1);
        } else {
            assert(c == 1);
        }
    } else {
        assert(c == 0) by {
            if c >= 1 {
                assert(c * CHUNK_SIZE >= CHUNK_SIZE) by (nonlinear_arith)
                    requires
                        c >= 1,
                ;
            }
            if c < 0 {
                assert((c + 1) * CHUNK_SIZE <= 0) by (nonlinear_arith)
                    requires
                        c + 1 <= 0,
                ;
            }
        }
    }
    assert forall|k: int| 0 <= k < c implies 0 < (#[trigger] chunk_of(text, k)).len()
        <= CHUNK_SIZE by {
        lemma_chunk_start(len, k);
        lemma_chunk_position(len, k);
    }
}

/// In a transmission every frame but the last says that more follow, and the last
/// says that none does.
pub proof fn lemma_more_flags(text: Seq<u8>, width: u32, height: u32, k: int)
    requires
        0 <= k < chunk_count(text.len() as int),
    ensures
        frame_of(text, width, height, k) == frame_bytes(
            k == 0,
            width,
            height,
            k != chunk_count(text.len() as int) - 1,
            chunk_of(text, k),
        ),
{
}

/// An image of a single pixel is sent in one frame.
pub proof fn lemma_single_pixel_frame(c: Canvas)
    requires
        canvas_width(c) == 1,
        canvas_height(c) == 1,
    ensures
        chunk_count(encoded_length(rgba_length(c))) == 1,
{
    assert(4 * canvas_width(c) * canvas_height(c) == 4) by (nonlinear_arith)
        requires
            canvas_width(c) == 1,
            canvas_height(c) == 1,
    ;
    assert(encoded_length(4) == 8);
    assert(chunk_count(8) == 1);
}

} // verus!
