//! The server's own rules: what one turn of its loop does, which id a frame gets, and how a
//! captured image becomes the bytes that are compressed.

use vstd::prelude::*;

verus! {

/// One captured pixel, by its blue, green and red parts.
#[derive(Clone, Copy, Debug, PartialEq, Eq, Structural)]
pub struct Pixel {
    pub b: u8,
    pub g: u8,
    pub r: u8,
}

/// The bytes of a run of pixels: for each pixel its blue, green and red part, in this order.
pub open spec fn pixel_bytes(pixels: Seq<Pixel>) -> Seq<u8> {
    Seq::new(
        3 * pixels.len(),
        |i: int|
            if i % 3 == 0 {
                pixels[i / 3].b
            } else if i % 3 == 1 {
                pixels[i / 3].g
            } else {
                pixels[i / 3].r
            },
    )
}

/// Lays a captured image out as bytes, three for each pixel: blue, green, red.
pub fn flatten_pixels(pixels: &Vec<Pixel>) -> (bytes: Vec<u8>)
    ensures
        bytes@ == pixel_bytes(pixels@),
{
    let mut bytes: Vec<u8> = Vec::new();
    let mut i: usize = 0;
    while i < pixels.len()
        invariant
            0 <= i <= pixels@.len(),
            bytes@ == pixel_bytes(pixels@.take(i as int)),
        decreases pixels@.len() - i,
    {
        let pixel = pixels[i];
        let ghost before = bytes@;
        bytes.push(pixel.b);
        bytes.push(pixel.g);
        bytes.push(pixel.r);
        assert(bytes@ =~= pixel_bytes(pixels@.take(i + 1))) by {
            assert(bytes@ =~= before.push(pixel.b).push(pixel.g).push(pixel.r));
            assert forall|k: int| 0 <= k < 3 * (i + 1) implies bytes@[k] == pixel_bytes(
                pixels@.take(i + 1),
            )[k] by {
                if k < 3 * i {
                    assert(before[k] == pixel_bytes(pixels@.take(i as int))[k]);
                    assert(pixels@.take(i as int)[k / 3] == pixels@.take(i + 1)[k / 3]);
                }
            }
        }
        i += 1;
    }
    assert(pixels@.take(i as int) =~= pixels@);
    bytes
}

/// An uncompressed image as bytes, row after row, three bytes for each pixel.
pub struct RawImage {
    /// The bytes of the pixels: blue, green, red.
    pub pixels: Vec<u8>,
    /// The number of pixels in a row.
    pub width: usize,
    /// The number of rows.
    pub height: usize,
    /// The number of bytes in a row.
    pub pitch: usize,
}

impl RawImage {
    /// The bytes of one pixel.
    pub const PIXEL_SIZE: usize = 3;

    /// The image is laid out without gaps, and its rows lie within its bytes.
    pub open spec fn wf(&self) -> bool {
        &&& self.pitch == Self::PIXEL_SIZE * self.width
        &&& self.pitch * self.height <= self.pixels@.len()
    }
}

/// Lays a captured image of the given size out for compression. There is no such image if the
/// pixels are fewer than the size asks for, or if a row has more bytes than can be counted.
pub fn bgr_image(pixels: &Vec<Pixel>, width: usize, height: usize) -> (image: Option<RawImage>)
    ensures
        image.is_some() <==> width * height <= pixels@.len() && RawImage::PIXEL_SIZE * width
            <= usize::MAX,
        image matches Some(raw) ==> {
            &&& raw.wf()
            &&& raw.width == width
            &&& raw.height == height
            &&& raw.pixels@ == pixel_bytes(pixels@)
        },
{
    let pitch: usize = match width.checked_mul(RawImage::PIXEL_SIZE) {
        Some(pitch) => pitch,
        None => {
            return None;
        },
    };
    match width.checked_mul(height) {
        Some(area) => {
            if area > pixels.len() {
                return None;
            }
        },
        None => {
            assert(pixels.len() <= usize::MAX);
            return None;
        },
    }
    let bytes = flatten_pixels(pixels);
    assert(pitch * height <= bytes@.len()) by (nonlinear_arith)
        requires
            pitch == 3 * width,
            width * height <= pixels@.len(),
            bytes@.len() == 3 * pixels@.len(),
    ;
    Some(RawImage { pixels: bytes, width, height, pitch })
}

/// The id of a frame that is captured so many milliseconds after the server began: the
/// milliseconds, wrapping round at 2^32.
pub fn frame_id_at(elapsed_millis: u128) -> (frame_id: u32)
    ensures
        frame_id == elapsed_millis % 0x1_0000_0000,
{
    (elapsed_millis % 0x1_0000_0000) as u32
}

/// What the server does in one turn of its loop.
#[derive(Clone, Copy, Debug, PartialEq, Eq, Structural)]
pub struct Tick {
    /// Sleep for one frame time and do nothing else.
    pub idle: bool,
    /// Capture a frame and hand it on for compression.
    pub capture: bool,
    /// Send so many of the frames that wait.
    pub dispatch: usize,
    /// Leave the loop after this turn.
    pub stop: bool,
}

/// The seconds after which the server stops streaming.
pub const STREAM_SECONDS: u64 = 60;

/// What one turn of the loop does. Without clients the server only sleeps. With clients it
/// captures a frame if none waits to be sent, sends every frame that waits, and stops once it
/// has streamed for more than `STREAM_SECONDS`.
pub open spec fn plan_tick_spec(clients: nat, queued: nat, elapsed_secs: nat) -> Tick {
    if clients == 0 {
        Tick { idle: true, capture: false, dispatch: 0, stop: false }
    } else {
        Tick {
            idle: false,
            capture: queued == 0,
            dispatch: queued as usize,
            stop: elapsed_secs > STREAM_SECONDS,
        }
    }
}

/// Plans one turn of the server's loop from the number of clients, the number of frames that
/// wait to be sent, and the seconds since the server began.
pub fn plan_tick(clients: usize, queued: usize, elapsed_secs: u64) -> (tick: Tick)
    ensures
        tick == plan_tick_spec(clients as nat, queued as nat, elapsed_secs as nat),
{
    if clients == 0 {
        Tick { idle: true, capture: false, dispatch: 0, stop: false }
    } else {
        Tick {
            idle: false,
            capture: queued == 0,
            dispatch: queued,
            stop: elapsed_secs > STREAM_SECONDS,
        }
    }
}

/// Capture never piles up: the server captures only when no frame waits, and never while it
/// has no client.
pub proof fn lemma_capture_needs_an_empty_queue(clients: nat, queued: nat, elapsed_secs: nat)
    ensures
        plan_tick_spec(clients, queued, elapsed_secs).capture <==> clients > 0 && queued == 0,
        plan_tick_spec(clients, queued, elapsed_secs).idle <==> clients == 0,
{
}

} // verus!
