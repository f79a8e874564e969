//! Recording of the animation as a gif.

use vstd::prelude::*;
use vstd::string::*;

verus! {

pub const GIF_FRAMERATE: u32 = 8;

pub const GIF_RESOLUTION: u32 = 400;

pub const GIF_MAX_FRAMES: u32 = 140;

pub const GIF_MIN_FRAMES: u32 = 100;

/// Ten mebibytes.
pub const GIF_MAX_SIZE: usize = 10485760;

pub const GIF_PALETTE_SAMPLEFAC: i32 = 1;

/// Number of colours of the palette.
pub const GIF_COLORS: usize = 256;

/// Hundredths of a second that a frame is shown: a hundred divided by the frame
/// rate and by the playback speed of one and a half, rounded down.
pub const GIF_FRAME_DELAY: u16 = 8;

/// Pixels of a frame.
pub const GIF_FRAME_PIXELS: usize = 160000;

/// Allowance for the blocks around the pixels of a frame.
pub const GIF_FRAME_OVERHEAD: usize = 32;

/// The outside colour quantiser.
#[verifier::external_type_specification]
#[verifier::external_body]
pub struct ExNeuQuant(color_quant::NeuQuant);

/// Holds a `gif::Encoder` that writes into a vector.
#[verifier::external_body]
pub struct FrameEncoder {
    inner: gif::Encoder<Vec<u8>>,
}

/// The outside encoder's error.
#[verifier::external_type_specification]
#[verifier::external_body]
pub struct ExEncodingError(gif::EncodingError);

/// What a quantiser was made with: the sampling factor, the number of colours,
/// and the pixels it was trained on.
pub uninterp spec fn training(q: color_quant::NeuQuant) -> (int, nat, Seq<u8>);

/// The colours that a quantiser of that making has found, as bytes of red, green
/// and blue.
pub uninterp spec fn quantised_colors(samplefac: int, colors: nat, pixels: Seq<u8>) -> Seq<u8>;

/// The index of the colour that matches a pixel best.
pub uninterp spec fn nearest_color(
    samplefac: int,
    colors: nat,
    pixels: Seq<u8>,
    pixel: Seq<u8>,
) -> nat;

/// The bytes that an encoder has written.
pub uninterp spec fn written(e: FrameEncoder) -> Seq<u8>;

/// The blocks that an encoder writes for a frame of colour indices.
pub uninterp spec fn frame_blocks(
    width: nat,
    height: nat,
    indices: Seq<u8>,
    delay: nat,
) -> Seq<u8>;

/// `color_quant::NeuQuant::new`: makes a quantiser and trains it on pixels of
/// four bytes. Claimed: the quantiser is the one of these arguments.
#[verifier::external_body]
fn train(samplefac: i32, colors: usize, pixels: &[u8]) -> (r: color_quant::NeuQuant)
    requires
        1 <= samplefac <= 30,
        64 <= colors <= 256,
    ensures
        training(r) == (samplefac as int, colors as nat, pixels@),
{
    color_quant::NeuQuant::new(samplefac, colors, pixels)
}

/// `color_quant::NeuQuant::color_map_rgb`: the colours found. Claimed: they
/// depend on the making of the quantiser only, and are three bytes for each of
/// the colours asked for.
#[verifier::external_body]
fn color_map(q: &color_quant::NeuQuant) -> (r: Vec<u8>)
    ensures
        r@ == quantised_colors(training(*q).0, training(*q).1, training(*q).2),
        r@.len() == 3 * training(*q).1,
{
    q.color_map_rgb()
}

/// `color_quant::NeuQuant::index_of`: the index of the best match. Claimed: it
/// depends on the making of the quantiser and the pixel only, and is an index of
/// the colours found.
#[verifier::external_body]
fn color_index(q: &color_quant::NeuQuant, pixel: &[u8]) -> (r: usize)
    requires
        pixel@.len() == 4,
    ensures
        r == nearest_color(training(*q).0, training(*q).1, training(*q).2, pixel@),
        r < training(*q).1,
{
    q.index_of(pixel)
}

/// The two bytes of a number, the low one first.
pub open spec fn two_bytes(n: int) -> Seq<u8> {
    seq![(n % 256) as u8, (n / 256) as u8]
}

/// What stands at the start of a gif with a palette of 256 colours: signature,
/// size, flags, background, aspect, and the palette.
pub open spec fn gif_header(width: int, height: int, palette: Seq<u8>) -> Seq<u8> {
    seq![0x47u8, 0x49, 0x46, 0x38, 0x39, 0x61] + two_bytes(width) + two_bytes(height) + seq![
        0xF7u8,
        0,
        0,
    ] + palette
}

/// The block that makes a gif repeat for ever.
pub open spec fn repeat_block() -> Seq<u8> {
    seq![
        0x21u8,
        0xFF,
        11,
        0x4E,
        0x45,
        0x54,
        0x53,
        0x43,
        0x41,
        0x50,
        0x45,
        0x32,
        0x2E,
        0x30,
        3,
        1,
        0,
        0,
        0,
    ]
}

/// `gif::Encoder::new` on an empty vector, with a palette of 256 colours. Claimed:
/// it succeeds, and the header and the palette are written.
#[verifier::external_body]
fn new_encoder(width: u16, height: u16, palette: &[u8]) -> (r: Result<
    FrameEncoder,
    gif::EncodingError,
>)
    requires
        palette@.len() == 768,
    ensures
        r is Ok,
        written(r->Ok_0) == gif_header(width as int, height as int, palette@),
{
    let inner = gif::Encoder::new(Vec::new(), width, height, palette)?;
    Ok(FrameEncoder { inner })
}

/// `gif::Encoder::set_repeat` with `gif::Repeat::Infinite`. Claimed: it succeeds,
/// and appends the block that says so.
#[verifier::external_body]
fn repeat_forever(e: &mut FrameEncoder) -> (r: Result<(), gif::EncodingError>)
    ensures
        r is Ok,
        written(*final(e)) == written(*old(e)) + repeat_block(),
{
    e.inner.set_repeat(gif::Repeat::Infinite)
}

/// `gif::Encoder::write_frame` of a `gif::Frame` of colour indices. Claimed: on
/// success the blocks of the frame are appended; on failure what was written
/// before is still there. Whether memory suffices for the blocks is not said.
#[verifier::external_body]
fn write_indexed(
    e: &mut FrameEncoder,
    width: u16,
    height: u16,
    indices: Vec<u8>,
    delay: u16,
) -> (r: Result<(), gif::EncodingError>)
    requires
        indices@.len() == width * height,
    ensures
        r is Ok ==> written(*final(e)) == written(*old(e)) + frame_blocks(
            width as nat,
            height as nat,
            indices@,
            delay as nat,
        ),
        r is Err ==> written(*old(e)).is_prefix_of(written(*final(e))),
{
    let mut frame = gif::Frame::from_indexed_pixels(width, height, indices, None);
    frame.delay = delay;
    e.inner.write_frame(&frame)
}

/// `gif::Encoder::get_ref`, and the length of the vector there. Claimed: it is the
/// number of bytes written.
#[verifier::external_body]
fn bytes_written(e: &FrameEncoder) -> (r: usize)
    ensures
        r == written(*e).len(),
{
    e.inner.get_ref().len()
}

/// `gif::Encoder::into_inner`. Claimed: it succeeds, and hands out what was
/// written, with the trailer byte at the end.
#[verifier::external_body]
fn close_encoder(e: FrameEncoder) -> (r: Option<Vec<u8>>)
    ensures
        r is Some,
        r->Some_0@ == written(e).push(0x3B),
{
    e.inner.into_inner().ok()
}

/// How far a recording is.
#[derive(Clone, Debug)]
pub enum GifStatus {
    Idle,
    Recording,
    Complete(String),
    Error(String),
}

impl GifStatus {
    pub fn is_recording(&self) -> (r: bool)
        ensures
            r == (self is Recording),
    {
        matches!(self, GifStatus::Recording)
    }

    pub fn not_recording(&self) -> (r: bool)
        ensures
            r == (self is Idle),
    {
        matches!(self, GifStatus::Idle)
    }
}

/// Why a frame could not be written.
pub enum GifError {
    NoPalette,
    NoEncoder,
    Encoding(gif::EncodingError),
}

impl GifError {
    /// The library's own message; none for an error of the encoder.
    pub fn message(&self) -> (r: Option<&'static str>)
        ensures
            match self {
                GifError::NoPalette => r matches Some(m) && m@ == "No GIF palette"@,
                GifError::NoEncoder => r matches Some(m) && m@
                    == "encoder was None during try_write_frame"@,
                GifError::Encoding(_) => r is None,
            },
    {
        match self {
            GifError::NoPalette => Some("No GIF palette"),
            GifError::NoEncoder => Some("encoder was None during try_write_frame"),
            GifError::Encoding(_) => None,
        }
    }
}

/// What is left to do when a recording ends.
pub enum FinishStep {
    /// Nothing was recorded.
    NoEncoder,
    /// The bytes are to be saved.
    Save(Vec<u8>),
    /// There are bytes, but no recording was under way.
    Unexpected(Vec<u8>),
}

/// What became of saving the bytes.
pub enum SaveOutcome {
    /// Saved under this path.
    Written(String),
    /// Not saved, for this reason.
    Failed(String),
    /// No place was chosen.
    Dismissed,
}

/// Colour indices of a frame, for a quantiser of a given making.
pub open spec fn indexed(t: (int, nat, Seq<u8>), rgba: Seq<u8>) -> Seq<u8> {
    Seq::new(
        rgba.len() / 4,
        |i: int| nearest_color(t.0, t.1, t.2, rgba.subrange(4 * i, 4 * i + 4)) as u8,
    )
}

/// The colour indices of a frame of pixels of four bytes.
fn index_pixels(q: &color_quant::NeuQuant, rgba: &Vec<u8>) -> (r: Vec<u8>)
    requires
        training(*q).1 <= 256,
    ensures
        r@ == indexed(training(*q), rgba@),
{
    let ghost t = training(*q);
    let n: usize = rgba.len() / 4;
    let mut out: Vec<u8> = Vec::with_capacity(n);
    let mut i: usize = 0;
    while i < n
        invariant
            i <= n,
            n == rgba@.len() / 4,
            4 * n <= usize::MAX,
            t == training(*q),
            t.1 <= 256,
            out@ == indexed(t, rgba@).take(i as int),
        decreases n - i,
    {
        let pixel = vstd::slice::slice_subrange(rgba.as_slice(), 4 * i, 4 * i + 4);
        let c: usize = color_index(q, pixel);
        out.push(c as u8);
        proof {
            let goal = indexed(t, rgba@);
            assert(goal.take(i + 1) =~= goal.take(i as int).push(goal[i as int]));
        }
        i += 1;
    }
    assert(out@ =~= indexed(t, rgba@));
    out
}

/// Records frames of the animation.
pub struct GifRecorder {
    pub id: u32,
    pub status: GifStatus,
    pub encoder: Option<FrameEncoder>,
    pub palette: Option<color_quant::NeuQuant>,
    pub frame_count: u32,
    pub should_stop: bool,
}

impl GifRecorder {
    /// Palettes are of 256 colours.
    pub open spec fn wf(&self) -> bool {
        self.palette matches Some(q) ==> training(q).1 == GIF_COLORS
    }

    pub fn new() -> (r: Self)
        ensures
            r.wf(),
            r.id == 0,
            r.status is Idle,
            r.encoder is None,
            r.palette is None,
            r.frame_count == 0,
            !r.should_stop,
    {
        GifRecorder {
            id: 0,
            status: GifStatus::Idle,
            encoder: None,
            palette: None,
            frame_count: 0,
            should_stop: false,
        }
    }

    pub fn is_recording(&self) -> (r: bool)
        ensures
            r == (self.status is Recording),
    {
        self.status.is_recording()
    }

    pub fn not_recording(&self) -> (r: bool)
        ensures
            r == (self.status is Idle),
    {
        self.status.not_recording()
    }

    /// Starts a recording with a palette for the given colours, four bytes each.
    pub fn init_encoder(&mut self, colors: &[u8]) -> (r: Result<(), GifError>)
        ensures
            r is Ok,
            final(self).wf(),
            final(self).id == old(self).id,
            final(self).status is Recording,
            final(self).frame_count == 0,
            !final(self).should_stop,
            final(self).palette matches Some(q) && training(q) == (
                GIF_PALETTE_SAMPLEFAC as int,
                GIF_COLORS as nat,
                colors@,
            ),
            final(self).encoder matches Some(e) && written(e) == gif_header(
                GIF_RESOLUTION as int,
                GIF_RESOLUTION as int,
                quantised_colors(GIF_PALETTE_SAMPLEFAC as int, GIF_COLORS as nat, colors@),
            ) + repeat_block(),
            written(final(self).encoder.unwrap()) == gif_header(
                400,
                400,
                quantised_colors(1, 256, colors@),
            ) + repeat_block(),
    {
        let palette = train(GIF_PALETTE_SAMPLEFAC, GIF_COLORS, colors);
        let map = color_map(&palette);
        let mut encoder = match new_encoder(GIF_RESOLUTION as u16, GIF_RESOLUTION as u16, &map) {
            Ok(e) => e,
            Err(e) => {
                return Err(GifError::Encoding(e));
            },
        };
        self.palette = Some(palette);
        match repeat_forever(&mut encoder) {
            Ok(_) => {},
            Err(e) => {
                return Err(GifError::Encoding(e));
            },
        }
        self.encoder = Some(encoder);
        self.frame_count = 0;
        self.status = GifStatus::Recording;
        self.should_stop = false;
        Ok(())
    }

    /// Writes a frame, if one has arrived; true if one has. A frame that would make
    /// the file too large is not written, and asks for the recording to stop.
    pub fn try_write_frame(&mut self, frame: Option<Vec<u8>>) -> (r: Result<bool, GifError>)
        requires
            old(self).wf(),
            frame matches Some(rgba) ==> rgba@.len() / 4 == GIF_FRAME_PIXELS,
        ensures
            final(self).wf(),
            final(self).id == old(self).id,
            final(self).status == old(self).status,
            final(self).palette == old(self).palette,
            final(self).frame_count == old(self).frame_count,
            frame is Some && old(self).encoder is Some && old(self).palette is Some ==> {
                let before = written(old(self).encoder.unwrap());
                let full = before.len() + 160000 + 32 > 10485760;
                &&& final(self).should_stop == (old(self).should_stop || full)
                &&& final(self).encoder is Some
                &&& r is Ok && !full ==> written(final(self).encoder.unwrap()) == before + frame_blocks(
                    400,
                    400,
                    indexed(training(old(self).palette.unwrap()), frame.unwrap()@),
                    8,
                )
            },
            match frame {
                None => r == Ok::<bool, GifError>(false) && *final(self) == *old(self),
                Some(rgba) => match (old(self).encoder, old(self).palette) {
                    (None, _) => {
                        &&& r == Err::<bool, GifError>(GifError::NoEncoder)
                        &&& *final(self) == *old(self)
                    },
                    (Some(_), None) => {
                        &&& r == Err::<bool, GifError>(GifError::NoPalette)
                        &&& *final(self) == *old(self)
                    },
                    (Some(e), Some(q)) => if written(e).len() + GIF_FRAME_PIXELS
                        + GIF_FRAME_OVERHEAD > GIF_MAX_SIZE {
                        &&& r == Ok::<bool, GifError>(true)
                        &&& final(self).encoder == old(self).encoder
                        &&& final(self).should_stop
                    } else {
                        &&& final(self).should_stop == old(self).should_stop
                        &&& final(self).encoder matches Some(f) && match r {
                            Ok(b) => b && written(f) == written(e) + frame_blocks(
                                GIF_RESOLUTION as nat,
                                GIF_RESOLUTION as nat,
                                indexed(training(q), rgba@),
                                GIF_FRAME_DELAY as nat,
                            ),
                            Err(x) => x is Encoding && written(e).is_prefix_of(written(f)),
                        }
                    },
                },
            },
    {
        let rgba = match frame {
            Some(rgba) => rgba,
            None => {
                return Ok(false);
            },
        };
        let mut encoder = match self.encoder.take() {
            Some(e) => e,
            None => {
                return Err(GifError::NoEncoder);
            },
        };
        let pixels: Vec<u8> = match &self.palette {
            Some(q) => index_pixels(q, &rgba),
            None => {
                self.encoder = Some(encoder);
                return Err(GifError::NoPalette);
            },
        };
        let size: usize = bytes_written(&encoder);
        if size > GIF_MAX_SIZE - GIF_FRAME_OVERHEAD - pixels.len() {
            self.encoder = Some(encoder);
            self.should_stop = true;
            return Ok(true);
        }
        let done = write_indexed(
            &mut encoder,
            GIF_RESOLUTION as u16,
            GIF_RESOLUTION as u16,
            pixels,
            GIF_FRAME_DELAY,
        );
        self.encoder = Some(encoder);
        match done {
            Ok(_) => Ok(true),
            Err(e) => Err(GifError::Encoding(e)),
        }
    }

    /// Ends the recording and says what is left to do.
    pub fn finish(&mut self) -> (r: FinishStep)
        ensures
            final(self).wf() == old(self).wf(),
            final(self).encoder is None,
            final(self).id == old(self).id,
            final(self).palette == old(self).palette,
            final(self).frame_count == old(self).frame_count,
            match old(self).encoder {
                None => {
                    &&& r is NoEncoder
                    &&& final(self).should_stop == old(self).should_stop
                    &&& final(self).status matches GifStatus::Error(m) && m@ == "No encoder"@
                },
                Some(e) => {
                    &&& !final(self).should_stop
                    &&& final(self).status == old(self).status
                    &&& if old(self).status is Recording {
                        r matches FinishStep::Save(v) && v@ == written(e).push(0x3B)
                    } else {
                        r matches FinishStep::Unexpected(v) && v@ == written(e).push(0x3B)
                    }
                },
            },
    {
        let encoder = match self.encoder.take() {
            Some(e) => e,
            None => {
                self.status = GifStatus::Error("No encoder".to_string());
                return FinishStep::NoEncoder;
            },
        };
        self.should_stop = false;
        match close_encoder(encoder) {
            Some(data) => if self.status.is_recording() {
                FinishStep::Save(data)
            } else {
                FinishStep::Unexpected(data)
            },
            None => FinishStep::NoEncoder,
        }
    }

    /// Notes what became of saving the bytes; false if the matter is still open.
    pub fn saved(&mut self, outcome: SaveOutcome) -> (r: bool)
        ensures
            final(self).id == old(self).id,
            final(self).encoder == old(self).encoder,
            final(self).palette == old(self).palette,
            final(self).frame_count == old(self).frame_count,
            final(self).should_stop == old(self).should_stop,
            match outcome {
                SaveOutcome::Written(path) => r && final(self).status == GifStatus::Complete(path),
                SaveOutcome::Failed(reason) => r && (final(self).status matches GifStatus::Error(m)
                    && m@ == "failed to save gif: "@ + reason@),
                SaveOutcome::Dismissed => !r && final(self).status == old(self).status,
            },
    {
        match outcome {
            SaveOutcome::Written(path) => {
                self.status = GifStatus::Complete(path);
                true
            },
            SaveOutcome::Failed(reason) => {
                let mut message = "failed to save gif: ".to_string();
                message.append(reason.as_str());
                self.status = GifStatus::Error(message);
                true
            },
            SaveOutcome::Dismissed => false,
        }
    }

    /// Gives the recording up.
    pub fn stop(&mut self)
        requires
            old(self).id < u32::MAX,
        ensures
            final(self).wf(),
            final(self).id == old(self).id + 1,
            final(self).status is Idle,
            final(self).encoder is None,
            final(self).palette is None,
            final(self).frame_count == 0,
            !final(self).should_stop,
    {
        self.should_stop = false;
        self.status = GifStatus::Idle;
        self.encoder = None;
        self.palette = None;
        self.frame_count = 0;
        self.id = self.id + 1;
    }

    /// Never before the least number of frames, always at the greatest, and in
    /// between once a frame did not fit any more.
    pub fn should_stop(&self) -> (r: bool)
        ensures
            r == (self.frame_count >= GIF_MIN_FRAMES && (self.frame_count >= GIF_MAX_FRAMES
                || self.should_stop)),
            self.frame_count < 100 ==> !r,
            self.frame_count >= 140 ==> r,
            100 <= self.frame_count < 140 ==> r == self.should_stop,
    {
        if self.frame_count < GIF_MIN_FRAMES {
            false
        } else if self.frame_count >= GIF_MAX_FRAMES {
            true
        } else {
            self.should_stop
        }
    }

    /// The name of the recording of a preset.
    pub fn get_name(&self, name: &str, reverse: bool) -> (r: String)
        ensures
            r@ == if reverse {
                "unobamify_"@ + name@
            } else {
                "obamify_"@ + name@
            },
    {
        let mut full = if reverse {
            "unobamify_".to_string()
        } else {
            "obamify_".to_string()
        };
        full.append(name);
        full
    }
}

/// Alignment of the rows of a readback buffer.
pub const ROW_ALIGNMENT: u32 = 256;

/// Bytes of a row of pixels of four bytes, rounded up to the alignment.
pub open spec fn padded_row(width: int) -> int {
    (4 * width + 255) / 256 * 256
}

/// Bytes of a row of a readback buffer.
pub fn padded_bytes_per_row(width: u32) -> (r: u32)
    requires
        padded_row(width as int) <= u32::MAX,
    ensures
        r == padded_row(width as int),
{
    ((4 * width as u64 + 255) / 256 * 256) as u32
}

/// The pixels of a readback buffer, without the padding of its rows.
pub fn unpadded(mapped: &[u8], width: u32, height: u32) -> (r: Vec<u8>)
    requires
        padded_row(width as int) * height <= mapped@.len(),
    ensures
        r@ == Seq::new(
            (4 * width * height) as nat,
            |i: int| mapped@[i / (4 * width) * padded_row(width as int) + i % (4 * width)],
        ),
{
    let ghost goal = Seq::new(
        (4 * width * height) as nat,
        |i: int| mapped@[i / (4 * width) * padded_row(width as int) + i % (4 * width)],
    );
    let mut rgba: Vec<u8> = Vec::new();
    let len: usize = mapped.len();
    if width == 0 || height == 0 {
        assert(4 * width * height == 0) by (nonlinear_arith)
            requires
                width == 0 || height == 0,
        ;
        assert(rgba@ =~= goal);
        return rgba;
    }
    let ghost row = 4 * width as int;
    let ghost step = padded_row(width as int);
    assert(row <= step);
    assert(step <= step * height) by (nonlinear_arith)
        requires
            height >= 1,
            step >= 0,
    ;
    let unpadded_row: usize = 4 * width as usize;
    let padded: usize = (unpadded_row + (255 - (unpadded_row + 255) % 256)) as usize;
    assert(padded == step);
    let mut y: usize = 0;
    while y < height as usize
        invariant
            y <= height,
            width > 0,
            row == 4 * width,
            row == unpadded_row,
            step == padded_row(width as int),
            step == padded,
            row <= step,
            step * height <= len,
            len == mapped@.len(),
            goal == Seq::new(
                (4 * width * height) as nat,
                |i: int| mapped@[i / (4 * width) * padded_row(width as int) + i % (4 * width)],
            ),
            rgba@.len() == row * y,
            forall|i: int| 0 <= i < row * y ==> #[trigger] rgba@[i] == goal[i],
            row * y <= row * height,
        decreases height - y,
    {
        assert(step * y + step <= step * height && row * y + row <= row * height) by (
        nonlinear_arith)
            requires
                y + 1 <= height,
                step >= 0,
                row >= 0,
        ;
        let start: usize = y * padded;
        let mut x: usize = 0;
        while x < unpadded_row
            invariant
                x <= unpadded_row,
                width > 0,
                row == 4 * width,
                row == unpadded_row,
                step == padded_row(width as int),
                row <= step,
                start == step * y,
                start + step <= len,
                len == mapped@.len(),
                goal == Seq::new(
                    (4 * width * height) as nat,
                    |i: int| mapped@[i / (4 * width) * padded_row(width as int) + i % (4 * width)],
                ),
                rgba@.len() == row * y + x,
                row * y + row <= row * height,
                forall|i: int| 0 <= i < row * y + x ==> #[trigger] rgba@[i] == goal[i],
            decreases unpadded_row - x,
        {
            rgba.push(mapped[start + x]);
            proof {
                let i = row * y + x;
                vstd::arithmetic::div_mod::lemma_fundamental_div_mod_converse(
                    i,
                    row,
                    y as int,
                    x as int,
                );
                assert(4 * width * height == row * height);
                assert(goal[i] == mapped@[start + x]) by {
                    assert(i / row * step == step * y) by (nonlinear_arith)
                        requires
                            i / row == y,
                    ;
                }
            }
            x += 1;
        }
        assert(row * y + row == row * (y + 1)) by (nonlinear_arith);
        y += 1;
    }
    assert(4 * width * height == row * height);
    assert(rgba@ =~= goal);
    rgba
}

/// A padded row is the shortest that holds the pixels of the row and ends on the
/// alignment.
pub proof fn lemma_padded_row(width: int)
    requires
        0 <= width,
    ensures
        padded_row(width) % 256 == 0,
        4 * width <= padded_row(width) < 4 * width + 256,
{
}

/// Without the padding, byte `b` of the pixel in column `col` and row `row` is what
/// stands that far into its padded row.
pub proof fn lemma_unpadded_pixels(
    mapped: Seq<u8>,
    width: int,
    height: int,
    pixels: Seq<u8>,
    col: int,
    row: int,
    b: int,
)
    requires
        pixels == Seq::new(
            (4 * width * height) as nat,
            |i: int| mapped[i / (4 * width) * padded_row(width) + i % (4 * width)],
        ),
        0 <= col < width,
        0 <= row < height,
        0 <= b < 4,
    ensures
        pixels[4 * (row * width + col) + b] == mapped[row * padded_row(width) + 4 * col + b],
{
    let i = 4 * (row * width + col) + b;
    let r = 4 * col + b;
    assert(i == row * (4 * width) + r) by (nonlinear_arith)
        requires
            i == 4 * (row * width + col) + b,
            r == 4 * col + b,
    ;
    vstd::arithmetic::div_mod::lemma_fundamental_div_mod_converse(i, 4 * width, row, r);
    assert(0 <= i < 4 * width * height) by (nonlinear_arith)
        requires
            i == row * (4 * width) + r,
            0 <= r < 4 * width,
            0 <= row < height,
    ;
}

} // verus!
