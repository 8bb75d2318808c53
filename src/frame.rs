//! Per-frame storage that the section decoders fill.
use vstd::prelude::*;
use vstd::arithmetic::power2::{pow2, lemma_pow2_unfold, lemma2_to64};

use crate::bit_reader::{bits_value, BitReader};
use crate::error::Error;

verus! {

/// How a frame's pixels are coded.
#[derive(Debug, Clone, Copy, PartialEq, Eq, Structural)]
pub enum Encoding {
    VarDct,
    Modular,
}

/// A rectangle of samples, stored row by row.
pub struct Plane<T> {
    pub width: usize,
    pub height: usize,
    pub data: Vec<T>,
}

impl<T: Copy> Plane<T> {
    /// A `width x height` plane with every sample set to `fill`.
    pub fn new(width: usize, height: usize, fill: T) -> (r: Self)
        requires
            width * height <= usize::MAX,
        ensures
            r.width == width,
            r.height == height,
            r.data@ == Seq::new((width * height) as nat, |i: int| fill),
    {
        let n = width * height;
        let mut data: Vec<T> = Vec::new();
        let mut i: usize = 0;
        while i < n
            invariant
                i <= n,
                data@ == Seq::new(i as nat, |j: int| fill),
            decreases n - i,
        {
            data.push(fill);
            i = i + 1;
            assert(data@ =~= Seq::new(i as nat, |j: int| fill));
        }
        Plane { width, height, data }
    }
}

/// Number of color tiles (64 x 64 pixels) along a side of `blocks` 8 x 8 blocks.
pub open spec fn color_tiles(blocks: int) -> int {
    (blocks + 7) / 8
}

/// Per-block side information of a VarDCT frame: color correlation factors per
/// color tile; quantization, transform and filter choices per block.
pub struct HfMetadata {
    pub ytox_map: Plane<i8>,
    pub ytob_map: Plane<i8>,
    pub raw_quant_map: Plane<i32>,
    pub transform_map: Plane<u8>,
    pub epf_map: Plane<u8>,
}

impl HfMetadata {
    /// Zeroed metadata for a frame of `xsize_blocks x ysize_blocks` blocks.
    pub fn new(xsize_blocks: usize, ysize_blocks: usize) -> (r: Self)
        requires
            xsize_blocks * ysize_blocks <= usize::MAX,
        ensures
            r.ytox_map.width == color_tiles(xsize_blocks as int),
            r.ytox_map.height == color_tiles(ysize_blocks as int),
            r.ytob_map.width == color_tiles(xsize_blocks as int),
            r.ytob_map.height == color_tiles(ysize_blocks as int),
            r.raw_quant_map.width == xsize_blocks && r.raw_quant_map.height == ysize_blocks,
            r.transform_map.width == xsize_blocks && r.transform_map.height == ysize_blocks,
            r.epf_map.width == xsize_blocks && r.epf_map.height == ysize_blocks,
            r.ytox_map.data@.len() == r.ytox_map.width * r.ytox_map.height,
            r.ytob_map.data@.len() == r.ytob_map.width * r.ytob_map.height,
            r.raw_quant_map.data@.len() == xsize_blocks * ysize_blocks,
            r.transform_map.data@.len() == xsize_blocks * ysize_blocks,
            r.epf_map.data@.len() == xsize_blocks * ysize_blocks,
            r.ytox_map.data@ == Seq::new(
                (r.ytox_map.width * r.ytox_map.height) as nat,
                |i: int| 0i8,
            ),
            r.ytob_map.data@ == Seq::new(
                (r.ytob_map.width * r.ytob_map.height) as nat,
                |i: int| 0i8,
            ),
            r.raw_quant_map.data@ == Seq::new((xsize_blocks * ysize_blocks) as nat, |i: int| 0i32),
            r.transform_map.data@ == Seq::new((xsize_blocks * ysize_blocks) as nat, |i: int| 0u8),
            r.epf_map.data@ == Seq::new((xsize_blocks * ysize_blocks) as nat, |i: int| 0u8),
    {
        let tx = xsize_blocks / 8 + if xsize_blocks % 8 == 0 {
            0
        } else {
            1
        };
        let ty = ysize_blocks / 8 + if ysize_blocks % 8 == 0 {
            0
        } else {
            1
        };
        assert(tx * ty <= xsize_blocks * ysize_blocks) by (nonlinear_arith)
            requires
                0 <= tx <= xsize_blocks,
                0 <= ty <= ysize_blocks,
        ;
        HfMetadata {
            ytox_map: Plane::new(tx, ty, 0i8),
            ytob_map: Plane::new(tx, ty, 0i8),
            raw_quant_map: Plane::new(xsize_blocks, ysize_blocks, 0i32),
            transform_map: Plane::new(xsize_blocks, ysize_blocks, 0u8),
            epf_map: Plane::new(xsize_blocks, ysize_blocks, 0u8),
        }
    }
}

/// Number of color channels that a frame codes as modular images: none for
/// VarDCT, else one for grayscale and three for color.
pub fn modular_color_channels(encoding: Encoding, grayscale: bool) -> (r: usize)
    ensures
        r == (if encoding == Encoding::VarDct {
            0int
        } else if grayscale {
            1int
        } else {
            3int
        }),
{
    match encoding {
        Encoding::VarDct => 0,
        Encoding::Modular => if grayscale {
            1
        } else {
            3
        },
    }
}

/// Number of coefficient orders per channel.
pub const NUM_ORDERS: usize = 13;

/// Smallest `k` with `2^k >= n`.
pub open spec fn is_ceil_log2(n: int, k: int) -> bool {
    &&& 0 <= k
    &&& pow2(k as nat) >= n
    &&& (k == 0 || pow2((k - 1) as nat) < n)
}

/// Number of bits needed to tell `n` values apart.
pub fn ceil_log2(n: usize) -> (r: usize)
    ensures
        is_ceil_log2(n as int, r as int),
        r <= 64,
{
    let mut p: u128 = 1;
    let mut k: usize = 0;
    proof {
        lemma2_to64();
    }
    while p < n as u128
        invariant
            p as int == pow2(k as nat),
            k == 0 || pow2((k - 1) as nat) < n,
            k <= 64,
            k < 64 ==> p <= 0x8000_0000_0000_0000,
            p <= 0x1_0000_0000_0000_0000,
        decreases 64 - k,
    {
        proof {
            lemma_pow2_unfold((k + 1) as nat);
            vstd::arithmetic::power2::lemma2_to64_rest();
            if k == 64 {
                assert(p >= n as u128);
            }
            if k + 1 < 63 {
                vstd::arithmetic::power2::lemma_pow2_strictly_increases((k + 1) as nat, 63);
            }
        }
        p = p * 2;
        k = k + 1;
    }
    k
}

/// The coefficient orders that a pass uses, by the two-bit selector that
/// precedes them; selector 3 means that the mask follows as `NUM_ORDERS` bits.
pub open spec fn used_orders_of(selector: int) -> int {
    if selector == 0 {
        0x5f
    } else if selector == 1 {
        0x13
    } else {
        0
    }
}

/// Reads the set of coefficient orders that a pass uses, as a bit mask.
pub fn read_used_orders(br: &mut BitReader) -> (r: Result<u32, Error>)
    requires
        old(br).wf(),
    ensures
        final(br).wf(),
        final(br).data() == old(br).data(),
        ({
            let d = old(br).data();
            let p = old(br).pos();
            let avail = d.len() * 8 - p;
            let sel = bits_value(d, p, 2);
            &&& avail < 2 ==> r == Err::<u32, Error>(Error::OutOfBounds)
            &&& avail >= 2 && sel < 3 ==> r == Ok::<u32, Error>(used_orders_of(sel) as u32)
                && final(br).pos() == p + 2
            &&& avail >= 2 && sel == 3 && avail < 2 + NUM_ORDERS ==> r == Err::<u32, Error>(
                Error::OutOfBounds,
            )
            &&& avail >= 2 + NUM_ORDERS && sel == 3 ==> r == Ok::<u32, Error>(
                bits_value(d, p + 2, NUM_ORDERS as int) as u32,
            ) && final(br).pos() == p + 2 + NUM_ORDERS
        }),
{
    proof {
        lemma_value_bound(br.data(), br.pos(), 2);
        lemma_value_bound(br.data(), br.pos() + 2, NUM_ORDERS as int);
    }
    let sel = br.read(2)?;
    match sel {
        0 => Ok(0x5f),
        1 => Ok(0x13),
        2 => Ok(0),
        _ => {
            let mask = br.read(NUM_ORDERS)?;
            Ok(mask as u32)
        },
    }
}

proof fn lemma_value_bound(data: Seq<u8>, pos: int, n: int)
    requires
        0 <= n <= 32,
    ensures
        0 <= pos && pos + n <= data.len() * 8 ==> 0 <= bits_value(data, pos, n) < pow2(n as nat)
            <= 0x1_0000_0000,
{
    if 0 <= pos && pos + n <= data.len() * 8 {
        crate::bit_reader::lemma_bits_value_range(data, pos, n);
        lemma2_to64();
        if n < 32 {
            vstd::arithmetic::power2::lemma_pow2_strictly_increases(n as nat, 32);
        }
    }
}

/// Reads the number of AC histograms of a VarDCT frame with `num_groups` groups:
/// one more than the value of the next `ceil_log2(num_groups)` bits.
pub fn read_num_histograms(br: &mut BitReader, num_groups: usize) -> (r: Result<u32, Error>)
    requires
        old(br).wf(),
        num_groups <= 0x8000_0000,
    ensures
        final(br).wf(),
        final(br).data() == old(br).data(),
        forall|k: int|
            is_ceil_log2(num_groups as int, k) ==> {
                let d = old(br).data();
                let p = old(br).pos();
                &&& p + k <= d.len() * 8 ==> r == Ok::<u32, Error>(
                    (bits_value(d, p, k) + 1) as u32,
                ) && final(br).pos() == p + k
                &&& p + k > d.len() * 8 ==> r == Err::<u32, Error>(Error::OutOfBounds)
            },
{
    let bits = ceil_log2(num_groups);
    proof {
        assert(bits <= 31) by {
            lemma2_to64();
            if bits > 32 {
                vstd::arithmetic::power2::lemma_pow2_strictly_increases(31, (bits - 1) as nat);
            }
        }
        lemma2_to64();
        if bits < 31 {
            vstd::arithmetic::power2::lemma_pow2_strictly_increases(bits as nat, 31);
        }
        lemma_value_bound(br.data(), br.pos(), bits as int);
        assert forall|k: int| is_ceil_log2(num_groups as int, k) implies k == bits by {
            if k < bits - 1 {
                vstd::arithmetic::power2::lemma_pow2_strictly_increases(k as nat, (bits - 1) as nat);
            } else if bits < k - 1 {
                vstd::arithmetic::power2::lemma_pow2_strictly_increases(bits as nat, (k - 1) as nat);
            }
        }
    }
    let v = br.read(bits)?;
    Ok(v as u32 + 1)
}

/// Reads the start of the HF global section of a VarDCT frame: the flag that
/// selects the default quantization matrices, which must be set, and the number
/// of AC histograms.
pub fn read_hf_global_header(br: &mut BitReader, num_groups: usize) -> (r: Result<u32, Error>)
    requires
        old(br).wf(),
        num_groups <= 0x8000_0000,
    ensures
        final(br).wf(),
        final(br).data() == old(br).data(),
        ({
            let d = old(br).data();
            let p = old(br).pos();
            &&& p + 1 > d.len() * 8 ==> r == Err::<u32, Error>(Error::OutOfBounds)
            &&& p + 1 <= d.len() * 8 && bits_value(d, p, 1) == 0 ==> r == Err::<u32, Error>(
                Error::NotImplemented,
            )
            &&& forall|k: int|
                is_ceil_log2(num_groups as int, k) && p + 1 <= d.len() * 8 && bits_value(d, p, 1)
                    == 1 ==> {
                    &&& p + 1 + k <= d.len() * 8 ==> r == Ok::<u32, Error>(
                        (bits_value(d, p + 1, k) + 1) as u32,
                    ) && final(br).pos() == p + 1 + k
                    &&& p + 1 + k > d.len() * 8 ==> r == Err::<u32, Error>(Error::OutOfBounds)
                }
        }),
{
    proof {
        lemma_value_bound(br.data(), br.pos(), 1);
        lemma2_to64();
    }
    let default_matrices = br.read(1)?;
    if default_matrices == 0 {
        return Err(Error::NotImplemented);
    }
    read_num_histograms(br, num_groups)
}

/// Largest number of nodes of the global modular tree of a frame of
/// `width x height` pixels with `channels` channels.
pub open spec fn tree_size_limit_of(width: int, height: int, channels: int) -> int {
    let v = 1024 + width * height * channels / 16;
    if v < 0x40_0000 {
        v
    } else {
        0x40_0000
    }
}

/// Largest number of nodes of the global modular tree, as [`tree_size_limit_of`].
pub fn tree_size_limit(width: u32, height: u32, channels: usize) -> (r: usize)
    ensures
        r == tree_size_limit_of(width as int, height as int, channels as int),
{
    assert(width as int * height as int <= 0xffff_ffff_ffff_ffff) by (nonlinear_arith)
        requires
            width <= 0xffff_ffff,
            height <= 0xffff_ffff,
    ;
    let area = width as u128 * height as u128;
    assert(area * channels <= 0xffff_ffff_ffff_ffff * 0xffff_ffff_ffff_ffff) by (nonlinear_arith)
        requires
            area <= 0xffff_ffff_ffff_ffff,
            channels <= 0xffff_ffff_ffff_ffff,
    ;
    let v = 1024 + area * channels as u128 / 16;
    if v < 0x40_0000 {
        v as usize
    } else {
        0x40_0000
    }
}

/// Number of slots for frames that later frames may refer to.
pub const MAX_STORED_FRAMES: usize = 4;

/// A frame kept for later frames to refer to: one plane per channel.
pub struct ReferenceFrame<T> {
    pub frame: Vec<Plane<T>>,
    pub saved_before_color_transform: bool,
}

impl<T: Copy> ReferenceFrame<T> {
    /// `rf` has `num_channels` planes of `width x height` samples, all `zero`.
    pub open spec fn is_blank(
        rf: ReferenceFrame<T>,
        width: int,
        height: int,
        num_channels: int,
        saved_before_color_transform: bool,
        zero: T,
    ) -> bool {
        &&& rf.frame@.len() == num_channels
        &&& rf.saved_before_color_transform == saved_before_color_transform
        &&& forall|c: int|
            0 <= c < num_channels ==> (#[trigger] rf.frame@[c]).width == width && rf.frame@[c].height
                == height && rf.frame@[c].data@ == Seq::new((width * height) as nat, |i: int| zero)
    }

    /// A frame of `num_channels` planes of `width x height` samples, all `zero`.
    pub fn blank(
        width: usize,
        height: usize,
        num_channels: usize,
        saved_before_color_transform: bool,
        zero: T,
    ) -> (r: Self)
        requires
            width * height <= usize::MAX,
        ensures
            Self::is_blank(
                r,
                width as int,
                height as int,
                num_channels as int,
                saved_before_color_transform,
                zero,
            ),
    {
        let mut frame: Vec<Plane<T>> = Vec::new();
        let mut c: usize = 0;
        while c < num_channels
            invariant
                c <= num_channels,
                width * height <= usize::MAX,
                frame@.len() == c,
                forall|k: int|
                    0 <= k < c ==> (#[trigger] frame@[k]).width == width && frame@[k].height
                        == height && frame@[k].data@ == Seq::new(
                        (width * height) as nat,
                        |i: int| zero,
                    ),
            decreases num_channels - c,
        {
            frame.push(Plane::new(width, height, zero));
            c = c + 1;
        }
        ReferenceFrame { frame, saved_before_color_transform }
    }
}

/// State carried from frame to frame: the number of extra channels of the image
/// and the slots of frames kept for reference.
pub struct DecoderState<T> {
    num_extra_channels: usize,
    reference_frames: [Option<ReferenceFrame<T>>; 4],
}

impl<T> DecoderState<T> {
    pub closed spec fn extra_channels(&self) -> int {
        self.num_extra_channels as int
    }

    pub closed spec fn slots(&self) -> Seq<Option<ReferenceFrame<T>>> {
        self.reference_frames@
    }

    pub fn new(num_extra_channels: usize) -> (r: Self)
        ensures
            r.extra_channels() == num_extra_channels,
            r.slots().len() == MAX_STORED_FRAMES,
            forall|i: int| 0 <= i < MAX_STORED_FRAMES ==> r.slots()[i] is None,
    {
        DecoderState { num_extra_channels, reference_frames: [None, None, None, None] }
    }

    /// Number of extra channels (beyond the color channels) of the image.
    pub fn num_extra_channels(&self) -> (r: usize)
        ensures
            r == self.extra_channels(),
    {
        self.num_extra_channels
    }

    /// The frame kept in slot `i`, if any.
    pub fn reference_frame(&self, i: usize) -> (r: Option<&ReferenceFrame<T>>)
        requires
            i < MAX_STORED_FRAMES,
        ensures
            self.slots().len() == MAX_STORED_FRAMES,
            r == match self.slots()[i as int] {
                Some(f) => Some(&f),
                None => None::<&ReferenceFrame<T>>,
            },
    {
        match &self.reference_frames[i] {
            Some(f) => Some(f),
            None => None,
        }
    }
}

/// The parts of a frame header that decide what happens once the frame is decoded.
#[derive(Debug, Clone, Copy, PartialEq, Eq, Structural)]
pub struct FrameSummary {
    pub width: usize,
    pub height: usize,
    pub can_be_referenced: bool,
    /// Slot that the frame is kept in when it can be referenced.
    pub save_as_reference: usize,
    pub save_before_ct: bool,
    pub is_last: bool,
}

/// Ends a frame. A frame that can be referenced is kept, as a blank frame of three
/// color planes and one plane per extra channel, in its slot; the other slots stay
/// as they were. Gives the state for the next frame, or `None` after the last one.
pub fn finalize<T: Copy>(state: DecoderState<T>, header: &FrameSummary, zero: T) -> (r: Option<
    DecoderState<T>,
>)
    requires
        header.save_as_reference < MAX_STORED_FRAMES,
        header.width * header.height <= usize::MAX,
        state.extra_channels() + 3 <= usize::MAX,
    ensures
        r is None <==> header.is_last,
        r matches Some(next) ==> {
            &&& next.extra_channels() == state.extra_channels()
            &&& next.slots().len() == MAX_STORED_FRAMES
            &&& forall|i: int|
                0 <= i < MAX_STORED_FRAMES && (i != header.save_as_reference
                    || !header.can_be_referenced) ==> #[trigger] next.slots()[i] == state.slots()[i]
            &&& header.can_be_referenced ==> (next.slots()[header.save_as_reference as int] matches Some(
                f,
            ) && ReferenceFrame::is_blank(
                f,
                header.width as int,
                header.height as int,
                3 + state.extra_channels(),
                header.save_before_ct,
                zero,
            ))
        },
{
    let mut state = state;
    if header.can_be_referenced {
        let frame = ReferenceFrame::blank(
            header.width,
            header.height,
            3 + state.num_extra_channels,
            header.save_before_ct,
            zero,
        );
        state.reference_frames[header.save_as_reference] = Some(frame);
    }
    if header.is_last {
        None
    } else {
        Some(state)
    }
}

} // verus!
