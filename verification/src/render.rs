//! What is to be drawn: the passes of the jump flooding, and the layout of the
//! textures that hold the seeds.

use vstd::arithmetic::power2::*;
use vstd::prelude::*;

verus! {

/// Top-level mode: image transformation or free drawing.
#[derive(Clone, Copy, PartialEq, Eq, Structural, Debug)]
pub enum GuiMode {
    Transform,
    Draw,
}

/// Width of the textures that hold one texel for each seed.
pub const TEX_WIDTH: u32 = 1024;

/// Rows of a texture that holds `seeds` texels.
pub fn texture_rows(seeds: u32) -> (r: u32)
    ensures
        TEX_WIDTH * r >= seeds,
        r == 0 || TEX_WIDTH * (r - 1) < seeds,
        1024 * r >= seeds,
        r == 0 || 1024 * (r - 1) < seeds,
{
    if seeds % TEX_WIDTH == 0 {
        seeds / TEX_WIDTH
    } else {
        seeds / TEX_WIDTH + 1
    }
}

/// One pass of the jump flooding between two textures.
#[derive(Clone, Copy, PartialEq, Eq, Structural, Debug)]
pub struct FloodPass {
    /// Distance of the jumps.
    pub step: u32,
    /// From the first texture to the second, not back.
    pub into_second: bool,
    /// The texture that is written is cleared before.
    pub clear: bool,
}

/// The least number of doublings of one that reach `size`.
pub open spec fn is_pass_count(k: nat, size: int) -> bool {
    &&& size <= pow2(k)
    &&& k > 0 ==> pow2((k - 1) as nat) < size
}

/// Pass `i` of `k`: the jumps halve from pass to pass, down to one, and the passes
/// go forth and back.
pub open spec fn flood_pass(k: nat, i: int) -> FloodPass {
    FloodPass {
        step: pow2((k - 1 - i) as nat) as u32,
        into_second: i % 2 == 0,
        clear: i == 0,
    }
}

/// The passes that flood a picture of the given size.
pub fn flood_passes(width: u32, height: u32) -> (r: Vec<FloodPass>)
    requires
        width <= 0x8000_0000,
        height <= 0x8000_0000,
    ensures
        is_pass_count(r@.len(), if width > height {
            width as int
        } else {
            height as int
        }),
        r@ == Seq::new(r@.len(), |i: int| flood_pass(r@.len(), i)),
{
    let size: u32 = if width > height {
        width
    } else {
        height
    };
    let mut step: u64 = 1;
    let mut k: usize = 0;
    proof {
        lemma2_to64();
    }
    while step < size as u64
        invariant
            size <= 0x8000_0000,
            k <= 31,
            step == pow2(k as nat),
            k > 0 ==> pow2((k - 1) as nat) < size,
            pow2(31) == 0x8000_0000,
        decreases 31 - k,
    {
        proof {
            if k >= 31 {
                assert(false);
            }
            lemma_pow2_unfold((k + 1) as nat);
            if k + 1 < 31 {
                lemma_pow2_strictly_increases((k + 1) as nat, 31);
            }
        }
        step = step * 2;
        k += 1;
    }
    let count: usize = k;
    let mut passes: Vec<FloodPass> = Vec::with_capacity(count);
    let mut into_second = true;
    let mut i: usize = 0;
    while i < count
        invariant
            i <= count,
            count <= 31,
            step == pow2((count - i) as nat),
            into_second == (i % 2 == 0),
            passes@.len() == i,
            pow2(31) == 0x8000_0000,
            forall|j: int| 0 <= j < i ==> #[trigger] passes@[j] == flood_pass(count as nat, j),
        decreases count - i,
    {
        proof {
            lemma_pow2_unfold((count - i) as nat);
            lemma_pow2_strictly_increases((count - i - 1) as nat, 31);
        }
        step = step / 2;
        passes.push(FloodPass { step: step as u32, into_second, clear: i == 0 });
        into_second = !into_second;
        i += 1;
    }
    assert(passes@ =~= Seq::new(passes@.len(), |i: int| flood_pass(passes@.len(), i)));
    passes
}

/// Whether the second texture holds the result of the passes.
pub fn ends_in_second(passes: &[FloodPass]) -> (r: bool)
    ensures
        r == (passes@.len() > 0 && passes@.len() % 2 == 1),
{
    passes.len() % 2 == 1
}

/// The texture that the last pass writes holds the result.
pub proof fn lemma_last_pass(k: nat)
    requires
        k > 0,
    ensures
        flood_pass(k, k - 1).into_second == (k % 2 == 1),
        flood_pass(k, k - 1).step == 1,
{
    lemma2_to64();
}

/// From pass to pass the jumps halve, and the textures change places; only the first
/// pass clears. The first jump falls short of the size, and twice as much reaches it.
pub proof fn lemma_passes_halve(k: nat, size: int, i: int)
    requires
        0 < k <= 31,
        is_pass_count(k, size),
        0 <= i < k - 1,
    ensures
        flood_pass(k, i).step == 2 * flood_pass(k, i + 1).step,
        flood_pass(k, i).into_second != flood_pass(k, i + 1).into_second,
        flood_pass(k, 0).into_second && flood_pass(k, 0).clear && !flood_pass(k, i + 1).clear,
        flood_pass(k, 0).step < size <= 2 * flood_pass(k, 0).step,
{
    lemma2_to64();
    lemma_pow2_unfold((k - 1 - i) as nat);
    lemma_pow2_unfold(k);
    if k - 1 < 31 {
        lemma_pow2_strictly_increases((k - 1) as nat, 31);
    }
    if i > 0 {
        lemma_pow2_strictly_increases((k - 1 - i) as nat, (k - 1) as nat);
    }
}

} // verus!
