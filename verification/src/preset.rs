//! Saved pictures and their computed rearrangements.

use crate::cost;
use crate::perm;
use vstd::prelude::*;

verus! {

/// The contents of an [`UnprocessedPreset`].
#[verifier::ext_equal]
pub struct PictureModel {
    pub name: Seq<char>,
    pub width: u32,
    pub height: u32,
    pub source_img: Seq<u8>,
}

/// The contents of a [`Preset`].
#[verifier::ext_equal]
pub struct PresetModel {
    pub inner: PictureModel,
    pub assignments: Seq<usize>,
}

/// Raw preset data: the source picture as RGB bytes plus its dimensions.
#[derive(Clone)]
pub struct UnprocessedPreset {
    /// Human-readable preset name.
    pub name: String,
    /// Image width in pixels.
    pub width: u32,
    /// Image height in pixels.
    pub height: u32,
    /// Raw RGB pixel data (3 bytes per pixel, row-major).
    pub source_img: Vec<u8>,
}

/// A saved preset: the source picture plus the permutation that maps source
/// pixels to target positions.
#[derive(Clone)]
pub struct Preset {
    /// The raw source picture and its metadata.
    pub inner: UnprocessedPreset,
    /// Permutation vector: `assignments[dst_idx] = src_idx`.
    pub assignments: Vec<usize>,
}

impl View for UnprocessedPreset {
    type V = PictureModel;

    open spec fn view(&self) -> PictureModel {
        PictureModel {
            name: self.name@,
            width: self.width,
            height: self.height,
            source_img: self.source_img@,
        }
    }
}

impl View for Preset {
    type V = PresetModel;

    open spec fn view(&self) -> PresetModel {
        PresetModel { inner: self.inner@, assignments: self.assignments@ }
    }
}

/// A square picture with all its bytes, and a permutation of its pixels.
pub open spec fn usable(p: PresetModel) -> bool {
    &&& p.inner.width == p.inner.height
    &&& p.inner.source_img.len() == p.inner.width * p.inner.height * 3
    &&& perm::is_perm(p.assignments, (p.inner.width * p.inner.height) as nat)
}

/// Whether stored presets can be used: there is one, and every one is a square
/// picture with all its bytes and a permutation of its pixels.
pub fn validate_presets(presets: &[Preset]) -> (r: bool)
    ensures
        r == (presets@.len() > 0 && forall|i: int|
            0 <= i < presets@.len() ==> usable(#[trigger] presets@[i]@)),
{
    if presets.len() == 0 {
        return false;
    }
    let mut i: usize = 0;
    while i < presets.len()
        invariant
            i <= presets@.len(),
            forall|k: int| 0 <= k < i ==> usable(#[trigger] presets@[k]@),
        decreases presets@.len() - i,
    {
        let p = &presets[i];
        let w: u64 = p.inner.width as u64;
        let h: u64 = p.inner.height as u64;
        proof {
            assert(w * h <= 0xffff_ffff * 0xffff_ffff) by (nonlinear_arith)
                requires
                    0 <= w <= 0xffff_ffff,
                    0 <= h <= 0xffff_ffff,
            ;
            assert(w * h >= 0) by (nonlinear_arith);
        }
        let pixels: u64 = w * h;
        let expected: u128 = pixels as u128 * 3;
        assert(!usable(presets@[i as int]@) || p.inner.source_img@.len() == expected);
        if p.inner.source_img.len() as u128 != expected {
            return false;
        }
        if w != h {
            return false;
        }
        let n: usize = p.inner.source_img.len() / 3;
        let ghost model = presets@[i as int]@;
        assert((model.inner.width * model.inner.height) as nat == n as nat);
        if cost::validate_permutation(&p.assignments, n).is_err() {
            return false;
        }
        i += 1;
    }
    true
}

/// The pieces of a text between its commas.
pub open spec fn pieces(s: Seq<u8>) -> Seq<Seq<u8>>
    decreases s.len(),
{
    if s.len() == 0 {
        seq![Seq::empty()]
    } else {
        let before = pieces(s.drop_last());
        if s.last() == 0x2C {
            before.push(Seq::empty())
        } else {
            before.drop_last().push(before.last().push(s.last()))
        }
    }
}

/// The number that a sequence of decimal digits denotes.
pub open spec fn digits_number(s: Seq<u8>) -> nat
    decreases s.len(),
{
    if s.len() == 0 {
        0
    } else {
        10 * digits_number(s.drop_last()) + (s.last() - 0x30) as nat
    }
}

pub open spec fn only_digits(s: Seq<u8>) -> bool {
    forall|i: int| 0 <= i < s.len() ==> 0x30 <= #[trigger] s[i] <= 0x39
}

/// The index that a piece denotes: decimal digits, perhaps behind a plus sign.
pub open spec fn piece_number(s: Seq<u8>) -> Option<usize> {
    let digits = if s.len() > 0 && s[0] == 0x2B {
        s.skip(1)
    } else {
        s
    };
    if digits.len() > 0 && only_digits(digits) && digits_number(digits) <= usize::MAX {
        Some(digits_number(digits) as usize)
    } else {
        None
    }
}

/// The indices that all pieces denote.
pub open spec fn piece_numbers(p: Seq<Seq<u8>>) -> Option<Seq<usize>>
    decreases p.len(),
{
    if p.len() == 0 {
        Some(Seq::empty())
    } else {
        match (piece_numbers(p.drop_last()), piece_number(p.last())) {
            (Some(v), Some(x)) => Some(v.push(x)),
            _ => None,
        }
    }
}

/// The list of indices that a text denotes: square brackets around indices with
/// commas between them, and nothing else.
pub open spec fn listed_assignments(text: Seq<u8>) -> Option<Seq<usize>> {
    if text.len() >= 2 && text[0] == 0x5B && text.last() == 0x5D {
        piece_numbers(pieces(text.subrange(1, text.len() - 1)))
    } else {
        None
    }
}

proof fn lemma_number_grows(s: Seq<u8>, k: int)
    requires
        0 <= k <= s.len(),
        only_digits(s),
    ensures
        digits_number(s.take(k)) <= digits_number(s),
    decreases s.len() - k,
{
    if k < s.len() {
        lemma_number_grows(s, k + 1);
        assert(s.take(k + 1).drop_last() =~= s.take(k));
        assert(0x30 <= s[k] <= 0x39);
    } else {
        assert(s.take(k) =~= s);
    }
}

/// The index that the bytes from `start` up to `end` denote.
fn parse_piece(text: &[u8], start: usize, end: usize) -> (r: Option<usize>)
    requires
        start <= end <= text@.len(),
    ensures
        r == piece_number(text@.subrange(start as int, end as int)),
{
    let ghost s = text@.subrange(start as int, end as int);
    let first: usize = if start < end && text[start] == 0x2B {
        start + 1
    } else {
        start
    };
    let ghost digits = text@.subrange(first as int, end as int);
    proof {
        if first > start {
            assert(s.skip(1) =~= digits);
            assert(s[0] == text@[start as int]);
        } else {
            assert(s =~= digits);
            if s.len() > 0 {
                assert(s[0] == text@[start as int]);
            }
        }
        assert(digits.take(0) =~= Seq::empty());
    }
    if first == end {
        return None;
    }
    let mut value: usize = 0;
    let mut i: usize = first;
    while i < end
        invariant
            first <= i <= end,
            first < end <= text@.len(),
            s == text@.subrange(start as int, end as int),
            digits == text@.subrange(first as int, end as int),
            value == digits_number(digits.take(i - first)),
            forall|k: int| 0 <= k < i - first ==> 0x30 <= #[trigger] digits[k] <= 0x39,
            piece_number(s) == if digits.len() > 0 && only_digits(digits) && digits_number(digits)
                <= usize::MAX {
                Some(digits_number(digits) as usize)
            } else {
                None
            },
        decreases end - i,
    {
        let c: u8 = text[i];
        assert(digits[i - first] == c);
        if c < 0x30 || c > 0x39 {
            return None;
        }
        let next: u128 = value as u128 * 10 + (c - 0x30) as u128;
        proof {
            assert(digits.take(i - first + 1).drop_last() =~= digits.take(i - first));
            assert(next == digits_number(digits.take(i - first + 1)));
        }
        if next > usize::MAX as u128 {
            proof {
                if only_digits(digits) {
                    lemma_number_grows(digits, i - first + 1);
                }
            }
            return None;
        }
        value = next as usize;
        i += 1;
    }
    proof {
        assert(digits.take(end - first) =~= digits);
    }
    Some(value)
}

/// Reads a list of indices: `[3,0,2,1]`.
pub fn parse_assignments(text: &[u8]) -> (r: Option<Vec<usize>>)
    ensures
        match r {
            Some(v) => listed_assignments(text@) == Some(v@),
            None => listed_assignments(text@) is None,
        },
{
    let len: usize = text.len();
    if len < 2 || text[0] != 0x5B || text[len - 1] != 0x5D {
        return None;
    }
    let ghost body = text@.subrange(1, len - 1);
    let ghost mut done: Seq<Seq<u8>> = Seq::empty();
    let mut out: Vec<usize> = Vec::new();
    let mut ok = true;
    let mut start: usize = 1;
    let mut i: usize = 1;
    proof {
        assert(body.take(0) =~= Seq::empty());
        assert(text@.subrange(1, 1) =~= Seq::empty());
        assert(pieces(body.take(0)) =~= done.push(Seq::empty()));
    }
    while i < len - 1
        invariant
            1 <= start <= i <= len - 1,
            len == text@.len(),
            body == text@.subrange(1, len - 1),
            pieces(body.take(i - 1)) == done.push(text@.subrange(start as int, i as int)),
            match piece_numbers(done) {
                Some(v) => ok && out@ == v,
                None => !ok,
            },
        decreases len - i,
    {
        let ghost current = text@.subrange(start as int, i as int);
        proof {
            assert(body.take(i as int).drop_last() =~= body.take(i - 1));
            assert(body.take(i as int).last() == text@[i as int]);
        }
        if text[i] == 0x2C {
            match parse_piece(text, start, i) {
                Some(x) => {
                    out.push(x);
                },
                None => {
                    ok = false;
                },
            }
            proof {
                assert(done.push(current).drop_last() =~= done);
                done = done.push(current);
                assert(text@.subrange(i + 1, i + 1) =~= Seq::empty());
            }
            start = i + 1;
        } else {
            proof {
                assert(done.push(current).drop_last() =~= done);
                assert(text@.subrange(start as int, i + 1) =~= current.push(text@[i as int]));
            }
        }
        i += 1;
    }
    proof {
        let last = text@.subrange(start as int, i as int);
        assert(body.take(len - 2) =~= body);
        assert(done.push(last).drop_last() =~= done);
    }
    match parse_piece(text, start, len - 1) {
        Some(x) => {
            out.push(x);
        },
        None => {
            ok = false;
        },
    }
    if ok {
        Some(out)
    } else {
        None
    }
}

/// The decimal digits of a number.
pub open spec fn digits_of(n: nat) -> Seq<u8>
    decreases n,
{
    if n < 10 {
        seq![(0x30 + n) as u8]
    } else {
        digits_of(n / 10).push((0x30 + n % 10) as u8)
    }
}

/// The digits of the numbers of a list that is not empty, with commas between them.
pub open spec fn joined(a: Seq<usize>) -> Seq<u8>
    decreases a.len(),
{
    if a.len() <= 1 {
        digits_of(a[0] as nat)
    } else {
        joined(a.drop_last()).push(0x2C) + digits_of(a.last() as nat)
    }
}

proof fn lemma_digits_of(n: nat)
    ensures
        digits_of(n).len() > 0,
        only_digits(digits_of(n)),
        digits_number(digits_of(n)) == n,
    decreases n,
{
    let d = digits_of(n);
    if n < 10 {
        assert(d.drop_last() =~= Seq::empty());
        assert(digits_number(d.drop_last()) == 0);
    } else {
        lemma_digits_of(n / 10);
        assert(d.drop_last() =~= digits_of(n / 10));
    }
}

proof fn lemma_one_piece(t: Seq<u8>)
    requires
        only_digits(t),
    ensures
        pieces(t) == seq![t],
    decreases t.len(),
{
    if t.len() > 0 {
        lemma_one_piece(t.drop_last());
        assert(0x30 <= t[t.len() - 1] <= 0x39);
        assert(t.drop_last().push(t.last()) =~= t);
        let before = pieces(t.drop_last());
        assert(before.last() == t.drop_last());
        assert(pieces(t) =~= seq![t]);
    } else {
        assert(t =~= Seq::empty());
        assert(pieces(t) =~= seq![t]);
    }
}

proof fn lemma_one_more_piece(s: Seq<u8>, t: Seq<u8>)
    requires
        only_digits(t),
    ensures
        pieces(s.push(0x2C) + t) == pieces(s).push(t),
    decreases t.len(),
{
    let all = s.push(0x2C) + t;
    if t.len() == 0 {
        assert(all =~= s.push(0x2C));
        assert(all.drop_last() =~= s);
        assert(t =~= Seq::empty());
    } else {
        lemma_one_more_piece(s, t.drop_last());
        assert(all.drop_last() =~= s.push(0x2C) + t.drop_last());
        assert(all.last() == t.last());
        assert(0x30 <= t[t.len() - 1] <= 0x39);
        let before = pieces(all.drop_last());
        assert(before.drop_last() =~= pieces(s));
        assert(t.drop_last().push(t.last()) =~= t);
    }
}

proof fn lemma_joined(a: Seq<usize>)
    requires
        a.len() > 0,
    ensures
        piece_numbers(pieces(joined(a))) == Some(a),
    decreases a.len(),
{
    let d = digits_of(a.last() as nat);
    lemma_digits_of(a.last() as nat);
    assert(0x30 <= d[0] <= 0x39);
    assert(piece_number(d) == Some(a.last()));
    if a.len() == 1 {
        lemma_one_piece(d);
        let p = seq![d];
        assert(p.drop_last() =~= Seq::empty());
        assert(piece_numbers(p.drop_last()) == Some(Seq::<usize>::empty()));
        assert(Seq::<usize>::empty().push(a.last()) =~= a);
    } else {
        let b = joined(a.drop_last());
        lemma_joined(a.drop_last());
        lemma_one_more_piece(b, d);
        let p = pieces(b).push(d);
        assert(p.drop_last() =~= pieces(b));
        assert(a.drop_last().push(a.last()) =~= a);
    }
}

/// A list of indices that was written down, in decimal digits with commas between them
/// and square brackets around them, is read back.
pub proof fn lemma_listing_is_read_back(a: Seq<usize>)
    requires
        a.len() > 0,
    ensures
        listed_assignments(seq![0x5Bu8] + joined(a) + seq![0x5Du8]) == Some(a),
{
    let text = seq![0x5Bu8] + joined(a) + seq![0x5Du8];
    lemma_joined(a);
    assert(text.subrange(1, text.len() - 1) =~= joined(a));
}

} // verus!
