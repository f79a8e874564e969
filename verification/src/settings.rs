//! The configuration of a run, and the pictures that it resolves to.

use crate::catalog::Algorithm;
use crate::images;
use crate::images::{Crop, Picture, PictureData};
use crate::text;
use vstd::prelude::*;
use vstd::string::*;

verus! {

/// Side of a run by default.
pub const DEFAULT_SIDELEN: u32 = 128;

/// Proximity importance by default.
pub const DEFAULT_PROXIMITY: i64 = 13;

/// Weight of every pixel of a custom target.
pub const UNIFORM_WEIGHT: i64 = 255;

/// The encoded pictures that ship with the program: the default target, and
/// its weights in the red channel of a second picture.
pub struct Assets {
    pub target: Vec<u8>,
    pub weights: Vec<u8>,
}

/// Full configuration of a single run.
pub struct GenerationSettings {
    /// Unique identifier.
    pub id: u128,
    pub name: String,
    pub proximity_importance: i64,
    pub algorithm: Algorithm,
    pub sidelen: u32,
    /// The picture to resemble in place of the default target.
    pub custom_target: Option<Picture>,
    pub target_crop: Crop,
    /// The crop of the default target's weights.
    pub weights_crop: Crop,
    pub source_crop: Crop,
}

/// Position of the last `" v"` before position `end`.
pub open spec fn version_mark(name: Seq<char>, end: int) -> Option<int>
    decreases end,
{
    if end <= 0 {
        None
    } else if end < name.len() && name[end - 1] == ' ' && name[end] == 'v' {
        Some(end - 1)
    } else {
        version_mark(name, end - 1)
    }
}

pub open spec fn is_digit(c: char) -> bool {
    '0' <= c <= '9'
}

/// The number that a sequence of decimal digits denotes.
pub open spec fn digits_value(s: Seq<char>) -> nat
    decreases s.len(),
{
    if s.len() == 0 {
        0
    } else {
        10 * digits_value(s.drop_last()) + (s.last() as nat - '0' as nat) as nat
    }
}

/// A text without its plus sign.
pub open spec fn unsigned_part(s: Seq<char>) -> Seq<char> {
    if s.len() > 0 && s[0] == '+' {
        s.skip(1)
    } else {
        s
    }
}

pub open spec fn all_digits(s: Seq<char>) -> bool {
    forall|i: int| 0 <= i < s.len() ==> is_digit(#[trigger] s[i])
}

/// The `u32` that a text denotes: decimal digits, perhaps behind a plus sign.
pub open spec fn parsed_u32(s: Seq<char>) -> Option<nat> {
    let digits = unsigned_part(s);
    if digits.len() > 0 && all_digits(digits) && digits_value(digits) <= u32::MAX {
        Some(digits_value(digits))
    } else {
        None
    }
}

/// The version that a name ends in.
pub open spec fn version_of(name: Seq<char>) -> Option<nat> {
    match version_mark(name, name.len() as int) {
        Some(p) => parsed_u32(name.skip(p + 2)),
        None => None,
    }
}

/// The name of the next version: its version number incremented, or `" v2"`
/// appended if it has none.
pub open spec fn next_name(name: Seq<char>) -> Seq<char> {
    match version_of(name) {
        Some(v) => name.take(version_mark(name, name.len() as int).unwrap()) + " v"@
            + text::decimal(v + 1),
        None => name + " v2"@,
    }
}

proof fn lemma_digits_prefix(s: Seq<char>, k: int)
    requires
        0 <= k < s.len(),
    ensures
        digits_value(s.take(k + 1)) == 10 * digits_value(s.take(k)) + (s[k] as nat - '0' as nat) as nat,
{
    assert(s.take(k + 1).drop_last() =~= s.take(k));
}

/// Appending digits never lowers the number.
proof fn lemma_digits_grow(s: Seq<char>, k: int, l: int)
    requires
        0 <= k <= l <= s.len(),
        forall|i: int| 0 <= i < l ==> is_digit(#[trigger] s[i]),
    ensures
        digits_value(s.take(k)) <= digits_value(s.take(l)),
    decreases l - k,
{
    if k < l {
        lemma_digits_grow(s, k, l - 1);
        lemma_digits_prefix(s, l - 1);
        assert(is_digit(s[l - 1]));
    }
}

/// The value of a digit.
fn digit_value(c: char) -> (r: Option<u64>)
    ensures
        r is Some <==> is_digit(c),
        r matches Some(d) ==> d == c as nat - '0' as nat && d < 10,
{
    if c >= '0' && c <= '9' {
        Some(c as u64 - '0' as u64)
    } else {
        None
    }
}

/// Parses a `u32`.
fn parse_u32(s: &str) -> (r: Option<u32>)
    ensures
        match r {
            Some(v) => parsed_u32(s@) == Some(v as nat),
            None => parsed_u32(s@) is None,
        },
{
    let n: usize = s.unicode_len();
    let start: usize = if n > 0 && s.get_char(0) == '+' {
        1
    } else {
        0
    };
    let ghost digits = unsigned_part(s@);
    proof {
        assert(digits =~= s@.skip(start as int));
    }
    if start == n {
        return None;
    }
    let mut value: u64 = 0;
    let mut i: usize = start;
    proof {
        assert(digits.take(0) =~= Seq::empty());
    }
    while i < n
        invariant
            start <= i <= n,
            start < n,
            n == s@.len(),
            digits == s@.skip(start as int),
            digits == unsigned_part(s@),
            value == digits_value(digits.take(i - start)),
            value <= u32::MAX,
            forall|k: int| 0 <= k < i - start ==> is_digit(#[trigger] digits[k]),
        decreases n - i,
    {
        assert(s@[i as int] == digits[i - start]);
        match digit_value(s.get_char(i)) {
            None => {
                return None;
            },
            Some(d) => {
                proof {
                    lemma_digits_prefix(digits, i - start);
                }
                value = value * 10 + d;
                i += 1;
                if value > u32::MAX as u64 {
                    proof {
                        if parsed_u32(s@) is Some {
                            lemma_digits_grow(digits, i - start, digits.len() as int);
                            assert(digits.take(digits.len() as int) =~= digits);
                        }
                    }
                    return None;
                }
            },
        }
    }
    proof {
        assert(digits.take(n - start) =~= digits);
    }
    Some(value as u32)
}

/// The name of the next version.
pub fn increment_name(name: &String) -> (r: String)
    requires
        version_of(name@) != Some(u32::MAX as nat),
    ensures
        r@ == next_name(name@),
{
    let s: &str = name.as_str();
    let n: usize = s.unicode_len();
    let ghost chars = name@;
    let mut end: usize = n;
    while end > 0
        invariant
            end <= n,
            n == chars.len(),
            s@ == chars,
            chars == name@,
            version_of(chars) != Some(u32::MAX as nat),
            version_mark(chars, end as int) == version_mark(chars, n as int),
        decreases end,
    {
        if end < n && s.get_char(end - 1) == ' ' && s.get_char(end) == 'v' {
            let p: usize = end - 1;
            let tail: &str = s.substring_char(p + 2, n);
            proof {
                assert(tail@ =~= chars.skip(p + 2));
            }
            match parse_u32(tail) {
                Some(v) => {
                    let mut out = s.substring_char(0, p).to_string();
                    out.append(" v");
                    text::append_decimal(&mut out, v as u64 + 1);
                    proof {
                        assert(chars.subrange(0, p as int) =~= chars.take(p as int));
                    }
                    return out;
                },
                None => {
                    let mut out = name.clone();
                    out.append(" v2");
                    return out;
                },
            }
        }
        end -= 1;
    }
    let mut out = name.clone();
    out.append(" v2");
    out
}

/// A decimal numeral denotes its number.
pub proof fn lemma_decimal_digits(n: nat)
    ensures
        text::decimal(n).len() > 0,
        all_digits(text::decimal(n)),
        digits_value(text::decimal(n)) == n,
    decreases n,
{
    let s = text::decimal(n);
    assert(s.last() as nat - '0' as nat == n % 10);
    if n < 10 {
        assert(s.drop_last() =~= Seq::empty());
        assert(digits_value(s.drop_last()) == 0);
    } else {
        lemma_decimal_digits(n / 10);
        let before = text::decimal(n / 10);
        assert(s.drop_last() =~= before);
        assert forall|i: int| 0 <= i < s.len() implies is_digit(#[trigger] s[i]) by {
            if i < before.len() {
                assert(s[i] == before[i]);
            }
        }
    }
}

proof fn lemma_last_mark(base: Seq<char>, number: Seq<char>, end: int)
    requires
        all_digits(number),
        base.len() < end <= base.len() + 2 + number.len(),
    ensures
        version_mark(base + " v"@ + number, end) == Some(base.len() as int),
    decreases end,
{
    reveal_strlit(" v");
    let name = base + " v"@ + number;
    if end > base.len() + 1 {
        lemma_last_mark(base, number, end - 1);
        if end - 1 >= base.len() + 2 {
            assert(name[end - 1] == number[end - 1 - base.len() - 2]);
        }
    }
}

/// A name that is versioned denotes that version.
pub proof fn lemma_version_of_versioned(base: Seq<char>, version: nat)
    requires
        version <= u32::MAX,
    ensures
        version_of(base + " v"@ + text::decimal(version)) == Some(version),
{
    reveal_strlit(" v");
    let number = text::decimal(version);
    let name = base + " v"@ + number;
    lemma_decimal_digits(version);
    lemma_last_mark(base, number, name.len() as int);
    assert(name.skip(base.len() as int + 2) =~= number);
    assert(is_digit(number[0]));
}

/// The next name has the next version, or version two where there was none.
pub proof fn lemma_next_version(name: Seq<char>)
    requires
        version_of(name) matches Some(v) ==> v < u32::MAX,
    ensures
        version_of(next_name(name)) == match version_of(name) {
            Some(v) => Some(v + 1),
            None => Some(2nat),
        },
{
    match version_of(name) {
        Some(v) => {
            let base = name.take(version_mark(name, name.len() as int).unwrap());
            lemma_version_of_versioned(base, v + 1);
        },
        None => {
            lemma_version_of_versioned(name, 2);
            reveal_strlit(" v");
            reveal_strlit(" v2");
            assert(" v2"@ =~= " v"@ + text::decimal(2));
            assert(name + " v"@ + text::decimal(2) =~= name + " v2"@);
        },
    }
}

/// The next version of a versioned name is the same name with the next number; that of
/// a name without a version is the name with version two.
pub proof fn lemma_next_name_counts_on(base: Seq<char>, version: nat)
    requires
        version < u32::MAX,
    ensures
        next_name(base + " v"@ + text::decimal(version)) == base + " v"@ + text::decimal(
            version + 1,
        ),
        version_of(base) is None ==> next_name(base) == base + " v"@ + text::decimal(2),
{
    reveal_strlit(" v");
    reveal_strlit(" v2");
    let number = text::decimal(version);
    let name = base + " v"@ + number;
    lemma_version_of_versioned(base, version);
    lemma_decimal_digits(version);
    lemma_last_mark(base, number, name.len() as int);
    assert(name.take(base.len() as int) =~= base);
    assert(" v2"@ =~= " v"@ + text::decimal(2));
    assert(base + " v"@ + text::decimal(2) =~= base + " v2"@);
}

/// The identifier is marked as a random one: version 4, in the variant of RFC 9562.
pub open spec fn is_random_id(id: u128) -> bool {
    &&& id / 0x1000_0000_0000_0000_0000 % 16 == 4
    &&& id / 0x4000_0000_0000_0000 % 4 == 2
}

/// `uuid::Uuid::new_v4`: a fresh random identifier. Claimed: its version and its
/// variant are those of a random identifier. Nothing is stated of the other bits.
#[verifier::external_body]
fn fresh_id() -> (r: u128)
    ensures
        is_random_id(r),
{
    uuid::Uuid::new_v4().as_u128()
}

/// The target picture of a run before cropping.
pub open spec fn raw_target(custom: Option<PictureData>, assets_target: Seq<u8>) -> Option<
    PictureData,
> {
    match custom {
        Some(p) => Some(p),
        None => images::decoded_picture(assets_target),
    }
}

impl GenerationSettings {
    pub open spec fn custom(&self) -> Option<PictureData> {
        match self.custom_target {
            Some(p) => Some(p@),
            None => None,
        }
    }

    /// The custom target, if any, has all its bytes.
    pub open spec fn target_complete(&self) -> bool {
        self.custom_target matches Some(p) ==> p@.complete()
    }

    /// Default settings with the given identifier and name.
    pub fn default(id: u128, name: String) -> (r: Self)
        ensures
            r.id == id,
            r.name == name,
            r.proximity_importance == DEFAULT_PROXIMITY,
            r.algorithm == Algorithm::Multiscale,
            r.sidelen == DEFAULT_SIDELEN,
            r.sidelen == 128 && r.proximity_importance == 13,
            r.custom_target is None,
            r.target_crop == Crop::Identity,
            r.weights_crop == Crop::Identity,
            r.source_crop == Crop::Identity,
    {
        GenerationSettings {
            id,
            name,
            proximity_importance: DEFAULT_PROXIMITY,
            algorithm: Algorithm::Multiscale,
            sidelen: DEFAULT_SIDELEN,
            custom_target: None,
            target_crop: Crop::identity(),
            weights_crop: Crop::identity(),
            source_crop: Crop::identity(),
        }
    }

    /// The target picture before cropping: the custom one, else the default
    /// one; `None` if the default one cannot be decoded.
    pub fn get_raw_target(&self, assets: &Assets) -> (r: Option<Picture>)
        requires
            self.target_complete(),
        ensures
            match r {
                Some(p) => raw_target(self.custom(), assets.target@) == Some(p@) && p@.complete(),
                None => raw_target(self.custom(), assets.target@) is None,
            },
    {
        match &self.custom_target {
            Some(p) => {
                Some(Picture { width: p.width, height: p.height, data: crate::slices::copied(&p.data) })
            },
            None => images::decode_picture(&assets.target),
        }
    }

    /// Makes `img` the target.
    pub fn set_raw_target(&mut self, img: Picture)
        ensures
            final(self).custom_target == Some(img),
            final(self).id == old(self).id,
            final(self).name == old(self).name,
            final(self).proximity_importance == old(self).proximity_importance,
            final(self).algorithm == old(self).algorithm,
            final(self).sidelen == old(self).sidelen,
            final(self).target_crop == old(self).target_crop,
            final(self).weights_crop == old(self).weights_crop,
            final(self).source_crop == old(self).source_crop,
    {
        self.custom_target = Some(img);
    }

    /// Resolves the target picture and the weight of each of its pixels:
    /// uniform for a custom target, else from the red channel of the weights
    /// picture. An error if a default picture cannot be decoded, or does not
    /// contain its crop.
    pub fn get_target(&self, assets: &Assets) -> (r: Result<(Picture, Vec<i64>), String>)
        requires
            self.target_complete(),
            self.sidelen <= 65535,
        ensures
            match r {
                Ok((target, weights)) => self.target_error(assets) is None && self.resolves_to(
                    assets,
                    target@,
                    weights@,
                ),
                Err(e) => self.target_error(assets) == Some(e@),
            },
    {
        let raw = match self.get_raw_target(assets) {
            Some(p) => p,
            None => {
                return Err("embedded picture cannot be decoded".to_string());
            },
        };
        if !self.target_crop.fits(raw.width, raw.height) {
            return Err("crop lies outside the picture".to_string());
        }
        let target = self.target_crop.apply(&raw, self.sidelen);
        match self.custom_target {
            Some(_) => {
                let weights = uniform_weights(self.sidelen);
                Ok((target, weights))
            },
            None => {
                let picture = match images::decode_picture(&assets.weights) {
                    Some(p) => p,
                    None => {
                        return Err("embedded picture cannot be decoded".to_string());
                    },
                };
                if !self.weights_crop.fits(picture.width, picture.height) {
                    return Err("crop lies outside the picture".to_string());
                }
                let shown = self.weights_crop.apply(&picture, self.sidelen);
                let weights = images::load_weights(&shown);
                proof {
                    assert(images::shows(
                        self.weights_crop,
                        picture@,
                        self.sidelen,
                        shown@,
                    ) && weights@ == shown@.reds());
                }
                Ok((target, weights))
            },
        }
    }

    /// Why the target cannot be resolved, if it cannot.
    pub open spec fn target_error(&self, assets: &Assets) -> Option<Seq<char>> {
        match raw_target(self.custom(), assets.target@) {
            None => Some("embedded picture cannot be decoded"@),
            Some(p) => if !images::crop_fits(self.target_crop, p.width, p.height) {
                Some("crop lies outside the picture"@)
            } else if self.custom_target is Some {
                None
            } else {
                match images::decoded_picture(assets.weights@) {
                    None => Some("embedded picture cannot be decoded"@),
                    Some(w) => if !images::crop_fits(self.weights_crop, w.width, w.height) {
                        Some("crop lies outside the picture"@)
                    } else {
                        None
                    },
                }
            },
        }
    }

    /// What resolving gives: the shown part of the target, and its weights.
    pub open spec fn resolves_to(
        &self,
        assets: &Assets,
        target: PictureData,
        weights: Seq<i64>,
    ) -> bool {
        &&& raw_target(self.custom(), assets.target@) matches Some(p) && images::shows(
            self.target_crop,
            p,
            self.sidelen,
            target,
        )
        &&& target.complete()
        &&& if self.custom_target is Some {
            weights == Seq::new((self.sidelen * self.sidelen) as nat, |i: int| UNIFORM_WEIGHT)
        } else {
            exists|shown: PictureData|
                {
                    &&& images::shows(
                        self.weights_crop,
                        images::decoded_picture(assets.weights@).unwrap(),
                        self.sidelen,
                        shown,
                    )
                    &&& weights == #[trigger] shown.reds()
                }
        }
    }

    /// A copy with another identifier and the name of the next version.
    pub fn clone_with_id(&self, id: u128) -> (r: Self)
        requires
            version_of(self.name@) != Some(u32::MAX as nat),
        ensures
            r.id == id,
            r.name@ == next_name(self.name@),
            r.proximity_importance == self.proximity_importance,
            r.algorithm == self.algorithm,
            r.sidelen == self.sidelen,
            r.custom() == self.custom(),
            r.target_crop == self.target_crop,
            r.weights_crop == self.weights_crop,
            r.source_crop == self.source_crop,
    {
        let custom_target = match &self.custom_target {
            Some(p) => Some(
                Picture { width: p.width, height: p.height, data: crate::slices::copied(&p.data) },
            ),
            None => None,
        };
        GenerationSettings {
            id,
            name: increment_name(&self.name),
            proximity_importance: self.proximity_importance,
            algorithm: self.algorithm,
            sidelen: self.sidelen,
            custom_target,
            target_crop: self.target_crop,
            weights_crop: self.weights_crop,
            source_crop: self.source_crop,
        }
    }

    /// A copy with a fresh identifier and the name of the next version.
    pub fn clone_with_new_id(&self) -> (r: Self)
        requires
            version_of(self.name@) != Some(u32::MAX as nat),
        ensures
            is_random_id(r.id),
            r.name@ == next_name(self.name@),
            r.proximity_importance == self.proximity_importance,
            r.algorithm == self.algorithm,
            r.sidelen == self.sidelen,
            r.custom() == self.custom(),
            r.target_crop == self.target_crop,
            r.weights_crop == self.weights_crop,
            r.source_crop == self.source_crop,
    {
        self.clone_with_id(fresh_id())
    }
}

fn uniform_weights(sidelen: u32) -> (r: Vec<i64>)
    requires
        sidelen <= 65535,
    ensures
        r@ == Seq::new((sidelen * sidelen) as nat, |i: int| UNIFORM_WEIGHT),
{
    proof {
        assert(0 <= sidelen * sidelen <= 65535 * 65535) by (nonlinear_arith)
            requires
                0 <= sidelen <= 65535,
        ;
    }
    let r: Vec<i64> = vec![UNIFORM_WEIGHT; (sidelen * sidelen) as usize];
    assert(r@ =~= Seq::new((sidelen * sidelen) as nat, |i: int| UNIFORM_WEIGHT));
    r
}

} // verus!
