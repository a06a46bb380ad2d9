//! QCCZ image validation, on integers alone.
//!
//! Layout (little-endian): magic `"QCCZ"` u32, format version u32, puller
//! serial u64, charge-parameters hash u64, map fingerprint u64, the map
//! (`TABLE_LEN` bytes), then a CRC32 over every byte before it.
use vstd::prelude::*;

use crate::{cell_index, decode_action, declines_monotone, tiers_valid, PullMap};

verus! {

/// `"QCCZ"` read as a little-endian `u32`.
pub const MAGIC: u32 = 0x5A43_4351;

pub const VERSION: u32 = 1;

/// One action index per (length, gradient, damage) cell.
pub const TABLE_LEN: usize = crate::LEN_BANDS * crate::GRAD_BANDS * crate::DMG_BANDS;

pub const HEADER_LEN: usize = 32;

pub const IMAGE_LEN: usize = HEADER_LEN + TABLE_LEN + 4;

/// One shift of the reflected CRC-32 register (polynomial `0xEDB88320`).
pub open spec fn crc_shift(c: u32) -> u32 {
    if c & 1 == 1 {
        (c >> 1) ^ 0xEDB8_8320u32
    } else {
        c >> 1
    }
}

/// `k` shifts of the CRC-32 register.
pub open spec fn crc_shifts(c: u32, k: nat) -> u32
    decreases k,
{
    if k == 0 {
        c
    } else {
        crc_shift(crc_shifts(c, (k - 1) as nat))
    }
}

/// The CRC-32 register after it has taken in `data`, starting from all ones.
pub open spec fn crc_register(data: Seq<u8>) -> u32
    decreases data.len(),
{
    if data.len() == 0 {
        0xFFFF_FFFFu32
    } else {
        crc_shifts(crc_register(data.drop_last()) ^ (data.last() as u32), 8)
    }
}

/// CRC-32 (IEEE, reflected) of `data`: the final register, inverted.
pub open spec fn spec_crc32(data: Seq<u8>) -> u32 {
    !crc_register(data)
}

/// The fingerprint's seed.
pub open spec fn fp_seed() -> u64 {
    0x9E37_79B9_7F4A_7C15u64
}

/// `h` rotated left by seven bits.
pub open spec fn rotl7(h: u64) -> u64 {
    (h << 7u64) | (h >> 57u64)
}

/// One fingerprint round: rotate, mix in the byte, multiply modulo 2^64.
pub open spec fn fp_round(h: u64, b: u8) -> u64 {
    (((rotl7(h) ^ (b as u64)) as nat * 0xBF58_476D_1CE4_E5B9u64 as nat) % 0x1_0000_0000_0000_0000) as u64
}

/// The fingerprint of a byte sequence: the rounds applied in order from the seed.
pub open spec fn spec_fingerprint(table: Seq<u8>) -> u64
    decreases table.len(),
{
    if table.len() == 0 {
        fp_seed()
    } else {
        fp_round(spec_fingerprint(table.drop_last()), table.last())
    }
}

/// CRC-32 (IEEE 802.3, reflected, init and final XOR all ones) of `data`.
pub fn crc32(data: &[u8]) -> (r: u32)
    ensures
        r == spec_crc32(data@),
{
    let mut crc: u32 = 0xFFFF_FFFF;
    let mut i: usize = 0;
    while i < data.len()
        invariant
            i <= data.len(),
            crc == crc_register(data@.take(i as int)),
        decreases data.len() - i,
    {
        assert(data@.take(i + 1).drop_last() == data@.take(i as int));
        crc ^= data[i] as u32;
        let ghost start = crc;
        let mut k: u32 = 0;
        while k < 8
            invariant
                k <= 8,
                crc == crc_shifts(start, k as nat),
            decreases 8 - k,
        {
            assert(crc & 1 == 0 || crc & 1 == 1) by (bit_vector);
            let mask = 0u32.wrapping_sub(crc & 1);
            assert(mask == (if crc & 1 == 1 { 0xFFFF_FFFFu32 } else { 0u32 }));
            assert((crc >> 1) ^ (0xEDB8_8320u32 & mask) == crc_shift(crc)) by (bit_vector)
                requires
                    mask == (if crc & 1 == 1 { 0xFFFF_FFFFu32 } else { 0u32 }),
            ;
            crc = (crc >> 1) ^ (0xEDB8_8320 & mask);
            k += 1;
        }
        i += 1;
    }
    assert(data@.take(data@.len() as int) == data@);
    !crc
}

/// Fingerprint of a map table: seed `0x9E3779B97F4A7C15`, then for each byte
/// rotate left by seven, XOR the byte in, and multiply (wrapping) by
/// `0xBF58476D1CE4E5B9`.
pub fn fingerprint(table: &[u8; TABLE_LEN]) -> (r: u64)
    ensures
        r == spec_fingerprint(table@),
{
    let mut h: u64 = 0x9E37_79B9_7F4A_7C15;
    let mut i: usize = 0;
    while i < TABLE_LEN
        invariant
            i <= TABLE_LEN,
            table@.len() == TABLE_LEN,
            h == spec_fingerprint(table@.take(i as int)),
        decreases TABLE_LEN - i,
    {
        assert(table@.take(i + 1).drop_last() == table@.take(i as int));
        h = ((h << 7) | (h >> 57)) ^ table[i] as u64;
        h = h.wrapping_mul(0xBF58_476D_1CE4_E5B9);
        i += 1;
    }
    assert(table@.take(TABLE_LEN as int) == table@);
    h
}

/// Why an image is refused.
#[derive(Debug, Clone, Copy, PartialEq, Eq, Structural)]
pub enum ImageError {
    BadMagic,
    BadVersion,
    BadCrc,
    FingerprintMismatch,
    /// An action index that is neither `DECLINE` nor a real actuator tier.
    TierOutOfRange,
    /// The map un-declines at a higher accumulated-damage band, which the
    /// slip gate makes structurally impossible, so the map is not the one
    /// that was solved.
    NonMonotoneDeclines,
    /// The map was solved for a different crucible charge, or under
    /// different material constants, than this puller was provisioned for.
    StaleProvenance,
}

/// An image that passed structural validation.
#[derive(Debug)]
pub struct ValidImage {
    pub serial: u64,
    pub charge_hash: u64,
    pub map: PullMap,
}

/// What a valid image carries, as plain values.
pub struct ImageContents {
    pub serial: u64,
    pub charge_hash: u64,
    pub actions: Seq<u8>,
}

impl View for ValidImage {
    type V = ImageContents;

    open spec fn view(&self) -> ImageContents {
        ImageContents { serial: self.serial, charge_hash: self.charge_hash, actions: self.map.actions@ }
    }
}

/// The little-endian `u32` at byte offset `i`.
pub open spec fn le_u32(b: Seq<u8>, i: int) -> u32 {
    (b[i] as int + b[i + 1] as int * 0x100 + b[i + 2] as int * 0x1_0000 + b[i + 3] as int
        * 0x100_0000) as u32
}

/// The little-endian `u64` at byte offset `i`.
pub open spec fn le_u64(b: Seq<u8>, i: int) -> u64 {
    (le_u32(b, i) as int + le_u32(b, i + 4) as int * 0x1_0000_0000) as u64
}

/// The map section of an image.
pub open spec fn map_section(img: Seq<u8>) -> Seq<u8> {
    img.subrange(HEADER_LEN as int, HEADER_LEN + TABLE_LEN)
}

/// Structural validation, in the order the checks are made: magic, version,
/// CRC, map fingerprint, tier range, decline monotonicity.
pub open spec fn spec_validate(img: Seq<u8>) -> Result<ImageContents, ImageError> {
    if img.len() < IMAGE_LEN || le_u32(img, 0) != MAGIC {
        Err(ImageError::BadMagic)
    } else if le_u32(img, 4) != VERSION {
        Err(ImageError::BadVersion)
    } else if spec_crc32(img.take(IMAGE_LEN - 4)) != le_u32(img, IMAGE_LEN - 4) {
        Err(ImageError::BadCrc)
    } else if spec_fingerprint(map_section(img)) != le_u64(img, 24) {
        Err(ImageError::FingerprintMismatch)
    } else if !tiers_valid(map_section(img)) {
        Err(ImageError::TierOutOfRange)
    } else if !declines_monotone(map_section(img)) {
        Err(ImageError::NonMonotoneDeclines)
    } else {
        Ok(ImageContents { serial: le_u64(img, 8), charge_hash: le_u64(img, 16), actions: map_section(img) })
    }
}

/// Full puller-side acceptance: structural validation, then the charge hash
/// must be the one the puller was provisioned with.
pub open spec fn spec_accept(img: Seq<u8>, expected_charge_hash: u64) -> Result<ImageContents, ImageError> {
    match spec_validate(img) {
        Ok(c) => if c.charge_hash == expected_charge_hash {
            Ok(c)
        } else {
            Err(ImageError::StaleProvenance)
        },
        Err(e) => Err(e),
    }
}

fn u32_at(img: &[u8], i: usize) -> (r: u32)
    requires
        i + 4 <= img.len(),
    ensures
        r == le_u32(img@, i as int),
{
    let b0 = img[i] as u32;
    let b1 = img[i + 1] as u32;
    let b2 = img[i + 2] as u32;
    let b3 = img[i + 3] as u32;
    assert(b0 | (b1 << 8) | (b2 << 16) | (b3 << 24) == b0 + b1 * 0x100 + b2 * 0x1_0000 + b3 * 0x100_0000)
        by (bit_vector)
        requires
            b0 < 0x100 && b1 < 0x100 && b2 < 0x100 && b3 < 0x100,
    ;
    b0 | (b1 << 8) | (b2 << 16) | (b3 << 24)
}

fn u64_at(img: &[u8], i: usize) -> (r: u64)
    requires
        i + 8 <= img.len(),
    ensures
        r == le_u64(img@, i as int),
{
    let lo = u32_at(img, i) as u64;
    let hi = u32_at(img, i + 4) as u64;
    assert(lo | (hi << 32) == lo + hi * 0x1_0000_0000) by (bit_vector)
        requires
            lo < 0x1_0000_0000 && hi < 0x1_0000_0000,
    ;
    lo | (hi << 32)
}

/// Structural validation: magic, version, CRC, fingerprint, tier range,
/// decline monotonicity, refused at the first check that fails.
pub fn validate(img: &[u8]) -> (r: Result<ValidImage, ImageError>)
    ensures
        match r {
            Ok(v) => spec_validate(img@) == Ok::<ImageContents, ImageError>(v@),
            Err(e) => spec_validate(img@) == Err::<ImageContents, ImageError>(e),
        },
{
    if img.len() < IMAGE_LEN || u32_at(img, 0) != MAGIC {
        return Err(ImageError::BadMagic);
    }
    if u32_at(img, 4) != VERSION {
        return Err(ImageError::BadVersion);
    }
    if crc32(&img[0..IMAGE_LEN - 4]) != u32_at(img, IMAGE_LEN - 4) {
        return Err(ImageError::BadCrc);
    }
    let mut actions = [0u8; TABLE_LEN];
    let mut i: usize = 0;
    while i < TABLE_LEN
        invariant
            i <= TABLE_LEN,
            IMAGE_LEN <= img@.len(),
            actions@.len() == TABLE_LEN,
            forall|j: int| 0 <= j < i ==> actions@[j] == #[trigger] img@[HEADER_LEN + j],
        decreases TABLE_LEN - i,
    {
        actions[i] = img[HEADER_LEN + i];
        i += 1;
    }
    assert forall|j: int| 0 <= j < TABLE_LEN implies actions@[j] == map_section(img@)[j] by {
        assert(actions@[j] == img@[HEADER_LEN + j]);
    }
    assert(actions@ =~= map_section(img@));
    if fingerprint(&actions) != u64_at(img, 24) {
        return Err(ImageError::FingerprintMismatch);
    }
    let map = PullMap { actions };
    if !map.tiers_in_range() {
        return Err(ImageError::TierOutOfRange);
    }
    if !map.declines_are_monotone() {
        return Err(ImageError::NonMonotoneDeclines);
    }
    Ok(ValidImage { serial: u64_at(img, 8), charge_hash: u64_at(img, 16), map })
}

/// Full puller-side acceptance: structural validation plus the provisioned
/// charge expectation. This is the call a puller makes before the first band.
pub fn accept(img: &[u8], expected_charge_hash: u64) -> (r: Result<ValidImage, ImageError>)
    ensures
        match r {
            Ok(v) => spec_accept(img@, expected_charge_hash) == Ok::<ImageContents, ImageError>(v@),
            Err(e) => spec_accept(img@, expected_charge_hash) == Err::<ImageContents, ImageError>(e),
        },
{
    let v = validate(img)?;
    if v.charge_hash != expected_charge_hash {
        return Err(ImageError::StaleProvenance);
    }
    Ok(v)
}

/// Acceptance is validation plus the charge check: an image is accepted
/// exactly when it validates and carries the expected charge hash; a
/// structurally invalid image is refused for the same reason by both; a valid
/// image for another charge is refused as stale.
pub proof fn lemma_accept_is_validate_then_charge(img: Seq<u8>, expected_charge_hash: u64)
    ensures
        spec_accept(img, expected_charge_hash) is Ok <==> (spec_validate(img) is Ok
            && spec_validate(img)->Ok_0.charge_hash == expected_charge_hash),
        spec_accept(img, expected_charge_hash) is Ok ==> spec_accept(img, expected_charge_hash)
            == spec_validate(img),
        spec_validate(img) is Err ==> spec_accept(img, expected_charge_hash) == spec_validate(img),
        spec_accept(img, expected_charge_hash) == Err::<ImageContents, ImageError>(
            ImageError::StaleProvenance,
        ) <==> (spec_validate(img) is Ok && spec_validate(img)->Ok_0.charge_hash
            != expected_charge_hash),
{
}

/// A map is bound to one crucible charge: no image is accepted by two
/// pullers provisioned for different charges.
pub proof fn lemma_one_charge_per_image(img: Seq<u8>, charge_a: u64, charge_b: u64)
    requires
        charge_a != charge_b,
    ensures
        !(spec_accept(img, charge_a) is Ok && spec_accept(img, charge_b) is Ok),
{
}

/// A validated image carries a map whose served commands are all real tier
/// pairs or declines, and whose declines persist up the damage axis.
pub proof fn lemma_validated_map_is_servable(img: Seq<u8>)
    requires
        spec_validate(img) is Ok,
    ensures
        spec_validate(img)->Ok_0.actions.len() == TABLE_LEN,
        tiers_valid(spec_validate(img)->Ok_0.actions),
        declines_monotone(spec_validate(img)->Ok_0.actions),
        spec_fingerprint(spec_validate(img)->Ok_0.actions) == le_u64(img, 24),
{
}

/// Every command an accepted map serves is a real tier pair or a decline,
/// and a (length, gradient) cell that declines at some damage band declines
/// at every higher one.
pub proof fn lemma_accepted_map_commands(
    img: Seq<u8>,
    expected_charge_hash: u64,
    lb: int,
    gb: int,
    d1: int,
    d2: int,
)
    requires
        spec_accept(img, expected_charge_hash) is Ok,
        0 <= lb < crate::LEN_BANDS,
        0 <= gb < crate::GRAD_BANDS,
        0 <= d1 <= d2 < crate::DMG_BANDS,
    ensures
        ({
            let actions = spec_accept(img, expected_charge_hash)->Ok_0.actions;
            &&& decode_action(actions[cell_index(lb, gb, d1)]) matches Some(c) ==> c.pull_tier
                < crate::PULL_TIERS && c.heater_tier < crate::HEATER_TIERS
            &&& decode_action(actions[cell_index(lb, gb, d1)]) is None ==> decode_action(
                actions[cell_index(lb, gb, d2)],
            ) is None
        }),
{
    lemma_validated_map_is_servable(img);
    let actions = spec_accept(img, expected_charge_hash)->Ok_0.actions;
    crate::lemma_commands_in_range(actions, lb, gb, d1);
    if decode_action(actions[cell_index(lb, gb, d1)]) is None {
        crate::lemma_decline_persists(actions, lb, gb, d1, d2);
    }
}

proof fn lemma_shift_linear(x: u32, y: u32)
    ensures
        crc_shift(x) ^ crc_shift(y) == crc_shift(x ^ y),
{
    assert(crc_shift(x) ^ crc_shift(y) == crc_shift(x ^ y)) by (bit_vector);
}

proof fn lemma_shift_nonzero(x: u32)
    requires
        x != 0,
    ensures
        crc_shift(x) != 0,
{
    assert(x != 0 ==> crc_shift(x) != 0) by (bit_vector);
}

proof fn lemma_shifts_linear(x: u32, y: u32, k: nat)
    ensures
        crc_shifts(x, k) ^ crc_shifts(y, k) == crc_shifts(x ^ y, k),
    decreases k,
{
    if k > 0 {
        lemma_shifts_linear(x, y, (k - 1) as nat);
        lemma_shift_linear(crc_shifts(x, (k - 1) as nat), crc_shifts(y, (k - 1) as nat));
    }
}

proof fn lemma_shifts_nonzero(x: u32, k: nat)
    requires
        x != 0,
    ensures
        crc_shifts(x, k) != 0,
    decreases k,
{
    if k > 0 {
        lemma_shifts_nonzero(x, (k - 1) as nat);
        lemma_shift_nonzero(crc_shifts(x, (k - 1) as nat));
    }
}

/// Feeding the same byte into two registers keeps them apart if they were
/// apart; feeding two different bytes into one register sets them apart.
proof fn lemma_feed_apart(r1: u32, r2: u32, b1: u8, b2: u8)
    requires
        r1 != r2 || b1 != b2,
        r1 == r2 || b1 == b2,
    ensures
        crc_shifts(r1 ^ (b1 as u32), 8) != crc_shifts(r2 ^ (b2 as u32), 8),
{
    let x = r1 ^ (b1 as u32);
    let y = r2 ^ (b2 as u32);
    assert(x ^ y != 0) by (bit_vector)
        requires
            x == r1 ^ (b1 as u32),
            y == r2 ^ (b2 as u32),
            r1 != r2 || b1 != b2,
            r1 == r2 || b1 == b2,
    ;
    lemma_shifts_linear(x, y, 8);
    lemma_shifts_nonzero(x ^ y, 8);
    let cx = crc_shifts(x, 8);
    let cy = crc_shifts(y, 8);
    assert(cx ^ cy != 0 ==> cx != cy) by (bit_vector);
}

proof fn lemma_register_detects_byte_error(a: Seq<u8>, b: Seq<u8>, p: int)
    requires
        a.len() == b.len(),
        0 <= p < a.len(),
        a[p] != b[p],
        forall|i: int| 0 <= i < a.len() && i != p ==> a[i] == b[i],
    ensures
        crc_register(a) != crc_register(b),
    decreases a.len(),
{
    let n = a.len() - 1;
    if p == n {
        assert(a.drop_last() =~= b.drop_last());
    } else {
        lemma_register_detects_byte_error(a.drop_last(), b.drop_last(), p);
        assert(a[n] == b[n]);
    }
    lemma_feed_apart(crc_register(a.drop_last()), crc_register(b.drop_last()), a.last(), b.last());
}

/// CRC-32 detects every error confined to one byte: two byte sequences of
/// equal length that differ in exactly one position have different CRCs.
pub proof fn lemma_crc32_detects_byte_error(a: Seq<u8>, b: Seq<u8>, p: int)
    requires
        a.len() == b.len(),
        0 <= p < a.len(),
        a[p] != b[p],
        forall|i: int| 0 <= i < a.len() && i != p ==> a[i] == b[i],
    ensures
        spec_crc32(a) != spec_crc32(b),
{
    lemma_register_detects_byte_error(a, b, p);
    let ra = crc_register(a);
    let rb = crc_register(b);
    assert(ra != rb ==> !ra != !rb) by (bit_vector);
}

/// A little-endian field changes when any one of its bytes changes.
proof fn lemma_le_u32_byte_change(a: Seq<u8>, b: Seq<u8>, i: int, p: int)
    requires
        0 <= i,
        i + 4 <= a.len(),
        a.len() == b.len(),
        i <= p < i + 4,
        a[p] != b[p],
        forall|j: int| i <= j < i + 4 && j != p ==> a[j] == b[j],
    ensures
        le_u32(a, i) != le_u32(b, i),
{
}

/// Fail closed: corrupting any one byte of a valid image past its magic and
/// version, the map and the CRC field included, gets the image refused with
/// `BadCrc`.
pub proof fn lemma_corrupted_byte_refused(img: Seq<u8>, p: int, flip: u8)
    requires
        spec_validate(img) is Ok,
        8 <= p < IMAGE_LEN,
        flip != 0,
    ensures
        spec_validate(img.update(p, img[p] ^ flip)) == Err::<ImageContents, ImageError>(ImageError::BadCrc),
{
    let bad = img.update(p, img[p] ^ flip);
    let orig = img[p];
    assert(orig ^ flip != orig) by (bit_vector)
        requires
            flip != 0,
    ;
    assert(le_u32(bad, 0) == le_u32(img, 0));
    assert(le_u32(bad, 4) == le_u32(img, 4));
    if p < IMAGE_LEN - 4 {
        lemma_crc32_detects_byte_error(img.take(IMAGE_LEN - 4), bad.take(IMAGE_LEN - 4), p);
        assert(le_u32(bad, IMAGE_LEN - 4) == le_u32(img, IMAGE_LEN - 4));
    } else {
        assert(img.take(IMAGE_LEN - 4) =~= bad.take(IMAGE_LEN - 4));
        lemma_le_u32_byte_change(img, bad, IMAGE_LEN - 4, p);
    }
}

/// Eight register shifts, written out.
spec fn crc_shift8(c: u32) -> u32 {
    crc_shift(crc_shift(crc_shift(crc_shift(crc_shift(crc_shift(crc_shift(crc_shift(c))))))))
}

proof fn lemma_shifts8(c: u32)
    ensures
        crc_shifts(c, 8) == crc_shift8(c),
{
    reveal_with_fuel(crc_shifts, 9);
}

proof fn lemma_register_push(data: Seq<u8>, b: u8)
    ensures
        crc_register(data.push(b)) == crc_shift8(crc_register(data) ^ (b as u32)),
{
    assert(data.push(b).drop_last() =~= data);
    lemma_shifts8(crc_register(data) ^ (b as u32));
}

/// The CRC of no bytes is zero.
pub proof fn lemma_crc32_empty()
    ensures
        spec_crc32(Seq::<u8>::empty()) == 0,
{
    let r = crc_register(Seq::<u8>::empty());
    assert(r == 0xFFFF_FFFFu32 ==> !r == 0u32) by (bit_vector);
}

/// Sealing: appending its own CRC-32 to any data, least significant byte
/// first, gives a sequence whose CRC-32 is the fixed residue `0x2144DF1C`,
/// whatever the data and its length.
pub proof fn lemma_crc32_residue(data: Seq<u8>)
    ensures
        ({
            let c = spec_crc32(data);
            spec_crc32(data + seq![(c & 0xFF) as u8, ((c >> 8) & 0xFF) as u8, ((c >> 16) & 0xFF) as u8, (c >> 24) as u8])
                == 0x2144_DF1Cu32
        }),
{
    let c = spec_crc32(data);
    let b0 = (c & 0xFF) as u8;
    let b1 = ((c >> 8) & 0xFF) as u8;
    let b2 = ((c >> 16) & 0xFF) as u8;
    let b3 = (c >> 24) as u8;
    let d1 = data.push(b0);
    let d2 = d1.push(b1);
    let d3 = d2.push(b2);
    let d4 = d3.push(b3);
    assert(data + seq![b0, b1, b2, b3] =~= d4);
    lemma_register_push(data, b0);
    lemma_register_push(d1, b1);
    lemma_register_push(d2, b2);
    lemma_register_push(d3, b3);
    let r = crc_register(data);
    assert(b0 as u32 == (!r) & 0xFF && b1 as u32 == ((!r) >> 8) & 0xFF && b2 as u32 == ((!r) >> 16)
        & 0xFF && b3 as u32 == (!r) >> 24) by (bit_vector)
        requires
            c == !r,
            b0 == (c & 0xFF) as u8,
            b1 == ((c >> 8) & 0xFF) as u8,
            b2 == ((c >> 16) & 0xFF) as u8,
            b3 == (c >> 24) as u8,
    ;
    let r1 = crc_shift8(r ^ (b0 as u32));
    let r2 = crc_shift8(r1 ^ (b1 as u32));
    let r3 = crc_shift8(r2 ^ (b2 as u32));
    let r4 = crc_shift8(r3 ^ (b3 as u32));
    assert(r4 == 0xDEBB_20E3u32) by (bit_vector)
        requires
            b0 as u32 == (!r) & 0xFF,
            b1 as u32 == ((!r) >> 8) & 0xFF,
            b2 as u32 == ((!r) >> 16) & 0xFF,
            b3 as u32 == (!r) >> 24,
            r1 == crc_shift8(r ^ (b0 as u32)),
            r2 == crc_shift8(r1 ^ (b1 as u32)),
            r3 == crc_shift8(r2 ^ (b2 as u32)),
            r4 == crc_shift8(r3 ^ (b3 as u32)),
    ;
    assert(!r4 == 0x2144_DF1Cu32) by (bit_vector)
        requires
            r4 == 0xDEBB_20E3u32,
    ;
}

/// The bytewise exclusive or of three equally long sequences.
pub open spec fn xor3(a: Seq<u8>, b: Seq<u8>, c: Seq<u8>) -> Seq<u8> {
    Seq::new(a.len(), |i: int| a[i] ^ b[i] ^ c[i])
}

proof fn lemma_register_affine(a: Seq<u8>, b: Seq<u8>, c: Seq<u8>)
    requires
        a.len() == b.len(),
        a.len() == c.len(),
    ensures
        crc_register(a) ^ crc_register(b) ^ crc_register(c) == crc_register(xor3(a, b, c)),
    decreases a.len(),
{
    if a.len() == 0 {
        let f = crc_register(a);
        assert(f == 0xFFFF_FFFFu32 ==> f ^ f ^ f == f) by (bit_vector);
        assert(xor3(a, b, c) =~= Seq::<u8>::empty());
    } else {
        let (a0, b0, c0) = (a.drop_last(), b.drop_last(), c.drop_last());
        lemma_register_affine(a0, b0, c0);
        let x = xor3(a, b, c);
        assert(x.drop_last() =~= xor3(a0, b0, c0));
        let (ra, rb, rc) = (crc_register(a0), crc_register(b0), crc_register(c0));
        let (va, vb, vc) = (a.last(), b.last(), c.last());
        let vx: u8 = va ^ vb ^ vc;
        assert(x.last() == vx);
        let (pa, pb, pc) = (ra ^ (va as u32), rb ^ (vb as u32), rc ^ (vc as u32));
        assert(pa ^ pb ^ pc == (ra ^ rb ^ rc) ^ (vx as u32)) by (bit_vector)
            requires
                pa == ra ^ (va as u32),
                pb == rb ^ (vb as u32),
                pc == rc ^ (vc as u32),
                vx == va ^ vb ^ vc,
        ;
        lemma_shifts_linear(pa, pb, 8);
        lemma_shifts_linear(pa ^ pb, pc, 8);
    }
}

/// CRC-32 is affine over GF(2): for three byte sequences of one length, the
/// exclusive or of their CRCs is the CRC of their bytewise exclusive or.
pub proof fn lemma_crc32_affine(a: Seq<u8>, b: Seq<u8>, c: Seq<u8>)
    requires
        a.len() == b.len(),
        a.len() == c.len(),
    ensures
        spec_crc32(a) ^ spec_crc32(b) ^ spec_crc32(c) == spec_crc32(xor3(a, b, c)),
{
    lemma_register_affine(a, b, c);
    let (ra, rb, rc) = (crc_register(a), crc_register(b), crc_register(c));
    assert(!ra ^ !rb ^ !rc == !(ra ^ rb ^ rc)) by (bit_vector);
}

/// The fingerprint of an empty table is its seed.
pub proof fn lemma_fingerprint_empty()
    ensures
        spec_fingerprint(Seq::<u8>::empty()) == 0x9E37_79B9_7F4A_7C15u64,
{
}

/// One round per stored entry: appending entry `b` to a table rotates the
/// fingerprint left by seven bits, XORs `b` in and multiplies by
/// `0xBF58476D1CE4E5B9` modulo 2^64, whatever the entries before it.
pub proof fn lemma_fingerprint_push(table: Seq<u8>, b: u8)
    ensures
        ({
            let h = spec_fingerprint(table);
            spec_fingerprint(table.push(b)) as int == ((((h << 7u64) | (h >> 57u64)) ^ (b as u64)) as int
                * 0xBF58_476D_1CE4_E5B9) % 0x1_0000_0000_0000_0000
        }),
{
    assert(table.push(b).drop_last() =~= table);
}

/// Multiplying by the odd fingerprint multiplier is undone by multiplying by
/// its inverse modulo 2^64.
proof fn lemma_multiplier_inverse(x: int)
    requires
        0 <= x < 0x1_0000_0000_0000_0000,
    ensures
        ((x * 0xBF58_476D_1CE4_E5B9) % 0x1_0000_0000_0000_0000) * 0x96DE_1B17_3F11_9089
            % 0x1_0000_0000_0000_0000 == x,
{
    let m: int = 0x1_0000_0000_0000_0000;
    let c: int = 0xBF58_476D_1CE4_E5B9;
    let ci: int = 0x96DE_1B17_3F11_9089;
    let k: int = 8125545580553827436;
    vstd::arithmetic::div_mod::lemma_mul_mod_noop_left(x * c, ci, m);
    vstd::arithmetic::mul::lemma_mul_is_associative(x, c, ci);
    assert(c * ci == m * k + 1);
    assert(x * (m * k + 1) == m * (x * k) + x) by (nonlinear_arith);
    vstd::arithmetic::div_mod::lemma_mod_multiples_vanish(x * k, x, m);
    vstd::arithmetic::div_mod::lemma_small_mod(x as nat, m as nat);
}

proof fn lemma_multiply_injective(x: u64, y: u64)
    requires
        (x as nat * 0xBF58_476D_1CE4_E5B9u64 as nat) % 0x1_0000_0000_0000_0000 == (y as nat
            * 0xBF58_476D_1CE4_E5B9u64 as nat) % 0x1_0000_0000_0000_0000,
    ensures
        x == y,
{
    lemma_multiplier_inverse(x as int);
    lemma_multiplier_inverse(y as int);
}

/// A fingerprint round keeps different states apart and different entries apart.
proof fn lemma_round_injective(h1: u64, h2: u64, b1: u8, b2: u8)
    requires
        h1 != h2 || b1 != b2,
        h1 == h2 || b1 == b2,
    ensures
        fp_round(h1, b1) != fp_round(h2, b2),
{
    let x = rotl7(h1) ^ (b1 as u64);
    let y = rotl7(h2) ^ (b2 as u64);
    assert(x != y) by (bit_vector)
        requires
            x == ((h1 << 7u64) | (h1 >> 57u64)) ^ (b1 as u64),
            y == ((h2 << 7u64) | (h2 >> 57u64)) ^ (b2 as u64),
            h1 != h2 || b1 != b2,
            h1 == h2 || b1 == b2,
    ;
    if fp_round(h1, b1) == fp_round(h2, b2) {
        lemma_multiply_injective(x, y);
    }
}

/// The fingerprint detects every change of a single table entry: two tables
/// of one length that differ in exactly one position have different
/// fingerprints.
pub proof fn lemma_fingerprint_detects_entry_change(a: Seq<u8>, b: Seq<u8>, p: int)
    requires
        a.len() == b.len(),
        0 <= p < a.len(),
        a[p] != b[p],
        forall|i: int| 0 <= i < a.len() && i != p ==> a[i] == b[i],
    ensures
        spec_fingerprint(a) != spec_fingerprint(b),
    decreases a.len(),
{
    let n = a.len() - 1;
    if p == n {
        assert(a.drop_last() =~= b.drop_last());
    } else {
        lemma_fingerprint_detects_entry_change(a.drop_last(), b.drop_last(), p);
        assert(a[n] == b[n]);
    }
    lemma_round_injective(spec_fingerprint(a.drop_last()), spec_fingerprint(b.drop_last()), a.last(), b.last());
}

/// What a validated image is, byte by byte: at least `IMAGE_LEN` bytes
/// long, starting with `"QCCZ"` and format version 1 (little-endian), with a
/// CRC-32 of its first `IMAGE_LEN - 4` bytes stored little-endian right after
/// them and the map fingerprint stored little-endian at offset 24; and what
/// validation hands back: the serial stored at offset 8, the charge hash
/// stored at offset 16 (both eight bytes, least significant first) and the
/// map as the bytes from `HEADER_LEN` on.
pub proof fn lemma_validated_image_fields(img: Seq<u8>)
    requires
        spec_validate(img) is Ok,
    ensures
        img.len() >= IMAGE_LEN,
        img[0] == 0x51u8 && img[1] == 0x43u8 && img[2] == 0x43u8 && img[3] == 0x5Au8,
        img[4] == 1u8 && img[5] == 0u8 && img[6] == 0u8 && img[7] == 0u8,
        spec_crc32(img.take(IMAGE_LEN - 4)) as int == (img[1328] as int + img[1329] as int * 0x100 + img[1330] as int * 0x10000 + img[1331] as int * 0x1000000),
        spec_fingerprint(img.subrange(HEADER_LEN as int, HEADER_LEN + TABLE_LEN)) as int == (img[24] as int + img[25] as int * 0x100 + img[26] as int * 0x10000 + img[27] as int * 0x1000000 + img[28] as int * 0x100000000 + img[29] as int * 0x10000000000 + img[30] as int * 0x1000000000000 + img[31] as int * 0x100000000000000),
        spec_validate(img)->Ok_0.serial as int == (img[8] as int + img[9] as int * 0x100 + img[10] as int * 0x10000 + img[11] as int * 0x1000000 + img[12] as int * 0x100000000 + img[13] as int * 0x10000000000 + img[14] as int * 0x1000000000000 + img[15] as int * 0x100000000000000),
        spec_validate(img)->Ok_0.charge_hash as int == (img[16] as int + img[17] as int * 0x100 + img[18] as int * 0x10000 + img[19] as int * 0x1000000 + img[20] as int * 0x100000000 + img[21] as int * 0x10000000000 + img[22] as int * 0x1000000000000 + img[23] as int * 0x100000000000000),
        spec_validate(img)->Ok_0.actions == img.subrange(HEADER_LEN as int, HEADER_LEN + TABLE_LEN),
{
}

/// An image sealed for charge `h` is accepted by a puller provisioned with
/// `h`: every byte sequence with the magic, version 1, a matching CRC-32 and
/// fingerprint, tiers in range and monotone declines validates, carrying the
/// serial and charge hash stored in its header, and is accepted for exactly
/// the stored charge hash.
pub proof fn lemma_sealed_image_accepted(img: Seq<u8>, h: u64)
    requires
        img.len() >= IMAGE_LEN,
        img[0] == 0x51u8 && img[1] == 0x43u8 && img[2] == 0x43u8 && img[3] == 0x5Au8,
        img[4] == 1u8 && img[5] == 0u8 && img[6] == 0u8 && img[7] == 0u8,
        spec_crc32(img.take(IMAGE_LEN - 4)) as int == (img[1328] as int + img[1329] as int * 0x100 + img[1330] as int * 0x10000 + img[1331] as int * 0x1000000),
        spec_fingerprint(img.subrange(HEADER_LEN as int, HEADER_LEN + TABLE_LEN)) as int == (img[24] as int + img[25] as int * 0x100 + img[26] as int * 0x10000 + img[27] as int * 0x1000000 + img[28] as int * 0x100000000 + img[29] as int * 0x10000000000 + img[30] as int * 0x1000000000000 + img[31] as int * 0x100000000000000),
        forall|i: int| HEADER_LEN <= i < HEADER_LEN + TABLE_LEN ==> (#[trigger] img[i] == 0xFFu8 || img[i]
            < crate::PULL_TIERS * crate::HEATER_TIERS),
        forall|i1: int, i2: int|
            #![trigger img[i1], img[i2]]
            HEADER_LEN <= i1 <= i2 < HEADER_LEN + TABLE_LEN && (i1 - HEADER_LEN) / (crate::DMG_BANDS as int)
                == (i2 - HEADER_LEN) / (crate::DMG_BANDS as int) && img[i1] == 0xFFu8 ==> img[i2] == 0xFFu8,
        h as int == (img[16] as int + img[17] as int * 0x100 + img[18] as int * 0x10000 + img[19] as int * 0x1000000 + img[20] as int * 0x100000000 + img[21] as int * 0x10000000000 + img[22] as int * 0x1000000000000 + img[23] as int * 0x100000000000000),
    ensures
        spec_validate(img) is Ok,
        spec_accept(img, h) is Ok,
        spec_accept(img, h)->Ok_0.serial as int == (img[8] as int + img[9] as int * 0x100 + img[10] as int * 0x10000 + img[11] as int * 0x1000000 + img[12] as int * 0x100000000 + img[13] as int * 0x10000000000 + img[14] as int * 0x1000000000000 + img[15] as int * 0x100000000000000),
        spec_accept(img, h)->Ok_0.charge_hash == h,
        spec_accept(img, h)->Ok_0.actions == img.subrange(HEADER_LEN as int, HEADER_LEN + TABLE_LEN),
{
    let map = map_section(img);
    crate::lemma_tiers_valid_by_entries(map);
    assert forall|i: int| 0 <= i < map.len() implies (#[trigger] map[i] == 0xFFu8 || map[i]
        < crate::PULL_TIERS * crate::HEATER_TIERS) by {
        assert(map[i] == img[HEADER_LEN + i]);
    }
    crate::lemma_declines_monotone_by_entries(map);
    assert forall|i1: int, i2: int|
        0 <= i1 <= i2 < TABLE_LEN && i1 / (crate::DMG_BANDS as int) == i2 / (crate::DMG_BANDS as int)
            && #[trigger] map[i1] == 0xFFu8 implies #[trigger] map[i2] == 0xFFu8 by {
        assert(map[i1] == img[HEADER_LEN + i1]);
        assert(map[i2] == img[HEADER_LEN + i2]);
        assert((HEADER_LEN + i1 - HEADER_LEN) == i1);
        assert((HEADER_LEN + i2 - HEADER_LEN) == i2);
        assert(img[HEADER_LEN + i1] == 0xFFu8);
    }
}

/// Why an image is refused, byte by byte, in the order the checks are made:
/// too short or not starting with `"QCCZ"` is `BadMagic`; otherwise a format
/// version other than 1 is `BadVersion`; otherwise a CRC-32 of the first
/// `IMAGE_LEN - 4` bytes that differs from the little-endian value after them
/// is `BadCrc`; otherwise a map fingerprint that differs from the one stored
/// at offset 24 is `FingerprintMismatch`; otherwise an entry that is neither
/// `0xFF` nor below `PULL_TIERS * HEATER_TIERS` is `TierOutOfRange`;
/// otherwise an entry other than `0xFF` after a `0xFF` within one run of
/// `DMG_BANDS` entries is `NonMonotoneDeclines`; and nothing else is refused.
pub proof fn lemma_refusal_reasons(img: Seq<u8>)
    ensures
        ({
            let map = img.subrange(HEADER_LEN as int, HEADER_LEN + TABLE_LEN);
            let magic_ok = img.len() >= IMAGE_LEN && img[0] == 0x51u8 && img[1] == 0x43u8 && img[2]
                == 0x43u8 && img[3] == 0x5Au8;
            let version_ok = img[4] == 1u8 && img[5] == 0u8 && img[6] == 0u8 && img[7] == 0u8;
            let crc_ok = spec_crc32(img.take(IMAGE_LEN - 4)) as int == (img[1328] as int + img[1329] as int * 0x100 + img[1330] as int * 0x10000 + img[1331] as int * 0x1000000);
            let fp_ok = spec_fingerprint(map) as int == (img[24] as int + img[25] as int * 0x100 + img[26] as int * 0x10000 + img[27] as int * 0x1000000 + img[28] as int * 0x100000000 + img[29] as int * 0x10000000000 + img[30] as int * 0x1000000000000 + img[31] as int * 0x100000000000000);
            let tiers_ok = forall|i: int| 0 <= i < TABLE_LEN ==> (#[trigger] map[i] == 0xFFu8 || map[i]
                < crate::PULL_TIERS * crate::HEATER_TIERS);
            let declines_ok = forall|i1: int, i2: int|
                #![trigger map[i1], map[i2]]
                0 <= i1 <= i2 < TABLE_LEN && i1 / (crate::DMG_BANDS as int) == i2 / (crate::DMG_BANDS as int)
                    && map[i1] == 0xFFu8 ==> map[i2] == 0xFFu8;
            &&& (spec_validate(img) == Err::<ImageContents, ImageError>(ImageError::BadMagic) <==> !magic_ok)
            &&& (spec_validate(img) == Err::<ImageContents, ImageError>(ImageError::BadVersion) <==> magic_ok
                && !version_ok)
            &&& (spec_validate(img) == Err::<ImageContents, ImageError>(ImageError::BadCrc) <==> magic_ok
                && version_ok && !crc_ok)
            &&& (spec_validate(img) == Err::<ImageContents, ImageError>(ImageError::FingerprintMismatch)
                <==> magic_ok && version_ok && crc_ok && !fp_ok)
            &&& (spec_validate(img) == Err::<ImageContents, ImageError>(ImageError::TierOutOfRange) <==> magic_ok
                && version_ok && crc_ok && fp_ok && !tiers_ok)
            &&& (spec_validate(img) == Err::<ImageContents, ImageError>(ImageError::NonMonotoneDeclines)
                <==> magic_ok && version_ok && crc_ok && fp_ok && tiers_ok && !declines_ok)
            &&& (spec_validate(img) is Ok <==> magic_ok && version_ok && crc_ok && fp_ok && tiers_ok
                && declines_ok)
            &&& spec_validate(img) != Err::<ImageContents, ImageError>(ImageError::StaleProvenance)
        }),
{
    let map = img.subrange(HEADER_LEN as int, HEADER_LEN + TABLE_LEN);
    crate::lemma_declines_monotone_by_entries(map);
    if img.len() >= IMAGE_LEN {
        assert(map.len() == TABLE_LEN);
        crate::lemma_tiers_valid_by_entries(map);
    }
}

} // verus!
