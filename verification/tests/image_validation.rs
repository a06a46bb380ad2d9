use cz_gov_nostd::image::{
    accept, crc32, fingerprint, validate, ImageError, HEADER_LEN, IMAGE_LEN, MAGIC, TABLE_LEN,
    VERSION,
};
use cz_gov_nostd::{Command, PullMap, DECLINE, DMG_BANDS, GRAD_BANDS, HEATER_TIERS, LEN_BANDS, PULL_TIERS};

// A worst-case-charge image built here: the charge hashes are the ones the
// provisioning notes give for the current image; the map is a solved-shape
// table in which every (length, gradient) cell backs off along the damage
// axis and 49 cells decline at the top damage band.
const GOLDEN_CHARGE_HASH: u64 = 0xB493_1412_9539_4B69;
const GOLDEN_OTHER_CHARGE_HASH: u64 = 0xAD27_333A_F276_C91E;
const GOLDEN_SERIAL: u64 = 0x0000_0200_0000_0017;

fn golden_table() -> [u8; TABLE_LEN] {
    let mut t = [0u8; TABLE_LEN];
    for lb in 0..LEN_BANDS {
        for gb in 0..GRAD_BANDS {
            let cell = lb * GRAD_BANDS + gb;
            for db in 0..DMG_BANDS {
                let i = cell * DMG_BANDS + db;
                if cell < 49 && db == DMG_BANDS - 1 {
                    t[i] = DECLINE;
                } else {
                    let pull = (PULL_TIERS - 1) - core::cmp::min(PULL_TIERS - 1, db / 3);
                    let heater = (lb + db) % HEATER_TIERS;
                    t[i] = (pull * HEATER_TIERS + heater) as u8;
                }
            }
        }
    }
    t
}

// The map fingerprint, computed independently of the library.
fn reference_fingerprint(table: &[u8]) -> u64 {
    let mut h: u64 = 0x9E37_79B9_7F4A_7C15;
    for &b in table {
        h = h.rotate_left(7) ^ b as u64;
        h = h.wrapping_mul(0xBF58_476D_1CE4_E5B9);
    }
    h
}

fn seal(img: &mut [u8; IMAGE_LEN]) {
    let crc = crc32(&img[..IMAGE_LEN - 4]);
    img[IMAGE_LEN - 4..].copy_from_slice(&crc.to_le_bytes());
}

fn image_with(table: &[u8; TABLE_LEN], serial: u64, charge: u64) -> [u8; IMAGE_LEN] {
    let mut img = [0u8; IMAGE_LEN];
    img[0..4].copy_from_slice(&MAGIC.to_le_bytes());
    img[4..8].copy_from_slice(&VERSION.to_le_bytes());
    img[8..16].copy_from_slice(&serial.to_le_bytes());
    img[16..24].copy_from_slice(&charge.to_le_bytes());
    img[24..32].copy_from_slice(&reference_fingerprint(table).to_le_bytes());
    img[HEADER_LEN..HEADER_LEN + TABLE_LEN].copy_from_slice(table);
    seal(&mut img);
    img
}

fn golden_image() -> [u8; IMAGE_LEN] {
    image_with(&golden_table(), GOLDEN_SERIAL, GOLDEN_CHARGE_HASH)
}

fn golden_map_fp() -> u64 {
    reference_fingerprint(&golden_table())
}

#[test]
fn crc32_known_vector() {
    assert_eq!(crc32(b"123456789"), 0xCBF4_3926);
}

#[test]
fn golden_image_parity_with_hosted() {
    let golden = golden_image();
    let v = accept(&golden, GOLDEN_CHARGE_HASH).expect("golden accepts");
    assert_eq!(v.serial, GOLDEN_SERIAL);
    assert_eq!(v.map.fingerprint(), golden_map_fp());
    // Every entry decodes to a real actuator tier.
    assert!(v.map.tiers_in_range());
    for lb in 0..LEN_BANDS {
        for gb in 0..GRAD_BANDS {
            for db in 0..DMG_BANDS {
                if let Some(c) = v.map.command(lb, gb, db) {
                    assert!((c.pull_tier as usize) < PULL_TIERS);
                    assert!((c.heater_tier as usize) < HEATER_TIERS);
                }
            }
        }
    }
    assert!(v.map.declines_are_monotone());
}

#[test]
fn the_accumulator_is_visible_in_the_deployed_map() {
    let golden = golden_image();
    let v = accept(&golden, GOLDEN_CHARGE_HASH).expect("golden accepts");
    let mut varies = 0usize;
    let mut declines = 0usize;
    for lb in 0..LEN_BANDS {
        for gb in 0..GRAD_BANDS {
            let first = v.map.command(lb, gb, 0);
            if (1..DMG_BANDS).any(|db| v.map.command(lb, gb, db) != first) {
                varies += 1;
            }
            declines += (0..DMG_BANDS)
                .filter(|&db| v.map.command(lb, gb, db).is_none())
                .count();
        }
    }
    assert!(varies > 0, "the deployed map must respond to accumulated damage");
    assert!(declines > 0, "the map must decline somewhere on the damage axis");
}

#[test]
fn corruption_and_staleness_are_refused() {
    let golden = golden_image();
    let mut bad = golden;
    bad[HEADER_LEN + 40] ^= 1;
    assert_eq!(validate(&bad).unwrap_err(), ImageError::BadCrc);
    let crc = crc32(&bad[..IMAGE_LEN - 4]);
    bad[IMAGE_LEN - 4..].copy_from_slice(&crc.to_le_bytes());
    assert_eq!(validate(&bad).unwrap_err(), ImageError::FingerprintMismatch);
    // A map for the nominal charge is refused by a puller provisioned for
    // the worst-case charge.
    assert_eq!(
        accept(&golden, GOLDEN_OTHER_CHARGE_HASH).unwrap_err(),
        ImageError::StaleProvenance
    );
    // An out-of-range action index that is otherwise self-consistent is
    // still refused: CRC and fingerprint prove integrity, not meaning.
    let mut oor = golden;
    oor[HEADER_LEN] = 200;
    let mut acts = [0u8; TABLE_LEN];
    acts.copy_from_slice(&oor[HEADER_LEN..HEADER_LEN + TABLE_LEN]);
    oor[24..32].copy_from_slice(&fingerprint(&acts).to_le_bytes());
    let crc = crc32(&oor[..IMAGE_LEN - 4]);
    oor[IMAGE_LEN - 4..].copy_from_slice(&crc.to_le_bytes());
    assert_eq!(validate(&oor).unwrap_err(), ImageError::TierOutOfRange);
}

#[test]
fn golden_map_shape_matches_the_provisioning_notes() {
    let golden = golden_image();
    let v = accept(&golden, GOLDEN_CHARGE_HASH).expect("golden accepts");
    let mut varies = 0usize;
    let mut declines = 0usize;
    for lb in 0..LEN_BANDS {
        for gb in 0..GRAD_BANDS {
            let first = v.map.command(lb, gb, 0);
            if (1..DMG_BANDS).any(|db| v.map.command(lb, gb, db) != first) {
                varies += 1;
            }
            declines += (0..DMG_BANDS)
                .filter(|&db| v.map.command(lb, gb, db).is_none())
                .count();
        }
    }
    assert_eq!(varies, LEN_BANDS * GRAD_BANDS);
    assert_eq!(declines, 49);
    assert_eq!(v.charge_hash, GOLDEN_CHARGE_HASH);
    assert_eq!(v.map.actions, golden_table());
}

#[test]
fn crc32_of_empty_input_is_zero() {
    assert_eq!(crc32(&[]), 0);
    assert_eq!(crc32(b"a"), 0xE8B7_BE43);
    assert_eq!(crc32(b"The quick brown fox jumps over the lazy dog"), 0x414F_A339);
}

#[test]
fn fingerprint_matches_the_reference_rounds() {
    let zeros = [0u8; TABLE_LEN];
    assert_eq!(fingerprint(&zeros), reference_fingerprint(&zeros));
    let t = golden_table();
    assert_eq!(fingerprint(&t), reference_fingerprint(&t));
    let mut ramp = [0u8; TABLE_LEN];
    for (i, b) in ramp.iter_mut().enumerate() {
        *b = (i % 251) as u8;
    }
    assert_eq!(fingerprint(&ramp), reference_fingerprint(&ramp));
    assert_eq!(PullMap { actions: ramp }.fingerprint(), reference_fingerprint(&ramp));
}

#[test]
fn short_or_foreign_images_are_bad_magic() {
    let golden = golden_image();
    assert_eq!(validate(&golden[..IMAGE_LEN - 1]).unwrap_err(), ImageError::BadMagic);
    assert_eq!(validate(&[]).unwrap_err(), ImageError::BadMagic);
    let mut foreign = golden;
    foreign[0] = b'X';
    assert_eq!(validate(&foreign).unwrap_err(), ImageError::BadMagic);
    assert_eq!(accept(&foreign, GOLDEN_CHARGE_HASH).unwrap_err(), ImageError::BadMagic);
}

#[test]
fn a_longer_buffer_validates_on_its_first_image_bytes() {
    let golden = golden_image();
    let mut longer = golden.to_vec();
    longer.extend_from_slice(&[0xAA; 16]);
    let v = validate(&longer).expect("trailing bytes are not part of the image");
    assert_eq!(v.serial, GOLDEN_SERIAL);
}

#[test]
fn other_format_versions_are_refused() {
    let mut img = golden_image();
    img[4] = 2;
    seal(&mut img);
    assert_eq!(validate(&img).unwrap_err(), ImageError::BadVersion);
}

#[test]
fn un_declining_map_is_refused() {
    let mut table = golden_table();
    // Cell (0, 0) declines at the top band; make it decline one band lower
    // and serve again above it.
    table[DMG_BANDS - 2] = DECLINE;
    table[DMG_BANDS - 1] = 0;
    let img = image_with(&table, GOLDEN_SERIAL, GOLDEN_CHARGE_HASH);
    assert_eq!(validate(&img).unwrap_err(), ImageError::NonMonotoneDeclines);
    assert!(!PullMap { actions: table }.declines_are_monotone());
    assert!(PullMap { actions: table }.tiers_in_range());
}

#[test]
fn tier_range_check_looks_at_every_entry() {
    let mut table = golden_table();
    table[TABLE_LEN - 1] = (PULL_TIERS * HEATER_TIERS) as u8;
    assert!(!PullMap { actions: table }.tiers_in_range());
    table[TABLE_LEN - 1] = (PULL_TIERS * HEATER_TIERS - 1) as u8;
    assert!(PullMap { actions: table }.tiers_in_range());
    table[0] = 0xFE;
    assert!(!PullMap { actions: table }.tiers_in_range());
    let img = image_with(&table, GOLDEN_SERIAL, GOLDEN_CHARGE_HASH);
    assert_eq!(validate(&img).unwrap_err(), ImageError::TierOutOfRange);
}

#[test]
fn command_decodes_quotient_and_remainder() {
    let mut table = [0u8; TABLE_LEN];
    table[0] = 7;
    table[(2 * GRAD_BANDS + 3) * DMG_BANDS + 4] = 17;
    table[TABLE_LEN - 1] = DECLINE;
    let map = PullMap { actions: table };
    assert_eq!(map.command(0, 0, 0), Some(Command { pull_tier: 2, heater_tier: 1 }));
    assert_eq!(map.command(2, 3, 4), Some(Command { pull_tier: 5, heater_tier: 2 }));
    assert_eq!(map.command(LEN_BANDS - 1, GRAD_BANDS - 1, DMG_BANDS - 1), None);
    assert_eq!(map.command(1, 1, 1), Some(Command { pull_tier: 0, heater_tier: 0 }));
}

#[test]
fn one_image_serves_one_charge() {
    let golden = golden_image();
    assert!(accept(&golden, GOLDEN_CHARGE_HASH).is_ok());
    assert_eq!(
        accept(&golden, GOLDEN_OTHER_CHARGE_HASH).unwrap_err(),
        ImageError::StaleProvenance
    );
    let other = image_with(&golden_table(), GOLDEN_SERIAL, GOLDEN_OTHER_CHARGE_HASH);
    assert!(accept(&other, GOLDEN_OTHER_CHARGE_HASH).is_ok());
    assert_eq!(accept(&other, GOLDEN_CHARGE_HASH).unwrap_err(), ImageError::StaleProvenance);
}

#[test]
fn any_single_corrupted_byte_past_the_version_is_bad_crc() {
    let golden = golden_image();
    for p in 8..IMAGE_LEN {
        for flip in [0x01u8, 0x80, 0xFF] {
            let mut bad = golden;
            bad[p] ^= flip;
            assert_eq!(validate(&bad).unwrap_err(), ImageError::BadCrc, "byte {}", p);
        }
    }
}

#[test]
fn command_surface_reencodes_to_the_map_fingerprint() {
    let v = accept(&golden_image(), GOLDEN_CHARGE_HASH).expect("golden accepts");
    let mut h: u64 = 0x9E37_79B9_7F4A_7C15;
    for lb in 0..LEN_BANDS {
        for gb in 0..GRAD_BANDS {
            for db in 0..DMG_BANDS {
                let a = match v.map.command(lb, gb, db) {
                    Some(c) => c.pull_tier * 3 + c.heater_tier,
                    None => DECLINE,
                };
                h = h.rotate_left(7) ^ a as u64;
                h = h.wrapping_mul(0xBF58_476D_1CE4_E5B9);
            }
        }
    }
    assert_eq!(h, golden_map_fp());
    assert_eq!(h, v.map.fingerprint());
}

#[test]
fn declines_persist_up_the_damage_axis_of_an_accepted_map() {
    let v = accept(&golden_image(), GOLDEN_CHARGE_HASH).expect("golden accepts");
    for lb in 0..LEN_BANDS {
        for gb in 0..GRAD_BANDS {
            let mut declined = false;
            for db in 0..DMG_BANDS {
                match v.map.command(lb, gb, db) {
                    None => declined = true,
                    Some(_) => assert!(!declined, "un-declined at ({}, {}, {})", lb, gb, db),
                }
            }
        }
    }
}
