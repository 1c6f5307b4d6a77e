use fatalloc::shim::{
    outer_layout_and_margin, AllocInfo, KEY_CANARY, KEY_MARGIN, KEY_SIZE,
};
use fatalloc::{demangle, mangle};

#[test]
fn mangle_matches_rotate_and_xor() {
    assert_eq!(mangle(2, 3), 2u64.rotate_left(13) ^ 3);
    assert_eq!(mangle(0, 0), 0);
    assert_eq!(
        mangle(0xdead_beef_0123_4567, KEY_MARGIN),
        0xdead_beef_0123_4567u64.rotate_left(13) ^ KEY_MARGIN
    );
}

#[test]
fn demangle_inverts_mangle() {
    let samples = [0u64, 1, 128, 0xdead_beef, u64::MAX, 0x8000_0000_0000_0001];
    let keys = [0u64, KEY_MARGIN, KEY_SIZE, KEY_CANARY, u64::MAX];
    for &x in samples.iter() {
        for &k in keys.iter() {
            assert_eq!(demangle(mangle(x, k), k), x);
            assert_eq!(mangle(demangle(x, k), k), x);
        }
    }
}

#[test]
fn small_layout_gets_default_margin() {
    let r = outer_layout_and_margin(100, 8);
    assert_eq!(r, Some((100 + 256, 8, 128)));
}

#[test]
fn large_alignment_becomes_the_margin() {
    let r = outer_layout_and_margin(100, 4096);
    assert_eq!(r, Some((100 + 8192, 4096, 4096)));
}

#[test]
fn one_alignment_is_padded_up() {
    let r = outer_layout_and_margin(1, 1);
    assert_eq!(r, Some((1 + 256, 8, 128)));
}

#[test]
fn oversized_layout_is_refused() {
    assert_eq!(outer_layout_and_margin(u64::MAX - 300, 8), None);
    assert_eq!(outer_layout_and_margin(0x7fff_ffff_ffff_ffff, 8), None);
    assert_eq!(outer_layout_and_margin(100, 1u64 << 63), None);
}

#[test]
fn metadata_round_trip_reconstructs_the_record() {
    let info = AllocInfo { margin: 128, user_size: 7, outer_addr: 4096 };
    let user_ptr = info.user_ptr();
    assert_eq!(user_ptr, 4096 + 128);
    let (margin_word, size_word, canary_word) = info.encode_meta();
    assert_ne!(margin_word, info.margin);
    assert_ne!(size_word, info.user_size);
    let back = AllocInfo::from_raw_meta(user_ptr, margin_word, size_word).unwrap();
    assert_eq!(back, info);
    assert_eq!(back.user_ptr(), user_ptr);
    assert!(AllocInfo::canary_ok(user_ptr, canary_word));
}

#[test]
fn metadata_round_trip_with_large_margin() {
    let info = AllocInfo { margin: 1 << 20, user_size: 123456, outer_addr: 0x7000_0000 };
    let user_ptr = info.user_ptr();
    let (margin_word, size_word, canary_word) = info.encode_meta();
    let back = AllocInfo::from_raw_meta(user_ptr, margin_word, size_word).unwrap();
    assert_eq!(back, info);
    assert!(AllocInfo::canary_ok(user_ptr, canary_word));
}

#[test]
fn corrupted_margin_word_is_rejected() {
    let info = AllocInfo { margin: 128, user_size: 7, outer_addr: 4096 };
    let user_ptr = info.user_ptr();
    let (margin_word, size_word, _) = info.encode_meta();
    // A margin word whose demangled value is no power of two.
    let r = AllocInfo::from_raw_meta(user_ptr, margin_word ^ 1 << 20, size_word);
    assert_eq!(r, Err("metadata corrupted"));
    // The right words read at the wrong address fail too: the keys are
    // derived from the user pointer.
    let r = AllocInfo::from_raw_meta(user_ptr + 8, margin_word, size_word);
    assert_eq!(r, Err("metadata corrupted"));
}

#[test]
fn margin_reaching_address_zero_is_rejected() {
    let info = AllocInfo { margin: 128, user_size: 0, outer_addr: 4096 };
    let (margin_word, size_word, _) = info.encode_meta();
    // Forge the same mangled margin beside user pointer 128: the outer
    // allocation would start at address zero.
    let forged = mangle(128, 128 ^ KEY_MARGIN);
    let r = AllocInfo::from_raw_meta(128, forged, size_word);
    assert_eq!(r, Err("null"));
    let _ = margin_word;
}

#[test]
fn overrun_canary_is_detected() {
    let info = AllocInfo { margin: 128, user_size: 7, outer_addr: 4096 };
    let user_ptr = info.user_ptr();
    let (_, _, canary_word) = info.encode_meta();
    assert!(AllocInfo::canary_ok(user_ptr, canary_word));
    assert!(!AllocInfo::canary_ok(user_ptr, canary_word ^ 1));
    assert!(!AllocInfo::canary_ok(user_ptr, 0));
}
