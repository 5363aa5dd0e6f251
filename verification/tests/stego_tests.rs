use universal_converter::stego::{
    bit_at, bits_number, bits_of, block_order, capacity_bytes, decode_text, embed_plan, extract_order,
    payload_repeat, read_length, vote_index, StegoError, HEADER_BITS, HEADER_BLOCKS, HEADER_REPEAT,
};

#[test]
fn capacite_annoncee_et_refus_clair() {
    assert!(capacity_bytes(640, 480) > 60);
    let err = embed_plan(&"x".repeat(200), 64, 64).unwrap_err();
    assert!(matches!(err, StegoError::TooSmall { wanted: 200, .. }));
    let msg = err.message();
    assert!(msg.contains("trop petite"), "message peu clair : {msg}");
    assert_eq!(
        StegoError::TooSmall { capacity: 86, wanted: 200 }.message(),
        "Image trop petite pour cette signature : 86 caractères possibles, 200 demandés"
    );
}

#[test]
fn capacity_formula() {
    // 80 x 60 = 4800 blocks; (4800 - 640) / 6 / 8 = 86.
    assert_eq!(capacity_bytes(640, 480), 86);
    assert_eq!(capacity_bytes(64, 64), 0);
}

#[test]
fn plan_refuses_empty_and_long_texts() {
    assert!(matches!(embed_plan("", 640, 480), Err(StegoError::Empty)));
    assert!(matches!(embed_plan(&"a".repeat(513), 4000, 4000), Err(StegoError::TooLong)));
}

/// Writes a message by its plan, reads the signs back block by block as the
/// reader visits them, and decodes the same text.
#[test]
fn signature_plan_relue_a_l_identique() {
    let text = "© Momo 2026 — ForgeInformatique";
    let plan = embed_plan(text, 640, 480).unwrap();
    let order = extract_order(640, 480).unwrap();
    for (s, (block, _)) in plan.iter().enumerate() {
        assert_eq!(order[s], *block);
    }
    let header: Vec<bool> = (0..HEADER_BITS).map(|j| plan[j * HEADER_REPEAT].1).collect();
    let blocks = order.len();
    let (len, repeat) = read_length(&header, blocks).unwrap();
    assert_eq!(len, text.len());
    let pb = len * 8;
    let mut ones = vec![0usize; pb];
    let mut votes = vec![0usize; pb];
    for (s, (_, bit)) in plan.iter().enumerate() {
        if let Some(k) = vote_index(s, pb, repeat) {
            votes[k] += 1;
            if *bit {
                ones[k] += 1;
            }
        }
    }
    let signs: Vec<bool> = (0..pb).map(|k| ones[k] * 2 > votes[k]).collect();
    assert_eq!(decode_text(&signs, len).unwrap(), text);
}

#[test]
fn bits_carry_length_then_bytes() {
    let bits = bits_of(b"A");
    assert_eq!(bits.len(), 16 + 8);
    assert_eq!(bits_number(&bits[..16]), 1);
    assert_eq!(bits_number(&bits[16..]), 65);
}

#[test]
fn block_order_is_a_permutation() {
    let mut order = block_order(1000);
    assert_eq!(order.len(), 1000);
    order.sort();
    assert_eq!(order, (0..1000).collect::<Vec<_>>());
}

#[test]
fn header_slots_repeat_each_bit() {
    let bits = bits_of(b"Z");
    for s in 0..HEADER_BLOCKS {
        assert_eq!(bit_at(&bits, s, 6), Some(bits[s / HEADER_REPEAT]));
    }
}

#[test]
fn repeat_is_capped_and_needs_room() {
    assert_eq!(payload_repeat(640, 8), 0);
    assert_eq!(payload_repeat(640 + 80, 8), 10);
    assert_eq!(payload_repeat(100_000, 8), 96);
    assert_eq!(payload_repeat(1000, 0), 0);
}

#[test]
fn unreadable_and_missing_signatures() {
    let zeros = vec![false; 16];
    assert!(matches!(read_length(&zeros, 5000), Err(StegoError::NotFound)));
    let invalid = vec![true; 8];
    assert!(matches!(decode_text(&invalid, 1), Err(StegoError::Unreadable)));
    assert!(matches!(extract_order(32, 32), Err(StegoError::ImageTooSmall)));
}
