use thunfisch::transposition_table::{
    Bound, DecodedTTEntry, EncodedHashEntry, TTInfo, TranspositionTable, MATE_SCORE,
};
use thunfisch::types::EncodedMove;

#[test]
fn test_ttinfo_encoding() {
    let info = TTInfo::encode(13, Bound::Exact, true);
    assert_eq!(info.age(), 13);
    assert_eq!(info.bound(), Bound::Exact);
    assert!(info.pv());

    let info2 = TTInfo::encode(31, Bound::Upper, false);
    assert_eq!(info2.age(), 31);
    assert_eq!(info2.bound(), Bound::Upper);
    assert!(!info2.pv());
}

#[test]
fn test_tt_entry_packing() {
    let info = TTInfo::encode(7, Bound::Lower, true);
    let entry = DecodedTTEntry {
        key: 0xABCD,
        best_move: EncodedMove(0x1234),
        score: -150,
        depth: 8,
        info,
    };

    let packed = entry.to_u64();
    let unpacked = DecodedTTEntry::from_internal(EncodedHashEntry { data: packed });

    assert_eq!(unpacked.key, 0xABCD);
    assert_eq!(unpacked.best_move.0, 0x1234);
    assert_eq!(unpacked.score, -150);
    assert_eq!(unpacked.depth, 8);
    assert_eq!(unpacked.info.age(), 7);
    assert_eq!(unpacked.info.bound(), Bound::Lower);
    assert!(unpacked.info.pv());
}

#[test]
fn test_tt_store_and_probe() {
    let mut tt = TranspositionTable::new(1);
    let hash = 0x1234567890ABCDEF;
    let mv = EncodedMove(42);

    tt.store(hash, Some(mv), 100, 5, 0, Bound::Exact, true);

    let probed = tt.probe(hash, 0).expect("Entry should be present");
    assert_eq!(probed.score(), 100);
    assert_eq!(probed.depth(), 5);
    assert_eq!(probed.bound(), Bound::Exact);
    assert!(probed.info.pv());
    assert_eq!(probed.best_move().unwrap(), mv);

    assert!(tt.probe(hash ^ (1 << 50), 0).is_none());
}

#[test]
fn test_mate_score_adjustment_comprehensive() {
    let mut tt = TranspositionTable::new(1);
    let hash_win = 0xAAABBBCCCDDDEEEF;
    let hash_loss = 0x1112223334445556;
    let mv = EncodedMove(111);

    let mate_in_5 = MATE_SCORE - 5;
    tt.store(hash_win, Some(mv), mate_in_5, 10, 2, Bound::Exact, false);

    let probed_win_same_ply = tt.probe(hash_win, 2).unwrap();
    assert_eq!(probed_win_same_ply.score(), mate_in_5);

    let probed_win_deeper = tt.probe(hash_win, 4).unwrap();
    assert_eq!(probed_win_deeper.score(), MATE_SCORE - 7);

    let mated_in_5 = -MATE_SCORE + 5;
    tt.store(hash_loss, Some(mv), mated_in_5, 10, 2, Bound::Exact, false);

    let probed_loss_same_ply = tt.probe(hash_loss, 2).unwrap();
    assert_eq!(probed_loss_same_ply.score(), mated_in_5);

    let probed_loss_deeper = tt.probe(hash_loss, 4).unwrap();
    assert_eq!(probed_loss_deeper.score(), -MATE_SCORE + 7);
}

#[test]
fn test_priority_replacement_same_age() {
    let mut tt = TranspositionTable::new(1);
    let hash = 0x5555666677778888;
    let mv_deep = EncodedMove(10);
    let mv_shallow = EncodedMove(20);

    tt.store(hash, Some(mv_deep), 100, 10, 1, Bound::Exact, false);
    tt.store(hash, Some(mv_shallow), 200, 2, 1, Bound::Exact, false);

    let probed = tt.probe(hash, 1).unwrap();
    assert_eq!(probed.depth(), 10);
    assert_eq!(probed.score(), 100);
}

#[test]
fn test_priority_replacement_with_aging() {
    let mut tt = TranspositionTable::new(1);
    let hash = 0x5555666677778888;
    let mv_deep = EncodedMove(10);
    let mv_shallow = EncodedMove(20);

    tt.store(hash, Some(mv_deep), 100, 10, 1, Bound::Exact, false);

    for _ in 0..10 {
        tt.increase_age();
    }

    tt.store(hash, Some(mv_shallow), 200, 2, 1, Bound::Exact, false);

    let probed = tt.probe(hash, 1).unwrap();
    assert_eq!(probed.depth(), 2);
    assert_eq!(probed.score(), 200);
    assert_eq!(probed.best_move().unwrap(), mv_shallow);
}

#[test]
fn test_exact_bound_overrides_non_exact() {
    let mut tt = TranspositionTable::new(1);
    let hash = 0x1111222233334444;

    tt.store(hash, Some(EncodedMove(1)), 50, 6, 0, Bound::Upper, false);
    tt.store(hash, Some(EncodedMove(2)), 100, 2, 0, Bound::Exact, false);

    let probed = tt.probe(hash, 0).unwrap();
    assert_eq!(probed.depth(), 2);
    assert_eq!(probed.score(), 100);
    assert_eq!(probed.bound(), Bound::Exact);
    assert_eq!(probed.best_move().unwrap(), EncodedMove(2));
}

#[test]
fn test_different_position_always_replaced() {
    let mut tt = TranspositionTable::new(1);
    let hash1 = 0x1234567890ABCDEF_u64;
    let idx = (hash1 as usize) & (tt.entries.len() - 1);
    let hash2 = (hash1 & !(0xFFFF << 48)) | (0xAAAA_u64 << 48);
    assert_eq!((hash2 as usize) & (tt.entries.len() - 1), idx);
    assert_ne!((hash1 >> 48) as u16, (hash2 >> 48) as u16);

    tt.store(hash1, Some(EncodedMove(1)), 500, 20, 0, Bound::Exact, true);
    tt.store(hash2, Some(EncodedMove(2)), 100, 1, 0, Bound::Upper, false);

    let probed = tt.probe(hash2, 0).unwrap();
    assert_eq!(probed.depth(), 1);
    assert_eq!(probed.score(), 100);
}

#[test]
fn test_best_move_retained_from_previous_entry() {
    let mut tt = TranspositionTable::new(1);
    let hash = 0xAAAABBBBCCCCDDDD;
    let mv = EncodedMove(42);

    tt.store(hash, Some(mv), 100, 5, 0, Bound::Exact, false);
    tt.store(hash, None, 200, 10, 0, Bound::Exact, false);

    let probed = tt.probe(hash, 0).unwrap();
    assert_eq!(probed.depth(), 10);
    assert_eq!(probed.score(), 200);
    assert_eq!(probed.best_move().unwrap(), mv);
}

#[test]
fn clear_empties_every_slot() {
    let mut tt = TranspositionTable::new(1);
    let hash = 0x0F0F0F0F0F0F0F0F;
    tt.store(hash, Some(EncodedMove(7)), 33, 4, 0, Bound::Lower, false);
    assert!(tt.probe(hash, 0).is_some());
    tt.clear();
    assert!(tt.probe(hash, 0).is_none());
}

#[test]
fn age_wraps_after_thirty_one() {
    let mut tt = TranspositionTable::new(1);
    for _ in 0..31 {
        tt.increase_age();
    }
    assert_eq!(tt.get_age(), 31);
    tt.increase_age();
    assert_eq!(tt.get_age(), 0);
}

#[test]
fn a_cleared_table_answers_no_probe() {
    let mut tt = TranspositionTable::new(1);
    let hashes = [0x1234_0000_0000_0001u64, 0xffff_0000_0000_0042, 0x0001_dead_beef_0000];
    for (i, &h) in hashes.iter().enumerate() {
        tt.store(h, Some(EncodedMove(7)), 50 + i as i32, 3, 0, Bound::Exact, false);
    }
    tt.increase_age();
    tt.clear();
    for &h in hashes.iter() {
        for ply in [0, 5, 100] {
            assert!(tt.probe(h, ply).is_none());
        }
    }
}
