use lib::rank_select::RankSelectIndex;

fn naive_rank(b: u64, x: u8) -> u8 {
    let mut acc: u8 = 0;
    for i in 0..x + 1 {
        acc += ((b >> (63 - i)) & 1) as u8;
    }
    acc
}

fn naive_select(b: u64, x: u8) -> u8 {
    let mut acc: u8 = 0;
    for i in 0..64 {
        acc += ((b >> (63 - i)) & 1) as u8;
        if acc == x {
            return i;
        }
    }
    64
}

#[test]
fn test_rank() {
    let bits = 0b1011101010110101000100010010111011111100100111010111110111001011;
    let idx = RankSelectIndex::new(bits);
    for i in 0..64 {
        let expect = naive_rank(bits, i);
        let ans = RankSelectIndex::rank(&idx, i);
        assert_eq!(expect, ans);
    }
}

#[test]
fn test_select() {
    let bits = 0b1011101010110101000100010010111011111100100111010111110111001011;
    let pop = naive_rank(bits, 63);
    let idx = RankSelectIndex::new(bits);
    for i in 1..pop + 1 {
        let expect = naive_select(bits, i);
        let ans = RankSelectIndex::select(&idx, i);
        assert_eq!(expect, ans);
    }
}

#[test]
fn select_edge_cases() {
    let bits = 0b1011101010110101000100010010111011111100100111010111110111001011u64;
    let idx = RankSelectIndex::new(bits);
    // more than the 38 set bits
    assert_eq!(RankSelectIndex::select(&idx, 39), 100);
    assert_eq!(RankSelectIndex::select(&idx, 200), 100);
    // x == 0: 2 when bit 0 is set, 0 when it is clear
    assert_eq!(RankSelectIndex::select(&idx, 0), 2);
    let idx = RankSelectIndex::new(bits >> 1);
    assert_eq!(RankSelectIndex::select(&idx, 0), 0);
    // the last position
    let idx = RankSelectIndex::new(1);
    assert_eq!(RankSelectIndex::select(&idx, 1), 63);
    assert_eq!(RankSelectIndex::rank(&idx, 63), 1);
    assert_eq!(RankSelectIndex::rank(&idx, 62), 0);
}

#[test]
fn rank_select_full_and_empty() {
    let full = RankSelectIndex::new(u64::MAX);
    for i in 0..64u8 {
        assert_eq!(RankSelectIndex::rank(&full, i), i + 1);
        assert_eq!(RankSelectIndex::select(&full, i + 1), i);
    }
    let empty = RankSelectIndex::new(0);
    for i in 0..64u8 {
        assert_eq!(RankSelectIndex::rank(&empty, i), 0);
    }
    assert_eq!(RankSelectIndex::select(&empty, 1), 100);
    assert_eq!(RankSelectIndex::select(&empty, 0), 0);
}

#[test]
fn rank_of_select_is_identity() {
    let bits = 0xf6f155aafb99c000u64;
    let idx = RankSelectIndex::new(bits);
    let pop = bits.count_ones() as u8;
    for k in 1..=pop {
        let p = RankSelectIndex::select(&idx, k);
        assert_eq!(RankSelectIndex::rank(&idx, p), k);
        assert_eq!((bits >> (63 - p)) & 1, 1);
    }
}

#[test]
fn tables_of_new() {
    let bits = 0b1011101010110101000100010010111011111100100111010111110111001011u64;
    let idx = RankSelectIndex::new(bits);
    assert_eq!(idx.b, bits);
    assert_eq!(idx.r1, [0, 19]);
    assert_eq!(idx.tree[0], 38);
    assert_eq!(idx.tree[1] + idx.tree[2] + idx.tree[3], 38);
}
