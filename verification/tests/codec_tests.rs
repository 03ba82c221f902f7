use sudoku_sat::decode;
use sudoku_sat::encode;

#[test]
fn encode_then_decode_returns_the_triple() {
    for r in 0..9 {
        for c in 0..9 {
            for d in 0..9 {
                let id = encode(r, c, d);
                assert!(id < 729);
                assert_eq!(decode(id), (r, c, d));
            }
        }
    }
}

#[test]
fn decode_then_encode_returns_the_id() {
    for id in 0..729 {
        let (r, c, d) = decode(id);
        assert!(r < 9 && c < 9 && d < 9);
        assert_eq!(encode(r, c, d), id);
    }
}

#[test]
fn encode_is_injective() {
    let mut seen = vec![false; 729];
    for r in 0..9 {
        for c in 0..9 {
            for d in 0..9 {
                let id = encode(r, c, d);
                assert!(!seen[id]);
                seen[id] = true;
            }
        }
    }
    assert!(seen.iter().all(|&b| b));
}

#[test]
fn encode_matches_formula() {
    assert_eq!(encode(0, 0, 0), 0);
    assert_eq!(encode(0, 0, 8), 8);
    assert_eq!(encode(0, 1, 0), 9);
    assert_eq!(encode(1, 0, 0), 81);
    assert_eq!(encode(8, 8, 8), 728);
    assert_eq!(encode(2, 3, 4), 2 * 81 + 3 * 9 + 4);
}
