use lib::balanced_paren::BP;

fn test_find_close_aux(paren: &str) {
    let bp = BP::of_string(paren.to_string());
    for i in 0..paren.len() {
        if (bp.p >> (63 - i)) == 1 {
            // Case of open paren
            let expect = BP::naive_find_close(bp.p, i as u8);
            let ans = BP::find_close(&bp, i as u8);
            assert_eq!(expect, ans);
        }
    }
}

#[test]
fn test_find_close1() {
    let paren = "((()()())(()()))";
    test_find_close_aux(paren);
}

#[test]
fn test_find_close2() {
    let paren = "(((((((((((((((((((((((((((((((())))))))))))))))))))))))))))))))";
    test_find_close_aux(paren);
}

#[test]
fn test_find_close3() {
    let paren = "(((()(()(((()))()()()()(()()()()((((()((())(())((())))))))))))))";
    test_find_close_aux(paren);
}

fn closes_of_every_open(paren: &str) -> Vec<u8> {
    let bp = BP::of_string(paren.to_string());
    let mut out = Vec::new();
    for i in 0..paren.len() {
        if (bp.p >> (63 - i)) & 1 == 1 {
            let expect = BP::naive_find_close(bp.p, i as u8);
            let ans = BP::find_close(&bp, i as u8);
            assert_eq!(expect, ans);
            out.push(ans);
        }
    }
    out
}

#[test]
fn find_close_every_open_short() {
    assert_eq!(closes_of_every_open("((()()())(()()))"), vec![15, 8, 3, 5, 7, 14, 11, 13]);
}

#[test]
fn find_close_every_open_nested() {
    let expect: Vec<u8> = (32..64).rev().collect();
    assert_eq!(
        closes_of_every_open("(((((((((((((((((((((((((((((((())))))))))))))))))))))))))))))))"),
        expect
    );
}

#[test]
fn find_close_every_open_mixed() {
    assert_eq!(
        closes_of_every_open("(((()(()(((()))()()()()(()()()()((((()((())(())((())))))))))))))"),
        vec![
            63, 62, 61, 4, 60, 7, 59, 14, 13, 12, 16, 18, 20, 22, 58, 25, 27, 29, 31, 57, 56, 55,
            54, 37, 53, 42, 41, 46, 45, 52, 51, 50
        ]
    );
}

#[test]
fn find_close_near_pair() {
    // "()" is closed in its own block
    let bp = BP::of_string("(()(()))".to_string());
    assert_eq!(BP::find_close(&bp, 0), 7);
    assert_eq!(BP::find_close(&bp, 1), 2);
    assert_eq!(BP::find_close(&bp, 3), 6);
    assert_eq!(BP::find_close(&bp, 4), 5);
}

#[test]
fn of_string_words() {
    assert_eq!(BP::of_string("((()()())(()()))".to_string()).p, 0xea68000000000000);
    assert_eq!(BP::of_string("()".to_string()).p, 0x8000000000000000);
    // leading ")" are shifted out
    assert_eq!(BP::of_string(")(()".to_string()).p, 0xc000000000000000);
    let sixty_four = "(((((((((((((((((((((((((((((((())))))))))))))))))))))))))))))))";
    assert_eq!(BP::of_string(sixty_four.to_string()).p, 0xffffffff00000000);
}

#[test]
fn naive_find_close_cases() {
    let p = 0xea68000000000000u64; // ((()()())(()()))
    assert_eq!(BP::naive_find_close(p, 0), 15);
    assert_eq!(BP::naive_find_close(p, 1), 8);
    // a `)` at idx: the position before the first unmatched `)`
    assert_eq!(BP::naive_find_close(p, 3), 15);
    // past the end of the pairs
    assert_eq!(BP::naive_find_close(p, 40), 15);
    // the word is shifted left first
    assert_eq!(BP::naive_find_close(0x000000000000ea68u64, 1), 8);
    // an unmatched `(` with no unmatched `)` anywhere
    assert_eq!(BP::naive_find_close(0xffffffffffffffffu64, 3), 100);
}

#[test]
fn ith_opening_paren_positions() {
    let bp = BP::of_string("((()()())(()()))".to_string());
    let got: Vec<u8> = (0..8).map(|i| BP::ith_opening_paren(&bp, i)).collect();
    assert_eq!(got, vec![0, 1, 2, 4, 6, 9, 10, 12]);
    assert_eq!(BP::ith_opening_paren(&bp, 8), 100);
}

#[test]
fn render_text() {
    let bp = BP::of_string("(()(()))".to_string());
    let text: String = BP::render(&bp).into_iter().collect();
    assert_eq!(text, "(()(()))");
    let bp = BP::of_string("()()".to_string());
    let text: String = BP::render(&bp).into_iter().collect();
    assert_eq!(text, "()()");
}

#[test]
fn new_marks_pioneers() {
    let bp = BP::new(0xea68000000000000);
    assert_eq!(bp.p, 0xea68000000000000);
    assert_eq!(bp.p_idx.b, 0xea68000000000000);
}

#[test]
fn find_close_first_pair_near() {
    // the first pair closes in its own block, far pairs come later
    let bp = BP::of_string("()(())".to_string());
    assert_eq!(BP::find_close(&bp, 2), 5);
    assert_eq!(BP::find_close(&bp, 2), BP::naive_find_close(bp.p, 2));
    assert_eq!(closes_of_every_open("()(())"), vec![1, 5, 4]);
    assert_eq!(closes_of_every_open("()()((()()))(())"), vec![1, 3, 11, 10, 7, 9, 15, 14]);
    assert_eq!(closes_of_every_open("()((()))()"), vec![1, 7, 6, 5, 9]);
}
