use osrjit::token::{match_table, tokenize, Token};

#[test]
fn unfolded_tokens_one_per_char() {
    let t = tokenize("+++", 0);
    assert_eq!(t, vec![Token::Add(1), Token::Add(1), Token::Add(1)]);
}

#[test]
fn folded_tokens_merge_runs() {
    let t = tokenize("+++", 1);
    assert_eq!(t, vec![Token::Add(3)]);
    let t = tokenize(">>><<", 1);
    assert_eq!(t, vec![Token::Forward(3), Token::Backward(2)]);
}

#[test]
fn comment_breaks_a_run() {
    let t = tokenize("+x+", 1);
    assert_eq!(t, vec![Token::Add(1), Token::Add(1)]);
}

#[test]
fn fold_count_wraps_modulo_256() {
    let mut s = String::new();
    for _ in 0..300 {
        s.push('+');
    }
    let t = tokenize(&s, 1);
    assert_eq!(t, vec![Token::Add(44)]);
}

#[test]
fn comments_dropped_loops_and_io_kept() {
    let t = tokenize("a[b]c.,\n", 0);
    assert_eq!(
        t,
        vec![Token::LoopBegin, Token::LoopEnd, Token::Output, Token::Input]
    );
}

#[test]
fn loops_never_fold() {
    let t = tokenize("[[]]", 1);
    assert_eq!(
        t,
        vec![
            Token::LoopBegin,
            Token::LoopBegin,
            Token::LoopEnd,
            Token::LoopEnd
        ]
    );
}

#[test]
fn match_table_pairs_nested_loops() {
    let t = tokenize("[[]]", 0);
    let mt = match_table(&t);
    assert_eq!(mt, vec![3, 2, 1, 0]);
}

#[test]
fn match_table_pairs_sibling_loops() {
    let t = tokenize("[][]", 0);
    let mt = match_table(&t);
    assert_eq!(mt, vec![1, 0, 3, 2]);
}
