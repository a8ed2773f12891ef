use vstd::prelude::*;
use vstd::std_specs::iter::IteratorSpec;

verus! {

broadcast use {vstd::string::axiom_spec_iter, vstd::string::next_postcondition};

/// One operation of the tape machine. `Forward`/`Backward` move the data
/// pointer, `Add`/`Sub` change the byte under it (wrapping modulo 256),
/// `Output`/`Input` perform one byte of I/O, and the loop delimiters mark a
/// conditional region. Repetition counts come from run-length folding; at
/// optimization level 0 every count is 1.
#[derive(Copy, Clone, Debug, PartialEq, Eq, Structural)]
pub enum Token {
    Forward(u32),
    Backward(u32),
    Add(u8),
    Sub(u8),
    Output,
    Input,
    LoopBegin,
    LoopEnd,
}

/// Characters whose runs may be folded into a single counted token.
pub open spec fn is_fold_char(c: char) -> bool {
    c == '+' || c == '-' || c == '<' || c == '>'
}

/// The token a single operator character stands for; `None` for a comment
/// character, which the tokenizer drops silently.
pub open spec fn token_of(c: char) -> Option<Token> {
    if c == '>' {
        Some(Token::Forward(1))
    } else if c == '<' {
        Some(Token::Backward(1))
    } else if c == '+' {
        Some(Token::Add(1))
    } else if c == '-' {
        Some(Token::Sub(1))
    } else if c == '.' {
        Some(Token::Output)
    } else if c == ',' {
        Some(Token::Input)
    } else if c == '[' {
        Some(Token::LoopBegin)
    } else if c == ']' {
        Some(Token::LoopEnd)
    } else {
        None
    }
}

/// Number of leading characters of `s` equal to `c`.
pub open spec fn run_len(s: Seq<char>, c: char) -> nat
    decreases s.len(),
{
    if s.len() > 0 && s[0] == c {
        1 + run_len(s.drop_first(), c)
    } else {
        0
    }
}

pub proof fn lemma_run_len_le(s: Seq<char>, c: char)
    ensures
        run_len(s, c) <= s.len(),
    decreases s.len(),
{
    if s.len() > 0 && s[0] == c {
        lemma_run_len_le(s.drop_first(), c);
    }
}

/// The token a run of `k` consecutive characters `c` folds to. Cell deltas
/// are kept in one byte and wrap modulo 256; pointer shifts are kept in 32
/// bits.
pub open spec fn fold_token(c: char, k: nat) -> Token {
    if c == '>' {
        Token::Forward((k % 0x1_0000_0000) as u32)
    } else if c == '<' {
        Token::Backward((k % 0x1_0000_0000) as u32)
    } else if c == '+' {
        Token::Add((k % 256) as u8)
    } else {
        Token::Sub((k % 256) as u8)
    }
}

/// The token sequence of a source text. At optimization level 0 each operator
/// character yields one token with count 1; at level 1 or above, maximal runs
/// of identical `+`, `-`, `<`, `>` characters are folded into one counted
/// token. Loop delimiters and I/O operators are never folded, and non-operator
/// characters are dropped.
pub open spec fn spec_tokenize(s: Seq<char>, opt_level: u8) -> Seq<Token>
    decreases s.len(),
    via spec_tokenize_decreases
{
    if s.len() == 0 {
        Seq::empty()
    } else {
        let c = s[0];
        if opt_level > 0 && is_fold_char(c) {
            let k = 1 + run_len(s.drop_first(), c);
            seq![fold_token(c, k)] + spec_tokenize(s.skip(k as int), opt_level)
        } else {
            match token_of(c) {
                Some(t) => seq![t] + spec_tokenize(s.drop_first(), opt_level),
                None => spec_tokenize(s.drop_first(), opt_level),
            }
        }
    }
}

#[via_fn]
proof fn spec_tokenize_decreases(s: Seq<char>, opt_level: u8) {
    if s.len() > 0 {
        lemma_run_len_le(s.drop_first(), s[0]);
    }
}

/// Number of occurrences of `c` in `s`.
pub open spec fn count_char(s: Seq<char>, c: char) -> nat
    decreases s.len(),
{
    if s.len() == 0 {
        0
    } else {
        (if s[0] == c {
            1nat
        } else {
            0nat
        }) + count_char(s.drop_first(), c)
    }
}

/// Number of `LoopEnd` tokens in `t`.
pub open spec fn count_loop_ends(t: Seq<Token>) -> nat
    decreases t.len(),
{
    if t.len() == 0 {
        0
    } else {
        (if t[0] is LoopEnd {
            1nat
        } else {
            0nat
        }) + count_loop_ends(t.drop_first())
    }
}

/// Bracket well-formedness of a source, with `depth` brackets currently open:
/// no prefix closes more brackets than were opened, and all are closed at the
/// end.
pub open spec fn wb_chars(s: Seq<char>, depth: nat) -> bool
    decreases s.len(),
{
    if s.len() == 0 {
        depth == 0
    } else if s[0] == '[' {
        wb_chars(s.drop_first(), depth + 1)
    } else if s[0] == ']' {
        depth > 0 && wb_chars(s.drop_first(), (depth - 1) as nat)
    } else {
        wb_chars(s.drop_first(), depth)
    }
}

/// The source's brackets are balanced.
pub open spec fn src_balanced(s: Seq<char>) -> bool {
    wb_chars(s, 0)
}

/// Bracket well-formedness of a token sequence, with `depth` loops open.
pub open spec fn wb_tokens(t: Seq<Token>, depth: nat) -> bool
    decreases t.len(),
{
    if t.len() == 0 {
        depth == 0
    } else {
        match t[0] {
            Token::LoopBegin => wb_tokens(t.drop_first(), depth + 1),
            Token::LoopEnd => depth > 0 && wb_tokens(t.drop_first(), (depth - 1) as nat),
            _ => wb_tokens(t.drop_first(), depth),
        }
    }
}

/// The token sequence's loop delimiters are balanced.
pub open spec fn well_bracketed(t: Seq<Token>) -> bool {
    wb_tokens(t, 0)
}

/// Collects the characters of a string into a vector, in order.
pub fn chars_vec(s: &str) -> (r: Vec<char>)
    ensures
        r@ == s@,
{
    let mut it = s.chars();
    let mut r: Vec<char> = Vec::new();
    let mut done = false;
    while !done
        invariant
            r@ + it.remaining() == s@,
            done ==> it.remaining().len() == 0,
        decreases s@.len() - r@.len() + (if done { 0int } else { 1int }),
    {
        match it.next() {
            Some(c) => {
                r.push(c);
            },
            None => {
                done = true;
            },
        }
    }
    proof {
        assert(r@ =~= s@);
    }
    r
}

pub proof fn lemma_run_len_charact(s: Seq<char>, c: char, m: nat)
    requires
        m <= s.len(),
        forall|x: int| 0 <= x < m ==> s[x] == c,
        m == s.len() || s[m as int] != c,
    ensures
        run_len(s, c) == m,
    decreases m,
{
    if m == 0 {
    } else {
        assert(s[0] == c);
        lemma_run_len_charact(s.drop_first(), c, (m - 1) as nat);
    }
}

pub proof fn lemma_run_len_chars(s: Seq<char>, c: char)
    ensures
        forall|x: int| 0 <= x < run_len(s, c) ==> s[x] == c,
    decreases s.len(),
{
    if s.len() > 0 && s[0] == c {
        lemma_run_len_le(s, c);
        lemma_run_len_chars(s.drop_first(), c);
        assert forall|x: int| 0 <= x < run_len(s, c) implies s[x] == c by {
            if x > 0 {
                assert(s.drop_first()[x - 1] == s[x]);
            }
        }
    }
}

/// Dropping a leading run of a non-bracket, non-`]` character changes neither
/// the `]` count nor bracket well-formedness.
pub proof fn lemma_skip_run(s: Seq<char>, c: char, k: nat, d: nat)
    requires
        k <= s.len(),
        forall|x: int| 0 <= x < k ==> s[x] == c,
        c != '[' && c != ']',
    ensures
        count_char(s.skip(k as int), ']') == count_char(s, ']'),
        wb_chars(s.skip(k as int), d) == wb_chars(s, d),
    decreases k,
{
    if k == 0 {
        assert(s.skip(0) =~= s);
    } else {
        assert(s[0] == c);
        assert(s.skip(k as int) =~= s.drop_first().skip(k as int - 1));
        lemma_skip_run(s.drop_first(), c, (k - 1) as nat, d);
    }
}

/// Tokenization never yields more tokens than source characters.
pub proof fn lemma_tokenize_len(s: Seq<char>, opt_level: u8)
    ensures
        spec_tokenize(s, opt_level).len() <= s.len(),
    decreases s.len(),
{
    if s.len() > 0 {
        let c = s[0];
        if opt_level > 0 && is_fold_char(c) {
            let k = 1 + run_len(s.drop_first(), c);
            lemma_run_len_le(s.drop_first(), c);
            lemma_tokenize_len(s.skip(k as int), opt_level);
        } else {
            lemma_tokenize_len(s.drop_first(), opt_level);
        }
    }
}

/// The tokenizer emits exactly one `LoopEnd` per `]` character, at every
/// optimization level.
pub proof fn lemma_tokenize_count(s: Seq<char>, opt_level: u8)
    ensures
        count_loop_ends(spec_tokenize(s, opt_level)) == count_char(s, ']'),
    decreases s.len(),
{
    if s.len() == 0 {
    } else {
        let c = s[0];
        if opt_level > 0 && is_fold_char(c) {
            let k = 1 + run_len(s.drop_first(), c);
            lemma_run_len_le(s.drop_first(), c);
            lemma_run_len_chars(s.drop_first(), c);
            assert forall|x: int| 0 <= x < k implies s[x] == c by {
                if x > 0 {
                    assert(s.drop_first()[x - 1] == s[x]);
                }
            }
            lemma_skip_run(s, c, k, 0);
            lemma_tokenize_count(s.skip(k as int), opt_level);
            let rest = spec_tokenize(s.skip(k as int), opt_level);
            assert((seq![fold_token(c, k)] + rest).drop_first() =~= rest);
        } else {
            lemma_tokenize_count(s.drop_first(), opt_level);
            match token_of(c) {
                Some(t) => {
                    let rest = spec_tokenize(s.drop_first(), opt_level);
                    assert((seq![t] + rest).drop_first() =~= rest);
                },
                None => {},
            }
        }
    }
}

/// Tokenization preserves bracket well-formedness at every nesting depth.
pub proof fn lemma_tokenize_wb(s: Seq<char>, opt_level: u8, d: nat)
    requires
        wb_chars(s, d),
    ensures
        wb_tokens(spec_tokenize(s, opt_level), d),
    decreases s.len(),
{
    if s.len() == 0 {
    } else {
        let c = s[0];
        if opt_level > 0 && is_fold_char(c) {
            let k = 1 + run_len(s.drop_first(), c);
            lemma_run_len_le(s.drop_first(), c);
            lemma_run_len_chars(s.drop_first(), c);
            assert forall|x: int| 0 <= x < k implies s[x] == c by {
                if x > 0 {
                    assert(s.drop_first()[x - 1] == s[x]);
                }
            }
            lemma_skip_run(s, c, k, d);
            lemma_tokenize_wb(s.skip(k as int), opt_level, d);
            let rest = spec_tokenize(s.skip(k as int), opt_level);
            assert((seq![fold_token(c, k)] + rest).drop_first() =~= rest);
        } else {
            match token_of(c) {
                Some(t) => {
                    if c == '[' {
                        lemma_tokenize_wb(s.drop_first(), opt_level, d + 1);
                    } else if c == ']' {
                        lemma_tokenize_wb(s.drop_first(), opt_level, (d - 1) as nat);
                    } else {
                        lemma_tokenize_wb(s.drop_first(), opt_level, d);
                    }
                    let rest = spec_tokenize(s.drop_first(), opt_level);
                    assert((seq![t] + rest).drop_first() =~= rest);
                },
                None => {
                    lemma_tokenize_wb(s.drop_first(), opt_level, d);
                },
            }
        }
    }
}

/// Reads a source text into its token sequence. At optimization level 0 each
/// operator character becomes one token; at level 1 or above, runs of
/// identical `+`, `-`, `<`, `>` are folded greedily, with the cell delta kept
/// in one wrapping byte and the shift in 32 bits.
pub fn tokenize(input: &str, opt_level: u8) -> (r: Vec<Token>)
    ensures
        r@ == spec_tokenize(input@, opt_level),
{
    let cs = chars_vec(input);
    let mut r: Vec<Token> = Vec::new();
    let mut i: usize = 0;
    proof {
        assert(cs@.skip(0) =~= cs@);
        assert(Seq::<Token>::empty() + spec_tokenize(cs@, opt_level) =~= spec_tokenize(
            cs@,
            opt_level,
        ));
    }
    while i < cs.len()
        invariant
            i <= cs@.len(),
            cs@ == input@,
            spec_tokenize(input@, opt_level) == r@ + spec_tokenize(cs@.skip(i as int), opt_level),
        decreases cs@.len() - i,
    {
        let ghost pre = r@;
        let ghost rest0 = cs@.skip(i as int);
        let c = cs[i];
        if opt_level > 0 && (c == '+' || c == '-' || c == '<' || c == '>') {
            let mut j: usize = i + 1;
            while j < cs.len() && cs[j] == c
                invariant
                    i < j <= cs@.len(),
                    forall|x: int| i <= x < j ==> cs@[x] == c,
                decreases cs@.len() - j,
            {
                j = j + 1;
            }
            let k = j - i;
            proof {
                assert(rest0.len() == cs@.len() - i);
                assert(forall|x: int| 0 <= x < k ==> rest0[x] == c);
                assert(k == rest0.len() || rest0[k as int] != c);
                lemma_run_len_charact(rest0, c, k as nat);
                assert(run_len(rest0, c) == k);
                assert(rest0[0] == c);
                assert(run_len(rest0, c) == 1 + run_len(rest0.drop_first(), c));
            }
            let tok: Token = if c == '>' {
                Token::Forward((k as u64 % 0x1_0000_0000) as u32)
            } else if c == '<' {
                Token::Backward((k as u64 % 0x1_0000_0000) as u32)
            } else if c == '+' {
                Token::Add((k % 256) as u8)
            } else {
                Token::Sub((k % 256) as u8)
            };
            proof {
                assert(tok == fold_token(c, k as nat));
            }
            r.push(tok);
            proof {
                let rest1 = spec_tokenize(cs@.skip(j as int), opt_level);
                assert(rest0.skip(k as int) =~= cs@.skip(j as int));
                assert(spec_tokenize(rest0, opt_level) =~= seq![tok] + rest1);
                assert(pre + (seq![tok] + rest1) =~= (pre + seq![tok]) + rest1);
                assert(r@ == pre + seq![tok]);
            }
            i = j;
        } else {
            match c {
                '>' => r.push(Token::Forward(1)),
                '<' => r.push(Token::Backward(1)),
                '+' => r.push(Token::Add(1)),
                '-' => r.push(Token::Sub(1)),
                '.' => r.push(Token::Output),
                ',' => r.push(Token::Input),
                '[' => r.push(Token::LoopBegin),
                ']' => r.push(Token::LoopEnd),
                _ => {},
            }
            proof {
                assert(rest0.drop_first() =~= cs@.skip(i as int + 1));
                match token_of(c) {
                    Some(t) => {
                        let rest1 = spec_tokenize(cs@.skip(i as int + 1), opt_level);
                        assert(spec_tokenize(rest0, opt_level) =~= seq![t] + rest1);
                        assert(r@ == pre + seq![t]);
                        assert(pre + (seq![t] + rest1) =~= (pre + seq![t]) + rest1);
                    },
                    None => {
                        assert(r@ == pre);
                    },
                }
            }
            i = i + 1;
        }
    }
    proof {
        assert(cs@.skip(cs@.len() as int) =~= Seq::<char>::empty());
        assert(r@ + Seq::<Token>::empty() =~= r@);
    }
    r
}

/// A counted token spelled out as repetitions of its unit form; tokens that
/// carry no count stand for themselves.
pub open spec fn expand_one(tk: Token) -> Seq<Token> {
    match tk {
        Token::Forward(n) => Seq::new(n as nat, |i: int| Token::Forward(1)),
        Token::Backward(n) => Seq::new(n as nat, |i: int| Token::Backward(1)),
        Token::Add(n) => Seq::new(n as nat, |i: int| Token::Add(1)),
        Token::Sub(n) => Seq::new(n as nat, |i: int| Token::Sub(1)),
        _ => seq![tk],
    }
}

/// A token sequence spelled out operation by operation.
pub open spec fn expand_tokens(t: Seq<Token>) -> Seq<Token>
    decreases t.len(),
{
    if t.len() == 0 {
        Seq::empty()
    } else {
        expand_one(t[0]) + expand_tokens(t.drop_first())
    }
}

/// Length of the run of identical characters starting at position `i`.
pub open spec fn run_from(s: Seq<char>, i: int) -> nat {
    run_len(s.skip(i), s[i])
}

/// A run of `k` characters `c` folds without its count wrapping.
pub open spec fn fold_fits(c: char, k: nat) -> bool {
    if c == '+' || c == '-' {
        k <= 255
    } else if c == '<' || c == '>' {
        k <= 0xFFFF_FFFF
    } else {
        true
    }
}

/// No run of the source is long enough to wrap its folded count.
pub open spec fn runs_bounded(s: Seq<char>) -> bool {
    forall|i: int| 0 <= i < s.len() ==> fold_fits(s[i], #[trigger] run_from(s, i))
}

proof fn lemma_runs_bounded_skip(s: Seq<char>, k: int)
    requires
        runs_bounded(s),
        0 <= k <= s.len(),
    ensures
        runs_bounded(s.skip(k)),
{
    assert forall|i: int|
        0 <= i < s.skip(k).len() implies fold_fits(
        s.skip(k)[i],
        #[trigger] run_from(s.skip(k), i),
    ) by {
        assert(s.skip(k).skip(i) =~= s.skip(k + i));
        assert(run_from(s.skip(k), i) == run_from(s, k + i));
        assert(s.skip(k)[i] == s[k + i]);
        assert(fold_fits(s[k + i], run_from(s, k + i)));
    }
}

proof fn lemma_tok0_run(s: Seq<char>, c: char, k: nat)
    requires
        k <= s.len(),
        forall|x: int| 0 <= x < k ==> s[x] == c,
        is_fold_char(c),
    ensures
        spec_tokenize(s, 0) == Seq::new(k, |i: int| token_of(c)->Some_0) + spec_tokenize(
            s.skip(k as int),
            0,
        ),
    decreases k,
{
    if k == 0 {
        assert(s.skip(0) =~= s);
        assert(Seq::new(0, |i: int| token_of(c)->Some_0) + spec_tokenize(s, 0) =~= spec_tokenize(
            s,
            0,
        ));
    } else {
        assert(s[0] == c);
        assert forall|x: int| 0 <= x < k - 1 implies s.drop_first()[x] == c by {
            assert(s.drop_first()[x] == s[x + 1]);
        }
        lemma_tok0_run(s.drop_first(), c, (k - 1) as nat);
        assert(s.drop_first().skip(k as int - 1) =~= s.skip(k as int));
        let u = token_of(c)->Some_0;
        assert(spec_tokenize(s, 0) == seq![u] + spec_tokenize(s.drop_first(), 0));
        assert(seq![u] + (Seq::new((k - 1) as nat, |i: int| u) + spec_tokenize(
            s.skip(k as int),
            0,
        )) =~= Seq::new(k, |i: int| u) + spec_tokenize(s.skip(k as int), 0));
    }
}

/// Folding loses no operation: at any optimization level, the tokenization of
/// a source whose runs do not wrap spells out, operation by operation, to
/// exactly the unfolded (level 0) tokenization.
pub proof fn lemma_fold_expand(s: Seq<char>, opt_level: u8)
    requires
        runs_bounded(s),
    ensures
        expand_tokens(spec_tokenize(s, opt_level)) == spec_tokenize(s, 0),
    decreases s.len(),
{
    if s.len() == 0 {
        return ;
    }
    let c = s[0];
    if opt_level > 0 && is_fold_char(c) {
        let k = (1 + run_len(s.drop_first(), c)) as nat;
        lemma_run_len_le(s.drop_first(), c);
        lemma_run_len_chars(s.drop_first(), c);
        assert(s.skip(0) =~= s);
        assert(run_len(s, c) == k);
        assert(run_from(s, 0) == k);
        assert(fold_fits(c, k));
        assert forall|x: int| 0 <= x < k implies s[x] == c by {
            if x > 0 {
                assert(s.drop_first()[x - 1] == s[x]);
            }
        }
        let ft = fold_token(c, k);
        let u = token_of(c)->Some_0;
        assert(expand_one(ft) =~= Seq::new(k, |i: int| u));
        lemma_runs_bounded_skip(s, k as int);
        lemma_fold_expand(s.skip(k as int), opt_level);
        lemma_tok0_run(s, c, k);
        let rest = spec_tokenize(s.skip(k as int), opt_level);
        assert(spec_tokenize(s, opt_level) == seq![ft] + rest);
        assert((seq![ft] + rest).drop_first() =~= rest);
        assert((seq![ft] + rest)[0] == ft);
        assert(expand_tokens(seq![ft] + rest) == expand_one(ft) + expand_tokens(rest));
        assert(expand_one(ft) + expand_tokens(rest) =~= Seq::new(k, |i: int| u) + spec_tokenize(
            s.skip(k as int),
            0,
        ));
    } else {
        lemma_runs_bounded_skip(s, 1);
        assert(s.drop_first() =~= s.skip(1));
        lemma_fold_expand(s.drop_first(), opt_level);
        match token_of(c) {
            Some(tk) => {
                let rest = spec_tokenize(s.drop_first(), opt_level);
                assert(spec_tokenize(s, opt_level) == seq![tk] + rest);
                assert((seq![tk] + rest).drop_first() =~= rest);
                assert((seq![tk] + rest)[0] == tk);
                assert(expand_one(tk) =~= seq![tk]);
                assert(expand_tokens(seq![tk] + rest) == expand_one(tk) + expand_tokens(rest));
                let rest0 = spec_tokenize(s.drop_first(), 0);
                assert(spec_tokenize(s, 0) == seq![tk] + rest0);
                assert(seq![tk] + expand_tokens(rest) =~= expand_one(tk) + expand_tokens(rest));
            },
            None => {
                assert(spec_tokenize(s, 0) == spec_tokenize(s.drop_first(), 0));
            },
        }
    }
}

/// Run-length folding preserves the operation sequence: two tokenizations of
/// the same source, at any two optimization levels, spell out to the same
/// unit operations, provided no run is long enough to wrap its folded count.
pub proof fn lemma_fold_preserves_ops(s: Seq<char>, l1: u8, l2: u8)
    requires
        runs_bounded(s),
    ensures
        expand_tokens(spec_tokenize(s, l1)) == expand_tokens(spec_tokenize(s, l2)),
{
    lemma_fold_expand(s, l1);
    lemma_fold_expand(s, l2);
}

/// The stack of open loops and the partner map after scanning the first `i`
/// tokens.
pub open spec fn match_fold(t: Seq<Token>, i: int) -> (Seq<int>, Map<int, int>)
    decreases i,
{
    if i <= 0 {
        (Seq::empty(), Map::empty())
    } else {
        let prev = match_fold(t, i - 1);
        match t[i - 1] {
            Token::LoopBegin => (prev.0.push(i - 1), prev.1),
            Token::LoopEnd => (
                prev.0.drop_last(),
                prev.1.insert(i - 1, prev.0.last()).insert(prev.0.last(), i - 1),
            ),
            _ => prev,
        }
    }
}

/// The partner map of a balanced token sequence: each `LoopBegin` maps to its
/// `LoopEnd` and back.
pub open spec fn match_of(t: Seq<Token>) -> Map<int, int> {
    match_fold(t, t.len() as int).1
}

/// `mt` is a sound partner table for `t`: every loop delimiter points at a
/// delimiter of the other kind, on the proper side, which points back.
pub open spec fn matches_ok(t: Seq<Token>, mt: Seq<usize>) -> bool {
    &&& mt.len() == t.len()
    &&& forall|i: int|
        0 <= i < t.len() && t[i] is LoopBegin ==> i < #[trigger] mt[i] && mt[i] < t.len()
            && t[mt[i] as int] is LoopEnd && mt[mt[i] as int] as int == i
    &&& forall|i: int|
        0 <= i < t.len() && t[i] is LoopEnd ==> #[trigger] mt[i] < i
            && t[mt[i] as int] is LoopBegin && mt[mt[i] as int] as int == i
}

/// Computes the partner table of a balanced token sequence: entry `i` is the
/// index of the loop delimiter matching the one at `i` (and is meaningless at
/// other indices).
pub fn match_table(t: &Vec<Token>) -> (r: Vec<usize>)
    requires
        well_bracketed(t@),
    ensures
        matches_ok(t@, r@),
        forall|i: int|
            0 <= i < t@.len() && (t@[i] is LoopBegin || t@[i] is LoopEnd) ==> #[trigger] r@[i] as int
                == match_of(t@)[i],
{
    let n = t.len();
    let mut r: Vec<usize> = Vec::new();
    let mut z: usize = 0;
    while z < n
        invariant
            r@.len() == z,
            z <= n,
            forall|q: int| 0 <= q < z ==> r@[q] == 0usize,
        decreases n - z,
    {
        r.push(0);
        z = z + 1;
    }
    let mut sk: Vec<usize> = Vec::new();
    let mut i: usize = 0;
    proof {
        assert(t@.skip(0) =~= t@);
        assert(sk@.map_values(|x: usize| x as int) =~= Seq::<int>::empty());
    }
    while i < n
        invariant
            n == t@.len(),
            r@.len() == n,
            i <= n,
            sk@.map_values(|x: usize| x as int) == match_fold(t@, i as int).0,
            wb_tokens(t@.skip(i as int), sk@.len() as nat),
            forall|q: int| 0 <= q < sk@.len() ==> #[trigger] sk@[q] < i,
            forall|q: int| 0 <= q < sk@.len() ==> t@[#[trigger] sk@[q] as int] is LoopBegin,
            forall|q: int|
                0 <= q < sk@.len() ==> !match_fold(t@, i as int).1.contains_key(
                    #[trigger] sk@[q] as int,
                ),
            forall|q: int, p: int| 0 <= q < p < sk@.len() ==> sk@[q] < sk@[p],
            forall|j: int|
                #[trigger] match_fold(t@, i as int).1.contains_key(j) ==> 0 <= j < i
                    && r@[j] as int == match_fold(t@, i as int).1[j],
            forall|j: int|
                #[trigger] match_fold(t@, i as int).1.contains_key(j) && t@[j] is LoopEnd ==> {
                    let b = match_fold(t@, i as int).1[j];
                    0 <= b < j && t@[b] is LoopBegin && match_fold(t@, i as int).1.contains_key(b)
                        && match_fold(t@, i as int).1[b] == j
                },
            forall|j: int|
                #[trigger] match_fold(t@, i as int).1.contains_key(j) && t@[j] is LoopBegin ==> {
                    let e = match_fold(t@, i as int).1[j];
                    j < e < i && t@[e] is LoopEnd && match_fold(t@, i as int).1.contains_key(e)
                        && match_fold(t@, i as int).1[e] == j
                },
            forall|j: int|
                #[trigger] match_fold(t@, i as int).1.contains_key(j) ==> (t@[j] is LoopBegin
                    || t@[j] is LoopEnd),
            forall|j: int|
                0 <= j < i && (t@[j] is LoopBegin || t@[j] is LoopEnd) ==> (match_fold(
                    t@,
                    i as int,
                ).1.contains_key(j) || sk@.contains(j as usize)),
        decreases n - i,
    {
        let ghost st0 = match_fold(t@, i as int).0;
        let ghost m0 = match_fold(t@, i as int).1;
        let ghost sk0 = sk@;
        proof {
            assert(t@.skip(i as int).len() > 0);
            assert(t@.skip(i as int)[0] == t@[i as int]);
            assert(t@.skip(i as int).drop_first() =~= t@.skip(i as int + 1));
        }
        let tk = t[i];
        match tk {
            Token::LoopBegin => {
                sk.push(i);
                proof {
                    assert(sk@.map_values(|x: usize| x as int) =~= st0.push(i as int));
                    assert(sk@[sk0.len() as int] == i);
                    assert(sk@.contains(i));
                    assert forall|j: int|
                        0 <= j < i + 1 && (t@[j] is LoopBegin || t@[j] is LoopEnd) implies (
                    match_fold(t@, i + 1).1.contains_key(j) || sk@.contains(
                        j as usize,
                    )) by {
                        if j < i && sk0.contains(j as usize) {
                            let q = choose|q: int| 0 <= q < sk0.len() && sk0[q] == j as usize;
                            assert(sk@[q] == j as usize);
                        }
                    }
                }
            },
            Token::LoopEnd => {
                proof {
                    assert(wb_tokens(t@.skip(i as int), sk@.len() as nat));
                    assert(sk@.len() > 0);
                }
                let j = sk.pop().unwrap();
                r.set(i, j);
                r.set(j, i);
                proof {
                    assert(sk@.map_values(|x: usize| x as int) =~= st0.drop_last());
                    assert(st0.last() == j as int);
                    let m1 = match_fold(t@, i + 1).1;
                    assert(m1 == m0.insert(i as int, j as int).insert(j as int, i as int));
                    assert(!m0.contains_key(i as int));
                    assert(!m0.contains_key(j as int));
                    assert(t@[j as int] is LoopBegin);
                    assert forall|q: int|
                        0 <= q < sk@.len() implies !m1.contains_key(
                        #[trigger] sk@[q] as int,
                    ) by {
                        assert(sk@[q] == sk0[q]);
                        assert(sk0[q] < sk0[sk0.len() - 1]);
                    }
                    assert forall|jj: int|
                        0 <= jj < i + 1 && (t@[jj] is LoopBegin || t@[jj] is LoopEnd) implies (
                    m1.contains_key(jj) || sk@.contains(jj as usize)) by {
                        if jj == i as int || jj == j as int {
                        } else if jj < i && sk0.contains(jj as usize) {
                            let q = choose|q: int| 0 <= q < sk0.len() && sk0[q] == jj as usize;
                            assert(q < sk0.len() - 1);
                            assert(sk@[q] == jj as usize);
                        }
                    }
                }
            },
            _ => {},
        }
        i = i + 1;
    }
    proof {
        assert(t@.skip(n as int) =~= Seq::<Token>::empty());
        assert(sk@.len() == 0);
        let m = match_of(t@);
        assert(m == match_fold(t@, n as int).1);
        assert forall|j: int|
            0 <= j < n && (t@[j] is LoopBegin || t@[j] is LoopEnd) implies #[trigger] m.contains_key(
            j,
        ) && r@[j] as int == m[j] by {
            assert(!sk@.contains(j as usize));
        }
        assert forall|j: int|
            0 <= j < t@.len() && (t@[j] is LoopBegin || t@[j] is LoopEnd) implies #[trigger] r@[j] as int
            == match_of(t@)[j] by {
            assert(m.contains_key(j) && r@[j] as int == m[j]);
        }
        assert forall|ii: int| 0 <= ii < t@.len() && t@[ii] is LoopBegin implies ii
            < #[trigger] r@[ii] && r@[ii] < t@.len() && t@[r@[ii] as int] is LoopEnd
            && r@[r@[ii] as int] as int == ii by {
            assert(m.contains_key(ii) && r@[ii] as int == m[ii]);
            let e = m[ii];
            assert(ii < e && e < n && t@[e] is LoopEnd && m.contains_key(e) && m[e] == ii);
            assert(r@[e] as int == m[e]);
        }
        assert forall|ii: int| 0 <= ii < t@.len() && t@[ii] is LoopEnd implies #[trigger] r@[ii]
            < ii && t@[r@[ii] as int] is LoopBegin && r@[r@[ii] as int] as int == ii by {
            assert(m.contains_key(ii) && r@[ii] as int == m[ii]);
            let b = m[ii];
            assert(b < ii && t@[b] is LoopBegin && m.contains_key(b) && m[b] == ii);
            assert(r@[b] as int == m[b]);
        }
    }
    r
}

} // verus!
