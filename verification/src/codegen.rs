use vstd::prelude::*;

use crate::token::{
    count_char, count_loop_ends, lemma_tokenize_count, lemma_tokenize_len, lemma_tokenize_wb,
    match_of, match_table, matches_ok, spec_tokenize, src_balanced, tokenize, well_bracketed,
    Token,
};

verus! {

/// Compilation context: the absolute addresses of the `putchar` and `getchar`
/// helpers that the emitted code calls, and the optimization level.
pub struct CGContext {
    pub putchar: u64,
    pub getchar: u64,
    pub opt_level: u8,
}

pub struct Codegen {
    ctx: CGContext,
}

/// A compiled routine: its native code bytes and the byte offset of the
/// one-byte NOP emitted for each `LoopEnd`, in source order.
pub struct JitOutput {
    pub buffer: Vec<u8>,
    pub loop_end_patch_offsets: Vec<usize>,
}

/// Longest source the code generator accepts; keeps every emitted routine
/// below 2^31 bytes so that every jump displacement fits in 32 bits.
pub const MAX_SOURCE_LEN: usize = 100000000;

/// Number of code bytes emitted for one token.
pub open spec fn tok_size(t: Token) -> nat {
    match t {
        Token::Forward(_) => 7,
        Token::Backward(_) => 7,
        Token::Add(_) => 3,
        Token::Sub(_) => 3,
        Token::Output => 17,
        Token::Input => 16,
        Token::LoopBegin => 9,
        Token::LoopEnd => 10,
    }
}

/// Byte offset of the code emitted for token `i`: the sum of the sizes of the
/// tokens before it.
pub open spec fn spec_pos(t: Seq<Token>, i: int) -> nat
    decreases i,
{
    if i <= 0 {
        0
    } else {
        spec_pos(t, i - 1) + tok_size(t[i - 1])
    }
}

/// Total size of the code emitted for the whole token sequence, without the
/// final return instruction.
pub open spec fn total_size(t: Seq<Token>) -> nat {
    spec_pos(t, t.len() as int)
}

pub proof fn lemma_pos_mono(t: Seq<Token>, i: int, j: int)
    requires
        0 <= i <= j,
    ensures
        spec_pos(t, i) <= spec_pos(t, j),
    decreases j,
{
    if i < j {
        lemma_pos_mono(t, i, j - 1);
    }
}

pub proof fn lemma_pos_bound(t: Seq<Token>, i: int)
    requires
        0 <= i,
    ensures
        spec_pos(t, i) <= 17 * i,
    decreases i,
{
    if i > 0 {
        lemma_pos_bound(t, i - 1);
    }
}

pub open spec fn pow256(k: nat) -> int
    decreases k,
{
    if k == 0 {
        1
    } else {
        256 * pow256((k - 1) as nat)
    }
}

/// Byte `k` of the little-endian encoding of `x`.
pub open spec fn byte_of(x: int, k: nat) -> u8 {
    ((x / pow256(k)) % 256) as u8
}

/// The `n`-byte little-endian encoding of `x`.
pub open spec fn le_bytes(x: int, n: nat) -> Seq<u8>
    decreases n,
{
    if n == 0 {
        Seq::empty()
    } else {
        le_bytes(x, (n - 1) as nat).push(byte_of(x, (n - 1) as nat))
    }
}

pub broadcast proof fn lemma_le_bytes_len(x: int, n: nat)
    ensures
        #[trigger] le_bytes(x, n).len() == n,
    decreases n,
{
    if n > 0 {
        lemma_le_bytes_len(x, (n - 1) as nat);
    }
}

/// The code bytes emitted for token `i` of `t`. A `LoopBegin` compares the
/// current cell with zero and jumps forward past the matching `LoopEnd`'s
/// block; a `LoopEnd` starts with the one-byte NOP that is the OSR patch
/// target, then compares and jumps backward to the matching loop body (the
/// backward displacement is written in two's complement). `Output` and
/// `Input` save the tape register, call the configured helper through an
/// absolute address, and restore it.
pub open spec fn enc_token(t: Seq<Token>, i: int, pc: u64, gc: u64) -> Seq<u8> {
    match t[i] {
        Token::Forward(n) => seq![0x48u8, 0x81u8, 0xC7u8] + le_bytes(n as int, 4),
        Token::Backward(n) => seq![0x48u8, 0x81u8, 0xEFu8] + le_bytes(n as int, 4),
        Token::Add(n) => seq![0x80u8, 0x07u8, n],
        Token::Sub(n) => seq![0x80u8, 0x2Fu8, n],
        Token::Output => seq![0x57u8, 0x0Fu8, 0xB6u8, 0x3Fu8, 0x48u8, 0xB8u8] + le_bytes(
            pc as int,
            8,
        ) + seq![0xFFu8, 0xD0u8, 0x5Fu8],
        Token::Input => seq![0x57u8, 0x48u8, 0xB8u8] + le_bytes(gc as int, 8) + seq![
            0xFFu8,
            0xD0u8,
            0x5Fu8,
            0x88u8,
            0x07u8,
        ],
        Token::LoopBegin => {
            let e = match_of(t)[i];
            seq![0x80u8, 0x3Fu8, 0x00u8, 0x0Fu8, 0x84u8] + le_bytes(
                spec_pos(t, e) + 1 - spec_pos(t, i),
                4,
            )
        },
        Token::LoopEnd => {
            let b = match_of(t)[i];
            seq![0x90u8, 0x80u8, 0x3Fu8, 0x00u8, 0x0Fu8, 0x85u8] + le_bytes(
                0x1_0000_0000 - (spec_pos(t, i) + 1 - spec_pos(t, b)),
                4,
            )
        },
    }
}

/// The code bytes emitted for the first `i` tokens.
pub open spec fn code_upto(t: Seq<Token>, i: int, pc: u64, gc: u64) -> Seq<u8>
    decreases i,
{
    if i <= 0 {
        Seq::empty()
    } else {
        code_upto(t, i - 1, pc, gc) + enc_token(t, i - 1, pc, gc)
    }
}

/// The whole emitted routine: the code for every token, then one return
/// instruction.
pub open spec fn spec_code(t: Seq<Token>, pc: u64, gc: u64) -> Seq<u8> {
    code_upto(t, t.len() as int, pc, gc) + seq![0xC3u8]
}

/// The OSR-safe offsets recorded while emitting the first `i` tokens: the
/// position of each `LoopEnd`'s NOP byte, in order.
pub open spec fn osr_upto(t: Seq<Token>, i: int) -> Seq<int>
    decreases i,
{
    if i <= 0 {
        Seq::empty()
    } else {
        let prev = osr_upto(t, i - 1);
        if t[i - 1] is LoopEnd {
            prev.push(spec_pos(t, i - 1) as int)
        } else {
            prev
        }
    }
}

/// The OSR-safe offsets of the routine compiled from `t`: one per `LoopEnd`,
/// in source order.
pub open spec fn spec_osr_offsets(t: Seq<Token>) -> Seq<int> {
    osr_upto(t, t.len() as int)
}

pub proof fn lemma_count_tail(t: Seq<Token>)
    requires
        t.len() > 0,
    ensures
        count_loop_ends(t) == count_loop_ends(t.drop_last()) + (if t.last() is LoopEnd {
            1int
        } else {
            0int
        }),
    decreases t.len(),
{
    if t.len() == 1 {
        assert(t.drop_last() =~= Seq::<Token>::empty());
        assert(t.drop_first() =~= Seq::<Token>::empty());
    } else {
        lemma_count_tail(t.drop_first());
        assert(t.drop_first().drop_last() =~= t.drop_last().drop_first());
        assert(t.drop_first().last() == t.last());
        assert(t.drop_last()[0] == t[0]);
    }
}

pub proof fn lemma_osr_len(t: Seq<Token>, i: int)
    requires
        0 <= i <= t.len(),
    ensures
        osr_upto(t, i).len() == count_loop_ends(t.take(i)),
    decreases i,
{
    if i == 0 {
        assert(t.take(0) =~= Seq::<Token>::empty());
    } else {
        lemma_osr_len(t, i - 1);
        assert(t.take(i).drop_last() =~= t.take(i - 1));
        assert(t.take(i).last() == t[i - 1]);
        lemma_count_tail(t.take(i));
    }
}

/// The number of OSR-safe offsets equals the number of `LoopEnd` tokens.
pub proof fn lemma_osr_count(t: Seq<Token>)
    ensures
        spec_osr_offsets(t).len() == count_loop_ends(t),
{
    lemma_osr_len(t, t.len() as int);
    assert(t.take(t.len() as int) =~= t);
}

/// Compilations of the same source agree on their OSR structure: at any two
/// optimization levels, the routines record the same number of OSR-safe
/// offsets, and that number is the count of `]` characters in the source —
/// the index correspondence the OSR swap relies on.
pub proof fn lemma_osr_count_same(s: Seq<char>, l1: u8, l2: u8)
    ensures
        spec_osr_offsets(spec_tokenize(s, l1)).len() == count_char(s, ']'),
        spec_osr_offsets(spec_tokenize(s, l2)).len() == count_char(s, ']'),
{
    lemma_tokenize_count(s, l1);
    lemma_tokenize_count(s, l2);
    lemma_osr_count(spec_tokenize(s, l1));
    lemma_osr_count(spec_tokenize(s, l2));
}

proof fn lemma_pow256_vals()
    ensures
        pow256(0) == 1,
        pow256(1) == 256,
        pow256(2) == 65536,
        pow256(3) == 16777216,
        pow256(4) == 4294967296,
        pow256(5) == 1099511627776,
        pow256(6) == 281474976710656,
        pow256(7) == 72057594037927936,
{
    reveal_with_fuel(pow256, 9);
}

/// Appends the four-byte little-endian encoding of `x`.
fn push_le32(out: &mut Vec<u8>, x: u32)
    requires
        old(out)@.len() + 4 <= usize::MAX,
    ensures
        final(out)@ == old(out)@ + le_bytes(x as int, 4),
{
    out.push((x % 256) as u8);
    out.push(((x / 256) % 256) as u8);
    out.push(((x / 65536) % 256) as u8);
    out.push(((x / 16777216) % 256) as u8);
    proof {
        lemma_pow256_vals();
        reveal_with_fuel(le_bytes, 5);
        let s = le_bytes(x as int, 4);
        assert(s.len() == 4);
        assert(s[0] == byte_of(x as int, 0));
        assert(s[1] == byte_of(x as int, 1));
        assert(s[2] == byte_of(x as int, 2));
        assert(s[3] == byte_of(x as int, 3));
        assert(byte_of(x as int, 0) == (x % 256) as u8);
        assert(byte_of(x as int, 1) == ((x / 256) % 256) as u8);
        assert(byte_of(x as int, 2) == ((x / 65536) % 256) as u8);
        assert(byte_of(x as int, 3) == ((x / 16777216) % 256) as u8);
        assert(out@ =~= old(out)@ + s);
    }
}

/// Appends the eight-byte little-endian encoding of `x`.
fn push_le64(out: &mut Vec<u8>, x: u64)
    requires
        old(out)@.len() + 8 <= usize::MAX,
    ensures
        final(out)@ == old(out)@ + le_bytes(x as int, 8),
{
    out.push((x % 256) as u8);
    out.push(((x / 256) % 256) as u8);
    out.push(((x / 65536) % 256) as u8);
    out.push(((x / 16777216) % 256) as u8);
    out.push(((x / 4294967296) % 256) as u8);
    out.push(((x / 1099511627776) % 256) as u8);
    out.push(((x / 281474976710656) % 256) as u8);
    out.push(((x / 72057594037927936) % 256) as u8);
    proof {
        lemma_pow256_vals();
        reveal_with_fuel(le_bytes, 9);
        let s = le_bytes(x as int, 8);
        assert(s.len() == 8);
        assert(s[0] == byte_of(x as int, 0));
        assert(s[1] == byte_of(x as int, 1));
        assert(s[2] == byte_of(x as int, 2));
        assert(s[3] == byte_of(x as int, 3));
        assert(s[4] == byte_of(x as int, 4));
        assert(s[5] == byte_of(x as int, 5));
        assert(s[6] == byte_of(x as int, 6));
        assert(s[7] == byte_of(x as int, 7));
        assert(byte_of(x as int, 0) == (x % 256) as u8);
        assert(byte_of(x as int, 1) == ((x / 256) % 256) as u8);
        assert(byte_of(x as int, 2) == ((x / 65536) % 256) as u8);
        assert(byte_of(x as int, 3) == ((x / 16777216) % 256) as u8);
        assert(byte_of(x as int, 4) == ((x / 4294967296) % 256) as u8);
        assert(byte_of(x as int, 5) == ((x / 1099511627776) % 256) as u8);
        assert(byte_of(x as int, 6) == ((x / 281474976710656) % 256) as u8);
        assert(byte_of(x as int, 7) == ((x / 72057594037927936) % 256) as u8);
        assert(out@ =~= old(out)@ + s);
    }
}

impl Codegen {
    pub closed spec fn context(self) -> CGContext {
        self.ctx
    }

    pub fn new(ctx: CGContext) -> (r: Codegen)
        ensures
            r.context() == ctx,
    {
        Codegen { ctx }
    }

    /// Compiles a source text: tokenizes it at the context's optimization
    /// level and emits the native routine together with its OSR-safe offsets.
    pub fn translate(&self, input: &str) -> (r: JitOutput)
        requires
            src_balanced(input@),
            input@.len() <= MAX_SOURCE_LEN,
        ensures
            ({
                let toks = spec_tokenize(input@, self.context().opt_level);
                &&& r.buffer@ == spec_code(toks, self.context().putchar, self.context().getchar)
                &&& r.loop_end_patch_offsets@.map_values(|x: usize| x as int) == spec_osr_offsets(
                    toks,
                )
                &&& r.loop_end_patch_offsets@.len() == count_char(input@, ']')
                &&& forall|k: int|
                    0 <= k < r.loop_end_patch_offsets@.len() ==> #[trigger] r.loop_end_patch_offsets@[k]
                        + 10 <= r.buffer@.len() && r.buffer@[r.loop_end_patch_offsets@[k] as int]
                        == 0x90
                &&& forall|k1: int, k2: int|
                    0 <= k1 < k2 < r.loop_end_patch_offsets@.len()
                        ==> r.loop_end_patch_offsets@[k1] < r.loop_end_patch_offsets@[k2]
                &&& r.buffer@.len() == total_size(toks) + 1
                &&& r.buffer@.last() == 0xC3
            }),
    {
        let toks = tokenize(input, self.ctx.opt_level);
        proof {
            lemma_tokenize_wb(input@, self.ctx.opt_level, 0);
            lemma_tokenize_len(input@, self.ctx.opt_level);
            lemma_tokenize_count(input@, self.ctx.opt_level);
            lemma_pos_bound(toks@, toks@.len() as int);
            lemma_osr_count(toks@);
        }
        self.do_translate(&toks)
    }

    /// Emits the native routine for a balanced token sequence. Every token
    /// becomes a fixed-size block of code at a position known in advance, so
    /// both jump displacements of a loop pair can be computed directly.
    fn do_translate(&self, input: &Vec<Token>) -> (r: JitOutput)
        requires
            well_bracketed(input@),
            total_size(input@) + 1 <= 0x7FFF_FFFF,
        ensures
            ({
                let pc = self.context().putchar;
                let gc = self.context().getchar;
                &&& r.buffer@ == spec_code(input@, pc, gc)
                &&& r.loop_end_patch_offsets@.map_values(|x: usize| x as int) == spec_osr_offsets(
                    input@,
                )
                &&& r.loop_end_patch_offsets@.len() == count_loop_ends(input@)
                &&& forall|k: int|
                    0 <= k < r.loop_end_patch_offsets@.len() ==> #[trigger] r.loop_end_patch_offsets@[k]
                        + 10 <= r.buffer@.len() && r.buffer@[r.loop_end_patch_offsets@[k] as int]
                        == 0x90
                &&& forall|k1: int, k2: int|
                    0 <= k1 < k2 < r.loop_end_patch_offsets@.len()
                        ==> r.loop_end_patch_offsets@[k1] < r.loop_end_patch_offsets@[k2]
                &&& r.buffer@.len() == total_size(input@) + 1
                &&& r.buffer@.last() == 0xC3
            }),
    {
        let n = input.len();
        let ghost pcg = self.ctx.putchar;
        let ghost gcg = self.ctx.getchar;

        // Token start positions, with the total size as the final entry.
        let mut pos: Vec<usize> = Vec::new();
        pos.push(0);
        let mut i: usize = 0;
        while i < n
            invariant
                n == input@.len(),
                i <= n,
                pos@.len() == i + 1,
                forall|j: int| 0 <= j <= i ==> #[trigger] pos@[j] == spec_pos(input@, j),
                total_size(input@) + 1 <= 0x7FFF_FFFF,
            decreases n - i,
        {
            let sz: usize = match input[i] {
                Token::Forward(_) => 7,
                Token::Backward(_) => 7,
                Token::Add(_) => 3,
                Token::Sub(_) => 3,
                Token::Output => 17,
                Token::Input => 16,
                Token::LoopBegin => 9,
                Token::LoopEnd => 10,
            };
            proof {
                lemma_pos_mono(input@, i + 1, n as int);
            }
            let next = pos[i] + sz;
            pos.push(next);
            i = i + 1;
        }

        let mt = match_table(input);

        let mut out: Vec<u8> = Vec::new();
        let mut offs: Vec<usize> = Vec::new();
        let mut i: usize = 0;
        proof {
            assert(offs@.map_values(|x: usize| x as int) =~= Seq::<int>::empty());
        }
        while i < n
            invariant
                n == input@.len(),
                i <= n,
                pos@.len() == n + 1,
                forall|j: int| 0 <= j <= n ==> #[trigger] pos@[j] == spec_pos(input@, j),
                total_size(input@) + 1 <= 0x7FFF_FFFF,
                pcg == self.context().putchar,
                gcg == self.context().getchar,
                matches_ok(input@, mt@),
                forall|j: int|
                    0 <= j < n && (input@[j] is LoopBegin || input@[j] is LoopEnd)
                        ==> #[trigger] mt@[j] as int == match_of(input@)[j],
                out@ == code_upto(input@, i as int, pcg, gcg),
                out@.len() == spec_pos(input@, i as int),
                offs@.map_values(|x: usize| x as int) == osr_upto(input@, i as int),
                forall|k: int|
                    0 <= k < offs@.len() ==> #[trigger] offs@[k] + 10 <= out@.len()
                        && out@[offs@[k] as int] == 0x90,
                forall|k1: int, k2: int| 0 <= k1 < k2 < offs@.len() ==> offs@[k1] < offs@[k2],
            decreases n - i,
        {
            let ghost pre = out@;
            let ghost offs0 = offs@;
            proof {
                lemma_pos_mono(input@, i + 1, n as int);
            }
            let tk = input[i];
            match tk {
                Token::Forward(nv) => {
                    out.push(0x48);
                    out.push(0x81);
                    out.push(0xC7);
                    push_le32(&mut out, nv);
                    proof {
                        lemma_le_bytes_len(nv as int, 4);
                        assert(out@ =~= pre + enc_token(input@, i as int, pcg, gcg));
                    }
                },
                Token::Backward(nv) => {
                    out.push(0x48);
                    out.push(0x81);
                    out.push(0xEF);
                    push_le32(&mut out, nv);
                    proof {
                        lemma_le_bytes_len(nv as int, 4);
                        assert(out@ =~= pre + enc_token(input@, i as int, pcg, gcg));
                    }
                },
                Token::Add(nv) => {
                    out.push(0x80);
                    out.push(0x07);
                    out.push(nv);
                    proof {
                        assert(out@ =~= pre + enc_token(input@, i as int, pcg, gcg));
                    }
                },
                Token::Sub(nv) => {
                    out.push(0x80);
                    out.push(0x2F);
                    out.push(nv);
                    proof {
                        assert(out@ =~= pre + enc_token(input@, i as int, pcg, gcg));
                    }
                },
                Token::Output => {
                    out.push(0x57);
                    out.push(0x0F);
                    out.push(0xB6);
                    out.push(0x3F);
                    out.push(0x48);
                    out.push(0xB8);
                    proof {
                        assert(out@ =~= pre + seq![
                            0x57u8,
                            0x0Fu8,
                            0xB6u8,
                            0x3Fu8,
                            0x48u8,
                            0xB8u8,
                        ]);
                    }
                    push_le64(&mut out, self.ctx.putchar);
                    out.push(0xFF);
                    out.push(0xD0);
                    out.push(0x5F);
                    proof {
                        lemma_le_bytes_len(pcg as int, 8);
                        assert(out@ =~= pre + enc_token(input@, i as int, pcg, gcg));
                    }
                },
                Token::Input => {
                    out.push(0x57);
                    out.push(0x48);
                    out.push(0xB8);
                    proof {
                        assert(out@ =~= pre + seq![0x57u8, 0x48u8, 0xB8u8]);
                    }
                    push_le64(&mut out, self.ctx.getchar);
                    out.push(0xFF);
                    out.push(0xD0);
                    out.push(0x5F);
                    out.push(0x88);
                    out.push(0x07);
                    proof {
                        lemma_le_bytes_len(gcg as int, 8);
                        assert(out@ =~= pre + enc_token(input@, i as int, pcg, gcg));
                    }
                },
                Token::LoopBegin => {
                    let e = mt[i];
                    let pe = pos[e];
                    let p_i = out.len();
                    proof {
                        lemma_pos_mono(input@, i as int + 1, e as int);
                        lemma_pos_mono(input@, e as int, n as int);
                        assert(pe >= p_i + 9);
                    }
                    out.push(0x80);
                    out.push(0x3F);
                    out.push(0x00);
                    out.push(0x0F);
                    out.push(0x84);
                    push_le32(&mut out, (pe + 1 - p_i) as u32);
                    proof {
                        lemma_le_bytes_len((pe + 1 - p_i) as int, 4);
                        assert(out@ =~= pre + enc_token(input@, i as int, pcg, gcg));
                    }
                },
                Token::LoopEnd => {
                    let b = mt[i];
                    let pb = pos[b];
                    let p_i = out.len();
                    offs.push(p_i);
                    proof {
                        lemma_pos_mono(input@, b as int, i as int);
                        assert(pb <= p_i);
                        assert(offs@.map_values(|x: usize| x as int) =~= osr_upto(
                            input@,
                            i as int,
                        ).push(spec_pos(input@, i as int) as int));
                    }
                    out.push(0x90);
                    out.push(0x80);
                    out.push(0x3F);
                    out.push(0x00);
                    out.push(0x0F);
                    out.push(0x85);
                    let mm: u64 = 0x1_0000_0000u64 - ((p_i + 1 - pb) as u64);
                    push_le32(&mut out, mm as u32);
                    proof {
                        lemma_le_bytes_len(mm as u32 as int, 4);
                        assert(mm as u32 as int == 0x1_0000_0000 - (spec_pos(input@, i as int) + 1
                            - spec_pos(input@, b as int)));
                        assert(out@ =~= pre + enc_token(input@, i as int, pcg, gcg));
                    }
                },
            }
            i = i + 1;
        }
        out.push(0xC3);
        proof {
            assert(out@ =~= spec_code(input@, pcg, gcg));
            lemma_osr_count(input@);
        }
        JitOutput { buffer: out, loop_end_patch_offsets: offs }
    }
}

} // verus!
