use vstd::prelude::*;

use crate::token::{
    expand_one, expand_tokens, lemma_fold_expand, matches_ok, runs_bounded, spec_tokenize, Token,
};
use vstd::arithmetic::div_mod::{
    lemma_add_mod_noop, lemma_mod_add_multiples_vanish, lemma_small_mod,
};

verus! {

/// The abstract machine state of a running program: the tape, the data
/// pointer, the unread input, and the output written so far, together with
/// the index of the next token.
#[verifier::ext_equal]
pub struct MState {
    pub tape: Seq<u8>,
    pub ptr: int,
    pub input: Seq<u8>,
    pub inp: int,
    pub out: Seq<u8>,
    pub pc: int,
}

pub open spec fn mstate_wf(t: Seq<Token>, s: MState) -> bool {
    &&& 0 <= s.ptr < s.tape.len()
    &&& 0 <= s.pc <= t.len()
    &&& 0 <= s.inp <= s.input.len()
}

/// One step of the reference semantics of a token program, with partner
/// table `mt`. A move off the tape, or reading exhausted input, sticks the
/// machine (`None`); cell arithmetic wraps modulo 256.
pub open spec fn spec_step(t: Seq<Token>, mt: Seq<usize>, s: MState) -> Option<MState> {
    match t[s.pc] {
        Token::Forward(n) => if s.ptr + n < s.tape.len() {
            Some(MState { ptr: s.ptr + n, pc: s.pc + 1, ..s })
        } else {
            None
        },
        Token::Backward(n) => if s.ptr - n >= 0 {
            Some(MState { ptr: s.ptr - n, pc: s.pc + 1, ..s })
        } else {
            None
        },
        Token::Add(n) => Some(
            MState {
                tape: s.tape.update(s.ptr, ((s.tape[s.ptr] + n) % 256) as u8),
                pc: s.pc + 1,
                ..s
            },
        ),
        Token::Sub(n) => Some(
            MState {
                tape: s.tape.update(s.ptr, ((s.tape[s.ptr] + 256 - n) % 256) as u8),
                pc: s.pc + 1,
                ..s
            },
        ),
        Token::Output => Some(MState { out: s.out.push(s.tape[s.ptr]), pc: s.pc + 1, ..s }),
        Token::Input => if s.inp < s.input.len() {
            Some(
                MState {
                    tape: s.tape.update(s.ptr, s.input[s.inp]),
                    inp: s.inp + 1,
                    pc: s.pc + 1,
                    ..s
                },
            )
        } else {
            None
        },
        Token::LoopBegin => if s.tape[s.ptr] == 0 {
            Some(MState { pc: mt[s.pc] + 1, ..s })
        } else {
            Some(MState { pc: s.pc + 1, ..s })
        },
        Token::LoopEnd => if s.tape[s.ptr] != 0 {
            Some(MState { pc: mt[s.pc] + 1, ..s })
        } else {
            Some(MState { pc: s.pc + 1, ..s })
        },
    }
}

/// Runs the reference semantics for at most `fuel` steps. `Some` is normal
/// completion (the token index reached the end); `None` is a stuck machine
/// or exhausted fuel.
pub open spec fn spec_run(t: Seq<Token>, mt: Seq<usize>, s: MState, fuel: nat) -> Option<MState>
    decreases fuel,
{
    if s.pc == t.len() {
        Some(s)
    } else if !(0 <= s.pc < t.len()) {
        None
    } else if fuel == 0 {
        None
    } else {
        match spec_step(t, mt, s) {
            Some(s2) => spec_run(t, mt, s2, (fuel - 1) as nat),
            None => None,
        }
    }
}

/// The executable machine: tape, data pointer, input with a read cursor,
/// output, and program counter.
pub struct Machine {
    pub tape: Vec<u8>,
    pub ptr: usize,
    pub input: Vec<u8>,
    pub in_pos: usize,
    pub output: Vec<u8>,
    pub pc: usize,
}

impl View for Machine {
    type V = MState;

    open spec fn view(&self) -> MState {
        MState {
            tape: self.tape@,
            ptr: self.ptr as int,
            input: self.input@,
            inp: self.in_pos as int,
            out: self.output@,
            pc: self.pc as int,
        }
    }
}

#[derive(Clone, Copy, Debug, PartialEq, Eq, Structural)]
pub enum RunOutcome {
    Done,
    Stuck,
    OutOfFuel,
}

/// Runs a token program on the machine, faithfully to the reference
/// semantics: it returns `Done` exactly when `spec_run` completes within
/// `fuel` steps, and then the machine holds the state `spec_run` gives.
pub fn run_tokens(t: &Vec<Token>, mt: &Vec<usize>, m: &mut Machine, fuel: u64) -> (r: RunOutcome)
    requires
        matches_ok(t@, mt@),
        mstate_wf(t@, old(m)@),
    ensures
        mstate_wf(t@, final(m)@),
        r is Done <==> spec_run(t@, mt@, old(m)@, fuel as nat) is Some,
        r is Done ==> spec_run(t@, mt@, old(m)@, fuel as nat) == Some(final(m)@)
            && final(m)@.pc == t@.len(),
{
    let mut fuel_left: u64 = fuel;
    while m.pc < t.len()
        invariant
            matches_ok(t@, mt@),
            mstate_wf(t@, m@),
            fuel_left <= fuel,
            spec_run(t@, mt@, old(m)@, fuel as nat) == spec_run(t@, mt@, m@, fuel_left as nat),
        decreases fuel_left,
    {
        if fuel_left == 0 {
            return RunOutcome::OutOfFuel;
        }
        fuel_left = fuel_left - 1;
        let ghost prev = m@;
        let pc = m.pc;
        let tk = t[pc];
        match tk {
            Token::Forward(n) => {
                let nn = n as usize;
                if nn < m.tape.len() - m.ptr {
                    m.ptr = m.ptr + nn;
                    m.pc = pc + 1;
                } else {
                    return RunOutcome::Stuck;
                }
            },
            Token::Backward(n) => {
                let nn = n as usize;
                if nn <= m.ptr {
                    m.ptr = m.ptr - nn;
                    m.pc = pc + 1;
                } else {
                    return RunOutcome::Stuck;
                }
            },
            Token::Add(n) => {
                let v = m.tape[m.ptr];
                m.tape.set(m.ptr, ((v as u16 + n as u16) % 256) as u8);
                m.pc = pc + 1;
            },
            Token::Sub(n) => {
                let v = m.tape[m.ptr];
                m.tape.set(m.ptr, ((v as u16 + 256 - n as u16) % 256) as u8);
                m.pc = pc + 1;
            },
            Token::Output => {
                let v = m.tape[m.ptr];
                m.output.push(v);
                m.pc = pc + 1;
            },
            Token::Input => {
                if m.in_pos < m.input.len() {
                    let c = m.input[m.in_pos];
                    m.tape.set(m.ptr, c);
                    m.in_pos = m.in_pos + 1;
                    m.pc = pc + 1;
                } else {
                    return RunOutcome::Stuck;
                }
            },
            Token::LoopBegin => {
                let v = m.tape[m.ptr];
                if v == 0 {
                    m.pc = mt[pc] + 1;
                } else {
                    m.pc = pc + 1;
                }
            },
            Token::LoopEnd => {
                let v = m.tape[m.ptr];
                if v != 0 {
                    m.pc = mt[pc] + 1;
                } else {
                    m.pc = pc + 1;
                }
            },
        }
        proof {
            assert(spec_step(t@, mt@, prev) is Some && spec_step(t@, mt@, prev)->Some_0 =~= m@);
        }
    }
    RunOutcome::Done
}

/// No token of `t` writes output.
pub open spec fn no_output(t: Seq<Token>) -> bool {
    forall|i: int| 0 <= i < t.len() ==> !(#[trigger] t[i] is Output)
}

/// No token of `t` writes the tape.
pub open spec fn no_tape_writes(t: Seq<Token>) -> bool {
    forall|i: int|
        0 <= i < t.len() ==> !(#[trigger] t[i] is Add) && !(t[i] is Sub) && !(t[i] is Input)
}

/// A program with no output operator produces no output, on any tape and any
/// input: whatever run completes (or is cut off nowhere), the output stream
/// is exactly what it was at the start.
pub proof fn lemma_silent_run(t: Seq<Token>, mt: Seq<usize>, s: MState, fuel: nat)
    requires
        no_output(t),
        spec_run(t, mt, s, fuel) is Some,
    ensures
        spec_run(t, mt, s, fuel)->Some_0.out == s.out,
    decreases fuel,
{
    if s.pc == t.len() {
    } else if 0 <= s.pc < t.len() && fuel > 0 {
        let s2o = spec_step(t, mt, s);
        if s2o is Some {
            assert(!(t[s.pc] is Output));
            assert(s2o->Some_0.out == s.out);
            lemma_silent_run(t, mt, s2o->Some_0, (fuel - 1) as nat);
        }
    }
}

/// Offset in the expanded program of the first operation of token `i`.
pub open spec fn exp_pos(t: Seq<Token>, i: int) -> nat
    decreases i,
{
    if i <= 0 {
        0
    } else {
        exp_pos(t, i - 1) + expand_one(t[i - 1]).len()
    }
}

proof fn lemma_exp_pos_shift(t: Seq<Token>, i: int)
    requires
        1 <= i <= t.len(),
    ensures
        exp_pos(t, i) == expand_one(t[0]).len() + exp_pos(t.drop_first(), i - 1),
    decreases i,
{
    if i > 1 {
        lemma_exp_pos_shift(t, i - 1);
        assert(t.drop_first()[i - 2] == t[i - 1]);
        assert(exp_pos(t, i) == exp_pos(t, i - 1) + expand_one(t[i - 1]).len());
        assert(exp_pos(t.drop_first(), i - 1) == exp_pos(t.drop_first(), i - 2) + expand_one(
            t.drop_first()[i - 2],
        ).len());
    } else {
        assert(exp_pos(t, 1) == exp_pos(t, 0) + expand_one(t[0]).len());
        assert(exp_pos(t, 0) == 0);
        assert(exp_pos(t.drop_first(), 0) == 0);
    }
}

proof fn lemma_expand_decomp(t: Seq<Token>, i: int)
    requires
        0 <= i <= t.len(),
    ensures
        exp_pos(t, i) <= expand_tokens(t).len(),
        expand_tokens(t).skip(exp_pos(t, i) as int) == expand_tokens(t.skip(i)),
    decreases i,
{
    if i == 0 {
        assert(t.skip(0) =~= t);
        assert(expand_tokens(t).skip(0) =~= expand_tokens(t));
    } else {
        lemma_exp_pos_shift(t, i);
        lemma_expand_decomp(t.drop_first(), i - 1);
        assert(t.drop_first().skip(i - 1) =~= t.skip(i));
        assert(expand_tokens(t) == expand_one(t[0]) + expand_tokens(t.drop_first()));
        assert(expand_tokens(t).skip(exp_pos(t, i) as int) =~= expand_tokens(
            t.drop_first(),
        ).skip(exp_pos(t.drop_first(), i - 1) as int));
    }
}

proof fn lemma_expand_at(t: Seq<Token>, i: int)
    requires
        0 <= i < t.len(),
    ensures
        exp_pos(t, i) + expand_one(t[i]).len() == exp_pos(t, i + 1),
        exp_pos(t, i + 1) <= expand_tokens(t).len(),
        forall|j: int|
            0 <= j < expand_one(t[i]).len() ==> expand_tokens(t)[exp_pos(t, i) + j]
                == #[trigger] expand_one(t[i])[j],
{
    lemma_expand_decomp(t, i);
    lemma_expand_decomp(t, i + 1);
    let e = expand_tokens(t);
    let rest = t.skip(i);
    assert(rest[0] == t[i]);
    assert(rest.drop_first() =~= t.skip(i + 1));
    assert(expand_tokens(rest) == expand_one(t[i]) + expand_tokens(t.skip(i + 1)));
    assert forall|j: int|
        0 <= j < expand_one(t[i]).len() implies e[exp_pos(t, i) + j] == #[trigger] expand_one(
        t[i],
    )[j] by {
        assert(e.skip(exp_pos(t, i) as int)[j] == e[exp_pos(t, i) + j]);
        assert(expand_tokens(rest)[j] == expand_one(t[i])[j]);
    }
}

proof fn lemma_exp_pos_end(t: Seq<Token>)
    ensures
        exp_pos(t, t.len() as int) == expand_tokens(t).len(),
{
    lemma_expand_decomp(t, t.len() as int);
    assert(t.skip(t.len() as int) =~= Seq::<Token>::empty());
    assert(expand_tokens(t).skip(exp_pos(t, t.len() as int) as int).len() == 0);
}

/// The state of the expanded program corresponding to a state of the counted
/// program: the same tape, pointer, input and output, at the expanded
/// position of the same token.
pub open spec fn corr_state(t: Seq<Token>, s: MState) -> MState {
    MState { pc: exp_pos(t, s.pc) as int, ..s }
}

/// The partner table of the expanded program points where the counted
/// program's table does, through the position correspondence.
pub open spec fn tables_correspond(t: Seq<Token>, mt: Seq<usize>, mt2: Seq<usize>) -> bool {
    forall|i: int|
        0 <= i < t.len() && (t[i] is LoopBegin || t[i] is LoopEnd) ==> mt2[exp_pos(
            t,
            i,
        ) as int] as int == exp_pos(t, #[trigger] mt[i] as int)
}

proof fn lemma_units_forward(e: Seq<Token>, mt2: Seq<usize>, s: MState, k: nat, fuel: nat)
    requires
        0 <= s.ptr,
        s.ptr + k < s.tape.len(),
        0 <= s.pc,
        s.pc + k <= e.len(),
        forall|j: int| 0 <= j < k ==> #[trigger] e[s.pc + j] == Token::Forward(1),
        fuel >= k,
    ensures
        spec_run(e, mt2, s, fuel) == spec_run(
            e,
            mt2,
            MState { ptr: s.ptr + k, pc: s.pc + k, ..s },
            (fuel - k) as nat,
        ),
    decreases k,
{
    if k == 0 {
        assert(MState { ptr: s.ptr + 0, pc: s.pc + 0, ..s } =~= s);
    } else {
        assert(e[s.pc] == Token::Forward(1));
        let s1 = MState { ptr: s.ptr + 1, pc: s.pc + 1, ..s };
        assert(spec_step(e, mt2, s) == Some(s1));
        assert forall|j: int| 0 <= j < k - 1 implies #[trigger] e[s1.pc + j] == Token::Forward(1) by {
            assert(e[s.pc + (j + 1)] == Token::Forward(1));
        }
        lemma_units_forward(e, mt2, s1, (k - 1) as nat, (fuel - 1) as nat);
        assert(MState { ptr: s1.ptr + (k - 1), pc: s1.pc + (k - 1), ..s1 } =~= MState {
            ptr: s.ptr + k,
            pc: s.pc + k,
            ..s
        });
    }
}

proof fn lemma_units_backward(e: Seq<Token>, mt2: Seq<usize>, s: MState, k: nat, fuel: nat)
    requires
        s.ptr - k >= 0,
        s.ptr < s.tape.len(),
        0 <= s.pc,
        s.pc + k <= e.len(),
        forall|j: int| 0 <= j < k ==> #[trigger] e[s.pc + j] == Token::Backward(1),
        fuel >= k,
    ensures
        spec_run(e, mt2, s, fuel) == spec_run(
            e,
            mt2,
            MState { ptr: s.ptr - k, pc: s.pc + k, ..s },
            (fuel - k) as nat,
        ),
    decreases k,
{
    if k == 0 {
        assert(MState { ptr: s.ptr - 0, pc: s.pc + 0, ..s } =~= s);
    } else {
        assert(e[s.pc] == Token::Backward(1));
        let s1 = MState { ptr: s.ptr - 1, pc: s.pc + 1, ..s };
        assert(spec_step(e, mt2, s) == Some(s1));
        assert forall|j: int| 0 <= j < k - 1 implies #[trigger] e[s1.pc + j] == Token::Backward(1) by {
            assert(e[s.pc + (j + 1)] == Token::Backward(1));
        }
        lemma_units_backward(e, mt2, s1, (k - 1) as nat, (fuel - 1) as nat);
        assert(MState { ptr: s1.ptr - (k - 1), pc: s1.pc + (k - 1), ..s1 } =~= MState {
            ptr: s.ptr - k,
            pc: s.pc + k,
            ..s
        });
    }
}

proof fn lemma_units_add(e: Seq<Token>, mt2: Seq<usize>, s: MState, k: nat, fuel: nat)
    requires
        0 <= s.ptr < s.tape.len(),
        0 <= s.pc,
        s.pc + k <= e.len(),
        k <= 255,
        forall|j: int| 0 <= j < k ==> #[trigger] e[s.pc + j] == Token::Add(1),
        fuel >= k,
    ensures
        spec_run(e, mt2, s, fuel) == spec_run(
            e,
            mt2,
            MState {
                tape: s.tape.update(s.ptr, ((s.tape[s.ptr] + k) % 256) as u8),
                pc: s.pc + k,
                ..s
            },
            (fuel - k) as nat,
        ),
    decreases k,
{
    let v = s.tape[s.ptr];
    if k == 0 {
        lemma_small_mod(v as nat, 256);
        assert(s.tape.update(s.ptr, ((v + 0) % 256) as u8) =~= s.tape);
        assert(MState { tape: s.tape.update(s.ptr, ((v + 0) % 256) as u8), pc: s.pc + 0, ..s }
            =~= s);
    } else {
        assert(e[s.pc] == Token::Add(1));
        let s1 = MState { tape: s.tape.update(s.ptr, ((v + 1) % 256) as u8), pc: s.pc + 1, ..s };
        assert(spec_step(e, mt2, s) == Some(s1));
        assert forall|j: int| 0 <= j < k - 1 implies #[trigger] e[s1.pc + j] == Token::Add(1) by {
            assert(e[s.pc + (j + 1)] == Token::Add(1));
        }
        lemma_units_add(e, mt2, s1, (k - 1) as nat, (fuel - 1) as nat);
        let w = s1.tape[s.ptr];
        assert(w == ((v + 1) % 256) as u8);
        lemma_small_mod((k - 1) as nat, 256);
        lemma_add_mod_noop(v + 1, k - 1, 256);
        assert((w + (k - 1)) % 256 == (v + k) % 256);
        assert(s1.tape.update(s.ptr, ((w + (k - 1)) % 256) as u8) =~= s.tape.update(
            s.ptr,
            ((v + k) % 256) as u8,
        ));
        assert(MState {
            tape: s1.tape.update(s.ptr, ((s1.tape[s.ptr] + (k - 1)) % 256) as u8),
            pc: s1.pc + (k - 1),
            ..s1
        } =~= MState {
            tape: s.tape.update(s.ptr, ((v + k) % 256) as u8),
            pc: s.pc + k,
            ..s
        });
    }
}

proof fn lemma_units_sub(e: Seq<Token>, mt2: Seq<usize>, s: MState, k: nat, fuel: nat)
    requires
        0 <= s.ptr < s.tape.len(),
        0 <= s.pc,
        s.pc + k <= e.len(),
        k <= 255,
        forall|j: int| 0 <= j < k ==> #[trigger] e[s.pc + j] == Token::Sub(1),
        fuel >= k,
    ensures
        spec_run(e, mt2, s, fuel) == spec_run(
            e,
            mt2,
            MState {
                tape: s.tape.update(s.ptr, ((s.tape[s.ptr] + 256 - k) % 256) as u8),
                pc: s.pc + k,
                ..s
            },
            (fuel - k) as nat,
        ),
    decreases k,
{
    let v = s.tape[s.ptr];
    if k == 0 {
        lemma_mod_add_multiples_vanish(v as int, 256);
        lemma_small_mod(v as nat, 256);
        assert(s.tape.update(s.ptr, ((v + 256) % 256) as u8) =~= s.tape);
        assert(MState { tape: s.tape.update(s.ptr, ((v + 256 - 0) % 256) as u8), pc: s.pc + 0, ..s }
            =~= s);
    } else {
        assert(e[s.pc] == Token::Sub(1));
        let s1 = MState { tape: s.tape.update(s.ptr, ((v + 255) % 256) as u8), pc: s.pc + 1, ..s };
        assert(spec_step(e, mt2, s) == Some(s1));
        assert forall|j: int| 0 <= j < k - 1 implies #[trigger] e[s1.pc + j] == Token::Sub(1) by {
            assert(e[s.pc + (j + 1)] == Token::Sub(1));
        }
        lemma_units_sub(e, mt2, s1, (k - 1) as nat, (fuel - 1) as nat);
        let w = s1.tape[s.ptr];
        assert(w == ((v + 255) % 256) as u8);
        if k == 1 {
            lemma_mod_add_multiples_vanish(w as int, 256);
            lemma_small_mod(w as nat, 256);
            assert((w + 256 - (k - 1)) % 256 == (v + 256 - k) % 256);
        } else {
            lemma_small_mod((257 - k) as nat, 256);
            lemma_add_mod_noop(v + 255, 257 - k, 256);
            lemma_mod_add_multiples_vanish(v + 256 - k, 256);
            assert((w + 256 - (k - 1)) % 256 == (v + 256 - k) % 256);
        }
        assert(MState {
            tape: s1.tape.update(s.ptr, ((s1.tape[s.ptr] + 256 - (k - 1)) % 256) as u8),
            pc: s1.pc + (k - 1),
            ..s1
        } =~= MState {
            tape: s.tape.update(s.ptr, ((v + 256 - k) % 256) as u8),
            pc: s.pc + k,
            ..s
        });
    }
}


/// Count carried by a counted token; 1 for every other token.
pub open spec fn count_of(tk: Token) -> nat {
    match tk {
        Token::Forward(n) => n as nat,
        Token::Backward(n) => n as nat,
        Token::Add(n) => n as nat,
        Token::Sub(n) => n as nat,
        _ => 1,
    }
}

proof fn lemma_sim_counted_step(
    t: Seq<Token>,
    mt: Seq<usize>,
    mt2: Seq<usize>,
    s: MState,
    extra: nat,
)
    requires
        0 <= s.pc < t.len(),
        t[s.pc] is Forward || t[s.pc] is Backward || t[s.pc] is Add || t[s.pc] is Sub,
        0 <= s.ptr < s.tape.len(),
        spec_step(t, mt, s) is Some,
    ensures
        spec_run(expand_tokens(t), mt2, corr_state(t, s), extra + count_of(t[s.pc])) == spec_run(
            expand_tokens(t),
            mt2,
            corr_state(t, spec_step(t, mt, s)->Some_0),
            extra,
        ),
{
    let e = expand_tokens(t);
    let s1 = spec_step(t, mt, s)->Some_0;
    let p = exp_pos(t, s.pc) as int;
    lemma_expand_at(t, s.pc);
    match t[s.pc] {
        Token::Forward(n) => {
            assert forall|j: int| 0 <= j < n implies #[trigger] e[p + j] == Token::Forward(1) by {
                assert(expand_one(t[s.pc])[j] == Token::Forward(1));
                assert(e[exp_pos(t, s.pc) + j] == expand_one(t[s.pc])[j]);
            }
            lemma_units_forward(e, mt2, corr_state(t, s), n as nat, extra + n as nat);
            assert(MState { ptr: s.ptr + n, pc: p + n, ..corr_state(t, s) } =~= corr_state(t, s1));
        },
        Token::Backward(n) => {
            assert forall|j: int| 0 <= j < n implies #[trigger] e[p + j] == Token::Backward(1) by {
                assert(expand_one(t[s.pc])[j] == Token::Backward(1));
                assert(e[exp_pos(t, s.pc) + j] == expand_one(t[s.pc])[j]);
            }
            lemma_units_backward(e, mt2, corr_state(t, s), n as nat, extra + n as nat);
            assert(MState { ptr: s.ptr - n, pc: p + n, ..corr_state(t, s) } =~= corr_state(t, s1));
        },
        Token::Add(n) => {
            assert forall|j: int| 0 <= j < n implies #[trigger] e[p + j] == Token::Add(1) by {
                assert(expand_one(t[s.pc])[j] == Token::Add(1));
                assert(e[exp_pos(t, s.pc) + j] == expand_one(t[s.pc])[j]);
            }
            lemma_units_add(e, mt2, corr_state(t, s), n as nat, extra + n as nat);
            assert(MState {
                tape: s.tape.update(s.ptr, ((s.tape[s.ptr] + n) % 256) as u8),
                pc: p + n,
                ..corr_state(t, s)
            } =~= corr_state(t, s1));
        },
        Token::Sub(n) => {
            assert forall|j: int| 0 <= j < n implies #[trigger] e[p + j] == Token::Sub(1) by {
                assert(expand_one(t[s.pc])[j] == Token::Sub(1));
                assert(e[exp_pos(t, s.pc) + j] == expand_one(t[s.pc])[j]);
            }
            lemma_units_sub(e, mt2, corr_state(t, s), n as nat, extra + n as nat);
            assert(MState {
                tape: s.tape.update(s.ptr, ((s.tape[s.ptr] + 256 - n) % 256) as u8),
                pc: p + n,
                ..corr_state(t, s)
            } =~= corr_state(t, s1));
        },
        _ => {},
    }
}

proof fn lemma_sim_single_step(t: Seq<Token>, mt: Seq<usize>, mt2: Seq<usize>, s: MState)
    requires
        matches_ok(t, mt),
        tables_correspond(t, mt, mt2),
        0 <= s.pc < t.len(),
        t[s.pc] is Output || t[s.pc] is Input || t[s.pc] is LoopBegin || t[s.pc] is LoopEnd,
        spec_step(t, mt, s) is Some,
    ensures
        exp_pos(t, s.pc) + 1 <= expand_tokens(t).len(),
        spec_step(expand_tokens(t), mt2, corr_state(t, s)) == Some(
            corr_state(t, spec_step(t, mt, s)->Some_0),
        ),
{
    let e = expand_tokens(t);
    let s1 = spec_step(t, mt, s)->Some_0;
    let p = exp_pos(t, s.pc) as int;
    lemma_expand_at(t, s.pc);
    assert(expand_one(t[s.pc])[0] == t[s.pc]);
    assert(e[exp_pos(t, s.pc) as int + 0] == expand_one(t[s.pc])[0]);
    assert(e[p] == t[s.pc]);
    match t[s.pc] {
        Token::LoopBegin => {
            if s.tape[s.ptr] == 0 {
                let b = mt[s.pc] as int;
                lemma_expand_at(t, b);
                assert(expand_one(t[b]).len() == 1);
                assert(mt2[p] as int == exp_pos(t, b));
                assert(s1.pc == b + 1);
            }
            assert(spec_step(e, mt2, corr_state(t, s))->Some_0 =~= corr_state(t, s1));
        },
        Token::LoopEnd => {
            if s.tape[s.ptr] != 0 {
                let b = mt[s.pc] as int;
                lemma_expand_at(t, b);
                assert(expand_one(t[b]).len() == 1);
                assert(mt2[p] as int == exp_pos(t, b));
                assert(s1.pc == b + 1);
            }
            assert(spec_step(e, mt2, corr_state(t, s))->Some_0 =~= corr_state(t, s1));
        },
        _ => {
            assert(spec_step(e, mt2, corr_state(t, s))->Some_0 =~= corr_state(t, s1));
        },
    }
}

/// Folding preserves behavior: a counted program and its unit-operation
/// expansion compute the same run. If the counted program completes, the
/// expanded program completes from the corresponding start state with the
/// same tape, data pointer, input cursor and output.
#[verifier::rlimit(100)]
#[verifier::spinoff_prover]
pub proof fn lemma_expansion_preserves_run(
    t: Seq<Token>,
    mt: Seq<usize>,
    mt2: Seq<usize>,
    s: MState,
    fuel: nat,
)
    requires
        matches_ok(t, mt),
        matches_ok(expand_tokens(t), mt2),
        tables_correspond(t, mt, mt2),
        mstate_wf(t, s),
        spec_run(t, mt, s, fuel) is Some,
    ensures
        exists|fuel2: nat|
            spec_run(expand_tokens(t), mt2, corr_state(t, s), fuel2) == Some(
                corr_state(t, spec_run(t, mt, s, fuel)->Some_0),
            ),
    decreases fuel,
{
    let e = expand_tokens(t);
    let sf = spec_run(t, mt, s, fuel)->Some_0;
    if s.pc == t.len() {
        lemma_exp_pos_end(t);
        assert(spec_run(e, mt2, corr_state(t, s), 0) == Some(corr_state(t, s)));
    } else {
        let s1 = spec_step(t, mt, s)->Some_0;
        assert(spec_run(t, mt, s, fuel) == spec_run(t, mt, s1, (fuel - 1) as nat));
        assert(mstate_wf(t, s1));
        lemma_expansion_preserves_run(t, mt, mt2, s1, (fuel - 1) as nat);
        let f1 = choose|f2: nat|
            spec_run(e, mt2, corr_state(t, s1), f2) == Some(corr_state(t, sf));
        lemma_expand_at(t, s.pc);
        if t[s.pc] is Forward || t[s.pc] is Backward || t[s.pc] is Add || t[s.pc] is Sub {
            lemma_sim_counted_step(t, mt, mt2, s, f1);
            assert(spec_run(e, mt2, corr_state(t, s), f1 + count_of(t[s.pc])) == Some(
                corr_state(t, sf),
            ));
        } else {
            lemma_sim_single_step(t, mt, mt2, s);
            assert(spec_run(e, mt2, corr_state(t, s), f1 + 1) == Some(corr_state(t, sf)));
        }
    }
}

/// Run-length folding preserves behavior, stated over sources: when no run
/// wraps its folded count, a completed run of the folded tokenization is
/// matched by a run of the unfolded tokenization with the same tape, data
/// pointer, input cursor and output.
pub proof fn lemma_fold_preserves_behavior(
    src: Seq<char>,
    opt_level: u8,
    mt: Seq<usize>,
    mt0: Seq<usize>,
    s: MState,
    fuel: nat,
)
    requires
        runs_bounded(src),
        matches_ok(spec_tokenize(src, opt_level), mt),
        matches_ok(spec_tokenize(src, 0), mt0),
        tables_correspond(spec_tokenize(src, opt_level), mt, mt0),
        mstate_wf(spec_tokenize(src, opt_level), s),
        spec_run(spec_tokenize(src, opt_level), mt, s, fuel) is Some,
    ensures
        exists|fuel2: nat|
            spec_run(
                spec_tokenize(src, 0),
                mt0,
                corr_state(spec_tokenize(src, opt_level), s),
                fuel2,
            ) == Some(
                corr_state(
                    spec_tokenize(src, opt_level),
                    spec_run(spec_tokenize(src, opt_level), mt, s, fuel)->Some_0,
                ),
            ),
{
    lemma_fold_expand(src, opt_level);
    lemma_expansion_preserves_run(spec_tokenize(src, opt_level), mt, mt0, s, fuel);
}

/// A program with no cell-writing operator leaves the tape exactly as it
/// found it: only `Add`, `Sub` and `Input` ever store to the tape.
pub proof fn lemma_pure_moves_run(t: Seq<Token>, mt: Seq<usize>, s: MState, fuel: nat)
    requires
        no_tape_writes(t),
        spec_run(t, mt, s, fuel) is Some,
    ensures
        spec_run(t, mt, s, fuel)->Some_0.tape == s.tape,
    decreases fuel,
{
    if s.pc == t.len() {
    } else if 0 <= s.pc < t.len() && fuel > 0 {
        let s2o = spec_step(t, mt, s);
        if s2o is Some {
            assert(!(t[s.pc] is Add) && !(t[s.pc] is Sub) && !(t[s.pc] is Input));
            assert(s2o->Some_0.tape == s.tape);
            lemma_pure_moves_run(t, mt, s2o->Some_0, (fuel - 1) as nat);
        }
    }
}

} // verus!
