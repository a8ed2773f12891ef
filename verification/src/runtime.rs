use vstd::prelude::*;

use crate::codegen::{
    lemma_pos_bound, spec_code, spec_osr_offsets, total_size, CGContext, Codegen, MAX_SOURCE_LEN,
};
use crate::token::{count_char, lemma_tokenize_len, spec_tokenize, src_balanced};

verus! {

/// Granularity of the executable mapping a routine is copied into; a buffer's
/// length is always rounded up to a whole number of pages.
pub const PAGE_SIZE: usize = 4096;

/// One-byte encodings of the OSR patch protocol: the no-op emitted at every
/// `LoopEnd`, and the breakpoint a mutator overwrites it with.
pub const NOP_BYTE: u8 = 0x90;

pub const BREAKPOINT_BYTE: u8 = 0xCC;

pub open spec fn page_round_up(n: int) -> int {
    ((n + 4095) / 4096) * 4096
}

/// A routine's bytes extended with zeros to a whole number of pages.
pub open spec fn pad_to_page(s: Seq<u8>) -> Seq<u8> {
    s + Seq::new((page_round_up(s.len() as int) - s.len()) as nat, |i: int| 0u8)
}

/// The model of one executable code region: a page-rounded byte buffer that
/// holds a compiled routine and accepts single-byte patches, the only write
/// the OSR protocol ever performs on installed code.
pub struct CodeBuffer {
    bytes: Vec<u8>,
}

impl View for CodeBuffer {
    type V = Seq<u8>;

    closed spec fn view(&self) -> Seq<u8> {
        self.bytes@
    }
}

impl CodeBuffer {
    /// Copies a routine into a fresh page-rounded buffer; the slack up to the
    /// page boundary is zeroed.
    pub fn new(data: &Vec<u8>) -> (r: CodeBuffer)
        requires
            data@.len() + 4095 <= usize::MAX,
        ensures
            r@ == pad_to_page(data@),
            r@.len() == page_round_up(data@.len() as int),
            r@.len() % 4096 == 0,
            data@.len() <= r@.len(),
    {
        let size = ((data.len() + 4095) / 4096) * 4096;
        proof {
            assert(size >= data@.len() && size % 4096 == 0) by (nonlinear_arith)
                requires
                    size == ((data@.len() + 4095) as int / 4096) * 4096,
                    data@.len() + 4095 <= usize::MAX,
            ;
        }
        let mut bytes: Vec<u8> = Vec::new();
        let mut i: usize = 0;
        while i < data.len()
            invariant
                i <= data@.len(),
                bytes@ =~= data@.take(i as int),
            decreases data@.len() - i,
        {
            bytes.push(data[i]);
            i = i + 1;
        }
        proof {
            assert(bytes@ =~= data@);
        }
        while bytes.len() < size
            invariant
                data@.len() <= bytes@.len() <= size,
                bytes@.take(data@.len() as int) =~= data@,
                forall|j: int| data@.len() <= j < bytes@.len() ==> bytes@[j] == 0u8,
            decreases size - bytes@.len(),
        {
            bytes.push(0);
        }
        proof {
            assert(bytes@ =~= pad_to_page(data@));
        }
        CodeBuffer { bytes }
    }

    pub fn len(&self) -> (r: usize)
        ensures
            r == self@.len(),
    {
        self.bytes.len()
    }

    /// Reads one byte of the region.
    pub fn byte_at(&self, i: usize) -> (r: u8)
        requires
            i < self@.len(),
        ensures
            r == self@[i as int],
    {
        self.bytes[i]
    }

    /// Overwrites one byte of the region, the only mutation the protocol
    /// allows on installed code.
    pub fn patch(&mut self, i: usize, b: u8)
        requires
            i < old(self)@.len(),
        ensures
            final(self)@ == old(self)@.update(i as int, b),
    {
        self.bytes.set(i, b);
    }

    /// The whole region, for the host that copies it into executable memory.
    pub fn contents(&self) -> (r: &Vec<u8>)
        ensures
            r@ == self@,
    {
        &self.bytes
    }
}

/// Structural soundness of a buffer's OSR offsets: each one leaves room for
/// the NOP and the loop-closing compare-and-branch behind it, and they are
/// strictly increasing (hence distinct).
pub open spec fn offsets_wf(code: Seq<u8>, offs: Seq<usize>) -> bool {
    &&& forall|k: int| 0 <= k < offs.len() ==> #[trigger] offs[k] + 10 <= code.len()
    &&& forall|k1: int, k2: int| 0 <= k1 < k2 < offs.len() ==> offs[k1] < offs[k2]
}

/// The OSR coordinator's state: the retained source, the active compilation,
/// and the staged replacement, if any. The host runs the active buffer's
/// copy; a mutator stages a fresh compilation and patches breakpoints; the
/// trap decision logic swaps the pending pair in.
pub struct Runtime {
    source: String,
    current_code: (CodeBuffer, Vec<usize>),
    new_code: Option<(CodeBuffer, Vec<usize>)>,
}

impl Runtime {
    pub closed spec fn source_view(self) -> Seq<char> {
        self.source@
    }

    pub closed spec fn active_code(self) -> Seq<u8> {
        self.current_code.0@
    }

    pub closed spec fn active_offsets(self) -> Seq<usize> {
        self.current_code.1@
    }

    pub closed spec fn pending(self) -> Option<(Seq<u8>, Seq<usize>)> {
        match self.new_code {
            Some(p) => Some((p.0@, p.1@)),
            None => None,
        }
    }

    /// Every buffer's offsets are sound for it, and active and pending record
    /// one offset per `]` of the source, so matching offsets by index across
    /// a swap is meaningful.
    pub open spec fn wf(self) -> bool {
        &&& src_balanced(self.source_view())
        &&& self.source_view().len() <= MAX_SOURCE_LEN
        &&& offsets_wf(self.active_code(), self.active_offsets())
        &&& self.active_offsets().len() == count_char(self.source_view(), ']')
        &&& match self.pending() {
            Some((c, o)) => offsets_wf(c, o) && o.len() == count_char(self.source_view(), ']'),
            None => true,
        }
    }

    /// Builds the initial runtime: the source compiled at optimization level
    /// 0 against the given I/O helper addresses, installed as the active
    /// buffer, with nothing pending.
    pub fn new(source: String, putchar: u64, getchar: u64) -> (r: Runtime)
        requires
            src_balanced(source@),
            source@.len() <= MAX_SOURCE_LEN,
        ensures
            r.wf(),
            r.source_view() == source@,
            r.pending() is None,
            r.active_code() == pad_to_page(
                spec_code(spec_tokenize(source@, 0), putchar, getchar),
            ),
            r.active_offsets().map_values(|x: usize| x as int) == spec_osr_offsets(
                spec_tokenize(source@, 0),
            ),
    {
        let cg = Codegen::new(CGContext { putchar, getchar, opt_level: 0 });
        let jit = cg.translate(source.as_str());
        proof {
            lemma_tokenize_len(source@, 0);
            lemma_pos_bound(
                spec_tokenize(source@, 0),
                spec_tokenize(source@, 0).len() as int,
            );
        }
        let buf = CodeBuffer::new(&jit.buffer);
        Runtime {
            source,
            current_code: (buf, jit.loop_end_patch_offsets),
            new_code: None,
        }
    }

    /// The buffer currently being executed.
    pub fn active_buffer(&self) -> (r: &CodeBuffer)
        ensures
            r@ == self.active_code(),
    {
        &self.current_code.0
    }

    /// The OSR-safe offsets of the active buffer, in source order.
    pub fn active_osr_offsets(&self) -> (r: &Vec<usize>)
        ensures
            r@ == self.active_offsets(),
    {
        &self.current_code.1
    }

    /// Whether a staged replacement is waiting for the next trap.
    pub fn has_pending(&self) -> (r: bool)
        ensures
            r == (self.pending() is Some),
    {
        self.new_code.is_some()
    }

    /// A mutator's OSR request: recompile the source under `ctx`, stage the
    /// result as pending (displacing any earlier pending), then overwrite the
    /// NOP at every OSR offset of the active buffer with the breakpoint byte.
    /// Bytes at other offsets are untouched.
    pub fn do_osr(&mut self, ctx: CGContext)
        requires
            old(self).wf(),
        ensures
            final(self).wf(),
            final(self).source_view() == old(self).source_view(),
            final(self).active_offsets() == old(self).active_offsets(),
            final(self).active_code().len() == old(self).active_code().len(),
            ({
                let toks = spec_tokenize(old(self).source_view(), ctx.opt_level);
                match final(self).pending() {
                    Some((c, o)) => c == pad_to_page(spec_code(toks, ctx.putchar, ctx.getchar))
                        && o.map_values(|x: usize| x as int) == spec_osr_offsets(toks),
                    None => false,
                }
            }),
            forall|k: int|
                0 <= k < old(self).active_offsets().len() ==> final(self).active_code()[#[trigger] old(
                    self,
                ).active_offsets()[k] as int] == BREAKPOINT_BYTE,
            forall|i: int|
                0 <= i < old(self).active_code().len() && !old(self).active_offsets().contains(
                    i as usize,
                ) ==> final(self).active_code()[i] == old(self).active_code()[i],
    {
        let cg = Codegen::new(ctx);
        let jit = cg.translate(self.source.as_str());
        proof {
            lemma_tokenize_len(self.source@, ctx.opt_level);
            lemma_pos_bound(
                spec_tokenize(self.source@, ctx.opt_level),
                spec_tokenize(self.source@, ctx.opt_level).len() as int,
            );
        }
        let buf = CodeBuffer::new(&jit.buffer);
        self.new_code = Some((buf, jit.loop_end_patch_offsets));

        let ghost src0 = self.source@;
        let ghost offs0 = self.current_code.1@;
        let ghost code0 = self.current_code.0@;
        let ghost staged0 = self.pending();
        let n = self.current_code.1.len();
        let mut k: usize = 0;
        while k < n
            invariant
                k <= n,
                n == self.current_code.1@.len(),
                self.source@ == src0,
                self.current_code.1@ == offs0,
                self.pending() == staged0,
                self.current_code.0@.len() == code0.len(),
                offsets_wf(code0, offs0),
                forall|j: int|
                    0 <= j < k ==> self.current_code.0@[#[trigger] offs0[j] as int]
                        == BREAKPOINT_BYTE,
                forall|i: int|
                    0 <= i < code0.len() && !offs0.take(k as int).contains(i as usize)
                        ==> self.current_code.0@[i] == code0[i],
            decreases n - k,
        {
            let off = self.current_code.1[k];
            self.current_code.0.patch(off, BREAKPOINT_BYTE);
            k = k + 1;
            proof {
                assert(offs0.take(k as int) =~= offs0.take(k as int - 1).push(off));
                assert(offs0.take(k as int)[k as int - 1] == off);
                assert forall|i: int|
                    0 <= i < code0.len() && !offs0.take(k as int).contains(
                        i as usize,
                    ) implies self.current_code.0@[i] == code0[i] by {
                    assert(offs0.take(k as int).contains(off));
                    if offs0.take(k as int - 1).contains(i as usize) {
                        let q = choose|q: int|
                            0 <= q < k - 1 && #[trigger] offs0.take(k as int - 1)[q] == i as usize;
                        assert(offs0.take(k as int)[q] == i as usize);
                    }
                }
            }
        }
        proof {
            assert(offs0.take(n as int) =~= offs0);
        }
    }

    /// The executor's trap decision. `ip_offset` is the faulting instruction
    /// pointer relative to the active buffer's base; the breakpoint byte sits
    /// one byte before it. If that byte is the `k`-th OSR offset of the
    /// active buffer and a pending compilation is staged, the pending pair
    /// becomes active and the offset to resume at — the `k`-th OSR offset of
    /// the new buffer — is returned. Otherwise nothing changes and `None`
    /// says the trap does not follow the protocol.
    pub fn handle_trap(&mut self, ip_offset: usize) -> (r: Option<usize>)
        requires
            old(self).wf(),
        ensures
            final(self).wf(),
            final(self).source_view() == old(self).source_view(),
            r is Some <==> (old(self).pending() is Some && ip_offset >= 1 && old(
                self,
            ).active_offsets().contains((ip_offset - 1) as usize)),
            r is None ==> *final(self) == *old(self),
            r is Some ==> match old(self).pending() {
                Some((c, o)) => {
                    &&& final(self).active_code() == c
                    &&& final(self).active_offsets() == o
                    &&& final(self).pending() is None
                    &&& exists|k: int|
                        0 <= k < old(self).active_offsets().len() && old(
                            self,
                        ).active_offsets()[k] as int == ip_offset - 1 && o[k] as int
                            == r->Some_0 as int
                },
                None => false,
            },
    {
        if ip_offset == 0 {
            return None;
        }
        let target = ip_offset - 1;
        let n = self.current_code.1.len();
        let mut idx: usize = n;
        let mut k: usize = 0;
        while k < n
            invariant
                k <= n,
                n == self.current_code.1@.len(),
                *self == *old(self),
                idx == n || (idx < k && self.current_code.1@[idx as int] == target),
                idx == n ==> forall|j: int| 0 <= j < k ==> self.current_code.1@[j] != target,
            decreases n - k,
        {
            if self.current_code.1[k] == target {
                idx = k;
            }
            k = k + 1;
        }
        if idx == n {
            proof {
                assert(!old(self).active_offsets().contains(target));
            }
            return None;
        }
        match self.new_code.take() {
            Some(pair) => {
                self.current_code = pair;
                proof {
                    assert(old(self).active_offsets()[idx as int] == target);
                }
                Some(self.current_code.1[idx])
            },
            None => None,
        }
    }
}

} // verus!
