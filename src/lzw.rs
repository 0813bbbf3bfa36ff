//! The adaptive LZW decoder of the Unix `compress` format.
//!
//! Codes 0 to 255 stand for single bytes, code 256 clears the dictionary,
//! and every later code names an entry learnt while decoding. Codes start 9
//! bits wide and widen by one bit each time the dictionary fills the current
//! code space, up to 16 bits.
use crate::bits::{bits_value, stream_bits, BitReader};
use std::collections::VecDeque;
use vstd::arithmetic::power2::*;
use vstd::prelude::*;

verus! {

/// The code that clears the dictionary.
pub const CLEAR_TABLE: usize = 256;

/// The first code given to a learnt entry.
pub const FIRST_CODE: usize = 257;

/// The width of codes after a start or a clear.
pub const INITIAL_CODESIZE: usize = 9;

/// The widest code.
pub const MAX_CODESIZE: usize = 16;

/// The number of codes that 16 bits can name: the dictionary never holds more.
pub const MAX_ENTRIES: usize = 65536;

/// The first of the three bytes that open a `.Z` file.
pub const MAGIC_0: u8 = 0x1f;

/// The second magic byte.
pub const MAGIC_1: u8 = 0x9d;

/// The third magic byte: block mode with codes of at most 16 bits.
pub const MAGIC_2: u8 = 0x90;

/// Whether `data` opens with the `.Z` magic bytes.
pub open spec fn has_magic(data: Seq<u8>) -> bool {
    &&& data.len() >= 3
    &&& data[0] == MAGIC_0
    &&& data[1] == MAGIC_1
    &&& data[2] == MAGIC_2
}

/// Why decoding failed.
#[derive(Debug, Clone, Copy, PartialEq, Eq, Structural)]
pub enum LzwError {
    /// The stream does not start with the `compress` magic bytes.
    BadHeader,
    /// A code names no dictionary entry: the input is corrupt or truncated.
    UnknownCode,
}

/// The dictionary state of a decoder. The next code to be learnt is
/// `table.len()`.
pub struct DictState {
    pub table: Seq<Seq<u8>>,
    pub previous: Seq<u8>,
    pub codesize: nat,
}

impl DictState {
    pub open spec fn next_code(self) -> nat {
        self.table.len()
    }

    pub open spec fn wf(self) -> bool {
        &&& FIRST_CODE <= self.table.len() <= MAX_ENTRIES
        &&& forall|i: int|
            0 <= i < self.table.len() && i != CLEAR_TABLE ==> #[trigger] self.table[i].len() > 0
        &&& self.codesize == width_for(self.table.len())
    }
}

/// The code width that belongs to a dictionary whose next code is `next`.
pub open spec fn width_for(next: nat) -> nat {
    if next < 0x200 {
        9
    } else if next < 0x400 {
        10
    } else if next < 0x800 {
        11
    } else if next < 0x1000 {
        12
    } else if next < 0x2000 {
        13
    } else if next < 0x4000 {
        14
    } else if next < 0x8000 {
        15
    } else {
        16
    }
}

/// The width after the next code has become `next`: one bit more once the
/// code space of the current width is full, up to the widest code.
pub open spec fn widened(codesize: nat, next: nat) -> nat {
    if codesize < MAX_CODESIZE && next >= pow2(codesize) {
        codesize + 1
    } else {
        codesize
    }
}

/// The base table: one entry per byte value, then the empty entry that the
/// clear code occupies.
pub open spec fn base_table() -> Seq<Seq<u8>> {
    Seq::new(
        FIRST_CODE as nat,
        |i: int|
            if i < CLEAR_TABLE {
                seq![i as u8]
            } else {
                Seq::empty()
            },
    )
}

/// The state after a start or a clear.
pub open spec fn initial_dict() -> DictState {
    DictState { table: base_table(), previous: Seq::empty(), codesize: INITIAL_CODESIZE as nat }
}

/// The state after `out` was decoded: unless `out` is the first sequence
/// since a start or a clear, the previous sequence followed by the first
/// byte of `out` is learnt, while there is room.
pub open spec fn learn(d: DictState, out: Seq<u8>) -> DictState {
    if d.previous.len() == 0 || d.table.len() >= MAX_ENTRIES {
        DictState { previous: out, ..d }
    } else {
        DictState {
            table: d.table.push(d.previous.push(out[0])),
            previous: out,
            codesize: widened(d.codesize, d.table.len() + 1),
        }
    }
}

/// One decoding step on `code`: the new state and the bytes it stands for.
pub open spec fn step(d: DictState, code: nat) -> Result<(DictState, Seq<u8>), LzwError> {
    if code == CLEAR_TABLE {
        Ok((initial_dict(), Seq::empty()))
    } else if code == d.table.len() {
        if d.previous.len() == 0 {
            Err(LzwError::UnknownCode)
        } else {
            let out = d.previous.push(d.previous[0]);
            Ok((learn(d, out), out))
        }
    } else if code < d.table.len() {
        let out = d.table[code as int];
        Ok((learn(d, out), out))
    } else {
        Err(LzwError::UnknownCode)
    }
}

/// What a decoder holds: the compressed bits, how many of them were read,
/// the dictionary, and the decoded bytes not yet handed out.
pub struct DecoderView {
    pub bits: Seq<bool>,
    pub pos: nat,
    pub dict: DictState,
    pub pending: Seq<u8>,
}

impl DecoderView {
    pub open spec fn wf(self) -> bool {
        &&& self.pos <= self.bits.len()
        &&& self.dict.wf()
    }
}

/// The next code in the stream, or `None` when too few bits remain.
pub open spec fn next_read(v: DecoderView) -> Option<nat> {
    if v.pos + v.dict.codesize <= v.bits.len() {
        Some(bits_value(v.bits.subrange(v.pos as int, (v.pos + v.dict.codesize) as int)))
    } else {
        None
    }
}

/// One decode step on a decoder: `Ok(None)` at the end of the stream.
pub open spec fn advance_spec(v: DecoderView) -> Result<Option<DecoderView>, LzwError> {
    match next_read(v) {
        None => Ok(None),
        Some(code) => match step(v.dict, code) {
            Err(e) => Err(e),
            Ok((d, out)) => Ok(
                Some(
                    DecoderView {
                        bits: v.bits,
                        pos: v.pos + v.dict.codesize,
                        dict: d,
                        pending: v.pending + out,
                    },
                ),
            ),
        },
    }
}

/// The pending bytes followed by all that the rest of the stream decodes to.
pub open spec fn decode_all(v: DecoderView) -> Result<Seq<u8>, LzwError>
    decreases v.bits.len() - v.pos,
    when v.dict.codesize > 0
{
    match advance_spec(v) {
        Err(e) => Err(e),
        Ok(None) => Ok(v.pending),
        Ok(Some(w)) => decode_all(w),
    }
}

/// Decoding until at least `k` bytes are pending or the stream ends.
pub open spec fn fill(v: DecoderView, k: nat) -> Result<DecoderView, LzwError>
    decreases v.bits.len() - v.pos,
    when v.dict.codesize > 0
{
    if v.pending.len() >= k {
        Ok(v)
    } else {
        match advance_spec(v) {
            Err(e) => Err(e),
            Ok(None) => Ok(v),
            Ok(Some(w)) => fill(w, k),
        }
    }
}

/// A read of up to `k` bytes: the decoder after it and the bytes handed out.
pub open spec fn read_spec(v: DecoderView, k: nat) -> Result<(DecoderView, Seq<u8>), LzwError> {
    match fill(v, k) {
        Err(e) => Err(e),
        Ok(w) => {
            let n = if w.pending.len() < k {
                w.pending.len()
            } else {
                k
            };
            Ok((DecoderView { pending: w.pending.skip(n as int), ..w }, w.pending.take(n as int)))
        },
    }
}

proof fn lemma_width_steps(next: nat)
    requires
        FIRST_CODE <= next < MAX_ENTRIES,
    ensures
        widened(width_for(next), next + 1) == width_for(next + 1),
        9 <= width_for(next) <= 16,
{
    lemma2_to64();
}

/// A step keeps the dictionary well formed.
pub proof fn lemma_step_wf(d: DictState, code: nat)
    requires
        d.wf(),
    ensures
        step(d, code) matches Ok((d2, out)) ==> {
            &&& d2.wf()
            &&& d2.previous == out
            &&& code != CLEAR_TABLE ==> out.len() > 0
        },
{
    lemma2_to64();
    if step(d, code) is Ok && code != CLEAR_TABLE {
        let (d2, out) = step(d, code).unwrap();
        if d.previous.len() > 0 && d.table.len() < MAX_ENTRIES {
            lemma_width_steps(d.table.len());
            assert(d2.table.len() == d.table.len() + 1);
            assert forall|i: int|
                0 <= i < d2.table.len() && i != CLEAR_TABLE implies #[trigger] d2.table[i].len()
                > 0 by {
                if i < d.table.len() {
                    assert(d2.table[i] == d.table[i]);
                }
            }
        }
    }
}

/// The base table's width and size.
pub proof fn lemma_initial_wf()
    ensures
        initial_dict().wf(),
{
    lemma2_to64();
}

/// A clear code puts every dictionary back to the same base state, with
/// 9-bit codes and 257 as the next code, and produces no bytes; in a decoder
/// it leaves everything else as it was, so that decoding goes on as if the
/// rest of the stream had been handed to a fresh decoder.
pub proof fn lemma_clear_restarts(v: DecoderView)
    requires
        v.wf(),
        next_read(v) == Some(CLEAR_TABLE as nat),
    ensures
        step(v.dict, CLEAR_TABLE as nat) == Ok::<(DictState, Seq<u8>), LzwError>(
            (initial_dict(), Seq::empty()),
        ),
        initial_dict().codesize == 9,
        initial_dict().next_code() == 257,
        initial_dict().previous.len() == 0,
        advance_spec(v) == Ok::<Option<DecoderView>, LzwError>(
            Some(
                DecoderView {
                    bits: v.bits,
                    pos: v.pos + v.dict.codesize,
                    dict: initial_dict(),
                    pending: v.pending,
                },
            ),
        ),
{
    assert(v.pending + Seq::<u8>::empty() =~= v.pending);
}

/// A code that names the entry about to be learnt decodes to the previous
/// sequence followed by its own first byte, and that sequence is then stored
/// under the code.
pub proof fn lemma_self_reference(d: DictState, code: nat)
    requires
        d.wf(),
        d.previous.len() > 0,
        code == d.next_code(),
        code < MAX_ENTRIES,
    ensures
        step(d, code) matches Ok((d2, out)) && out == d.previous.push(d.previous[0])
            && d2.table.len() == code + 1 && d2.table[code as int] == out,
{
    lemma2_to64();
}

/// The code width follows the size of the dictionary: it is 9 bits until
/// the next code reaches 512, grows by one bit exactly when the next code
/// reaches a new power of two, and never exceeds 16 bits.
pub proof fn lemma_codesize_follows_dictionary(d: DictState, code: nat)
    requires
        d.wf(),
    ensures
        INITIAL_CODESIZE <= d.codesize <= MAX_CODESIZE,
        d.codesize == 9 <==> d.next_code() < 512,
        step(d, code) matches Ok((d2, _)) ==> {
            &&& d2.wf()
            &&& INITIAL_CODESIZE <= d2.codesize <= MAX_CODESIZE
            &&& (d.codesize == 9 && d2.codesize == 10) <==> (d.next_code() == 511
                && d2.next_code() == 512)
        },
{
    lemma2_to64();
    lemma_step_wf(d, code);
}

/// After the first sequence since a start or a clear, every code teaches the
/// dictionary one entry, while there is room: the previous sequence extended
/// by one byte, so each entry is longer than the sequence it grew from.
pub proof fn lemma_entries_grow(d: DictState, code: nat)
    requires
        d.wf(),
        d.previous.len() > 0,
        d.next_code() < MAX_ENTRIES,
        code != CLEAR_TABLE,
    ensures
        step(d, code) matches Ok((d2, out)) ==> {
            &&& d2.next_code() == d.next_code() + 1
            &&& d2.table.last() == d.previous.push(out[0])
            &&& d2.table.last().len() == d.previous.len() + 1
            &&& d2.table.subrange(0, d.next_code() as int) == d.table
        },
{
    if step(d, code) is Ok {
        let (d2, out) = step(d, code).unwrap();
        assert(d2.table.subrange(0, d.next_code() as int) =~= d.table);
    }
}

/// `m` reads of up to `k` bytes each, stopping after the first read that
/// hands out nothing: the decoder after them, all bytes handed out, and
/// whether such an empty read came.
pub open spec fn read_rounds(v: DecoderView, k: nat, m: nat) -> Result<
    (DecoderView, Seq<u8>, bool),
    LzwError,
>
    decreases m,
{
    if m == 0 {
        Ok((v, Seq::empty(), false))
    } else {
        match read_rounds(v, k, (m - 1) as nat) {
            Err(e) => Err(e),
            Ok((w, out, done)) => {
                if done {
                    Ok((w, out, true))
                } else {
                    match read_spec(w, k) {
                        Err(e) => Err(e),
                        Ok((w2, o)) => Ok((w2, out + o, o.len() == 0)),
                    }
                }
            },
        }
    }
}

/// `p` put in front of a decoding result.
pub open spec fn prepend(r: Result<Seq<u8>, LzwError>, p: Seq<u8>) -> Result<Seq<u8>, LzwError> {
    match r {
        Ok(x) => Ok(p + x),
        Err(e) => Err(e),
    }
}

/// A well-formed decoder stays well formed through a decode step.
proof fn lemma_advance_wf(v: DecoderView)
    requires
        v.wf(),
    ensures
        advance_spec(v) matches Ok(Some(w)) ==> w.wf() && w.bits == v.bits && w.pos > v.pos,
{
    if let Some(code) = next_read(v) {
        lemma_step_wf(v.dict, code);
    }
}

/// Bytes already pending come out in front of all the rest.
proof fn lemma_decode_all_pending(v: DecoderView, q: Seq<u8>)
    requires
        v.wf(),
    ensures
        decode_all(DecoderView { pending: q + v.pending, ..v }) == prepend(decode_all(v), q),
    decreases v.bits.len() - v.pos,
{
    let v2 = DecoderView { pending: q + v.pending, ..v };
    lemma_advance_wf(v);
    match advance_spec(v) {
        Err(_) => {},
        Ok(None) => {},
        Ok(Some(w)) => {
            let code = next_read(v).unwrap();
            let out = step(v.dict, code).unwrap().1;
            assert(next_read(v2) == next_read(v));
            assert((q + v.pending) + out =~= q + (v.pending + out));
            lemma_decode_all_pending(w, q);
            assert(advance_spec(v2) == Ok::<Option<DecoderView>, LzwError>(
                Some(DecoderView { pending: q + w.pending, ..w }),
            ));
        },
    }
}

/// Filling decodes nothing that `decode_all` would not, and stops early only
/// at the end of the stream.
proof fn lemma_fill(v: DecoderView, k: nat)
    requires
        v.wf(),
    ensures
        match fill(v, k) {
            Ok(w) => {
                &&& w.wf()
                &&& w.bits == v.bits
                &&& decode_all(w) == decode_all(v)
                &&& w.pending.len() < k ==> advance_spec(w) == Ok::<
                    Option<DecoderView>,
                    LzwError,
                >(None)
            },
            Err(e) => decode_all(v) == Err::<Seq<u8>, LzwError>(e),
        },
    decreases v.bits.len() - v.pos,
{
    lemma_advance_wf(v);
    if v.pending.len() < k {
        if let Ok(Some(w)) = advance_spec(v) {
            lemma_fill(w, k);
        }
    }
}

/// A read hands out the front of what `decode_all` gives, and an empty read
/// of a non-empty buffer comes only when nothing is left.
proof fn lemma_read(v: DecoderView, k: nat)
    requires
        v.wf(),
        k > 0,
    ensures
        read_spec(v, k) matches Ok((w, out)) ==> w.wf() && w.bits == v.bits,
        read_spec(v, k) matches Ok((w, out)) ==> decode_all(v) == prepend(decode_all(w), out),
        read_spec(v, k) matches Ok((w, out)) ==> (out.len() == 0 ==> decode_all(w) == Ok::<
            Seq<u8>,
            LzwError,
        >(Seq::empty())),
        read_spec(v, k) matches Err(e) ==> decode_all(v) == Err::<Seq<u8>, LzwError>(e),
{
    lemma_fill(v, k);
    if let Ok(w) = fill(v, k) {
        let n = if w.pending.len() < k {
            w.pending.len()
        } else {
            k
        };
        let w2 = DecoderView { pending: w.pending.skip(n as int), ..w };
        lemma_decode_all_pending(w2, w.pending.take(n as int));
        assert(w.pending.take(n as int) + w2.pending =~= w.pending);
        assert(DecoderView { pending: w.pending.take(n as int) + w2.pending, ..w2 } == w);
        assert(w2.wf());
        assert(decode_all(w) == prepend(decode_all(w2), w.pending.take(n as int)));
        if n == 0 {
            assert(w.pending.len() == 0);
            assert(w.pending =~= Seq::<u8>::empty());
            assert(w2.pending =~= w.pending);
            assert(w2 == w);
            assert(advance_spec(w) == Ok::<Option<DecoderView>, LzwError>(None));
            assert(decode_all(w) == Ok::<Seq<u8>, LzwError>(w.pending));
        }
    }
}

/// What a run of reads hands out is the front of what `decode_all` gives,
/// and all of it once an empty read has come.
proof fn lemma_read_rounds(v: DecoderView, k: nat, m: nat)
    requires
        v.wf(),
        k > 0,
    ensures
        match read_rounds(v, k, m) {
            Ok((w, out, done)) => {
                &&& w.wf()
                &&& decode_all(v) == prepend(decode_all(w), out)
                &&& done ==> decode_all(w) == Ok::<Seq<u8>, LzwError>(Seq::empty())
            },
            Err(e) => decode_all(v) == Err::<Seq<u8>, LzwError>(e),
        },
    decreases m,
{
    if m == 0 {
        assert(prepend(decode_all(v), Seq::empty()) == decode_all(v)) by {
            if let Ok(x) = decode_all(v) {
                assert(Seq::<u8>::empty() + x =~= x);
            }
        }
    } else {
        lemma_read_rounds(v, k, (m - 1) as nat);
        if let Ok((w, out, done)) = read_rounds(v, k, (m - 1) as nat) {
            if !done {
                lemma_read(w, k);
                if let Ok((w2, o)) = read_spec(w, k) {
                    if let Ok(x) = decode_all(w2) {
                        assert(out + (o + x) =~= (out + o) + x);
                    }
                }
            }
        }
    }
}

/// Reading does not depend on the size of the reads: two runs of reads of
/// any sizes, each until a read hands out nothing, hand out the same bytes,
/// namely all that the stream decodes to; and a run that fails fails with
/// the error that decoding the whole stream meets.
pub proof fn lemma_read_size_independent(v: DecoderView, k1: nat, m1: nat, k2: nat, m2: nat)
    requires
        v.wf(),
        k1 > 0,
        k2 > 0,
    ensures
        read_rounds(v, k1, m1) matches Ok((_, out1, true)) ==> decode_all(v) == Ok::<
            Seq<u8>,
            LzwError,
        >(out1),
        read_rounds(v, k1, m1) matches Err(e) ==> decode_all(v) == Err::<Seq<u8>, LzwError>(e),
        match (read_rounds(v, k1, m1), read_rounds(v, k2, m2)) {
            (Ok((_, out1, true)), Ok((_, out2, true))) => out1 == out2,
            _ => true,
        },
{
    lemma_read_rounds(v, k1, m1);
    lemma_read_rounds(v, k2, m2);
    if let Ok((_, out1, true)) = read_rounds(v, k1, m1) {
        assert(out1 + Seq::<u8>::empty() =~= out1);
        assert(decode_all(v) == Ok::<Seq<u8>, LzwError>(out1));
        if let Ok((_, out2, true)) = read_rounds(v, k2, m2) {
            assert(out2 + Seq::<u8>::empty() =~= out2);
            assert(decode_all(v) == Ok::<Seq<u8>, LzwError>(out2));
            assert(out1 == out2);
        }
    }
}

/// The exact power of two for a code width.
fn code_limit(codesize: usize) -> (r: usize)
    requires
        codesize <= MAX_CODESIZE,
    ensures
        r == pow2(codesize as nat),
{
    proof {
        vstd::bits::lemma_usize_pow2_no_overflow(codesize as nat);
        lemma2_to64();
        lemma_pow2_strictly_increases(codesize as nat, 17);
        vstd::bits::lemma_usize_shl_is_mul(1, codesize);
    }
    1usize << codesize
}

/// A copy of a byte vector.
fn copy_bytes(v: &Vec<u8>) -> (r: Vec<u8>)
    ensures
        r@ == v@,
{
    let r = v.clone();
    assert(r@ =~= v@);
    r
}

/// A decoder of LZW-compressed data.
pub struct Decoder {
    input: BitReader,
    table: Vec<Vec<u8>>,
    buffer: VecDeque<u8>,
    previous: Vec<u8>,
    codesize: usize,
}

impl View for Decoder {
    type V = DecoderView;

    closed spec fn view(&self) -> DecoderView {
        DecoderView {
            bits: self.input.bits(),
            pos: self.input.pos(),
            dict: DictState {
                table: self.table@.map_values(|e: Vec<u8>| e@),
                previous: self.previous@,
                codesize: self.codesize as nat,
            },
            pending: self.buffer@,
        }
    }
}

impl Decoder {
    pub closed spec fn wf(&self) -> bool {
        &&& self.input.wf()
        &&& self@.dict.wf()
    }

    /// The well-formed view of a well-formed decoder.
    pub proof fn lemma_wf(&self)
        requires
            self.wf(),
        ensures
            self@.wf(),
    {
        self.input.lemma_wf();
    }

    /// A decoder over the compressed bytes `input`, at its start.
    pub fn new(input: &[u8]) -> (r: Self)
        ensures
            r.wf(),
            r@.bits == stream_bits(input@),
            r@.pos == 0,
            r@.dict == initial_dict(),
            r@.pending == Seq::<u8>::empty(),
    {
        let mut dec = Decoder {
            input: BitReader::new(input),
            table: Vec::new(),
            buffer: VecDeque::new(),
            previous: Vec::new(),
            codesize: 0,
        };
        dec.reset();
        dec
    }

    /// A decoder over the contents of a `.Z` file: checks the three magic
    /// bytes and decodes what follows them.
    pub fn with_header(data: &[u8]) -> (r: Result<Self, LzwError>)
        ensures
            has_magic(data@) <==> r is Ok,
            r matches Ok(dec) ==> {
                &&& dec.wf()
                &&& dec@.bits == stream_bits(data@.skip(3))
                &&& dec@.pos == 0
                &&& dec@.dict == initial_dict()
                &&& dec@.pending == Seq::<u8>::empty()
            },
            r matches Err(e) ==> e == LzwError::BadHeader,
    {
        if data.len() < 3 || data[0] != MAGIC_0 || data[1] != MAGIC_1 || data[2] != MAGIC_2 {
            return Err(LzwError::BadHeader);
        }
        let rest = vstd::slice::slice_subrange(data, 3, data.len());
        assert(rest@ =~= data@.skip(3));
        Ok(Decoder::new(rest))
    }

    /// Puts the dictionary back to its base state.
    fn reset(&mut self)
        requires
            old(self).input.wf(),
        ensures
            final(self).wf(),
            final(self)@ == (DecoderView { dict: initial_dict(), ..old(self)@ }),
    {
        self.table.clear();
        let mut i: usize = 0;
        while i < CLEAR_TABLE
            invariant
                i <= CLEAR_TABLE,
                self.input.wf(),
                self.input == old(self).input,
                self.buffer == old(self).buffer,
                self.table.len() == i,
                forall|j: int| 0 <= j < i ==> #[trigger] self.table@[j]@ == seq![j as u8],
            decreases CLEAR_TABLE - i,
        {
            let entry: Vec<u8> = vec![i as u8];
            assert(entry@ =~= seq![i as u8]);
            self.table.push(entry);
            i = i + 1;
        }
        self.table.push(Vec::new());
        self.previous.clear();
        self.codesize = INITIAL_CODESIZE;
        proof {
            let t = self.table@.map_values(|e: Vec<u8>| e@);
            assert forall|j: int| 0 <= j < FIRST_CODE implies #[trigger] t[j] == base_table()[j] by {
                if j < CLEAR_TABLE {
                    assert(self.table@[j]@ == seq![j as u8]);
                } else {
                    assert(self.table@[j]@ =~= Seq::<u8>::empty());
                }
            }
            assert(t =~= base_table());
            assert(self.previous@ =~= Seq::<u8>::empty());
            lemma_initial_wf();
        }
    }

    /// Decodes one code into the pending bytes. `Ok(false)` means that the
    /// stream holds no further code.
    fn advance_buffer(&mut self) -> (r: Result<bool, LzwError>)
        requires
            old(self).wf(),
        ensures
            final(self).wf(),
            final(self)@.bits == old(self)@.bits,
            match advance_spec(old(self)@) {
                Err(e) => r == Err::<bool, LzwError>(e),
                Ok(None) => r == Ok::<bool, LzwError>(false) && final(self)@ == old(self)@,
                Ok(Some(w)) => r == Ok::<bool, LzwError>(true) && final(self)@ == w,
            },
    {
        let ghost v = self@;
        proof {
            lemma2_to64();
        }
        let code: u64 = match self.input.get(self.codesize) {
            None => return Ok(false),
            Some(c) => c,
        };
        proof {
            lemma_pow2_strictly_increases(self.codesize as nat, 17);
            lemma_step_wf(v.dict, code as nat);
        }
        if code == CLEAR_TABLE as u64 {
            self.reset();
            assert(v.pending + Seq::<u8>::empty() =~= v.pending);
            return Ok(true);
        }
        let c: usize = code as usize;
        let n: usize = self.table.len();
        let out: Vec<u8> = if c == n {
            if self.previous.len() == 0 {
                return Err(LzwError::UnknownCode);
            }
            let mut s = copy_bytes(&self.previous);
            let first: u8 = self.previous[0];
            s.push(first);
            s
        } else if c < n {
            copy_bytes(&self.table[c])
        } else {
            return Err(LzwError::UnknownCode);
        };
        let first: u8 = out[0];
        let ghost before = self.buffer@;
        let ghost mid = (self.input, self.table, self.previous, self.codesize);
        let mut i: usize = 0;
        while i < out.len()
            invariant
                i <= out.len(),
                self.buffer@ == before + out@.subrange(0, i as int),
                (self.input, self.table, self.previous, self.codesize) == mid,
            decreases out.len() - i,
        {
            self.buffer.push_back(out[i]);
            i = i + 1;
            assert(self.buffer@ =~= before + out@.subrange(0, i as int));
        }
        assert(self.buffer@ =~= v.pending + out@);
        let mut learnt = out;
        std::mem::swap(&mut self.previous, &mut learnt);
        if learnt.len() > 0 && n < MAX_ENTRIES {
            learnt.push(first);
            self.table.push(learnt);
            if self.codesize < MAX_CODESIZE && n + 1 >= code_limit(self.codesize) {
                self.codesize = self.codesize + 1;
            }
            assert(self@.dict.table =~= v.dict.table.push(v.dict.previous.push(first)));
        }
        Ok(true)
    }

    /// Fills `buf` from the decoded bytes, decoding as much as needed, and
    /// returns how many bytes were written. Fewer than `buf.len()` bytes
    /// come only at the end of the stream, and `Ok(0)` for a non-empty
    /// `buf` means that the stream is over.
    pub fn read(&mut self, buf: &mut [u8]) -> (r: Result<usize, LzwError>)
        requires
            old(self).wf(),
        ensures
            final(self).wf(),
            final(buf)@.len() == old(buf)@.len(),
            match read_spec(old(self)@, old(buf)@.len()) {
                Err(e) => r == Err::<usize, LzwError>(e),
                Ok((w, out)) => {
                    &&& r == Ok::<usize, LzwError>(out.len() as usize)
                    &&& final(self)@ == w
                    &&& final(buf)@ == out + old(buf)@.skip(out.len() as int)
                },
            },
    {
        let ghost v0 = self@;
        let k: usize = buf.len();
        let mut more: bool = true;
        while more && self.buffer.len() < k
            invariant
                self.wf(),
                self@.bits == v0.bits,
                v0 == old(self)@,
                k == old(buf)@.len(),
                buf@ == old(buf)@,
                fill(self@, k as nat) == fill(v0, k as nat),
                !more ==> fill(self@, k as nat) == Ok::<DecoderView, LzwError>(self@),
            decreases self@.bits.len() - self@.pos, if more {
                1int
            } else {
                0int
            },
        {
            proof {
                self.lemma_wf();
            }
            match self.advance_buffer() {
                Err(e) => return Err(e),
                Ok(false) => {
                    more = false;
                },
                Ok(true) => {},
            }
        }
        proof {
            self.lemma_wf();
        }
        let ghost w = self@;
        let n: usize = if self.buffer.len() < k {
            self.buffer.len()
        } else {
            k
        };
        let mut i: usize = 0;
        assert(w.pending.skip(0) =~= w.pending);
        assert(w.pending.take(0) + old(buf)@.skip(0) =~= old(buf)@);
        while i < n
            invariant
                self.wf(),
                i <= n,
                n <= k,
                n <= w.pending.len(),
                k == buf@.len(),
                k == old(buf)@.len(),
                self@ == (DecoderView { pending: w.pending.skip(i as int), ..w }),
                buf@ == w.pending.take(i as int) + old(buf)@.skip(i as int),
            decreases n - i,
        {
            match self.buffer.pop_front() {
                Some(b) => {
                    buf[i] = b;
                },
                None => {},
            }
            i = i + 1;
            assert(self@.pending =~= w.pending.skip(i as int));
            assert(buf@ =~= w.pending.take(i as int) + old(buf)@.skip(i as int));
        }
        Ok(n)
    }
}

} // verus!
