//! The weight bitstream: per-key weight lists stored back to back as
//! instantaneous codes (a γ-coded count prefix, unary-coded weights, and
//! run-length-compressed zeros), with bit offsets indexed by Elias-Fano.
//!
//! The stream is modelled as a sequence of codes, each a γ or a unary code
//! of one number; dsi-bitstream writes and reads the codes, while the
//! encoder and decoder around them are verified.

use vstd::prelude::*;

verus! {

use crate::ef::{ef_build, ef_builder_new, ef_get, ef_push};

/// One self-delimiting code in the stream: `(true, n)` is the γ code of
/// `n`, `(false, n)` the unary code of `n`.
pub type Code = (bool, u64);

/// The γ code of `n`.
pub open spec fn code_gamma(n: u64) -> Code {
    (true, n)
}

/// The unary code of `n`.
pub open spec fn code_unary(n: u64) -> Code {
    (false, n)
}

/// ⌊log₂ n⌋ for n ≥ 1 (and 0 for n ≤ 1).
pub open spec fn log2floor(n: nat) -> nat
    decreases n,
{
    if n <= 1 {
        0
    } else {
        1 + log2floor(n / 2)
    }
}

/// Bit length of the γ code of `n`: 2⌊log₂(n+1)⌋ + 1.
pub open spec fn gamma_code_len(n: u64) -> nat {
    2 * log2floor((n + 1) as nat) + 1
}

/// Bit length of one code; a unary code of `n` takes `n + 1` bits.
pub open spec fn code_len(c: Code) -> nat {
    if c.0 {
        gamma_code_len(c.1)
    } else {
        (c.1 + 1) as nat
    }
}

/// Total bit length of a code sequence.
pub open spec fn codes_len(s: Seq<Code>) -> nat
    decreases s.len(),
{
    if s.len() == 0 {
        0
    } else {
        code_len(s[0]) + codes_len(s.drop_first())
    }
}

/// Bit lengths add over concatenation.
pub proof fn lemma_codes_len_add(a: Seq<Code>, b: Seq<Code>)
    ensures
        codes_len(a + b) == codes_len(a) + codes_len(b),
    decreases a.len(),
{
    if a.len() == 0 {
        assert(a + b =~= b);
    } else {
        assert((a + b)[0] == a[0]);
        assert((a + b).drop_first() =~= a.drop_first() + b);
        lemma_codes_len_add(a.drop_first(), b);
    }
}

// ===================== the weight encoding =====================

/// Number of leading zero weights.
pub open spec fn lead_zeros(ws: Seq<usize>) -> nat
    decreases ws.len(),
{
    if ws.len() == 0 || ws[0] != 0 {
        0
    } else {
        (1 + lead_zeros(ws.drop_first())) as nat
    }
}

/// The leading-zero count is the exact length of the initial zero run.
pub proof fn lemma_lead_zeros(ws: Seq<usize>)
    ensures
        lead_zeros(ws) <= ws.len(),
        forall|i: int| 0 <= i < lead_zeros(ws) ==> ws[i] == 0,
        lead_zeros(ws) < ws.len() ==> ws[lead_zeros(ws) as int] != 0,
    decreases ws.len(),
{
    if ws.len() > 0 && ws[0] == 0 {
        lemma_lead_zeros(ws.drop_first());
        assert forall|i: int| 0 <= i < lead_zeros(ws) implies ws[i] == 0 by {
            if i > 0 {
                assert(ws.drop_first()[i - 1] == 0);
            }
        }
        if lead_zeros(ws) < ws.len() {
            assert(ws.drop_first()[lead_zeros(ws) - 1] != 0);
        }
    }
}

/// A sequence whose first `z` entries are zero, with a nonzero right after
/// (or the end), has exactly `z` leading zeros.
pub proof fn lemma_lead_zeros_exact(ws: Seq<usize>, z: int)
    requires
        0 <= z <= ws.len(),
        forall|i: int| 0 <= i < z ==> ws[i] == 0,
        z < ws.len() ==> ws[z] != 0,
    ensures
        lead_zeros(ws) == z,
    decreases z,
{
    if z == 0 {
    } else {
        assert(ws[0] == 0);
        assert forall|i: int| 0 <= i < z - 1 implies ws.drop_first()[i] == 0 by {
            assert(ws[i + 1] == 0);
        }
        if z - 1 < ws.drop_first().len() {
            assert(ws.drop_first()[z - 1] == ws[z]);
        }
        lemma_lead_zeros_exact(ws.drop_first(), z - 1);
    }
}

/// The body of one key's encoding: a unary code per nonzero weight, and
/// for each zero run a unary zero followed by the γ-coded run length less
/// one.
pub open spec fn enc_body(ws: Seq<usize>) -> Seq<Code>
    decreases ws.len(),
    via enc_body_dec
{
    if ws.len() == 0 {
        Seq::empty()
    } else if ws[0] != 0 {
        seq![code_unary(ws[0] as u64)] + enc_body(ws.drop_first())
    } else {
        seq![code_unary(0), code_gamma((lead_zeros(ws) - 1) as u64)] + enc_body(
            ws.skip(lead_zeros(ws) as int),
        )
    }
}

#[via_fn]
proof fn enc_body_dec(ws: Seq<usize>) {
    lemma_lead_zeros(ws);
}

/// One key's full encoding: the γ-coded weight count, then the body.
pub open spec fn enc_weights(ws: Seq<usize>) -> Seq<Code> {
    seq![code_gamma(ws.len() as u64)] + enc_body(ws)
}

/// The whole stream: every key's encoding, back to back.
pub open spec fn enc_rows(rows: Seq<Seq<usize>>) -> Seq<Code>
    decreases rows.len(),
{
    if rows.len() == 0 {
        Seq::empty()
    } else {
        enc_rows(rows.drop_last()) + enc_weights(rows.last())
    }
}

/// Total number of weights over all rows.
pub open spec fn total_weights(rows: Seq<Seq<usize>>) -> int
    decreases rows.len(),
{
    if rows.len() == 0 {
        0
    } else {
        total_weights(rows.drop_last()) + rows.last().len()
    }
}

/// When the left part ends at a run boundary, encoding distributes over
/// concatenation.
pub proof fn lemma_enc_body_concat(xs: Seq<usize>, ys: Seq<usize>)
    requires
        xs.len() == 0 || xs.last() != 0,
    ensures
        enc_body(xs + ys) == enc_body(xs) + enc_body(ys),
    decreases xs.len(),
{
    if xs.len() == 0 {
        assert(xs + ys =~= ys);
        assert(enc_body(xs) + enc_body(ys) =~= enc_body(ys));
    } else if xs[0] != 0 {
        assert((xs + ys)[0] == xs[0]);
        assert((xs + ys).drop_first() =~= xs.drop_first() + ys);
        if xs.len() > 1 {
            assert(xs.drop_first().last() == xs.last());
        }
        lemma_enc_body_concat(xs.drop_first(), ys);
        assert(seq![code_unary(xs[0] as u64)] + (enc_body(xs.drop_first()) + enc_body(ys)) =~= (
        seq![code_unary(xs[0] as u64)] + enc_body(xs.drop_first())) + enc_body(ys));
    } else {
        let z = lead_zeros(xs) as int;
        lemma_lead_zeros(xs);
        assert(z < xs.len()) by {
            if z == xs.len() {
                assert(xs[xs.len() - 1] == 0);
            }
        }
        assert(lead_zeros(xs + ys) == z) by {
            assert forall|i: int| 0 <= i < z implies (xs + ys)[i] == 0 by {
                assert((xs + ys)[i] == xs[i]);
            }
            assert((xs + ys)[z] == xs[z]);
            lemma_lead_zeros_exact(xs + ys, z);
        }
        assert((xs + ys).skip(z) =~= xs.skip(z) + ys);
        assert(xs.skip(z).last() == xs.last());
        lemma_enc_body_concat(xs.skip(z), ys);
        assert(seq![code_unary(0), code_gamma((z - 1) as u64)] + (enc_body(xs.skip(z))
            + enc_body(ys)) =~= (seq![code_unary(0), code_gamma((z - 1) as u64)] + enc_body(
        xs.skip(z))) + enc_body(ys));
    }
}

/// Every γ value inside one key's encoding is at most the weight count.
pub proof fn lemma_enc_body_gamma_bounded(ws: Seq<usize>)
    ensures
        forall|i: int|
            0 <= i < enc_body(ws).len() && (#[trigger] enc_body(ws)[i]).0 ==> enc_body(ws)[i].1
                < ws.len(),
    decreases ws.len(),
{
    if ws.len() == 0 {
    } else if ws[0] != 0 {
        lemma_enc_body_gamma_bounded(ws.drop_first());
        assert forall|i: int|
            0 <= i < enc_body(ws).len() && (#[trigger] enc_body(ws)[i]).0 implies enc_body(
            ws,
        )[i].1 < ws.len() by {
            assert(enc_body(ws)[0] == code_unary(ws[0] as u64));
            if i > 0 {
                assert(enc_body(ws)[i] == enc_body(ws.drop_first())[i - 1]);
            }
        }
    } else {
        let z = lead_zeros(ws) as int;
        lemma_lead_zeros(ws);
        lemma_enc_body_gamma_bounded(ws.skip(z));
        assert forall|i: int|
            0 <= i < enc_body(ws).len() && (#[trigger] enc_body(ws)[i]).0 implies enc_body(
            ws,
        )[i].1 < ws.len() by {
            if i >= 2 {
                assert(enc_body(ws)[i] == enc_body(ws.skip(z))[i - 2]);
            }
        }
    }
}

/// Each code's length is bounded by the whole sequence's length.
pub proof fn lemma_code_len_le(s: Seq<Code>, i: int)
    requires
        0 <= i < s.len(),
    ensures
        code_len(s[i]) <= codes_len(s),
    decreases s.len(),
{
    if i == 0 {
    } else {
        lemma_code_len_le(s.drop_first(), i - 1);
        assert(s.drop_first()[i - 1] == s[i]);
    }
}

/// A prefix never exceeds the whole in bit length.
pub proof fn lemma_codes_len_prefix(s: Seq<Code>, i: int)
    requires
        0 <= i <= s.len(),
    ensures
        codes_len(s.subrange(0, i)) <= codes_len(s),
{
    assert(s =~= s.subrange(0, i) + s.skip(i));
    lemma_codes_len_add(s.subrange(0, i), s.skip(i));
}

// ===================== trusted dsi-bitstream layer =====================

/// A little-endian in-memory bit writer (dsi-bitstream's `BufBitWriter`
/// over a `WordAdapter` and a byte cursor).
#[verifier::external_body]
pub struct BitWriter {
    writer: dsi_bitstream::impls::BufBitWriter<
        dsi_bitstream::traits::LittleEndian,
        dsi_bitstream::impls::WordAdapter<u32, std::io::Cursor<Vec<u8>>>,
    >,
}

/// The codes written so far.
pub uninterp spec fn writer_codes(w: BitWriter) -> Seq<Code>;

/// A finished stream: the written bytes, from which positioned readers are
/// drawn. Owns the data, as the readers borrow copies of it.
#[verifier::external_body]
pub struct CursorReaderFactory {
    data: Vec<u8>,
}

/// The codes a finished stream holds.
pub uninterp spec fn stream_codes(f: CursorReaderFactory) -> Seq<Code>;

/// A positioned little-endian bit reader over a finished stream.
#[verifier::external_body]
pub struct BitReader {
    reader: dsi_bitstream::impls::BufBitReader<
        dsi_bitstream::traits::LittleEndian,
        dsi_bitstream::impls::WordAdapter<u32, std::io::Cursor<Vec<u8>>>,
    >,
}

/// The codes still ahead of a reader.
pub uninterp spec fn reader_codes(r: BitReader) -> Seq<Code>;

/// Relies on dsi-bitstream's `BufBitWriter::new` around an empty cursor:
/// a fresh stream holds no codes.
#[verifier::external_body]
pub fn writer_new() -> (w: BitWriter)
    ensures
        writer_codes(w) == Seq::<Code>::empty(),
{
    BitWriter {
        writer: dsi_bitstream::impls::BufBitWriter::new(dsi_bitstream::impls::WordAdapter::new(
            std::io::Cursor::new(Vec::new()),
        )),
    }
}

/// Relies on dsi-bitstream's `write_gamma`: appends the γ code of `n`,
/// which is 2⌊log₂(n+1)⌋ + 1 bits long. Writing to an in-memory cursor
/// does not fail.
#[verifier::external_body]
pub fn write_gamma(w: &mut BitWriter, n: u64) -> (bits: usize)
    requires
        n < u64::MAX,
    ensures
        writer_codes(*final(w)) == writer_codes(*old(w)).push(code_gamma(n)),
        bits == gamma_code_len(n),
{
    dsi_bitstream::codes::GammaWrite::write_gamma(&mut w.writer, n).unwrap()
}

/// Relies on dsi-bitstream's `write_unary`: appends the unary code of `n`,
/// which is `n + 1` bits long. Writing to an in-memory cursor does not fail.
#[verifier::external_body]
pub fn write_unary(w: &mut BitWriter, n: u64) -> (bits: usize)
    requires
        n < u64::MAX,
    ensures
        writer_codes(*final(w)) == writer_codes(*old(w)).push(code_unary(n)),
        bits == n + 1,
{
    dsi_bitstream::traits::BitWrite::write_unary(&mut w.writer, n).unwrap()
}

/// Relies on `BufBitWriter::into_inner` (which flushes, padding with zero
/// bits past the written codes) and on the cursor handing its bytes back:
/// the bytes hold exactly the written codes.
#[verifier::external_body]
pub fn writer_into_factory(w: BitWriter) -> (f: CursorReaderFactory)
    ensures
        stream_codes(f) == writer_codes(w),
{
    CursorReaderFactory { data: w.writer.into_inner().unwrap().into_inner().into_inner() }
}

impl CursorReaderFactory {
    /// Relies on `BufBitReader` with `set_bit_pos`: positioned at the bit
    /// offset of a code boundary, the reader yields the codes after it.
    /// Codes are self-delimiting, so the boundary determines the rest.
    #[verifier::external_body]
    pub fn get_reader(&self, offset: usize) -> (r: BitReader)
        requires
            exists|pre: Seq<Code>, suf: Seq<Code>|
                stream_codes(*self) == pre + suf && codes_len(pre) == offset,
        ensures
            forall|pre: Seq<Code>, suf: Seq<Code>|
                stream_codes(*self) == pre + suf && codes_len(pre) == offset ==> reader_codes(r)
                    == suf,
    {
        let mut reader = dsi_bitstream::impls::BufBitReader::new(
            dsi_bitstream::impls::WordAdapter::new(std::io::Cursor::new(self.data.clone())),
        );
        dsi_bitstream::traits::BitSeek::set_bit_pos(&mut reader, offset as u64).unwrap();
        BitReader { reader }
    }
}

/// Relies on dsi-bitstream's `read_gamma`, which inverts `write_gamma`:
/// positioned before the γ code of `n`, it returns `n` and steps past it.
/// The precondition keeps the read inside the stream, ruling out a panic.
#[verifier::external_body]
pub fn read_gamma(r: &mut BitReader) -> (n: u64)
    requires
        reader_codes(*old(r)).len() > 0,
        reader_codes(*old(r))[0].0 == true,
    ensures
        n == reader_codes(*old(r))[0].1,
        reader_codes(*final(r)) == reader_codes(*old(r)).drop_first(),
{
    dsi_bitstream::codes::GammaRead::read_gamma(&mut r.reader).unwrap()
}

/// Relies on dsi-bitstream's `read_unary`, which inverts `write_unary`:
/// positioned before the unary code of `n`, it returns `n` and steps past
/// it. The precondition keeps the read inside the stream.
#[verifier::external_body]
pub fn read_unary(r: &mut BitReader) -> (n: u64)
    requires
        reader_codes(*old(r)).len() > 0,
        reader_codes(*old(r))[0].0 == false,
    ensures
        n == reader_codes(*old(r))[0].1,
        reader_codes(*final(r)) == reader_codes(*old(r)).drop_first(),
{
    dsi_bitstream::traits::BitRead::read_unary(&mut r.reader).unwrap()
}

// ===================== verified encoder =====================

/// Emits one key's encoding as a code list, mirroring the zero-run scheme:
/// the γ-coded count, unary codes for nonzero weights, and for each zero
/// run a unary zero followed by the γ-coded run length less one.
fn enc_codes(ws: &Vec<usize>) -> (out: Vec<(bool, u64)>)
    requires
        ws@.len() < u64::MAX,
    ensures
        out@ == enc_weights(ws@),
{
    let mut out: Vec<(bool, u64)> = Vec::new();
    out.push((true, ws.len() as u64));
    proof {
        assert(out@ =~= seq![code_gamma(ws@.len() as u64)]);
    }
    let mut i: usize = 0;
    let mut zr: usize = 0;
    while i < ws.len()
        invariant
            ws@.len() < u64::MAX,
            zr <= i <= ws@.len(),
            forall|j: int| i - zr <= j < i ==> ws@[j] == 0,
            i - zr > 0 ==> ws@[i - zr - 1] != 0,
            zr == 0 ==> out@ == seq![code_gamma(ws@.len() as u64)] + enc_body(
                ws@.subrange(0, i as int),
            ),
            zr > 0 ==> out@ == seq![code_gamma(ws@.len() as u64)] + enc_body(
                ws@.subrange(0, i - zr),
            ) + seq![code_unary(0)],
        decreases ws@.len() - i,
    {
        let ghost pre = ws@.subrange(0, i - zr);
        let ghost zeros = ws@.subrange(i - zr, i as int);
        let w = ws[i];
        if w == 0 {
            if zr == 0 {
                out.push((false, 0));
            }
            zr = zr + 1;
            proof {
                assert(ws@.subrange(0, i + 1 - zr) =~= pre);
            }
        } else {
            proof {
                // the next prefix splits at the old run boundary
                assert(ws@.subrange(0, i + 1) =~= pre + ws@.subrange(i - zr, i + 1));
            }
            if zr > 0 {
                let ghost zw = ws@.subrange(i - zr, i + 1);
                out.push((true, (zr - 1) as u64));
                out.push((false, w as u64));
                proof {
                    assert(zw.len() == zr + 1);
                    assert forall|j: int| 0 <= j < zr implies zw[j] == 0 by {
                        assert(zw[j] == ws@[i - zr + j]);
                    }
                    assert(zw[zr as int] == ws@[i as int]);
                    lemma_lead_zeros_exact(zw, zr as int);
                    assert(zw.skip(zr as int) =~= seq![ws@[i as int]]);
                    assert(enc_body(seq![ws@[i as int]]) =~= seq![code_unary(w as u64)]) by {
                        reveal_with_fuel(enc_body, 2);
                        assert(seq![ws@[i as int]].drop_first() =~= Seq::<usize>::empty());
                    }
                    assert(enc_body(zw) =~= seq![code_unary(0), code_gamma((zr - 1) as u64)]
                        + seq![code_unary(w as u64)]);
                    lemma_enc_body_concat(pre, zw);
                    assert(out@ =~= seq![code_gamma(ws@.len() as u64)] + enc_body(
                        ws@.subrange(0, i + 1),
                    ));
                }
            } else {
                out.push((false, w as u64));
                proof {
                    let single = ws@.subrange(i as int, i + 1);
                    assert(single =~= seq![ws@[i as int]]);
                    assert(enc_body(single) =~= seq![code_unary(w as u64)]) by {
                        reveal_with_fuel(enc_body, 2);
                        assert(single.drop_first() =~= Seq::<usize>::empty());
                        assert(single[0] == ws@[i as int]);
                    }
                    lemma_enc_body_concat(pre, single);
                    assert(out@ =~= seq![code_gamma(ws@.len() as u64)] + enc_body(
                        ws@.subrange(0, i + 1),
                    ));
                }
            }
            zr = 0;
        }
        i = i + 1;
    }
    if zr > 0 {
        let ghost pre = ws@.subrange(0, i - zr);
        let ghost zeros = ws@.subrange(i - zr, i as int);
        out.push((true, (zr - 1) as u64));
        proof {
            assert(zeros.len() == zr);
            assert forall|j: int| 0 <= j < zr implies zeros[j] == 0 by {
                assert(zeros[j] == ws@[i - zr + j]);
            }
            lemma_lead_zeros_exact(zeros, zr as int);
            assert(zeros.skip(zr as int) =~= Seq::<usize>::empty());
            assert(enc_body(zeros) =~= seq![code_unary(0), code_gamma((zr - 1) as u64)]) by {
                reveal_with_fuel(enc_body, 2);
            }
            lemma_enc_body_concat(pre, zeros);
            assert(pre + zeros =~= ws@.subrange(0, i as int));
            assert(out@ =~= seq![code_gamma(ws@.len() as u64)] + enc_body(
                ws@.subrange(0, i as int),
            ));
        }
    }
    proof {
        assert(ws@.subrange(0, ws@.len() as int) =~= ws@);
        assert(out@ =~= enc_weights(ws@));
    }
    out
}

/// Computes ⌊log₂ n⌋ for n ≥ 1.
fn log2_floor(n: u64) -> (r: u64)
    requires
        n >= 1,
    ensures
        r == log2floor(n as nat),
{
    let mut v: u64 = n;
    let mut r: u64 = 0;
    while v > 1
        invariant
            v >= 1,
            r <= 64,
            log2floor(n as nat) == r + log2floor(v as nat),
        decreases v,
    {
        proof {
            assert(log2floor(v as nat) == 1 + log2floor((v / 2) as nat));
            assert(r < 64) by {
                if r >= 64 {
                    lemma_log2floor_bound(n as nat);
                }
            }
        }
        v = v / 2;
        r = r + 1;
    }
    r
}

/// ⌊log₂ n⌋ stays below 64 for any machine word.
proof fn lemma_log2floor_bound(n: nat)
    requires
        n <= u64::MAX,
    ensures
        log2floor(n) <= 63,
    decreases n,
{
    assert(n < vstd::arithmetic::power2::pow2(64)) by {
        vstd::arithmetic::power2::lemma2_to64_rest();
    }
    lemma_log2floor_le(n, 63);
}

/// log₂ is bounded by any k with n < 2^(k+1).
proof fn lemma_log2floor_le(n: nat, k: nat)
    requires
        n < vstd::arithmetic::power2::pow2(k + 1),
    ensures
        log2floor(n) <= k,
    decreases n,
{
    if n > 1 {
        if k == 0 {
            vstd::arithmetic::power2::lemma_pow2_unfold(1);
            assert(vstd::arithmetic::power2::pow2(0) == 1) by {
                vstd::arithmetic::power2::lemma2_to64();
            }
        } else {
            assert(vstd::arithmetic::power2::pow2(k + 1) == 2 * vstd::arithmetic::power2::pow2(
                k,
            )) by {
                vstd::arithmetic::power2::lemma_pow2_unfold(k + 1);
            }
            lemma_log2floor_le(n / 2, (k - 1) as nat);
        }
    }
}

/// The bit length of one code, exactly.
fn code_bits(c: (bool, u64)) -> (r: u128)
    requires
        c.0 ==> c.1 < u64::MAX,
    ensures
        r == code_len(c),
{
    if c.0 {
        let l = log2_floor(c.1 + 1);
        proof {
            lemma_log2floor_bound((c.1 + 1) as nat);
        }
        (2 * l + 1) as u128
    } else {
        c.1 as u128 + 1
    }
}

/// Total bit length of a code list, or nothing when it exceeds a machine
/// word.
fn codes_bits(cs: &Vec<(bool, u64)>) -> (r: Option<usize>)
    requires
        forall|i: int| 0 <= i < cs@.len() && (#[trigger] cs@[i]).0 ==> cs@[i].1 < u64::MAX,
    ensures
        r matches Some(b) ==> b == codes_len(cs@) && codes_len(cs@) <= usize::MAX,
        r is None ==> codes_len(cs@) > usize::MAX,
{
    let mut acc: u128 = 0;
    let mut i: usize = 0;
    while i < cs.len()
        invariant
            i <= cs@.len(),
            forall|j: int| 0 <= j < cs@.len() && (#[trigger] cs@[j]).0 ==> cs@[j].1 < u64::MAX,
            acc == codes_len(cs@.subrange(0, i as int)),
            acc <= usize::MAX,
        decreases cs@.len() - i,
    {
        let b = code_bits(cs[i]);
        proof {
            assert(cs@.subrange(0, i + 1).drop_last() =~= cs@.subrange(0, i as int));
            lemma_codes_len_last(cs@.subrange(0, i + 1));
        }
        if b > (usize::MAX as u128) - acc {
            proof {
                lemma_codes_len_prefix(cs@, i + 1);
            }
            return None;
        }
        acc = acc + b;
        i = i + 1;
    }
    proof {
        assert(cs@.subrange(0, cs@.len() as int) =~= cs@);
    }
    Some(acc as usize)
}

// ===================== stream splitting lemmas =====================

/// Appending a row appends its encoding.
pub proof fn lemma_enc_rows_snoc(rows: Seq<Seq<usize>>, ws: Seq<usize>)
    ensures
        enc_rows(rows.push(ws)) == enc_rows(rows) + enc_weights(ws),
        total_weights(rows.push(ws)) == total_weights(rows) + ws.len(),
{
    assert(rows.push(ws).drop_last() =~= rows);
    assert(rows.push(ws).last() == ws);
}

/// The stream splits at any row boundary.
pub proof fn lemma_enc_rows_split(rows: Seq<Seq<usize>>, k: int)
    requires
        0 <= k <= rows.len(),
    ensures
        enc_rows(rows) == enc_rows(rows.subrange(0, k)) + enc_rows(rows.skip(k)),
    decreases rows.len(),
{
    if k == rows.len() {
        assert(rows.subrange(0, k) =~= rows);
        assert(rows.skip(k) =~= Seq::<Seq<usize>>::empty());
        assert(enc_rows(rows) + enc_rows(rows.skip(k)) =~= enc_rows(rows));
    } else {
        let head = rows.drop_last();
        lemma_enc_rows_split(head, k);
        assert(head.subrange(0, k) =~= rows.subrange(0, k));
        assert(rows.skip(k).drop_last() =~= head.skip(k));
        assert(rows.skip(k).last() == rows.last());
        assert(rows.skip(k).len() > 0);
        assert(enc_rows(rows.skip(k)) == enc_rows(head.skip(k)) + enc_weights(rows.last()));
        assert(enc_rows(rows.subrange(0, k)) + (enc_rows(head.skip(k)) + enc_weights(rows.last()))
            =~= (enc_rows(rows.subrange(0, k)) + enc_rows(head.skip(k))) + enc_weights(
        rows.last()));
    }
}

/// The stream of a nonempty row list starts with its first row.
pub proof fn lemma_enc_rows_cons(rows: Seq<Seq<usize>>)
    requires
        rows.len() > 0,
    ensures
        enc_rows(rows) == enc_weights(rows[0]) + enc_rows(rows.drop_first()),
{
    lemma_enc_rows_split(rows, 1);
    assert(rows.subrange(0, 1).drop_last() =~= Seq::<Seq<usize>>::empty());
    assert(rows.subrange(0, 1).last() == rows[0]);
    assert(enc_rows(Seq::<Seq<usize>>::empty()) == Seq::<Code>::empty());
    assert(enc_rows(rows.subrange(0, 1)) =~= Seq::<Code>::empty() + enc_weights(rows[0]));
    assert(Seq::<Code>::empty() + enc_weights(rows[0]) =~= enc_weights(rows[0]));
    assert(rows.skip(1) =~= rows.drop_first());
}

/// Any row-boundary prefix fits inside the whole stream's bit length.
pub proof fn lemma_enc_rows_prefix_le(rows: Seq<Seq<usize>>, k: int)
    requires
        0 <= k <= rows.len(),
    ensures
        codes_len(enc_rows(rows.subrange(0, k))) <= codes_len(enc_rows(rows)),
{
    lemma_enc_rows_split(rows, k);
    lemma_codes_len_add(enc_rows(rows.subrange(0, k)), enc_rows(rows.skip(k)));
}

/// Weight totals are never negative.
pub proof fn lemma_total_weights_nonneg(rows: Seq<Seq<usize>>)
    ensures
        total_weights(rows) >= 0,
    decreases rows.len(),
{
    if rows.len() > 0 {
        lemma_total_weights_nonneg(rows.drop_last());
    }
}

/// A positive total means some row remains.
pub proof fn lemma_total_weights_front(rows: Seq<Seq<usize>>)
    requires
        rows.len() > 0,
    ensures
        total_weights(rows) == rows[0].len() + total_weights(rows.drop_first()),
    decreases rows.len(),
{
    if rows.len() == 1 {
        assert(rows.drop_last() =~= Seq::<Seq<usize>>::empty());
        assert(rows.drop_first() =~= Seq::<Seq<usize>>::empty());
        assert(rows.last() == rows[0]);
    } else {
        lemma_total_weights_front(rows.drop_last());
        assert(rows.drop_last()[0] == rows[0]);
        assert(rows.drop_first().drop_last() =~= rows.drop_last().drop_first());
        assert(rows.drop_first().last() == rows.last());
        assert(rows.drop_first().len() > 0);
    }
}

/// Bit length peels off the last code as well.
pub proof fn lemma_codes_len_last(s: Seq<Code>)
    requires
        s.len() > 0,
    ensures
        codes_len(s) == codes_len(s.drop_last()) + code_len(s.last()),
{
    assert(s =~= s.drop_last() + seq![s.last()]);
    lemma_codes_len_add(s.drop_last(), seq![s.last()]);
    assert(codes_len(seq![s.last()]) == code_len(s.last())) by {
        reveal_with_fuel(codes_len, 2);
        assert(seq![s.last()].drop_first() =~= Seq::<Code>::empty());
    }
}

// ===================== the builder =====================

/// The conditions under which a push into the builder must be refused:
/// the stream's bit length or its weight or node count would no longer
/// fit in a machine word.
pub open spec fn push_overflows(rows: Seq<Seq<usize>>, ws: Seq<usize>) -> bool {
    ||| codes_len(enc_rows(rows)) + codes_len(enc_weights(ws)) > usize::MAX
    ||| total_weights(rows) + ws.len() > usize::MAX
    ||| ws.len() >= u64::MAX
    ||| rows.len() >= usize::MAX
}

/// Stateful encoder: rows of weights are pushed one key at a time, and
/// the finished stream is handed over with its Elias-Fano offset index.
pub struct WeightsBuilder {
    writer: BitWriter,
    offsets: Vec<usize>,
    len: usize,
    num_nodes: usize,
    num_weights: usize,
    rows: Ghost<Seq<Seq<usize>>>,
}

impl WeightsBuilder {
    /// The rows pushed so far.
    pub closed spec fn rows_view(self) -> Seq<Seq<usize>> {
        self.rows@
    }

    /// The builder's bookkeeping matches the codes written so far.
    pub closed spec fn wf(self) -> bool {
        &&& writer_codes(self.writer) == enc_rows(self.rows@)
        &&& self.num_nodes == self.rows@.len()
        &&& self.offsets@.len() == self.rows@.len()
        &&& (forall|j: int|
            0 <= j < self.rows@.len() ==> #[trigger] self.offsets@[j] == codes_len(
                enc_rows(self.rows@.subrange(0, j)),
            ))
        &&& self.len == codes_len(enc_rows(self.rows@))
        &&& self.num_weights == total_weights(self.rows@)
        &&& (forall|j: int|
            0 <= j < self.rows@.len() ==> (#[trigger] self.rows@[j]).len() < u64::MAX && self.rows@[j].len() <= usize::MAX)
    }

    /// An empty builder.
    pub fn new() -> (b: WeightsBuilder)
        ensures
            b.wf(),
            b.rows_view() == Seq::<Seq<usize>>::empty(),
    {
        let b = WeightsBuilder {
            writer: writer_new(),
            offsets: Vec::new(),
            len: 0,
            num_nodes: 0,
            num_weights: 0,
            rows: Ghost(Seq::empty()),
        };
        proof {
            assert(enc_rows(Seq::<Seq<usize>>::empty()) == Seq::<Code>::empty());
        }
        b
    }

    /// Appends one key's weights to the stream, returning how many bits
    /// their encoding takes; fails exactly when a machine word can no
    /// longer hold the stream's bookkeeping.
    pub fn push(&mut self, weights: &Vec<usize>) -> (r: Result<usize, crate::BuildError>)
        requires
            old(self).wf(),
        ensures
            final(self).wf(),
            (r is Err) == push_overflows(old(self).rows_view(), weights@),
            r matches Ok(bits) ==> {
                &&& final(self).rows_view() == old(self).rows_view().push(weights@)
                &&& bits == codes_len(enc_weights(weights@))
            },
            r is Err ==> *final(self) == *old(self) && r == Result::<
                usize,
                crate::BuildError,
            >::Err(crate::BuildError::BuilderOverflow),
    {
        proof {
            lemma_total_weights_nonneg(old(self).rows@);
        }
        if (weights.len() as u64) >= u64::MAX {
            return Err(crate::BuildError::BuilderOverflow);
        }
        if self.num_nodes == usize::MAX {
            return Err(crate::BuildError::BuilderOverflow);
        }
        let codes = enc_codes(weights);
        proof {
            lemma_enc_body_gamma_bounded(weights@);
            assert forall|i: int|
                0 <= i < codes@.len() && (#[trigger] codes@[i]).0 implies codes@[i].1
                < u64::MAX by {
                if i > 0 {
                    assert(codes@[i] == enc_body(weights@)[i - 1]);
                }
            }
        }
        let rb_opt = codes_bits(&codes);
        let rb = match rb_opt {
            None => {
                return Err(crate::BuildError::BuilderOverflow);
            },
            Some(rb) => rb,
        };
        if rb > usize::MAX - self.len {
            return Err(crate::BuildError::BuilderOverflow);
        }
        if weights.len() > usize::MAX - self.num_weights {
            return Err(crate::BuildError::BuilderOverflow);
        }
        let ghost oldrows = self.rows@;
        self.offsets.push(self.len);
        let mut i: usize = 0;
        let mut bits: usize = 0;
        while i < codes.len()
            invariant
                i <= codes@.len(),
                codes@ == enc_weights(weights@),
                forall|j: int| 0 <= j < codes@.len() && (#[trigger] codes@[j]).0 ==> codes@[j].1 < u64::MAX,
                codes_len(codes@) == rb <= usize::MAX,
                writer_codes(self.writer) == enc_rows(oldrows) + codes@.subrange(0, i as int),
                bits == codes_len(codes@.subrange(0, i as int)),
                bits <= rb,
                self.offsets@ == old(self).offsets@.push(old(self).len),
                self.len == old(self).len,
                self.num_nodes == old(self).num_nodes,
                self.num_weights == old(self).num_weights,
                self.rows == old(self).rows,
            decreases codes@.len() - i,
        {
            let c = codes[i];
            proof {
                lemma_code_len_le(codes@, i as int);
                lemma_codes_len_prefix(codes@, i + 1);
                assert(codes@.subrange(0, i + 1).drop_last() =~= codes@.subrange(0, i as int));
                lemma_codes_len_last(codes@.subrange(0, i + 1));
            }
            let b: usize;
            if c.0 {
                b = write_gamma(&mut self.writer, c.1);
            } else {
                proof {
                    assert(code_len(codes@[i as int]) == c.1 + 1);
                    assert(c.1 + 1 <= usize::MAX);
                }
                b = write_unary(&mut self.writer, c.1);
            }
            proof {
                assert(writer_codes(self.writer) =~= enc_rows(oldrows) + codes@.subrange(
                    0,
                    i + 1,
                ));
            }
            bits = bits + b;
            i = i + 1;
        }
        proof {
            assert(codes@.subrange(0, codes@.len() as int) =~= codes@);
        }
        self.len = self.len + bits;
        self.num_nodes = self.num_nodes + 1;
        self.num_weights = self.num_weights + weights.len();
        proof {
            self.rows@ = oldrows.push(weights@);
        }
        proof {
            lemma_enc_rows_snoc(oldrows, weights@);
            lemma_codes_len_add(enc_rows(oldrows), enc_weights(weights@));
            assert forall|j: int| 0 <= j < self.rows@.len() implies #[trigger] self.offsets@[j]
                == codes_len(enc_rows(self.rows@.subrange(0, j))) by {
                if j < oldrows.len() {
                    assert(self.rows@.subrange(0, j) =~= oldrows.subrange(0, j));
                    assert(self.offsets@[j] == old(self).offsets@[j]);
                } else {
                    assert(self.rows@.subrange(0, j) =~= oldrows);
                }
            }
            assert forall|j: int| 0 <= j < self.rows@.len() implies (#[trigger] self.rows@[j]).len()
                < u64::MAX && self.rows@[j].len() <= usize::MAX by {
                if j < oldrows.len() {
                    assert(self.rows@[j] == oldrows[j]);
                } else {
                    assert(self.rows@[j] == weights@);
                }
            }
        }
        Ok(bits)
    }

    /// Finishes the stream: offsets become an Elias-Fano index over the
    /// bytes of the bitstream.
    pub fn build(self) -> (w: Weights)
        requires
            self.wf(),
        ensures
            w.wf(),
            w.rows_view() == self.rows_view(),
    {
        let ghost rows = self.rows@;
        let n = self.num_nodes;
        let u = self.len;
        let mut efb = ef_builder_new(n, u);
        let mut j: usize = 0;
        while j < n
            invariant
                j <= n,
                n == self.offsets@.len() == rows.len(),
                self.len == u == codes_len(enc_rows(rows)),
                forall|t: int|
                    0 <= t < rows.len() ==> #[trigger] self.offsets@[t] == codes_len(
                        enc_rows(rows.subrange(0, t)),
                    ),
                crate::ef::efb_elems(efb) == self.offsets@.subrange(0, j as int),
                crate::ef::efb_bounds(efb) == ((n, u)),
            decreases n - j,
        {
            proof {
                lemma_enc_rows_prefix_le(rows, j as int);
                if j > 0 {
                    lemma_enc_rows_prefix_le(rows.subrange(0, j as int), j - 1);
                    assert(rows.subrange(0, j as int).subrange(0, j - 1) =~= rows.subrange(
                        0,
                        j - 1,
                    ));
                    assert(crate::ef::efb_elems(efb).last() == self.offsets@[j - 1]);
                }
            }
            let off = self.offsets[j];
            ef_push(&mut efb, off);
            proof {
                assert(crate::ef::efb_elems(efb) =~= self.offsets@.subrange(0, j + 1));
            }
            j = j + 1;
        }
        proof {
            assert(self.offsets@.subrange(0, n as int) =~= self.offsets@);
        }
        let offsets = ef_build(efb);
        let factory = writer_into_factory(self.writer);
        Weights {
            reader_factory: factory,
            offsets,
            num_nodes: self.num_nodes,
            num_weights: self.num_weights,
            rows: Ghost(rows),
        }
    }

    /// Finishes the stream like [`WeightsBuilder::build`]; the offsets
    /// are materialized sequentially here as well.
    pub fn par_build(self) -> (w: Weights)
        requires
            self.wf(),
        ensures
            w.wf(),
            w.rows_view() == self.rows_view(),
    {
        self.build()
    }
}

impl Default for WeightsBuilder {
    /// An empty builder.
    fn default() -> (b: WeightsBuilder)
        ensures
            b.wf(),
            b.rows_view() == Seq::<Seq<usize>>::empty(),
    {
        WeightsBuilder::new()
    }
}

// ===================== the finished stream =====================

/// The finished weight bitstream: random access to any key's weights
/// through the Elias-Fano bit-offset index.
pub struct Weights {
    reader_factory: CursorReaderFactory,
    offsets: crate::ef::EfIndex,
    num_nodes: usize,
    num_weights: usize,
    rows: Ghost<Seq<Seq<usize>>>,
}

impl Weights {
    /// The per-key weight rows the stream encodes.
    pub closed spec fn rows_view(self) -> Seq<Seq<usize>> {
        self.rows@
    }

    /// The stream's bytes, offsets and counters agree with its rows.
    pub closed spec fn wf(self) -> bool {
        &&& stream_codes(self.reader_factory) == enc_rows(self.rows@)
        &&& crate::ef::ef_elems(self.offsets).len() == self.rows@.len()
        &&& (forall|j: int|
            0 <= j < self.rows@.len() ==> #[trigger] crate::ef::ef_elems(self.offsets)[j]
                == codes_len(enc_rows(self.rows@.subrange(0, j))))
        &&& self.num_nodes == self.rows@.len()
        &&& self.num_weights == total_weights(self.rows@)
        &&& (forall|j: int|
            0 <= j < self.rows@.len() ==> (#[trigger] self.rows@[j]).len() < u64::MAX && self.rows@[j].len() <= usize::MAX)
    }

    /// Assembles a stream from its parts; the parts must agree as
    /// [`Weights::wf`] demands.
    pub fn new(
        reader_factory: CursorReaderFactory,
        offsets: crate::ef::EfIndex,
        num_nodes: usize,
        num_weights: usize,
        Ghost(rows): Ghost<Seq<Seq<usize>>>,
    ) -> (w: Weights)
        requires
            stream_codes(reader_factory) == enc_rows(rows),
            crate::ef::ef_elems(offsets).len() == rows.len(),
            forall|j: int|
                0 <= j < rows.len() ==> #[trigger] crate::ef::ef_elems(offsets)[j] == codes_len(
                    enc_rows(rows.subrange(0, j)),
                ),
            num_nodes == rows.len(),
            num_weights == total_weights(rows),
            forall|j: int|
                0 <= j < rows.len() ==> (#[trigger] rows[j]).len() < u64::MAX && rows[j].len()
                    <= usize::MAX,
        ensures
            w.wf(),
            w.rows_view() == rows,
    {
        Weights { reader_factory, offsets, num_nodes, num_weights, rows: Ghost(rows) }
    }

    /// How many weights the stream holds over all keys.
    pub fn num_weights(&self) -> (n: usize)
        requires
            self.wf(),
        ensures
            n == total_weights(self.rows_view()),
    {
        self.num_weights
    }

    /// How many keys the stream holds weights for.
    pub fn num_nodes(&self) -> (n: usize)
        requires
            self.wf(),
        ensures
            n == self.rows_view().len(),
    {
        self.num_nodes
    }

    /// The total weight count, as the labelling's arc count.
    pub fn num_arcs(&self) -> (n: u64)
        requires
            self.wf(),
        ensures
            n == total_weights(self.rows_view()),
    {
        self.num_weights as u64
    }

    /// Hands back the stream's parts: the byte stream and the offset index.
    pub fn into_inner(self) -> (r: (CursorReaderFactory, crate::ef::EfIndex))
        requires
            self.wf(),
        ensures
            stream_codes(r.0) == enc_rows(self.rows_view()),
            crate::ef::ef_elems(r.1).len() == self.rows_view().len(),
            forall|j: int|
                0 <= j < self.rows_view().len() ==> #[trigger] crate::ef::ef_elems(r.1)[j]
                    == codes_len(enc_rows(self.rows_view().subrange(0, j))),
    {
        (self.reader_factory, self.offsets)
    }

    /// Reads the weight count of one key: only its γ prefix is decoded.
    pub fn outdegree(&self, node_id: usize) -> (d: usize)
        requires
            self.wf(),
            node_id < self.rows_view().len(),
        ensures
            d == self.rows_view()[node_id as int].len(),
    {
        let off = ef_get(&self.offsets, node_id);
        proof {
            lemma_enc_rows_split(self.rows@, node_id as int);
        }
        let mut reader = self.reader_factory.get_reader(off);
        proof {
            lemma_enc_rows_cons(self.rows@.skip(node_id as int));
            assert(self.rows@.skip(node_id as int)[0] == self.rows@[node_id as int]);
            let ws = self.rows@[node_id as int];
            assert(reader_codes(reader) == enc_weights(ws) + enc_rows(
                self.rows@.skip(node_id as int).drop_first(),
            ));
            assert(reader_codes(reader)[0] == code_gamma(ws.len() as u64));
        }
        let n64 = read_gamma(&mut reader);
        proof {
            assert(self.rows@[node_id as int].len() <= usize::MAX);
        }
        n64 as usize
    }

    /// Positions a lazy decoder at one key's weights.
    pub fn labels(&self, node_id: usize) -> (s: Succ)
        requires
            self.wf(),
            node_id < self.rows_view().len(),
        ensures
            s.wf(),
            s.rest_view() == self.rows_view()[node_id as int],
    {
        let off = ef_get(&self.offsets, node_id);
        proof {
            lemma_enc_rows_split(self.rows@, node_id as int);
        }
        let reader = self.reader_factory.get_reader(off);
        proof {
            lemma_enc_rows_cons(self.rows@.skip(node_id as int));
            assert(self.rows@.skip(node_id as int)[0] == self.rows@[node_id as int]);
            assert(self.rows@.skip(node_id as int).drop_first() =~= self.rows@.skip(
                node_id + 1,
            ));
        }
        Succ::new(
            reader,
            Ghost(self.rows@[node_id as int]),
            Ghost(enc_rows(self.rows@.skip(node_id + 1))),
        )
    }

    /// A sequential decoder over all keys, starting at the given one.
    pub fn iter_from(&self, from: usize) -> (l: Lender)
        requires
            self.wf(),
            from < self.rows_view().len(),
        ensures
            l.wf(),
            l.rows_view() == self.rows_view(),
            l.start_view() == from,
    {
        let off = ef_get(&self.offsets, from);
        proof {
            lemma_enc_rows_split(self.rows@, from as int);
        }
        let reader = self.reader_factory.get_reader(off);
        Lender {
            reader,
            num_nodes: self.num_nodes,
            start_node: from,
            rows: Ghost(self.rows@),
        }
    }

    /// A sequential decoder over all keys from the beginning.
    pub fn iter(&self) -> (l: Lender)
        requires
            self.wf(),
        ensures
            l.wf(),
            l.rows_view() == self.rows_view(),
            l.start_view() == 0,
    {
        proof {
            assert(stream_codes(self.reader_factory) =~= Seq::<Code>::empty() + enc_rows(
                self.rows@,
            ));
        }
        let reader = self.reader_factory.get_reader(0);
        proof {
            assert(self.rows@.skip(0) =~= self.rows@);
        }
        Lender {
            reader,
            num_nodes: self.num_nodes,
            start_node: 0,
            rows: Ghost(self.rows@),
        }
    }

    /// An iterator over every weight of every key, in key order.
    pub fn weights(&self) -> (it: WeightsIter)
        requires
            self.wf(),
            self.rows_view().len() > 0,
        ensures
            it.wf(),
            it.remaining() == flat_rows(self.rows_view()),
    {
        proof {
            assert(stream_codes(self.reader_factory) =~= Seq::<Code>::empty() + enc_rows(
                self.rows@,
            ));
        }
        let reader = self.reader_factory.get_reader(0);
        proof {
            lemma_enc_rows_cons(self.rows@);
        }
        let s = Succ::new(reader, Ghost(self.rows@[0]), Ghost(enc_rows(self.rows@.drop_first())));
        proof {
            lemma_total_weights_front(self.rows@);
            lemma_flat_rows_total(self.rows@.drop_first());
            lemma_flat_rows_cons(self.rows@);
        }
        WeightsIter { succ: s, len: self.num_weights, rows_rest: Ghost(self.rows@.drop_first()) }
    }
}

// ===================== decoding =====================

/// All rows laid out flat, in order.
pub open spec fn flat_rows(rows: Seq<Seq<usize>>) -> Seq<usize>
    decreases rows.len(),
{
    if rows.len() == 0 {
        Seq::empty()
    } else {
        rows[0] + flat_rows(rows.drop_first())
    }
}

/// A nonempty row list flattens to its first row followed by the rest.
pub proof fn lemma_flat_rows_cons(rows: Seq<Seq<usize>>)
    requires
        rows.len() > 0,
    ensures
        flat_rows(rows) == rows[0] + flat_rows(rows.drop_first()),
{
}

/// Flattening has the total weight count as its length.
pub proof fn lemma_flat_rows_total(rows: Seq<Seq<usize>>)
    ensures
        flat_rows(rows).len() == total_weights(rows),
    decreases rows.len(),
{
    if rows.len() > 0 {
        lemma_flat_rows_total(rows.drop_first());
        lemma_total_weights_front(rows);
    }
}

/// Lazy decoder of one key's weights: reads a unary code per weight and
/// expands zero runs from their γ-coded lengths.
pub struct Succ {
    reader: BitReader,
    weights_to_decode: usize,
    zeros_range: usize,
    rest: Ghost<Seq<usize>>,
    tail: Ghost<Seq<Code>>,
}

impl Succ {
    /// The weights still to be yielded for this key.
    pub closed spec fn rest_view(self) -> Seq<usize> {
        self.rest@
    }

    /// The codes that follow this key's in the stream.
    pub closed spec fn tail_view(self) -> Seq<Code> {
        self.tail@
    }

    /// The decoder state matches the remaining stream.
    pub closed spec fn wf(self) -> bool {
        &&& self.weights_to_decode == self.rest@.len()
        &&& self.zeros_range <= self.rest@.len()
        &&& (forall|i: int| 0 <= i < self.zeros_range ==> self.rest@[i] == 0)
        &&& reader_codes(self.reader) == enc_body(self.rest@.skip(self.zeros_range as int))
            + self.tail@
    }

    /// Starts decoding a key: reads the γ-coded weight count.
    pub fn new(reader: BitReader, Ghost(ws): Ghost<Seq<usize>>, Ghost(tail): Ghost<Seq<Code>>) -> (s:
        Succ)
        requires
            reader_codes(reader) == enc_weights(ws) + tail,
            ws.len() <= usize::MAX,
        ensures
            s.wf(),
            s.rest_view() == ws,
            s.tail_view() == tail,
    {
        let mut reader = reader;
        proof {
            assert((enc_weights(ws) + tail)[0] == code_gamma(ws.len() as u64));
        }
        let n64 = read_gamma(&mut reader);
        proof {
            assert(reader_codes(reader) =~= enc_body(ws) + tail);
            assert(ws.skip(0) =~= ws);
        }
        Succ {
            reader,
            weights_to_decode: n64 as usize,
            zeros_range: 0,
            rest: Ghost(ws),
            tail: Ghost(tail),
        }
    }

    /// How many weights are left.
    pub fn len(&self) -> (n: usize)
        requires
            self.wf(),
        ensures
            n == self.rest_view().len(),
    {
        self.weights_to_decode
    }

    /// Hands the underlying reader back.
    pub fn into_inner(self) -> (r: BitReader)
        requires
            self.wf(),
            self.rest_view().len() == 0,
        ensures
            reader_codes(r) == self.tail_view(),
    {
        proof {
            assert(self.rest@.skip(0) =~= self.rest@);
            assert(enc_body(self.rest@) + self.tail@ =~= self.tail@);
        }
        self.reader
    }

    /// Rearms the decoder for the next key in the stream.
    pub fn reset(&mut self, Ghost(ws): Ghost<Seq<usize>>, Ghost(tail2): Ghost<Seq<Code>>)
        requires
            old(self).wf(),
            old(self).rest_view().len() == 0,
            old(self).tail_view() == enc_weights(ws) + tail2,
            ws.len() <= usize::MAX,
        ensures
            final(self).wf(),
            final(self).rest_view() == ws,
            final(self).tail_view() == tail2,
    {
        proof {
            assert(old(self).rest@.skip(0) =~= old(self).rest@);
            assert(enc_body(old(self).rest@) + old(self).tail@ =~= old(self).tail@);
            assert((enc_weights(ws) + tail2)[0] == code_gamma(ws.len() as u64));
        }
        let n64 = read_gamma(&mut self.reader);
        proof {
            assert(reader_codes(self.reader) =~= enc_body(ws) + tail2);
            assert(ws.skip(0) =~= ws);
        }
        self.weights_to_decode = n64 as usize;
        self.zeros_range = 0;
        proof {
            self.rest@ = ws;
            self.tail@ = tail2;
        }
    }

    /// Yields the next weight of this key, or nothing when it is done.
    pub fn next(&mut self) -> (r: Option<usize>)
        requires
            old(self).wf(),
        ensures
            final(self).wf(),
            final(self).tail_view() == old(self).tail_view(),
            old(self).rest_view().len() == 0 ==> r is None && *final(self) == *old(self),
            old(self).rest_view().len() > 0 ==> r == Some(old(self).rest_view()[0])
                && final(self).rest_view() == old(self).rest_view().drop_first(),
    {
        if self.weights_to_decode == 0 {
            return None;
        }
        let ghost rest = self.rest@;
        let ghost tail = self.tail@;
        if self.zeros_range > 0 {
            self.zeros_range = self.zeros_range - 1;
            self.weights_to_decode = self.weights_to_decode - 1;
            proof {
                self.rest@ = rest.drop_first();
                assert(rest[0] == 0);
                assert(rest.drop_first().skip(self.zeros_range as int) =~= rest.skip(
                    self.zeros_range + 1,
                ));
                assert forall|i: int| 0 <= i < self.zeros_range implies self.rest@[i] == 0 by {
                    assert(rest[i + 1] == 0);
                }
            }
            return Some(0);
        }
        proof {
            assert(rest.skip(0) =~= rest);
            assert(enc_body(rest).len() > 0);
            assert(reader_codes(self.reader)[0] == enc_body(rest)[0]);
        }
        let w64 = read_unary(&mut self.reader);
        if w64 == 0 {
            proof {
                if rest[0] != 0 {
                    assert(enc_body(rest)[0] == code_unary(rest[0] as u64));
                    assert(rest[0] as u64 != 0);
                }
                assert(rest[0] == 0);
                let z = lead_zeros(rest) as int;
                lemma_lead_zeros(rest);
                assert(enc_body(rest) == seq![code_unary(0), code_gamma((z - 1) as u64)]
                    + enc_body(rest.skip(z)));
                assert(reader_codes(self.reader) =~= seq![code_gamma((z - 1) as u64)] + enc_body(
                    rest.skip(z),
                ) + tail);
            }
            let z64 = read_gamma(&mut self.reader);
            proof {
                let z = lead_zeros(rest) as int;
                assert(reader_codes(self.reader) =~= enc_body(rest.skip(z)) + tail);
            }
            self.zeros_range = z64 as usize;
            self.weights_to_decode = self.weights_to_decode - 1;
            proof {
                let z = lead_zeros(rest) as int;
                self.rest@ = rest.drop_first();
                assert(self.zeros_range == z - 1);
                assert forall|i: int| 0 <= i < self.zeros_range implies self.rest@[i] == 0 by {
                    assert(rest[i + 1] == 0);
                }
                assert(rest.drop_first().skip(z - 1) =~= rest.skip(z));
            }
            Some(0)
        } else {
            proof {
                if rest[0] == 0 {
                    let z = lead_zeros(rest) as int;
                    lemma_lead_zeros(rest);
                    assert(enc_body(rest)[0] == code_unary(0));
                }
                assert(rest[0] != 0);
                assert(enc_body(rest)[0] == code_unary(rest[0] as u64));
                assert(reader_codes(self.reader) =~= enc_body(rest.drop_first()) + tail);
            }
            self.weights_to_decode = self.weights_to_decode - 1;
            proof {
                self.rest@ = rest.drop_first();
                assert(rest.drop_first().skip(0) =~= rest.drop_first());
            }
            Some(w64 as usize)
        }
    }
}

/// Sequential per-key decoder: yields each key's id with its whole weight
/// list.
pub struct Lender {
    reader: BitReader,
    num_nodes: usize,
    start_node: usize,
    rows: Ghost<Seq<Seq<usize>>>,
}

impl Lender {
    /// All rows of the stream being decoded.
    pub closed spec fn rows_view(self) -> Seq<Seq<usize>> {
        self.rows@
    }

    /// The id of the next key to be yielded.
    pub closed spec fn start_view(self) -> int {
        self.start_node as int
    }

    /// The reader is positioned at the next key's boundary.
    pub closed spec fn wf(self) -> bool {
        &&& self.start_node <= self.num_nodes == self.rows@.len()
        &&& reader_codes(self.reader) == enc_rows(self.rows@.skip(self.start_node as int))
        &&& (forall|j: int|
            0 <= j < self.rows@.len() ==> (#[trigger] self.rows@[j]).len() < u64::MAX
                && self.rows@[j].len() <= usize::MAX)
    }

    /// How many keys are left.
    pub fn len(&self) -> (n: usize)
        requires
            self.wf(),
        ensures
            n == self.rows_view().len() - self.start_view(),
    {
        self.num_nodes - self.start_node
    }

    /// Decodes the next key's weights, or nothing when all keys are done.
    pub fn next(&mut self) -> (r: Option<(usize, Vec<usize>)>)
        requires
            old(self).wf(),
        ensures
            final(self).wf(),
            final(self).rows_view() == old(self).rows_view(),
            old(self).start_view() == old(self).rows_view().len() ==> r is None && *final(self)
                == *old(self),
            old(self).start_view() < old(self).rows_view().len() ==> {
                &&& final(self).start_view() == old(self).start_view() + 1
                &&& r matches Some(p)
                &&& (r matches Some(p) ==> p.0 == old(self).start_view() && p.1@ == old(self).rows_view()[old(self).start_view()])
            },
    {
        if self.start_node == self.num_nodes {
            return None;
        }
        let ghost rows = self.rows@;
        let sn = self.start_node;
        let ghost ws = rows[sn as int];
        let ghost tail2 = enc_rows(rows.skip(sn + 1));
        proof {
            lemma_enc_rows_cons(rows.skip(sn as int));
            assert(rows.skip(sn as int)[0] == ws);
            assert(rows.skip(sn as int).drop_first() =~= rows.skip(sn + 1));
            assert((enc_weights(ws) + tail2)[0] == code_gamma(ws.len() as u64));
        }
        let n64 = read_gamma(&mut self.reader);
        proof {
            assert(reader_codes(self.reader) =~= enc_body(ws) + tail2);
            assert(ws.skip(0) =~= ws);
        }
        let n = n64 as usize;
        let mut out: Vec<usize> = Vec::new();
        let mut zr: usize = 0;
        let mut i: usize = 0;
        while i < n
            invariant
                n == ws.len(),
                i + zr <= n,
                out@ =~= ws.subrange(0, i as int),
                forall|j: int| i <= j < i + zr ==> ws[j] == 0,
                reader_codes(self.reader) == enc_body(ws.skip(i + zr)) + tail2,
                self.num_nodes == old(self).num_nodes,
                self.start_node == old(self).start_node,
                self.rows == old(self).rows,
            decreases n - i,
        {
            if zr > 0 {
                out.push(0);
                proof {
                    assert(ws[i as int] == 0);
                    assert(out@ =~= ws.subrange(0, i + 1));
                }
                zr = zr - 1;
                i = i + 1;
            } else {
                let ghost suf = ws.skip(i as int);
                proof {
                    assert(suf.len() > 0);
                    assert(enc_body(suf).len() > 0);
                    assert(reader_codes(self.reader)[0] == enc_body(suf)[0]);
                }
                let w64 = read_unary(&mut self.reader);
                if w64 == 0 {
                    proof {
                        if suf[0] != 0 {
                            assert(enc_body(suf)[0] == code_unary(suf[0] as u64));
                            assert(suf[0] as u64 != 0);
                        }
                        assert(suf[0] == 0);
                        let z = lead_zeros(suf) as int;
                        lemma_lead_zeros(suf);
                        assert(enc_body(suf) == seq![
                            code_unary(0),
                            code_gamma((z - 1) as u64),
                        ] + enc_body(suf.skip(z)));
                        assert(reader_codes(self.reader) =~= seq![code_gamma((z - 1) as u64)]
                            + enc_body(suf.skip(z)) + tail2);
                    }
                    let z64 = read_gamma(&mut self.reader);
                    proof {
                        let z = lead_zeros(suf) as int;
                        assert(reader_codes(self.reader) =~= enc_body(suf.skip(z)) + tail2);
                        assert(suf.skip(z) =~= ws.skip(i + z));
                    }
                    zr = z64 as usize;
                    out.push(0);
                    proof {
                        assert(ws[i as int] == 0);
                        assert(out@ =~= ws.subrange(0, i + 1));
                        let z = lead_zeros(suf) as int;
                        assert forall|j: int| i + 1 <= j < i + 1 + zr implies ws[j] == 0 by {
                            assert(suf[j - i] == 0);
                        }
                        assert(i + 1 + zr <= n) by {
                            assert(z <= suf.len());
                        }
                    }
                    i = i + 1;
                } else {
                    proof {
                        if suf[0] == 0 {
                            lemma_lead_zeros(suf);
                            assert(enc_body(suf)[0] == code_unary(0));
                        }
                        assert(suf[0] != 0);
                        assert(enc_body(suf)[0] == code_unary(suf[0] as u64));
                        assert(reader_codes(self.reader) =~= enc_body(suf.drop_first()) + tail2);
                        assert(suf.drop_first() =~= ws.skip(i + 1));
                    }
                    out.push(w64 as usize);
                    proof {
                        assert(ws[i as int] == suf[0]);
                        assert(out@ =~= ws.subrange(0, i + 1));
                    }
                    i = i + 1;
                }
            }
        }
        proof {
            assert(zr == 0);
            assert(ws.subrange(0, n as int) =~= ws);
            assert(ws.skip(n as int) =~= Seq::<usize>::empty());
            assert(enc_body(Seq::<usize>::empty()) + tail2 =~= tail2);
        }
        self.start_node = self.start_node + 1;
        Some((sn, out))
    }
}

/// Iterator over every weight of every key, in key order; it re-reads
/// each key's γ prefix as it crosses into it.
pub struct WeightsIter {
    succ: Succ,
    len: usize,
    rows_rest: Ghost<Seq<Seq<usize>>>,
}

impl WeightsIter {
    /// All weights still to be yielded.
    pub closed spec fn remaining(self) -> Seq<usize> {
        self.succ.rest@ + flat_rows(self.rows_rest@)
    }

    /// The decoder state matches the remaining weights.
    pub closed spec fn wf(self) -> bool {
        &&& self.succ.wf()
        &&& self.succ.tail@ == enc_rows(self.rows_rest@)
        &&& self.len == self.remaining().len()
        &&& (forall|j: int|
            0 <= j < self.rows_rest@.len() ==> (#[trigger] self.rows_rest@[j]).len() < u64::MAX
                && self.rows_rest@[j].len() <= usize::MAX)
    }

    /// How many weights are left.
    pub fn len(&self) -> (n: usize)
        requires
            self.wf(),
        ensures
            n == self.remaining().len(),
    {
        self.len
    }

    /// Yields the next weight over all keys, or nothing at the end.
    pub fn next(&mut self) -> (r: Option<usize>)
        requires
            old(self).wf(),
        ensures
            final(self).wf(),
            old(self).remaining().len() == 0 ==> r is None,
            old(self).remaining().len() > 0 ==> r == Some(old(self).remaining()[0])
                && final(self).remaining() == old(self).remaining().drop_first(),
    {
        if self.len == 0 {
            return None;
        }
        loop
            invariant
                self.wf(),
                self.len == old(self).len,
                self.remaining() == old(self).remaining(),
                self.len > 0,
            decreases self.rows_rest@.len(),
        {
            let ghost rest = self.succ.rest@;
            let ghost rows_rest = self.rows_rest@;
            let got = self.succ.next();
            match got {
                Some(w) => {
                    proof {
                        assert(rest.len() > 0);
                        assert(self.remaining() =~= old(self).remaining().drop_first());
                    }
                    self.len = self.len - 1;
                    return Some(w);
                },
                None => {
                    proof {
                        lemma_flat_rows_total(rows_rest);
                        lemma_total_weights_nonneg(rows_rest);
                        assert(rows_rest.len() > 0) by {
                            if rows_rest.len() == 0 {
                                assert(self.remaining().len() == 0);
                            }
                        }
                        lemma_enc_rows_cons(rows_rest);
                    }
                    let ghost head = rows_rest[0];
                    self.succ.reset(Ghost(head), Ghost(enc_rows(rows_rest.drop_first())));
                    proof {
                        self.rows_rest@ = rows_rest.drop_first();
                        lemma_flat_rows_cons(rows_rest);
                        assert(self.remaining() =~= rest + flat_rows(rows_rest));
                    }
                },
            }
        }
    }
}

} // verus!
