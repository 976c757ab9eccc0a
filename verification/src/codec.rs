//! The binary row format. A record is a 16-byte header followed by the
//! packed window: the offset as an 8-byte big-endian two's-complement signed
//! integer, the number of packed bytes as an 8-byte big-endian unsigned
//! integer, then the window packed 8 cells per byte, most significant bit
//! first. The window is padded up to a byte boundary with copies of its last
//! cell, so the unused low bits of a partial final byte carry the tail fill
//! value rather than zeros. The header stores a byte count, so a decoded
//! window is the padded window: decoding reproduces the encoded window
//! exactly when its length is a multiple of 8, and a row standing for the
//! same line otherwise.

use vstd::arithmetic::div_mod::lemma_fundamental_div_mod_converse;
use vstd::prelude::*;

use crate::row::{line_cell, skirt_ok, Row};

verus! {

/// A record that cannot be decoded: `Truncated` when the data ends before
/// the 16-byte header or before the byte count it declares, `InvalidWindow`
/// when the decoded window is empty or breaks the skirt invariant.
#[derive(Clone, Copy, Debug, PartialEq, Eq, Structural)]
pub enum ImportError {
    Truncated,
    InvalidWindow,
}

/// The byte whose bits, most significant first, are the eight cells `s`.
pub open spec fn byte_of_bits(s: Seq<bool>) -> u8 {
    ((if s[0] {
        128int
    } else {
        0int
    }) + (if s[1] {
        64int
    } else {
        0int
    }) + (if s[2] {
        32int
    } else {
        0int
    }) + (if s[3] {
        16int
    } else {
        0int
    }) + (if s[4] {
        8int
    } else {
        0int
    }) + (if s[5] {
        4int
    } else {
        0int
    }) + (if s[6] {
        2int
    } else {
        0int
    }) + (if s[7] {
        1int
    } else {
        0int
    })) as u8
}

/// The eight cells of a byte, most significant bit first.
pub open spec fn bits_of_byte(b: u8) -> Seq<bool> {
    seq![
        b / 128 % 2 == 1,
        b / 64 % 2 == 1,
        b / 32 % 2 == 1,
        b / 16 % 2 == 1,
        b / 8 % 2 == 1,
        b / 4 % 2 == 1,
        b / 2 % 2 == 1,
        b % 2 == 1,
    ]
}

/// The eight bytes of `u`, most significant first.
pub open spec fn be_bytes_u64(u: u64) -> Seq<u8> {
    seq![
        (u / 0x100000000000000) as u8,
        (u / 0x1000000000000 % 256) as u8,
        (u / 0x10000000000 % 256) as u8,
        (u / 0x100000000 % 256) as u8,
        (u / 0x1000000 % 256) as u8,
        (u / 0x10000 % 256) as u8,
        (u / 0x100 % 256) as u8,
        (u % 256) as u8,
    ]
}

/// The value of eight bytes read as one big-endian unsigned integer.
pub open spec fn u64_of_be(b: Seq<u8>) -> u64 {
    (b[0] * 0x100000000000000 + b[1] * 0x1000000000000 + b[2] * 0x10000000000 + b[3] * 0x100000000
        + b[4] * 0x1000000 + b[5] * 0x10000 + b[6] * 0x100 + b[7]) as u64
}

/// The offset an unsigned 64-bit value stands for, read as two's complement.
pub open spec fn offset_from_u64(u: u64) -> int {
    if u < 0x8000000000000000 {
        u as int
    } else {
        u - 0x10000000000000000
    }
}

/// The unsigned 64-bit value that carries `x` in two's complement.
pub open spec fn u64_of_offset(x: i64) -> u64 {
    if x >= 0 {
        x as u64
    } else {
        (x + 0x10000000000000000) as u64
    }
}

/// The window extended with copies of its last cell up to a byte boundary.
pub open spec fn padded(w: Seq<bool>) -> Seq<bool> {
    w + Seq::new(((8 - w.len() % 8) % 8) as nat, |i: int| w[w.len() - 1])
}

/// The bytes of a window whose length is a multiple of 8, packed 8 cells per
/// byte, most significant bit first.
pub open spec fn packed(p: Seq<bool>) -> Seq<u8> {
    Seq::new((p.len() / 8) as nat, |i: int| byte_of_bits(p.subrange(8 * i, 8 * i + 8)))
}

/// The cells of a payload of packed bytes, 8 per byte, most significant bit
/// first.
pub open spec fn unpacked(bs: Seq<u8>) -> Seq<bool> {
    Seq::new((bs.len() * 8) as nat, |j: int| bits_of_byte(bs[j / 8])[j % 8])
}

/// The full encoded record of a row: offset, packed byte count, packed
/// padded window.
pub open spec fn record_bytes(offset: i64, w: Seq<bool>) -> Seq<u8> {
    be_bytes_u64(u64_of_offset(offset)) + be_bytes_u64((padded(w).len() / 8) as u64) + packed(
        padded(w),
    )
}

/// The offset a record's header declares.
pub open spec fn import_offset(d: Seq<u8>) -> int {
    offset_from_u64(u64_of_be(d.subrange(0, 8)))
}

/// The payload byte count a record's header declares.
pub open spec fn import_byte_len(d: Seq<u8>) -> int {
    u64_of_be(d.subrange(8, 16)) as int
}

/// The window a record's payload holds.
pub open spec fn import_window(d: Seq<u8>) -> Seq<bool> {
    unpacked(d.subrange(16, 16 + import_byte_len(d)))
}

/// Whether `d` begins with a decodable record: long enough for its header
/// and declared payload, with a nonempty window that meets the skirt
/// invariant.
pub open spec fn import_ok(d: Seq<u8>) -> bool {
    &&& d.len() >= 16
    &&& import_byte_len(d) <= d.len() - 16
    &&& import_byte_len(d) >= 1
    &&& skirt_ok(import_window(d))
}

proof fn lemma_byte_bits_roundtrip(s: Seq<bool>)
    requires
        s.len() == 8,
    ensures
        bits_of_byte(byte_of_bits(s)) =~= s,
{
    let c0: u8 = if s[0] {
        1
    } else {
        0
    };
    let c1: u8 = if s[1] {
        1
    } else {
        0
    };
    let c2: u8 = if s[2] {
        1
    } else {
        0
    };
    let c3: u8 = if s[3] {
        1
    } else {
        0
    };
    let c4: u8 = if s[4] {
        1
    } else {
        0
    };
    let c5: u8 = if s[5] {
        1
    } else {
        0
    };
    let c6: u8 = if s[6] {
        1
    } else {
        0
    };
    let c7: u8 = if s[7] {
        1
    } else {
        0
    };
    let x = byte_of_bits(s);
    assert(x == c0 * 128 + c1 * 64 + c2 * 32 + c3 * 16 + c4 * 8 + c5 * 4 + c6 * 2 + c7);
    assert((x / 128 % 2 == c0) && (x / 64 % 2 == c1) && (x / 32 % 2 == c2) && (x / 16 % 2 == c3)
        && (x / 8 % 2 == c4) && (x / 4 % 2 == c5) && (x / 2 % 2 == c6) && (x % 2 == c7))
        by (bit_vector)
        requires
            x == c0 * 128 + c1 * 64 + c2 * 32 + c3 * 16 + c4 * 8 + c5 * 4 + c6 * 2 + c7,
            c0 < 2,
            c1 < 2,
            c2 < 2,
            c3 < 2,
            c4 < 2,
            c5 < 2,
            c6 < 2,
            c7 < 2,
    ;
}

proof fn lemma_be_roundtrip(u: u64)
    ensures
        u64_of_be(be_bytes_u64(u)) == u,
{
    assert(u / 0x100000000000000 * 0x100000000000000 + u / 0x1000000000000 % 256 * 0x1000000000000
        + u / 0x10000000000 % 256 * 0x10000000000 + u / 0x100000000 % 256 * 0x100000000 + u
        / 0x1000000 % 256 * 0x1000000 + u / 0x10000 % 256 * 0x10000 + u / 0x100 % 256 * 0x100 + u
        % 256 == u) by (bit_vector);
}

/// One byte of a packed payload decodes to exactly the eight cells it was
/// packed from.
proof fn lemma_unpack_pack(p: Seq<bool>)
    requires
        p.len() % 8 == 0,
    ensures
        unpacked(packed(p)) =~= p,
{
    let bs = packed(p);
    assert(bs.len() == p.len() / 8);
    assert(bs.len() * 8 == p.len());
    assert forall|j: int| 0 <= j < p.len() implies unpacked(bs)[j] == p[j] by {
        lemma_fundamental_div_mod_converse(j, 8, j / 8, j % 8);
        let i = j / 8;
        assert(0 <= i < bs.len());
        assert(bs[i] == byte_of_bits(p.subrange(8 * i, 8 * i + 8)));
        lemma_byte_bits_roundtrip(p.subrange(8 * i, 8 * i + 8));
        assert(bits_of_byte(bs[i])[j % 8] == p.subrange(8 * i, 8 * i + 8)[j % 8]);
        assert(p.subrange(8 * i, 8 * i + 8)[j % 8] == p[8 * i + j % 8]);
        assert(8 * i + j % 8 == j);
    }
}

/// Appends the eight big-endian bytes of `u`.
fn push_be_u64(out: &mut Vec<u8>, u: u64)
    ensures
        final(out)@ == old(out)@ + be_bytes_u64(u),
{
    assert(u / 0x100000000000000 < 256) by (bit_vector);
    out.push((u / 0x100000000000000) as u8);
    out.push((u / 0x1000000000000 % 256) as u8);
    out.push((u / 0x10000000000 % 256) as u8);
    out.push((u / 0x100000000 % 256) as u8);
    out.push((u / 0x1000000 % 256) as u8);
    out.push((u / 0x10000 % 256) as u8);
    out.push((u / 0x100 % 256) as u8);
    out.push((u % 256) as u8);
    assert(final(out)@ =~= old(out)@ + be_bytes_u64(u));
}

/// Reads eight bytes at `at` as one big-endian unsigned integer.
fn read_be_u64(data: &[u8], at: usize) -> (r: u64)
    requires
        at + 8 <= data@.len(),
    ensures
        r == u64_of_be(data@.subrange(at as int, at as int + 8)),
{
    let r: u64 = (data[at] as u64) * 0x100000000000000 + (data[at + 1] as u64) * 0x1000000000000 + (
    data[at + 2] as u64) * 0x10000000000 + (data[at + 3] as u64) * 0x100000000 + (data[at
        + 4] as u64) * 0x1000000 + (data[at + 5] as u64) * 0x10000 + (data[at + 6] as u64) * 0x100
        + (data[at + 7] as u64);
    r
}

/// Packs the eight cells at `i` into one byte, most significant bit first.
fn pack8(p: &Vec<bool>, i: usize) -> (r: u8)
    requires
        i + 8 <= p@.len(),
    ensures
        r == byte_of_bits(p@.subrange(i as int, i as int + 8)),
{
    let len: usize = p.len();
    assert(i + 8 <= len);
    (if p[i] {
        128
    } else {
        0
    }) + (if p[i + 1] {
        64
    } else {
        0
    }) + (if p[i + 2] {
        32
    } else {
        0
    }) + (if p[i + 3] {
        16
    } else {
        0
    }) + (if p[i + 4] {
        8
    } else {
        0
    }) + (if p[i + 5] {
        4
    } else {
        0
    }) + (if p[i + 6] {
        2
    } else {
        0
    }) + (if p[i + 7] {
        1
    } else {
        0
    })
}

/// Appends the eight cells of `b`, most significant bit first.
fn push_bits_of_byte(out: &mut Vec<bool>, b: u8)
    ensures
        final(out)@ == old(out)@ + bits_of_byte(b),
{
    out.push(b / 128 % 2 == 1);
    out.push(b / 64 % 2 == 1);
    out.push(b / 32 % 2 == 1);
    out.push(b / 16 % 2 == 1);
    out.push(b / 8 % 2 == 1);
    out.push(b / 4 % 2 == 1);
    out.push(b / 2 % 2 == 1);
    out.push(b % 2 == 1);
    assert(final(out)@ =~= old(out)@ + bits_of_byte(b));
}

impl Row {
    /// Append this row's encoded record to `out`: 8 bytes of offset, 8 bytes
    /// of payload byte count, then the window packed 8 cells per byte with
    /// its final partial byte padded out with the tail cell value.
    pub fn export(&self, out: &mut Vec<u8>)
        requires
            self.wf(),
        ensures
            final(out)@ == old(out)@ + record_bytes(self.offset, self.cells@),
    {
        let ghost w = self.cells@;
        let u: u64 = if self.offset >= 0 {
            self.offset as u64
        } else {
            (self.offset as i128 + 0x10000000000000000i128) as u64
        };
        assert(u == u64_of_offset(self.offset));
        push_be_u64(out, u);
        let len: usize = self.cells.len();
        let mut p: Vec<bool> = Vec::new();
        let mut i: usize = 0;
        while i < len
            invariant
                0 <= i <= len,
                len == w.len(),
                w == self.cells@,
                p@ =~= w.take(i as int),
            decreases len - i,
        {
            p.push(self.cells[i]);
            i = i + 1;
        }
        assert(p@ =~= w);
        let tail = self.cells[len - 1];
        let pad: usize = (8 - len % 8) % 8;
        let mut k: usize = 0;
        while k < pad
            invariant
                0 <= k <= pad,
                pad == (8 - w.len() % 8) % 8,
                len == w.len(),
                tail == w[w.len() - 1],
                w.len() >= 1,
                p@ =~= w + Seq::new(k as nat, |m: int| w[w.len() - 1]),
            decreases pad - k,
        {
            p.push(tail);
            k = k + 1;
        }
        assert(p@ =~= padded(w));
        assert(p@.len() % 8 == 0);
        let pl: usize = p.len() / 8;
        push_be_u64(out, pl as u64);
        let ghost header = old(out)@ + be_bytes_u64(u64_of_offset(self.offset)) + be_bytes_u64(
            (padded(w).len() / 8) as u64,
        );
        assert(out@ == header);
        let plen: usize = p.len();
        let mut b: usize = 0;
        while b < pl
            invariant
                0 <= b <= pl,
                pl == p@.len() / 8,
                plen == p@.len(),
                p@.len() % 8 == 0,
                p@ == padded(w),
                out@ =~= header + packed(p@).take(b as int),
            decreases pl - b,
        {
            assert(8 * pl == plen);
            assert(8 * b + 8 <= p@.len());
            let byte = pack8(&p, 8 * b);
            out.push(byte);
            assert(out@ =~= header + packed(p@).take(b as int + 1));
            b = b + 1;
        }
        assert(packed(p@).take(pl as int) =~= packed(p@));
        assert(out@ =~= old(out)@ + record_bytes(self.offset, w));
    }

    /// Decode one record from the front of `data`: the reconstructed row and
    /// the number of bytes the record occupied, so that back-to-back records
    /// can be read in turn. Fails with `Truncated` when the data ends before
    /// the header or the declared payload, and with `InvalidWindow` when the
    /// decoded window is empty or breaks the skirt invariant.
    pub fn import(data: &[u8]) -> (res: Result<(Row, usize), ImportError>)
        ensures
            res is Ok <==> import_ok(data@),
            res == Err::<(Row, usize), ImportError>(ImportError::Truncated) <==> (data@.len() < 16
                || import_byte_len(data@) > data@.len() - 16),
            res matches Ok(p) ==> {
                &&& p.0.offset as int == import_offset(data@)
                &&& p.0.cells@ == import_window(data@)
                &&& p.0.wf()
                &&& p.1 == 16 + import_byte_len(data@)
            },
    {
        if data.len() < 16 {
            return Err(ImportError::Truncated);
        }
        let u = read_be_u64(data, 0);
        let offset: i64 = if u < 0x8000000000000000 {
            u as i64
        } else {
            (u as i128 - 0x10000000000000000i128) as i64
        };
        assert(offset as int == offset_from_u64(u));
        let l64 = read_be_u64(data, 8);
        if l64 > (data.len() - 16) as u64 {
            return Err(ImportError::Truncated);
        }
        let l: usize = l64 as usize;
        let dlen: usize = data.len();
        let ghost payload = data@.subrange(16, 16 + l as int);
        let mut cells: Vec<bool> = Vec::new();
        let mut i: usize = 0;
        while i < l
            invariant
                0 <= i <= l,
                dlen == data@.len(),
                16 + l <= dlen,
                payload == data@.subrange(16, 16 + l as int),
                cells@ =~= unpacked(payload.take(i as int)),
            decreases l - i,
        {
            let byte = data[16 + i];
            assert(byte == payload[i as int]);
            push_bits_of_byte(&mut cells, byte);
            proof {
                lemma_unpacked_step(payload, i as int);
            }
            i = i + 1;
        }
        assert(payload.take(l as int) =~= payload);
        assert(cells@ == unpacked(payload));
        assert(cells@ == import_window(data@));
        if cells.len() < 6 {
            return Err(ImportError::InvalidWindow);
        }
        let n: usize = cells.len();
        if !(cells[1] == cells[0] && cells[2] == cells[0] && cells[n - 2] == cells[n - 1]
            && cells[n - 3] == cells[n - 1]) {
            return Err(ImportError::InvalidWindow);
        }
        assert(skirt_ok(cells@));
        Ok((Row { offset, cells }, 16 + l))
    }
}

/// Decoding one more byte of a payload appends exactly that byte's cells.
proof fn lemma_unpacked_step(bs: Seq<u8>, i: int)
    requires
        0 <= i < bs.len(),
    ensures
        unpacked(bs.take(i + 1)) =~= unpacked(bs.take(i)) + bits_of_byte(bs[i]),
{
    assert forall|j: int| 0 <= j < 8 * (i + 1) implies unpacked(bs.take(i + 1))[j] == (unpacked(
        bs.take(i),
    ) + bits_of_byte(bs[i]))[j] by {
        lemma_fundamental_div_mod_converse(j, 8, j / 8, j % 8);
        if j < 8 * i {
            assert(0 <= j / 8 < i);
            assert(bs.take(i + 1)[j / 8] == bs[j / 8]);
            assert(bs.take(i)[j / 8] == bs[j / 8]);
        } else {
            assert(j / 8 == i) by {
                lemma_fundamental_div_mod_converse(j, 8, i, j - 8 * i);
            }
            assert(bs.take(i + 1)[j / 8] == bs[i]);
            assert((unpacked(bs.take(i)) + bits_of_byte(bs[i]))[j] == bits_of_byte(bs[i])[j - 8
                * i]);
        }
    }
}

/// Padding a window up to a byte boundary with its tail value keeps the
/// skirt invariant and the value of every coordinate of the line.
proof fn lemma_padded(w: Seq<bool>)
    requires
        skirt_ok(w),
    ensures
        padded(w).len() % 8 == 0,
        w.len() <= padded(w).len() < w.len() + 8,
        forall|i: int| 0 <= i < w.len() ==> padded(w)[i] == w[i],
        forall|i: int| w.len() <= i < padded(w).len() ==> padded(w)[i] == w[w.len() - 1],
        skirt_ok(padded(w)),
        forall|c: int, offset: int|
            line_cell(offset, padded(w), c) == #[trigger] line_cell(offset, w, c),
{
    let p = padded(w);
    assert(p[p.len() - 1] == w[w.len() - 1] && p[p.len() - 2] == w[w.len() - 1] && p[p.len()
        - 3] == w[w.len() - 1]);
    assert forall|c: int, offset: int|
        line_cell(offset, p, c) == #[trigger] line_cell(offset, w, c) by {
        if c - offset >= w.len() {
        } else {
        }
    }
}

/// Decoding an encoded record always succeeds and reproduces the offset and
/// the padded window, which stands for the same line as the window itself.
pub proof fn lemma_record_roundtrip(offset: i64, w: Seq<bool>)
    requires
        skirt_ok(w),
        w.len() + 7 < 0x10000000000000000,
    ensures
        import_ok(record_bytes(offset, w)),
        import_offset(record_bytes(offset, w)) == offset,
        import_byte_len(record_bytes(offset, w)) == padded(w).len() / 8,
        import_window(record_bytes(offset, w)) == padded(w),
        forall|c: int|
            #[trigger] line_cell(offset as int, import_window(record_bytes(offset, w)), c)
                == line_cell(offset as int, w, c),
{
    lemma_padded(w);
    let d = record_bytes(offset, w);
    let p = padded(w);
    let pl = p.len() as int / 8;
    assert(8 * pl == p.len());
    assert(pl >= 1);
    assert(d.len() == 16 + pl);
    assert(d.subrange(0, 8) =~= be_bytes_u64(u64_of_offset(offset)));
    assert(d.subrange(8, 16) =~= be_bytes_u64(pl as u64));
    lemma_be_roundtrip(u64_of_offset(offset));
    lemma_be_roundtrip(pl as u64);
    assert(import_byte_len(d) == pl);
    assert(import_offset(d) == offset_from_u64(u64_of_offset(offset)));
    assert(offset_from_u64(u64_of_offset(offset)) == offset);
    assert(d.subrange(16, 16 + pl) =~= packed(p));
    lemma_unpack_pack(p);
    assert(import_window(d) == p);
}

/// A record decodes back to the row it was encoded from: for a window whose
/// length is a multiple of 8 the padding is empty, and `import` of
/// `record_bytes(offset, w)` yields exactly `offset` and `w`.
#[verifier::rlimit(60)]
pub proof fn lemma_export_import_roundtrip(offset: i64, w: Seq<bool>)
    requires
        skirt_ok(w),
        w.len() % 8 == 0,
        w.len() < 0x10000000000000000,
    ensures
        import_ok(record_bytes(offset, w)),
        import_offset(record_bytes(offset, w)) == offset,
        import_window(record_bytes(offset, w)) == w,
        import_byte_len(record_bytes(offset, w)) == w.len() / 8,
{
    lemma_record_roundtrip(offset, w);
    assert((8 - w.len() % 8) % 8 == 0);
    assert(padded(w) =~= w);
}

} // verus!
