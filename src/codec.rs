//! Fixed-width integer cells in a binary image.
//!
//! A cell of 1 to 4 bytes holds an unsigned integer least-significant byte
//! first. The image is a byte sequence; reading takes a shared slice and
//! writing a mutable vector, so a read-only view cannot write.
use vstd::prelude::*;

verus! {

/// The widest cell, in bytes.
pub const MAX_CELL: usize = 4;

/// Why a cell could not be read or written.
#[derive(Clone, Copy, Debug, PartialEq, Eq, Structural)]
pub enum CellError {
    /// The cell is wider than four bytes.
    TooWide { size: usize },
    /// The cell does not lie inside the image.
    OutOfBounds { address: u64, size: usize },
}

pub open spec fn pow256(n: nat) -> nat
    decreases n,
{
    if n == 0 {
        1
    } else {
        256 * pow256((n - 1) as nat)
    }
}

/// The integer that bytes stored least significant first denote.
pub open spec fn le_value(s: Seq<u8>) -> nat
    decreases s.len(),
{
    if s.len() == 0 {
        0
    } else {
        s[0] as nat + 256 * le_value(s.drop_first())
    }
}

/// The low `n` bytes of `v`, least significant first.
pub open spec fn le_bytes(v: nat, n: nat) -> Seq<u8>
    decreases n,
{
    if n == 0 {
        Seq::empty()
    } else {
        seq![(v % 256) as u8] + le_bytes(v / 256, (n - 1) as nat)
    }
}

/// The cell lies inside an image of `len` bytes.
pub open spec fn cell_in_bounds(len: nat, address: u64, size: usize) -> bool {
    address as int + size as int <= len
}

/// The outcome of reading a cell.
pub open spec fn read_spec(image: Seq<u8>, address: u64, size: usize) -> Result<u32, CellError> {
    if size > MAX_CELL {
        Err(CellError::TooWide { size })
    } else if !cell_in_bounds(image.len(), address, size) {
        Err(CellError::OutOfBounds { address, size })
    } else {
        Ok(le_value(image.subrange(address as int, address + size)) as u32)
    }
}

/// The image after the low `size` bytes of `raw` are stored at `address`.
pub open spec fn written(image: Seq<u8>, address: u64, size: usize, raw: u32) -> Seq<u8> {
    image.subrange(0, address as int) + le_bytes(raw as nat, size as nat) + image.subrange(
        address + size,
        image.len() as int,
    )
}

pub proof fn lemma_pow256_pos(n: nat)
    ensures
        pow256(n) > 0,
    decreases n,
{
    if n > 0 {
        lemma_pow256_pos((n - 1) as nat);
    }
}

pub proof fn lemma_le_value_bound(s: Seq<u8>)
    ensures
        le_value(s) < pow256(s.len()),
    decreases s.len(),
{
    if s.len() > 0 {
        lemma_le_value_bound(s.drop_first());
    }
}

pub proof fn lemma_le_bytes_len(v: nat, n: nat)
    ensures
        le_bytes(v, n).len() == n,
    decreases n,
{
    if n > 0 {
        lemma_le_bytes_len(v / 256, (n - 1) as nat);
    }
}

/// Reading back the bytes of `v` gives `v` cut to `n` bytes.
pub proof fn lemma_le_round_trip(v: nat, n: nat)
    ensures
        le_value(le_bytes(v, n)) == v % pow256(n),
    decreases n,
{
    lemma_le_bytes_len(v, n);
    if n == 0 {
        assert(le_bytes(v, n).len() == 0);
    } else {
        let rest = le_bytes(v / 256, (n - 1) as nat);
        let s = le_bytes(v, n);
        assert(s.drop_first() == rest);
        lemma_le_round_trip(v / 256, (n - 1) as nat);
        lemma_pow256_pos((n - 1) as nat);
        let p = pow256((n - 1) as nat);
        // v = 256 q + r with r < 256, q = p k + m with m < p
        let q = v / 256;
        let r = v % 256;
        vstd::arithmetic::div_mod::lemma_fundamental_div_mod(v as int, 256);
        vstd::arithmetic::div_mod::lemma_fundamental_div_mod(q as int, p as int);
        let k = q / p;
        let m = q % p;
        assert(v == 256 * p * k + (r + 256 * m)) by (nonlinear_arith)
            requires v == 256 * q + r, q == p * k + m;
        assert(r + 256 * m < 256 * p) by (nonlinear_arith)
            requires r < 256, m < p, m >= 0, r >= 0;
        assert(pow256(n) == 256 * p);
        vstd::arithmetic::div_mod::lemma_mod_multiples_vanish(k as int, (r + 256 * m) as int, (256 * p) as int);
        vstd::arithmetic::div_mod::lemma_small_mod((r + 256 * m) as nat, (256 * p) as nat);
        assert((256 * p) * k == 256 * p * k) by (nonlinear_arith);
    }
}

/// The integer that up to four bytes, least significant first, denote.
pub fn bytes_to_u32(bytes: &[u8]) -> (r: u32)
    requires
        bytes@.len() <= MAX_CELL,
    ensures
        r == le_value(bytes@),
{
    let n = bytes.len();
    let mut v: u32 = 0;
    let mut i: usize = n;
    while i > 0
        invariant
            n == bytes@.len() <= MAX_CELL,
            0 <= i <= n,
            v == le_value(bytes@.subrange(i as int, n as int)),
            le_value(bytes@.subrange(i as int, n as int)) < pow256((n - i) as nat),
        decreases i,
    {
        let ghost tail = bytes@.subrange(i as int, n as int);
        let ghost next = bytes@.subrange(i - 1, n as int);
        assert(next.drop_first() == tail);
        assert(next[0] == bytes@[i - 1]);
        proof {
            lemma_le_value_bound(next);
            assert(n - (i - 1) <= 4);
            reveal_with_fuel(pow256, 5);
            if n - (i - 1) == 1 {
            } else if n - (i - 1) == 2 {
            } else if n - (i - 1) == 3 {
            } else {
            }
        }
        v = bytes[i - 1] as u32 + 256 * v;
        i = i - 1;
        proof {
            lemma_le_value_bound(bytes@.subrange(i as int, n as int));
        }
    }
    assert(bytes@.subrange(0, n as int) == bytes@);
    v
}

/// Reads the cell of `size` bytes at `address`.
pub fn read_cell(image: &[u8], address: u64, size: usize) -> (r: Result<u32, CellError>)
    ensures
        r == read_spec(image@, address, size),
{
    if size > MAX_CELL {
        return Err(CellError::TooWide { size });
    }
    if address > image.len() as u64 || size > image.len() - address as usize {
        return Err(CellError::OutOfBounds { address, size });
    }
    let start = address as usize;
    let len = image.len();
    let mut buf: Vec<u8> = Vec::new();
    let mut i: usize = 0;
    while i < size
        invariant
            0 <= i <= size <= MAX_CELL,
            len == image@.len(),
            start + size <= image@.len(),
            start == address,
            buf@ == image@.subrange(start as int, start + i),
        decreases size - i,
    {
        buf.push(image[start + i]);
        i = i + 1;
        assert(buf@ == image@.subrange(start as int, start + i));
    }
    Ok(bytes_to_u32(buf.as_slice()))
}

/// Stores the low `size` bytes of `raw` at `address`, least significant first.
pub fn write_cell(image: &mut Vec<u8>, address: u64, size: usize, raw: u32) -> (r: Result<
    (),
    CellError,
>)
    ensures
        r is Ok <==> (size <= MAX_CELL && cell_in_bounds(old(image)@.len(), address, size)),
        r is Err ==> read_spec(old(image)@, address, size) == Err::<u32, CellError>(r->Err_0)
            && final(image)@ == old(image)@,
        r is Ok ==> final(image)@ == written(old(image)@, address, size, raw),
{
    if size > MAX_CELL {
        return Err(CellError::TooWide { size });
    }
    if address > image.len() as u64 || size > image.len() - address as usize {
        return Err(CellError::OutOfBounds { address, size });
    }
    let start = address as usize;
    let len = image.len();
    let ghost img0 = image@;
    let mut v: u32 = raw;
    let mut i: usize = 0;
    proof {
        lemma_le_bytes_len(raw as nat, size as nat);
    }
    while i < size
        invariant
            0 <= i <= size <= MAX_CELL,
            start + size <= img0.len(),
            start == address,
            image@.len() == img0.len(),
            len == img0.len(),
            le_bytes(raw as nat, size as nat).len() == size,
            le_bytes(v as nat, (size - i) as nat).len() == size - i,
            le_bytes(raw as nat, size as nat) == le_bytes(raw as nat, size as nat).subrange(
                0,
                i as int,
            ) + le_bytes(v as nat, (size - i) as nat),
            forall|k: int|
                0 <= k < image@.len() ==> #[trigger] image@[k] == if start <= k < start + i {
                    le_bytes(raw as nat, size as nat)[k - start]
                } else {
                    img0[k]
                },
        decreases size - i,
    {
        let ghost all = le_bytes(raw as nat, size as nat);
        let ghost rest = le_bytes(v as nat, (size - i) as nat);
        proof {
            lemma_le_bytes_len(v as nat, (size - i) as nat);
            lemma_le_bytes_len((v / 256) as nat, (size - i - 1) as nat);
            assert(rest == seq![(v % 256) as u8] + le_bytes((v / 256) as nat, (size - i - 1) as nat));
            assert((all.subrange(0, i as int) + rest)[i as int] == rest[0]);
            assert(all[i as int] == rest[0]);
            assert(all.subrange(0, i + 1) + le_bytes((v / 256) as nat, (size - i - 1) as nat)
                == all);
        }
        image[start + i] = (v % 256) as u8;
        v = v / 256;
        i = i + 1;
    }
    proof {
        let all = le_bytes(raw as nat, size as nat);
        assert(image@ == written(img0, address, size, raw));
    }
    Ok(())
}

/// Writing a cell and reading it back gives the raw value cut to the cell's
/// width; the bytes on storage are its bytes least significant first.
pub proof fn lemma_write_then_read(image: Seq<u8>, address: u64, size: usize, raw: u32)
    requires
        size <= MAX_CELL,
        cell_in_bounds(image.len(), address, size),
    ensures
        written(image, address, size, raw).subrange(address as int, address + size) == le_bytes(
            raw as nat,
            size as nat,
        ),
        read_spec(written(image, address, size, raw), address, size) == Ok::<u32, CellError>(
            (raw as nat % pow256(size as nat)) as u32,
        ),
        written(image, address, size, raw).len() == image.len(),
{
    lemma_le_bytes_len(raw as nat, size as nat);
    let w = written(image, address, size, raw);
    assert(w.subrange(address as int, address + size) == le_bytes(raw as nat, size as nat));
    lemma_le_round_trip(raw as nat, size as nat);
}

} // verus!
