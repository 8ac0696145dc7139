//! Packing 32-bit integers into bytes and back, in a chosen byte order.
use byteorder::ByteOrder;
use vstd::prelude::*;

verus! {

/// The order of the four bytes of a stored `u32`.
#[derive(Clone, Copy, Debug, PartialEq, Eq)]
pub enum Endian {
    /// Least significant byte first.
    Little,
    /// Most significant byte first.
    Big,
}

/// The `u32` that the bytes `b0 b1 b2 b3`, in this order, store.
pub open spec fn u32_of(b0: u8, b1: u8, b2: u8, b3: u8, e: Endian) -> u32 {
    match e {
        Endian::Little => (b0 as u32) | ((b1 as u32) << 8u32) | ((b2 as u32) << 16u32) | ((
        b3 as u32) << 24u32),
        Endian::Big => (b3 as u32) | ((b2 as u32) << 8u32) | ((b1 as u32) << 16u32) | ((
        b0 as u32) << 24u32),
    }
}

/// The `k`-th `u32` stored in `b`.
pub open spec fn u32_at(b: Seq<u8>, k: int, e: Endian) -> u32 {
    u32_of(b[4 * k], b[4 * k + 1], b[4 * k + 2], b[4 * k + 3], e)
}

/// The four bytes that store `x`.
pub open spec fn bytes_of_u32(x: u32, e: Endian) -> Seq<u8> {
    let lo = seq![
        (x & 0xff) as u8,
        ((x >> 8u32) & 0xff) as u8,
        ((x >> 16u32) & 0xff) as u8,
        ((x >> 24u32) & 0xff) as u8,
    ];
    match e {
        Endian::Little => lo,
        Endian::Big => seq![lo[3], lo[2], lo[1], lo[0]],
    }
}

/// `b` stores the integers `xs`, four bytes each, one after the other.
pub open spec fn stores(b: Seq<u8>, xs: Seq<u32>, e: Endian) -> bool {
    &&& b.len() == 4 * xs.len()
    &&& forall|k: int|
        #![trigger xs[k]]
        0 <= k < xs.len() ==> b.subrange(4 * k, 4 * k + 4) == bytes_of_u32(xs[k], e)
}

/// Reading back the four bytes of `x` gives `x`.
pub proof fn lemma_u32_round_trip(x: u32, e: Endian)
    ensures
        u32_of(
            bytes_of_u32(x, e)[0],
            bytes_of_u32(x, e)[1],
            bytes_of_u32(x, e)[2],
            bytes_of_u32(x, e)[3],
            e,
        ) == x,
{
    let b0 = (x & 0xff) as u8;
    let b1 = ((x >> 8u32) & 0xff) as u8;
    let b2 = ((x >> 16u32) & 0xff) as u8;
    let b3 = ((x >> 24u32) & 0xff) as u8;
    assert((b0 as u32) | ((b1 as u32) << 8u32) | ((b2 as u32) << 16u32) | ((b3 as u32) << 24u32)
        == x) by (bit_vector)
        requires
            b0 == (x & 0xff) as u8,
            b1 == ((x >> 8u32) & 0xff) as u8,
            b2 == ((x >> 16u32) & 0xff) as u8,
            b3 == ((x >> 24u32) & 0xff) as u8,
    ;
}

/// The four bytes that store `x`.
pub fn u32_to_bytes(x: u32, e: Endian) -> (r: [u8; 4])
    ensures
        r@ == bytes_of_u32(x, e),
{
    let lo: [u8; 4] = [
        (x & 0xff) as u8,
        ((x >> 8u32) & 0xff) as u8,
        ((x >> 16u32) & 0xff) as u8,
        ((x >> 24u32) & 0xff) as u8,
    ];
    let r = match e {
        Endian::Little => lo,
        Endian::Big => [lo[3], lo[2], lo[1], lo[0]],
    };
    proof {
        assert(r@ =~= bytes_of_u32(x, e));
    }
    r
}

/// The `k`-th `u32` stored in `b`.
pub fn read_u32(b: &[u8], k: usize, e: Endian) -> (r: u32)
    requires
        4 * k + 4 <= b@.len(),
    ensures
        r == u32_at(b@, k as int, e),
{
    let n = b.len();
    assert(4 * k + 4 <= n);
    let i = 4 * k;
    let (b0, b1, b2, b3) = (b[i], b[i + 1], b[i + 2], b[i + 3]);
    match e {
        Endian::Little => (b0 as u32) | ((b1 as u32) << 8u32) | ((b2 as u32) << 16u32) | ((
        b3 as u32) << 24u32),
        Endian::Big => (b3 as u32) | ((b2 as u32) << 8u32) | ((b1 as u32) << 16u32) | ((
        b0 as u32) << 24u32),
    }
}

/// Relies on byteorder's `NativeEndian::read_u32`: reads the first four bytes
/// of `b` in the byte order of the machine, which is little or big endian.
/// It panics on fewer than four bytes.
#[verifier::external_body]
fn read_u32_native(b: &[u8]) -> (r: u32)
    requires
        b@.len() >= 4,
    ensures
        r == u32_of(b@[0], b@[1], b@[2], b@[3], Endian::Little) || r == u32_of(
            b@[0],
            b@[1],
            b@[2],
            b@[3],
            Endian::Big,
        ),
{
    byteorder::NativeEndian::read_u32(b)
}

/// The byte order of the machine, found by reading a probe in it.
pub fn host_endian() -> (r: Endian) {
    let probe: Vec<u8> = vec![1u8, 0u8, 0u8, 0u8];
    if read_u32_native(probe.as_slice()) == 1 {
        Endian::Little
    } else {
        Endian::Big
    }
}

/// Appends the four bytes that store `x`.
pub fn push_u32(out: &mut Vec<u8>, x: u32, e: Endian)
    ensures
        final(out)@ == old(out)@ + bytes_of_u32(x, e),
{
    let b = u32_to_bytes(x, e);
    let ghost start = out@;
    out.push(b[0]);
    out.push(b[1]);
    out.push(b[2]);
    out.push(b[3]);
    proof {
        assert(out@ =~= start + bytes_of_u32(x, e));
    }
}

/// Appends the bytes that store `xs`, one after the other.
pub fn push_u32s(out: &mut Vec<u8>, xs: &[u32], e: Endian)
    ensures
        final(out)@.subrange(0, old(out)@.len() as int) == old(out)@,
        stores(final(out)@.subrange(old(out)@.len() as int, final(out)@.len() as int), xs@, e),
{
    let ghost start = out@;
    let mut i: usize = 0;
    while i < xs.len()
        invariant
            i <= xs@.len(),
            out@.len() == start.len() + 4 * i,
            out@.subrange(0, start.len() as int) == start,
            forall|k: int|
                0 <= k < i ==> out@.subrange(start.len() + 4 * k, start.len() + 4 * k + 4)
                    == bytes_of_u32(xs@[k], e),
        decreases xs@.len() - i,
    {
        let ghost before = out@;
        push_u32(out, xs[i], e);
        proof {
            assert(out@.subrange(0, start.len() as int) =~= before.subrange(0, start.len() as int));
            assert forall|k: int| 0 <= k < i + 1 implies out@.subrange(
                start.len() + 4 * k,
                start.len() + 4 * k + 4,
            ) == bytes_of_u32(xs@[k], e) by {
                if k < i {
                    assert(out@.subrange(start.len() + 4 * k, start.len() + 4 * k + 4)
                        =~= before.subrange(start.len() + 4 * k, start.len() + 4 * k + 4));
                } else {
                    assert(out@.subrange(start.len() + 4 * k, start.len() + 4 * k + 4)
                        =~= bytes_of_u32(xs@[k], e));
                }
            }
        }
        i = i + 1;
    }
    proof {
        let body = out@.subrange(start.len() as int, out@.len() as int);
        assert forall|k: int| #![trigger xs@[k]] 0 <= k < xs@.len() implies body.subrange(
            4 * k,
            4 * k + 4,
        ) == bytes_of_u32(xs@[k], e) by {
            assert(body.subrange(4 * k, 4 * k + 4) =~= out@.subrange(
                start.len() + 4 * k,
                start.len() + 4 * k + 4,
            ));
        }
    }
}

/// The integers stored in `b`, four bytes each.
pub fn decode_u32s(b: &[u8], e: Endian) -> (r: Vec<u32>)
    requires
        b@.len() % 4 == 0,
    ensures
        r@.len() == b@.len() / 4,
        forall|k: int| 0 <= k < r@.len() ==> r@[k] == u32_at(b@, k, e),
{
    let n = b.len() / 4;
    let mut r: Vec<u32> = Vec::new();
    let mut k: usize = 0;
    while k < n
        invariant
            n == b@.len() / 4,
            b@.len() % 4 == 0,
            k <= n,
            r@.len() == k,
            forall|j: int| 0 <= j < k ==> r@[j] == u32_at(b@, j, e),
        decreases n - k,
    {
        r.push(read_u32(b, k, e));
        k = k + 1;
    }
    r
}

/// Bytes that store `xs` read back as `xs`.
pub proof fn lemma_decode_stored(b: Seq<u8>, xs: Seq<u32>, e: Endian)
    requires
        stores(b, xs, e),
    ensures
        forall|k: int| 0 <= k < xs.len() ==> u32_at(b, k, e) == xs[k],
{
    assert forall|k: int| 0 <= k < xs.len() implies u32_at(b, k, e) == xs[k] by {
        let four = b.subrange(4 * k, 4 * k + 4);
        assert(four == bytes_of_u32(xs[k], e));
        assert(four[0] == b[4 * k] && four[1] == b[4 * k + 1] && four[2] == b[4 * k + 2]
            && four[3] == b[4 * k + 3]);
        lemma_u32_round_trip(xs[k], e);
    }
}

/// Storing the integer read from four bytes gives those bytes back.
pub proof fn lemma_bytes_of_read(b: Seq<u8>, k: int, e: Endian)
    requires
        0 <= k,
        4 * k + 4 <= b.len(),
    ensures
        bytes_of_u32(u32_at(b, k, e), e) == b.subrange(4 * k, 4 * k + 4),
{
    let (b0, b1, b2, b3) = (b[4 * k], b[4 * k + 1], b[4 * k + 2], b[4 * k + 3]);
    let x = u32_at(b, k, e);
    match e {
        Endian::Little => {
            assert(x == (b0 as u32) | ((b1 as u32) << 8u32) | ((b2 as u32) << 16u32) | ((
            b3 as u32) << 24u32));
            assert((x & 0xff) as u8 == b0 && ((x >> 8u32) & 0xff) as u8 == b1 && ((x >> 16u32)
                & 0xff) as u8 == b2 && ((x >> 24u32) & 0xff) as u8 == b3) by (bit_vector)
                requires
                    x == (b0 as u32) | ((b1 as u32) << 8u32) | ((b2 as u32) << 16u32) | ((
                    b3 as u32) << 24u32),
            ;
        },
        Endian::Big => {
            assert(x == (b3 as u32) | ((b2 as u32) << 8u32) | ((b1 as u32) << 16u32) | ((
            b0 as u32) << 24u32));
            assert((x & 0xff) as u8 == b3 && ((x >> 8u32) & 0xff) as u8 == b2 && ((x >> 16u32)
                & 0xff) as u8 == b1 && ((x >> 24u32) & 0xff) as u8 == b0) by (bit_vector)
                requires
                    x == (b3 as u32) | ((b2 as u32) << 8u32) | ((b1 as u32) << 16u32) | ((
                    b0 as u32) << 24u32),
            ;
        },
    }
    assert(bytes_of_u32(x, e) =~= b.subrange(4 * k, 4 * k + 4));
}

/// Bytes store the integers that are read from them.
pub proof fn lemma_stores_read(b: Seq<u8>, xs: Seq<u32>, e: Endian)
    requires
        b.len() == 4 * xs.len(),
        forall|k: int| 0 <= k < xs.len() ==> xs[k] == u32_at(b, k, e),
    ensures
        stores(b, xs, e),
{
    assert forall|k: int| #![trigger xs[k]] 0 <= k < xs.len() implies b.subrange(4 * k, 4 * k + 4)
        == bytes_of_u32(xs[k], e) by {
        lemma_bytes_of_read(b, k, e);
    }
}

} // verus!
