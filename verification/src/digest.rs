use vstd::prelude::*;
use crate::text::decimal;

verus! {

/// The SHA-256 digest of a byte sequence, as ring's digest context computes
/// it when it is finished.
pub uninterp spec fn sha256_spec(data: Seq<u8>) -> Seq<u8>;

/// ring's multi-step digest context, opaque here: what it holds is told by
/// `context_data` and `is_sha256_context`.
#[verifier::external_type_specification]
#[verifier::external_body]
pub struct ExDigestContext(ring::digest::Context);

/// The bytes a digest context has been fed so far.
pub uninterp spec fn context_data(c: ring::digest::Context) -> Seq<u8>;

/// Whether a digest context computes SHA-256.
pub uninterp spec fn is_sha256_context(c: ring::digest::Context) -> bool;

/// Calls ring's `digest::Context::new` with `digest::SHA256`. Trusted: the new
/// context computes SHA-256 and has been fed nothing.
#[verifier::external_body]
fn sha256_context() -> (c: ring::digest::Context)
    ensures
        is_sha256_context(c),
        context_data(c) == Seq::<u8>::empty(),
{
    ring::digest::Context::new(&ring::digest::SHA256)
}

/// Calls ring's `digest::Context::update`, which never fails. Trusted: the
/// context keeps its algorithm and has then been fed `data` after what it had
/// been fed before.
#[verifier::external_body]
fn context_update(c: &mut ring::digest::Context, data: &[u8])
    ensures
        is_sha256_context(*final(c)) == is_sha256_context(*old(c)),
        context_data(*final(c)) == context_data(*old(c)) + data@,
{
    c.update(data)
}

/// Calls ring's `digest::Context::finish` on a SHA-256 context, which panics
/// when the length of the input in bits does not fit in 64 bits. Trusted: the
/// result is named `sha256_spec` of the bytes fed, and it is 32 bytes long
/// (ring's `SHA256.output_len`).
#[verifier::external_body]
fn context_finish(c: ring::digest::Context) -> (d: Vec<u8>)
    requires
        is_sha256_context(c),
        context_data(c).len() * 8 <= u64::MAX,
    ensures
        d@ == sha256_spec(context_data(c)),
        d@.len() == 32,
{
    c.finish().as_ref().to_vec()
}

/// The most bytes that SHA-256 takes here: their number of bits fits in 64 bits.
pub open spec fn max_digest_input() -> nat {
    (u64::MAX / 8) as nat
}

/// A SHA-256 computation that takes its input piece by piece.
pub struct Sha256Stream {
    ctx: ring::digest::Context,
    len: u64,
}

impl Sha256Stream {
    #[verifier::type_invariant]
    spec fn wf(self) -> bool {
        &&& is_sha256_context(self.ctx)
        &&& context_data(self.ctx).len() == self.len
        &&& self.len <= max_digest_input()
    }

    /// The bytes fed so far.
    pub closed spec fn data(&self) -> Seq<u8> {
        context_data(self.ctx)
    }

    /// A computation that has been fed nothing.
    pub fn new() -> (s: Self)
        ensures
            s.data() == Seq::<u8>::empty(),
    {
        Sha256Stream { ctx: sha256_context(), len: 0 }
    }

    /// The number of bytes fed so far.
    pub fn len(&self) -> (n: u64)
        ensures
            n == self.data().len(),
    {
        proof {
            use_type_invariant(self);
        }
        self.len
    }

    /// Feeds `chunk` after the bytes fed so far. When the input would grow
    /// beyond what SHA-256 takes, nothing is fed and the result is `false`.
    pub fn update(&mut self, chunk: &[u8]) -> (fed: bool)
        ensures
            fed == (old(self).data().len() + chunk@.len() <= max_digest_input()),
            fed ==> final(self).data() == old(self).data() + chunk@,
            !fed ==> final(self).data() == old(self).data(),
    {
        proof {
            use_type_invariant(&*self);
        }
        let n = chunk.len();
        if n as u64 > u64::MAX / 8 - self.len {
            return false;
        }
        let mut cur = Sha256Stream::new();
        std::mem::swap(&mut cur, self);
        let Sha256Stream { mut ctx, len } = cur;
        context_update(&mut ctx, chunk);
        *self = Sha256Stream { ctx, len: len + n as u64 };
        true
    }

    /// The SHA-256 digest of the bytes fed.
    pub fn finish(self) -> (d: Vec<u8>)
        ensures
            d@ == sha256_spec(self.data()),
            d@.len() == 32,
    {
        proof {
            use_type_invariant(&self);
        }
        context_finish(self.ctx)
    }
}

/// The number whose little-endian bytes are `b`.
pub open spec fn le_value(b: Seq<u8>) -> nat
    decreases b.len(),
{
    if b.len() == 0 {
        0
    } else {
        b[0] as nat + 256 * le_value(b.drop_first())
    }
}

/// The number whose big-endian bytes are `b`.
pub open spec fn be_value(b: Seq<u8>) -> nat
    decreases b.len(),
{
    if b.len() == 0 {
        0
    } else {
        be_value(b.drop_last()) * 256 + b.last() as nat
    }
}

/// Byte sequences of one length with the same little-endian value are equal.
pub proof fn lemma_le_value_injective(a: Seq<u8>, b: Seq<u8>)
    requires
        a.len() == b.len(),
        le_value(a) == le_value(b),
    ensures
        a == b,
    decreases a.len(),
{
    if a.len() > 0 {
        let x = a[0] as int;
        let u = b[0] as int;
        let y = le_value(a.drop_first()) as int;
        let v = le_value(b.drop_first()) as int;
        assert(x == u && y == v) by (nonlinear_arith)
            requires
                x + 256 * y == u + 256 * v,
                0 <= x < 256,
                0 <= u < 256,
                0 <= y,
                0 <= v,
        ;
        lemma_le_value_injective(a.drop_first(), b.drop_first());
        assert(a =~= seq![a[0]] + a.drop_first());
        assert(b =~= seq![b[0]] + b.drop_first());
    } else {
        assert(a =~= b);
    }
}

/// Byte sequences of one length with the same big-endian value are equal.
pub proof fn lemma_be_value_injective(a: Seq<u8>, b: Seq<u8>)
    requires
        a.len() == b.len(),
        be_value(a) == be_value(b),
    ensures
        a == b,
    decreases a.len(),
{
    if a.len() > 0 {
        let x = a.last() as int;
        let u = b.last() as int;
        let y = be_value(a.drop_last()) as int;
        let v = be_value(b.drop_last()) as int;
        assert(x == u && y == v) by (nonlinear_arith)
            requires
                y * 256 + x == v * 256 + u,
                0 <= x < 256,
                0 <= u < 256,
                0 <= y,
                0 <= v,
        ;
        lemma_be_value_injective(a.drop_last(), b.drop_last());
        assert(a =~= a.drop_last().push(a.last()));
        assert(b =~= b.drop_last().push(b.last()));
    } else {
        assert(a =~= b);
    }
}

/// The first 32 bytes of `b` (all of them when there are fewer).
pub open spec fn first32(b: Seq<u8>) -> Seq<u8> {
    if b.len() <= 32 {
        b
    } else {
        b.take(32)
    }
}

/// Calls num256's `Uint256::from_bytes_le` and formats the value with
/// `Display`. Trusted: `from_bytes_le` reads all the bytes as a little-endian
/// number (`BigUint::from_bytes_le`), and `Display` writes
/// `to_str_radix(10)`, the plain decimal digits (`0` for zero).
#[verifier::external_body]
fn uint256_le_decimal(bytes: &[u8]) -> (s: String)
    ensures
        s@ == decimal(le_value(bytes@)),
{
    num256::Uint256::from_bytes_le(bytes).to_string()
}

/// Calls num256's `Uint256::from_bytes_be` and formats the value with
/// `Display`. Trusted: `from_bytes_be` reads the first 32 bytes (all of them
/// when there are fewer) as a big-endian number, and `Display` writes
/// `to_str_radix(10)`, the plain decimal digits (`0` for zero).
#[verifier::external_body]
fn uint256_be_decimal(bytes: &[u8]) -> (s: String)
    ensures
        s@ == decimal(be_value(first32(bytes@))),
{
    num256::Uint256::from_bytes_be(bytes).to_string()
}

/// Calls std's `u16::to_ne_bytes`. Trusted: the bytes of `v` in the machine's
/// order, which is little-endian or big-endian; which one is not stated.
#[verifier::external_body]
fn native_bytes_u16(v: u16) -> (b: [u8; 2])
    ensures
        b@ == seq![(v % 256) as u8, (v / 256) as u8] || b@ == seq![(v / 256) as u8, (v % 256) as u8],
{
    v.to_ne_bytes()
}

/// The 16-bit value whose first byte in memory tells the byte order.
pub const BYTE_ORDER_PROBE: u16 = 0x00ff;

/// Whether `b`, the bytes in memory of `BYTE_ORDER_PROBE`, are in
/// little-endian order: its first byte is `0xff`.
pub fn is_le_order(b: [u8; 2]) -> (r: bool)
    ensures
        r == (b@[0] == 0xff),
{
    b[0] == 0xff
}

/// Whether the machine stores integers little-endian: `is_le_order` of the
/// bytes in memory of `BYTE_ORDER_PROBE`. Which order the machine has is not
/// stated.
pub fn is_system_le() -> bool {
    let b = native_bytes_u16(BYTE_ORDER_PROBE);
    is_le_order(b)
}

/// The decimal text of the 256-bit number that a digest reads as, in the given
/// byte order.
pub fn uint256_text_with(digest: &[u8], little_endian: bool) -> (s: String)
    ensures
        little_endian ==> s@ == decimal(le_value(digest@)),
        !little_endian ==> s@ == decimal(be_value(first32(digest@))),
{
    if little_endian {
        uint256_le_decimal(digest)
    } else {
        uint256_be_decimal(digest)
    }
}

/// The decimal text of the 256-bit number that a digest reads as in the
/// machine's byte order.
pub fn bytes_2uint256(digest: &[u8]) -> (s: String)
    ensures
        s@ == decimal(le_value(digest@)) || s@ == decimal(be_value(first32(digest@))),
{
    uint256_text_with(digest, is_system_le())
}

} // verus!
