//! CRC32 checksums of files, taken a chunk at a time.

use vstd::prelude::*;

verus! {

/// The number of bytes that are read from a file or a connection at a time.
pub const CHUNK_SIZE: usize = 65536;

/// One bit shifted out of the CRC32 register: where it is set, the reversed IEEE 802.3
/// polynomial is subtracted.
pub open spec fn shifted(register: u32) -> u32 {
    if register & 1 == 1 {
        (register >> 1) ^ 0xedb8_8320
    } else {
        register >> 1
    }
}

/// The register after one more byte: the byte enters at the low end, then eight bits leave.
pub open spec fn absorbed(register: u32, byte: u8) -> u32 {
    shifted(shifted(shifted(shifted(shifted(shifted(shifted(shifted(register ^ (byte as u32)))))))))
}

/// The register after all of `data`.
pub open spec fn absorbed_all(register: u32, data: Seq<u8>) -> u32
    decreases data.len(),
{
    if data.len() == 0 {
        register
    } else {
        absorbed(absorbed_all(register, data.drop_last()), data.last())
    }
}

/// The CRC32 of some bytes whose CRC32 is `crc`, followed by `data`. The register is the
/// complement of the checksum.
pub open spec fn crc32_extended(crc: u32, data: Seq<u8>) -> u32 {
    !absorbed_all(!crc, data)
}

/// The CRC32 (IEEE) of `data`.
pub open spec fn crc32(data: Seq<u8>) -> u32 {
    crc32_extended(0, data)
}

/// Carries the checksum `crc` on over `data` with [`crc32fast::Hasher`]: `new_with_initial` takes
/// the checksum of what came before, `update` the bytes that follow, and `finalize` gives the
/// CRC32 (IEEE) of both together. That this is the CRC32 as [`crc32_extended`] defines it, for
/// every starting checksum and all bytes, is taken from the crate.
#[verifier::external_body]
fn extend_crc32(crc: u32, data: &[u8]) -> (r: u32)
    ensures
        r == crc32_extended(crc, data@),
{
    let mut hasher = crc32fast::Hasher::new_with_initial(crc);
    hasher.update(data);
    hasher.finalize()
}

/// A checksum in progress.
pub struct Crc32 {
    crc: u32,
    seen: Ghost<Seq<u8>>,
}

impl View for Crc32 {
    type V = Seq<u8>;

    /// The bytes that went into the checksum.
    closed spec fn view(&self) -> Seq<u8> {
        self.seen@
    }
}

impl Crc32 {
    #[verifier::type_invariant]
    spec fn holds_checksum(&self) -> bool {
        self.crc == crc32(self.seen@)
    }

    /// A checksum of no bytes.
    pub fn new() -> (r: Self)
        ensures
            r@ == Seq::<u8>::empty(),
    {
        proof {
            lemma_crc32_of_nothing();
        }
        Crc32 { crc: 0, seen: Ghost(Seq::empty()) }
    }

    /// Adds the next bytes.
    pub fn update(&mut self, chunk: &[u8])
        ensures
            final(self)@ == old(self)@ + chunk@,
    {
        proof {
            use_type_invariant(&*self);
            law_crc32_goes_on(0, self.seen@, chunk@);
        }
        let crc: u32 = extend_crc32(self.crc, chunk);
        *self = Crc32 { crc, seen: Ghost(self.seen@ + chunk@) };
    }

    /// The checksum of all the bytes that were added.
    pub fn finalize(self) -> (r: u32)
        ensures
            r == crc32(self@),
    {
        proof {
            use_type_invariant(&self);
        }
        self.crc
    }
}

/// The checksum of no bytes is zero.
proof fn lemma_crc32_of_nothing()
    ensures
        crc32(Seq::empty()) == 0,
{
    assert(!!0u32 == 0u32) by (bit_vector);
}

/// Absorbing two runs of bytes one after the other is absorbing both at once.
proof fn lemma_absorbed_all_joins(register: u32, first: Seq<u8>, second: Seq<u8>)
    ensures
        absorbed_all(absorbed_all(register, first), second) == absorbed_all(
            register,
            first + second,
        ),
    decreases second.len(),
{
    if second.len() == 0 {
        assert(first + second =~= first);
    } else {
        lemma_absorbed_all_joins(register, first, second.drop_last());
        assert((first + second).drop_last() =~= first + second.drop_last());
    }
}

/// A byte acts on the register through its low eight bits alone; the other bits move down. So the
/// step of a byte can be looked up among the 256 steps from an empty register.
pub proof fn law_byte_step_by_table(register: u32, byte: u8)
    ensures
        absorbed(register, byte) == absorbed(0, (register as u8) ^ byte) ^ (register >> 8),
{
    assert(absorbed(register, byte) == absorbed(0, (register as u8) ^ byte) ^ (register >> 8))
        by (bit_vector);
}

/// However a file is cut into chunks, its checksum is that of the whole: carrying a checksum on
/// over one chunk and then the next is carrying it on over both.
pub proof fn law_crc32_goes_on(crc: u32, first: Seq<u8>, second: Seq<u8>)
    ensures
        crc32_extended(crc32_extended(crc, first), second) == crc32_extended(crc, first + second),
{
    lemma_absorbed_all_joins(!crc, first, second);
    let register = absorbed_all(!crc, first);
    assert(!!register == register) by (bit_vector);
}

/// The checksum of no bytes is zero, and adding a chunk carries the checksum on over it: the
/// checksum of all bytes depends on them alone, not on how they were cut.
pub proof fn law_chunks_do_not_show(
    empty: Crc32,
    empty_crc: u32,
    one: &mut Crc32,
    chunk: &[u8],
    before: u32,
    after: u32,
)
    requires
        call_ensures(Crc32::new, (), empty),
        call_ensures(Crc32::finalize, (empty,), empty_crc),
        call_ensures(Crc32::finalize, (*old(one),), before),
        call_ensures(Crc32::update, (one, chunk), ()),
        call_ensures(Crc32::finalize, (*final(one),), after),
    ensures
        empty_crc == 0,
        after == crc32_extended(before, chunk@),
{
    lemma_crc32_of_nothing();
    law_crc32_goes_on(0, old(one)@, chunk@);
}

/// Bytes with their own checksum behind them, its lowest byte first, all have the same checksum.
pub proof fn law_checksum_behind_its_bytes(data: Seq<u8>)
    ensures
        ({
            let crc = crc32(data);
            crc32(
                data + seq![
                    crc as u8,
                    (crc >> 8) as u8,
                    (crc >> 16) as u8,
                    (crc >> 24) as u8,
                ],
            )
        }) == 0x2144_df1c,
{
    let crc = crc32(data);
    let bytes = seq![crc as u8, (crc >> 8) as u8, (crc >> 16) as u8, (crc >> 24) as u8];
    law_crc32_goes_on(0, data, bytes);
    reveal_with_fuel(absorbed_all, 5);
    assert(bytes.drop_last() =~= seq![crc as u8, (crc >> 8) as u8, (crc >> 16) as u8]);
    assert(bytes.drop_last().drop_last() =~= seq![crc as u8, (crc >> 8) as u8]);
    assert(bytes.drop_last().drop_last().drop_last() =~= seq![crc as u8]);
    assert(bytes.drop_last().drop_last().drop_last().drop_last() =~= Seq::<u8>::empty());
    lemma_own_checksum(crc);
}

/// Absorbing the four bytes of a checksum, from the register that it is the complement of.
proof fn lemma_own_checksum(crc: u32)
    ensures
        !absorbed(
            absorbed(
                absorbed(absorbed(!crc, crc as u8), (crc >> 8) as u8),
                (crc >> 16) as u8,
            ),
            (crc >> 24) as u8,
        ) == 0x2144_df1c,
{
    let a = absorbed(!crc, crc as u8);
    let b = absorbed(a, (crc >> 8) as u8);
    let c = absorbed(b, (crc >> 16) as u8);
    let d = absorbed(c, (crc >> 24) as u8);
    assert(absorbed(!crc, crc as u8) == 0x2d02_ef8du32 ^ (!crc >> 8)) by (bit_vector);
    assert(absorbed(0x2d02_ef8du32 ^ (!crc >> 8), (crc >> 8) as u8) == 0xbe26_12ffu32 ^ (!crc >> 16))
        by (bit_vector);
    assert(absorbed(0xbe26_12ffu32 ^ (!crc >> 16), (crc >> 16) as u8) == 0x00be_2612u32 ^ (!crc >> 24))
        by (bit_vector);
    assert(absorbed(0x00be_2612u32 ^ (!crc >> 24), (crc >> 24) as u8) == 0xdebb_20e3u32) by (bit_vector);
    assert(!0xdebb_20e3u32 == 0x2144_df1cu32) by (bit_vector);
    assert(d == 0xdebb_20e3u32);
}

/// Files are read 64 KB at a time.
pub proof fn law_chunk_size()
    ensures
        CHUNK_SIZE == 64 * 1024,
{
}

} // verus!
