//! Checksums, and where the files of a node lie.
use crate::text::{
    decimal, decimal_text, lemma_padded_hex_reads_back, padded_hex, padded_hex_text, text_value,
};
use crate::utilis::types::NodeId;
use vstd::bytes::{spec_u64_to_le_bytes, u64_to_le_bytes};
use vstd::prelude::*;

verus! {

/// The reflected CRC-32 polynomial of IEEE 802.3.
pub const CRC32_POLYNOMIAL: u32 = 0xedb8_8320;

/// Shifts one bit out of a CRC register: the register is divided by `x`, and reduced by the
/// polynomial where a one falls out.
pub open spec fn crc_shift(register: u32) -> u32 {
    if register & 1 == 1 {
        (register >> 1) ^ CRC32_POLYNOMIAL
    } else {
        register >> 1
    }
}

/// Shifts `n` bits out of a CRC register.
pub open spec fn crc_shifts(register: u32, n: nat) -> u32
    decreases n,
{
    if n == 0 {
        register
    } else {
        crc_shift(crc_shifts(register, (n - 1) as nat))
    }
}

/// The CRC register after `payload` has gone through it, starting from `register`.
pub open spec fn crc_register(register: u32, payload: Seq<u8>) -> u32
    decreases payload.len(),
{
    if payload.len() == 0 {
        register
    } else {
        crc_shifts(crc_register(register, payload.drop_last()) ^ (payload.last() as u32), 8)
    }
}

/// The CRC-32 (IEEE) of `payload`: the register starts as all ones and is complemented at the end.
pub open spec fn crc32(payload: Seq<u8>) -> u32 {
    !crc_register(0xffff_ffff, payload)
}

/// Standard CRC-32 (IEEE), which makes log records checkable.
pub fn checksum(payload: &[u8]) -> (crc: u32)
    ensures
        crc == crc32(payload@),
{
    let mut register: u32 = 0xffff_ffff;
    let mut i: usize = 0;
    while i < payload.len()
        invariant
            i <= payload@.len(),
            register == crc_register(0xffff_ffff, payload@.take(i as int)),
        decreases payload@.len() - i,
    {
        let ghost before = register;
        register = register ^ (payload[i] as u32);
        let ghost entered = register;
        let mut bit: u32 = 0;
        while bit < 8
            invariant
                bit <= 8,
                register == crc_shifts(entered, bit as nat),
            decreases 8 - bit,
        {
            let low: u32 = register & 1;
            let mask: u32 = 0u32.wrapping_sub(low);
            proof {
                let r = register;
                assert(r & 1 == 0 || r & 1 == 1) by (bit_vector);
                if low == 1 {
                    assert(mask == 0xffff_ffff);
                    assert((r >> 1) ^ (0xedb8_8320u32 & 0xffff_ffffu32) == (r >> 1) ^ 0xedb8_8320u32)
                        by (bit_vector);
                } else {
                    assert(mask == 0);
                    assert((r >> 1) ^ (0xedb8_8320u32 & 0u32) == r >> 1) by (bit_vector);
                }
            }
            register = (register >> 1) ^ (CRC32_POLYNOMIAL & mask);
            bit = bit + 1;
        }
        proof {
            assert(payload@.take(i + 1).drop_last() =~= payload@.take(i as int));
        }
        i = i + 1;
    }
    assert(payload@.take(i as int) =~= payload@);
    !register
}

proof fn lemma_crc_shift_injective(a: u32, b: u32)
    requires
        a != b,
    ensures
        crc_shift(a) != crc_shift(b),
{
    assert(a != b ==> (if a & 1 == 1 {
        (a >> 1) ^ 0xedb8_8320u32
    } else {
        a >> 1
    }) != (if b & 1 == 1 {
        (b >> 1) ^ 0xedb8_8320u32
    } else {
        b >> 1
    })) by (bit_vector);
}

proof fn lemma_crc_shifts_injective(a: u32, b: u32, n: nat)
    requires
        a != b,
    ensures
        crc_shifts(a, n) != crc_shifts(b, n),
    decreases n,
{
    if n > 0 {
        lemma_crc_shifts_injective(a, b, (n - 1) as nat);
        lemma_crc_shift_injective(crc_shifts(a, (n - 1) as nat), crc_shifts(b, (n - 1) as nat));
    }
}

proof fn lemma_crc_register_detects_byte_change(register: u32, a: Seq<u8>, b: Seq<u8>, at: int)
    requires
        a.len() == b.len(),
        0 <= at < a.len(),
        a[at] != b[at],
        forall|j: int| 0 <= j < a.len() && j != at ==> a[j] == b[j],
    ensures
        crc_register(register, a) != crc_register(register, b),
    decreases a.len(),
{
    let x = crc_register(register, a.drop_last());
    let y = crc_register(register, b.drop_last());
    let p = a.last() as u32;
    let q = b.last() as u32;
    if at == a.len() - 1 {
        assert(a.drop_last() =~= b.drop_last());
        assert(p != q ==> x ^ p != x ^ q) by (bit_vector);
    } else {
        lemma_crc_register_detects_byte_change(register, a.drop_last(), b.drop_last(), at);
        assert(x != y ==> x ^ p != y ^ p) by (bit_vector);
    }
    lemma_crc_shifts_injective(x ^ p, y ^ q, 8);
}

/// Changing any one byte of a payload changes its checksum.
pub proof fn lemma_checksum_detects_byte_change(a: Seq<u8>, b: Seq<u8>, at: int)
    requires
        a.len() == b.len(),
        0 <= at < a.len(),
        a[at] != b[at],
        forall|j: int| 0 <= j < a.len() && j != at ==> a[j] == b[j],
    ensures
        crc32(a) != crc32(b),
{
    let x = crc_register(0xffff_ffff, a);
    let y = crc_register(0xffff_ffff, b);
    lemma_crc_register_detects_byte_change(0xffff_ffff, a, b, at);
    assert(x != y ==> !x != !y) by (bit_vector);
}

/// The checksum of a node id, taken over its eight little-endian bytes.
pub fn node_id_hash(node_id: NodeId) -> (hash: u32)
    ensures
        hash == crc32(spec_u64_to_le_bytes(node_id)),
{
    let bytes = u64_to_le_bytes(node_id);
    checksum(bytes.as_slice())
}

/// A file system path as the names it is joined from.
pub struct StoragePath {
    pub components: Vec<String>,
}

impl View for StoragePath {
    type V = Seq<Seq<char>>;

    open spec fn view(&self) -> Seq<Seq<char>> {
        self.components@.map_values(|c: String| c@)
    }
}

impl StoragePath {
    /// A path of one name, which may itself name several directories.
    pub fn new(root: &str) -> (path: Self)
        ensures
            path@ == seq![root@],
    {
        let mut components: Vec<String> = Vec::new();
        components.push(String::from_str(root));
        let path = StoragePath { components };
        assert(path@ =~= seq![root@]);
        path
    }

    /// The path with one more name behind it.
    pub fn join(&self, name: &str) -> (path: Self)
        ensures
            path@ == self@.push(name@),
    {
        let mut components: Vec<String> = Vec::new();
        let mut i: usize = 0;
        while i < self.components.len()
            invariant
                i <= self.components@.len(),
                components@.len() == i,
                forall|j: int| 0 <= j < i ==> components@[j]@ == self.components@[j]@,
            decreases self.components@.len() - i,
        {
            components.push(self.components[i].clone());
            i = i + 1;
        }
        components.push(String::from_str(name));
        let path = StoragePath { components };
        assert(path@ =~= self@.push(name@));
        path
    }
}

/// The name of the directory of a node: its hash in eight hexadecimal digits.
pub open spec fn node_dir_name(node_id: NodeId) -> Seq<char> {
    "node-"@ + padded_hex(crc32(spec_u64_to_le_bytes(node_id)) as nat, 8)
}

/// The data directory of a node below `root`: `node-` and the hash of the node id.
pub fn node_storage_dir(root: &StoragePath, node_id: NodeId) -> (dir: StoragePath)
    ensures
        dir@ == root@.push(node_dir_name(node_id)),
{
    let mut name = String::from_str("node-");
    let hash = padded_hex_text(node_id_hash(node_id) as u64, 8);
    name.append(hash.as_str());
    root.join(name.as_str())
}

/// The directory that a durable node uses when no root is given: `ruft-data`, then `node-` and the
/// node id in decimal.
pub fn default_storage_dir(node_id: NodeId) -> (dir: StoragePath)
    ensures
        dir@ == seq!["ruft-data"@, "node-"@ + decimal(node_id as nat)],
{
    let mut name = String::from_str("node-");
    let number = decimal_text(node_id);
    name.append(number.as_str());
    let dir = StoragePath::new("ruft-data").join(name.as_str());
    assert(dir@ =~= seq!["ruft-data"@, "node-"@ + decimal(node_id as nat)]);
    dir
}

proof fn lemma_crc_register_of_concatenation(register: u32, a: Seq<u8>, b: Seq<u8>)
    ensures
        crc_register(register, a + b) == crc_register(crc_register(register, a), b),
    decreases b.len(),
{
    if b.len() == 0 {
        assert(a + b =~= a);
    } else {
        lemma_crc_register_of_concatenation(register, a, b.drop_last());
        assert((a + b).drop_last() =~= a + b.drop_last());
        assert((a + b).last() == b.last());
    }
}

/// The checksum of bytes that follow others goes on from the checksum of those, and the checksum of
/// nothing is zero.
pub proof fn lemma_checksum_goes_on(a: Seq<u8>, b: Seq<u8>)
    ensures
        crc32(Seq::empty()) == 0,
        crc32(a + b) == !crc_register(!crc32(a), b),
{
    lemma_crc_register_of_concatenation(0xffff_ffff, a, b);
    let r = crc_register(0xffff_ffff, a);
    assert(!!r == r) by (bit_vector);
    assert(!0xffff_ffffu32 == 0u32) by (bit_vector);
}

/// What goes through the register: a byte is added to its low bits, and eight bits are shifted out;
/// a bit that is shifted out as a one adds the polynomial of IEEE 802.3.
pub proof fn lemma_register_step(register: u32, payload: Seq<u8>, byte: u8)
    ensures
        crc_register(register, payload.push(byte)) == crc_shifts(
            crc_register(register, payload) ^ (byte as u32),
            8,
        ),
        register & 1 == 1 ==> crc_shift(register) == (register >> 1) ^ 0xedb8_8320u32,
        register & 1 != 1 ==> crc_shift(register) == register >> 1,
{
    assert(payload.push(byte).drop_last() =~= payload);
}

/// Shifting bits out one by one.
pub proof fn lemma_shifts(register: u32, n: nat)
    ensures
        crc_shifts(register, 0) == register,
        crc_shifts(register, n + 1) == crc_shift(crc_shifts(register, n)),
{
}

/// The directory of a node is named by eight hexadecimal digits, which read as the checksum of the
/// eight bytes of its id.
pub proof fn lemma_node_dir_name(node_id: NodeId)
    ensures
        ({
            let digits = node_dir_name(node_id).skip("node-"@.len() as int);
            &&& node_dir_name(node_id) == "node-"@ + digits
            &&& digits.len() == 8
            &&& text_value(digits, 16) == crc32(spec_u64_to_le_bytes(node_id))
        }),
{
    let hash = crc32(spec_u64_to_le_bytes(node_id)) as nat;
    let digits = padded_hex(hash, 8);
    assert(node_dir_name(node_id).skip("node-"@.len() as int) =~= digits);
    lemma_padded_hex_reads_back(hash, 8);
    assert(vstd::arithmetic::power::pow(16, 8) == 0x1_0000_0000) by {
        reveal_with_fuel(vstd::arithmetic::power::pow, 9);
    }
    let value = text_value(digits, 16);
    vstd::arithmetic::div_mod::lemma_small_mod((hash - value) as nat, 0x1_0000_0000);
}

} // verus!
