//! Where a log is kept: six files, read and written at byte offsets, and the
//! layout of the tree nodes, signatures, bitfield pages, keys and blocks in
//! them.

use vstd::prelude::*;
use crate::bytes::{append_bytes, copy_range, hash_is_blank, zeros, spec_zeros};
use crate::flat::{spec_full_roots, spec_nats, spec_parent};
use crate::merkle::{Node, spec_views};

verus! {

/// The files of a log.
#[derive(Clone, Copy, Debug, PartialEq, Eq, Structural)]
pub enum FileType {
    Tree,
    Signatures,
    Bitfield,
    Key,
    Secret,
    Data,
}

/// Why an operation on a log failed.
#[derive(Clone, Copy, Debug, PartialEq, Eq, Structural)]
pub enum Error {
    /// The block is not in the log.
    NotFound,
    /// What the storage holds does not fit together.
    Integrity,
    /// The storage could not be read or written.
    Io,
    /// The key pair could not be used.
    Crypto,
}

/// What a log finds in its storage when it is opened.
pub struct StorageState {
    pub bitfield: Vec<u8>,
    pub key: Option<[u8; 32]>,
    pub secret: Option<[u8; 64]>,
}

/// The header of the tree file.
pub open spec fn spec_tree_header() -> Seq<u8> {
    seq![
        5u8, 2, 87, 2, 0, 0, 40, 7, 66, 76, 65, 75, 69, 50, 98, 0, 0, 0, 0, 0, 0, 0, 0, 0, 0, 0, 0,
        0, 0, 0, 0, 0,
    ]
}

/// The header of the file of signatures.
pub open spec fn spec_signatures_header() -> Seq<u8> {
    seq![
        5u8, 2, 87, 1, 0, 0, 64, 7, 69, 100, 50, 53, 53, 49, 57, 0, 0, 0, 0, 0, 0, 0, 0, 0, 0, 0, 0,
        0, 0, 0, 0, 0,
    ]
}

/// The header of the bitfield file.
pub open spec fn spec_bitfield_header() -> Seq<u8> {
    seq![
        5u8, 2, 87, 0, 0, 13, 0, 0, 0, 0, 0, 0, 0, 0, 0, 0, 0, 0, 0, 0, 0, 0, 0, 0, 0, 0, 0, 0, 0,
        0, 0, 0,
    ]
}

/// The header that a file starts with, if it has one: the magic bytes, the
/// kind of file, the version, the size of an entry in two bytes, and the name
/// of the algorithm with its length before it.
pub open spec fn spec_header(file_type: FileType) -> Option<Seq<u8>> {
    match file_type {
        FileType::Tree => Some(spec_tree_header()),
        FileType::Signatures => Some(spec_signatures_header()),
        FileType::Bitfield => Some(spec_bitfield_header()),
        _ => None,
    }
}

impl FileType {
    /// The name of the file in the directory of the log.
    pub open spec fn spec_filename(&self) -> Seq<char> {
        match *self {
            FileType::Tree => "metadata.tree"@,
            FileType::Signatures => "metadata.signatures"@,
            FileType::Bitfield => "metadata.bitfield"@,
            FileType::Key => "metadata.key"@,
            FileType::Secret => "metadata.secret_key"@,
            FileType::Data => "metadata.data"@,
        }
    }

    /// The name of the file in the directory of the log.
    pub fn filename(&self) -> (r: &'static str)
        ensures
            r@ == self.spec_filename(),
    {
        match self {
            FileType::Tree => "metadata.tree",
            FileType::Signatures => "metadata.signatures",
            FileType::Bitfield => "metadata.bitfield",
            FileType::Key => "metadata.key",
            FileType::Secret => "metadata.secret_key",
            FileType::Data => "metadata.data",
        }
    }

    /// The byte that stands for the kind of file in its header; `None` for a
    /// file without header.
    pub fn magic_number(&self) -> (r: Option<u8>)
        ensures
            r == match *self {
                FileType::Tree => Some(2u8),
                FileType::Signatures => Some(1u8),
                FileType::Bitfield => Some(0u8),
                _ => None,
            },
    {
        match self {
            FileType::Tree => Some(2u8),
            FileType::Signatures => Some(1u8),
            FileType::Bitfield => Some(0u8),
            _ => None,
        }
    }

    /// The size of an entry of the file, as its header gives it; `None` for a
    /// file without header.
    pub fn entry_size(&self) -> (r: Option<u16>)
        ensures
            r == match *self {
                FileType::Tree => Some(40u16),
                FileType::Signatures => Some(64u16),
                FileType::Bitfield => Some(3328u16),
                _ => None,
            },
    {
        match self {
            FileType::Tree => Some(40u16),
            FileType::Signatures => Some(64u16),
            FileType::Bitfield => Some(3328u16),
            _ => None,
        }
    }

    /// The name of the algorithm that the file belongs to.
    pub fn hash_name(&self) -> (r: Option<Vec<u8>>)
        ensures
            match r {
                Some(name) => name@ == match *self {
                    FileType::Tree => seq![66u8, 76, 65, 75, 69, 50, 98],
                    FileType::Signatures => seq![69u8, 100, 50, 53, 53, 49, 57],
                    _ => Seq::<u8>::empty(),
                } && self.spec_has_header(),
                None => !self.spec_has_header(),
            },
    {
        match self {
            FileType::Tree => {
                let name: Vec<u8> = vec![66u8, 76, 65, 75, 69, 50, 98];
                Some(name)
            },
            FileType::Signatures => {
                let name: Vec<u8> = vec![69u8, 100, 50, 53, 53, 49, 57];
                Some(name)
            },
            FileType::Bitfield => {
                let name: Vec<u8> = Vec::new();
                Some(name)
            },
            _ => None,
        }
    }

    /// Whether the file starts with a header.
    pub open spec fn spec_has_header(&self) -> bool {
        *self == FileType::Tree || *self == FileType::Signatures || *self == FileType::Bitfield
    }

    /// Whether the file starts with a header.
    pub fn has_header(&self) -> (r: bool)
        ensures
            r == self.spec_has_header(),
    {
        match self {
            FileType::Tree => true,
            FileType::Signatures => true,
            FileType::Bitfield => true,
            _ => false,
        }
    }
}

/// The header that a file of this kind starts with; `None` for the kinds
/// that have none.
pub fn create_header(file_type: FileType) -> (r: Option<[u8; 32]>)
    ensures
        match r {
            Some(header) => spec_header(file_type) == Some(header@),
            None => spec_header(file_type).is_none(),
        },
{
    let magic = match file_type.magic_number() {
        Some(m) => m,
        None => {
            return None;
        },
    };
    let size = match file_type.entry_size() {
        Some(s) => s,
        None => {
            return None;
        },
    };
    let hash = match file_type.hash_name() {
        Some(h) => h,
        None => {
            return None;
        },
    };
    let high = (size / 256) as u8;
    let low = (size % 256) as u8;
    let count = hash.len();
    let mut result = [0u8; 32];
    let mut i: usize = 0;
    while i < 32
        invariant
            i <= 32,
            count == hash@.len(),
            count <= 7,
            forall|j: int|
                0 <= j < i ==> result@[j] == (if j == 0 {
                    5u8
                } else if j == 1 {
                    2u8
                } else if j == 2 {
                    87u8
                } else if j == 3 {
                    magic
                } else if j == 4 {
                    0u8
                } else if j == 5 {
                    high
                } else if j == 6 {
                    low
                } else if j == 7 {
                    count as u8
                } else if j < 8 + count {
                    hash@[j - 8]
                } else {
                    0u8
                }),
        decreases 32 - i,
    {
        let byte: u8 = if i == 0 {
            5
        } else if i == 1 {
            2
        } else if i == 2 {
            87
        } else if i == 3 {
            magic
        } else if i == 4 {
            0
        } else if i == 5 {
            high
        } else if i == 6 {
            low
        } else if i == 7 {
            count as u8
        } else if i < 8 + count {
            hash[i - 8]
        } else {
            0
        };
        result[i] = byte;
        i += 1;
    }
    proof {
        match file_type {
            FileType::Tree => {
                assert(result@ =~= spec_tree_header());
            },
            FileType::Signatures => {
                assert(result@ =~= spec_signatures_header());
            },
            _ => {
                assert(result@ =~= spec_bitfield_header());
            },
        }
    }
    Some(result)
}

/// What a read of `len` bytes at `offset` gives: the bytes of the file from
/// there on, as far as the file goes.
pub open spec fn spec_read(file: Seq<u8>, offset: nat, len: nat) -> Seq<u8> {
    if offset >= file.len() {
        Seq::empty()
    } else if offset + len >= file.len() {
        file.subrange(offset as int, file.len() as int)
    } else {
        file.subrange(offset as int, (offset + len) as int)
    }
}

/// The file after `buf` was written at `offset`: a gap between the end of
/// the file and `offset` is filled with zeros. Writing nothing changes nothing.
pub open spec fn spec_write_at(file: Seq<u8>, offset: nat, buf: Seq<u8>) -> Seq<u8> {
    if buf.len() == 0 {
        file
    } else {
        let head = if offset <= file.len() {
            file.subrange(0, offset as int)
        } else {
            file + spec_zeros((offset - file.len()) as nat)
        };
        let tail = if offset + buf.len() < file.len() {
            file.subrange((offset + buf.len()) as int, file.len() as int)
        } else {
            Seq::empty()
        };
        head + buf + tail
    }
}

/// What a buffer of `len` zeros holds after `bytes` were read into it.
pub open spec fn spec_padded(bytes: Seq<u8>, len: nat) -> Seq<u8> {
    if bytes.len() >= len {
        bytes.subrange(0, len as int)
    } else {
        bytes + spec_zeros((len - bytes.len()) as nat)
    }
}

/// `len` bytes of the file at `offset`, with zeros where the file ends
/// before.
pub open spec fn spec_slot(file: Seq<u8>, offset: nat, len: nat) -> Seq<u8> {
    spec_padded(spec_read(file, offset, len), len)
}

/// The number that eight bytes hold, the most significant first.
pub open spec fn spec_be64(bytes: Seq<u8>) -> nat
    decreases bytes.len(),
{
    if bytes.len() == 0 {
        0
    } else {
        256 * spec_be64(bytes.drop_last()) + bytes.last() as nat
    }
}

/// Byte `i` of `v`, counted from the least significant.
pub open spec fn spec_byte_of(v: u64, i: nat) -> u8 {
    ((v >> ((8 * i) as u64)) & 0xFF) as u8
}

/// The eight bytes that hold `v`, the most significant first.
pub open spec fn spec_be64_bytes(v: u64) -> Seq<u8> {
    Seq::new(8, |i: int| spec_byte_of(v, (7 - i) as nat))
}

/// The eight bytes that hold `v`, the least significant first.
pub open spec fn spec_le64_bytes(v: u64) -> Seq<u8> {
    Seq::new(8, |i: int| spec_byte_of(v, i as nat))
}

proof fn lemma_bytes_of(v: u64)
    by (bit_vector)
    ensures
        v == ((v >> 56u64) & 0xFF) * 0x100_0000_0000_0000 + ((v >> 48u64) & 0xFF)
            * 0x1_0000_0000_0000 + ((v >> 40u64) & 0xFF) * 0x100_0000_0000 + ((v >> 32u64) & 0xFF)
            * 0x1_0000_0000 + ((v >> 24u64) & 0xFF) * 0x100_0000 + ((v >> 16u64) & 0xFF) * 0x1_0000
            + ((v >> 8u64) & 0xFF) * 0x100 + ((v >> 0u64) & 0xFF),
        ((v >> 56u64) & 0xFF) < 256,
        ((v >> 48u64) & 0xFF) < 256,
        ((v >> 40u64) & 0xFF) < 256,
        ((v >> 32u64) & 0xFF) < 256,
        ((v >> 24u64) & 0xFF) < 256,
        ((v >> 16u64) & 0xFF) < 256,
        ((v >> 8u64) & 0xFF) < 256,
        ((v >> 0u64) & 0xFF) < 256,
{
}

/// Reading back the eight bytes of a number gives the number.
pub proof fn lemma_be64(v: u64)
    ensures
        spec_be64(spec_be64_bytes(v)) == v,
{
    let b = spec_be64_bytes(v);
    lemma_bytes_of(v);
    let b7 = b.drop_last();
    let b6 = b7.drop_last();
    let b5 = b6.drop_last();
    let b4 = b5.drop_last();
    let b3 = b4.drop_last();
    let b2 = b3.drop_last();
    let b1 = b2.drop_last();
    let b0 = b1.drop_last();
    assert(b0.len() == 0);
    assert(spec_be64(b0) == 0);
    assert(spec_be64(b1) == 256 * spec_be64(b0) + b[0]);
    assert(spec_be64(b2) == 256 * spec_be64(b1) + b[1]);
    assert(spec_be64(b3) == 256 * spec_be64(b2) + b[2]);
    assert(spec_be64(b4) == 256 * spec_be64(b3) + b[3]);
    assert(spec_be64(b5) == 256 * spec_be64(b4) + b[4]);
    assert(spec_be64(b6) == 256 * spec_be64(b5) + b[5]);
    assert(spec_be64(b7) == 256 * spec_be64(b6) + b[6]);
    assert(spec_be64(b) == 256 * spec_be64(b7) + b[7]);
    assert(b[0] == spec_byte_of(v, 7) && b[1] == spec_byte_of(v, 6) && b[2] == spec_byte_of(v, 5)
        && b[3] == spec_byte_of(v, 4) && b[4] == spec_byte_of(v, 3) && b[5] == spec_byte_of(v, 2)
        && b[6] == spec_byte_of(v, 1) && b[7] == spec_byte_of(v, 0));
}

proof fn lemma_low_byte(x: u64)
    by (bit_vector)
    ensures
        (x & 0xFF) < 256,
{
}

/// The bytes of `v`, the most significant first.
pub fn be64_bytes(v: u64) -> (r: [u8; 8])
    ensures
        r@ == spec_be64_bytes(v),
{
    let mut out = [0u8; 8];
    let mut i: usize = 0;
    while i < 8
        invariant
            i <= 8,
            forall|j: int| 8 - i <= j < 8 ==> out@[j] == spec_be64_bytes(v)[j],
        decreases 8 - i,
    {
        proof {
            lemma_low_byte(v >> ((8 * i) as u64));
        }
        out[7 - i] = ((v >> (8 * i as u64)) & 0xFF) as u8;
        i += 1;
    }
    assert(out@ =~= spec_be64_bytes(v));
    out
}

/// The bytes of `v`, the least significant first.
pub fn encodebe(input: u64) -> (r: Vec<u8>)
    ensures
        r@ == spec_le64_bytes(input),
{
    let mut result: Vec<u8> = Vec::with_capacity(8);
    let mut i: usize = 0;
    while i < 8
        invariant
            i <= 8,
            result@.len() == i,
            forall|j: int| 0 <= j < i ==> result@[j] == spec_le64_bytes(input)[j],
        decreases 8 - i,
    {
        proof {
            lemma_low_byte(input >> ((8 * i) as u64));
        }
        result.push(((input >> (8 * i as u64)) & 0xFF) as u8);
        i += 1;
    }
    assert(result@ =~= spec_le64_bytes(input));
    result
}

/// The number that eight bytes hold, the most significant first.
pub fn be64(bytes: &[u8]) -> (r: u64)
    requires
        bytes@.len() == 8,
    ensures
        r == spec_be64(bytes@),
{
    let mut size: u64 = 0;
    let mut i: usize = 0;
    while i < 8
        invariant
            i <= 8,
            bytes@.len() == 8,
            size == spec_be64(bytes@.subrange(0, i as int)),
            i < 8 ==> size < 0x100_0000_0000_0000u64,
            i == 0 ==> size == 0,
            i <= 1 ==> size < 0x100,
            i <= 2 ==> size < 0x1_0000,
            i <= 3 ==> size < 0x100_0000,
            i <= 4 ==> size < 0x1_0000_0000,
            i <= 5 ==> size < 0x100_0000_0000,
            i <= 6 ==> size < 0x1_0000_0000_0000,
        decreases 8 - i,
    {
        proof {
            let head = bytes@.subrange(0, i + 1);
            assert(head.drop_last() =~= bytes@.subrange(0, i as int));
            assert(size << 8u64 == size * 256) by (bit_vector)
                requires
                    size < 0x100_0000_0000_0000u64,
            ;
        }
        size <<= 8;
        size += bytes[i] as u64;
        i += 1;
    }
    assert(bytes@.subrange(0, 8) =~= bytes@);
    size
}

/// What the slot of node `n` in the tree file holds: its hash and its
/// length; `None` for a slot of zeros.
pub open spec fn spec_node_at(tree: Seq<u8>, n: nat) -> Option<(Seq<u8>, u64)> {
    let slot = spec_slot(tree, 32 + 40 * n, 40);
    let hash = slot.subrange(0, 32);
    let size = spec_be64(slot.subrange(32, 40));
    if size == 0 && hash == spec_zeros(32) {
        None
    } else {
        Some((hash, size as u64))
    }
}

/// The slot that holds a node with this hash and length.
pub open spec fn spec_node_bytes(hash: Seq<u8>, length: u64) -> Seq<u8> {
    hash + spec_be64_bytes(length)
}

/// The length that the slot of node `n` holds; 0 for a slot of zeros.
pub open spec fn spec_length_at(tree: Seq<u8>, n: nat) -> nat {
    match spec_node_at(tree, n) {
        Some((_, size)) => size as nat,
        None => 0,
    }
}

/// The sum of the lengths that the slots of `roots` hold.
pub open spec fn spec_lengths(tree: Seq<u8>, roots: Seq<nat>) -> nat
    decreases roots.len(),
{
    if roots.len() == 0 {
        0
    } else {
        spec_lengths(tree, roots.drop_last()) + spec_length_at(tree, roots.last())
    }
}

/// The lengths of the first slots add up to no more than those of all.
pub proof fn lemma_lengths_prefix(tree: Seq<u8>, roots: Seq<nat>, i: int)
    requires
        0 <= i <= roots.len(),
    ensures
        spec_lengths(tree, roots.take(i)) <= spec_lengths(tree, roots),
    decreases roots.len(),
{
    if i == roots.len() {
        assert(roots.take(i) =~= roots);
    } else {
        lemma_lengths_prefix(tree, roots.drop_last(), i);
        assert(roots.drop_last().take(i) =~= roots.take(i));
    }
}

/// Where the block of leaf `n` lies in the data file and how long it is:
/// the sum of the lengths of the full roots before the leaf, and the length in
/// the leaf's slot. `None` where the leaf's slot is blank.
pub open spec fn spec_offset_of(tree: Seq<u8>, n: nat) -> Option<(nat, nat)> {
    match spec_node_at(tree, n) {
        Some((_, size)) => Some((spec_lengths(tree, spec_full_roots(n)), size as nat)),
        None => None,
    }
}

/// A node index that has a slot within reach of 64-bit offsets, and a
/// parent.
pub open spec fn spec_node_ok(n: nat) -> bool {
    n < crate::tree::MAX_NODES
}

/// A node without data that has the index `n` and the parent that belongs
/// to that index.
pub open spec fn spec_placed(node: Node, n: nat) -> bool {
    node.index == n && node.parent == spec_parent(n) && node.data.is_none()
}

/// The node that a slot holds.
pub open spec fn spec_is_node(node: Node, n: nat, held: (Seq<u8>, u64)) -> bool {
    &&& node.index == n
    &&& node.parent == spec_parent(n)
    &&& node.length == held.1
    &&& node.hash@ == held.0
    &&& node.data.is_none()
}

/// A buffer of `len` zeros after `bytes` were read into it.
pub fn pad_to(bytes: Vec<u8>, len: usize) -> (r: Vec<u8>)
    ensures
        r@ == spec_padded(bytes@, len as nat),
        r@.len() == len,
{
    if bytes.len() >= len {
        let r = copy_range(bytes.as_slice(), 0, len);
        r
    } else {
        let mut r = bytes;
        let fill = zeros(len - r.len());
        append_bytes(&mut r, fill.as_slice());
        r
    }
}

/// The node that the 40 bytes of a slot hold: `None` for a slot of zeros.
pub fn parse_node(index: u64, buf: &[u8]) -> (r: Option<Node>)
    requires
        buf@.len() == 40,
        spec_node_ok(index as nat),
    ensures
        match r {
            Some(node) => !(spec_be64(buf@.subrange(32, 40)) == 0 && buf@.subrange(0, 32)
                == spec_zeros(32)) && spec_is_node(
                node,
                index as nat,
                (buf@.subrange(0, 32), spec_be64(buf@.subrange(32, 40)) as u64),
            ),
            None => spec_be64(buf@.subrange(32, 40)) == 0 && buf@.subrange(0, 32) == spec_zeros(32),
        },
{
    let hash = copy_range(buf, 0, 32);
    let tail = copy_range(buf, 32, 40);
    let size = be64(tail.as_slice());
    let blank = hash_is_blank(hash.as_slice());
    proof {
        assert(blank == (hash@ =~= spec_zeros(32)));
        vstd::arithmetic::power2::lemma2_to64_rest();
        crate::flat::lemma_depth_bound(index as nat, 56);
    }
    if size == 0 && blank {
        return None;
    }
    Some(Node::with_hash(index, hash.as_slice(), size))
}

/// The 40 bytes of the slot of a node: its hash, then its length in eight
/// bytes, the most significant first.
pub fn node_bytes(node: &Node) -> (r: Vec<u8>)
    ensures
        r@ == spec_node_bytes(node.hash@, node.length),
        r@.len() == 40,
{
    let mut buf: Vec<u8> = Vec::with_capacity(40);
    append_bytes(&mut buf, node.hash.as_slice());
    let size = be64_bytes(node.length);
    append_bytes(&mut buf, size.as_slice());
    buf
}

/// What a log is kept in: six files that are read and written at byte
/// offsets. The three first operations are the storage's own; the others are
/// built on them.
pub trait Storage: Sized {
    /// The bytes of a file, for a storage that says what its files hold
    /// (`spec_kept`). Of any other storage this says nothing.
    open spec fn spec_file(&self, file_type: FileType) -> Seq<u8> {
        Seq::empty()
    }

    /// What the storage needs to hold of itself.
    open spec fn wf(&self) -> bool {
        true
    }

    /// What `init_archive` reports of a file as the storage is now.
    open spec fn spec_reports(&self, file_type: FileType) -> bool {
        false
    }

    /// The length up to which the files can grow without a failure: a
    /// storage that says what its files hold and gives `Some` here never fails
    /// to read, and never fails to write where what it writes ends within that
    /// length. `None` where the storage promises nothing.
    open spec fn spec_limit(&self) -> Option<nat> {
        None
    }

    /// Whether `spec_file` and `spec_reports` say what the storage holds. All
    /// that is stated of what is read and written is stated of a storage that
    /// says so; one that does not stands here with `false`, and nothing is
    /// stated of its files.
    open spec fn spec_kept(&self) -> bool {
        false
    }

    /// Makes a file ready, and says whether it held something before.
    fn init_archive(&mut self, file_type: FileType) -> (r: bool)
        requires
            old(self).wf(),
        ensures
            final(self).wf(),
            final(self).spec_limit() == old(self).spec_limit(),
            final(self).spec_kept() == old(self).spec_kept(),
            old(self).spec_kept() ==> (
                r == old(self).spec_reports(file_type)
            ),
            old(self).spec_kept() ==> (
                forall|ft: FileType| final(self).spec_file(ft) == old(self).spec_file(ft)
            ),
            old(self).spec_kept() ==> (
                forall|ft: FileType|
                    ft != file_type ==> final(self).spec_reports(ft) == old(self).spec_reports(ft)
            ),
    ;

    /// Reads up to `len` bytes at `offset`: fewer only where the file ends.
    fn read_archive(&mut self, file_type: FileType, offset: u64, len: usize) -> (r: Result<
        Vec<u8>,
        Error,
    >)
        requires
            old(self).wf(),
        ensures
            final(self).wf(),
            final(self).spec_limit() == old(self).spec_limit(),
            final(self).spec_kept() == old(self).spec_kept(),
            old(self).spec_kept() ==> (
                old(self).spec_limit().is_some() ==> r.is_ok()
            ),
            old(self).spec_kept() ==> (
                forall|ft: FileType| final(self).spec_file(ft) == old(self).spec_file(ft)
            ),
            old(self).spec_kept() ==> (
                match r {
                    Ok(bytes) => bytes@ == spec_read(
                        old(self).spec_file(file_type),
                        offset as nat,
                        len as nat,
                    ),
                    Err(_) => true,
                }
            ),
    ;

    /// Writes `buf` at `offset`.
    fn write_archive(&mut self, file_type: FileType, offset: u64, buf: &[u8]) -> (r: Result<
        (),
        Error,
    >)
        requires
            old(self).wf(),
            offset + buf@.len() <= u64::MAX,
        ensures
            final(self).wf(),
            final(self).spec_limit() == old(self).spec_limit(),
            final(self).spec_kept() == old(self).spec_kept(),
            old(self).spec_kept() ==> (
                old(self).spec_limit().is_some() && offset + buf@.len() <= old(
                    self,
                ).spec_limit().unwrap() ==> r.is_ok()
            ),
            old(self).spec_kept() ==> (
                forall|ft: FileType|
                    ft != file_type ==> final(self).spec_file(ft) == old(self).spec_file(ft)
                        && final(self).spec_reports(ft) == old(self).spec_reports(ft)
            ),
            old(self).spec_kept() ==> (
                r.is_ok() ==> final(self).spec_file(file_type) == spec_write_at(
                    old(self).spec_file(file_type),
                    offset as nat,
                    buf@,
                )
            ),
    ;

    /// Reads `len` bytes at `offset` into a buffer of zeros.
    fn read_slot(&mut self, file_type: FileType, offset: u64, len: usize) -> (r: Result<
        Vec<u8>,
        Error,
    >)
        requires
            old(self).wf(),
        ensures
            final(self).wf(),
            final(self).spec_limit() == old(self).spec_limit(),
            final(self).spec_kept() == old(self).spec_kept(),
            old(self).spec_kept() ==> (
                old(self).spec_limit().is_some() ==> r.is_ok()
            ),
            old(self).spec_kept() ==> (
                forall|ft: FileType| final(self).spec_file(ft) == old(self).spec_file(ft)
            ),
            old(self).spec_kept() ==> (
                match r {
                    Ok(bytes) => bytes@ == spec_slot(
                        old(self).spec_file(file_type),
                        offset as nat,
                        len as nat,
                    ),
                    Err(_) => true,
                }
            ),
            r.is_ok() ==> r.unwrap()@.len() == len,
    {
        match self.read_archive(file_type, offset, len) {
            Ok(bytes) => Ok(pad_to(bytes, len)),
            Err(e) => Err(e),
        }
    }

    /// Writes the header of each file that has one and that is empty.
    fn setup(&mut self) -> (r: Result<(), Error>)
        requires
            old(self).wf(),
        ensures
            final(self).wf(),
            final(self).spec_limit() == old(self).spec_limit(),
            final(self).spec_kept() == old(self).spec_kept(),
            old(self).spec_kept() ==> (
                old(self).spec_limit().is_some() && 32 <= old(self).spec_limit().unwrap() ==> r.is_ok()
            ),
            old(self).spec_kept() ==> (
                forall|ft: FileType|
                    spec_header(ft).is_none() ==> final(self).spec_file(ft) == old(self).spec_file(ft)
            ),
            old(self).spec_kept() ==> (
                r.is_ok() ==> forall|ft: FileType|
                    spec_header(ft).is_some() ==> #[trigger] final(self).spec_file(ft) == if old(
                        self,
                    ).spec_reports(ft) {
                        old(self).spec_file(ft)
                    } else {
                        spec_write_at(old(self).spec_file(ft), 0, spec_header(ft).unwrap())
                    }
            ),
    {
        let file_types = [
            FileType::Tree,
            FileType::Signatures,
            FileType::Bitfield,
            FileType::Key,
            FileType::Secret,
            FileType::Data,
        ];
        let mut i: usize = 0;
        while i < 6
            invariant
                i <= 6,
                self.wf(),
                self.spec_limit() == old(self).spec_limit(),
                self.spec_kept() == old(self).spec_kept(),
                file_types@ == seq![
                    FileType::Tree,
                    FileType::Signatures,
                    FileType::Bitfield,
                    FileType::Key,
                    FileType::Secret,
                    FileType::Data,
                ],
                old(self).spec_kept() ==> forall|ft: FileType|
                    spec_header(ft).is_none() ==> self.spec_file(ft) == old(self).spec_file(ft),
                old(self).spec_kept() ==> forall|j: int|
                    0 <= j < i && spec_header(file_types@[j]).is_some() ==> self.spec_file(
                        #[trigger] file_types@[j],
                    ) == if old(self).spec_reports(file_types@[j]) {
                        old(self).spec_file(file_types@[j])
                    } else {
                        spec_write_at(
                            old(self).spec_file(file_types@[j]),
                            0,
                            spec_header(file_types@[j]).unwrap(),
                        )
                    },
                old(self).spec_kept() ==> forall|j: int|
                    i <= j < 6 ==> self.spec_file(#[trigger] file_types@[j]) == old(self).spec_file(
                        file_types@[j],
                    ) && self.spec_reports(file_types@[j]) == old(self).spec_reports(
                        file_types@[j],
                    ),
            decreases 6 - i,
        {
            let file_type = file_types[i];
            if !self.init_archive(file_type) {
                match create_header(file_type) {
                    Some(header) => {
                        match self.write_archive(file_type, 0, header.as_slice()) {
                            Ok(()) => {},
                            Err(e) => {
                                return Err(e);
                            },
                        }
                    },
                    None => {},
                }
            }
            proof {
                if old(self).spec_kept() {
                    assert forall|j: int| i + 1 <= j < 6 implies self.spec_file(
                        #[trigger] file_types@[j],
                    ) == old(self).spec_file(file_types@[j]) && self.spec_reports(file_types@[j])
                        == old(self).spec_reports(file_types@[j]) by {
                        assert(file_types@[j] != file_type);
                    }
                    assert forall|j: int|
                        0 <= j < i && spec_header(file_types@[j]).is_some() implies self.spec_file(
                        #[trigger] file_types@[j],
                    ) == if old(self).spec_reports(file_types@[j]) {
                        old(self).spec_file(file_types@[j])
                    } else {
                        spec_write_at(
                            old(self).spec_file(file_types@[j]),
                            0,
                            spec_header(file_types@[j]).unwrap(),
                        )
                    } by {
                        assert(file_types@[j] != file_type);
                    }
                }
            }
            i += 1;
        }
        proof {
            if old(self).spec_kept() {
                assert forall|ft: FileType| spec_header(ft).is_some() implies #[trigger] self.spec_file(
                    ft,
                ) == if old(self).spec_reports(ft) {
                    old(self).spec_file(ft)
                } else {
                    spec_write_at(old(self).spec_file(ft), 0, spec_header(ft).unwrap())
                } by {
                    if ft == FileType::Tree {
                        assert(file_types@[0] == ft);
                    } else if ft == FileType::Signatures {
                        assert(file_types@[1] == ft);
                    } else {
                        assert(file_types@[2] == ft);
                    }
                }
            }
        }
        Ok(())
    }

    /// Reads the node at `index` from the tree file: `None` for a slot of
    /// zeros.
    fn get_node(&mut self, index: u64) -> (r: Result<Option<Node>, Error>)
        requires
            old(self).wf(),
            spec_node_ok(index as nat),
        ensures
            final(self).wf(),
            final(self).spec_limit() == old(self).spec_limit(),
            final(self).spec_kept() == old(self).spec_kept(),
            old(self).spec_kept() ==> (
                old(self).spec_limit().is_some() ==> r.is_ok()
            ),
            old(self).spec_kept() ==> (
                forall|ft: FileType| final(self).spec_file(ft) == old(self).spec_file(ft)
            ),
            old(self).spec_kept() ==> (
                match r {
                    Ok(Some(node)) => spec_node_at(
                        old(self).spec_file(FileType::Tree),
                        index as nat,
                    ).is_some() && spec_is_node(
                        node,
                        index as nat,
                        spec_node_at(old(self).spec_file(FileType::Tree), index as nat).unwrap(),
                    ),
                    Ok(None) => spec_node_at(old(self).spec_file(FileType::Tree), index as nat).is_none(),
                    Err(_) => true,
                }
            ),
            r.is_ok() && r.unwrap().is_some() ==> spec_placed(r.unwrap().unwrap(), index as nat),
    {
        match self.read_slot(FileType::Tree, 32 + 40 * index, 40) {
            Ok(buf) => Ok(parse_node(index, buf.as_slice())),
            Err(e) => Err(e),
        }
    }

    /// Writes a node into its slot of the tree file.
    fn put_node(&mut self, index: u64, node: Node) -> (r: Result<(), Error>)
        requires
            old(self).wf(),
            spec_node_ok(index as nat),
        ensures
            final(self).wf(),
            final(self).spec_limit() == old(self).spec_limit(),
            final(self).spec_kept() == old(self).spec_kept(),
            old(self).spec_kept() ==> (
                old(self).spec_limit().is_some() && 72 + 40 * index <= old(self).spec_limit().unwrap()
                    ==> r.is_ok()
            ),
            old(self).spec_kept() ==> (
                forall|ft: FileType|
                    ft != FileType::Tree ==> final(self).spec_file(ft) == old(self).spec_file(ft)
            ),
            old(self).spec_kept() ==> (
                r.is_ok() ==> final(self).spec_file(FileType::Tree) == spec_write_at(
                    old(self).spec_file(FileType::Tree),
                    32 + 40 * index as nat,
                    spec_node_bytes(node.hash@, node.length),
                )
            ),
    {
        let buf = node_bytes(&node);
        self.write_archive(FileType::Tree, 32 + 40 * index, buf.as_slice())
    }

    /// Where the block of the leaf `index` lies in the data file, and how
    /// long it is.
    fn get_offset(&mut self, index: u64) -> (r: Result<Option<(u64, u64)>, Error>)
        requires
            old(self).wf(),
            index % 2 == 0,
            spec_node_ok(index as nat),
        ensures
            final(self).wf(),
            final(self).spec_limit() == old(self).spec_limit(),
            final(self).spec_kept() == old(self).spec_kept(),
            old(self).spec_kept() ==> (
                old(self).spec_limit().is_some() ==> (r.is_err() <==> spec_lengths(
                    old(self).spec_file(FileType::Tree),
                    spec_full_roots(index as nat),
                ) > u64::MAX) && (r.is_err() ==> r == Err::<Option<(u64, u64)>, Error>(
                    Error::Integrity,
                ))
            ),
            old(self).spec_kept() ==> (
                forall|ft: FileType| final(self).spec_file(ft) == old(self).spec_file(ft)
            ),
            old(self).spec_kept() ==> (
                match r {
                    Ok(Some((offset, size))) => spec_offset_of(
                        old(self).spec_file(FileType::Tree),
                        index as nat,
                    ) == Some((offset as nat, size as nat)),
                    Ok(None) => spec_offset_of(old(self).spec_file(FileType::Tree), index as nat).is_none(),
                    Err(_) => true,
                }
            ),
    {
        let roots = crate::flat::full_roots(index);
        let ghost tree = self.spec_file(FileType::Tree);
        let ghost all = spec_full_roots(index as nat);
        let mut offset: u64 = 0;
        let mut i: usize = 0;
        proof {
            assert(all.take(0) =~= Seq::<nat>::empty());
        }
        while i < roots.len()
            invariant
                i <= roots@.len(),
                self.wf(),
                self.spec_limit() == old(self).spec_limit(),
                self.spec_kept() == old(self).spec_kept(),
                all == spec_nats(roots@),
                all == spec_full_roots(index as nat),
                spec_node_ok(index as nat),
                index % 2 == 0,
                old(self).spec_kept() ==> tree == self.spec_file(FileType::Tree),
                old(self).spec_kept() ==> forall|ft: FileType|
                    self.spec_file(ft) == old(self).spec_file(ft),
                old(self).spec_kept() ==> offset == spec_lengths(tree, all.take(i as int)),
            decreases roots@.len() - i,
        {
            proof {
                assert(all[i as int] == roots@[i as int]);
                crate::flat::lemma_roots_bounds(0, (index / 2) as nat, i as int);
                assert(all.take(i + 1).drop_last() =~= all.take(i as int));
            }
            let length = match self.get_node(roots[i]) {
                Ok(Some(root)) => root.length,
                Ok(None) => 0,
                Err(e) => {
                    return Err(e);
                },
            };
            offset = match offset.checked_add(length) {
                Some(sum) => sum,
                None => {
                    proof {
                        lemma_lengths_prefix(tree, all, i + 1);
                    }
                    return Err(Error::Integrity);
                },
            };
            i += 1;
        }
        proof {
            assert(all.take(roots@.len() as int) =~= all);
        }
        match self.get_node(index) {
            Ok(Some(node)) => Ok(Some((offset, node.length))),
            Ok(None) => Ok(None),
            Err(e) => Err(e),
        }
    }

    /// The nodes at the full roots of `index` blocks that are there.
    fn get_roots(&mut self, index: u64) -> (r: Result<Vec<Node>, Error>)
        requires
            old(self).wf(),
            2 * index < crate::tree::MAX_NODES,
        ensures
            final(self).wf(),
            final(self).spec_limit() == old(self).spec_limit(),
            final(self).spec_kept() == old(self).spec_kept(),
            old(self).spec_kept() ==> (
                old(self).spec_limit().is_some() ==> r.is_ok()
            ),
            old(self).spec_kept() ==> (
                forall|ft: FileType| final(self).spec_file(ft) == old(self).spec_file(ft)
            ),
            old(self).spec_kept() ==> (
                match r {
                    Ok(nodes) => spec_views(nodes@) == spec_found(
                        old(self).spec_file(FileType::Tree),
                        spec_full_roots((2 * index) as nat),
                        spec_full_roots((2 * index) as nat).len(),
                    ),
                    Err(_) => true,
                }
            ),
            r.is_ok() ==> spec_among(r.unwrap()@, spec_full_roots((2 * index) as nat)),
    {
        let roots = crate::flat::full_roots(2 * index);
        let ghost tree = self.spec_file(FileType::Tree);
        let ghost all = spec_full_roots((2 * index) as nat);
        let mut result: Vec<Node> = Vec::with_capacity(roots.len());
        let mut i: usize = 0;
        proof {
            assert(spec_views(result@) =~= spec_found(tree, all, 0));
            assert(crate::merkle::spec_indices(result@) =~= all.take(0));
        }
        while i < roots.len()
            invariant
                i <= roots@.len(),
                self.wf(),
                self.spec_limit() == old(self).spec_limit(),
                self.spec_kept() == old(self).spec_kept(),
                all == spec_nats(roots@),
                all == spec_full_roots((2 * index) as nat),
                2 * index < crate::tree::MAX_NODES,
                spec_among(result@, all.take(i as int)),
                old(self).spec_kept() ==> tree == self.spec_file(FileType::Tree),
                old(self).spec_kept() ==> forall|ft: FileType|
                    self.spec_file(ft) == old(self).spec_file(ft),
                old(self).spec_kept() ==> spec_views(result@) == spec_found(tree, all, i as nat),
            decreases roots@.len() - i,
        {
            proof {
                assert(all[i as int] == roots@[i as int]);
                crate::flat::lemma_roots_bounds(0, index as nat, i as int);
                assert((2 * index) / 2 == index);
            }
            let ghost before = result@;
            match self.get_node(roots[i]) {
                Ok(Some(node)) => {
                    proof {
                        assert(spec_views(result@.push(node)) =~= spec_views(result@).push(node@));
                    }
                    result.push(node);
                },
                Ok(None) => {},
                Err(e) => {
                    return Err(e);
                },
            }
            proof {
                assert(all.take(i + 1).len() == i + 1);
                if result@.len() == i + 1 {
                    assert(before.len() == i);
                    assert(crate::merkle::spec_indices(result@) =~= all.take(i + 1)) by {
                        assert forall|k: int| 0 <= k < i + 1 implies crate::merkle::spec_indices(
                            result@,
                        )[k] == all.take(i + 1)[k] by {
                            if k < i {
                                assert(crate::merkle::spec_indices(before)[k] == all.take(i as int)[k]);
                                assert(result@[k] == before[k]);
                            }
                        }
                    }
                }
            }
            i += 1;
        }
        proof {
            assert(all.take(roots@.len() as int) =~= all);
        }
        Ok(result)
    }

    /// The block of the leaf `index`.
    fn get_data(&mut self, index: u64) -> (r: Result<Option<Vec<u8>>, Error>)
        requires
            old(self).wf(),
            index % 2 == 0,
            spec_node_ok(index as nat),
        ensures
            final(self).wf(),
            final(self).spec_limit() == old(self).spec_limit(),
            final(self).spec_kept() == old(self).spec_kept(),
            old(self).spec_kept() ==> (
                old(self).spec_limit().is_some() ==> (r.is_err() <==> spec_lengths(
                    old(self).spec_file(FileType::Tree),
                    spec_full_roots(index as nat),
                ) > u64::MAX || spec_length_at(old(self).spec_file(FileType::Tree), index as nat)
                    > usize::MAX) && (r.is_err() ==> r == Err::<Option<Vec<u8>>, Error>(
                    Error::Integrity,
                ))
            ),
            old(self).spec_kept() ==> (
                forall|ft: FileType| final(self).spec_file(ft) == old(self).spec_file(ft)
            ),
            old(self).spec_kept() ==> (
                match r {
                    Ok(Some(bytes)) => spec_offset_of(
                        old(self).spec_file(FileType::Tree),
                        index as nat,
                    ).is_some() && bytes@ == spec_slot(
                        old(self).spec_file(FileType::Data),
                        spec_offset_of(old(self).spec_file(FileType::Tree), index as nat).unwrap().0,
                        spec_offset_of(old(self).spec_file(FileType::Tree), index as nat).unwrap().1,
                    ),
                    Ok(None) => spec_offset_of(old(self).spec_file(FileType::Tree), index as nat).is_none(),
                    Err(_) => true,
                }
            ),
    {
        match self.get_offset(index) {
            Ok(Some((offset, size))) => {
                if size > usize::MAX as u64 {
                    return Err(Error::Integrity);
                }
                match self.read_slot(FileType::Data, offset, size as usize) {
                    Ok(buf) => Ok(Some(buf)),
                    Err(e) => Err(e),
                }
            },
            Ok(None) => Ok(None),
            Err(e) => Err(e),
        }
    }

    /// Writes the block of the leaf `index` to its place in the data file.
    /// Nothing is written where the leaf's slot is blank; a block of another
    /// length than the slot holds is refused.
    fn put_data(&mut self, index: u64, data: Vec<u8>) -> (r: Result<(), Error>)
        requires
            old(self).wf(),
            index % 2 == 0,
            spec_node_ok(index as nat),
        ensures
            final(self).wf(),
            final(self).spec_limit() == old(self).spec_limit(),
            final(self).spec_kept() == old(self).spec_kept(),
            old(self).spec_kept() ==> (
                old(self).spec_limit().is_some() && spec_lengths(
                    old(self).spec_file(FileType::Tree),
                    spec_full_roots(index as nat),
                ) + data@.len() <= old(self).spec_limit().unwrap() && spec_lengths(
                    old(self).spec_file(FileType::Tree),
                    spec_full_roots(index as nat),
                ) + data@.len() <= u64::MAX && (spec_node_at(
                    old(self).spec_file(FileType::Tree),
                    index as nat,
                ).is_some() ==> spec_length_at(old(self).spec_file(FileType::Tree), index as nat)
                    == data@.len()) ==> r.is_ok()
            ),
            old(self).spec_kept() ==> (
                forall|ft: FileType|
                    ft != FileType::Data ==> final(self).spec_file(ft) == old(self).spec_file(ft)
            ),
            old(self).spec_kept() ==> (
                match spec_offset_of(old(self).spec_file(FileType::Tree), index as nat) {
                    Some((offset, size)) => if size == data@.len() {
                        r.is_ok() ==> final(self).spec_file(FileType::Data) == spec_write_at(
                            old(self).spec_file(FileType::Data),
                            offset,
                            data@,
                        )
                    } else {
                        r.is_err() && (old(self).spec_limit().is_some() ==> r == Err::<(), Error>(
                            Error::Integrity,
                        )) && final(self).spec_file(FileType::Data) == old(self).spec_file(
                            FileType::Data,
                        )
                    },
                    None => final(self).spec_file(FileType::Data) == old(self).spec_file(FileType::Data),
                }
            ),
    {
        match self.get_offset(index) {
            Ok(Some((offset, size))) => {
                if data.len() as u64 != size {
                    return Err(Error::Integrity);
                }
                if offset > u64::MAX - size {
                    return Err(Error::Integrity);
                }
                self.write_archive(FileType::Data, offset, data.as_slice())
            },
            Ok(None) => Ok(()),
            Err(e) => Err(e),
        }
    }

    /// The signature made after block `index`: `None` for a slot of zeros.
    fn get_signature(&mut self, index: u64) -> (r: Result<Option<Vec<u8>>, Error>)
        requires
            old(self).wf(),
            32 + 64 * index <= u64::MAX,
        ensures
            final(self).wf(),
            final(self).spec_limit() == old(self).spec_limit(),
            final(self).spec_kept() == old(self).spec_kept(),
            old(self).spec_kept() ==> (
                old(self).spec_limit().is_some() ==> r.is_ok()
            ),
            old(self).spec_kept() ==> (
                forall|ft: FileType| final(self).spec_file(ft) == old(self).spec_file(ft)
            ),
            old(self).spec_kept() ==> (
                match r {
                    Ok(Some(bytes)) => bytes@ == spec_slot(
                        old(self).spec_file(FileType::Signatures),
                        32 + 64 * index as nat,
                        64,
                    ) && bytes@ != spec_zeros(64),
                    Ok(None) => spec_slot(
                        old(self).spec_file(FileType::Signatures),
                        32 + 64 * index as nat,
                        64,
                    ) == spec_zeros(64),
                    Err(_) => true,
                }
            ),
    {
        match self.read_slot(FileType::Signatures, 32 + 64 * index, 64) {
            Ok(hash) => {
                let blank = hash_is_blank(hash.as_slice());
                proof {
                    assert(blank == (hash@ =~= spec_zeros(64)));
                }
                if blank {
                    Ok(None)
                } else {
                    Ok(Some(hash))
                }
            },
            Err(e) => Err(e),
        }
    }

    /// The signature made after block `index`, or else the next.
    fn next_signature(&mut self, index: u64) -> (r: Result<Option<Vec<u8>>, Error>)
        requires
            old(self).wf(),
            32 + 64 * (index + 1) <= u64::MAX,
        ensures
            final(self).wf(),
            final(self).spec_limit() == old(self).spec_limit(),
            final(self).spec_kept() == old(self).spec_kept(),
            old(self).spec_kept() ==> (
                old(self).spec_limit().is_some() ==> r.is_ok()
            ),
            old(self).spec_kept() ==> (
                forall|ft: FileType| final(self).spec_file(ft) == old(self).spec_file(ft)
            ),
            old(self).spec_kept() ==> (
                match r {
                    Ok(Some(bytes)) => bytes@ != spec_zeros(64) && (bytes@ == spec_slot(
                        old(self).spec_file(FileType::Signatures),
                        32 + 64 * index as nat,
                        64,
                    ) || (spec_slot(
                        old(self).spec_file(FileType::Signatures),
                        32 + 64 * index as nat,
                        64,
                    ) == spec_zeros(64) && bytes@ == spec_slot(
                        old(self).spec_file(FileType::Signatures),
                        32 + 64 * (index + 1) as nat,
                        64,
                    ))),
                    Ok(None) => spec_slot(
                        old(self).spec_file(FileType::Signatures),
                        32 + 64 * index as nat,
                        64,
                    ) == spec_zeros(64) && spec_slot(
                        old(self).spec_file(FileType::Signatures),
                        32 + 64 * (index + 1) as nat,
                        64,
                    ) == spec_zeros(64),
                    Err(_) => true,
                }
            ),
    {
        match self.get_signature(index) {
            Ok(Some(hash)) => Ok(Some(hash)),
            Ok(None) => self.get_signature(index + 1),
            Err(e) => Err(e),
        }
    }

    /// Writes a signature into the slot of block `index`.
    fn put_signature(&mut self, index: u64, hash: Vec<u8>) -> (r: Result<(), Error>)
        requires
            old(self).wf(),
            32 + 64 * index + hash@.len() <= u64::MAX,
        ensures
            final(self).wf(),
            final(self).spec_limit() == old(self).spec_limit(),
            final(self).spec_kept() == old(self).spec_kept(),
            old(self).spec_kept() ==> (
                old(self).spec_limit().is_some() && 32 + 64 * index + hash@.len() <= old(
                    self,
                ).spec_limit().unwrap() ==> r.is_ok()
            ),
            old(self).spec_kept() ==> (
                forall|ft: FileType|
                    ft != FileType::Signatures ==> final(self).spec_file(ft) == old(self).spec_file(ft)
            ),
            old(self).spec_kept() ==> (
                r.is_ok() ==> final(self).spec_file(FileType::Signatures) == spec_write_at(
                    old(self).spec_file(FileType::Signatures),
                    32 + 64 * index as nat,
                    hash@,
                )
            ),
    {
        self.write_archive(FileType::Signatures, 32 + 64 * index, hash.as_slice())
    }

    /// Writes bytes of the bitfield at `offset` after the header.
    fn put_bitfield(&mut self, offset: u64, data: Vec<u8>) -> (r: Result<(), Error>)
        requires
            old(self).wf(),
            32 + offset + data@.len() <= u64::MAX,
        ensures
            final(self).wf(),
            final(self).spec_limit() == old(self).spec_limit(),
            final(self).spec_kept() == old(self).spec_kept(),
            old(self).spec_kept() ==> (
                old(self).spec_limit().is_some() && 32 + offset + data@.len() <= old(
                    self,
                ).spec_limit().unwrap() ==> r.is_ok()
            ),
            old(self).spec_kept() ==> (
                forall|ft: FileType|
                    ft != FileType::Bitfield ==> final(self).spec_file(ft) == old(self).spec_file(ft)
            ),
            old(self).spec_kept() ==> (
                r.is_ok() ==> final(self).spec_file(FileType::Bitfield) == spec_write_at(
                    old(self).spec_file(FileType::Bitfield),
                    32 + offset as nat,
                    data@,
                )
            ),
    {
        self.write_archive(FileType::Bitfield, 32 + offset, data.as_slice())
    }

    /// The public key: `None` where the key file holds fewer than 32 bytes.
    fn get_key(&mut self) -> (r: Result<Option<[u8; 32]>, Error>)
        requires
            old(self).wf(),
        ensures
            final(self).wf(),
            final(self).spec_limit() == old(self).spec_limit(),
            final(self).spec_kept() == old(self).spec_kept(),
            old(self).spec_kept() ==> (
                old(self).spec_limit().is_some() ==> r.is_ok()
            ),
            old(self).spec_kept() ==> (
                forall|ft: FileType| final(self).spec_file(ft) == old(self).spec_file(ft)
            ),
            old(self).spec_kept() ==> (
                match r {
                    Ok(Some(key)) => old(self).spec_file(FileType::Key).len() >= 32 && key@ == old(
                        self,
                    ).spec_file(FileType::Key).subrange(0, 32),
                    Ok(None) => old(self).spec_file(FileType::Key).len() < 32,
                    Err(_) => true,
                }
            ),
    {
        match self.read_archive(FileType::Key, 0, 32) {
            Ok(bytes) => {
                if bytes.len() != 32 {
                    return Ok(None);
                }
                let mut buf = [0u8; 32];
                let mut i: usize = 0;
                while i < 32
                    invariant
                        i <= 32,
                        bytes@.len() == 32,
                        forall|j: int| 0 <= j < i ==> buf@[j] == bytes@[j],
                    decreases 32 - i,
                {
                    buf[i] = bytes[i];
                    i += 1;
                }
                assert(buf@ =~= bytes@);
                Ok(Some(buf))
            },
            Err(e) => Err(e),
        }
    }

    fn put_key(&mut self, data: [u8; 32]) -> (r: Result<(), Error>)
        requires
            old(self).wf(),
        ensures
            final(self).wf(),
            final(self).spec_limit() == old(self).spec_limit(),
            final(self).spec_kept() == old(self).spec_kept(),
            old(self).spec_kept() ==> (
                old(self).spec_limit().is_some() && 32 <= old(self).spec_limit().unwrap() ==> r.is_ok()
            ),
            old(self).spec_kept() ==> (
                forall|ft: FileType|
                    ft != FileType::Key ==> final(self).spec_file(ft) == old(self).spec_file(ft)
            ),
            old(self).spec_kept() ==> (
                r.is_ok() ==> final(self).spec_file(FileType::Key) == spec_write_at(
                    old(self).spec_file(FileType::Key),
                    0,
                    data@,
                )
            ),
    {
        self.write_archive(FileType::Key, 0, data.as_slice())
    }

    /// The secret key: `None` where its file holds fewer than 64 bytes.
    fn get_secret(&mut self) -> (r: Result<Option<[u8; 64]>, Error>)
        requires
            old(self).wf(),
        ensures
            final(self).wf(),
            final(self).spec_limit() == old(self).spec_limit(),
            final(self).spec_kept() == old(self).spec_kept(),
            old(self).spec_kept() ==> (
                old(self).spec_limit().is_some() ==> r.is_ok()
            ),
            old(self).spec_kept() ==> (
                forall|ft: FileType| final(self).spec_file(ft) == old(self).spec_file(ft)
            ),
            old(self).spec_kept() ==> (
                match r {
                    Ok(Some(key)) => old(self).spec_file(FileType::Secret).len() >= 64 && key@ == old(
                        self,
                    ).spec_file(FileType::Secret).subrange(0, 64),
                    Ok(None) => old(self).spec_file(FileType::Secret).len() < 64,
                    Err(_) => true,
                }
            ),
    {
        match self.read_archive(FileType::Secret, 0, 64) {
            Ok(bytes) => {
                if bytes.len() != 64 {
                    return Ok(None);
                }
                let mut buf = [0u8; 64];
                let mut i: usize = 0;
                while i < 64
                    invariant
                        i <= 64,
                        bytes@.len() == 64,
                        forall|j: int| 0 <= j < i ==> buf@[j] == bytes@[j],
                    decreases 64 - i,
                {
                    buf[i] = bytes[i];
                    i += 1;
                }
                assert(buf@ =~= bytes@);
                Ok(Some(buf))
            },
            Err(e) => Err(e),
        }
    }

    fn put_secret(&mut self, data: [u8; 64]) -> (r: Result<(), Error>)
        requires
            old(self).wf(),
        ensures
            final(self).wf(),
            final(self).spec_limit() == old(self).spec_limit(),
            final(self).spec_kept() == old(self).spec_kept(),
            old(self).spec_kept() ==> (
                old(self).spec_limit().is_some() && 64 <= old(self).spec_limit().unwrap() ==> r.is_ok()
            ),
            old(self).spec_kept() ==> (
                forall|ft: FileType|
                    ft != FileType::Secret ==> final(self).spec_file(ft) == old(self).spec_file(ft)
            ),
            old(self).spec_kept() ==> (
                r.is_ok() ==> final(self).spec_file(FileType::Secret) == spec_write_at(
                    old(self).spec_file(FileType::Secret),
                    0,
                    data@,
                )
            ),
    {
        self.write_archive(FileType::Secret, 0, data.as_slice())
    }

    /// What the storage holds when a log is opened: the bytes of the
    /// bitfield after its header, and the keys.
    fn get_state(&mut self) -> (r: Result<StorageState, Error>)
        requires
            old(self).wf(),
        ensures
            final(self).wf(),
            final(self).spec_limit() == old(self).spec_limit(),
            final(self).spec_kept() == old(self).spec_kept(),
            old(self).spec_kept() ==> (
                old(self).spec_limit().is_some() && old(self).spec_file(FileType::Bitfield).len() + 3328
                    <= u64::MAX ==> r.is_ok()
            ),
            old(self).spec_kept() ==> (
                old(self).spec_limit().is_some() && r.is_err() ==> r matches Err(Error::Integrity)
            ),
            old(self).spec_kept() ==> (
                forall|ft: FileType| final(self).spec_file(ft) == old(self).spec_file(ft)
            ),
            old(self).spec_kept() ==> (
                match r {
                    Ok(state) => state.bitfield@ == spec_after_header(
                        old(self).spec_file(FileType::Bitfield),
                    ) && spec_key_of(old(self).spec_file(FileType::Key), state.key) && spec_secret_of(
                        old(self).spec_file(FileType::Secret),
                        state.secret,
                    ),
                    Err(_) => true,
                }
            ),
    {
        let mut bitfield: Vec<u8> = Vec::with_capacity(3328);
        let mut offset: u64 = 32;
        let ghost file = self.spec_file(FileType::Bitfield);
        let mut going = true;
        while going
            invariant
                self.wf(),
                self.spec_limit() == old(self).spec_limit(),
                self.spec_kept() == old(self).spec_kept(),
                32 <= offset,
                old(self).spec_kept() ==> {
                    &&& forall|ft: FileType| self.spec_file(ft) == old(self).spec_file(ft)
                    &&& file == old(self).spec_file(FileType::Bitfield)
                    &&& offset <= file.len() || offset == 32
                    &&& going ==> bitfield@ == spec_read(file, 32, (offset - 32) as nat)
                    &&& !going ==> bitfield@ == spec_after_header(file)
                },
            decreases
                    u64::MAX - offset + if going {
                        1int
                    } else {
                        0int
                    },
        {
            match self.read_archive(FileType::Bitfield, offset, 3328) {
                Ok(chunk) => {
                    if chunk.len() == 0 {
                        proof {
                            if old(self).spec_kept() {
                                assert(bitfield@ =~= spec_after_header(file));
                            }
                        }
                        going = false;
                    } else {
                        if offset > u64::MAX - 3328 || chunk.len() > 3328 {
                            return Err(Error::Integrity);
                        }
                        let ghost before = bitfield@;
                        append_bytes(&mut bitfield, chunk.as_slice());
                        proof {
                            if old(self).spec_kept() {
                                assert(bitfield@ =~= spec_read(
                                    file,
                                    32,
                                    (offset + chunk@.len() - 32) as nat,
                                ));
                            }
                        }
                        offset += chunk.len() as u64;
                    }
                },
                Err(e) => {
                    return Err(e);
                },
            }
        }
        let key = match self.get_key() {
            Ok(key) => key,
            Err(e) => {
                return Err(e);
            },
        };
        let secret = match self.get_secret() {
            Ok(secret) => secret,
            Err(e) => {
                return Err(e);
            },
        };
        Ok(StorageState { bitfield, key, secret })
    }
}

/// The bytes of a file after its header.
pub open spec fn spec_after_header(file: Seq<u8>) -> Seq<u8> {
    if file.len() <= 32 {
        Seq::empty()
    } else {
        file.subrange(32, file.len() as int)
    }
}

/// What `get_state` finds for a key: its first 32 bytes, or nothing where
/// the file is shorter.
pub open spec fn spec_key_of(file: Seq<u8>, key: Option<[u8; 32]>) -> bool {
    match key {
        Some(k) => file.len() >= 32 && k@ == file.subrange(0, 32),
        None => file.len() < 32,
    }
}

/// What `get_state` finds for the secret key: its first 64 bytes, or nothing
/// where the file is shorter.
pub open spec fn spec_secret_of(file: Seq<u8>, secret: Option<[u8; 64]>) -> bool {
    match secret {
        Some(k) => file.len() >= 64 && k@ == file.subrange(0, 64),
        None => file.len() < 64,
    }
}

/// What the node read from the slot of `n` holds.
pub open spec fn spec_view_at(n: nat, held: (Seq<u8>, u64)) -> crate::merkle::NodeView {
    crate::merkle::NodeView {
        index: n as u64,
        parent: spec_parent(n) as u64,
        length: held.1,
        data: None,
        hash: held.0,
    }
}

/// Nodes read from the slots of `roots`, in order, some of which may have
/// been blank: there are no more nodes than roots, each has its place, and if
/// there are as many, they are the nodes of the roots, one for one.
pub open spec fn spec_among(nodes: Seq<Node>, roots: Seq<nat>) -> bool {
    &&& nodes.len() <= roots.len()
    &&& forall|k: int| 0 <= k < nodes.len() ==> spec_placed(#[trigger] nodes[k], nodes[k].index as nat)
    &&& nodes.len() == roots.len() ==> crate::merkle::spec_indices(nodes) == roots
}

/// The nodes found at the first `upto` of `roots`: those whose slots are not
/// blank, in order.
pub open spec fn spec_found(tree: Seq<u8>, roots: Seq<nat>, upto: nat) -> Seq<crate::merkle::NodeView>
    decreases upto,
{
    if upto == 0 || upto > roots.len() {
        Seq::empty()
    } else {
        let before = spec_found(tree, roots, (upto - 1) as nat);
        match spec_node_at(tree, roots[upto - 1]) {
            Some(held) => before.push(spec_view_at(roots[upto - 1], held)),
            None => before,
        }
    }
}

/// Reading back what was written gives what was written, and what lies
/// apart from a write is read as before.
pub proof fn lemma_slot_write(file: Seq<u8>, offset: nat, buf: Seq<u8>, at: nat, len: nat)
    requires
        buf.len() > 0,
    ensures
        at == offset && len == buf.len() ==> spec_slot(spec_write_at(file, offset, buf), at, len)
            == buf,
        at + len <= offset || offset + buf.len() <= at ==> spec_slot(
            spec_write_at(file, offset, buf),
            at,
            len,
        ) == spec_slot(file, at, len),
        spec_write_at(file, offset, buf).len() == if offset + buf.len() > file.len() {
            offset + buf.len()
        } else {
            file.len()
        },
{
    let after = spec_write_at(file, offset, buf);
    if at == offset && len == buf.len() {
        assert(spec_slot(after, at, len) =~= buf);
    }
    if at + len <= offset || offset + buf.len() <= at {
        assert(spec_slot(after, at, len) =~= spec_slot(file, at, len));
    }
}

/// A file that ends at `offset` and is written there is the file with the
/// bytes after it.
pub proof fn lemma_write_at_end(file: Seq<u8>, buf: Seq<u8>)
    ensures
        spec_write_at(file, file.len(), buf) == file + buf,
{
    if buf.len() > 0 {
        assert(file.subrange(0, file.len() as int) =~= file);
        assert(spec_write_at(file, file.len(), buf) =~= file + buf);
    } else {
        assert(file + buf =~= file);
    }
}

/// After a node was written to its slot, the slot holds the node, and every
/// other slot holds what it held.
pub proof fn lemma_node_written(tree: Seq<u8>, n: nat, hash: Seq<u8>, length: u64, m: nat)
    requires
        hash.len() == 32,
        length > 0,
    ensures
        spec_node_at(
            spec_write_at(tree, 32 + 40 * n, spec_node_bytes(hash, length)),
            m,
        ) == if m == n {
            Some((hash, length))
        } else {
            spec_node_at(tree, m)
        },
{
    let buf = spec_node_bytes(hash, length);
    let after = spec_write_at(tree, 32 + 40 * n, buf);
    lemma_slot_write(tree, 32 + 40 * n, buf, 32 + 40 * m, 40);
    if m == n {
        let slot = spec_slot(after, 32 + 40 * m, 40);
        assert(slot == buf);
        assert(slot.subrange(0, 32) =~= hash);
        assert(slot.subrange(32, 40) =~= spec_be64_bytes(length));
        lemma_be64(length);
    }
}

} // verus!
