//! A storage that keeps the six files in memory.

use vstd::prelude::*;
use crate::bytes::{copy_range, spec_zeros};
use crate::storage::{Error, FileType, Storage, spec_read, spec_write_at};

verus! {

/// A storage whose six files are byte vectors.
pub struct MemoryStorage {
    tree: Vec<u8>,
    signatures: Vec<u8>,
    bitfield: Vec<u8>,
    key: Vec<u8>,
    secret: Vec<u8>,
    data: Vec<u8>,
}

/// Reads up to `len` bytes of `file` at `offset`.
fn read_at(file: &Vec<u8>, offset: u64, len: usize) -> (r: Vec<u8>)
    ensures
        r@ == spec_read(file@, offset as nat, len as nat),
{
    let size = file.len();
    if offset >= size as u64 {
        return Vec::new();
    }
    let from = offset as usize;
    let to = if len >= size - from {
        size
    } else {
        from + len
    };
    copy_range(file.as_slice(), from, to)
}

/// Writes `buf` into `file` at `offset`, with zeros between the end of the
/// file and `offset`. Fails where the file would grow beyond what memory
/// can address.
fn write_at(file: &mut Vec<u8>, offset: u64, buf: &[u8]) -> (r: Result<(), Error>)
    ensures
        r.is_ok() ==> final(file)@ == spec_write_at(old(file)@, offset as nat, buf@),
        r.is_err() ==> final(file)@ == old(file)@ && offset + buf@.len() > usize::MAX,
{
    if buf.len() == 0 {
        return Ok(());
    }
    if offset > usize::MAX as u64 || buf.len() > usize::MAX - offset as usize {
        return Err(Error::Io);
    }
    let start = offset as usize;
    let ghost before = file@;
    while file.len() < start
        invariant
            before == old(file)@,
            file@.len() <= start || file@ == before,
            file@.len() >= before.len(),
            file@ == before + spec_zeros((file@.len() - before.len()) as nat),
        decreases start - file@.len(),
    {
        file.push(0);
        assert(file@ =~= before + spec_zeros((file@.len() - before.len()) as nat));
    }
    let ghost head = if start <= before.len() {
        before.subrange(0, start as int)
    } else {
        before + spec_zeros((start - before.len()) as nat)
    };
    let ghost grown = file@;
    proof {
        assert(before + spec_zeros(0) =~= before);
        assert(grown.subrange(0, start as int) =~= head);
    }
    let mut i: usize = 0;
    while i < buf.len()
        invariant
            i <= buf@.len(),
            start + buf@.len() <= usize::MAX,
            file@.len() >= start,
            file@.len() >= grown.len(),
            file@.len() == if grown.len() >= start + i {
                grown.len()
            } else {
                (start + i) as nat
            },
            file@.subrange(0, start as int) == head,
            forall|j: int| 0 <= j < i ==> file@[start + j] == buf@[j],
            forall|j: int| start + i <= j < grown.len() ==> file@[j] == grown[j],
        decreases buf@.len() - i,
    {
        let ghost prev = file@;
        if start + i < file.len() {
            file.set(start + i, buf[i]);
        } else {
            file.push(buf[i]);
        }
        proof {
            assert(file@.subrange(0, start as int) =~= prev.subrange(0, start as int));
        }
        i += 1;
    }
    proof {
        let tail = if start + buf@.len() < before.len() {
            before.subrange((start + buf@.len()) as int, before.len() as int)
        } else {
            Seq::<u8>::empty()
        };
        assert(file@ =~= head + buf@ + tail);
    }
    Ok(())
}

impl MemoryStorage {
    /// A storage with six empty files.
    pub fn new() -> (r: MemoryStorage)
        ensures
            r.wf(),
            forall|ft: FileType| r.spec_file(ft) == Seq::<u8>::empty(),
    {
        MemoryStorage {
            tree: Vec::with_capacity(1024),
            signatures: Vec::with_capacity(1024),
            bitfield: Vec::with_capacity(3328),
            key: Vec::with_capacity(32),
            secret: Vec::with_capacity(64),
            data: Vec::with_capacity(1024),
        }
    }

    fn get_file(&self, file_type: FileType) -> (r: &Vec<u8>)
        ensures
            r@ == self.spec_file(file_type),
    {
        match file_type {
            FileType::Tree => &self.tree,
            FileType::Signatures => &self.signatures,
            FileType::Bitfield => &self.bitfield,
            FileType::Key => &self.key,
            FileType::Secret => &self.secret,
            FileType::Data => &self.data,
        }
    }
}

impl Storage for MemoryStorage {
    closed spec fn spec_file(&self, file_type: FileType) -> Seq<u8> {
        match file_type {
            FileType::Tree => self.tree@,
            FileType::Signatures => self.signatures@,
            FileType::Bitfield => self.bitfield@,
            FileType::Key => self.key@,
            FileType::Secret => self.secret@,
            FileType::Data => self.data@,
        }
    }

    open spec fn wf(&self) -> bool {
        true
    }

    open spec fn spec_reports(&self, file_type: FileType) -> bool {
        false
    }

    open spec fn spec_kept(&self) -> bool {
        true
    }

    open spec fn spec_limit(&self) -> Option<nat> {
        Some(usize::MAX as nat)
    }

    /// Always reports an empty file.
    fn init_archive(&mut self, _file_type: FileType) -> (r: bool) {
        false
    }

    fn read_archive(&mut self, file_type: FileType, offset: u64, len: usize) -> (r: Result<
        Vec<u8>,
        Error,
    >) {
        Ok(read_at(self.get_file(file_type), offset, len))
    }

    fn write_archive(&mut self, file_type: FileType, offset: u64, buf: &[u8]) -> (r: Result<
        (),
        Error,
    >) {
        match file_type {
            FileType::Tree => write_at(&mut self.tree, offset, buf),
            FileType::Signatures => write_at(&mut self.signatures, offset, buf),
            FileType::Bitfield => write_at(&mut self.bitfield, offset, buf),
            FileType::Key => write_at(&mut self.key, offset, buf),
            FileType::Secret => write_at(&mut self.secret, offset, buf),
            FileType::Data => write_at(&mut self.data, offset, buf),
        }
    }
}

} // verus!
