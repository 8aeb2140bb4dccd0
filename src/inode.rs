//! On-disk inode records and block ranges of the file-system layer.
use vstd::prelude::*;

verus! {

/// Direct data blocks per inode.
pub const MAX_BLOCKS: usize = 12;

/// What an inode describes.
#[derive(Copy, Clone, Debug, PartialEq, Eq, Structural)]
pub enum FileType {
    /// A regular file.
    Regular,
    /// A directory.
    Directory,
    /// A symbolic link.
    Symlink,
}

impl FileType {
    /// The on-disk code: 1, 2 or 3.
    pub fn code(&self) -> (r: u8)
        ensures
            r == match *self {
                FileType::Regular => 1u8,
                FileType::Directory => 2u8,
                FileType::Symlink => 3u8,
            },
    {
        match *self {
            FileType::Regular => 1,
            FileType::Directory => 2,
            FileType::Symlink => 3,
        }
    }
}

/// An inode: identity, size, times, direct data blocks, owner and mode.
#[derive(Copy, Clone, Debug)]
pub struct Inode {
    /// Inode number.
    pub inode_number: u64,
    /// Size in bytes.
    pub size: u64,
    /// Creation time, in seconds.
    pub created_at: u64,
    /// Last modification time, in seconds.
    pub modified_at: u64,
    /// Last access time, in seconds.
    pub accessed_at: u64,
    /// Direct data block numbers; 0 marks a free slot.
    pub data_blocks: [u64; 12],
    /// Owner.
    pub uid: u32,
    /// Group.
    pub gid: u32,
    /// Number of hard links.
    pub link_count: u16,
    /// Permission bits.
    pub permissions: u16,
    /// What the inode describes.
    pub file_type: FileType,
}

impl Inode {
    /// A new inode of size 0 with one link, every time set to `timestamp`
    /// and no data block.
    pub fn new(inode_number: u64, file_type: FileType, permissions: u16, uid: u32, gid: u32, timestamp: u64) -> (r: Inode)
        ensures
            r.inode_number == inode_number,
            r.file_type == file_type,
            r.permissions == permissions,
            r.uid == uid,
            r.gid == gid,
            r.size == 0,
            r.created_at == timestamp,
            r.modified_at == timestamp,
            r.accessed_at == timestamp,
            r.link_count == 1,
            forall|i: int| 0 <= i < MAX_BLOCKS ==> r.data_blocks@[i] == 0,
    {
        Inode {
            inode_number,
            file_type,
            permissions,
            uid,
            gid,
            size: 0,
            created_at: timestamp,
            modified_at: timestamp,
            accessed_at: timestamp,
            link_count: 1,
            data_blocks: [0u64; 12],
        }
    }

    /// Sets the access time.
    pub fn update_accessed(&mut self, timestamp: u64)
        ensures
            final(self).accessed_at == timestamp,
            final(self).modified_at == old(self).modified_at,
            final(self).size == old(self).size,
            final(self).data_blocks == old(self).data_blocks,
    {
        self.accessed_at = timestamp;
    }

    /// Sets the modification time and the size.
    pub fn update_modified(&mut self, timestamp: u64, new_size: u64)
        ensures
            final(self).modified_at == timestamp,
            final(self).size == new_size,
            final(self).accessed_at == old(self).accessed_at,
            final(self).data_blocks == old(self).data_blocks,
    {
        self.modified_at = timestamp;
        self.size = new_size;
    }

    /// Puts `block_id` in the first free slot; fails when every slot is taken.
    pub fn add_data_block(&mut self, block_id: u64) -> (r: Result<(), ()>)
        ensures
            r is Ok <==> exists|i: int| 0 <= i < MAX_BLOCKS && old(self).data_blocks@[i] == 0,
            r is Ok ==> exists|i: int| {
                &&& 0 <= i < MAX_BLOCKS
                &&& old(self).data_blocks@[i] == 0
                &&& forall|j: int| 0 <= j < i ==> old(self).data_blocks@[j] != 0
                &&& final(self).data_blocks@ == old(self).data_blocks@.update(i, block_id)
            },
            r is Err ==> final(self).data_blocks == old(self).data_blocks,
            final(self).inode_number == old(self).inode_number,
            final(self).size == old(self).size,
    {
        let mut i: usize = 0;
        while i < MAX_BLOCKS
            invariant
                i <= MAX_BLOCKS,
                *self == *old(self),
                forall|j: int| 0 <= j < i ==> old(self).data_blocks@[j] != 0,
            decreases MAX_BLOCKS - i,
        {
            if self.data_blocks[i] == 0 {
                self.data_blocks[i] = block_id;
                return Ok(());
            }
            i = i + 1;
        }
        Err(())
    }

    /// The inode has a number and at least one link.
    pub fn is_valid(&self) -> (r: bool)
        ensures
            r == (self.inode_number != 0 && self.link_count > 0),
    {
        self.inode_number != 0 && self.link_count > 0
    }
}

/// Walks the byte range `[begin, end)` one block at a time.
#[derive(Copy, Clone, Debug, PartialEq, Eq, Structural)]
pub struct BlockIter {
    pub begin: usize,
    pub end: usize,
    pub block_size_log2: u8,
}

impl BlockIter {
    /// The part of the next block that the remaining range covers, and the
    /// range advanced past it; nothing once the range is empty.
    pub fn next_range(&mut self) -> (r: Option<BlockRange>)
        requires
            old(self).block_size_log2 < 64,
            vstd::arithmetic::power2::pow2(old(self).block_size_log2 as nat) <= usize::MAX,
        ensures
            final(self).end == old(self).end,
            final(self).block_size_log2 == old(self).block_size_log2,
            old(self).begin >= old(self).end ==> r is None && final(self).begin == old(self).begin,
            old(self).begin < old(self).end ==> {
                let size = vstd::arithmetic::power2::pow2(old(self).block_size_log2 as nat) as int;
                let block = old(self).begin as int / size;
                &&& r matches Some(br) && br.block == block
                    && br.begin == old(self).begin as int % size
                    && br.end == (if block == old(self).end as int / size { old(self).end as int % size } else { size })
                    && br.block_size_log2 == old(self).block_size_log2
                    && final(self).begin == old(self).begin + br.end - br.begin
            },
    {
        if self.begin >= self.end {
            return None;
        }
        let size = BlockRange::block_size_pub(self.block_size_log2);
        proof {
            vstd::arithmetic::power2::lemma_pow2_pos(self.block_size_log2 as nat);
        }
        let block = self.begin / size;
        let begin = self.begin % size;
        let end = if block == self.end / size {
            self.end % size
        } else {
            size
        };
        proof {
            if block == self.end / size {
                assert(self.end % size >= self.begin % size) by (nonlinear_arith)
                    requires
                        self.begin < self.end,
                        self.begin / size == self.end / size,
                        size > 0,
                ;
            }
            assert(self.begin + (end - begin) <= self.end) by (nonlinear_arith)
                requires
                    self.begin < self.end,
                    size > 0,
                    block == self.begin / size,
                    begin == self.begin % size,
                    end == (if block == self.end / size { self.end % size } else { size }),
                    end >= begin,
            ;
        }
        self.begin = self.begin + (end - begin);
        Some(BlockRange { block, begin, end, block_size_log2: self.block_size_log2 })
    }
}

/// The part `[begin, end)` of block `block`, whose size is `2^block_size_log2`.
#[derive(Copy, Clone, Debug, PartialEq, Eq, Structural)]
pub struct BlockRange {
    pub block: usize,
    pub begin: usize,
    pub end: usize,
    pub block_size_log2: u8,
}

impl BlockRange {
    /// Whether the range holds no byte.
    pub fn is_empty(&self) -> (r: bool)
        ensures
            r == (self.end == self.begin),
    {
        self.end == self.begin
    }

    /// Number of bytes in the range.
    pub fn len(&self) -> (r: usize)
        requires
            self.begin <= self.end,
        ensures
            r == self.end - self.begin,
    {
        self.end - self.begin
    }

    /// Whether the range covers its whole block.
    pub fn is_full(&self) -> (r: bool)
        requires
            self.begin <= self.end,
            self.block_size_log2 < 64,
            vstd::arithmetic::power2::pow2(self.block_size_log2 as nat) <= usize::MAX,
        ensures
            r == (self.end - self.begin == vstd::arithmetic::power2::pow2(self.block_size_log2 as nat)),
    {
        self.len() == Self::block_size(self.block_size_log2)
    }

    /// Offset of the range's first byte from the start of the device.
    pub fn origin_begin(&self) -> (r: usize)
        requires
            vstd::arithmetic::power2::pow2(self.block_size_log2 as nat) <= usize::MAX,
            self.block * vstd::arithmetic::power2::pow2(self.block_size_log2 as nat) + self.begin <= usize::MAX,
            self.block_size_log2 < 64,
        ensures
            r == self.block * vstd::arithmetic::power2::pow2(self.block_size_log2 as nat) + self.begin,
    {
        let size = Self::block_size(self.block_size_log2);
        proof {
            assert(self.block * size <= usize::MAX) by (nonlinear_arith)
                requires
                    self.block * size + self.begin <= usize::MAX,
            ;
        }
        self.block * size + self.begin
    }

    /// Offset of the byte just past the range from the start of the device.
    pub fn origin_end(&self) -> (r: usize)
        requires
            vstd::arithmetic::power2::pow2(self.block_size_log2 as nat) <= usize::MAX,
            self.block * vstd::arithmetic::power2::pow2(self.block_size_log2 as nat) + self.end <= usize::MAX,
            self.block_size_log2 < 64,
        ensures
            r == self.block * vstd::arithmetic::power2::pow2(self.block_size_log2 as nat) + self.end,
    {
        let size = Self::block_size(self.block_size_log2);
        proof {
            assert(self.block * size <= usize::MAX) by (nonlinear_arith)
                requires
                    self.block * size + self.end <= usize::MAX,
            ;
        }
        self.block * size + self.end
    }

    /// `2^log2`, the size of a block.
    pub fn block_size_pub(log2: u8) -> (r: usize)
        requires
            log2 < 64,
            vstd::arithmetic::power2::pow2(log2 as nat) <= usize::MAX,
        ensures
            r == vstd::arithmetic::power2::pow2(log2 as nat),
    {
        Self::block_size(log2)
    }

    fn block_size(log2: u8) -> (r: usize)
        requires
            log2 < 64,
            vstd::arithmetic::power2::pow2(log2 as nat) <= usize::MAX,
        ensures
            r == vstd::arithmetic::power2::pow2(log2 as nat),
    {
        let mut r: usize = 1;
        let mut i: u8 = 0;
        proof {
            assert(vstd::arithmetic::power2::pow2(0) == 1) by {
                vstd::arithmetic::power2::lemma2_to64();
            }
        }
        while i < log2
            invariant
                i <= log2,
                log2 < 64,
                vstd::arithmetic::power2::pow2(log2 as nat) <= usize::MAX,
                r == vstd::arithmetic::power2::pow2(i as nat),
            decreases log2 - i,
        {
            proof {
                vstd::arithmetic::power2::lemma_pow2_unfold((i + 1) as nat);
                if i + 1 < log2 {
                    vstd::arithmetic::power2::lemma_pow2_strictly_increases((i + 1) as nat, log2 as nat);
                }
            }
            r = r * 2;
            i = i + 1;
        }
        r
    }
}

} // verus!
