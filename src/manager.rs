//! The engine: allocation and chaining on the block store, and the
//! directory tree built on top of it.
use vstd::prelude::*;

use crate::chain::{
    accounted, chain, chain_from, free_list, increasing, is_freed, is_linked,
    lemma_chain_distinct, lemma_conservation_allocate, lemma_conservation_free, lemma_free_list,
    lemma_free_list_all, lemma_free_list_prefix, lemma_free_twice_fails, lemma_linked_chain,
    used_list,
};
use crate::directory::{
    dir_bytes, dir_wf, encodable, index_of, is_valid_name, lemma_dir_bytes_round_trip,
    lemma_index_of, lemma_rebound_len, parent_name, parse_dir, rebound, self_name, valid_name,
    Directory, DirectoryView, Fcb, FcbView, FileType,
};
use crate::disk::{
    block_image, block_of, blocks_of, fits_blocks, lemma_trim_prefix, lemma_written_reads_back,
    trim_eof, Disk, FatItem, BLOCK_SIZE, DATA_BLOCKS,
};
use crate::error::FsError;

verus! {

/// The table `fat` with the blocks `s` marked free.
pub open spec fn free_blocks(fat: Seq<FatItem>, s: Seq<usize>) -> Seq<FatItem> {
    Seq::new(
        fat.len(),
        |i: int|
            if s.contains(i as usize) {
                FatItem::NotUsed
            } else {
                fat[i]
            },
    )
}

/// Whether a payload of `len` bytes is stored with a sentinel byte: always,
/// unless it fills its blocks exactly. An empty payload still takes one
/// block, holding only the sentinel.
pub open spec fn needs_eof(len: nat) -> bool {
    len == 0 || len % (BLOCK_SIZE as nat) != 0
}

/// Number of blocks that a payload of `len` bytes takes.
pub open spec fn blocks_needed(len: nat) -> nat {
    if needs_eof(len) {
        len / (BLOCK_SIZE as nat) + 1
    } else {
        len / (BLOCK_SIZE as nat)
    }
}

/// The payload stored in the chain that starts at `first`: the chain's
/// blocks concatenated, cut at the sentinel when `eof` is set. `None` when
/// the chain is broken.
pub open spec fn stored(disk: Disk, first: usize, eof: bool) -> Option<Seq<u8>> {
    match chain(disk.fat@, first) {
        Ok(s) => Some(
            if eof {
                trim_eof(blocks_of(disk.bytes(), s))
            } else {
                blocks_of(disk.bytes(), s)
            },
        ),
        Err(_) => None,
    }
}

/// The outcome of walking the chain from `first`, with the engine's error.
pub open spec fn trace(fat: Seq<FatItem>, first: usize) -> Result<Seq<usize>, FsError> {
    match chain(fat, first) {
        Ok(s) => Ok(s),
        Err(at) => Err(FsError::CorruptChain(at)),
    }
}

/// The directory stored in the chain that starts at `first`.
pub open spec fn load_dir(disk: Disk, first: usize) -> Result<DirectoryView, FsError> {
    match stored(disk, first, false) {
        Some(b) => match parse_dir(b) {
            Some(d) => Ok(d),
            None => Err(FsError::CorruptDirectory),
        },
        None => Err(FsError::CorruptChain(chain(disk.fat@, first)->Err_0)),
    }
}

/// The content of the file that the entry `f` describes.
pub open spec fn fcb_data(disk: Disk, f: FcbView) -> Result<Seq<u8>, FsError> {
    if f.file_type == FileType::Directory {
        Err(FsError::WrongKind)
    } else {
        match stored(disk, f.first_cluster, needs_eof(f.length as nat)) {
            Some(d) => Ok(d),
            None => Err(FsError::CorruptChain(chain(disk.fat@, f.first_cluster)->Err_0)),
        }
    }
}

/// The content of the file named `name` among `files`.
pub open spec fn file_data(disk: Disk, files: Seq<FcbView>, name: Seq<char>) -> Result<Seq<u8>, FsError> {
    match index_of(files, name) {
        Some(i) => fcb_data(disk, files[i]),
        None => Err(FsError::NotFound),
    }
}

/// A new directory named `name` whose `..` and `.` point at the given blocks.
pub open spec fn new_dir_view(name: Seq<char>, parent_first: usize, self_first: usize) -> DirectoryView {
    DirectoryView {
        name,
        files: seq![
            FcbView { name: parent_name(), file_type: FileType::Directory, first_cluster: parent_first, length: 0 },
            FcbView { name: self_name(), file_type: FileType::Directory, first_cluster: self_first, length: 0 },
        ],
    }
}

/// Why saving the open directory of `dm` fails, if it does: its chain is
/// broken, or it needs more blocks than it has and too few are free even
/// after freeing it.
pub open spec fn save_error(dm: DiskManager) -> Option<FsError> {
    let b = dm.cur_dir@.files[1].first_cluster;
    let n = blocks_needed(dir_bytes(dm.cur_dir@).len());
    match trace(dm.disk.fat@, b) {
        Ok(s) => if s.len() == n || free_list(free_blocks(dm.disk.fat@, s)).len() >= n {
            None
        } else {
            Some(FsError::AllocationExhausted)
        },
        Err(e) => Some(e),
    }
}

/// The table of a fresh engine whose root takes `n` blocks: blocks `0..n`
/// chained in order, the last ending the chain, every other block free.
pub open spec fn root_table(fat: Seq<FatItem>, n: nat) -> bool {
    &&& 1 <= n <= fat.len()
    &&& forall|i: int| 0 <= i < n - 1 ==> #[trigger] fat[i] == FatItem::ClusterNo((i + 1) as usize)
    &&& fat[n - 1] == FatItem::EoF
    &&& forall|i: int| n <= i < fat.len() ==> #[trigger] fat[i] == FatItem::NotUsed
}

/// Whether two engines hold the same table, bytes and open directory.
pub open spec fn same_state(a: DiskManager, b: DiskManager) -> bool {
    &&& a.disk.fat@ == b.disk.fat@
    &&& a.disk.bytes() == b.disk.bytes()
    &&& a.cur_dir@ == b.cur_dir@
}

/// Whether the entry `f` may be deleted: a directory must be readable and
/// hold nothing but `..` and `.`.
pub open spec fn removable(disk: Disk, f: FcbView) -> Result<(), FsError> {
    if f.file_type == FileType::Directory {
        match load_dir(disk, f.first_cluster) {
            Ok(d) => if d.files.len() > 2 {
                Err(FsError::NotEmpty)
            } else {
                Ok(())
            },
            Err(e) => Err(e),
        }
    } else {
        Ok(())
    }
}

/// What deleting the entry `f` does: the blocks of its chain to free, or
/// why it fails.
pub open spec fn deletion(disk: Disk, f: FcbView) -> Result<Seq<usize>, FsError> {
    match removable(disk, f) {
        Ok(_) => trace(disk.fat@, f.first_cluster),
        Err(e) => Err(e),
    }
}

/// What deleting the entry named `name` among `files` does: its position
/// and the blocks to free, or why it fails.
pub open spec fn deletion_by_name(disk: Disk, files: Seq<FcbView>, name: Seq<char>) -> Result<(int, Seq<usize>), FsError> {
    match index_of(files, name) {
        Some(i) => if i < 2 {
            Err(FsError::InvalidName)
        } else {
            match deletion(disk, files[i]) {
                Ok(s) => Ok((i, s)),
                Err(e) => Err(e),
            }
        },
        None => Err(FsError::NotFound),
    }
}

/// Whether `disk` holds the byte form of `d`, re-pointed at `first`, in
/// the chain that starts at `first`.
pub open spec fn holds_dir(disk: Disk, d: DirectoryView, first: usize) -> bool {
    let e = rebound(d, first);
    stored(disk, first, needs_eof(dir_bytes(e).len())) == Some(dir_bytes(e))
}

/// The model of an optional directory.
pub open spec fn root_view(root: Option<Directory>) -> Option<DirectoryView> {
    match root {
        Some(d) => Some(d@),
        None => None,
    }
}

/// The root directory that an engine starts with: `root` or, when none is
/// given, an empty one named `root`; its `..` and `.` point at block 0.
pub open spec fn initial_root(root: Option<DirectoryView>) -> DirectoryView {
    let d = match root {
        Some(d) => d,
        None => DirectoryView {
            name: seq!['r', 'o', 'o', 't'],
            files: seq![
                FcbView { name: parent_name(), file_type: FileType::Directory, first_cluster: 0, length: 0 },
                FcbView { name: self_name(), file_type: FileType::Directory, first_cluster: 0, length: 0 },
            ],
        },
    };
    DirectoryView {
        name: d.name,
        files: d.files.update(0, FcbView { first_cluster: 0, ..d.files[0] }).update(
            1,
            FcbView { first_cluster: 0, ..d.files[1] },
        ),
    }
}

/// The file system engine: the disk and the directory that is open.
pub struct DiskManager {
    pub disk: Disk,
    pub cur_dir: Directory,
}

impl DiskManager {
    /// The disk is well formed and the open directory is well formed.
    pub open spec fn wf(&self) -> bool {
        self.disk.wf() && dir_wf(self.cur_dir@)
    }

    /// The first free block.
    pub fn find_next_empty_fat(&self) -> (r: Option<usize>)
        requires
            self.disk.wf(),
        ensures
            r == (if free_list(self.disk.fat@).len() > 0 {
                Some(free_list(self.disk.fat@)[0])
            } else {
                None::<usize>
            }),
    {
        let ghost fat = self.disk.fat@;
        proof { lemma_free_list(fat); }
        let mut i: usize = 0;
        while i < self.disk.fat.len()
            invariant
                i <= fat.len(),
                fat == self.disk.fat@,
                forall|j: int| 0 <= j < i ==> fat[j] != FatItem::NotUsed,
            decreases fat.len() - i,
        {
            if let FatItem::NotUsed = self.disk.fat[i] {
                proof {
                    let fl = free_list(fat);
                    lemma_free_list(fat);
                    assert(fat[i as int] == FatItem::NotUsed);
                    assert(fl.contains(i));
                    let k = choose|k: int| 0 <= k < fl.len() && fl[k] == i;
                    if k > 0 {
                        assert(fl[0] < fl[k]);
                    }
                }
                return Some(i);
            }
            i += 1;
        }
        proof {
            if free_list(fat).len() > 0 {
                assert(fat[free_list(fat)[0] as int] == FatItem::NotUsed);
            }
        }
        None
    }

    /// Takes the first `clusters_needed` free blocks (first fit) and wires
    /// them into one chain, in increasing order; gives the blocks. Fails,
    /// changing nothing, when fewer blocks are free.
    pub fn allocate_free_space_on_fat(&mut self, clusters_needed: usize) -> (r: Result<Vec<usize>, FsError>)
        requires
            old(self).disk.wf(),
        ensures
            final(self).disk.wf(),
            final(self).disk.bytes() == old(self).disk.bytes(),
            final(self).cur_dir == old(self).cur_dir,
            r is Ok <==> free_list(old(self).disk.fat@).len() >= clusters_needed,
            match r {
                Ok(s) => {
                    &&& s@ == free_list(old(self).disk.fat@).take(clusters_needed as int)
                    &&& increasing(s@)
                    &&& forall|k: int| 0 <= k < s@.len() ==> #[trigger] s@[k] < old(self).disk.blocks()
                        && old(self).disk.fat@[s@[k] as int] == FatItem::NotUsed
                    &&& is_linked(old(self).disk.fat@, final(self).disk.fat@, s@)
                },
                Err(e) => e == FsError::AllocationExhausted && final(self).disk.fat@ == old(self).disk.fat@,
            },
    {
        let ghost fat = self.disk.fat@;
        proof { lemma_free_list(fat); }
        let len = self.disk.fat.len();
        let mut s: Vec<usize> = Vec::with_capacity(clusters_needed);
        let mut i: usize = 0;
        while i < len && s.len() < clusters_needed
            invariant
                len == fat.len(),
                i <= len,
                fat == self.disk.fat@,
                s@ == free_list(fat.subrange(0, i as int)),
                s@.len() <= clusters_needed,
            decreases len - i,
        {
            proof {
                assert(fat.subrange(0, i + 1).drop_last() =~= fat.subrange(0, i as int));
            }
            if let FatItem::NotUsed = self.disk.fat[i] {
                s.push(i);
            }
            i += 1;
        }
        proof {
            lemma_free_list_prefix(fat, i as int);
            if s.len() < clusters_needed {
                assert(fat.subrange(0, i as int) =~= fat);
            }
        }
        if s.len() < clusters_needed {
            return Err(FsError::AllocationExhausted);
        }
        let ghost fl = free_list(fat);
        assert(s@ =~= fl.take(clusters_needed as int));
        assert forall|k: int| 0 <= k < s@.len() implies #[trigger] s@[k] < fat.len() && fat[s@[k] as int]
            == FatItem::NotUsed by {
            assert(s@[k] == fl[k]);
        }
        let n = s.len();
        let mut k: usize = 0;
        while k < n
            invariant
                n == s@.len(),
                k <= n,
                self.disk.wf(),
                self.disk.bytes() == old(self).disk.bytes(),
                self.cur_dir == old(self).cur_dir,
                self.disk.fat@.len() == fat.len(),
                fat == old(self).disk.fat@,
                increasing(s@),
                forall|j: int| 0 <= j < s@.len() ==> #[trigger] s@[j] < fat.len(),
                forall|j: int|
                    0 <= j < k && j < n - 1 ==> #[trigger] self.disk.fat@[s@[j] as int]
                        == FatItem::ClusterNo(s@[j + 1]),
                k == n && n > 0 ==> self.disk.fat@[s@.last() as int] == FatItem::EoF,
                forall|i: int|
                    0 <= i < fat.len() && !s@.take(k as int).contains(i as usize)
                        ==> #[trigger] self.disk.fat@[i] == fat[i],
            decreases n - k,
        {
            let b = s[k];
            if k + 1 < n {
                self.disk.fat[b] = FatItem::ClusterNo(s[k + 1]);
            } else {
                self.disk.fat[b] = FatItem::EoF;
            }
            proof {
                assert forall|j: int| 0 <= j < k implies s@[j] != b by {
                    assert(s@[j] < s@[k as int]);
                }
                assert forall|i: int|
                    0 <= i < fat.len() && !s@.take(k + 1).contains(i as usize)
                        implies #[trigger] self.disk.fat@[i] == fat[i] by {
                    assert(s@.take(k + 1)[k as int] == b);
                    if s@.take(k as int).contains(i as usize) {
                        let j = choose|j: int| 0 <= j < k && s@.take(k as int)[j] == i as usize;
                        assert(s@.take(k + 1)[j] == i as usize);
                    }
                }
            }
            k += 1;
        }
        proof {
            assert(s@.take(n as int) =~= s@);
        }
        Ok(s)
    }

    /// The blocks of the chain that starts at `first_cluster`, in order.
    pub fn get_file_clusters(&self, first_cluster: usize) -> (r: Result<Vec<usize>, FsError>)
        requires
            self.disk.wf(),
        ensures
            match r {
                Ok(v) => trace(self.disk.fat@, first_cluster) == Ok::<Seq<usize>, FsError>(v@),
                Err(e) => trace(self.disk.fat@, first_cluster) == Err::<Seq<usize>, FsError>(e),
            },
            r is Ok ==> forall|k: int| 0 <= k < r->Ok_0@.len() ==> #[trigger] r->Ok_0@[k] < self.disk.blocks(),
            r is Ok ==> r->Ok_0@.len() >= 1,
    {
        let ghost fat = self.disk.fat@;
        let len = self.disk.fat.len();
        let mut clusters: Vec<usize> = Vec::new();
        let mut cur = first_cluster;
        let mut fuel = len;
        loop
            invariant
                fat == self.disk.fat@,
                len == fat.len(),
                self.disk.wf(),
                chain(fat, first_cluster) == match chain_from(fat, cur as nat, fuel as nat) {
                    Ok(rest) => Ok(clusters@ + rest),
                    Err(at) => Err::<Seq<usize>, usize>(at),
                },
                forall|k: int| 0 <= k < clusters@.len() ==> #[trigger] clusters@[k] < len,
            decreases fuel,
        {
            if fuel == 0 || cur >= len {
                return Err(FsError::CorruptChain(cur));
            }
            match self.disk.fat[cur] {
                FatItem::BadCluster => {
                    cur += 1;
                    fuel -= 1;
                },
                FatItem::EoF => {
                    let ghost before = clusters@;
                    clusters.push(cur);
                    proof {
                        assert(before + seq![cur] =~= clusters@);
                        assert(chain_from(fat, cur as nat, fuel as nat) == Ok::<Seq<usize>, usize>(seq![cur]));
                    }
                    return Ok(clusters);
                },
                FatItem::ClusterNo(next) => {
                    let ghost before = clusters@;
                    clusters.push(cur);
                    proof {
                        match chain_from(fat, next as nat, (fuel - 1) as nat) {
                            Ok(rest) => {
                                assert(before + (seq![cur] + rest) =~= clusters@ + rest);
                            },
                            Err(_) => {},
                        }
                    }
                    cur = next;
                    fuel -= 1;
                },
                FatItem::NotUsed => {
                    return Err(FsError::CorruptChain(cur));
                },
            }
        }
    }

    /// Frees every block of the chain that starts at `first_cluster`; gives
    /// the blocks freed. A broken chain changes nothing.
    pub fn delete_space_on_fat(&mut self, first_cluster: usize) -> (r: Result<Vec<usize>, FsError>)
        requires
            old(self).disk.wf(),
        ensures
            final(self).disk.wf(),
            final(self).disk.bytes() == old(self).disk.bytes(),
            final(self).cur_dir == old(self).cur_dir,
            match r {
                Ok(v) => trace(old(self).disk.fat@, first_cluster) == Ok::<Seq<usize>, FsError>(v@)
                    && final(self).disk.fat@ == free_blocks(old(self).disk.fat@, v@),
                Err(e) => trace(old(self).disk.fat@, first_cluster) == Err::<Seq<usize>, FsError>(e)
                    && final(self).disk.fat@ == old(self).disk.fat@,
            },
    {
        let clusters = self.get_file_clusters(first_cluster)?;
        let ghost fat = self.disk.fat@;
        let mut k: usize = 0;
        while k < clusters.len()
            invariant
                k <= clusters@.len(),
                self.disk.wf(),
                self.disk.bytes() == old(self).disk.bytes(),
                self.cur_dir == old(self).cur_dir,
                fat == old(self).disk.fat@,
                self.disk.fat@.len() == fat.len(),
                forall|j: int| 0 <= j < clusters@.len() ==> #[trigger] clusters@[j] < fat.len(),
                forall|i: int|
                    0 <= i < fat.len() ==> #[trigger] self.disk.fat@[i] == if clusters@.take(
                        k as int,
                    ).contains(i as usize) {
                        FatItem::NotUsed
                    } else {
                        fat[i]
                    },
            decreases clusters@.len() - k,
        {
            let b = clusters[k];
            self.disk.fat[b] = FatItem::NotUsed;
            proof {
                assert forall|i: int| 0 <= i < fat.len() implies #[trigger] self.disk.fat@[i] == if clusters@.take(
                    k + 1,
                ).contains(i as usize) {
                    FatItem::NotUsed
                } else {
                    fat[i]
                } by {
                    assert(clusters@.take(k + 1)[k as int] == b);
                    if clusters@.take(k as int).contains(i as usize) {
                        let j = choose|j: int| 0 <= j < k && clusters@.take(k as int)[j] == i as usize;
                        assert(clusters@.take(k + 1)[j] == i as usize);
                    }
                    if clusters@.take(k + 1).contains(i as usize) && i != b {
                        let t = clusters@.take(k + 1);
                        let j = choose|j: int| 0 <= j < k + 1 && t[j] == i as usize;
                        assert(clusters@.take(k as int)[j] == i as usize);
                    }
                }
            }
            k += 1;
        }
        assert(clusters@.take(k as int) =~= clusters@);
        assert(self.disk.fat@ =~= free_blocks(fat, clusters@));
        Ok(clusters)
    }

    /// Frees the chain that starts at `first_cluster`, then allocates
    /// `clusters_needed` blocks (first fit) as a new chain; gives its blocks.
    /// The new chain need not start where the old one did. When the old
    /// chain is broken, or too few blocks are free even after freeing it,
    /// the table is left as it was.
    pub fn reallocate_free_space_on_fat(&mut self, first_cluster: usize, clusters_needed: usize) -> (r:
        Result<Vec<usize>, FsError>)
        requires
            old(self).disk.wf(),
        ensures
            final(self).disk.wf(),
            final(self).disk.bytes() == old(self).disk.bytes(),
            final(self).cur_dir == old(self).cur_dir,
            r is Ok <==> trace(old(self).disk.fat@, first_cluster) is Ok && free_list(
                free_blocks(old(self).disk.fat@, trace(old(self).disk.fat@, first_cluster)->Ok_0),
            ).len() >= clusters_needed,
            match r {
                Ok(v) => {
                    let mid = free_blocks(old(self).disk.fat@, trace(old(self).disk.fat@, first_cluster)->Ok_0);
                    &&& v@ == free_list(mid).take(clusters_needed as int)
                    &&& increasing(v@)
                    &&& forall|k: int| 0 <= k < v@.len() ==> #[trigger] v@[k] < old(self).disk.blocks()
                    &&& is_linked(mid, final(self).disk.fat@, v@)
                },
                Err(e) => final(self).disk.fat@ == old(self).disk.fat@ && match trace(
                    old(self).disk.fat@,
                    first_cluster,
                ) {
                    Ok(_) => e == FsError::AllocationExhausted,
                    Err(t) => e == t,
                },
            },
    {
        let ghost fat = self.disk.fat@;
        let clusters = self.get_file_clusters(first_cluster)?;
        let mut saved: Vec<FatItem> = Vec::new();
        let mut k: usize = 0;
        while k < clusters.len()
            invariant
                k <= clusters@.len(),
                fat == self.disk.fat@,
                self.disk.wf(),
                forall|j: int| 0 <= j < clusters@.len() ==> #[trigger] clusters@[j] < fat.len(),
                saved@.len() == k,
                forall|j: int| 0 <= j < k ==> #[trigger] saved@[j] == fat[clusters@[j] as int],
            decreases clusters@.len() - k,
        {
            saved.push(self.disk.fat[clusters[k]]);
            k += 1;
        }
        let freed = self.delete_space_on_fat(first_cluster);
        if let Err(e) = freed {
            return Err(e);
        }
        match self.allocate_free_space_on_fat(clusters_needed) {
            Ok(s) => Ok(s),
            Err(e) => {
                let ghost mid = self.disk.fat@;
                let mut k: usize = 0;
                while k < clusters.len()
                    invariant
                        k <= clusters@.len(),
                        self.disk.wf(),
                        self.disk.bytes() == old(self).disk.bytes(),
                        self.cur_dir == old(self).cur_dir,
                        fat == old(self).disk.fat@,
                        mid == free_blocks(fat, clusters@),
                        self.disk.fat@.len() == fat.len(),
                        forall|j: int| 0 <= j < clusters@.len() ==> #[trigger] clusters@[j] < fat.len(),
                        saved@.len() == clusters@.len(),
                        forall|j: int| 0 <= j < clusters@.len() ==> #[trigger] saved@[j] == fat[clusters@[j] as int],
                        forall|i: int|
                            0 <= i < fat.len() ==> #[trigger] self.disk.fat@[i] == if clusters@.take(
                                k as int,
                            ).contains(i as usize) {
                                fat[i]
                            } else {
                                mid[i]
                            },
                    decreases clusters@.len() - k,
                {
                    let b = clusters[k];
                    self.disk.fat[b] = saved[k];
                    proof {
                        assert forall|i: int| 0 <= i < fat.len() implies #[trigger] self.disk.fat@[i] == if clusters@.take(
                            k + 1,
                        ).contains(i as usize) {
                            fat[i]
                        } else {
                            mid[i]
                        } by {
                            assert(clusters@.take(k + 1)[k as int] == b);
                            if clusters@.take(k as int).contains(i as usize) {
                                let j = choose|j: int| 0 <= j < k && clusters@.take(k as int)[j] == i as usize;
                                assert(clusters@.take(k + 1)[j] == i as usize);
                            }
                            if clusters@.take(k + 1).contains(i as usize) && i != b {
                                let t = clusters@.take(k + 1);
                                let j = choose|j: int| 0 <= j < k + 1 && t[j] == i as usize;
                                assert(clusters@.take(k as int)[j] == i as usize);
                            }
                        }
                    }
                    k += 1;
                }
                proof {
                    assert(clusters@.take(k as int) =~= clusters@);
                    assert forall|i: int| 0 <= i < fat.len() implies #[trigger] self.disk.fat@[i] == fat[i] by {
                        if !clusters@.contains(i as usize) {
                            assert(mid[i] == fat[i]);
                        }
                    }
                    assert(self.disk.fat@ =~= fat);
                }
                Err(e)
            },
        }
    }

    /// Whether a payload of `length` bytes gets a sentinel byte, and how
    /// many blocks it takes.
    pub fn calc_clusters_needed_with_eof(length: usize) -> (r: (bool, usize))
        ensures
            r.0 == needs_eof(length as nat),
            r.1 == blocks_needed(length as nat),
    {
        if length > 0 && length % BLOCK_SIZE == 0 {
            (false, length / BLOCK_SIZE)
        } else {
            (true, length / BLOCK_SIZE + 1)
        }
    }

    /// Writes `data` to freshly allocated blocks (first fit); gives the
    /// first block of the new chain. Fails, changing nothing, when too few
    /// blocks are free.
    pub fn write_data_to_disk(&mut self, data: &[u8]) -> (r: Result<usize, FsError>)
        requires
            old(self).disk.wf(),
        ensures
            final(self).disk.wf(),
            final(self).cur_dir == old(self).cur_dir,
            r is Ok <==> free_list(old(self).disk.fat@).len() >= blocks_needed(data@.len()),
            match r {
                Ok(f) => {
                    let s = free_list(old(self).disk.fat@).take(blocks_needed(data@.len()) as int);
                    &&& s.len() >= 1
                    &&& f == s[0]
                    &&& is_linked(old(self).disk.fat@, final(self).disk.fat@, s)
                    &&& chain(final(self).disk.fat@, f) == Ok::<Seq<usize>, usize>(s)
                    &&& stored(final(self).disk, f, needs_eof(data@.len())) == Some(data@)
                    &&& forall|b: int|
                        0 <= b < old(self).disk.blocks() && !s.contains(b as usize)
                            ==> #[trigger] final(self).disk.block(b) == old(self).disk.block(b)
                },
                Err(e) => e == FsError::AllocationExhausted && final(self).disk.fat@ == old(self).disk.fat@
                    && final(self).disk.bytes() == old(self).disk.bytes(),
            },
    {
        let (insert_eof, clusters_needed) = DiskManager::calc_clusters_needed_with_eof(data.len());
        let clusters = self.allocate_free_space_on_fat(clusters_needed)?;
        proof {
            lemma_free_list(old(self).disk.fat@);
            assert(fits_blocks(data@.len() as int, clusters@.len() as int, insert_eof));
        }
        self.disk.write_data_by_clusters_with_eof(data, clusters.as_slice(), insert_eof);
        proof {
            let s = clusters@;
            let fat = self.disk.fat@;
            lemma_linked_chain(old(self).disk.fat@, fat, s, 0, fat.len());
            assert(s.subrange(0, s.len() as int) =~= s);
            assert forall|k: int| 0 <= k < s.len() implies #[trigger] block_of(self.disk.bytes(), s[k] as int)
                == block_image(data@, k, s.len() as int, insert_eof) by {
                assert(self.disk.block(s[k] as int) == block_image(data@, k, s.len() as int, insert_eof));
            }
            lemma_written_reads_back(self.disk.bytes(), s, data@, insert_eof);
        }
        Ok(clusters[0])
    }

    /// The payload stored in the chain that starts at `first_cluster`, cut at
    /// the sentinel when `with_eof` is set.
    pub fn get_data_by_first_cluster(&self, first_cluster: usize, with_eof: bool) -> (r: Result<Vec<u8>, FsError>)
        requires
            self.disk.wf(),
        ensures
            match r {
                Ok(v) => stored(self.disk, first_cluster, with_eof) == Some(v@),
                Err(e) => stored(self.disk, first_cluster, with_eof) == None::<Seq<u8>>
                    && trace(self.disk.fat@, first_cluster) == Err::<Seq<usize>, FsError>(e),
            },
    {
        let clusters = self.get_file_clusters(first_cluster)?;
        if with_eof {
            Ok(self.disk.read_data_by_clusters_without_eof(clusters.as_slice()))
        } else {
            Ok(self.disk.read_data_by_clusters(clusters.as_slice()))
        }
    }

    /// The directory that the entry `dir_fcb` describes, read from its chain.
    pub fn get_directory_by_fcb(&self, dir_fcb: &Fcb) -> (r: Result<Directory, FsError>)
        requires
            self.disk.wf(),
        ensures
            dir_fcb@.file_type == FileType::File ==> r == Err::<Directory, FsError>(FsError::WrongKind),
            dir_fcb@.file_type == FileType::Directory ==> match r {
                Ok(d) => load_dir(self.disk, dir_fcb@.first_cluster) == Ok::<DirectoryView, FsError>(d@),
                Err(e) => load_dir(self.disk, dir_fcb@.first_cluster) == Err::<DirectoryView, FsError>(e),
            },
            r is Ok ==> dir_wf(r->Ok_0@),
    {
        match dir_fcb.file_type() {
            FileType::Directory => {
                let data = self.get_data_by_first_cluster(dir_fcb.first_cluster(), false)?;
                match Directory::from_bytes(data.as_slice()) {
                    Some(d) => Ok(d),
                    None => Err(FsError::CorruptDirectory),
                }
            },
            FileType::File => Err(FsError::WrongKind),
        }
    }

    /// The content of the file that the entry `fcb` describes.
    pub fn get_file_by_fcb(&self, fcb: &Fcb) -> (r: Result<Vec<u8>, FsError>)
        requires
            self.disk.wf(),
        ensures
            match r {
                Ok(v) => fcb_data(self.disk, fcb@) == Ok::<Seq<u8>, FsError>(v@),
                Err(e) => fcb_data(self.disk, fcb@) == Err::<Seq<u8>, FsError>(e),
            },
    {
        match fcb.file_type() {
            FileType::File => {
                let (insert_eof, _) = DiskManager::calc_clusters_needed_with_eof(fcb.length());
                self.get_data_by_first_cluster(fcb.first_cluster(), insert_eof)
            },
            FileType::Directory => Err(FsError::WrongKind),
        }
    }

    /// The content of the file named `name` in the open directory.
    pub fn read_file_by_name(&self, name: &str) -> (r: Result<Vec<u8>, FsError>)
        requires
            self.wf(),
        ensures
            match r {
                Ok(v) => file_data(self.disk, self.cur_dir@.files, name@) == Ok::<Seq<u8>, FsError>(v@),
                Err(e) => file_data(self.disk, self.cur_dir@.files, name@) == Err::<Seq<u8>, FsError>(e),
            },
    {
        match self.cur_dir.get_fcb_by_name(name) {
            Some((_i, fcb)) => self.get_file_by_fcb(fcb),
            None => Err(FsError::NotFound),
        }
    }

    /// Writes `data` to new blocks and adds a file entry named `name` for it
    /// to the open directory. The directory itself is written back to disk
    /// only when it is saved.
    pub fn create_file_with_data(&mut self, name: &str, data: &[u8]) -> (r: Result<(), FsError>)
        requires
            old(self).wf(),
        ensures
            final(self).wf(),
            index_of(old(self).cur_dir@.files, name@) is Some ==> r == Err::<(), FsError>(
                FsError::AlreadyExists,
            ),
            index_of(old(self).cur_dir@.files, name@) is None && !valid_name(name@) ==> r == Err::<
                (),
                FsError,
            >(FsError::InvalidName),
            valid_name(name@) && index_of(old(self).cur_dir@.files, name@) is None && free_list(
                old(self).disk.fat@,
            ).len() < blocks_needed(data@.len()) ==> r == Err::<(), FsError>(FsError::AllocationExhausted),
            r is Ok <==> valid_name(name@) && index_of(old(self).cur_dir@.files, name@) is None
                && free_list(old(self).disk.fat@).len() >= blocks_needed(data@.len()),
            r is Err ==> same_state(*old(self), *final(self)),
            r is Ok ==> {
                let s = free_list(old(self).disk.fat@).take(blocks_needed(data@.len()) as int);
                &&& forall|heads: Seq<usize>|
                    #[trigger] accounted(old(self).disk.fat@, heads) ==> accounted(
                        final(self).disk.fat@,
                        heads.push(s[0]),
                    )
                &&& final(self).cur_dir@ == (DirectoryView {
                    name: old(self).cur_dir@.name,
                    files: old(self).cur_dir@.files.push(
                        FcbView { name: name@, file_type: FileType::File, first_cluster: s[0], length: data@.len() as usize },
                    ),
                })
                &&& is_linked(old(self).disk.fat@, final(self).disk.fat@, s)
                &&& forall|b: int|
                    0 <= b < old(self).disk.blocks() && !s.contains(b as usize)
                        ==> #[trigger] final(self).disk.block(b) == old(self).disk.block(b)
                &&& file_data(final(self).disk, final(self).cur_dir@.files, name@) == Ok::<Seq<u8>, FsError>(data@)
            },
    {
        if self.cur_dir.get_index_by_name(name).is_some() {
            return Err(FsError::AlreadyExists);
        }
        if !is_valid_name(name) {
            return Err(FsError::InvalidName);
        }
        let ghost fat0 = self.disk.fat@;
        let first_cluster = self.write_data_to_disk(data)?;
        let fcb = Fcb::new(name, FileType::File, first_cluster, data.len());
        self.cur_dir.push_fcb(fcb);
        proof {
            let n = blocks_needed(data@.len());
            let s = free_list(fat0).take(n as int);
            assert forall|heads: Seq<usize>| #[trigger] accounted(fat0, heads) implies accounted(
                self.disk.fat@,
                heads.push(s[0]),
            ) by {
                lemma_write_keeps_accounts(fat0, heads, self.disk.fat@, n);
            }
            let files = self.cur_dir@.files;
            lemma_index_of(old(self).cur_dir@.files, name@);
            lemma_index_of(files, name@);
            assert(files[files.len() - 1].name == name@);
            assert(index_of(files, name@) == Some((files.len() - 1) as int));
        }
        Ok(())
    }

    /// Creates a directory named `name` in the open directory: its `..`
    /// points at the open directory, its `.` at the first free block, where
    /// its chain then starts. The open directory itself is written back to
    /// disk only when it is saved.
    pub fn new_directory_to_disk(&mut self, name: &str) -> (r: Result<(), FsError>)
        requires
            old(self).wf(),
        ensures
            final(self).wf(),
            index_of(old(self).cur_dir@.files, name@) is Some ==> r == Err::<(), FsError>(
                FsError::AlreadyExists,
            ),
            index_of(old(self).cur_dir@.files, name@) is None && !valid_name(name@) ==> r == Err::<
                (),
                FsError,
            >(FsError::InvalidName),
            r is Ok <==> valid_name(name@) && index_of(old(self).cur_dir@.files, name@) is None
                && free_list(old(self).disk.fat@).len() > 0 && free_list(old(self).disk.fat@).len()
                >= blocks_needed(
                dir_bytes(
                    new_dir_view(
                        name@,
                        old(self).cur_dir@.files[1].first_cluster,
                        free_list(old(self).disk.fat@)[0],
                    ),
                ).len(),
            ),
            valid_name(name@) && index_of(old(self).cur_dir@.files, name@) is None && (free_list(
                old(self).disk.fat@,
            ).len() == 0 || free_list(old(self).disk.fat@).len() < blocks_needed(
                dir_bytes(
                    new_dir_view(
                        name@,
                        old(self).cur_dir@.files[1].first_cluster,
                        free_list(old(self).disk.fat@)[0],
                    ),
                ).len(),
            )) ==> r == Err::<(), FsError>(FsError::AllocationExhausted),
            r is Err ==> same_state(*old(self), *final(self)),
            r is Ok ==> {
                let f = free_list(old(self).disk.fat@)[0];
                let child = new_dir_view(name@, old(self).cur_dir@.files[1].first_cluster, f);
                let s = free_list(old(self).disk.fat@).take(blocks_needed(dir_bytes(child).len()) as int);
                &&& forall|heads: Seq<usize>|
                    #[trigger] accounted(old(self).disk.fat@, heads) ==> accounted(
                        final(self).disk.fat@,
                        heads.push(f),
                    )
                &&& final(self).cur_dir@ == (DirectoryView {
                    name: old(self).cur_dir@.name,
                    files: old(self).cur_dir@.files.push(
                        FcbView { name: name@, file_type: FileType::Directory, first_cluster: f, length: 0 },
                    ),
                })
                &&& is_linked(old(self).disk.fat@, final(self).disk.fat@, s)
                &&& forall|b: int|
                    0 <= b < old(self).disk.blocks() && !s.contains(b as usize)
                        ==> #[trigger] final(self).disk.block(b) == old(self).disk.block(b)
                &&& stored(final(self).disk, f, needs_eof(dir_bytes(child).len())) == Some(dir_bytes(child))
            },
    {
        if self.cur_dir.get_index_by_name(name).is_some() {
            return Err(FsError::AlreadyExists);
        }
        if !is_valid_name(name) {
            return Err(FsError::InvalidName);
        }
        let ghost fat0 = self.disk.fat@;
        let parent_first = self.cur_dir.get(1).first_cluster();
        let self_first = match self.find_next_empty_fat() {
            Some(b) => b,
            None => return Err(FsError::AllocationExhausted),
        };
        let mut new_directory = Directory::new(name);
        new_directory.set_first_cluster_at(0, parent_first);
        new_directory.set_first_cluster_at(1, self_first);
        assert(new_directory@.files =~= new_dir_view(name@, parent_first, self_first).files);
        assert(new_directory@ == new_dir_view(name@, parent_first, self_first));
        let bin_dir = new_directory.to_bytes();
        let first_block = self.write_data_to_disk(bin_dir.as_slice())?;
        self.cur_dir.push_fcb(Fcb::new(name, FileType::Directory, first_block, 0));
        proof {
            let n = blocks_needed(bin_dir@.len());
            assert forall|heads: Seq<usize>| #[trigger] accounted(fat0, heads) implies accounted(
                self.disk.fat@,
                heads.push(free_list(fat0)[0]),
            ) by {
                lemma_write_keeps_accounts(fat0, heads, self.disk.fat@, n);
            }
        }
        Ok(())
    }

    /// Deletes what the entry `fcb` describes: a directory must hold nothing
    /// but `..` and `.`. Frees its chain and, when `index` is given, takes
    /// out the entry at that position of the open directory. On failure
    /// nothing changes.
    pub fn delete_file_by_fcb_with_index(&mut self, fcb: &Fcb, index: Option<usize>) -> (r: Result<(), FsError>)
        requires
            old(self).wf(),
            index matches Some(i) ==> 2 <= i < old(self).cur_dir@.files.len(),
        ensures
            final(self).wf(),
            match deletion(old(self).disk, fcb@) {
                Ok(s) => {
                    &&& r is Ok
                    &&& final(self).disk.fat@ == free_blocks(old(self).disk.fat@, s)
                    &&& final(self).disk.bytes() == old(self).disk.bytes()
                    &&& final(self).cur_dir@ == match index {
                        Some(i) => DirectoryView {
                            name: old(self).cur_dir@.name,
                            files: old(self).cur_dir@.files.remove(i as int),
                        },
                        None => old(self).cur_dir@,
                    }
                },
                Err(e) => r == Err::<(), FsError>(e) && same_state(*old(self), *final(self)),
            },
    {
        if let FileType::Directory = fcb.file_type() {
            let dir = self.get_directory_by_fcb(fcb)?;
            if dir.len() > 2 {
                return Err(FsError::NotEmpty);
            }
        }
        self.delete_space_on_fat(fcb.first_cluster())?;
        if let Some(i) = index {
            self.cur_dir.remove_at(i);
        }
        Ok(())
    }

    /// Deletes the entry of the open directory that has the name of `fcb`,
    /// as `delete_file_by_fcb_with_index` does.
    pub fn delete_file_by_fcb(&mut self, fcb: &Fcb) -> (r: Result<(), FsError>)
        requires
            old(self).wf(),
        ensures
            final(self).wf(),
            r is Err ==> same_state(*old(self), *final(self)),
            match index_of(old(self).cur_dir@.files, fcb@.name) {
                None => r == Err::<(), FsError>(FsError::NotFound),
                Some(i) => if i < 2 {
                    r == Err::<(), FsError>(FsError::InvalidName)
                } else {
                    match deletion(old(self).disk, fcb@) {
                        Ok(s) => {
                            &&& r is Ok
                            &&& final(self).disk.fat@ == free_blocks(old(self).disk.fat@, s)
                            &&& final(self).disk.bytes() == old(self).disk.bytes()
                            &&& final(self).cur_dir@ == (DirectoryView {
                                name: old(self).cur_dir@.name,
                                files: old(self).cur_dir@.files.remove(i),
                            })
                        },
                        Err(e) => r == Err::<(), FsError>(e),
                    }
                },
            },
    {
        proof {
            lemma_index_of(old(self).cur_dir@.files, fcb@.name);
        }
        match self.cur_dir.get_index_by_name(fcb.name()) {
            Some(i) => {
                if i < 2 {
                    return Err(FsError::InvalidName);
                }
                self.delete_file_by_fcb_with_index(fcb, Some(i))
            },
            None => Err(FsError::NotFound),
        }
    }

    /// Deletes the entry named `name` from the open directory and frees its
    /// chain; a directory must hold nothing but `..` and `.`. On failure
    /// nothing changes.
    pub fn delete_file_by_name(&mut self, name: &str) -> (r: Result<(), FsError>)
        requires
            old(self).wf(),
        ensures
            final(self).wf(),
            match deletion_by_name(old(self).disk, old(self).cur_dir@.files, name@) {
                Ok((i, s)) => {
                    &&& r is Ok
                    &&& forall|heads: Seq<usize>, k: int|
                        #![trigger accounted(old(self).disk.fat@, heads), heads[k]]
                        accounted(old(self).disk.fat@, heads) && 0 <= k < heads.len() && heads[k]
                            == old(self).cur_dir@.files[i].first_cluster ==> accounted(
                            final(self).disk.fat@,
                            heads.remove(k),
                        )
                    &&& final(self).disk.fat@ == free_blocks(old(self).disk.fat@, s)
                    &&& final(self).disk.bytes() == old(self).disk.bytes()
                    &&& final(self).cur_dir@ == (DirectoryView {
                        name: old(self).cur_dir@.name,
                        files: old(self).cur_dir@.files.remove(i),
                    })
                },
                Err(e) => r == Err::<(), FsError>(e) && same_state(*old(self), *final(self)),
            },
    {
        proof {
            lemma_index_of(old(self).cur_dir@.files, name@);
        }
        match self.cur_dir.get_index_by_name(name) {
            Some(index) => {
                if index < 2 {
                    return Err(FsError::InvalidName);
                }
                let fcb = self.cur_dir.get(index).duplicate();
                let r = self.delete_file_by_fcb_with_index(&fcb, Some(index));
                proof {
                    let fat0 = old(self).disk.fat@;
                    if r is Ok {
                        assert forall|heads: Seq<usize>, k: int|
                            #![trigger accounted(fat0, heads), heads[k]]
                            accounted(fat0, heads) && 0 <= k < heads.len() && heads[k]
                                == fcb@.first_cluster implies accounted(self.disk.fat@, heads.remove(k)) by {
                            lemma_delete_keeps_accounts(fat0, heads, k);
                        }
                    }
                }
                r
            },
            None => Err(FsError::NotFound),
        }
    }

    /// Renames the entry `old_name` of the open directory to `new_name`.
    /// Its chain is not touched. `..` and `.` cannot be renamed, and the new
    /// name must not be in use and must be valid.
    pub fn rename_file_by_name(&mut self, old_name: &str, new_name: &str) -> (r: Result<(), FsError>)
        requires
            old(self).wf(),
        ensures
            final(self).wf(),
            final(self).disk.fat@ == old(self).disk.fat@,
            final(self).disk.bytes() == old(self).disk.bytes(),
            index_of(old(self).cur_dir@.files, old_name@) is None ==> r == Err::<(), FsError>(FsError::NotFound),
            index_of(old(self).cur_dir@.files, old_name@) matches Some(i) ==> {
                if i < 2 {
                    r == Err::<(), FsError>(FsError::InvalidName)
                } else if index_of(old(self).cur_dir@.files, new_name@) is Some {
                    r == Err::<(), FsError>(FsError::AlreadyExists)
                } else if !valid_name(new_name@) {
                    r == Err::<(), FsError>(FsError::InvalidName)
                } else {
                    &&& r is Ok
                    &&& final(self).cur_dir@ == (DirectoryView {
                        name: old(self).cur_dir@.name,
                        files: old(self).cur_dir@.files.update(
                            i,
                            FcbView { name: new_name@, ..old(self).cur_dir@.files[i] },
                        ),
                    })
                }
            },
            r is Err ==> final(self).cur_dir@ == old(self).cur_dir@,
    {
        proof {
            lemma_index_of(old(self).cur_dir@.files, old_name@);
        }
        let index = match self.cur_dir.get_index_by_name(old_name) {
            Some(i) => i,
            None => return Err(FsError::NotFound),
        };
        if index < 2 {
            return Err(FsError::InvalidName);
        }
        if self.cur_dir.get_index_by_name(new_name).is_some() {
            return Err(FsError::AlreadyExists);
        }
        if !is_valid_name(new_name) {
            return Err(FsError::InvalidName);
        }
        self.cur_dir.rename_at(index, new_name);
        Ok(())
    }

    /// Size in bytes of the data region, number of blocks in use, and
    /// number of free blocks.
    pub fn get_disk_info(&self) -> (r: (usize, usize, usize))
        requires
            self.disk.wf(),
        ensures
            r.0 == self.disk.bytes().len(),
            r.1 == used_list(self.disk.fat@).len(),
            r.2 == free_list(self.disk.fat@).len(),
    {
        let ghost fat = self.disk.fat@;
        let disk_size = self.disk.data.len();
        let mut num_used: usize = 0;
        let mut num_not_used: usize = 0;
        let mut i: usize = 0;
        while i < self.disk.fat.len()
            invariant
                i <= fat.len(),
                fat == self.disk.fat@,
                num_used == used_list(fat.take(i as int)).len(),
                num_not_used == free_list(fat.take(i as int)).len(),
                num_used + num_not_used <= i,
            decreases fat.len() - i,
        {
            proof {
                assert(fat.take(i + 1).drop_last() =~= fat.take(i as int));
                crate::chain::lemma_free_list(fat.take(i as int));
            }
            match self.disk.fat[i] {
                FatItem::ClusterNo(_) => num_used += 1,
                FatItem::EoF => num_used += 1,
                FatItem::NotUsed => num_not_used += 1,
                FatItem::BadCluster => {},
            }
            i += 1;
        }
        assert(fat.take(i as int) =~= fat);
        (disk_size, num_used, num_not_used)
    }

    /// Moves the entry `name` of the open directory to the end of `des_dir`.
    /// Neither directory is written to disk; `..` and `.` cannot be moved,
    /// and `des_dir` must not have an entry of that name.
    pub fn move_fcb_between_dirs_by_name(&mut self, name: &str, des_dir: &mut Directory) -> (r: Result<(), FsError>)
        requires
            old(self).wf(),
            dir_wf(old(des_dir)@),
        ensures
            final(self).wf(),
            dir_wf(final(des_dir)@),
            final(self).disk.fat@ == old(self).disk.fat@,
            final(self).disk.bytes() == old(self).disk.bytes(),
            index_of(old(self).cur_dir@.files, name@) is None ==> r == Err::<(), FsError>(FsError::NotFound),
            index_of(old(self).cur_dir@.files, name@) matches Some(i) ==> {
                if i < 2 {
                    r == Err::<(), FsError>(FsError::InvalidName)
                } else if index_of(old(des_dir)@.files, name@) is Some {
                    r == Err::<(), FsError>(FsError::AlreadyExists)
                } else {
                    &&& r is Ok
                    &&& final(self).cur_dir@ == (DirectoryView {
                        name: old(self).cur_dir@.name,
                        files: old(self).cur_dir@.files.remove(i),
                    })
                    &&& final(des_dir)@ == (DirectoryView {
                        name: old(des_dir)@.name,
                        files: old(des_dir)@.files.push(old(self).cur_dir@.files[i]),
                    })
                }
            },
            r is Err ==> final(self).cur_dir@ == old(self).cur_dir@ && final(des_dir)@ == old(des_dir)@,
    {
        proof {
            lemma_index_of(old(self).cur_dir@.files, name@);
        }
        let index = match self.cur_dir.get_index_by_name(name) {
            Some(i) => i,
            None => return Err(FsError::NotFound),
        };
        if index < 2 {
            return Err(FsError::InvalidName);
        }
        if des_dir.get_index_by_name(name).is_some() {
            return Err(FsError::AlreadyExists);
        }
        let fcb = self.cur_dir.remove_at(index);
        des_dir.push_fcb(fcb);
        Ok(())
    }

    /// A fresh engine on a default disk, with the root directory written to
    /// block 0 onwards.
    pub fn new(root_dir: Option<Directory>) -> (r: Result<DiskManager, FsError>)
        requires
            root_dir matches Some(d) ==> dir_wf(d@),
        ensures
            r is Ok <==> blocks_needed(dir_bytes(initial_root(root_view(root_dir))).len()) <= DATA_BLOCKS,
            r is Err ==> r == Err::<DiskManager, FsError>(FsError::AllocationExhausted),
            r is Ok ==> {
                let dm = r->Ok_0;
                let root = initial_root(root_view(root_dir));
                &&& dm.wf()
                &&& dm.disk.blocks() == DATA_BLOCKS
                &&& dm.cur_dir@ == root
                &&& holds_dir(dm.disk, root, 0)
                &&& root_table(dm.disk.fat@, blocks_needed(dir_bytes(root).len()))
                &&& accounted(dm.disk.fat@, seq![0usize])
            },
    {
        DiskManager::with_block_count(DATA_BLOCKS, root_dir)
    }

    /// A fresh engine on a disk of `count` blocks, with the root directory
    /// written to block 0 onwards.
    pub fn with_block_count(count: usize, root_dir: Option<Directory>) -> (r: Result<DiskManager, FsError>)
        requires
            1 <= count <= usize::MAX / BLOCK_SIZE,
            root_dir matches Some(d) ==> dir_wf(d@),
        ensures
            r is Ok <==> blocks_needed(dir_bytes(initial_root(root_view(root_dir))).len()) <= count,
            r is Err ==> r == Err::<DiskManager, FsError>(FsError::AllocationExhausted),
            r is Ok ==> {
                let dm = r->Ok_0;
                let root = initial_root(root_view(root_dir));
                &&& dm.wf()
                &&& dm.disk.blocks() == count
                &&& dm.cur_dir@ == root
                &&& holds_dir(dm.disk, root, 0)
                &&& root_table(dm.disk.fat@, blocks_needed(dir_bytes(root).len()))
                &&& accounted(dm.disk.fat@, seq![0usize])
            },
    {
        let disk = Disk::with_block_count(count);
        let ghost given = root_view(root_dir);
        let mut root = match root_dir {
            Some(d) => d,
            None => {
                let d = Directory::new("root");
                proof {
                    reveal_strlit("root");
                    assert("root"@ =~= seq!['r', 'o', 'o', 't']);
                }
                d
            },
        };
        root.set_first_cluster_at(0, 0);
        root.set_first_cluster_at(1, 0);
        proof {
            assert(root@.files =~= initial_root(given).files);
            assert(rebound(root@, 0).files =~= root@.files);
        }
        let mut dm = DiskManager { disk, cur_dir: root };
        let bytes = dm.cur_dir.to_bytes();
        let ghost fat0 = dm.disk.fat@;
        proof {
            lemma_free_list_all(fat0);
        }
        let first = dm.write_data_to_disk(bytes.as_slice())?;
        assert(first == 0);
        proof {
            let n = blocks_needed(bytes@.len());
            let fl = free_list(fat0);
            let sq = fl.take(n as int);
            let fat = dm.disk.fat@;
            assert forall|i: int| 0 <= i < n - 1 implies #[trigger] fat[i] == FatItem::ClusterNo((i + 1) as usize) by {
                assert(sq[i] == i && sq[i + 1] == i + 1);
            }
            assert(sq.last() == n - 1);
            assert forall|i: int| n <= i < fat.len() implies #[trigger] fat[i] == FatItem::NotUsed by {
                if sq.contains(i as usize) {
                    let k = choose|k: int| 0 <= k < sq.len() && sq[k] == i as usize;
                    assert(sq[k] == k);
                }
            }
            assert(accounted(fat0, Seq::<usize>::empty())) by {
                assert forall|i: int| 0 <= i < fat0.len() && crate::chain::in_use(#[trigger] fat0[i]) implies false by {}
            }
            lemma_write_keeps_accounts(fat0, Seq::<usize>::empty(), fat, n);
            assert(Seq::<usize>::empty().push(fl[0]) =~= seq![0usize]);
        }
        Ok(dm)
    }

    /// Writes the open directory back to disk and gives the first block of
    /// its chain. The chain that its `.` entry points at is rewritten in
    /// place when the byte form still takes as many blocks; otherwise it is
    /// reallocated (first fit) and `.` is re-pointed at the new first block
    /// before the bytes are written. On failure nothing changes.
    pub fn save_directory_to_disk(&mut self) -> (r: Result<usize, FsError>)
        requires
            old(self).wf(),
        ensures
            final(self).wf(),
            r is Ok <==> save_error(*old(self)) is None,
            r matches Err(e) ==> save_error(*old(self)) == Some(e),
            ({
                let b = old(self).cur_dir@.files[1].first_cluster;
                let n = blocks_needed(dir_bytes(old(self).cur_dir@).len());
                let t = trace(old(self).disk.fat@, b);
                let mid = free_blocks(old(self).disk.fat@, t->Ok_0);
                &&& r is Ok <==> (t is Ok && (t->Ok_0.len() == n || free_list(mid).len() >= n))
                &&& match r {
                    Ok(f) => {
                        &&& final(self).cur_dir@ == rebound(old(self).cur_dir@, f)
                        &&& holds_dir(final(self).disk, old(self).cur_dir@, f)
                        &&& if t->Ok_0.len() == n {
                            &&& f == b
                            &&& final(self).disk.fat@ == old(self).disk.fat@
                            &&& forall|x: int|
                                0 <= x < old(self).disk.blocks() && !t->Ok_0.contains(x as usize)
                                    ==> #[trigger] final(self).disk.block(x) == old(self).disk.block(x)
                        } else {
                            let v = free_list(mid).take(n as int);
                            &&& f == v[0]
                            &&& is_linked(mid, final(self).disk.fat@, v)
                            &&& forall|x: int|
                                0 <= x < old(self).disk.blocks() && !v.contains(x as usize)
                                    ==> #[trigger] final(self).disk.block(x) == old(self).disk.block(x)
                        }
                    },
                    Err(e) => same_state(*old(self), *final(self)) && match t {
                        Ok(_) => e == FsError::AllocationExhausted,
                        Err(te) => e == te,
                    },
                }
            }),
    {
        let b = self.cur_dir.get(1).first_cluster();
        let data = self.cur_dir.to_bytes();
        let (insert_eof, clusters_needed) = DiskManager::calc_clusters_needed_with_eof(data.len());
        let clusters = self.get_file_clusters(b)?;
        if clusters.len() == clusters_needed {
            proof {
                lemma_chain_distinct(self.disk.fat@, b as nat, self.disk.fat@.len());
                assert(rebound(self.cur_dir@, b).files =~= self.cur_dir@.files);
            }
            self.disk.write_data_by_clusters_with_eof(data.as_slice(), clusters.as_slice(), insert_eof);
            proof {
                let s = clusters@;
                assert forall|k: int| 0 <= k < s.len() implies #[trigger] block_of(self.disk.bytes(), s[k] as int)
                    == block_image(data@, k, s.len() as int, insert_eof) by {
                    assert(self.disk.block(s[k] as int) == block_image(data@, k, s.len() as int, insert_eof));
                }
                lemma_written_reads_back(self.disk.bytes(), s, data@, insert_eof);
            }
            return Ok(b);
        }
        let v = self.reallocate_free_space_on_fat(b, clusters_needed)?;
        let f = v[0];
        proof {
            lemma_rebound_len(self.cur_dir@, f);
        }
        self.cur_dir.set_first_cluster_at(1, f);
        let data = self.cur_dir.to_bytes();
        proof {
            assert(v@.no_duplicates()) by {
                assert forall|i: int, j: int| 0 <= i < v@.len() && 0 <= j < v@.len() && i != j implies v@[i] != v@[j] by {
                    if i < j { assert(v@[i] < v@[j]); } else { assert(v@[j] < v@[i]); }
                }
            }
        }
        self.disk.write_data_by_clusters_with_eof(data.as_slice(), v.as_slice(), insert_eof);
        proof {
            let s = v@;
            let fat = self.disk.fat@;
            let mid = free_blocks(old(self).disk.fat@, clusters@);
            lemma_free_list(mid);
            lemma_linked_chain(mid, fat, s, 0, fat.len());
            assert(s.subrange(0, s.len() as int) =~= s);
            assert forall|k: int| 0 <= k < s.len() implies #[trigger] block_of(self.disk.bytes(), s[k] as int)
                == block_image(data@, k, s.len() as int, insert_eof) by {
                assert(self.disk.block(s[k] as int) == block_image(data@, k, s.len() as int, insert_eof));
            }
            lemma_written_reads_back(self.disk.bytes(), s, data@, insert_eof);
            assert(rebound(old(self).cur_dir@, f).files =~= self.cur_dir@.files);
        }
        Ok(f)
    }

    /// Makes the directory entry `name` of the open directory the open
    /// directory (`..` and `.` included): the open directory is first saved
    /// (see `save_directory_to_disk`), then the target is read from its
    /// chain. When saving fails nothing changes; when reading the target
    /// fails the open directory stays open, saved.
    pub fn set_current_directory(&mut self, name: &str) -> (r: Result<(), FsError>)
        requires
            old(self).wf(),
        ensures
            final(self).wf(),
            match index_of(old(self).cur_dir@.files, name@) {
                None => r == Err::<(), FsError>(FsError::NotFound) && same_state(*old(self), *final(self)),
                Some(i) => if old(self).cur_dir@.files[i].file_type == FileType::File {
                    r == Err::<(), FsError>(FsError::WrongKind) && same_state(*old(self), *final(self))
                } else {
                    match save_error(*old(self)) {
                        Some(e) => r == Err::<(), FsError>(e) && same_state(*old(self), *final(self)),
                        None => exists|f: usize| {
                        let target = if i == 1 {
                            f
                        } else {
                            old(self).cur_dir@.files[i].first_cluster
                        };
                        &&& #[trigger] holds_dir(final(self).disk, old(self).cur_dir@, f)
                        &&& match load_dir(final(self).disk, target) {
                            Ok(d) => r is Ok && final(self).cur_dir@ == d,
                            Err(e) => r == Err::<(), FsError>(e) && final(self).cur_dir@ == rebound(
                                old(self).cur_dir@,
                                f,
                            ),
                        }
                    }
                    }
                },
            },
    {
        proof {
            lemma_index_of(old(self).cur_dir@.files, name@);
        }
        let index = match self.cur_dir.get_index_by_name(name) {
            Some(i) => i,
            None => return Err(FsError::NotFound),
        };
        if let FileType::File = self.cur_dir.get(index).file_type() {
            return Err(FsError::WrongKind);
        }
        let f = self.save_directory_to_disk()?;
        let dir_fcb = self.cur_dir.get(index).duplicate();
        assert(dir_fcb@.file_type == FileType::Directory);
        let dir = self.get_directory_by_fcb(&dir_fcb)?;
        self.cur_dir = dir;
        assert(holds_dir(self.disk, old(self).cur_dir@, f));
        Ok(())
    }
}

/// Freeing a chain twice fails: once the chain from `first` has been freed,
/// walking it again breaks down, so a second free reports a corrupt chain.
pub proof fn lemma_free_chain_twice(fat: Seq<FatItem>, first: usize)
    requires
        fat.len() <= usize::MAX,
        trace(fat, first) is Ok,
    ensures
        trace(free_blocks(fat, trace(fat, first)->Ok_0), first) matches Err(FsError::CorruptChain(_)),
{
    let s = trace(fat, first)->Ok_0;
    let freed = free_blocks(fat, s);
    assert(is_freed(fat, freed, s));
    lemma_free_twice_fails(fat, freed, first as nat, fat.len());
}

/// A directory saved at block `first` (as `save_directory_to_disk` leaves
/// it) reads back from that block as the same directory, re-pointed there.
pub proof fn lemma_saved_dir_loads(disk: Disk, d: DirectoryView, first: usize)
    requires
        dir_wf(d),
        encodable(d),
        holds_dir(disk, d, first),
    ensures
        load_dir(disk, first) == Ok::<DirectoryView, FsError>(rebound(d, first)),
{
    let e = rebound(d, first);
    let bytes = dir_bytes(e);
    let s = chain(disk.fat@, first)->Ok_0;
    let raw = blocks_of(disk.bytes(), s);
    assert(e.files =~= d.files.update(1, FcbView { first_cluster: first, ..d.files[1] }));
    assert forall|i: int, j: int| 0 <= i < j < e.files.len() implies #[trigger] e.files[i].name != #[trigger] e.files[j].name by {
        assert(e.files[i].name == d.files[i].name && e.files[j].name == d.files[j].name);
    }
    assert forall|i: int| 2 <= i < e.files.len() implies valid_name(#[trigger] e.files[i].name) by {
        assert(e.files[i] == d.files[i]);
    }
    assert forall|i: int| 0 <= i < e.files.len() && #[trigger] e.files[i].file_type == FileType::Directory implies e.files[i].length == 0 by {
        assert(e.files[i].length == d.files[i].length && e.files[i].file_type == d.files[i].file_type);
    }
    assert forall|k: int| 0 <= k < e.files.len() implies vstd::utf8::encode_utf8(#[trigger] e.files[k].name).len() <= u64::MAX by {
        assert(e.files[k].name == d.files[k].name);
    }
    let tail = if needs_eof(bytes.len()) {
        lemma_trim_prefix(raw);
        raw.subrange(bytes.len() as int, raw.len() as int)
    } else {
        Seq::<u8>::empty()
    };
    assert(raw == bytes + tail) by {
        if !needs_eof(bytes.len()) {
            assert(bytes + tail =~= bytes);
        }
    }
    lemma_dir_bytes_round_trip(e, tail);
}

/// Writing a payload (as `write_data_to_disk`, `create_file_with_data` and
/// `new_directory_to_disk` do: the first `n` free blocks wired into a
/// chain) keeps the table accounted for, with the new chain as one more.
pub proof fn lemma_write_keeps_accounts(fat: Seq<FatItem>, heads: Seq<usize>, new: Seq<FatItem>, n: nat)
    requires
        fat.len() <= usize::MAX,
        accounted(fat, heads),
        1 <= n <= free_list(fat).len(),
        is_linked(fat, new, free_list(fat).take(n as int)),
    ensures
        accounted(new, heads.push(free_list(fat)[0])),
{
    let s = free_list(fat).take(n as int);
    lemma_free_list(fat);
    assert forall|k: int| 0 <= k < s.len() implies #[trigger] s[k] < fat.len() && fat[s[k] as int]
        == FatItem::NotUsed by {
        assert(s[k] == free_list(fat)[k]);
    }
    lemma_conservation_allocate(fat, heads, new, s);
}

/// Deleting (as `delete_file_by_name` and `delete_space_on_fat` do: the
/// chain of one head marked free) keeps the table accounted for by the
/// other heads.
pub proof fn lemma_delete_keeps_accounts(fat: Seq<FatItem>, heads: Seq<usize>, k: int)
    requires
        fat.len() <= usize::MAX,
        accounted(fat, heads),
        0 <= k < heads.len(),
    ensures
        trace(fat, heads[k]) is Ok,
        accounted(free_blocks(fat, trace(fat, heads[k])->Ok_0), heads.remove(k)),
{
    assert(crate::chain::chain(fat, heads[k]) is Ok);
    let s = trace(fat, heads[k])->Ok_0;
    assert(is_freed(fat, free_blocks(fat, s), s));
    lemma_conservation_free(fat, heads, free_blocks(fat, s), k);
}

} // verus!
