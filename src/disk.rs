//! The block store and its allocation table.
use vstd::prelude::*;

verus! {

/// Size in bytes of one block (cluster).
pub const BLOCK_SIZE: usize = 1024;

/// Number of blocks that the default disk is laid out for.
pub const BLOCK_COUNT: usize = 1000;

/// Bytes that one allocation-table entry occupies when the disk is stored.
pub const FAT_ENTRY_BYTES: usize = 16;

/// Blocks left for data on the default disk, once the space that the
/// allocation table takes is set aside.
pub const DATA_BLOCKS: usize = BLOCK_COUNT - FAT_ENTRY_BYTES * BLOCK_COUNT / BLOCK_SIZE - 1;

/// Marks the end of the payload in a final block that the payload does not fill.
pub const EOF_BYTE: u8 = 255;

/// State of one block in the allocation table.
#[derive(Clone, Copy, Debug, PartialEq, Eq, Structural)]
pub enum FatItem {
    /// The block is free.
    NotUsed,
    /// The block is in use and the chain goes on at the given block.
    ClusterNo(usize),
    /// The block is defective: never allocated, skipped when a chain is walked.
    BadCluster,
    /// The block is in use and ends its chain.
    EoF,
}

/// The block store together with its allocation table, one entry per block.
pub struct Disk {
    pub fat: Vec<FatItem>,
    pub data: Vec<u8>,
}

/// The bytes of block `i` within the byte region `bytes`.
pub open spec fn block_of(bytes: Seq<u8>, i: int) -> Seq<u8> {
    bytes.subrange(i * BLOCK_SIZE, (i + 1) * BLOCK_SIZE)
}

/// `n` zero bytes.
pub open spec fn zeros(n: nat) -> Seq<u8> {
    Seq::new(n, |i: int| 0u8)
}

/// What block `k` of a chain of `n` blocks holds once `data` is written across
/// the chain: a full slice of the data for every block but the last; the rest
/// of the data in the last, then the sentinel byte when `eof` is set, then zeros.
pub open spec fn block_image(data: Seq<u8>, k: int, n: int, eof: bool) -> Seq<u8> {
    if k < n - 1 {
        data.subrange(k * BLOCK_SIZE, (k + 1) * BLOCK_SIZE)
    } else {
        let tail = data.subrange(k * BLOCK_SIZE, data.len() as int);
        let marked = if eof { tail.push(EOF_BYTE) } else { tail };
        marked + zeros((BLOCK_SIZE - marked.len()) as nat)
    }
}

/// Whether `len` bytes, with the sentinel when `eof` is set, fill all but
/// possibly the last of `n` blocks and fit in them.
pub open spec fn fits_blocks(len: int, n: int, eof: bool) -> bool {
    &&& n >= 1
    &&& (n - 1) * BLOCK_SIZE <= len
    &&& len + (if eof { 1int } else { 0int }) <= n * BLOCK_SIZE
}

/// The blocks `cl` of the byte region `bytes`, concatenated in order.
pub open spec fn blocks_of(bytes: Seq<u8>, cl: Seq<usize>) -> Seq<u8>
    decreases cl.len(),
{
    if cl.len() == 0 {
        Seq::empty()
    } else {
        blocks_of(bytes, cl.drop_last()) + block_of(bytes, cl.last() as int)
    }
}

/// Position of the last sentinel byte among `raw[lo..hi]`, if there is one.
pub open spec fn sentinel_at(raw: Seq<u8>, hi: int, lo: int) -> Option<int>
    decreases hi - lo,
{
    if hi <= lo {
        None
    } else if raw[hi - 1] == EOF_BYTE {
        Some(hi - 1)
    } else {
        sentinel_at(raw, hi - 1, lo)
    }
}

/// `raw` cut at the last sentinel byte within its final block (the sentinel
/// itself dropped); `raw` unchanged when that block holds no sentinel.
pub open spec fn trim_eof(raw: Seq<u8>) -> Seq<u8> {
    let lo = if raw.len() >= BLOCK_SIZE { raw.len() - BLOCK_SIZE } else { 0 };
    match sentinel_at(raw, raw.len() as int, lo) {
        Some(j) => raw.subrange(0, j),
        None => raw,
    }
}

/// `n` blocks that each hold their `block_image` of `data` concatenate to
/// the data, then the sentinel byte when `eof` is set, then zeros.
pub proof fn lemma_blocks_image(bytes: Seq<u8>, s: Seq<usize>, data: Seq<u8>, eof: bool, m: int)
    requires
        fits_blocks(data.len() as int, s.len() as int, eof),
        forall|k: int|
            0 <= k < s.len() ==> #[trigger] block_of(bytes, s[k] as int) == block_image(
                data,
                k,
                s.len() as int,
                eof,
            ),
        0 <= m <= s.len(),
    ensures
        m < s.len() ==> blocks_of(bytes, s.take(m)) == data.subrange(0, m * BLOCK_SIZE),
        m == s.len() ==> blocks_of(bytes, s.take(m)) == (if eof {
            data.push(EOF_BYTE)
        } else {
            data
        }) + zeros((s.len() * BLOCK_SIZE - data.len() - (if eof { 1int } else { 0int })) as nat),
    decreases m,
{
    let n = s.len() as int;
    if m == 0 {
        assert(s.take(0).len() == 0);
        assert(data.subrange(0, 0) =~= Seq::<u8>::empty());
    } else {
        lemma_blocks_image(bytes, s, data, eof, m - 1);
        assert(s.take(m).drop_last() =~= s.take(m - 1));
        assert(s.take(m).last() == s[m - 1]);
        let img = block_image(data, m - 1, n, eof);
        assert(block_of(bytes, s[m - 1] as int) == img);
        if m < n {
            assert(data.subrange(0, (m - 1) * BLOCK_SIZE) + data.subrange((m - 1) * BLOCK_SIZE, m * BLOCK_SIZE)
                =~= data.subrange(0, m * BLOCK_SIZE));
        } else {
            let tail = data.subrange((m - 1) * BLOCK_SIZE, data.len() as int);
            let marked = if eof { tail.push(EOF_BYTE) } else { tail };
            let z = (BLOCK_SIZE - marked.len()) as nat;
            assert(img == marked + zeros(z));
            assert(data.subrange(0, (m - 1) * BLOCK_SIZE) + (marked + zeros(z)) =~= (if eof {
                data.push(EOF_BYTE)
            } else {
                data
            }) + zeros((s.len() * BLOCK_SIZE - data.len() - (if eof { 1int } else { 0int })) as nat));
        }
    }
}

/// In the data, the sentinel byte, then zeros, the last sentinel sits right
/// after the data.
pub proof fn lemma_sentinel_after(data: Seq<u8>, z: nat, hi: int, lo: int)
    requires
        lo <= data.len() < hi <= data.len() + 1 + z,
    ensures
        sentinel_at(data.push(EOF_BYTE) + zeros(z), hi, lo) == Some(data.len() as int),
    decreases hi,
{
    let raw = data.push(EOF_BYTE) + zeros(z);
    if hi - 1 > data.len() {
        assert(raw[hi - 1] == 0);
        lemma_sentinel_after(data, z, hi - 1, lo);
    } else {
        assert(raw[hi - 1] == EOF_BYTE);
    }
}

/// Data written across a chain with `block_image` reads back whole: cut at
/// its sentinel when one was written, as it stands when not.
pub proof fn lemma_written_reads_back(bytes: Seq<u8>, s: Seq<usize>, data: Seq<u8>, eof: bool)
    requires
        fits_blocks(data.len() as int, s.len() as int, eof),
        !eof ==> data.len() == s.len() * BLOCK_SIZE,
        forall|k: int|
            0 <= k < s.len() ==> #[trigger] block_of(bytes, s[k] as int) == block_image(
                data,
                k,
                s.len() as int,
                eof,
            ),
    ensures
        (if eof { trim_eof(blocks_of(bytes, s)) } else { blocks_of(bytes, s) }) == data,
{
    let n = s.len() as int;
    lemma_blocks_image(bytes, s, data, eof, n);
    assert(s.take(n) =~= s);
    if eof {
        let z = (n * BLOCK_SIZE - data.len() - 1) as nat;
        let raw = data.push(EOF_BYTE) + zeros(z);
        assert(raw.len() == n * BLOCK_SIZE);
        lemma_sentinel_after(data, z, raw.len() as int, raw.len() - BLOCK_SIZE);
        assert(raw.subrange(0, data.len() as int) =~= data);
    } else {
        assert(data + zeros(0) =~= data);
    }
}


proof fn lemma_sentinel_range(raw: Seq<u8>, hi: int, lo: int)
    ensures
        sentinel_at(raw, hi, lo) matches Some(j) ==> lo <= j < hi,
    decreases hi - lo,
{
    if hi > lo && raw[hi - 1] != EOF_BYTE {
        lemma_sentinel_range(raw, hi - 1, lo);
    }
}

/// Cutting at the sentinel keeps a prefix.
pub proof fn lemma_trim_prefix(raw: Seq<u8>)
    ensures
        trim_eof(raw).len() <= raw.len(),
        raw == trim_eof(raw) + raw.subrange(trim_eof(raw).len() as int, raw.len() as int),
{
    let lo = if raw.len() >= BLOCK_SIZE { raw.len() - BLOCK_SIZE } else { 0 };
    lemma_sentinel_range(raw, raw.len() as int, lo as int);
    assert(raw =~= trim_eof(raw) + raw.subrange(trim_eof(raw).len() as int, raw.len() as int));
}

/// The bytes that block `k` of a chain of `n` blocks receives (see `block_image`).
fn make_block_image(data: &[u8], k: usize, n: usize, eof: bool) -> (r: Vec<u8>)
    requires
        k < n,
        fits_blocks(data@.len() as int, n as int, eof),
    ensures
        r@ == block_image(data@, k as int, n as int, eof),
        r@.len() == BLOCK_SIZE,
{
    let len = data.len();
    assert(k * BLOCK_SIZE <= (n - 1) * BLOCK_SIZE);
    let start = k * BLOCK_SIZE;
    let end = if k < n - 1 {
        start + BLOCK_SIZE
    } else {
        data.len()
    };
    let mut r: Vec<u8> = Vec::with_capacity(BLOCK_SIZE);
    let mut i = start;
    while i < end
        invariant
            start <= i <= end <= data@.len(),
            end - start <= BLOCK_SIZE,
            r@ =~= data@.subrange(start as int, i as int),
        decreases end - i,
    {
        r.push(data[i]);
        i += 1;
    }
    let ghost marked_start = r@;
    if k == n - 1 && eof {
        r.push(EOF_BYTE);
    }
    let ghost marked = r@;
    while r.len() < BLOCK_SIZE
        invariant
            marked.len() <= r@.len() <= BLOCK_SIZE,
            r@ =~= marked + zeros((r@.len() - marked.len()) as nat),
        decreases BLOCK_SIZE - r@.len(),
    {
        r.push(0u8);
    }
    r
}

impl Disk {
    /// The whole data region.
    pub open spec fn bytes(&self) -> Seq<u8> {
        self.data@
    }

    /// Number of blocks, which is the length of the allocation table.
    pub open spec fn blocks(&self) -> nat {
        self.fat@.len()
    }

    /// One allocation-table entry per block of the data region, and at least one block.
    pub open spec fn wf(&self) -> bool {
        &&& self.bytes().len() == self.blocks() * BLOCK_SIZE
        &&& self.bytes().len() <= usize::MAX
        &&& self.blocks() >= 1
    }

    /// The bytes of block `i`.
    pub open spec fn block(&self, i: int) -> Seq<u8> {
        block_of(self.bytes(), i)
    }

    /// A disk of the default layout: every block free and zeroed.
    pub fn new() -> (d: Disk)
        ensures
            d.wf(),
            d.blocks() == DATA_BLOCKS,
            forall|i: int| 0 <= i < d.blocks() ==> d.fat@[i] == FatItem::NotUsed,
            forall|i: int| 0 <= i < d.bytes().len() ==> d.bytes()[i] == 0,
    {
        Disk::with_block_count(DATA_BLOCKS)
    }

    /// A disk of `count` blocks: every block free and zeroed.
    pub fn with_block_count(count: usize) -> (d: Disk)
        requires
            1 <= count <= usize::MAX / BLOCK_SIZE,
        ensures
            d.wf(),
            d.blocks() == count,
            forall|i: int| 0 <= i < d.blocks() ==> d.fat@[i] == FatItem::NotUsed,
            forall|i: int| 0 <= i < d.bytes().len() ==> d.bytes()[i] == 0,
    {
        let fat = vec![FatItem::NotUsed; count];
        let data = vec![0u8; count * BLOCK_SIZE];
        Disk { fat, data }
    }

    /// Overwrites `data.len()` bytes of the data region from `offset` on.
    pub fn insert_data_by_offset(&mut self, data: &[u8], offset: usize)
        requires
            offset + data@.len() <= old(self).bytes().len(),
        ensures
            final(self).fat@ == old(self).fat@,
            final(self).bytes() == old(self).bytes().subrange(0, offset as int) + data@
                + old(self).bytes().subrange(
                offset + data@.len(),
                old(self).bytes().len() as int,
            ),
    {
        let ghost start = self.data@;
        let total = self.data.len();
        let mut i: usize = 0;
        while i < data.len()
            invariant
                i <= data@.len(),
                offset + data@.len() <= start.len(),
                self.fat@ == old(self).fat@,
                start == old(self).bytes(),
                total == start.len(),
                self.data@.len() == start.len(),
                forall|j: int|
                    0 <= j < start.len() ==> #[trigger] self.data@[j] == if offset <= j < offset + i {
                        data@[j - offset]
                    } else {
                        start[j]
                    },
            decreases data@.len() - i,
        {
            self.data[offset + i] = data[i];
            i += 1;
        }
        assert(self.data@ =~= start.subrange(0, offset as int) + data@ + start.subrange(
            offset + data@.len(),
            start.len() as int,
        ));
    }

    /// Overwrites the bytes from the start of block `cluster` on.
    pub fn insert_data_by_cluster(&mut self, data: &[u8], cluster: usize)
        requires
            old(self).wf(),
            cluster < old(self).blocks(),
            cluster * BLOCK_SIZE + data@.len() <= old(self).bytes().len(),
        ensures
            final(self).wf(),
            final(self).fat@ == old(self).fat@,
            final(self).bytes() == old(self).bytes().subrange(0, cluster * BLOCK_SIZE) + data@
                + old(self).bytes().subrange(
                cluster * BLOCK_SIZE + data@.len(),
                old(self).bytes().len() as int,
            ),
            data@.len() == BLOCK_SIZE ==> final(self).block(cluster as int) == data@,
            data@.len() == BLOCK_SIZE ==> forall|b: int|
                0 <= b < old(self).blocks() && b != cluster ==> #[trigger] final(self).block(b)
                    == old(self).block(b),
    {
        self.insert_data_by_offset(data, cluster * BLOCK_SIZE);
        if data.len() == BLOCK_SIZE {
            assert(self.block(cluster as int) =~= data@);
            assert forall|b: int|
                0 <= b < old(self).blocks() && b != cluster implies #[trigger] self.block(b)
                == old(self).block(b) by {
                assert(self.block(b) =~= old(self).block(b));
            }
        }
    }

    /// The bytes of block `cluster`.
    pub fn read_data_by_cluster(&self, cluster: usize) -> (r: Vec<u8>)
        requires
            self.wf(),
            cluster < self.blocks(),
        ensures
            r@ == self.block(cluster as int),
    {
        let start = cluster * BLOCK_SIZE;
        let mut r: Vec<u8> = Vec::with_capacity(BLOCK_SIZE);
        let mut i: usize = 0;
        while i < BLOCK_SIZE
            invariant
                i <= BLOCK_SIZE,
                start == cluster * BLOCK_SIZE,
                start + BLOCK_SIZE <= self.data@.len(),
                r@ =~= self.data@.subrange(start as int, start + i),
            decreases BLOCK_SIZE - i,
        {
            r.push(self.data[start + i]);
            i += 1;
        }
        r
    }

    /// Writes `data` across the blocks `clusters` in order, a block's worth
    /// to each; the last block gets what remains, then the sentinel byte when
    /// `insert_eof` is set, then zeros.
    pub fn write_data_by_clusters_with_eof(
        &mut self,
        data: &[u8],
        clusters: &[usize],
        insert_eof: bool,
    )
        requires
            old(self).wf(),
            clusters@.no_duplicates(),
            forall|k: int| 0 <= k < clusters@.len() ==> #[trigger] clusters@[k] < old(self).blocks(),
            fits_blocks(data@.len() as int, clusters@.len() as int, insert_eof),
        ensures
            final(self).wf(),
            final(self).fat@ == old(self).fat@,
            forall|k: int|
                0 <= k < clusters@.len() ==> #[trigger] final(self).block(clusters@[k] as int)
                    == block_image(data@, k, clusters@.len() as int, insert_eof),
            forall|b: int|
                0 <= b < old(self).blocks() && !clusters@.contains(b as usize)
                    ==> #[trigger] final(self).block(b) == old(self).block(b),
    {
        let n = clusters.len();
        let mut i: usize = 0;
        while i < n
            invariant
                n == clusters@.len(),
                i <= n,
                self.wf(),
                self.fat@ == old(self).fat@,
                clusters@.no_duplicates(),
                forall|k: int| 0 <= k < clusters@.len() ==> #[trigger] clusters@[k] < old(self).blocks(),
                fits_blocks(data@.len() as int, n as int, insert_eof),
                forall|k: int|
                    0 <= k < i ==> #[trigger] self.block(clusters@[k] as int) == block_image(
                        data@,
                        k,
                        n as int,
                        insert_eof,
                    ),
                forall|b: int|
                    0 <= b < old(self).blocks() && !clusters@.subrange(0, i as int).contains(
                        b as usize,
                    ) ==> #[trigger] self.block(b) == old(self).block(b),
            decreases n - i,
        {
            let buf = make_block_image(data, i, n, insert_eof);
            let c = clusters[i];
            self.insert_data_by_cluster(buf.as_slice(), c);
            proof {
                assert forall|k: int| 0 <= k < i implies clusters@[k] != c by {
                    assert(clusters@[k] != clusters@[i as int]);
                }
                assert forall|b: int|
                    0 <= b < old(self).blocks() && !clusters@.subrange(0, i + 1).contains(
                        b as usize,
                    ) implies #[trigger] self.block(b) == old(self).block(b) by {
                    if clusters@.subrange(0, i as int).contains(b as usize) {
                        let j = choose|j: int| 0 <= j < i && clusters@.subrange(0, i as int)[j] == b as usize;
                        assert(clusters@.subrange(0, i + 1)[j] == b as usize);
                    }
                    assert(clusters@.subrange(0, i + 1)[i as int] == c);
                }
            }
            i += 1;
        }
        assert(clusters@.subrange(0, n as int) =~= clusters@);
    }

    /// The blocks `clusters` concatenated in order.
    pub fn read_data_by_clusters(&self, clusters: &[usize]) -> (r: Vec<u8>)
        requires
            self.wf(),
            forall|k: int| 0 <= k < clusters@.len() ==> #[trigger] clusters@[k] < self.blocks(),
        ensures
            r@ == blocks_of(self.bytes(), clusters@),
            r@.len() == clusters@.len() * BLOCK_SIZE,
    {
        let mut data: Vec<u8> = Vec::new();
        let mut i: usize = 0;
        while i < clusters.len()
            invariant
                i <= clusters@.len(),
                self.wf(),
                forall|k: int| 0 <= k < clusters@.len() ==> #[trigger] clusters@[k] < self.blocks(),
                data@ == blocks_of(self.bytes(), clusters@.subrange(0, i as int)),
                data@.len() == i * BLOCK_SIZE,
            decreases clusters@.len() - i,
        {
            let mut buffer = self.read_data_by_cluster(clusters[i]);
            data.append(&mut buffer);
            proof {
                let pre = clusters@.subrange(0, i + 1);
                assert(pre.drop_last() =~= clusters@.subrange(0, i as int));
            }
            i += 1;
        }
        assert(clusters@.subrange(0, i as int) =~= clusters@);
        data
    }

    /// The blocks `clusters` concatenated, cut at the last sentinel byte
    /// found in the final block; left whole when that block holds none.
    pub fn read_data_by_clusters_without_eof(&self, clusters: &[usize]) -> (r: Vec<u8>)
        requires
            self.wf(),
            clusters@.len() >= 1,
            forall|k: int| 0 <= k < clusters@.len() ==> #[trigger] clusters@[k] < self.blocks(),
        ensures
            r@ == trim_eof(blocks_of(self.bytes(), clusters@)),
    {
        let mut data = self.read_data_by_clusters(clusters);
        let ghost raw = data@;
        let lo = data.len() - BLOCK_SIZE;
        let mut j = data.len();
        while j > lo
            invariant
                lo <= j <= raw.len(),
                lo == raw.len() - BLOCK_SIZE,
                raw.len() >= BLOCK_SIZE,
                raw == blocks_of(self.bytes(), clusters@),
                data@ == raw,
                sentinel_at(raw, raw.len() as int, lo as int) == sentinel_at(raw, j as int, lo as int),
            decreases j - lo,
        {
            if data[j - 1] == EOF_BYTE {
                data.truncate(j - 1);
                assert(data@ =~= raw.subrange(0, j - 1));
                assert(sentinel_at(raw, j as int, lo as int) == Some(j - 1));
                return data;
            }
            j -= 1;
        }
        assert(sentinel_at(raw, lo as int, lo as int) == None::<int>);
        data
    }
}

} // verus!
