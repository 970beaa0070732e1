//! Directory entries and directories.
use vstd::bytes::{
    spec_u32_from_le_bytes, spec_u32_to_le_bytes, spec_u64_from_le_bytes, spec_u64_to_le_bytes,
    u32_from_le_bytes, u32_to_le_bytes, u64_from_le_bytes, u64_to_le_bytes,
};
use vstd::prelude::*;
use vstd::slice::slice_subrange;
use vstd::string::StringSliceAdditionalSpecFns;
use vstd::utf8::{decode_utf8, encode_utf8, valid_utf8};

verus! {

/// What a directory entry stands for.
#[derive(Clone, Copy, Debug, PartialEq, Eq, Structural)]
pub enum FileType {
    File,
    Directory,
}

impl FileType {
    /// The kind's name, for listings.
    pub fn as_str(&self) -> (r: &'static str)
        ensures
            r@ == (match self {
                FileType::File => "File"@,
                FileType::Directory => "Directory"@,
            }),
    {
        match self {
            FileType::File => "File",
            FileType::Directory => "Directory",
        }
    }
}

/// The model of a directory entry.
pub struct FcbView {
    pub name: Seq<char>,
    pub file_type: FileType,
    pub first_cluster: usize,
    pub length: usize,
}

/// The model of a directory: its name and its entries in order.
pub struct DirectoryView {
    pub name: Seq<char>,
    pub files: Seq<FcbView>,
}

/// The name of the entry for the parent directory.
pub open spec fn parent_name() -> Seq<char> {
    seq!['.', '.']
}

/// The name of the entry for the directory itself.
pub open spec fn self_name() -> Seq<char> {
    seq!['.']
}

/// A name that an entry other than `..` and `.` may carry.
pub open spec fn valid_name(name: Seq<char>) -> bool {
    name.len() > 0 && name != parent_name() && name != self_name()
}

/// A directory entry (file control block): name, kind, first block of its
/// chain, and byte length (0 for a directory).
#[derive(Clone, Debug)]
pub struct Fcb {
    name: String,
    file_type: FileType,
    first_cluster: usize,
    length: usize,
}

impl View for Fcb {
    type V = FcbView;

    closed spec fn view(&self) -> FcbView {
        FcbView {
            name: self.name@,
            file_type: self.file_type,
            first_cluster: self.first_cluster,
            length: self.length,
        }
    }
}

impl Fcb {
    pub fn new(name: &str, file_type: FileType, first_cluster: usize, length: usize) -> (r: Fcb)
        ensures
            r@ == (FcbView { name: name@, file_type, first_cluster, length }),
    {
        Fcb { name: name.to_owned(), file_type, first_cluster, length }
    }

    pub fn name(&self) -> (r: &str)
        ensures
            r@ == self@.name,
    {
        self.name.as_str()
    }

    pub fn file_type(&self) -> (r: FileType)
        ensures
            r == self@.file_type,
    {
        self.file_type
    }

    pub fn first_cluster(&self) -> (r: usize)
        ensures
            r == self@.first_cluster,
    {
        self.first_cluster
    }

    pub fn length(&self) -> (r: usize)
        ensures
            r == self@.length,
    {
        self.length
    }

    /// A copy of the entry.
    pub fn duplicate(&self) -> (r: Fcb)
        ensures
            r@ == self@,
    {
        Fcb { name: self.name.clone(), file_type: self.file_type, first_cluster: self.first_cluster, length: self.length }
    }
}

/// Position of the first entry named `name` among `files[from..]`.
pub open spec fn find_name(files: Seq<FcbView>, name: Seq<char>, from: int) -> Option<int>
    decreases files.len() - from,
{
    if from < 0 || from >= files.len() {
        None
    } else if files[from].name == name {
        Some(from)
    } else {
        find_name(files, name, from + 1)
    }
}

/// Position of the entry named `name`, if any.
pub open spec fn index_of(files: Seq<FcbView>, name: Seq<char>) -> Option<int> {
    find_name(files, name, 0)
}

/// Well-formed entries: `..` then `.` first, both directories; every
/// other name valid; names unique; a directory entry has length 0.
pub open spec fn files_wf(files: Seq<FcbView>) -> bool {
    &&& files.len() >= 2
    &&& files[0].name == parent_name()
    &&& files[1].name == self_name()
    &&& files[0].file_type == FileType::Directory
    &&& files[1].file_type == FileType::Directory
    &&& forall|i: int| 0 <= i < files.len() && #[trigger] files[i].file_type == FileType::Directory
        ==> files[i].length == 0
    &&& forall|i: int| 2 <= i < files.len() ==> valid_name(#[trigger] files[i].name)
    &&& forall|i: int, j: int|
        0 <= i < j < files.len() ==> #[trigger] files[i].name != #[trigger] files[j].name
}

/// A well-formed directory (see `files_wf`).
pub open spec fn dir_wf(d: DirectoryView) -> bool {
    files_wf(d.files)
}

/// A named, ordered collection of directory entries.
#[derive(Clone, Debug)]
pub struct Directory {
    name: String,
    files: Vec<Fcb>,
}

impl View for Directory {
    type V = DirectoryView;

    closed spec fn view(&self) -> DirectoryView {
        DirectoryView { name: self.name@, files: self.files@.map_values(|f: Fcb| f@) }
    }
}

proof fn lemma_find_name(files: Seq<FcbView>, name: Seq<char>, from: int)
    requires
        0 <= from <= files.len(),
    ensures
        match find_name(files, name, from) {
            Some(i) => from <= i < files.len() && files[i].name == name && forall|j: int|
                from <= j < i ==> #[trigger] files[j].name != name,
            None => forall|j: int| from <= j < files.len() ==> #[trigger] files[j].name != name,
        },
    decreases files.len() - from,
{
    if from < files.len() && files[from].name != name {
        lemma_find_name(files, name, from + 1);
    }
}

/// In a directory with unique names, the entry found by name is the one
/// that carries the name.
pub proof fn lemma_index_of(files: Seq<FcbView>, name: Seq<char>)
    ensures
        match index_of(files, name) {
            Some(i) => 0 <= i < files.len() && files[i].name == name && forall|j: int|
                0 <= j < i ==> #[trigger] files[j].name != name,
            None => forall|j: int| 0 <= j < files.len() ==> #[trigger] files[j].name != name,
        },
{
    lemma_find_name(files, name, 0);
}


// The byte form of a directory: integers as 8 little-endian bytes, a
// string as its byte length then its UTF-8 bytes, a kind as a 4-byte
// little-endian tag (0 file, 1 directory); a directory is its name, its
// number of entries, then each entry as name, kind, first block, length.

pub open spec fn usize_bytes(x: usize) -> Seq<u8> {
    spec_u64_to_le_bytes(x as u64)
}

pub open spec fn str_bytes(s: Seq<char>) -> Seq<u8> {
    spec_u64_to_le_bytes(encode_utf8(s).len() as u64) + encode_utf8(s)
}

pub open spec fn kind_tag(t: FileType) -> u32 {
    match t {
        FileType::File => 0,
        FileType::Directory => 1,
    }
}

pub open spec fn fcb_bytes(f: FcbView) -> Seq<u8> {
    str_bytes(f.name) + spec_u32_to_le_bytes(kind_tag(f.file_type)) + usize_bytes(f.first_cluster)
        + usize_bytes(f.length)
}

pub open spec fn fcbs_bytes(fs: Seq<FcbView>) -> Seq<u8>
    decreases fs.len(),
{
    if fs.len() == 0 {
        Seq::empty()
    } else {
        fcbs_bytes(fs.drop_last()) + fcb_bytes(fs.last())
    }
}

/// The byte form of a directory.
pub open spec fn dir_bytes(d: DirectoryView) -> Seq<u8> {
    str_bytes(d.name) + usize_bytes(d.files.len() as usize) + fcbs_bytes(d.files)
}

/// An unsigned integer of 8 little-endian bytes at `at`, and the position after it.
pub open spec fn parse_u64(b: Seq<u8>, at: int) -> Option<(u64, int)> {
    if 0 <= at && at + 8 <= b.len() {
        Some((spec_u64_from_le_bytes(b.subrange(at, at + 8)), at + 8))
    } else {
        None
    }
}

/// As `parse_u64`, for a value that fits in `usize`.
pub open spec fn parse_usize(b: Seq<u8>, at: int) -> Option<(usize, int)> {
    match parse_u64(b, at) {
        Some((v, p)) => if v <= usize::MAX {
            Some((v as usize, p))
        } else {
            None
        },
        None => None,
    }
}

/// A string at `at`: its byte length, then that many bytes of valid UTF-8.
pub open spec fn parse_str(b: Seq<u8>, at: int) -> Option<(Seq<char>, int)> {
    match parse_u64(b, at) {
        Some((n, p)) => if p + n <= b.len() && valid_utf8(b.subrange(p, p + n)) {
            Some((decode_utf8(b.subrange(p, p + n)), p + n))
        } else {
            None
        },
        None => None,
    }
}

/// A kind tag at `at`.
pub open spec fn parse_kind(b: Seq<u8>, at: int) -> Option<(FileType, int)> {
    if 0 <= at && at + 4 <= b.len() {
        let t = spec_u32_from_le_bytes(b.subrange(at, at + 4));
        if t == 0 {
            Some((FileType::File, at + 4))
        } else if t == 1 {
            Some((FileType::Directory, at + 4))
        } else {
            None
        }
    } else {
        None
    }
}

/// One entry at `at`.
pub open spec fn parse_fcb(b: Seq<u8>, at: int) -> Option<(FcbView, int)> {
    match parse_str(b, at) {
        Some((name, name_end)) => match parse_kind(b, name_end) {
            Some((t, kind_end)) => match parse_usize(b, kind_end) {
                Some((first, first_end)) => match parse_usize(b, first_end) {
                    Some((length, length_end)) => Some(
                        (FcbView { name, file_type: t, first_cluster: first, length }, length_end),
                    ),
                    None => None,
                },
                None => None,
            },
            None => None,
        },
        None => None,
    }
}

/// `count` entries one after the other from `at`.
pub open spec fn parse_fcbs(b: Seq<u8>, at: int, count: nat) -> Option<(Seq<FcbView>, int)>
    decreases count,
{
    if count == 0 {
        Some((Seq::empty(), at))
    } else {
        match parse_fcb(b, at) {
            Some((f, p)) => match parse_fcbs(b, p, (count - 1) as nat) {
                Some((rest, q)) => Some((seq![f] + rest, q)),
                None => None,
            },
            None => None,
        }
    }
}

/// The directory that the bytes begin with, if they begin with the byte
/// form of a well-formed one; bytes after it are ignored.
pub open spec fn parse_dir(b: Seq<u8>) -> Option<DirectoryView> {
    match parse_str(b, 0) {
        Some((name, name_end)) => match parse_u64(b, name_end) {
            Some((count, count_end)) => match parse_fcbs(b, count_end, count as nat) {
                Some((files, _)) => if files_wf(files) {
                    Some(DirectoryView { name, files })
                } else {
                    None
                },
                None => None,
            },
            None => None,
        },
        None => None,
    }
}

/// `d` with its `.` entry pointing at `first_cluster`.
pub open spec fn rebound(d: DirectoryView, first_cluster: usize) -> DirectoryView {
    DirectoryView { name: d.name, files: d.files.update(1, FcbView { first_cluster, ..d.files[1] }) }
}

/// The byte form of entries depends on their names for its length only.
pub proof fn lemma_fcbs_bytes_len(fs: Seq<FcbView>, gs: Seq<FcbView>)
    requires
        fs.len() == gs.len(),
        forall|k: int| 0 <= k < fs.len() ==> #[trigger] fs[k].name == gs[k].name,
    ensures
        fcbs_bytes(fs).len() == fcbs_bytes(gs).len(),
    decreases fs.len(),
{
    vstd::bytes::lemma_auto_spec_u64_to_from_le_bytes();
    vstd::bytes::lemma_auto_spec_u32_to_from_le_bytes();
    if fs.len() > 0 {
        lemma_fcbs_bytes_len(fs.drop_last(), gs.drop_last());
        assert(fs.last().name == gs.last().name);
    }
}

/// Re-pointing `.` keeps the length of a directory's byte form.
pub proof fn lemma_rebound_len(d: DirectoryView, first_cluster: usize)
    requires
        d.files.len() >= 2,
    ensures
        dir_bytes(rebound(d, first_cluster)).len() == dir_bytes(d).len(),
{
    let e = rebound(d, first_cluster);
    lemma_fcbs_bytes_len(d.files, e.files);
}

/// Whether every string in the directory's byte form has a length that
/// fits its 8-byte prefix.
pub open spec fn encodable(d: DirectoryView) -> bool {
    &&& encode_utf8(d.name).len() <= u64::MAX
    &&& d.files.len() <= usize::MAX
    &&& forall|k: int| 0 <= k < d.files.len() ==> encode_utf8(#[trigger] d.files[k].name).len() <= u64::MAX
}

proof fn lemma_parse_u64_at(b: Seq<u8>, at: int, x: u64)
    requires
        0 <= at,
        at + 8 <= b.len(),
        b.subrange(at, at + 8) == spec_u64_to_le_bytes(x),
    ensures
        parse_u64(b, at) == Some((x, at + 8)),
{
    vstd::bytes::lemma_auto_spec_u64_to_from_le_bytes();
}

/// A piece of bytes that sit at `at` sits at `at + i` from its `i`-th byte on.
proof fn lemma_piece(b: Seq<u8>, at: int, y: Seq<u8>, i: int, j: int)
    requires
        0 <= at,
        at + y.len() <= b.len(),
        b.subrange(at, at + y.len()) == y,
        0 <= i <= j <= y.len(),
    ensures
        b.subrange(at + i, at + j) == y.subrange(i, j),
{
    assert forall|k: int| 0 <= k < j - i implies #[trigger] b.subrange(at + i, at + j)[k] == y.subrange(i, j)[k] by {
        assert(b.subrange(at, at + y.len())[i + k] == y[i + k]);
    }
    assert(b.subrange(at + i, at + j) =~= y.subrange(i, j));
}

proof fn lemma_parse_str_at(b: Seq<u8>, at: int, s: Seq<char>)
    requires
        0 <= at,
        at + str_bytes(s).len() <= b.len(),
        b.subrange(at, at + str_bytes(s).len()) == str_bytes(s),
        encode_utf8(s).len() <= u64::MAX,
    ensures
        parse_str(b, at) == Some((s, at + str_bytes(s).len())),
{
    vstd::bytes::lemma_auto_spec_u64_to_from_le_bytes();
    let e = encode_utf8(s);
    let n = spec_u64_to_le_bytes(e.len() as u64);
    let y = str_bytes(s);
    assert(n.len() == 8);
    lemma_piece(b, at, y, 0, 8);
    assert(y.subrange(0, 8) =~= n);
    lemma_parse_u64_at(b, at, e.len() as u64);
    lemma_piece(b, at, y, 8, y.len() as int);
    assert(y.subrange(8, y.len() as int) =~= e);
    vstd::utf8::encode_utf8_valid_utf8(s);
    vstd::utf8::encode_utf8_decode_utf8(s);
}

proof fn lemma_parse_fcb_at(b: Seq<u8>, at: int, f: FcbView)
    requires
        0 <= at,
        at + fcb_bytes(f).len() <= b.len(),
        b.subrange(at, at + fcb_bytes(f).len()) == fcb_bytes(f),
        encode_utf8(f.name).len() <= u64::MAX,
    ensures
        parse_fcb(b, at) == Some((f, at + fcb_bytes(f).len())),
{
    vstd::bytes::lemma_auto_spec_u64_to_from_le_bytes();
    vstd::bytes::lemma_auto_spec_u32_to_from_le_bytes();
    let sb = str_bytes(f.name);
    let t = spec_u32_to_le_bytes(kind_tag(f.file_type));
    let a = usize_bytes(f.first_cluster);
    let l = usize_bytes(f.length);
    let y = fcb_bytes(f);
    assert(t.len() == 4 && a.len() == 8 && l.len() == 8);
    let name_end = sb.len() as int;
    lemma_piece(b, at, y, 0, name_end);
    assert(y.subrange(0, name_end) =~= sb);
    lemma_parse_str_at(b, at, f.name);
    lemma_piece(b, at, y, name_end, name_end + 4);
    assert(y.subrange(name_end, name_end + 4) =~= t);
    lemma_piece(b, at, y, name_end + 4, name_end + 12);
    assert(y.subrange(name_end + 4, name_end + 12) =~= a);
    lemma_parse_u64_at(b, at + name_end + 4, f.first_cluster as u64);
    lemma_piece(b, at, y, name_end + 12, name_end + 20);
    assert(y.subrange(name_end + 12, name_end + 20) =~= l);
    lemma_parse_u64_at(b, at + name_end + 12, f.length as u64);
}

proof fn lemma_fcbs_bytes_cons(f: FcbView, rest: Seq<FcbView>)
    ensures
        fcbs_bytes(seq![f] + rest) == fcb_bytes(f) + fcbs_bytes(rest),
    decreases rest.len(),
{
    let all = seq![f] + rest;
    if rest.len() == 0 {
        assert(all.drop_last() =~= Seq::<FcbView>::empty());
        assert(all.last() == f);
        assert(fcbs_bytes(Seq::<FcbView>::empty()) == Seq::<u8>::empty());
        assert(fcbs_bytes(all) =~= fcb_bytes(f));
        assert(fcb_bytes(f) + Seq::<u8>::empty() =~= fcb_bytes(f));
    } else {
        lemma_fcbs_bytes_cons(f, rest.drop_last());
        assert(all.drop_last() =~= seq![f] + rest.drop_last());
        assert(all.last() == rest.last());
        assert(fcbs_bytes(all) =~= fcb_bytes(f) + fcbs_bytes(rest));
    }
}

proof fn lemma_parse_fcbs_at(b: Seq<u8>, at: int, fs: Seq<FcbView>)
    requires
        0 <= at,
        at + fcbs_bytes(fs).len() <= b.len(),
        b.subrange(at, at + fcbs_bytes(fs).len()) == fcbs_bytes(fs),
        forall|k: int| 0 <= k < fs.len() ==> encode_utf8(#[trigger] fs[k].name).len() <= u64::MAX,
    ensures
        parse_fcbs(b, at, fs.len()) == Some((fs, at + fcbs_bytes(fs).len())),
    decreases fs.len(),
{
    if fs.len() > 0 {
        let f = fs[0];
        let rest = fs.drop_first();
        assert(fs =~= seq![f] + rest);
        lemma_fcbs_bytes_cons(f, rest);
        let y = fcbs_bytes(fs);
        let fl = fcb_bytes(f).len() as int;
        lemma_piece(b, at, y, 0, fl);
        assert(y.subrange(0, fl) =~= fcb_bytes(f));
        lemma_parse_fcb_at(b, at, f);
        lemma_piece(b, at, y, fl, y.len() as int);
        assert(y.subrange(fl, y.len() as int) =~= fcbs_bytes(rest));
        assert forall|k: int| 0 <= k < rest.len() implies encode_utf8(#[trigger] rest[k].name).len() <= u64::MAX by {
            assert(rest[k] == fs[k + 1]);
        }
        lemma_parse_fcbs_at(b, at + fl, rest);
        assert(seq![f] + rest =~= fs);
    } else {
        assert(fs =~= Seq::<FcbView>::empty());
    }
}

/// A well-formed directory's byte form reads back as the same directory,
/// whatever bytes follow it.
pub proof fn lemma_dir_bytes_round_trip(d: DirectoryView, tail: Seq<u8>)
    requires
        dir_wf(d),
        encodable(d),
    ensures
        parse_dir(dir_bytes(d) + tail) == Some(d),
{
    vstd::bytes::lemma_auto_spec_u64_to_from_le_bytes();
    let b = dir_bytes(d) + tail;
    let sb = str_bytes(d.name);
    let name_end = sb.len() as int;
    assert(b.subrange(0, name_end) =~= sb);
    lemma_parse_str_at(b, 0, d.name);
    assert(b.subrange(name_end, name_end + 8) =~= usize_bytes(d.files.len() as usize));
    lemma_parse_u64_at(b, name_end, d.files.len() as u64);
    let count_end = name_end + 8;
    let fb = fcbs_bytes(d.files);
    assert(b.subrange(count_end, count_end + fb.len()) =~= fb);
    lemma_parse_fcbs_at(b, count_end, d.files);
}

/// Relies on `std::str::from_utf8`: it accepts exactly the byte strings
/// that are well-formed UTF-8, and the `str` it gives has those bytes.
#[verifier::external_body]
fn str_from_utf8(b: &[u8]) -> (r: Option<&str>)
    ensures
        match r {
            Some(s) => valid_utf8(b@) && s.spec_bytes() == b@,
            None => !valid_utf8(b@),
        },
{
    match std::str::from_utf8(b) {
        Ok(s) => Some(s),
        Err(_) => None,
    }
}

fn push_bytes(out: &mut Vec<u8>, b: &[u8])
    ensures
        final(out)@ == old(out)@ + b@,
{
    let mut i: usize = 0;
    while i < b.len()
        invariant
            i <= b@.len(),
            out@ == old(out)@ + b@.subrange(0, i as int),
        decreases b@.len() - i,
    {
        out.push(b[i]);
        i += 1;
        assert(out@ =~= old(out)@ + b@.subrange(0, i as int));
    }
    assert(b@.subrange(0, i as int) =~= b@);
}

fn push_str(out: &mut Vec<u8>, s: &str)
    ensures
        final(out)@ == old(out)@ + str_bytes(s@),
{
    let b = s.as_bytes();
    let n = u64_to_le_bytes(b.len() as u64);
    push_bytes(out, n.as_slice());
    push_bytes(out, b);
    assert(old(out)@ + n@ + b@ =~= old(out)@ + str_bytes(s@));
}

fn parse_u64_at(b: &[u8], at: usize) -> (r: Option<(u64, usize)>)
    ensures
        match r {
            Some((v, p)) => parse_u64(b@, at as int) == Some((v, p as int)),
            None => parse_u64(b@, at as int) == None::<(u64, int)>,
        },
{
    if at <= b.len() && 8 <= b.len() - at {
        let v = u64_from_le_bytes(slice_subrange(b, at, at + 8));
        Some((v, at + 8))
    } else {
        None
    }
}

fn parse_usize_at(b: &[u8], at: usize) -> (r: Option<(usize, usize)>)
    ensures
        match r {
            Some((v, p)) => parse_usize(b@, at as int) == Some((v, p as int)),
            None => parse_usize(b@, at as int) == None::<(usize, int)>,
        },
{
    match parse_u64_at(b, at) {
        Some((v, p)) => if v <= usize::MAX as u64 {
            Some((v as usize, p))
        } else {
            None
        },
        None => None,
    }
}

fn parse_str_at(b: &[u8], at: usize) -> (r: Option<(String, usize)>)
    ensures
        match r {
            Some((s, p)) => parse_str(b@, at as int) == Some((s@, p as int)),
            None => parse_str(b@, at as int) == None::<(Seq<char>, int)>,
        },
{
    let (n, p) = parse_u64_at(b, at)?;
    if n > (b.len() - p) as u64 {
        return None;
    }
    let n = n as usize;
    let bytes = slice_subrange(b, p, p + n);
    match str_from_utf8(bytes) {
        Some(s) => {
            proof {
                vstd::utf8::encode_utf8_decode_utf8(s@);
            }
            Some((s.to_owned(), p + n))
        },
        None => None,
    }
}

fn parse_kind_at(b: &[u8], at: usize) -> (r: Option<(FileType, usize)>)
    ensures
        match r {
            Some((t, p)) => parse_kind(b@, at as int) == Some((t, p as int)),
            None => parse_kind(b@, at as int) == None::<(FileType, int)>,
        },
{
    if at <= b.len() && 4 <= b.len() - at {
        let t = u32_from_le_bytes(slice_subrange(b, at, at + 4));
        if t == 0 {
            Some((FileType::File, at + 4))
        } else if t == 1 {
            Some((FileType::Directory, at + 4))
        } else {
            None
        }
    } else {
        None
    }
}

fn parse_fcb_at(b: &[u8], at: usize) -> (r: Option<(Fcb, usize)>)
    ensures
        match r {
            Some((f, p)) => parse_fcb(b@, at as int) == Some((f@, p as int)),
            None => parse_fcb(b@, at as int) == None::<(FcbView, int)>,
        },
{
    let (name, name_end) = parse_str_at(b, at)?;
    let (file_type, kind_end) = parse_kind_at(b, name_end)?;
    let (first_cluster, first_end) = parse_usize_at(b, kind_end)?;
    let (length, length_end) = parse_usize_at(b, first_end)?;
    Some((Fcb { name, file_type, first_cluster, length }, length_end))
}

fn parse_fcbs_at(b: &[u8], at: usize, count: u64) -> (r: Option<Vec<Fcb>>)
    ensures
        match r {
            Some(v) => parse_fcbs(b@, at as int, count as nat) is Some && parse_fcbs(
                b@,
                at as int,
                count as nat,
            )->Some_0.0 == v@.map_values(|f: Fcb| f@),
            None => parse_fcbs(b@, at as int, count as nat) is None,
        },
{
    let mut v: Vec<Fcb> = Vec::new();
    let mut cur = at;
    let mut left = count;
    while left > 0
        invariant
            parse_fcbs(b@, at as int, count as nat) == match parse_fcbs(b@, cur as int, left as nat) {
                Some((rest, q)) => Some((v@.map_values(|f: Fcb| f@) + rest, q)),
                None => None::<(Seq<FcbView>, int)>,
            },
        decreases left,
    {
        let (f, p) = parse_fcb_at(b, cur)?;
        let ghost before = v@.map_values(|f: Fcb| f@);
        v.push(f);
        proof {
            assert(v@.map_values(|f: Fcb| f@) =~= before.push(f@));
            match parse_fcbs(b@, p as int, (left - 1) as nat) {
                Some((rest, q)) => {
                    assert(before + (seq![f@] + rest) =~= before.push(f@) + rest);
                },
                None => {},
            }
        }
        cur = p;
        left -= 1;
    }
    assert(v@.map_values(|f: Fcb| f@) + Seq::<FcbView>::empty() =~= v@.map_values(|f: Fcb| f@));
    Some(v)
}


fn push_fcb(out: &mut Vec<u8>, f: &Fcb)
    ensures
        final(out)@ == old(out)@ + fcb_bytes(f@),
{
    push_str(out, f.name.as_str());
    let tag: u32 = match f.file_type {
        FileType::File => 0,
        FileType::Directory => 1,
    };
    let t = u32_to_le_bytes(tag);
    push_bytes(out, t.as_slice());
    let a = u64_to_le_bytes(f.first_cluster as u64);
    push_bytes(out, a.as_slice());
    let l = u64_to_le_bytes(f.length as u64);
    push_bytes(out, l.as_slice());
    assert(old(out)@ + str_bytes(f@.name) + t@ + a@ + l@ =~= old(out)@ + fcb_bytes(f@));
}

/// Whether `a` and `b` are the same name.
fn same_name(a: &str, b: &str) -> (r: bool)
    ensures
        r == (a@ == b@),
{
    a.to_owned() == b.to_owned()
}

/// Whether `name` may name an entry other than `..` and `.`.
pub fn is_valid_name(name: &str) -> (r: bool)
    ensures
        r == valid_name(name@),
{
    proof {
        reveal_strlit("..");
        reveal_strlit(".");
        assert(".."@ =~= parent_name());
        assert("."@ =~= self_name());
    }
    !name.is_empty() && !same_name(name, "..") && !same_name(name, ".")
}

fn files_wf_check(files: &Vec<Fcb>) -> (r: bool)
    ensures
        r == files_wf(files@.map_values(|f: Fcb| f@)),
{
    let ghost v = files@.map_values(|f: Fcb| f@);
    proof {
        reveal_strlit("..");
        reveal_strlit(".");
        assert(".."@ =~= parent_name());
        assert("."@ =~= self_name());
    }
    if files.len() < 2 {
        return false;
    }
    if !same_name(files[0].name.as_str(), "..") || !same_name(files[1].name.as_str(), ".") {
        return false;
    }
    if files[0].file_type != FileType::Directory || files[1].file_type != FileType::Directory {
        return false;
    }
    let mut i: usize = 0;
    while i < files.len()
        invariant
            i <= files@.len(),
            v == files@.map_values(|f: Fcb| f@),
            v.len() >= 2,
            ".."@ == parent_name(),
            "."@ == self_name(),
            forall|k: int| 0 <= k < i && #[trigger] v[k].file_type == FileType::Directory ==> v[k].length == 0,
            forall|k: int| 2 <= k < i ==> valid_name(#[trigger] v[k].name),
            forall|k: int, j: int| 0 <= k < j < i ==> #[trigger] v[k].name != #[trigger] v[j].name,
        decreases files@.len() - i,
    {
        let f = &files[i];
        assert(v[i as int] == f@);
        if f.file_type == FileType::Directory && f.length != 0 {
            assert(v[i as int].file_type == FileType::Directory && v[i as int].length != 0);
            return false;
        }
        if i >= 2 {
            let nm = f.name.as_str();
            if nm.is_empty() || same_name(nm, "..") || same_name(nm, ".") {
                assert(!valid_name(v[i as int].name));
                return false;
            }
        }
        let mut j: usize = 0;
        while j < i
            invariant
                j <= i < files@.len(),
                v == files@.map_values(|f: Fcb| f@),
                forall|k: int| 0 <= k < j ==> #[trigger] v[k].name != v[i as int].name,
            decreases i - j,
        {
            if same_name(files[j].name.as_str(), files[i].name.as_str()) {
                assert(v[j as int].name == v[i as int].name);
                return false;
            }
            j += 1;
        }
        i += 1;
    }
    true
}

impl Directory {
    /// A directory named `name` holding only `..` and `.`, both at block 0.
    pub fn new(name: &str) -> (r: Directory)
        ensures
            dir_wf(r@),
            r@.name == name@,
            r@.files == seq![
                FcbView { name: parent_name(), file_type: FileType::Directory, first_cluster: 0, length: 0 },
                FcbView { name: self_name(), file_type: FileType::Directory, first_cluster: 0, length: 0 },
            ],
    {
        let mut files: Vec<Fcb> = Vec::with_capacity(2);
        files.push(Fcb::new("..", FileType::Directory, 0, 0));
        files.push(Fcb::new(".", FileType::Directory, 0, 0));
        proof {
            reveal_strlit("..");
            reveal_strlit(".");
            assert(".."@ =~= parent_name());
            assert("."@ =~= self_name());
        }
        let r = Directory { name: name.to_owned(), files };
        assert(r@.files =~= seq![
            FcbView { name: parent_name(), file_type: FileType::Directory, first_cluster: 0, length: 0 },
            FcbView { name: self_name(), file_type: FileType::Directory, first_cluster: 0, length: 0 },
        ]);
        assert(parent_name().len() != self_name().len());
        r
    }

    pub fn name(&self) -> (r: &str)
        ensures
            r@ == self@.name,
    {
        self.name.as_str()
    }

    /// Number of entries.
    pub fn len(&self) -> (r: usize)
        ensures
            r == self@.files.len(),
    {
        self.files.len()
    }

    /// The entry at position `i`.
    pub fn get(&self, i: usize) -> (r: &Fcb)
        requires
            i < self@.files.len(),
        ensures
            r@ == self@.files[i as int],
    {
        &self.files[i]
    }

    /// The byte form of the directory.
    pub fn to_bytes(&self) -> (r: Vec<u8>)
        ensures
            r@ == dir_bytes(self@),
    {
        let ghost fs = self@.files;
        let mut out: Vec<u8> = Vec::new();
        push_str(&mut out, self.name.as_str());
        let n = u64_to_le_bytes(self.files.len() as u64);
        push_bytes(&mut out, n.as_slice());
        let ghost head = out@;
        let mut i: usize = 0;
        while i < self.files.len()
            invariant
                i <= self.files@.len(),
                fs == self@.files,
                fs.len() == self.files@.len(),
                out@ == head + fcbs_bytes(fs.take(i as int)),
            decreases self.files@.len() - i,
        {
            push_fcb(&mut out, &self.files[i]);
            proof {
                assert(fs.take(i + 1).drop_last() =~= fs.take(i as int));
                assert(fs[i as int] == self.files@[i as int]@);
            }
            i += 1;
        }
        assert(fs.take(i as int) =~= fs);
        out
    }

    /// The directory whose byte form the bytes begin with; `None` when they
    /// do not begin with the byte form of a well-formed directory.
    pub fn from_bytes(b: &[u8]) -> (r: Option<Directory>)
        ensures
            match r {
                Some(d) => parse_dir(b@) == Some(d@),
                None => parse_dir(b@) == None::<DirectoryView>,
            },
    {
        let (name, name_end) = parse_str_at(b, 0)?;
        let (count, count_end) = parse_u64_at(b, name_end)?;
        let files = parse_fcbs_at(b, count_end, count)?;
        if !files_wf_check(&files) {
            return None;
        }
        Some(Directory { name, files })
    }

    /// Appends an entry under a valid name that no entry has yet.
    pub fn push_fcb(&mut self, f: Fcb)
        requires
            dir_wf(old(self)@),
            valid_name(f@.name),
            index_of(old(self)@.files, f@.name) == None::<int>,
            f@.file_type == FileType::Directory ==> f@.length == 0,
        ensures
            dir_wf(final(self)@),
            final(self)@.name == old(self)@.name,
            final(self)@.files == old(self)@.files.push(f@),
    {
        proof {
            lemma_index_of(old(self)@.files, f@.name);
        }
        self.files.push(f);
        assert(self@.files =~= old(self)@.files.push(f@));
    }

    /// Takes out the entry at position `i`, which is neither `..` nor `.`.
    pub fn remove_at(&mut self, i: usize) -> (r: Fcb)
        requires
            dir_wf(old(self)@),
            2 <= i < old(self)@.files.len(),
        ensures
            dir_wf(final(self)@),
            final(self)@.name == old(self)@.name,
            final(self)@.files == old(self)@.files.remove(i as int),
            r@ == old(self)@.files[i as int],
    {
        let r = self.files.remove(i);
        assert(self@.files =~= old(self)@.files.remove(i as int));
        proof {
            let o = old(self)@.files;
            let n = self@.files;
            assert forall|a: int, b: int| 0 <= a < b < n.len() implies #[trigger] n[a].name != #[trigger] n[b].name by {
                let a2 = if a < i { a } else { a + 1 };
                let b2 = if b < i { b } else { b + 1 };
                assert(n[a] == o[a2] && n[b] == o[b2]);
            }
            assert forall|a: int| 2 <= a < n.len() implies valid_name(#[trigger] n[a].name) by {
                let a2 = if a < i { a } else { a + 1 };
                assert(n[a] == o[a2]);
            }
            assert forall|a: int| 0 <= a < n.len() && #[trigger] n[a].file_type == FileType::Directory implies n[a].length == 0 by {
                let a2 = if a < i { a } else { a + 1 };
                assert(n[a] == o[a2]);
            }
        }
        r
    }

    /// Gives the entry at position `i`, which is neither `..` nor `.`, a
    /// valid name that no entry has yet.
    pub fn rename_at(&mut self, i: usize, name: &str)
        requires
            dir_wf(old(self)@),
            2 <= i < old(self)@.files.len(),
            valid_name(name@),
            index_of(old(self)@.files, name@) == None::<int>,
        ensures
            dir_wf(final(self)@),
            final(self)@.name == old(self)@.name,
            final(self)@.files == old(self)@.files.update(
                i as int,
                FcbView { name: name@, ..old(self)@.files[i as int] },
            ),
    {
        proof {
            lemma_index_of(old(self)@.files, name@);
        }
        let f = &self.files[i];
        let g = Fcb::new(name, f.file_type, f.first_cluster, f.length);
        self.files.set(i, g);
        assert(self@.files =~= old(self)@.files.update(
            i as int,
            FcbView { name: name@, ..old(self)@.files[i as int] },
        ));
    }

    /// Points the entry at position `i` at the chain that starts at `first_cluster`.
    pub fn set_first_cluster_at(&mut self, i: usize, first_cluster: usize)
        requires
            dir_wf(old(self)@),
            i < old(self)@.files.len(),
        ensures
            dir_wf(final(self)@),
            final(self)@.name == old(self)@.name,
            final(self)@.files == old(self)@.files.update(
                i as int,
                FcbView { first_cluster, ..old(self)@.files[i as int] },
            ),
    {
        let f = &self.files[i];
        let g = Fcb { name: f.name.clone(), file_type: f.file_type, first_cluster, length: f.length };
        self.files.set(i, g);
        assert(self@.files =~= old(self)@.files.update(
            i as int,
            FcbView { first_cluster, ..old(self)@.files[i as int] },
        ));
    }

    /// Position of the entry named `name`.
    pub fn get_index_by_name(&self, name: &str) -> (r: Option<usize>)
        ensures
            match r {
                Some(i) => index_of(self@.files, name@) == Some(i as int),
                None => index_of(self@.files, name@) == None::<int>,
            },
    {
        let key = name.to_owned();
        let mut i: usize = 0;
        while i < self.files.len()
            invariant
                i <= self@.files.len(),
                key@ == name@,
                find_name(self@.files, name@, 0) == find_name(self@.files, name@, i as int),
            decreases self@.files.len() - i,
        {
            if self.files[i].name == key {
                return Some(i);
            }
            i += 1;
        }
        None
    }

    /// Position and entry of the entry named `name`.
    pub fn get_fcb_by_name(&self, name: &str) -> (r: Option<(usize, &Fcb)>)
        ensures
            match r {
                Some((i, f)) => index_of(self@.files, name@) == Some(i as int) && f@ == self@.files[i as int],
                None => index_of(self@.files, name@) == None::<int>,
            },
    {
        match self.get_index_by_name(name) {
            Some(i) => {
                proof { lemma_index_of(self@.files, name@); }
                Some((i, &self.files[i]))
            },
            None => None,
        }
    }
}

} // verus!
