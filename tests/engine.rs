use fat_disk::directory::{is_valid_name, Directory, Fcb, FileType};
use fat_disk::disk::{Disk, FatItem, BLOCK_SIZE, DATA_BLOCKS, EOF_BYTE};
use fat_disk::error::FsError;
use fat_disk::manager::DiskManager;

fn fresh() -> DiskManager {
    DiskManager::new(None).unwrap()
}

fn payload(len: usize) -> Vec<u8> {
    (0..len).map(|i| (i % 256) as u8).collect()
}

fn round_trip(len: usize) {
    let mut dm = fresh();
    let data = payload(len);
    dm.create_file_with_data("x", &data).unwrap();
    assert_eq!(dm.read_file_by_name("x").unwrap(), data);
}

#[test]
fn round_trip_empty() {
    round_trip(0);
}

#[test]
fn round_trip_short() {
    round_trip(1);
    round_trip(17);
}

#[test]
fn round_trip_block_edges() {
    round_trip(BLOCK_SIZE - 1);
    round_trip(BLOCK_SIZE);
    round_trip(BLOCK_SIZE + 1);
    round_trip(3 * BLOCK_SIZE);
    round_trip(3 * BLOCK_SIZE + 500);
}

#[test]
fn round_trip_sentinel_bytes() {
    let mut dm = fresh();
    let all = vec![EOF_BYTE; 2 * BLOCK_SIZE];
    dm.create_file_with_data("full", &all).unwrap();
    assert_eq!(dm.read_file_by_name("full").unwrap(), all);
    let mut tail = payload(BLOCK_SIZE + 10);
    tail[BLOCK_SIZE + 9] = EOF_BYTE;
    tail[BLOCK_SIZE + 3] = EOF_BYTE;
    dm.create_file_with_data("tail", &tail).unwrap();
    assert_eq!(dm.read_file_by_name("tail").unwrap(), tail);
}

#[test]
fn block_counts_and_sentinel() {
    assert_eq!(DiskManager::calc_clusters_needed_with_eof(0), (true, 1));
    assert_eq!(DiskManager::calc_clusters_needed_with_eof(1), (true, 1));
    assert_eq!(DiskManager::calc_clusters_needed_with_eof(2 * BLOCK_SIZE), (false, 2));
    assert_eq!(DiskManager::calc_clusters_needed_with_eof(2 * BLOCK_SIZE + 1), (true, 3));
}

#[test]
fn four_block_disk_two_and_three_blocks() {
    // Root takes block 0; blocks 1..4 are free.
    let mut dm = DiskManager::with_block_count(4, None).unwrap();
    assert_eq!(dm.get_disk_info(), (4 * BLOCK_SIZE, 1, 3));
    let exact = payload(2 * BLOCK_SIZE);
    dm.create_file_with_data("a", &exact).unwrap();
    assert_eq!(dm.get_disk_info(), (4 * BLOCK_SIZE, 3, 1));
    assert_eq!(dm.get_file_clusters(1).unwrap(), vec![1, 2]);
    assert_eq!(dm.disk.read_data_by_cluster(2), exact[BLOCK_SIZE..].to_vec());
    dm.delete_file_by_name("a").unwrap();
    assert_eq!(dm.get_disk_info(), (4 * BLOCK_SIZE, 1, 3));
    let over = payload(2 * BLOCK_SIZE + 1);
    dm.create_file_with_data("b", &over).unwrap();
    assert_eq!(dm.get_disk_info(), (4 * BLOCK_SIZE, 4, 0));
    assert_eq!(dm.get_file_clusters(1).unwrap(), vec![1, 2, 3]);
    let third = dm.disk.read_data_by_cluster(3);
    assert_eq!(third[0], over[2 * BLOCK_SIZE]);
    assert_eq!(third[1], EOF_BYTE);
    assert!(third[2..].iter().all(|b| *b == 0));
    assert_eq!(dm.read_file_by_name("b").unwrap(), over);
    assert_eq!(dm.create_file_with_data("c", &[1]), Err(FsError::AllocationExhausted));
}

#[test]
fn freeing_twice_fails() {
    let mut dm = fresh();
    dm.create_file_with_data("f", &payload(3000)).unwrap();
    let first = dm.cur_dir.get(2).first_cluster();
    let freed = dm.delete_space_on_fat(first).unwrap();
    assert_eq!(freed, vec![1, 2, 3]);
    assert_eq!(dm.delete_space_on_fat(first), Err(FsError::CorruptChain(first)));
}

#[test]
fn non_empty_directory_deletion() {
    let mut dm = fresh();
    dm.new_directory_to_disk("a").unwrap();
    dm.set_current_directory("a").unwrap();
    dm.create_file_with_data("f", b"hello").unwrap();
    dm.set_current_directory("..").unwrap();
    assert_eq!(dm.cur_dir.name(), "root");
    assert_eq!(dm.delete_file_by_name("a"), Err(FsError::NotEmpty));
    assert_eq!(dm.cur_dir.get_index_by_name("a"), Some(2));
    dm.set_current_directory("a").unwrap();
    assert_eq!(dm.read_file_by_name("f").unwrap(), b"hello".to_vec());
    dm.delete_file_by_name("f").unwrap();
    dm.set_current_directory("..").unwrap();
    assert_eq!(dm.delete_file_by_name("a"), Ok(()));
    assert_eq!(dm.cur_dir.get_index_by_name("a"), None);
}

#[test]
fn bad_block_is_skipped() {
    let mut dm = fresh();
    let data = payload(3 * BLOCK_SIZE);
    dm.create_file_with_data("f", &data).unwrap();
    assert_eq!(dm.get_file_clusters(1).unwrap(), vec![1, 2, 3]);
    dm.disk.fat[2] = FatItem::BadCluster;
    assert_eq!(dm.get_file_clusters(1).unwrap(), vec![1, 3]);
    let mut expected = data[..BLOCK_SIZE].to_vec();
    expected.extend_from_slice(&data[2 * BLOCK_SIZE..]);
    assert_eq!(dm.get_data_by_first_cluster(1, false).unwrap(), expected);
    // A defective block is neither in use nor free.
    assert_eq!(dm.get_disk_info().1, 3);
    assert_eq!(dm.get_disk_info().2, DATA_BLOCKS - 4);
}

#[test]
fn structural_entries_stay_first() {
    let mut dm = fresh();
    dm.create_file_with_data("f", b"1").unwrap();
    dm.new_directory_to_disk("d").unwrap();
    dm.rename_file_by_name("f", "g").unwrap();
    dm.set_current_directory("d").unwrap();
    dm.create_file_with_data("h", b"2").unwrap();
    dm.set_current_directory(".").unwrap();
    dm.set_current_directory("..").unwrap();
    assert!(dm.cur_dir.get_index_by_name("d").is_some());
    assert_eq!(dm.cur_dir.get(0).name(), "..");
    assert_eq!(dm.cur_dir.get(1).name(), ".");
    assert_eq!(dm.cur_dir.get(2).name(), "g");
    assert_eq!(dm.rename_file_by_name("..", "up"), Err(FsError::InvalidName));
    assert_eq!(dm.delete_file_by_name("."), Err(FsError::InvalidName));
    let d = Directory::new("x");
    assert_eq!(d.len(), 2);
    assert_eq!(d.get(0).name(), "..");
    assert_eq!(d.get(1).name(), ".");
}

#[test]
fn error_kinds() {
    let mut dm = fresh();
    dm.create_file_with_data("f", b"abc").unwrap();
    dm.new_directory_to_disk("d").unwrap();
    assert_eq!(dm.read_file_by_name("nope"), Err(FsError::NotFound));
    assert_eq!(dm.read_file_by_name("d"), Err(FsError::WrongKind));
    assert_eq!(dm.set_current_directory("f"), Err(FsError::WrongKind));
    assert_eq!(dm.set_current_directory("nope"), Err(FsError::NotFound));
    assert_eq!(dm.create_file_with_data("f", b"x"), Err(FsError::AlreadyExists));
    assert_eq!(dm.new_directory_to_disk("d"), Err(FsError::AlreadyExists));
    assert_eq!(dm.create_file_with_data("", b"x"), Err(FsError::InvalidName));
    assert_eq!(dm.new_directory_to_disk(".."), Err(FsError::AlreadyExists));
    assert_eq!(dm.create_file_with_data(".", b"x"), Err(FsError::AlreadyExists));
    assert_eq!(dm.new_directory_to_disk(""), Err(FsError::InvalidName));
    assert_eq!(dm.rename_file_by_name("f", ".."), Err(FsError::AlreadyExists));
    assert_eq!(dm.rename_file_by_name("f", ""), Err(FsError::InvalidName));
    assert_eq!(dm.rename_file_by_name("f", "d"), Err(FsError::AlreadyExists));
    assert_eq!(dm.rename_file_by_name("nope", "z"), Err(FsError::NotFound));
    assert_eq!(dm.delete_file_by_name("nope"), Err(FsError::NotFound));
}

#[test]
fn corrupt_chain_and_directory() {
    let mut dm = fresh();
    dm.create_file_with_data("f", &payload(2 * BLOCK_SIZE + 5)).unwrap();
    dm.new_directory_to_disk("d").unwrap();
    // "f" is blocks 1..4, "d" is block 4.
    dm.disk.fat[2] = FatItem::NotUsed;
    assert_eq!(dm.read_file_by_name("f"), Err(FsError::CorruptChain(2)));
    assert_eq!(dm.delete_file_by_name("f"), Err(FsError::CorruptChain(2)));
    assert!(dm.cur_dir.get_index_by_name("f").is_some());
    dm.disk.insert_data_by_cluster(&[0xff; 16], 4);
    assert_eq!(dm.set_current_directory("d"), Err(FsError::CorruptDirectory));
    assert_eq!(dm.cur_dir.name(), "root");
}

#[test]
fn cycle_is_a_corrupt_chain() {
    let mut dm = fresh();
    dm.create_file_with_data("f", &payload(2 * BLOCK_SIZE)).unwrap();
    dm.disk.fat[2] = FatItem::ClusterNo(1);
    assert!(matches!(dm.get_file_clusters(1), Err(FsError::CorruptChain(_))));
}

#[test]
fn rename_and_read() {
    let mut dm = fresh();
    dm.create_file_with_data("old", b"content").unwrap();
    dm.rename_file_by_name("old", "new").unwrap();
    assert_eq!(dm.read_file_by_name("new").unwrap(), b"content".to_vec());
    assert_eq!(dm.read_file_by_name("old"), Err(FsError::NotFound));
}

#[test]
fn move_between_directories() {
    let mut dm = fresh();
    dm.create_file_with_data("f", b"1").unwrap();
    let mut dest = Directory::new("dest");
    dm.move_fcb_between_dirs_by_name("f", &mut dest).unwrap();
    assert_eq!(dm.cur_dir.get_index_by_name("f"), None);
    assert_eq!(dest.get_index_by_name("f"), Some(2));
    assert_eq!(dest.get(2).file_type(), FileType::File);
    assert_eq!(dm.move_fcb_between_dirs_by_name("f", &mut dest), Err(FsError::NotFound));
    assert_eq!(dm.move_fcb_between_dirs_by_name(".", &mut dest), Err(FsError::InvalidName));
}

#[test]
fn first_fit_allocation() {
    let mut dm = fresh();
    assert_eq!(dm.find_next_empty_fat(), Some(1));
    dm.create_file_with_data("a", b"1").unwrap();
    dm.create_file_with_data("b", b"2").unwrap();
    dm.delete_file_by_name("a").unwrap();
    assert_eq!(dm.find_next_empty_fat(), Some(1));
    let got = dm.allocate_free_space_on_fat(3).unwrap();
    assert_eq!(got, vec![1, 3, 4]);
    assert_eq!(dm.disk.fat[1], FatItem::ClusterNo(3));
    assert_eq!(dm.disk.fat[4], FatItem::EoF);
    assert_eq!(dm.allocate_free_space_on_fat(DATA_BLOCKS), Err(FsError::AllocationExhausted));
}

#[test]
fn reallocation_moves_to_first_fit() {
    let mut dm = fresh();
    dm.create_file_with_data("a", b"1").unwrap();
    dm.create_file_with_data("b", &payload(2 * BLOCK_SIZE)).unwrap();
    dm.delete_file_by_name("a").unwrap();
    let got = dm.reallocate_free_space_on_fat(2, 2).unwrap();
    assert_eq!(got, vec![1, 2]);
    assert_eq!(dm.reallocate_free_space_on_fat(5, 1), Err(FsError::CorruptChain(5)));
}

#[test]
fn disk_info_counts() {
    let mut dm = fresh();
    assert_eq!(dm.get_disk_info(), (DATA_BLOCKS * BLOCK_SIZE, 1, DATA_BLOCKS - 1));
    dm.create_file_with_data("f", &payload(BLOCK_SIZE * 2 + 1)).unwrap();
    assert_eq!(dm.get_disk_info(), (DATA_BLOCKS * BLOCK_SIZE, 4, DATA_BLOCKS - 4));
}

#[test]
fn root_saved_at_block_zero() {
    let mut dm = fresh();
    dm.create_file_with_data("f", b"data").unwrap();
    assert_eq!(dm.save_directory_to_disk(), Ok(0));
    let raw = dm.get_data_by_first_cluster(0, false).unwrap();
    let back = Directory::from_bytes(&raw).unwrap();
    assert_eq!(back.name(), "root");
    assert_eq!(back.len(), 3);
    assert_eq!(back.get(2).name(), "f");
    assert_eq!(back.get(2).length(), 4);
}

#[test]
fn directory_bytes_layout() {
    let d = Directory::new("ab");
    let b = d.to_bytes();
    let mut expected: Vec<u8> = vec![2, 0, 0, 0, 0, 0, 0, 0, b'a', b'b', 2, 0, 0, 0, 0, 0, 0, 0];
    expected.extend_from_slice(&[2, 0, 0, 0, 0, 0, 0, 0, b'.', b'.', 1, 0, 0, 0]);
    expected.extend_from_slice(&[0; 16]);
    expected.extend_from_slice(&[1, 0, 0, 0, 0, 0, 0, 0, b'.', 1, 0, 0, 0]);
    expected.extend_from_slice(&[0; 16]);
    assert_eq!(b, expected);
    let back = Directory::from_bytes(&b).unwrap();
    assert_eq!(back.name(), "ab");
    assert_eq!(back.len(), 2);
}

#[test]
fn directory_bytes_rejected() {
    assert!(Directory::from_bytes(&[]).is_none());
    let mut b = Directory::new("ab").to_bytes();
    b[8] = 0xff; // name no longer UTF-8
    assert!(Directory::from_bytes(&b).is_none());
    let mut c = Directory::new("ab").to_bytes();
    c[10] = 1; // only one entry: no "."
    assert!(Directory::from_bytes(&c).is_none());
    let mut u = Directory::new("é").to_bytes();
    u.extend_from_slice(&[9, 9, 9]);
    assert_eq!(Directory::from_bytes(&u).unwrap().name(), "é");
}

#[test]
fn block_store_primitives() {
    let mut disk = Disk::with_block_count(3);
    disk.insert_data_by_offset(&[7, 8, 9], BLOCK_SIZE - 1);
    assert_eq!(disk.read_data_by_cluster(0)[BLOCK_SIZE - 1], 7);
    assert_eq!(disk.read_data_by_cluster(1)[..2].to_vec(), vec![8, 9]);
    let data = payload(BLOCK_SIZE + 3);
    disk.write_data_by_clusters_with_eof(&data, &[2, 0], true);
    assert_eq!(disk.read_data_by_clusters_without_eof(&[2, 0]), data);
    assert_eq!(disk.read_data_by_clusters(&[2, 0]).len(), 2 * BLOCK_SIZE);
    let none = vec![1u8; BLOCK_SIZE];
    disk.write_data_by_clusters_with_eof(&none, &[1], false);
    assert_eq!(disk.read_data_by_clusters_without_eof(&[1]), none);
}

#[test]
fn kind_names() {
    assert_eq!(FileType::File.as_str(), "File");
    assert_eq!(FileType::Directory.as_str(), "Directory");
}

#[test]
fn custom_root_directory() {
    let mut dm = DiskManager::new(Some(Directory::new("top"))).unwrap();
    assert_eq!(dm.cur_dir.name(), "top");
    dm.new_directory_to_disk("sub").unwrap();
    dm.set_current_directory("sub").unwrap();
    assert_eq!(dm.cur_dir.name(), "sub");
    assert_eq!(dm.cur_dir.get(0).first_cluster(), 0);
    dm.set_current_directory("..").unwrap();
    assert_eq!(dm.cur_dir.name(), "top");
}

#[test]
fn allocation_conservation() {
    let mut dm = fresh();
    dm.create_file_with_data("a", &payload(5000)).unwrap();
    dm.new_directory_to_disk("d").unwrap();
    dm.create_file_with_data("b", &payload(10)).unwrap();
    dm.delete_file_by_name("a").unwrap();
    dm.create_file_with_data("c", &payload(2 * BLOCK_SIZE)).unwrap();
    dm.delete_file_by_name("d").unwrap();
    let (_, used, free) = dm.get_disk_info();
    assert_eq!(used + free, DATA_BLOCKS);
    // Root, "b" and "c" are the live chains.
    let mut reachable = dm.get_file_clusters(0).unwrap().len();
    for name in ["b", "c"] {
        let i = dm.cur_dir.get_index_by_name(name).unwrap();
        let first = dm.cur_dir.get(i).first_cluster();
        reachable += dm.get_file_clusters(first).unwrap().len();
    }
    assert_eq!(reachable, used);
    assert_eq!(free + reachable, DATA_BLOCKS);
}

#[test]
fn saved_directory_reads_back() {
    let mut dm = fresh();
    dm.new_directory_to_disk("d").unwrap();
    dm.set_current_directory("d").unwrap();
    dm.create_file_with_data("inner", b"x").unwrap();
    let saved_at = dm.save_directory_to_disk().unwrap();
    let raw = dm.get_data_by_first_cluster(saved_at, false).unwrap();
    let back = Directory::from_bytes(&raw).unwrap();
    assert_eq!(back.name(), "d");
    assert_eq!(back.get(1).first_cluster(), saved_at);
    assert_eq!(back.get(2).name(), "inner");
    let fcb = dm.cur_dir.get(1).duplicate();
    let loaded = dm.get_directory_by_fcb(&fcb).unwrap();
    assert_eq!(loaded.len(), 3);
    assert_eq!(dm.get_file_by_fcb(&fcb), Err(FsError::WrongKind));
}

#[test]
fn directory_mutators() {
    let mut d = Directory::new("top");
    d.push_fcb(Fcb::new("a", FileType::File, 7, 3));
    d.push_fcb(Fcb::new("b", FileType::Directory, 9, 0));
    d.rename_at(2, "z");
    assert_eq!(d.get_fcb_by_name("z").map(|(i, f)| (i, f.first_cluster())), Some((2, 7)));
    d.set_first_cluster_at(1, 42);
    assert_eq!(d.get(1).first_cluster(), 42);
    let removed = d.remove_at(2);
    assert_eq!(removed.name(), "z");
    assert_eq!(removed.length(), 3);
    assert_eq!(d.len(), 3);
    assert_eq!(d.get(2).name(), "b");
    assert!(is_valid_name("x"));
    assert!(!is_valid_name(""));
    assert!(!is_valid_name(".."));
    assert!(!is_valid_name("."));
}

#[test]
fn sentinel_only_payload_and_empty_file() {
    let mut dm = fresh();
    dm.create_file_with_data("x", &[255u8, 255, 255]).unwrap();
    assert_eq!(dm.read_file_by_name("x").unwrap(), vec![255u8, 255, 255]);
    dm.create_file_with_data("e", &[]).unwrap();
    assert_eq!(dm.read_file_by_name("e").unwrap(), Vec::<u8>::new());
}

#[test]
fn fresh_engine_table() {
    let dm = fresh();
    assert_eq!(dm.cur_dir.name(), "root");
    assert_eq!(dm.cur_dir.len(), 2);
    assert_eq!(dm.cur_dir.get(0).first_cluster(), 0);
    assert_eq!(dm.cur_dir.get(1).first_cluster(), 0);
    assert_eq!(dm.disk.fat[0], FatItem::EoF);
    assert!(dm.disk.fat[1..].iter().all(|f| *f == FatItem::NotUsed));
    let mut given = Directory::new("top");
    given.set_first_cluster_at(0, 5);
    let dm = DiskManager::new(Some(given)).unwrap();
    assert_eq!(dm.cur_dir.name(), "top");
    assert_eq!(dm.cur_dir.get(0).first_cluster(), 0);
    assert_eq!(dm.disk.fat[0], FatItem::EoF);
    assert!(dm.disk.fat[1..].iter().all(|f| *f == FatItem::NotUsed));
}

#[test]
fn four_block_exact_layout() {
    let mut dm = DiskManager::with_block_count(4, None).unwrap();
    assert_eq!(dm.write_data_to_disk(&payload(2 * BLOCK_SIZE)), Ok(1));
    assert_eq!(dm.disk.fat[1], FatItem::ClusterNo(2));
    assert_eq!(dm.disk.fat[2], FatItem::EoF);
    assert_eq!(dm.disk.fat[3], FatItem::NotUsed);
    let mut dm = DiskManager::with_block_count(4, None).unwrap();
    assert_eq!(dm.write_data_to_disk(&payload(2 * BLOCK_SIZE + 1)), Ok(1));
    assert_eq!(dm.disk.fat[1], FatItem::ClusterNo(2));
    assert_eq!(dm.disk.fat[2], FatItem::ClusterNo(3));
    assert_eq!(dm.disk.fat[3], FatItem::EoF);
}

#[test]
fn save_failure_leaves_state() {
    let mut dm = fresh();
    dm.new_directory_to_disk("d").unwrap();
    dm.disk.fat[0] = FatItem::NotUsed;
    assert_eq!(dm.set_current_directory("d"), Err(FsError::CorruptChain(0)));
    assert_eq!(dm.cur_dir.name(), "root");
    assert_eq!(dm.disk.fat[0], FatItem::NotUsed);
}
