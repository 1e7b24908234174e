use qor_os::fs::devfs::tty::{
    get_open_pseudo_terminal_indexes, handle_input, state_after, TeletypeInputAction, TeletypeSettings, TeletypeSignal, ECHO,
    ICANON, ICRNL, IEXTEN, ISIG, IXON, OPOST,
};
use qor_os::fs::devfs::devices::{get_device_files, DeviceKind};
use qor_os::fs::devfs::fs::DevFilesystem;
use qor_os::fs::devfs::tty::{erase_echo_bytes, ioctl_action, ioctl_answer, TeletypeIoctl, TeletypeIoctlAction};
use qor_os::fs::generic::FileSystemError;
use qor_os::fs::minix3::driver::Minix3Filesystem;
use qor_os::fs::minix3::structures::{Minix3DirEntry, Minix3Inode, Minix3Superblock, MINIX3_MAGIC};
use qor_os::fs::procfs::{ProcFilesystem, ProcessInfo};
use qor_os::fs::ramdisk::inodes::RamDiskFilesystem;
use qor_os::fs::ramdisk::ramfs::RamFS;
use qor_os::fs::structures::{DirectoryEntryType, FileMode, InodePointer, Permissions};
use qor_os::fs::vfs::{child_paths, join_path, listing_outcome, next_device_id, DeviceIds, PathIndex};

fn at(device_id: usize, index: usize) -> InodePointer {
    InodePointer { device_id, index }
}

// ---------------------------------------------------------------- modes

#[test]
fn permissions_values() {
    assert_eq!(Permissions::read().bits(), 1);
    assert_eq!(Permissions::write().bits(), 2);
    assert_eq!(Permissions::execute().bits(), 4);
    assert_eq!(Permissions::read_write().bits(), 3);
    assert_eq!(Permissions::read_execute().bits(), 5);
    assert_eq!(Permissions::write_execute().bits(), 6);
    assert_eq!(Permissions::read_write_execute().bits(), 7);
}

#[test]
fn file_mode_components_round_trip() {
    let mode = FileMode::from_components(
        DirectoryEntryType::Directory,
        Permissions::read_write_execute(),
        Permissions::read_execute(),
        Permissions::read(),
    );
    assert_eq!(mode.entry_type(), DirectoryEntryType::Directory);
    assert_eq!(mode.user_perms().bits(), 7);
    assert_eq!(mode.group_perms().bits(), 5);
    assert_eq!(mode.owner_perms().bits(), 1);
}

#[test]
fn file_mode_setters_set_only_their_field() {
    let mut mode = FileMode::from_bits(0);
    mode.set_entry_type(DirectoryEntryType::RegularFile);
    assert_eq!(mode.entry_type(), DirectoryEntryType::RegularFile);
    mode.set_group_perms(Permissions::write());
    assert_eq!(mode.group_perms().bits(), 2);
    // a permission setter keeps the entry type
    assert_eq!(mode.entry_type(), DirectoryEntryType::RegularFile);
    mode.set_user_perms(Permissions::read());
    mode.set_owner_perms(Permissions::execute());
    assert_eq!(mode.user_perms().bits(), 1);
    assert_eq!(mode.owner_perms().bits(), 4);
    assert_eq!(mode.group_perms().bits(), 2);
    assert_eq!(mode.entry_type(), DirectoryEntryType::RegularFile);
    // setting the type keeps the permissions
    mode.set_entry_type(DirectoryEntryType::Directory);
    assert_eq!(mode.entry_type(), DirectoryEntryType::Directory);
    assert_eq!(mode.user_perms().bits(), 1);
    assert_eq!(mode.group_perms().bits(), 2);
    assert_eq!(mode.owner_perms().bits(), 4);
}

#[test]
fn owner_permissions_of_a_directory_mode() {
    let mut mode = FileMode::from_components(
        DirectoryEntryType::Directory,
        Permissions::read_write_execute(),
        Permissions::read_execute(),
        Permissions::read(),
    );
    mode.set_owner_perms(Permissions::write());
    assert_eq!(mode.owner_perms().bits(), 2);
    assert_eq!(mode.user_perms().bits(), 7);
    assert_eq!(mode.group_perms().bits(), 5);
    assert_eq!(mode.entry_type(), DirectoryEntryType::Directory);
}

#[test]
fn directory_entry_type_numbers() {
    assert_eq!(DirectoryEntryType::Unknown.bits(), 0);
    assert_eq!(DirectoryEntryType::SymbolicLink.bits(), 7);
    assert_eq!(FileMode::from_bits(7 << 13).entry_type(), DirectoryEntryType::SymbolicLink);
}

// ---------------------------------------------------------------- teletype

#[test]
fn teletype_default_settings() {
    let s = TeletypeSettings::new();
    assert_eq!(s.input_flags, IXON | ICRNL);
    assert_eq!(s.output_flags, OPOST);
    assert_eq!(s.local_flags, ECHO | ICANON | ISIG | IEXTEN);
    assert_eq!(s.control_characters, [0u8; 32]);
    assert!(get_open_pseudo_terminal_indexes().is_empty());
}

#[test]
fn teletype_flow_control() {
    let s = TeletypeSettings::new();
    assert_eq!(handle_input(&s, false, false, 19), TeletypeInputAction::Pause);
    assert_eq!(handle_input(&s, true, false, b'a'), TeletypeInputAction::Drop);
    assert_eq!(handle_input(&s, true, false, 17), TeletypeInputAction::Resume);
    // a paused line keeps a pending literal for later
    assert_eq!(handle_input(&s, true, true, b'a'), TeletypeInputAction::Drop);
}

#[test]
fn teletype_literal_next() {
    let s = TeletypeSettings::new();
    assert_eq!(handle_input(&s, false, false, 22), TeletypeInputAction::LiteralNext);
    let lit = handle_input(&s, false, true, 3);
    assert_eq!(lit, TeletypeInputAction::Literal);
    assert!(!lit.consumed());
}

#[test]
fn teletype_signals() {
    let s = TeletypeSettings::new();
    assert_eq!(handle_input(&s, false, false, 3), TeletypeInputAction::Signal(TeletypeSignal::Interrupt));
    assert_eq!(handle_input(&s, false, false, 26), TeletypeInputAction::Signal(TeletypeSignal::Stop));
    let mut quiet = s;
    quiet.local_flags = ECHO | ICANON;
    assert_eq!(handle_input(&quiet, false, false, 3), TeletypeInputAction::Pass { echo: None });
}

#[test]
fn teletype_echo_and_erase() {
    let s = TeletypeSettings::new();
    let a = handle_input(&s, false, false, b'x');
    assert_eq!(a, TeletypeInputAction::Pass { echo: Some(b'x') });
    assert!(!a.consumed());
    assert_eq!(handle_input(&s, false, false, 0x7f), TeletypeInputAction::Erase { echo: true });
    assert!(handle_input(&s, false, false, 0x7f).consumed());
    assert_eq!(handle_input(&s, false, false, 0x0d), TeletypeInputAction::Pass { echo: Some(0x0a) });
    assert_eq!(handle_input(&s, false, false, 0x01), TeletypeInputAction::Pass { echo: None });
    let mut raw = s;
    raw.local_flags = 0;
    raw.input_flags = 0;
    assert_eq!(handle_input(&raw, false, false, b'x'), TeletypeInputAction::Pass { echo: None });
    assert_eq!(handle_input(&raw, false, false, 0x7f), TeletypeInputAction::Pass { echo: None });
    assert_eq!(handle_input(&raw, false, false, 19), TeletypeInputAction::Pass { echo: None });
}

// ---------------------------------------------------------------- device ids

#[test]
fn device_ids_are_handed_out_in_order() {
    let mut ids = DeviceIds::new();
    let a = next_device_id(&mut ids);
    let b = next_device_id(&mut ids);
    assert_ne!(a, b);
    assert_eq!(b, a + 1);
}

// ---------------------------------------------------------------- ram disk

fn mounted_ramdisk() -> RamDiskFilesystem {
    let mut fs = RamDiskFilesystem::new();
    fs.init().unwrap();
    fs.set_mount_id(1);
    fs
}

#[test]
fn ramdisk_root_listing() {
    let fs = mounted_ramdisk();
    let root = fs.get_root_index().unwrap();
    assert_eq!(root, at(1, 1));
    let entries = fs.get_dir_entries(root).unwrap();
    let names: Vec<&str> = entries.iter().map(|e| e.name.as_str()).collect();
    assert_eq!(names, vec!["file", ".", "..", "dir"]);
    assert_eq!(entries[0].index, at(1, 3));
    assert_eq!(entries[3].index, at(1, 2));
    assert_eq!(entries[0].entry_type, DirectoryEntryType::Unknown);
}

#[test]
fn ramdisk_reads_files() {
    let fs = mounted_ramdisk();
    assert_eq!(fs.read_inode(at(1, 3)).unwrap(), b"Hello".to_vec());
    assert_eq!(fs.read_inode(at(1, 4)).unwrap(), b"Hey!".to_vec());
}

#[test]
fn ramdisk_errors() {
    let fs = mounted_ramdisk();
    assert_eq!(fs.get_dir_entries(at(1, 3)).unwrap_err(), FileSystemError::InodeIsADirectory(at(1, 3)));
    assert_eq!(fs.get_dir_entries(at(1, 9)).unwrap_err(), FileSystemError::BadInode(at(1, 9)));
    assert_eq!(fs.get_dir_entries(at(2, 1)).unwrap_err(), FileSystemError::UnmountedDevice);
    let unmounted = RamDiskFilesystem::new();
    assert_eq!(unmounted.get_root_index(), Err(FileSystemError::UninitializedFilesystem));
}

#[test]
fn ramdisk_init_twice_keeps_the_inodes() {
    let mut fs = mounted_ramdisk();
    fs.init().unwrap();
    assert_eq!(fs.get_dir_entries(at(1, 1)).unwrap().len(), 4);
}

#[test]
fn ramdisk_create_file_and_directory() {
    let mut fs = mounted_ramdisk();
    let f = fs.create_file(at(1, 2), String::from("new")).unwrap();
    assert_eq!(f, at(1, 5));
    assert_eq!(fs.read_inode(f).unwrap(), Vec::<u8>::new());
    let entries = fs.get_dir_entries(at(1, 2)).unwrap();
    assert_eq!(entries.last().unwrap().name, "new");
    assert_eq!(entries.last().unwrap().index, f);

    let d = fs.create_directory(at(1, 1), String::from("sub")).unwrap();
    assert_eq!(d, at(1, 6));
    let sub: Vec<String> = fs.get_dir_entries(d).unwrap().into_iter().map(|e| e.name).collect();
    assert_eq!(sub, vec![".".to_string(), "..".to_string()]);
}

#[test]
fn ramdisk_remove_inode() {
    let mut fs = mounted_ramdisk();
    fs.remove_inode(at(1, 3), at(1, 1)).unwrap();
    assert!(fs.read_inode(at(1, 3)).is_err());
    let names: Vec<String> = fs.get_dir_entries(at(1, 1)).unwrap().into_iter().map(|e| e.name).collect();
    assert_eq!(names, vec![".".to_string(), "..".to_string(), "dir".to_string()]);
}

#[test]
fn ramdisk_remove_inode_from_subdirectory() {
    let mut fs = mounted_ramdisk();
    assert_eq!(fs.remove_inode(at(1, 4), at(1, 2)), Ok(()));
    let names: Vec<String> = fs.get_dir_entries(at(1, 2)).unwrap().into_iter().map(|e| e.name).collect();
    assert_eq!(names, vec![".".to_string(), "..".to_string()]);
}

// ---------------------------------------------------------------- ramfs

#[test]
fn ramfs_after_mount() {
    let mut fs = RamFS::new();
    assert_eq!(fs.get_root_inode(), Err(FileSystemError::UnmountedDevice));
    fs.init().unwrap();
    fs.set_mount_id(4).unwrap();
    let root = fs.get_root_inode().unwrap();
    assert_eq!(root, at(4, 1));
    let entries = fs.dir_entries(root).unwrap();
    assert_eq!(entries.len(), 2);
    assert_eq!(entries[0].name, "hello");
    assert_eq!(entries[0].index, at(4, 2));
    assert_eq!(entries[0].entry_type, DirectoryEntryType::RegularFile);
    assert_eq!(entries[1].name, "world");
    let stat = fs.stat_inode(at(4, 2)).unwrap();
    assert_eq!(stat.index, at(4, 2));
    assert_eq!(stat.mode.entry_type(), DirectoryEntryType::RegularFile);
    assert_eq!(stat.mode.user_perms().bits(), 7);
    assert_eq!(stat.uid, 1000);
    assert_eq!(stat.blk_size, 4096);
    assert_eq!(fs.stat_inode(at(4, 9)).unwrap_err(), FileSystemError::BadInode(at(4, 9)));
    assert_eq!(fs.dir_entries(at(4, 2)).unwrap_err(), FileSystemError::InodeIsADirectory(at(4, 2)));
}

#[test]
fn ramfs_mount_keeps_the_entries() {
    let mut fs = RamFS::new();
    fs.set_mount_id(4).unwrap();
    fs.mount_fs_at(at(4, 1), at(9, 1), String::from("dev")).unwrap();
    assert_eq!(fs.dir_entries(at(4, 1)).unwrap().len(), 2);
    assert_eq!(fs.inode(6), Ok(at(4, 6)));
    assert_eq!(fs.dir_entries(at(5, 1)).unwrap_err(), FileSystemError::UnmountedDevice);
}

// ---------------------------------------------------------------- procfs

fn processes() -> Vec<ProcessInfo> {
    vec![
        ProcessInfo { pid: 5, command_line: b"init".to_vec(), mem_stats: b"1 2".to_vec() },
        ProcessInfo { pid: 12, command_line: b"sh".to_vec(), mem_stats: b"3 4".to_vec() },
    ]
}

#[test]
fn procfs_root_lists_processes() {
    let mut fs = ProcFilesystem::new();
    fs.init().unwrap();
    fs.set_mount_id(2);
    let root = fs.get_root_index().unwrap();
    assert_eq!(root, at(2, 1));
    let ps = processes();
    let entries = fs.get_dir_entries(root, Some(&ps)).unwrap();
    let names: Vec<&str> = entries.iter().map(|e| e.name.as_str()).collect();
    assert_eq!(names, vec![".", "..", "5", "12"]);
    assert_eq!(entries[2].index, at(2, 0x10005));
    assert_eq!(entries[3].index, at(2, 0x1000c));
    assert_eq!(entries[3].entry_type, DirectoryEntryType::Directory);
    assert_eq!(fs.get_dir_entries(root, None).unwrap().len(), 2);
}

#[test]
fn procfs_process_directory() {
    let mut fs = ProcFilesystem::new();
    fs.set_mount_id(2);
    let ps = processes();
    let entries = fs.get_dir_entries(at(2, 0x1000c), Some(&ps)).unwrap();
    let names: Vec<&str> = entries.iter().map(|e| e.name.as_str()).collect();
    assert_eq!(names, vec![".", "..", "cmdline", "statm"]);
    assert_eq!(entries[2].index, at(2, 0x2000c));
    assert_eq!(entries[3].index, at(2, 0x4000c));
    assert_eq!(entries[2].entry_type, DirectoryEntryType::RegularFile);
    // no such process: only the two links
    assert_eq!(fs.get_dir_entries(at(2, 0x10007), Some(&ps)).unwrap().len(), 2);
}

#[test]
fn procfs_reads_process_files() {
    let mut fs = ProcFilesystem::new();
    fs.set_mount_id(2);
    let ps = processes();
    assert_eq!(fs.read_inode(at(2, 0x20005), Some(&ps)).unwrap(), b"init".to_vec());
    assert_eq!(fs.read_inode(at(2, 0x4000c), Some(&ps)).unwrap(), b"3 4".to_vec());
    assert_eq!(fs.read_inode(at(2, 0x20007), Some(&ps)).unwrap_err(), FileSystemError::BadInode(at(2, 0x20007)));
    assert!(fs.read_inode(at(2, 1), Some(&ps)).unwrap().is_empty());
}

#[test]
fn procfs_refuses_changes() {
    let mut fs = ProcFilesystem::new();
    fs.set_mount_id(2);
    assert_eq!(fs.create_file(at(2, 1), String::from("x")), Err(FileSystemError::PermissionDenied));
    assert_eq!(fs.create_directory(at(2, 1), String::from("x")), Err(FileSystemError::PermissionDenied));
    assert_eq!(fs.remove_inode(at(2, 1)), Err(FileSystemError::PermissionDenied));
    assert_eq!(fs.remove_dir_entry(at(2, 1), String::from("x")), Err(FileSystemError::PermissionDenied));
    assert!(fs.write_inode(at(2, 0x20005), b"x").is_ok());
    assert_eq!(fs.write_inode(at(3, 1), b"x"), Err(FileSystemError::UnmountedDevice));
    assert_eq!(fs.get_dir_entries(at(2, 0x20005), None).unwrap_err(), FileSystemError::InodeIsADirectory(at(2, 0x20005)));
    assert_eq!(fs.get_dir_entries(at(2, 7), None).unwrap_err(), FileSystemError::BadInode(at(2, 7)));
}

// ---------------------------------------------------------------- minix3

fn put16(b: &mut [u8], o: usize, v: u16) {
    b[o..o + 2].copy_from_slice(&v.to_le_bytes());
}

fn put32(b: &mut [u8], o: usize, v: u32) {
    b[o..o + 4].copy_from_slice(&v.to_le_bytes());
}

fn put_inode(b: &mut [u8], o: usize, mode: u16, size: u32, zone: u32) {
    put16(b, o, mode);
    put16(b, o + 2, 1);
    put32(b, o + 8, size);
    put32(b, o + 24, zone);
}

fn put_entry(b: &mut [u8], o: usize, inode: u32, name: &str) {
    put32(b, o, inode);
    b[o + 4..o + 4 + name.len()].copy_from_slice(name.as_bytes());
}

/// A small disk: one bitmap block each, the inode table in blocks 4 and 5,
/// the root directory (inode 1) in zone 6 and the file "hello" (inode 2)
/// in zone 7.
fn minix_disk() -> Vec<[u8; 1024]> {
    let mut d = vec![[0u8; 1024]; 10];
    put32(&mut d[1], 0, 32);
    put16(&mut d[1], 6, 1);
    put16(&mut d[1], 8, 1);
    put16(&mut d[1], 10, 6);
    put32(&mut d[1], 20, 10);
    put16(&mut d[1], 24, MINIX3_MAGIC);
    put16(&mut d[1], 28, 1024);
    d[2][0] = 0xC0;
    d[3][0] = 0xFF;
    put_inode(&mut d[4], 0, 0x41ed, 192, 6);
    put_inode(&mut d[4], 64, 0x21a4, 5, 7);
    put_entry(&mut d[6], 0, 1, ".");
    put_entry(&mut d[6], 64, 1, "..");
    put_entry(&mut d[6], 128, 2, "hello");
    d[7][..5].copy_from_slice(b"Hello");
    d
}

fn mounted_minix() -> Minix3Filesystem {
    let mut fs = Minix3Filesystem::new(minix_disk());
    fs.init().unwrap();
    fs.set_mount_id(7);
    fs
}

#[test]
fn minix_superblock_and_root() {
    let fs = mounted_minix();
    let sb = fs.superblock_ref().unwrap();
    assert_eq!(sb.magic, MINIX3_MAGIC);
    assert_eq!(sb.ninodes, 32);
    assert_eq!(sb.imap_blocks, 1);
    assert_eq!(sb.block_size, 1024);
    assert_eq!(fs.get_root_inode(), Ok(at(7, 1)));
    assert_eq!(fs.inode(3), Ok(at(7, 3)));
}

#[test]
fn minix_bad_magic() {
    let mut fs = Minix3Filesystem::new(vec![[0u8; 1024]; 4]);
    assert_eq!(fs.init(), Err(FileSystemError::BadFilesystemFormat));
    assert_eq!(fs.superblock_ref().unwrap_err(), FileSystemError::UninitializedFilesystem);
    assert_eq!(fs.next_free_inode(), Err(FileSystemError::UninitializedFilesystem));
}

#[test]
fn minix_lists_and_reads() {
    let mut fs = mounted_minix();
    let entries = fs.get_dir_entries(at(7, 1)).unwrap();
    let names: Vec<&str> = entries.iter().map(|e| e.name.as_str()).collect();
    assert_eq!(names, vec![".", "..", "hello"]);
    assert_eq!(entries[2].index, at(7, 2));
    assert_eq!(fs.read_inode(at(7, 2)).unwrap(), b"Hello".to_vec());
    assert_eq!(fs.get_dir_entries(at(7, 2)).unwrap_err(), FileSystemError::InodeIsADirectory(at(7, 2)));
    assert_eq!(fs.read_inode(at(8, 2)).unwrap_err(), FileSystemError::UnmountedDevice);
}

#[test]
fn minix_inode_fields() {
    let mut fs = mounted_minix();
    let root = fs.get_inode(1).unwrap();
    assert_eq!(root.mode, 0x41ed);
    assert_eq!(root.size, 192);
    assert_eq!(root.zones[0], 6);
    let file = fs.get_inode(2).unwrap();
    assert_eq!(file.size, 5);
}

#[test]
fn minix_free_bitmaps() {
    let mut fs = mounted_minix();
    assert_eq!(fs.next_free_inode(), Ok(3));
    assert_eq!(fs.next_free_zone(), Ok(8));
    fs.claim_inode(3).unwrap();
    fs.claim_zone(8).unwrap();
    assert_eq!(fs.next_free_inode(), Ok(4));
    assert_eq!(fs.next_free_zone(), Ok(9));
    fs.free_inode(3).unwrap();
    fs.free_zone(8).unwrap();
    assert_eq!(fs.next_free_inode(), Ok(3));
    assert_eq!(fs.next_free_zone(), Ok(8));
}

#[test]
fn minix_edit_reads_back() {
    let mut fs = mounted_minix();
    fs.edit_block(9, [1u8; 1024]).unwrap();
    assert_eq!(fs.read_block_to_buffer(9), [1u8; 1024]);
    assert_eq!(fs.read_block_to_buffer(8), [0u8; 1024]);
    // a block past the end of the device reads as zeros until written
    assert_eq!(fs.read_block_to_buffer(40), [0u8; 1024]);
    // block 40 is the second block edited
    let position = fs.edit_block_region(40, 1000, &[5u8; 50]).unwrap();
    assert_eq!(position, 1);
    let b = fs.read_block_to_buffer(40);
    assert_eq!(b[999], 0);
    assert_eq!(b[1000], 5);
    assert_eq!(b[1023], 5);
}

#[test]
fn minix_allocate_and_write() {
    let mut fs = mounted_minix();
    let n = fs.allocate_file("abc", 0x81a4).unwrap();
    assert_eq!(n, 3);
    assert_eq!(fs.read_inode(at(7, 3)).unwrap(), b"abc".to_vec());
    fs.write_inode(at(7, 2), b"Bye").unwrap();
    assert_eq!(fs.read_inode(at(7, 2)).unwrap(), b"Bye".to_vec());
}

#[test]
fn minix_create_file_and_directory() {
    let mut fs = mounted_minix();
    let f = fs.create_file(at(7, 1), "new").unwrap();
    assert_eq!(f, at(7, 3));
    assert_eq!(fs.read_inode(f).unwrap(), Vec::<u8>::new());
    let d = fs.create_directory(at(7, 1), "sub").unwrap();
    assert_eq!(d, at(7, 4));
    let names: Vec<String> = fs.get_dir_entries(at(7, 1)).unwrap().into_iter().map(|e| e.name).collect();
    assert_eq!(names, vec![".", "..", "hello", "new", "sub"]);
    let sub = fs.get_dir_entries(d).unwrap();
    assert_eq!(sub.len(), 2);
    assert_eq!(sub[0].name, ".");
    assert_eq!(sub[0].index, d);
    assert_eq!(sub[1].name, "..");
    assert_eq!(sub[1].index, at(7, 1));
    assert_eq!(fs.create_file(at(9, 1), "x"), Err(FileSystemError::UnmountedDevice));
}

#[test]
fn minix_mounts_are_listed_after_entries() {
    let mut fs = mounted_minix();
    fs.mount_fs_at(at(7, 1), at(3, 1), String::from("proc")).unwrap();
    let entries = fs.get_dir_entries(at(7, 1)).unwrap();
    assert_eq!(entries.len(), 4);
    assert_eq!(entries[3].name, "proc");
    assert_eq!(entries[3].index, at(3, 1));
    assert_eq!(entries[3].entry_type, DirectoryEntryType::Directory);
}

#[test]
fn minix_structures_round_trip() {
    let inode = Minix3Inode {
        mode: 0x81a4,
        nlinks: 1,
        uid: 2,
        gid: 3,
        size: 77,
        atime: 4,
        mtime: 5,
        ctime: 6,
        zones: [9, 8, 7, 6, 5, 4, 3, 2, 1, 0],
    };
    let mut block = [0xAAu8; 1024];
    inode.write_to(&mut block, 128);
    let back = Minix3Inode::parse(&block, 128);
    assert_eq!(back.mode, inode.mode);
    assert_eq!(back.size, 77);
    assert_eq!(back.zones, inode.zones);
    assert_eq!(block[127], 0xAA);
    assert_eq!(block[192], 0xAA);

    let mut name = [0u8; 60];
    name[..3].copy_from_slice(b"abc");
    let entry = Minix3DirEntry { inode: 42, name };
    entry.write_to(&mut block, 0);
    assert_eq!(&block[0..4], &42u32.to_le_bytes());
    assert_eq!(&block[4..7], b"abc");

    let mut sb_block = [0u8; 1024];
    sb_block[24..26].copy_from_slice(&MINIX3_MAGIC.to_le_bytes());
    assert_eq!(Minix3Superblock::parse(&sb_block).magic, MINIX3_MAGIC);
}

#[test]
fn minix_inode_at_and_stat() {
    let mut fs = mounted_minix();
    let root = fs.inode_at(at(7, 1)).unwrap();
    assert_eq!(root.size, 192);
    assert_eq!(fs.inode_at(at(8, 1)).unwrap_err(), FileSystemError::UnmountedDevice);
    let stat = fs.stat_inode(at(7, 2)).unwrap();
    assert_eq!(stat.index, at(7, 2));
    assert_eq!(stat.size, 5);
    assert_eq!(stat.links, 1);
    assert_eq!(stat.blk_size, 1024);
    assert_eq!(stat.mode.entry_type(), DirectoryEntryType::RegularFile);
}

#[test]
fn minix_raw_and_typed_entries() {
    let mut fs = mounted_minix();
    let raw = fs.minix3_dir_ents(at(7, 1)).unwrap();
    assert_eq!(raw.len(), 3);
    assert_eq!(raw[2].inode, 2);
    assert_eq!(&raw[2].name[..5], b"hello");
    let typed = fs.dir_entries(at(7, 1)).unwrap();
    let names: Vec<&str> = typed.iter().map(|e| e.name.as_str()).collect();
    assert_eq!(names, vec![".", "..", "hello"]);
    assert_eq!(typed[0].entry_type, DirectoryEntryType::Directory);
    assert_eq!(typed[2].entry_type, DirectoryEntryType::RegularFile);
    assert_eq!(typed[2].index, at(7, 2));
    assert_eq!(fs.dir_entries(at(7, 2)).unwrap_err(), FileSystemError::InodeIsADirectory(at(7, 2)));
}

#[test]
fn minix_link_counts() {
    let mut fs = mounted_minix();
    assert_eq!(fs.increment_links(at(7, 2)), Ok(2));
    assert_eq!(fs.increment_links(at(7, 2)), Ok(3));
    assert_eq!(fs.decrement_links(at(7, 2)), Ok(2));
    assert_eq!(fs.get_inode(2).unwrap().nlinks, 2);
    // the rest of the inode is kept
    assert_eq!(fs.get_inode(2).unwrap().size, 5);
    assert_eq!(fs.increment_links(at(9, 2)), Err(FileSystemError::UnmountedDevice));
}

// ---------------------------------------------------------------- devfs

#[test]
fn devfs_root_holds_the_display() {
    let mut fs = DevFilesystem::new();
    assert_eq!(fs.get_root_index(), Err(FileSystemError::UninitializedFilesystem));
    fs.init().unwrap();
    fs.set_mount_id(6);
    assert_eq!(fs.get_root_index(), Ok(at(6, 1)));
    let entries = fs.get_dir_entries(at(6, 1)).unwrap();
    let names: Vec<&str> = entries.iter().map(|e| e.name.as_str()).collect();
    assert_eq!(names, vec![".", "..", "disp"]);
    assert_eq!(entries[2].index, at(6, 2));
    assert_eq!(entries[2].entry_type, DirectoryEntryType::CharDevice);
    assert_eq!(fs.get_dir_entries(at(6, 2)).unwrap_err(), FileSystemError::InodeIsADirectory(at(6, 2)));
    assert_eq!(fs.get_dir_entries(at(6, 3)).unwrap_err(), FileSystemError::BadInode(at(6, 3)));
    assert_eq!(fs.get_dir_entries(at(1, 1)).unwrap_err(), FileSystemError::UnmountedDevice);
}

#[test]
fn devfs_reads_and_writes() {
    let mut fs = DevFilesystem::new();
    fs.set_mount_id(6);
    assert!(fs.read_inode(at(6, 2)).unwrap().is_empty());
    assert_eq!(fs.read_inode(at(6, 3)).unwrap_err(), FileSystemError::BadInode(at(6, 3)));
    assert!(fs.write_inode(at(6, 2), b"hi").is_ok());
    assert_eq!(fs.write_inode(at(5, 2), b"hi"), Err(FileSystemError::UnmountedDevice));
    fs.sync().unwrap();
}

#[test]
fn teletype_state_after_actions() {
    assert_eq!(state_after(false, false, TeletypeInputAction::Pause), (true, false));
    assert_eq!(state_after(true, true, TeletypeInputAction::Resume), (false, true));
    assert_eq!(state_after(false, false, TeletypeInputAction::LiteralNext), (false, true));
    assert_eq!(state_after(false, true, TeletypeInputAction::Literal), (false, false));
    assert_eq!(state_after(true, false, TeletypeInputAction::Drop), (true, false));
    assert_eq!(state_after(false, false, TeletypeInputAction::Pass { echo: None }), (false, false));
}

// ---------------------------------------------------------------- devices

#[test]
fn device_files_with_and_without_graphics() {
    let names: Vec<&str> = get_device_files(true).iter().map(|d| d.name()).collect();
    assert_eq!(names, vec!["disp", "fb0", "tty0", "null"]);
    let names: Vec<&str> = get_device_files(false).iter().map(|d| d.name()).collect();
    assert_eq!(names, vec!["tty0", "null"]);
    assert_eq!(DeviceKind::FrameBuffer.ioctl_answer(), None);
    assert_eq!(DeviceKind::Null.ioctl_answer(), Some(usize::MAX));
    assert_eq!(DeviceKind::Teletype.ioctl_answer(), Some(usize::MAX));
}

#[test]
fn teletype_ioctl_decisions() {
    assert_eq!(ioctl_action(TeletypeIoctl::GetSettings), TeletypeIoctlAction::ReportSettings);
    assert_eq!(ioctl_action(TeletypeIoctl::SetSettingsNoWait), TeletypeIoctlAction::ApplySettings);
    assert_eq!(ioctl_action(TeletypeIoctl::SetSettingsFlush), TeletypeIoctlAction::FlushThenApplySettings);
    assert_eq!(ioctl_action(TeletypeIoctl::GetProcessGroup), TeletypeIoctlAction::ReportProcessGroup);
    assert_eq!(ioctl_action(TeletypeIoctl::SetProcessGroup), TeletypeIoctlAction::SetProcessGroup);
    assert_eq!(ioctl_action(TeletypeIoctl::Other), TeletypeIoctlAction::Unsupported);
    assert_eq!(ioctl_answer(TeletypeIoctlAction::ApplySettings, 515), 0);
    assert_eq!(ioctl_answer(TeletypeIoctlAction::Unsupported, 515), 515);
}

// ---------------------------------------------------------------- path index

#[test]
fn path_index_finds_what_was_indexed() {
    let mut index = PathIndex::new();
    let root = at(1, 1);
    let file = at(1, 3);
    assert!(index.index_path(String::new(), root));
    index.index_directory("", root);
    assert!(index.index_path(String::from("/file"), file));
    assert_eq!(index.path_to_inode("/file"), Ok(file));
    assert_eq!(index.path_to_inode("/"), Ok(root));
    // the empty path names nothing, but the root is reached by it
    assert_eq!(index.path_to_inode(""), Err(FileSystemError::BadPath));
    assert_eq!(index.inode_to_path(root), Ok(String::new()));
    assert_eq!(index.inode_to_path(file), Ok(String::from("/file")));
    assert_eq!(index.inode_to_path(at(1, 9)), Err(FileSystemError::BadInode(at(1, 9))));
    // an inode already indexed is passed over
    assert!(!index.index_path(String::from("/other"), file));
    assert_eq!(index.path_to_inode("/other"), Err(FileSystemError::BadPath));
}

#[test]
fn path_index_invalidation_drops_paths_under_the_prefix() {
    let mut index = PathIndex::new();
    index.index_path(String::from("/dir"), at(1, 2));
    index.index_directory("/dir", at(1, 2));
    index.index_path(String::from("/dir/file2"), at(1, 4));
    index.index_path(String::from("/file"), at(1, 3));
    assert_eq!(index.invalidate_index("/dir"), Ok(()));
    assert_eq!(index.path_to_inode("/dir"), Err(FileSystemError::BadPath));
    assert_eq!(index.path_to_inode("/dir/"), Err(FileSystemError::BadPath));
    assert_eq!(index.path_to_inode("/dir/file2"), Err(FileSystemError::BadPath));
    assert_eq!(index.path_to_inode("/file"), Ok(at(1, 3)));
    // the reverse index is kept
    assert_eq!(index.inode_to_path(at(1, 4)), Ok(String::from("/dir/file2")));
    index.clear();
    assert_eq!(index.path_to_inode("/file"), Err(FileSystemError::BadPath));
}

#[test]
fn erase_echoes_backspace_space_backspace() {
    assert_eq!(erase_echo_bytes(true, true), vec![0x08, 0x20, 0x08]);
    assert!(erase_echo_bytes(true, false).is_empty());
    assert!(erase_echo_bytes(false, true).is_empty());
}

#[test]
fn child_paths_of_a_listing() {
    let fs = mounted_ramdisk();
    let entries = fs.get_dir_entries(at(1, 2)).unwrap();
    let paths = child_paths("/dir", &entries);
    let names: Vec<String> = paths.iter().map(|(p, _)| p.clone()).collect();
    assert_eq!(names, vec!["/dir/.".to_string(), "/dir/..".to_string(), "/dir/file2".to_string()]);
    assert_eq!(paths[2].1, at(1, 4));
    assert_eq!(join_path("", "file"), "/file");
    assert_eq!(listing_outcome(&Ok(entries)), Ok(true));
    assert_eq!(listing_outcome(&Err(FileSystemError::InodeIsADirectory(at(1, 3)))), Ok(false));
    assert_eq!(listing_outcome(&Err(FileSystemError::BadPath)), Err(FileSystemError::BadPath));
}
