use qor_os::elf::{load_elf, plan_load, ElfHeader, STACK_BASE, STACK_PAGES, ProgramHeader, ENTRY_EXECUTE, ENTRY_READ, ENTRY_USER, ENTRY_WRITE, PT_LOAD};

fn put(b: &mut [u8], o: usize, v: &[u8]) {
    b[o..o + v.len()].copy_from_slice(v);
}

/// A file with an entry point and three program headers: a loadable
/// read-execute one, a note, and a loadable read-write one.
fn elf_file() -> Vec<u8> {
    let mut b = vec![0u8; 64 + 3 * 56];
    put(&mut b, 0, &[0x7f, b'E', b'L', b'F']);
    put(&mut b, 24, &0x1_0078u64.to_le_bytes());
    put(&mut b, 32, &64u64.to_le_bytes());
    put(&mut b, 54, &56u16.to_le_bytes());
    put(&mut b, 56, &3u16.to_le_bytes());
    let headers = [(PT_LOAD, 5u32, 0x1000u64, 0x1_0000u64, 0x200u64, 0x300u64), (4, 4, 0, 0, 0, 0), (PT_LOAD, 6, 0x2000, 0x2_0000, 0x40, 0x80)];
    for (k, (t, f, off, vaddr, filesz, memsz)) in headers.iter().enumerate() {
        let o = 64 + k * 56;
        put(&mut b, o, &t.to_le_bytes());
        put(&mut b, o + 4, &f.to_le_bytes());
        put(&mut b, o + 8, &off.to_le_bytes());
        put(&mut b, o + 16, &vaddr.to_le_bytes());
        put(&mut b, o + 24, &vaddr.to_le_bytes());
        put(&mut b, o + 32, &filesz.to_le_bytes());
        put(&mut b, o + 40, &memsz.to_le_bytes());
        put(&mut b, o + 48, &0x1000u64.to_le_bytes());
    }
    b
}

#[test]
fn elf_loadable_segments() {
    let image = load_elf(&elf_file()).unwrap();
    assert_eq!(image.entry, 0x1_0078);
    assert_eq!(image.segments.len(), 2);
    let text = &image.segments[0];
    assert_eq!(text.vaddr, 0x1_0000);
    assert_eq!(text.f_offset, 0x1000);
    assert_eq!(text.fsize, 0x200);
    assert_eq!(text.msize, 0x300);
    assert_eq!(text.flags, ENTRY_USER | ENTRY_READ | ENTRY_EXECUTE);
    let data = &image.segments[1];
    assert_eq!(data.vaddr, 0x2_0000);
    assert_eq!(data.flags, ENTRY_USER | ENTRY_READ | ENTRY_WRITE);
}

#[test]
fn elf_bad_magic() {
    let mut b = elf_file();
    b[1] = b'X';
    let err = load_elf(&b).err().unwrap();
    assert_eq!(err.msg, "File is not an Elf File");
}

#[test]
fn elf_headers_parse() {
    let b = elf_file();
    let h = ElfHeader::parse(&b);
    assert_eq!(h.magic, 0x464c457f);
    assert_eq!(h.phnum, 3);
    assert_eq!(h.phoff, 64);
    let p = ProgramHeader::parse(&b, 64 + 56);
    assert_eq!(p.seg_type, 4);
    assert_eq!(p.flags, 4);
}

#[test]
fn elf_without_program_headers() {
    let mut b = vec![0u8; 64];
    put(&mut b, 0, &[0x7f, b'E', b'L', b'F']);
    let image = load_elf(&b).unwrap();
    assert!(image.segments.is_empty());
    assert_eq!(image.entry, 0);
}

#[test]
fn elf_load_plan() {
    let mut b = elf_file();
    b.resize(0x2040, 0);
    for k in 0..0x200 {
        b[0x1000 + k] = (k % 251) as u8;
    }
    b[0x2000] = 0xaa;
    let image = load_elf(&b).unwrap();
    let plan = plan_load(&b, &image);
    assert_eq!(plan.entry, 0x1_0078);
    assert_eq!(plan.stack_base, STACK_BASE);
    assert_eq!(plan.stack_base, 0x2000_0000);
    assert_eq!(plan.stack_pages, STACK_PAGES);
    assert_eq!(plan.stack_pages, 4);
    assert_eq!(plan.stack_flags, ENTRY_USER | ENTRY_READ | ENTRY_WRITE);
    assert_eq!(plan.segments.len(), 2);
    let text = &plan.segments[0];
    assert_eq!(text.vaddr, 0x1_0000);
    assert_eq!(text.pages, 1);
    assert_eq!(text.page_offset, 0);
    assert_eq!(text.data.len(), 0x200);
    assert_eq!(text.data[5], 5);
    assert_eq!(text.map_flags, ENTRY_USER | ENTRY_READ | ENTRY_WRITE | ENTRY_EXECUTE);
    let data = &plan.segments[1];
    assert_eq!(data.vaddr, 0x2_0000);
    assert_eq!(data.data, {
        let mut v = vec![0u8; 0x40];
        v[0] = 0xaa;
        v
    });
}
