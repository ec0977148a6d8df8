use neumann::allocator::HEAP_START;
use neumann::calls::sys_exec;
use neumann::elf::check::{STACK_ADDR, USER_SPACE_END};
use neumann::elf::header::{header_of, program_header, ElfError};
use neumann::elf::load::{load_image, load_image_with_args};
use neumann::elf::spawn::{spawn_loaded, TaskParams};
use neumann::elf::stack::{write_initial_stack, StartArgs};
use neumann::memory::map::{Segment, PAGE_SIZE};
use neumann::proc::scheduler::Scheduler;
use neumann::rt::args::Args;

const USER_SLOT: u64 = 0x5555_5559_0000;

fn synthetic_image(entry: u64, segments: &[(u64, u64)]) -> Vec<u8> {
    let mut image: Vec<u8> = Vec::new();
    image.extend_from_slice(b"\x7fELF\x02\x01\x01\x00");
    image.extend_from_slice(&[0u8; 8]);
    image.extend_from_slice(&2u16.to_le_bytes());
    image.extend_from_slice(&0x3eu16.to_le_bytes());
    image.extend_from_slice(&1u32.to_le_bytes());
    image.extend_from_slice(&entry.to_le_bytes());
    image.extend_from_slice(&64u64.to_le_bytes());
    image.extend_from_slice(&0u64.to_le_bytes());
    image.extend_from_slice(&0u32.to_le_bytes());
    image.extend_from_slice(&64u16.to_le_bytes());
    image.extend_from_slice(&56u16.to_le_bytes());
    image.extend_from_slice(&(segments.len() as u16).to_le_bytes());
    image.extend_from_slice(&0u16.to_le_bytes());
    image.extend_from_slice(&0u16.to_le_bytes());
    image.extend_from_slice(&0u16.to_le_bytes());
    for &(vaddr, memsz) in segments {
        image.extend_from_slice(&1u32.to_le_bytes());
        image.extend_from_slice(&6u32.to_le_bytes());
        image.extend_from_slice(&0u64.to_le_bytes());
        image.extend_from_slice(&vaddr.to_le_bytes());
        image.extend_from_slice(&vaddr.to_le_bytes());
        image.extend_from_slice(&0u64.to_le_bytes());
        image.extend_from_slice(&memsz.to_le_bytes());
        image.extend_from_slice(&PAGE_SIZE.to_le_bytes());
    }
    image
}

/// A kernel whose top-level table uses the slots of its image and its heap.
fn kernel_table() -> Vec<u64> {
    let mut table = vec![0u64; 512];
    table[0] = 0x1003;
    table[(HEAP_START >> 39) as usize & 511] = 0x2003;
    table
}

#[test]
fn hostile_images_are_rejected() {
    let mut truncated = synthetic_image(USER_SLOT, &[(USER_SLOT, PAGE_SIZE)]);
    truncated.truncate(70);
    let mut script = Vec::from(&b"#!/bin/sh\necho this is a script, not a program\n"[..]);
    script.resize(200, b' ');
    let mut wrong_class = synthetic_image(USER_SLOT, &[(USER_SLOT, PAGE_SIZE)]);
    wrong_class[4] = 1;
    let cases: [(&str, Vec<u8>, ElfError); 11] = [
        (
            "a segment on top of the kernel heap",
            synthetic_image(USER_SLOT, &[(HEAP_START, PAGE_SIZE)]),
            ElfError::SegmentInSharedSlot,
        ),
        (
            "a segment on top of the kernel image",
            synthetic_image(USER_SLOT, &[(0x20_0000, PAGE_SIZE)]),
            ElfError::SegmentInSharedSlot,
        ),
        (
            "two segments sharing one page",
            synthetic_image(USER_SLOT, &[(USER_SLOT, 0x10), (USER_SLOT + 0x100, 0x10)]),
            ElfError::SegmentsOverlap,
        ),
        (
            "a segment on top of the stack page",
            synthetic_image(USER_SLOT, &[(STACK_ADDR, PAGE_SIZE)]),
            ElfError::SegmentOverlapsStack,
        ),
        (
            "4 GiB of zeros from a 120-byte file",
            synthetic_image(USER_SLOT, &[(USER_SLOT, 0x1_0000_0000)]),
            ElfError::ImageTooLarge,
        ),
        (
            "a segment past the canonical boundary",
            synthetic_image(USER_SLOT, &[(USER_SPACE_END, PAGE_SIZE)]),
            ElfError::SegmentOutsideUserSpace,
        ),
        ("no loadable segments", synthetic_image(USER_SLOT, &[]), ElfError::NoLoadableSegments),
        ("a program header table past the end", truncated, ElfError::BadProgramHeaders),
        ("a shell script", script, ElfError::NotElf),
        ("a 32-bit file", wrong_class, ElfError::NotElf64),
        ("a file too short", Vec::from(&b"#!/bin/sh\n"[..]), ElfError::TooSmall),
    ];
    let base = kernel_table();
    for (name, image, expected) in cases.iter() {
        assert_eq!(load_image(&base, image).err(), Some(*expected), "{}", name);
    }
}

#[test]
fn oversized_arguments_are_rejected() {
    let good = synthetic_image(USER_SLOT, &[(USER_SLOT, PAGE_SIZE)]);
    let big = [0x41u8; 256];
    let many: [&[u8]; 8] = [&big; 8];
    let args = StartArgs { argv: &many, envp: &[] };
    assert_eq!(
        load_image_with_args(&kernel_table(), &good, &args).err(),
        Some(ElfError::ArgsTooLarge)
    );
    assert_eq!(sys_exec(&kernel_table(), &good, &args).err(), Some(ElfError::ArgsTooLarge));
}

#[test]
fn more_faults() {
    let base = kernel_table();
    let many: Vec<(u64, u64)> = (0..17).map(|i| (USER_SLOT + i * PAGE_SIZE, 1)).collect();
    assert_eq!(
        load_image(&base, &synthetic_image(USER_SLOT, &many)).err(),
        Some(ElfError::TooManySegments)
    );
    assert_eq!(
        load_image(&base, &synthetic_image(USER_SPACE_END, &[(USER_SLOT, 1)])).err(),
        Some(ElfError::SegmentOutsideUserSpace)
    );
    let mut past_end = synthetic_image(USER_SLOT, &[(USER_SLOT, PAGE_SIZE)]);
    past_end[64 + 32] = 200;
    assert_eq!(load_image(&base, &past_end).err(), Some(ElfError::SegmentOutOfFile));
}

#[test]
fn a_good_image_is_planned_page_by_page() {
    let mut image = synthetic_image(USER_SLOT + 4, &[(USER_SLOT + 4, PAGE_SIZE)]);
    // The segment's first 16 bytes come from the start of the file.
    image[64 + 32] = 16;
    let plan = load_image(&kernel_table(), &image).ok().unwrap();
    assert_eq!(plan.entry, USER_SLOT + 4);
    assert_eq!(plan.pages.len(), 3);
    assert_eq!(plan.pages[0].addr, USER_SLOT);
    assert_eq!(plan.pages[1].addr, USER_SLOT + PAGE_SIZE);
    assert_eq!(plan.pages[2].addr, STACK_ADDR);
    assert_eq!(&plan.pages[0].bytes[0..4], &[0, 0, 0, 0]);
    assert_eq!(&plan.pages[0].bytes[4..20], &image[0..16]);
    assert!(plan.pages[0].bytes[20..].iter().all(|&b| b == 0));
    assert!(plan.pages[1].bytes.iter().all(|&b| b == 0));
    // Readable, writable, open to the program, not executable.
    assert_eq!(plan.pages[0].flags, 0x8000_0000_0000_0007);
    assert_eq!(plan.pages[2].flags, 0x8000_0000_0000_0007);
    assert_eq!(
        plan.map.segments(),
        vec![Segment { base: USER_SLOT, pages: 2 }, Segment { base: STACK_ADDR, pages: 1 }]
    );
    assert_eq!(plan.stack_pointer % 16, 0);
    let loaded = plan.loaded_at(0x7000);
    assert_eq!((loaded.pml4, loaded.entry), (0x7000, USER_SLOT + 4));
}

#[test]
fn segment_flags_follow_the_program_header() {
    let mut image = synthetic_image(USER_SLOT, &[(USER_SLOT, 1)]);
    image[64 + 4] = 5;
    let plan = load_image(&kernel_table(), &image).ok().unwrap();
    // Readable and executable, but not writable.
    assert_eq!(plan.pages[0].flags, 0x5);
}

#[test]
fn headers_are_read() {
    let image = synthetic_image(USER_SLOT, &[(USER_SLOT, 9)]);
    let header = header_of(&image).unwrap();
    assert_eq!(header.entry, USER_SLOT);
    let ph = program_header(&image, &header, 0).unwrap();
    assert_eq!((ph.p_vaddr, ph.p_memsz, ph.p_filesz), (USER_SLOT, 9, 0));
}

#[test]
fn start_block_layout() {
    let argv: [&[u8]; 2] = [b"echo", b"hi"];
    let envp: [&[u8]; 1] = [b"PATH=/bin"];
    let args = StartArgs { argv: &argv, envp: &envp };
    let (page, sp) = write_initial_stack(&args);
    assert_eq!(page.len(), 4096);
    assert_eq!(sp % 16, 0);
    let at = (sp - STACK_ADDR) as usize;
    let word = |i: usize| {
        let mut w = [0u8; 8];
        w.copy_from_slice(&page[at + 8 * i..at + 8 * i + 8]);
        u64::from_le_bytes(w)
    };
    assert_eq!(word(0), 2);
    assert_eq!(word(3), 0);
    assert_eq!(word(5), 0);
    let string = |p: u64| {
        let from = (p - STACK_ADDR) as usize;
        let end = from + page[from..].iter().position(|&b| b == 0).unwrap();
        page[from..end].to_vec()
    };
    assert_eq!(string(word(1)), b"echo".to_vec());
    assert_eq!(string(word(2)), b"hi".to_vec());
    assert_eq!(string(word(4)), b"PATH=/bin".to_vec());
    // 5 + 3 + 10 bytes of strings, and eight words.
    assert_eq!(args.block_size(), Some(18 + 64));
}

#[test]
fn a_program_finds_its_arguments() {
    let argv: [&[u8]; 3] = [b"ls", b"", b"a\0b"];
    let envp: [&[u8]; 3] = [b"HOME=/", b"HOMER=x", b"EMPTY="];
    let (page, sp) = write_initial_stack(&StartArgs { argv: &argv, envp: &envp });
    let args = Args::from_stack(&page, STACK_ADDR, sp);
    assert_eq!(args.len(), 3);
    assert!(!args.is_empty());
    assert_eq!(args.get(0), Some(&b"ls"[..]));
    assert_eq!(args.get(1), Some(&b""[..]));
    assert_eq!(args.get(2), Some(&b"a"[..]));
    assert_eq!(args.get(3), None);
    assert_eq!(args.iter(), vec![&b"ls"[..], b"", b"a"]);
    assert_eq!(args.env(), vec![&b"HOME=/"[..], b"HOMER=x", b"EMPTY="]);
    assert_eq!(args.var(b"HOME"), Some(&b"/"[..]));
    assert_eq!(args.var(b"HOMER"), Some(&b"x"[..]));
    assert_eq!(args.var(b"EMPTY"), Some(&b""[..]));
    assert_eq!(args.var(b"HOM"), None);
    let (page, sp) = write_initial_stack(&StartArgs { argv: &[], envp: &[] });
    let none = Args::from_stack(&page, STACK_ADDR, sp);
    assert!(none.is_empty());
    assert_eq!(none.env().len(), 0);
}

#[test]
fn a_loaded_program_becomes_a_process() {
    let image = synthetic_image(USER_SLOT, &[(USER_SLOT, 1)]);
    let plan = load_image(&kernel_table(), &image).ok().unwrap();
    let loaded = plan.loaded_at(0x9000);
    let mut sched = Scheduler::new((0x1000, 0));
    let mut params = TaskParams::new();
    let frame =
        spawn_loaded(&mut sched, &mut params, 10, "hello", 6, 16, &loaded, 0x100, 0x8000, 0x200);
    assert_eq!(frame, vec![0, 0, 0, 0, 0, 0, 0x202, 0x200]);
    assert_eq!(params.task_entry(10), (USER_SLOT, plan.stack_pointer));
    let p = sched.at(14);
    assert_eq!((p.proc_nr, p.priority, p.cr3, p.rsp), (10, 6, Some(0x9000), 0x8000 - 64));
    assert!(p.is_ready());
}
