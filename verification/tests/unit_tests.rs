use size_profiler::binary::{
    container_of, describe_member, member_bytes, or_malformed, read_container,
    read_relative_base, read_sections, Container, MemberHeader,
};
use size_profiler::container::member_label;
use size_profiler::driver::check_layout;
use size_profiler::error::{LibraryField, ProfileError};
use size_profiler::library::{identify_library, LibraryInfo};
use size_profiler::paths::path_prefixes;
use size_profiler::resolver::{
    frames_for_address, get_outer_function_location, get_special_path, hash_of, label_of_frame,
    Frame,
};
use size_profiler::samples::time_of;
use size_profiler::sections::{extract_sections, first_overlap, RawSection, Section};
use size_profiler::symbols::{
    same_lookup, AddressInfo, FrameDebugInfo, SourceFilePath, SymbolInfo,
};
use size_profiler::text::{chars_of, push_decimal, push_hex, push_hex_fixed, same_text};
use wholesym::debugid::DebugId;

fn strings(list: &[&str]) -> Vec<String> {
    list.iter().map(|s| s.to_string()).collect()
}

#[test]
fn path_prefixes_of_an_absolute_path() {
    assert_eq!(path_prefixes("/src/a.cc"), strings(&["/src", "/src/a.cc"]));
    assert_eq!(path_prefixes("/a/b/c.cc"), strings(&["/a", "/a/b", "/a/b/c.cc"]));
}

#[test]
fn path_prefixes_of_a_relative_path() {
    assert_eq!(path_prefixes("a.cc"), strings(&["/a.cc"]));
    assert_eq!(path_prefixes("x/y"), strings(&["/x", "/x/y"]));
}

#[test]
fn path_prefixes_without_the_sandbox_prefix() {
    assert_eq!(
        path_prefixes("C:\\b\\s\\w\\ir\\cache\\builder\\src\\third_party\\x.cc"),
        strings(&["/src", "/src/third_party", "/src/third_party/x.cc"])
    );
    assert_eq!(
        path_prefixes("C:\\b\\s\\w\\ir\\cache\\builder\\C:\\b\\s\\w\\ir\\cache\\builder\\y.h"),
        strings(&["/y.h"])
    );
    assert_eq!(path_prefixes("C:\\b\\s\\w\\ir\\cache\\builder\\"), strings(&[]));
}

#[test]
fn path_prefixes_keep_a_prefix_that_is_not_the_sandbox() {
    assert_eq!(
        path_prefixes("C:\\b\\s\\w\\ir\\cache\\builderx\\y"),
        strings(&[
            "/C:",
            "/C:/b",
            "/C:/b/s",
            "/C:/b/s/w",
            "/C:/b/s/w/ir",
            "/C:/b/s/w/ir/cache",
            "/C:/b/s/w/ir/cache/builderx",
            "/C:/b/s/w/ir/cache/builderx/y",
        ])
    );
    assert_eq!(
        path_prefixes("/x/C:\\b\\s\\w\\ir\\cache\\builder\\y"),
        strings(&[
            "/x",
            "/x/C:",
            "/x/C:/b",
            "/x/C:/b/s",
            "/x/C:/b/s/w",
            "/x/C:/b/s/w/ir",
            "/x/C:/b/s/w/ir/cache",
            "/x/C:/b/s/w/ir/cache/builder",
            "/x/C:/b/s/w/ir/cache/builder/y",
        ])
    );
}

#[test]
fn path_prefixes_skip_empty_components() {
    assert_eq!(path_prefixes("a//b\\c/"), strings(&["/a", "/a/b", "/a/b/c"]));
    assert_eq!(path_prefixes(""), strings(&[]));
    assert_eq!(path_prefixes("///"), strings(&[]));
}

#[test]
fn path_prefixes_of_a_path_beyond_ascii() {
    assert_eq!(path_prefixes("/ü/é.rs"), strings(&["/ü", "/ü/é.rs"]));
}

#[test]
fn chars_of_a_text() {
    assert_eq!(chars_of("aé/"), vec!['a', 'é', '/']);
    assert_eq!(chars_of(""), Vec::<char>::new());
}

fn hex(n: u32) -> String {
    let mut out = String::from("0x");
    push_hex(&mut out, n);
    out
}

fn decimal(n: u32) -> String {
    let mut out = String::new();
    push_decimal(&mut out, n);
    out
}

#[test]
fn numbers_in_hexadecimal() {
    assert_eq!(hex(0), "0x0");
    assert_eq!(hex(9), "0x9");
    assert_eq!(hex(10), "0xa");
    assert_eq!(hex(16), "0x10");
    assert_eq!(hex(255), "0xff");
    assert_eq!(hex(0x1a2b3c), "0x1a2b3c");
    assert_eq!(hex(u32::MAX), "0xffffffff");
}

#[test]
fn numbers_in_decimal() {
    assert_eq!(decimal(0), "0");
    assert_eq!(decimal(7), "7");
    assert_eq!(decimal(10), "10");
    assert_eq!(decimal(16777223), "16777223");
    assert_eq!(decimal(u32::MAX), "4294967295");
}

#[test]
fn same_text_compares_by_value() {
    let a = Some("x".to_string());
    assert!(same_text(&a, &Some("x".to_string())));
    assert!(!same_text(&a, &Some("y".to_string())));
    assert!(!same_text(&a, &None));
    assert!(same_text(&None, &None));
}

#[test]
fn member_label_is_the_architecture_or_made_of_the_cpu_type() {
    assert_eq!(member_label(&Some("arm64".to_string()), 1, 2), "arm64");
    assert_eq!(
        member_label(&None, 16777223, 3),
        "Fat32 archive member with cputype 16777223 and cpusubtype 3"
    );
    assert_eq!(
        member_label(&None, 0, 0),
        "Fat32 archive member with cputype 0 and cpusubtype 0"
    );
}

#[test]
fn time_of_a_byte_is_its_offset_in_milliseconds() {
    assert_eq!(time_of(0), 0);
    assert_eq!(time_of(5), 5_000_000);
    assert_eq!(time_of(18_446_744_073_709), 18_446_744_073_709_000_000);
    assert_eq!(time_of(18_446_744_073_710), u64::MAX);
    assert_eq!(time_of(u64::MAX), u64::MAX);
}

fn file(raw: &str, display: &str, special: Option<&str>) -> SourceFilePath {
    SourceFilePath {
        raw_path: raw.to_string(),
        display_path: display.to_string(),
        mapped_special_path: special.map(|s| s.to_string()),
    }
}

fn frame(function: Option<&str>, path: Option<SourceFilePath>, line: Option<u32>) -> FrameDebugInfo {
    FrameDebugInfo { function: function.map(|s| s.to_string()), file_path: path, line_number: line }
}

fn symbol(address: u32, name: &str) -> SymbolInfo {
    SymbolInfo { address, size: Some(32), name: name.to_string() }
}

#[test]
fn outer_function_location_is_the_display_path_of_the_last_frame() {
    let inner = frame(Some("inl"), Some(file("/raw/h.h", "/shown/h.h", None)), Some(3));
    let outer = frame(Some("foo"), Some(file("/raw/a.cc", "/shown/a.cc", None)), Some(9));
    let info = Some(AddressInfo { symbol: symbol(0, "foo"), frames: Some(vec![inner, outer]) });
    assert_eq!(get_outer_function_location(&info), Some("/shown/a.cc".to_string()));
}

#[test]
fn outer_function_location_is_missing_without_a_file() {
    assert_eq!(get_outer_function_location(&None), None);
    let no_frames = Some(AddressInfo { symbol: symbol(0, "foo"), frames: None });
    assert_eq!(get_outer_function_location(&no_frames), None);
    let empty = Some(AddressInfo { symbol: symbol(0, "foo"), frames: Some(vec![]) });
    assert_eq!(get_outer_function_location(&empty), None);
    let inner = frame(Some("inl"), Some(file("/raw/h.h", "/shown/h.h", None)), None);
    let outer = frame(Some("foo"), None, None);
    let no_file = Some(AddressInfo { symbol: symbol(0, "foo"), frames: Some(vec![inner, outer]) });
    assert_eq!(get_outer_function_location(&no_file), None);
}

#[test]
fn special_path_is_the_mapped_path_or_the_raw_path() {
    let mapped = Some(file("/raw/a.cc", "a.cc", Some("git:repo:a.cc:rev")));
    assert_eq!(get_special_path(&mapped), Some("git:repo:a.cc:rev".to_string()));
    let raw = Some(file("/raw/a.cc", "a.cc", None));
    assert_eq!(get_special_path(&raw), Some("/raw/a.cc".to_string()));
    assert_eq!(get_special_path(&None), None);
}

#[test]
fn frames_of_an_unknown_address() {
    assert_eq!(
        frames_for_address(7, &None),
        vec![Frame::Label { text: "<unknown bytes>".to_string() }]
    );
}

#[test]
fn frames_of_a_symbol_without_debug_info() {
    let info = Some(AddressInfo { symbol: symbol(0x40, "foo"), frames: None });
    assert_eq!(
        frames_for_address(0x44, &info),
        vec![Frame::Symbolic {
            relative_address: 0x44,
            symbol: symbol(0x40, "foo"),
            name: "foo".to_string(),
            file_path: None,
            line: None,
            inline_depth: 0,
        }]
    );
}

#[test]
fn frames_stand_outermost_first_with_their_inline_depth() {
    let leaf = frame(Some("inl_leaf"), Some(file("/src/h.h", "/src/h.h", None)), Some(5));
    let middle = frame(None, Some(file("/src/m.h", "/src/m.h", Some("hg:r:m.h:1"))), None);
    let outer = frame(Some("foo"), Some(file("/src/a.cc", "/src/a.cc", None)), Some(70));
    let info =
        Some(AddressInfo { symbol: symbol(0x1a2b, "foo_sym"), frames: Some(vec![leaf, middle, outer]) });
    assert_eq!(
        frames_for_address(8, &info),
        vec![
            Frame::Symbolic {
                relative_address: 8,
                symbol: symbol(0x1a2b, "foo_sym"),
                name: "foo".to_string(),
                file_path: Some("/src/a.cc".to_string()),
                line: Some(70),
                inline_depth: 0,
            },
            Frame::Symbolic {
                relative_address: 8,
                symbol: symbol(0x1a2b, "foo_sym"),
                name: "unnamed_1a2b".to_string(),
                file_path: Some("hg:r:m.h:1".to_string()),
                line: None,
                inline_depth: 1,
            },
            Frame::Symbolic {
                relative_address: 8,
                symbol: symbol(0x1a2b, "foo_sym"),
                name: "inl_leaf".to_string(),
                file_path: Some("/src/h.h".to_string()),
                line: Some(5),
                inline_depth: 2,
            },
        ]
    );
}

#[test]
fn frames_of_an_address_without_frames() {
    let info = Some(AddressInfo { symbol: symbol(0, "foo"), frames: Some(vec![]) });
    assert_eq!(frames_for_address(8, &info), vec![]);
}

#[test]
fn lookups_are_compared_by_value() {
    let a = || {
        Some(AddressInfo {
            symbol: symbol(4, "foo"),
            frames: Some(vec![frame(Some("foo"), Some(file("r", "d", Some("m"))), Some(1))]),
        })
    };
    assert!(same_lookup(&a(), &a()));
    assert!(same_lookup(&None, &None));
    assert!(!same_lookup(&a(), &None));
    assert!(!same_lookup(&None, &a()));
    let mut other = a();
    other.as_mut().unwrap().symbol.address = 5;
    assert!(!same_lookup(&a(), &other));
    let mut other = a();
    other.as_mut().unwrap().symbol.size = None;
    assert!(!same_lookup(&a(), &other));
    let mut other = a();
    other.as_mut().unwrap().symbol.name = "bar".to_string();
    assert!(!same_lookup(&a(), &other));
    let mut other = a();
    other.as_mut().unwrap().frames = None;
    assert!(!same_lookup(&a(), &other));
    let mut other = a();
    other.as_mut().unwrap().frames.as_mut().unwrap()[0].line_number = Some(2);
    assert!(!same_lookup(&a(), &other));
    let mut other = a();
    other.as_mut().unwrap().frames.as_mut().unwrap()[0].function = None;
    assert!(!same_lookup(&a(), &other));
    let mut other = a();
    other.as_mut().unwrap().frames.as_mut().unwrap()[0].file_path = Some(file("r", "d", None));
    assert!(!same_lookup(&a(), &other));
    let mut other = a();
    other.as_mut().unwrap().frames.as_mut().unwrap()[0].file_path = Some(file("r", "x", Some("m")));
    assert!(!same_lookup(&a(), &other));
    let mut other = a();
    other.as_mut().unwrap().frames.as_mut().unwrap().push(frame(None, None, None));
    assert!(!same_lookup(&a(), &other));
}

fn raw(name: &str, file_offset: u64, compressed: u64, uncompressed: u64) -> RawSection {
    RawSection {
        file_offset,
        svma: 0x1000 + file_offset,
        compressed_size: compressed,
        uncompressed_size: uncompressed,
        kind: "Data".to_string(),
        name: Some(name.to_string()),
        is_compressed: compressed != uncompressed,
    }
}

fn kept(name: &str, file_offset: u64, size: u64, is_compressed: bool) -> Section {
    Section {
        file_offset,
        svma: 0x1000 + file_offset,
        size,
        kind: "Data".to_string(),
        name: name.to_string(),
        is_compressed,
    }
}

#[test]
fn extracted_sections_are_in_file_order_without_the_empty_ones() {
    let sections = extract_sections(vec![
        raw(".c", 300, 10, 10),
        raw(".empty", 5, 0, 0),
        raw(".a", 100, 20, 20),
        raw(".packed", 200, 30, 90),
        raw(".bss", 0, 0, 0),
    ]);
    assert_eq!(
        sections,
        Ok(vec![
            kept(".a", 100, 20, false),
            kept(".packed", 200, 30, true),
            kept(".c", 300, 10, false),
        ])
    );
}

#[test]
fn extracted_sections_at_the_same_offset_keep_their_order() {
    let sections = extract_sections(vec![
        raw(".second", 50, 0, 4),
        raw(".first", 10, 40, 40),
        raw(".third", 50, 0, 8),
        raw(".fourth", 50, 5, 5),
    ]);
    assert_eq!(
        sections,
        Ok(vec![
            kept(".first", 10, 40, false),
            kept(".second", 50, 0, true),
            kept(".third", 50, 0, true),
            kept(".fourth", 50, 5, false),
        ])
    );
}

#[test]
fn extracted_sections_that_overlap_are_rejected() {
    let sections =
        extract_sections(vec![raw(".b", 119, 10, 10), raw(".a", 100, 20, 20), raw(".z", 0, 1, 1)]);
    assert_eq!(sections, Err(ProfileError::OverlappingSections { index: 2 }));
    assert_eq!(extract_sections(vec![]), Ok(vec![]));
}

#[test]
fn first_overlap_and_layout() {
    let fine = vec![kept(".a", 0, 10, false), kept(".b", 10, 5, false), kept(".c", 20, 5, false)];
    assert_eq!(first_overlap(&fine), None);
    assert_eq!(check_layout(&fine, 25), Ok(()));
    assert_eq!(check_layout(&fine, 24), Err(ProfileError::TruncatedSection));
    let unordered = vec![kept(".b", 10, 5, false), kept(".a", 0, 10, false)];
    assert_eq!(first_overlap(&unordered), Some(1));
    assert_eq!(check_layout(&unordered, 100), Err(ProfileError::OverlappingSections { index: 1 }));
    let huge = vec![kept(".a", u64::MAX, u64::MAX, false), kept(".b", u64::MAX, 1, false)];
    assert_eq!(first_overlap(&huge), Some(1));
    assert_eq!(check_layout(&vec![kept(".a", u64::MAX, 1, false)], u64::MAX), Err(ProfileError::TruncatedSection));
    assert_eq!(check_layout(&vec![], 0), Ok(()));
}

fn library() -> LibraryInfo {
    LibraryInfo {
        name: Some("libx.so".to_string()),
        debug_name: Some("libx.so.debug".to_string()),
        path: Some("/usr/lib/libx.so".to_string()),
        debug_path: Some("/usr/lib/debug/libx.so".to_string()),
        debug_id: Some(DebugId::nil()),
        code_id: Some("abcd".to_string()),
        arch: None,
    }
}

#[test]
fn library_with_every_field_is_identified() {
    let identity = identify_library(library()).unwrap();
    assert_eq!(identity.name, "libx.so");
    assert_eq!(identity.debug_name, "libx.so.debug");
    assert_eq!(identity.path, "/usr/lib/libx.so");
    assert_eq!(identity.debug_path, "/usr/lib/debug/libx.so");
    assert_eq!(identity.debug_id, DebugId::nil());
    assert_eq!(identity.code_id, Some("abcd".to_string()));
    assert_eq!(identity.arch, None);
}

fn missing(info: LibraryInfo) -> Option<ProfileError> {
    identify_library(info).err()
}

#[test]
fn library_without_a_required_field_is_rejected() {
    let error = |field| Some(ProfileError::MissingLibraryInfo { field });
    assert_eq!(missing(LibraryInfo { name: None, ..library() }), error(LibraryField::Name));
    assert_eq!(
        missing(LibraryInfo { debug_name: None, ..library() }),
        error(LibraryField::DebugName)
    );
    assert_eq!(missing(LibraryInfo { path: None, ..library() }), error(LibraryField::Path));
    assert_eq!(
        missing(LibraryInfo { debug_path: None, ..library() }),
        error(LibraryField::DebugPath)
    );
    assert_eq!(missing(LibraryInfo { debug_id: None, ..library() }), error(LibraryField::DebugId));
    assert_eq!(
        missing(LibraryInfo { name: None, debug_id: None, ..library() }),
        error(LibraryField::Name)
    );
    assert!(identify_library(LibraryInfo { code_id: None, ..library() }).is_ok());
}

fn put16(out: &mut Vec<u8>, v: u16) {
    out.extend_from_slice(&v.to_le_bytes());
}

fn put32(out: &mut Vec<u8>, v: u32) {
    out.extend_from_slice(&v.to_le_bytes());
}

fn put64(out: &mut Vec<u8>, v: u64) {
    out.extend_from_slice(&v.to_le_bytes());
}

fn section_header(out: &mut Vec<u8>, name: u32, kind: u32, flags: u64, addr: u64, offset: u64, size: u64) {
    put32(out, name);
    put32(out, kind);
    put64(out, flags);
    put64(out, addr);
    put64(out, offset);
    put64(out, size);
    put32(out, 0);
    put32(out, 0);
    put64(out, 1);
    put64(out, 0);
}

/// A 64-bit little-endian ELF file with one segment at 0x400000 and the
/// sections `.rodata` at 160, `.text` at 128, `.bss` and `.shstrtab` at 168.
fn elf() -> Vec<u8> {
    let names = b"\0.text\0.rodata\0.bss\0.shstrtab\0";
    let mut out = vec![0x7f, b'E', b'L', b'F', 2, 1, 1, 0, 0, 0, 0, 0, 0, 0, 0, 0];
    put16(&mut out, 2);
    put16(&mut out, 0x3e);
    put32(&mut out, 1);
    put64(&mut out, 0x400080);
    put64(&mut out, 64);
    put64(&mut out, 200);
    put32(&mut out, 0);
    put16(&mut out, 64);
    put16(&mut out, 56);
    put16(&mut out, 1);
    put16(&mut out, 64);
    put16(&mut out, 5);
    put16(&mut out, 4);
    assert_eq!(out.len(), 64);
    put32(&mut out, 1);
    put32(&mut out, 5);
    put64(&mut out, 0);
    put64(&mut out, 0x400000);
    put64(&mut out, 0x400000);
    put64(&mut out, 168);
    put64(&mut out, 168);
    put64(&mut out, 0x1000);
    assert_eq!(out.len(), 120);
    out.resize(168, 0xcc);
    out.extend_from_slice(names);
    out.resize(200, 0);
    section_header(&mut out, 0, 0, 0, 0, 0, 0);
    section_header(&mut out, 7, 1, 0x2, 0x4000a0, 160, 8);
    section_header(&mut out, 1, 1, 0x6, 0x400080, 128, 16);
    section_header(&mut out, 15, 8, 0x3, 0x4000b0, 168, 32);
    section_header(&mut out, 20, 3, 0, 0, 168, names.len() as u64);
    out
}

#[test]
fn sections_of_an_elf_file() {
    let section = |name: &str, kind: &str, file_offset: u64, svma: u64, size: u64| Section {
        file_offset,
        svma,
        size,
        kind: kind.to_string(),
        name: name.to_string(),
        is_compressed: false,
    };
    assert_eq!(
        read_sections(&elf()),
        Ok(vec![
            section(".text", "Text", 128, 0x400080, 16),
            section(".rodata", "ReadOnlyData", 160, 0x4000a0, 8),
            section(".shstrtab", "Metadata", 168, 0, 30),
        ])
    );
}

#[test]
fn relative_base_of_an_elf_file() {
    assert_eq!(read_relative_base(&elf()), Ok(0x400000));
}

#[test]
fn an_elf_file_is_a_single_binary() {
    assert!(matches!(read_container(&elf()), Ok(Container::Single)));
}

#[test]
fn unreadable_bytes_are_a_malformed_container() {
    assert!(matches!(read_container(&[0u8; 64]), Err(ProfileError::MalformedContainer)));
    assert!(matches!(read_container(&[0x7f, b'E', b'L']), Err(ProfileError::MalformedContainer)));
    assert_eq!(read_sections(&[0u8; 64]), Err(ProfileError::MalformedContainer));
    assert_eq!(read_relative_base(&[]), Err(ProfileError::MalformedContainer));
    let mut broken = elf();
    broken.truncate(210);
    assert_eq!(read_sections(&broken), Err(ProfileError::MalformedContainer));
}

fn fat_header(members: &[(u32, u32, u32, u32)]) -> Vec<u8> {
    let mut out = vec![0xca, 0xfe, 0xba, 0xbe];
    out.extend_from_slice(&(members.len() as u32).to_be_bytes());
    for (cputype, cpusubtype, offset, size) in members {
        for field in [*cputype, *cpusubtype, *offset, *size, 12] {
            out.extend_from_slice(&field.to_be_bytes());
        }
    }
    out
}

#[test]
fn members_of_a_fat_container() {
    let data = fat_header(&[(0x0100_0007, 3, 4096, 1024), (0x0100_000c, 0, 5120, 1000)]);
    match read_container(&data) {
        Ok(Container::Fat { headers }) => assert_eq!(
            headers,
            vec![
                MemberHeader { offset: 4096, size: 1024, cputype: 0x0100_0007, cpusubtype: 3 },
                MemberHeader { offset: 5120, size: 1000, cputype: 0x0100_000c, cpusubtype: 0 },
            ]
        ),
        _ => panic!("not read as a fat container"),
    }
}

#[test]
fn fat_container_with_a_broken_header_is_malformed() {
    let mut data = fat_header(&[(7, 3, 4096, 1024), (12, 0, 5120, 1024)]);
    data.truncate(30);
    assert!(matches!(read_container(&data), Err(ProfileError::MalformedContainer)));
}

/// A 64-bit Mach-O file that holds nothing but its identifier.
fn macho(uuid: [u8; 16]) -> Vec<u8> {
    let mut out = Vec::new();
    put32(&mut out, 0xfeed_facf);
    put32(&mut out, 0x0100_0007);
    put32(&mut out, 3);
    put32(&mut out, 2);
    put32(&mut out, 1);
    put32(&mut out, 24);
    put32(&mut out, 0);
    put32(&mut out, 0);
    put32(&mut out, 0x1b);
    put32(&mut out, 24);
    out.extend_from_slice(&uuid);
    out
}

#[test]
fn member_is_described_by_its_header_and_its_bytes() {
    let uuid = [1, 2, 3, 4, 5, 6, 7, 8, 9, 10, 11, 12, 13, 14, 15, 16];
    let header = MemberHeader { offset: 4096, size: 56, cputype: 7, cpusubtype: 3 };
    let member = describe_member(&header, &macho(uuid), &Some("x86_64".to_string()));
    assert_eq!(member.member_start_file_offset, 4096);
    assert_eq!(member.member_size, 56);
    assert_eq!(member.disambiguator, Some(uuid));
    assert_eq!(member.arch_name, "x86_64");
    let unnamed = describe_member(&header, &elf(), &None);
    assert_eq!(unnamed.disambiguator, None);
    assert_eq!(unnamed.arch_name, "Fat32 archive member with cputype 7 and cpusubtype 3");
}

#[test]
fn hash_of_a_path() {
    assert_eq!(hash_of(""), 0xcbf2_9ce4_8422_2325);
    assert_eq!(hash_of("a"), 0xaf63_dc4c_8601_ec8c);
    assert_eq!(hash_of("foobar"), 0x8594_4171_f739_67e8);
    assert_ne!(hash_of("/src/a.cc"), hash_of("/src/b.cc"));
}

#[test]
fn inlined_leaf_has_inline_depth_one() {
    let leaf = frame(Some("inl_leaf"), Some(file("/src/h.h", "/src/h.h", None)), None);
    let outer = frame(Some("foo"), Some(file("/src/a.cc", "/src/a.cc", None)), None);
    let info = Some(AddressInfo { symbol: symbol(0, "foo"), frames: Some(vec![leaf, outer]) });
    let frames = frames_for_address(8, &info);
    let depths: Vec<(String, usize)> = frames
        .iter()
        .map(|frame| match frame {
            Frame::Symbolic { name, inline_depth, .. } => (name.clone(), *inline_depth),
            Frame::Label { text } => (text.clone(), usize::MAX),
        })
        .collect();
    assert_eq!(depths, vec![("foo".to_string(), 0), ("inl_leaf".to_string(), 1)]);
    assert_eq!(get_outer_function_location(&info), Some("/src/a.cc".to_string()));
}

#[test]
fn container_is_told_from_its_kind_and_its_members() {
    let header = MemberHeader { offset: 8, size: 4, cputype: 7, cpusubtype: 3 };
    assert!(matches!(container_of(Some(false), None), Ok(Container::Single)));
    assert!(matches!(container_of(Some(false), Some(vec![header])), Ok(Container::Single)));
    match container_of(Some(true), Some(vec![header])) {
        Ok(Container::Fat { headers }) => assert_eq!(headers, vec![header]),
        _ => panic!("not told as a fat container"),
    }
    assert!(matches!(container_of(Some(true), None), Err(ProfileError::MalformedContainer)));
    assert!(matches!(container_of(None, Some(vec![header])), Err(ProfileError::MalformedContainer)));
    assert_eq!(or_malformed(Some(5)), Ok(5));
    assert_eq!(or_malformed::<u64>(None), Err(ProfileError::MalformedContainer));
}

#[test]
fn member_bytes_lie_within_the_file() {
    let data = [10u8, 11, 12, 13, 14, 15];
    let header = |offset, size| MemberHeader { offset, size, cputype: 0, cpusubtype: 0 };
    assert_eq!(member_bytes(&data, &header(2, 3), 0), Ok(&data[2..5]));
    assert_eq!(member_bytes(&data, &header(0, 6), 0), Ok(&data[..]));
    assert_eq!(member_bytes(&data, &header(6, 0), 1), Ok(&data[6..]));
    assert_eq!(
        member_bytes(&data, &header(4, 3), 2),
        Err(ProfileError::TruncatedMember { index: 2 })
    );
    assert_eq!(
        member_bytes(&data, &header(u64::MAX, u64::MAX), 3),
        Err(ProfileError::TruncatedMember { index: 3 })
    );
}

#[test]
fn name_is_asked_of_kept_sections_only() {
    let unnamed = |file_offset, size| RawSection { name: None, ..raw("", file_offset, size, size) };
    assert_eq!(
        extract_sections(vec![raw(".a", 10, 5, 5), unnamed(0, 0)]),
        Ok(vec![kept(".a", 10, 5, false)])
    );
    assert_eq!(
        extract_sections(vec![raw(".a", 10, 5, 5), unnamed(20, 4)]),
        Err(ProfileError::MalformedContainer)
    );
    assert_eq!(
        extract_sections(vec![raw(".a", 10, 5, 5), raw(".b", 12, 5, 5), unnamed(20, 4)]),
        Err(ProfileError::MalformedContainer)
    );
}

#[test]
fn numbers_with_a_fixed_count_of_digits() {
    let fixed = |n: u64, width: usize| {
        let mut out = String::new();
        push_hex_fixed(&mut out, n, width);
        out
    };
    assert_eq!(fixed(0, 4), "0000");
    assert_eq!(fixed(0x1a2b, 8), "00001a2b");
    assert_eq!(fixed(0x1a2b, 2), "2b");
    assert_eq!(fixed(5, 0), "");
    assert_eq!(fixed(u64::MAX, 16), "ffffffffffffffff");
}

#[test]
fn label_of_a_frame_holds_all_of_the_frame() {
    assert_eq!(label_of_frame(&Frame::Label { text: "/src".to_string() }), "/src");
    let frame = Frame::Symbolic {
        relative_address: 0x1008,
        symbol: SymbolInfo { address: 0x1000, size: Some(16), name: "foo_sym".to_string() },
        name: "inl_leaf".to_string(),
        file_path: Some("/src/h.h".to_string()),
        line: Some(12),
        inline_depth: 1,
    };
    assert_eq!(
        label_of_frame(&frame),
        "inl_leaf /src/h.h foo_sym 0000000000001008000000000000100000000000000000110000000000\
         00000d00000000000000010000000000000001000000000000000800000000000000\
         07"
    );
    let bare = Frame::Symbolic {
        relative_address: 0,
        symbol: SymbolInfo { address: 0, size: None, name: "é".to_string() },
        name: "é".to_string(),
        file_path: None,
        line: None,
        inline_depth: 0,
    };
    assert_eq!(
        label_of_frame(&bare),
        format!("é  é {}{}{}", "0".repeat(16 * 7), "0".repeat(15), "1")
    );
    let differs = |other: Frame| assert_ne!(label_of_frame(&other), label_of_frame(&frame));
    let same = || frame.clone();
    let with = |change: &dyn Fn(&mut Frame)| {
        let mut other = same();
        change(&mut other);
        other
    };
    differs(with(&|f| if let Frame::Symbolic { line, .. } = f { *line = Some(13) }));
    differs(with(&|f| if let Frame::Symbolic { line, .. } = f { *line = None }));
    differs(with(&|f| if let Frame::Symbolic { file_path, .. } = f { *file_path = None }));
    differs(with(&|f| if let Frame::Symbolic { inline_depth, .. } = f { *inline_depth = 2 }));
    differs(with(&|f| if let Frame::Symbolic { relative_address, .. } = f { *relative_address = 9 }));
    differs(with(&|f| if let Frame::Symbolic { symbol, .. } = f { symbol.size = None }));
    let shifted = Frame::Symbolic {
        relative_address: 0x1008,
        symbol: SymbolInfo { address: 0x1000, size: Some(16), name: "h.h foo_sym".to_string() },
        name: "inl_leaf".to_string(),
        file_path: Some("/src/".to_string()),
        line: Some(12),
        inline_depth: 1,
    };
    differs(shifted);
}
