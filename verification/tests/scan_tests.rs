use fxprof_processed_profile::{CategoryHandle, Profile, StackHandle, ThreadHandle};
use size_profiler::container::{FatMember, FileScan};
use size_profiler::driver::{process_binary, BinaryScan};
use size_profiler::emitter::{process_section, RunLengthState, SectionScan};
use size_profiler::error::{LibraryField, ProfileError};
use size_profiler::library::LibraryInfo;
use size_profiler::resolver::{
    frames_for_address, get_path_stack, label_of_frame, stack_for_address, PathPrefixCache,
};
use size_profiler::sections::Section;
use size_profiler::sink::{begin_profile, push_label};
use size_profiler::symbols::{AddressInfo, FrameDebugInfo, SourceFilePath, SymbolInfo};

const OTHER: CategoryHandle = CategoryHandle::OTHER;

fn new_profile() -> (Profile, ThreadHandle, StackHandle) {
    let start = begin_profile("binary", OTHER);
    (start.profile, start.thread, start.root_stack)
}

/// The samples of the only thread as (timestamp in bytes, weight, labels of
/// the stack from the root down).
fn samples(profile: &Profile) -> Vec<(u64, i64, Vec<String>)> {
    let json = serde_json::to_value(profile).unwrap();
    let thread = &json["threads"][0];
    let strings = thread["stringArray"].as_array().unwrap();
    let func_names = thread["funcTable"]["name"].as_array().unwrap();
    let frame_funcs = thread["frameTable"]["func"].as_array().unwrap();
    let stack_frames = thread["stackTable"]["frame"].as_array().unwrap();
    let stack_prefixes = thread["stackTable"]["prefix"].as_array().unwrap();
    let sample_stacks = thread["samples"]["stack"].as_array().unwrap();
    let deltas = thread["samples"]["timeDeltas"].as_array().unwrap();
    let weights = thread["samples"]["weight"].as_array().unwrap();
    let mut out = Vec::new();
    let mut time = 0.0;
    for i in 0..sample_stacks.len() {
        time += deltas[i].as_f64().unwrap();
        let mut labels = Vec::new();
        let mut stack = sample_stacks[i].as_u64();
        while let Some(s) = stack {
            let frame = stack_frames[s as usize].as_u64().unwrap() as usize;
            let func = frame_funcs[frame].as_u64().unwrap() as usize;
            let name = func_names[func].as_u64().unwrap() as usize;
            labels.push(strings[name].as_str().unwrap().to_string());
            stack = stack_prefixes[s as usize].as_u64();
        }
        labels.reverse();
        out.push((time.round() as u64, weights[i].as_i64().unwrap(), labels));
    }
    out
}

fn section(name: &str, kind: &str, file_offset: u64, size: u64) -> Section {
    Section {
        file_offset,
        svma: 0x1000 + file_offset,
        size,
        kind: kind.to_string(),
        name: name.to_string(),
        is_compressed: false,
    }
}

fn frame(function: &str, path: &str) -> FrameDebugInfo {
    FrameDebugInfo {
        function: Some(function.to_string()),
        file_path: Some(SourceFilePath {
            raw_path: path.to_string(),
            display_path: path.to_string(),
            mapped_special_path: None,
        }),
        line_number: Some(1),
    }
}

fn lookup(symbol: &str, address: u32, frames: Vec<FrameDebugInfo>) -> Option<AddressInfo> {
    Some(AddressInfo {
        symbol: SymbolInfo { address, size: Some(16), name: symbol.to_string() },
        frames: Some(frames),
    })
}

fn foo() -> Option<AddressInfo> {
    lookup("foo", 0, vec![frame("foo", "/src/a.cc")])
}

fn bar() -> Option<AddressInfo> {
    lookup("bar", 16, vec![frame("bar", "/src/b.cc")])
}

fn repeat(info: Option<AddressInfo>, count: usize) -> Vec<Option<AddressInfo>> {
    (0..count).map(|_| info.clone()).collect()
}

fn labels(list: &[&str]) -> Vec<String> {
    list.iter().map(|s| s.to_string()).collect()
}

/// The labels of a stack: those given, and below them those of the frames
/// of `address`, for which the lookup gave `info`.
fn stack(above: &[&str], address: u32, info: &Option<AddressInfo>) -> Vec<String> {
    let mut all = labels(above);
    all.extend(frames_for_address(address, info).iter().map(label_of_frame));
    all
}

/// Emits the samples of a binary of a library that lacks nothing.
fn binary(
    profile: &mut Profile,
    stacks: (ThreadHandle, StackHandle),
    sections: &Vec<Section>,
    lookups: Vec<Vec<Option<AddressInfo>>>,
    base_addr: u64,
    timestamp_offset: u64,
    size: u64,
) -> Result<(), ProfileError> {
    let (thread, root) = stacks;
    process_binary(
        profile,
        thread,
        root,
        sections,
        library(),
        lookups,
        base_addr,
        OTHER,
        timestamp_offset,
        size,
    )
    .map(|_| ())
}

fn library() -> LibraryInfo {
    LibraryInfo {
        name: Some("libx.so".to_string()),
        debug_name: Some("libx.so".to_string()),
        path: Some("/usr/lib/libx.so".to_string()),
        debug_path: Some("/usr/lib/libx.so".to_string()),
        debug_id: Some(wholesym::debugid::DebugId::nil()),
        code_id: None,
        arch: None,
    }
}

#[test]
fn single_text_section_one_symbol() {
    let (mut profile, thread, root) = new_profile();
    let text = section(".text", "Text", 64, 16);
    let done = process_section(&mut profile, thread, root, &text, repeat(foo(), 16), 0, OTHER, 0);
    assert_eq!(done, Ok(()));
    assert_eq!(
        samples(&profile),
        vec![(64, 16, stack(&["(root)", ".text", "/src", "/src/a.cc"], 0x1040, &foo()))]
    );
}

#[test]
fn two_adjacent_functions() {
    let (mut profile, thread, root) = new_profile();
    let text = section(".text", "Text", 64, 32);
    let mut lookups = repeat(foo(), 16);
    lookups.extend(repeat(bar(), 16));
    let done = process_section(&mut profile, thread, root, &text, lookups, 0, OTHER, 0);
    assert_eq!(done, Ok(()));
    assert_eq!(
        samples(&profile),
        vec![
            (64, 16, stack(&["(root)", ".text", "/src", "/src/a.cc"], 0x1040, &foo())),
            (80, 16, stack(&["(root)", ".text", "/src", "/src/b.cc"], 0x1050, &bar())),
        ]
    );
}

#[test]
fn inlined_frames_stand_below_the_outer_function() {
    let (mut profile, thread, root) = new_profile();
    let text = section(".text", "Text", 0, 16);
    let inlined = lookup("foo", 0, vec![frame("inl_leaf", "/src/h.h"), frame("foo", "/src/a.cc")]);
    let mut lookups = repeat(foo(), 8);
    lookups.push(inlined.clone());
    lookups.extend(repeat(foo(), 7));
    let done = process_section(&mut profile, thread, root, &text, lookups, 0, OTHER, 0);
    assert_eq!(done, Ok(()));
    assert_eq!(
        samples(&profile),
        vec![
            (0, 8, stack(&["(root)", ".text", "/src", "/src/a.cc"], 0x1000, &foo())),
            (8, 1, stack(&["(root)", ".text", "/src", "/src/a.cc"], 0x1008, &inlined)),
            (9, 7, stack(&["(root)", ".text", "/src", "/src/a.cc"], 0x1009, &foo())),
        ]
    );
}

#[test]
fn unknown_region() {
    let (mut profile, thread, root) = new_profile();
    let text = section(".text", "Text", 0, 8);
    let done = process_section(&mut profile, thread, root, &text, repeat(None, 8), 0, OTHER, 0);
    assert_eq!(done, Ok(()));
    assert_eq!(
        samples(&profile),
        vec![(0, 8, labels(&["(root)", ".text", "<unknown path>", "<unknown bytes>"]))]
    );
}

#[test]
fn padding_between_sections() {
    let (mut profile, thread, root) = new_profile();
    let sections = vec![section(".text", "Text", 96, 4), section(".rodata", "ReadOnlyData", 128, 32)];
    let lookups = vec![repeat(foo(), 4), vec![]];
    let done = binary(&mut profile, (thread, root), &sections, lookups, 0, 0, 160);
    assert_eq!(done, Ok(()));
    assert_eq!(
        samples(&profile),
        vec![
            (0, 96, labels(&["(root)"])),
            (96, 4, stack(&["(root)", ".text", "/src", "/src/a.cc"], 0x1060, &foo())),
            (100, 28, labels(&["(root)"])),
            (128, 32, labels(&["(root)", ".rodata", "ReadOnlyData"])),
        ]
    );
}

#[test]
fn non_text_section_is_one_sample() {
    let (mut profile, thread, root) = new_profile();
    let data = section(".data", "Data", 10, 500);
    let done = process_section(&mut profile, thread, root, &data, vec![], 0, OTHER, 0);
    assert_eq!(done, Ok(()));
    assert_eq!(samples(&profile), vec![(10, 500, labels(&["(root)", ".data", "Data"]))]);
}

#[test]
fn binary_without_sections_is_one_sample_at_the_root() {
    let (mut profile, thread, root) = new_profile();
    let done = binary(&mut profile, (thread, root), &vec![], vec![], 0, 0, 4321);
    assert_eq!(done, Ok(()));
    assert_eq!(samples(&profile), vec![(0, 4321, labels(&["(root)"]))]);
}

#[test]
fn empty_text_section_has_one_sample_without_weight() {
    let (mut profile, thread, root) = new_profile();
    let text = section(".text", "Text", 40, 0);
    let done = process_section(&mut profile, thread, root, &text, vec![], 0, OTHER, 0);
    assert_eq!(done, Ok(()));
    assert_eq!(
        samples(&profile),
        vec![(40, 0, labels(&["(root)", ".text", "<unknown path>", "<unknown bytes>"]))]
    );
}

#[test]
fn timestamp_offset_moves_the_samples() {
    let (mut profile, thread, root) = new_profile();
    let sections = vec![section(".text", "Text", 8, 4)];
    let lookups = vec![repeat(None, 4)];
    let done = binary(&mut profile, (thread, root), &sections, lookups, 0, 1000, 16);
    assert_eq!(done, Ok(()));
    assert_eq!(
        samples(&profile),
        vec![
            (1000, 8, labels(&["(root)"])),
            (1008, 4, labels(&["(root)", ".text", "<unknown path>", "<unknown bytes>"])),
            (1012, 4, labels(&["(root)"])),
        ]
    );
}

#[test]
fn overlapping_sections_are_rejected() {
    let (mut profile, thread, root) = new_profile();
    let sections = vec![
        section(".a", "Data", 0, 10),
        section(".b", "Data", 10, 10),
        section(".c", "Data", 19, 10),
    ];
    let lookups = vec![vec![], vec![], vec![]];
    let done = binary(&mut profile, (thread, root), &sections, lookups, 0, 0, 100);
    assert_eq!(done, Err(ProfileError::OverlappingSections { index: 2 }));
    assert_eq!(samples(&profile), vec![]);
}

#[test]
fn truncated_section_is_rejected() {
    let (mut profile, thread, root) = new_profile();
    let sections = vec![section(".a", "Data", 0, 10), section(".b", "Data", 10, 10)];
    let lookups = vec![vec![], vec![]];
    let done = binary(&mut profile, (thread, root), &sections, lookups, 0, 0, 19);
    assert_eq!(done, Err(ProfileError::TruncatedSection));
    assert_eq!(samples(&profile), vec![]);
}

#[test]
fn too_heavy_sample_is_rejected() {
    let (mut profile, thread, root) = new_profile();
    let data = section(".data", "Data", 0, 0x8000_0000);
    let done = process_section(&mut profile, thread, root, &data, vec![], 0, OTHER, 0);
    assert_eq!(done, Err(ProfileError::WeightOverflow));
    let fits = section(".data", "Data", 0, 0x7fff_ffff);
    let done = process_section(&mut profile, thread, root, &fits, vec![], 0, OTHER, 0);
    assert_eq!(done, Ok(()));
}

#[test]
fn samples_account_for_every_byte() {
    let (mut profile, thread, root) = new_profile();
    let sections = vec![
        section(".text", "Text", 16, 40),
        section(".data", "Data", 64, 8),
        section(".init", "Text", 72, 3),
        section(".debug", "Debug", 100, 20),
    ];
    let mut text = repeat(foo(), 10);
    text.extend(repeat(None, 5));
    text.extend(repeat(bar(), 20));
    text.extend(repeat(foo(), 5));
    let lookups = vec![text, vec![], repeat(bar(), 3), vec![]];
    let size = 150;
    let done = binary(&mut profile, (thread, root), &sections, lookups, 0, 0, size);
    assert_eq!(done, Ok(()));
    let all = samples(&profile);
    assert_eq!(all.iter().map(|s| s.1).sum::<i64>(), size as i64);
    let mut next = 0;
    for (time, weight, _) in &all {
        assert_eq!(*time, next);
        next += *weight as u64;
    }
    assert_eq!(next, size);
    assert_eq!(all.len(), 11);
}

#[test]
fn equal_lookups_have_the_same_stack() {
    let (mut profile, thread, root) = new_profile();
    let section_stack = push_label(&mut profile, thread, OTHER, Some(root), ".text");
    let unknown_path = push_label(&mut profile, thread, OTHER, Some(section_stack), "<unknown path>");
    let text = profile.intern_string("<unknown bytes>");
    let unknown_bytes = profile.intern_frame(
        thread,
        fxprof_processed_profile::FrameInfo {
            frame: fxprof_processed_profile::Frame::Label(text),
            category_pair: OTHER.into(),
            flags: fxprof_processed_profile::FrameFlags::empty(),
        },
    );
    let mut cache = PathPrefixCache::new();
    let mut resolve = |address: u32, info: &Option<AddressInfo>, profile: &mut Profile| {
        stack_for_address(
            address,
            info,
            section_stack,
            unknown_path,
            unknown_bytes,
            thread,
            OTHER,
            profile,
            &mut cache,
        )
    };
    let first = resolve(0x10, &foo(), &mut profile);
    let other = resolve(0x10, &bar(), &mut profile);
    let second = resolve(0x10, &foo(), &mut profile);
    let elsewhere = resolve(0x30, &foo(), &mut profile);
    let nothing = resolve(0x40, &None, &mut profile);
    let nothing_again = resolve(0x50, &None, &mut profile);
    assert_eq!(first, second);
    assert_ne!(first, other);
    assert_ne!(first, elsewhere);
    assert_eq!(nothing, nothing_again);
    assert_ne!(nothing, first);
}

#[test]
fn path_stack_comes_from_the_cache_the_second_time() {
    let (mut profile, thread, root) = new_profile();
    let mut cache = PathPrefixCache::new();
    let first = get_path_stack(&foo(), root, thread, OTHER, &mut profile, &mut cache);
    let again = get_path_stack(&foo(), root, thread, OTHER, &mut profile, &mut cache);
    let other = get_path_stack(&bar(), root, thread, OTHER, &mut profile, &mut cache);
    let none = get_path_stack(&None, root, thread, OTHER, &mut profile, &mut cache);
    assert!(first.is_some());
    assert_eq!(first, again);
    assert_ne!(first, other);
    assert_eq!(none, None);
    let direct = push_label(&mut profile, thread, OTHER, Some(root), "/src");
    let direct = push_label(&mut profile, thread, OTHER, Some(direct), "/src/a.cc");
    assert_eq!(first, Some(direct));
}

#[test]
fn run_length_state_coalesces_equal_lookups() {
    let mut state = RunLengthState::new(100);
    assert!(state.push(7, foo()).is_none());
    assert!(state.push(8, foo()).is_none());
    assert!(state.push(9, foo()).is_none());
    let run = state.push(10, bar()).unwrap();
    assert_eq!((run.relative_address, run.bytes, run.file_offset), (7, 3, 100));
    assert_eq!(run.addr_info, foo());
    assert!(state.push(11, bar()).is_none());
    let run = state.push(12, None).unwrap();
    assert_eq!((run.relative_address, run.bytes, run.file_offset), (10, 2, 103));
    assert_eq!(run.addr_info, bar());
    let last = state.finish();
    assert_eq!((last.relative_address, last.bytes, last.file_offset), (12, 1, 105));
    assert_eq!(last.addr_info, None);
}

/// The runs that a sequence of lookups is cut into, as (first index, length).
fn runs_of(lookups: &[Option<AddressInfo>]) -> Vec<(u64, u64)> {
    let mut state = RunLengthState::new(0);
    let mut runs = Vec::new();
    for (i, info) in lookups.iter().enumerate() {
        if let Some(run) = state.push(i as u32, info.clone()) {
            runs.push((run.file_offset, run.bytes));
        }
    }
    let last = state.finish();
    if last.bytes > 0 {
        runs.push((last.file_offset, last.bytes));
    }
    runs
}

#[test]
fn two_halves_coalesce_into_the_runs_of_the_whole() {
    let mut whole = repeat(foo(), 5);
    whole.extend(repeat(bar(), 6));
    whole.extend(repeat(None, 3));
    assert_eq!(runs_of(&whole), vec![(0, 5), (5, 6), (11, 3)]);
    let (first, second) = whole.split_at(8);
    let first = runs_of(first);
    let second = runs_of(second);
    assert_eq!(first, vec![(0, 5), (5, 3)]);
    assert_eq!(second, vec![(0, 3), (3, 3)]);
    let mut joined = first.clone();
    let last = joined.pop().unwrap();
    joined.push((last.0, last.1 + second[0].1));
    joined.extend(second[1..].iter().map(|run| (run.0 + 8, run.1)));
    assert_eq!(joined, runs_of(&whole));
}

#[test]
fn section_scan_asks_for_every_address_in_turn() {
    let (mut profile, thread, root) = new_profile();
    let text = Section {
        file_offset: 32,
        svma: 0x2000,
        size: 3,
        kind: "Text".to_string(),
        name: ".text".to_string(),
        is_compressed: false,
    };
    let mut scan = SectionScan::begin(&mut profile, thread, root, &text, 0x1ff0, OTHER, 0);
    let mut asked = Vec::new();
    while let Some(address) = scan.next_address() {
        asked.push(address);
        assert_eq!(scan.feed(&mut profile, foo()), Ok(()));
    }
    assert_eq!(asked, vec![0x10, 0x11, 0x12]);
    assert_eq!(scan.finish(&mut profile), Ok(()));
    assert_eq!(
        samples(&profile),
        vec![(32, 3, stack(&["(root)", ".text", "/src", "/src/a.cc"], 0x10, &foo()))]
    );
}

#[test]
fn addresses_wrap_to_32_bits() {
    let (mut profile, thread, root) = new_profile();
    let text = Section {
        file_offset: 0,
        svma: 0x1_0000_0000,
        size: 2,
        kind: "Text".to_string(),
        name: ".text".to_string(),
        is_compressed: false,
    };
    let mut scan = SectionScan::begin(&mut profile, thread, root, &text, 1, OTHER, 0);
    assert_eq!(scan.next_address(), Some(0xffff_ffff));
    assert_eq!(scan.feed(&mut profile, None), Ok(()));
    assert_eq!(scan.next_address(), Some(0));
    let below = Section { svma: 0, ..text };
    let scan = SectionScan::begin(&mut profile, thread, root, &below, 1, OTHER, 0);
    assert_eq!(scan.next_address(), Some(0xffff_ffff));
}

#[test]
fn binary_scan_gives_what_the_batch_gives() {
    let sections = vec![
        section(".text", "Text", 16, 6),
        section(".data", "Data", 32, 8),
        section(".fini", "Text", 40, 2),
    ];
    let mut text = repeat(foo(), 4);
    text.extend(repeat(bar(), 2));
    let lookups = vec![text.clone(), vec![], repeat(None, 2)];

    let (mut batch, thread, root) = new_profile();
    let done = binary(&mut batch, (thread, root), &sections, lookups, 0x1000, 0, 50);
    assert_eq!(done, Ok(()));

    let (mut profile, thread, root) = new_profile();
    let mut scan =
        BinaryScan::begin(&profile, thread, root, sections.clone(), 0x1000, OTHER, 0, 50).unwrap();
    let mut asked = Vec::new();
    while let Some(address) = scan.advance(&mut profile).unwrap() {
        asked.push(address);
        let info = if address < 0x14 {
            foo()
        } else if address < 0x20 {
            bar()
        } else {
            None
        };
        assert_eq!(scan.feed(&mut profile, info), Ok(()));
    }
    assert_eq!(asked, vec![0x10, 0x11, 0x12, 0x13, 0x14, 0x15, 0x28, 0x29]);
    assert_eq!(samples(&profile), samples(&batch));
    assert_eq!(
        samples(&profile),
        vec![
            (0, 16, labels(&["(root)"])),
            (16, 4, stack(&["(root)", ".text", "/src", "/src/a.cc"], 0x10, &foo())),
            (20, 2, stack(&["(root)", ".text", "/src", "/src/b.cc"], 0x14, &bar())),
            (22, 10, labels(&["(root)"])),
            (32, 8, labels(&["(root)", ".data", "Data"])),
            (40, 2, labels(&["(root)", ".fini", "<unknown path>", "<unknown bytes>"])),
            (42, 8, labels(&["(root)"])),
        ]
    );
}

#[test]
fn binary_scan_rejects_a_bad_layout() {
    let (profile, thread, root) = new_profile();
    let overlapping = vec![section(".a", "Data", 0, 10), section(".b", "Data", 5, 10)];
    let began = BinaryScan::begin(&profile, thread, root, overlapping, 0, OTHER, 0, 100);
    assert_eq!(began.err(), Some(ProfileError::OverlappingSections { index: 1 }));
    let truncated = vec![section(".a", "Data", 0, 10)];
    let began = BinaryScan::begin(&profile, thread, root, truncated, 0, OTHER, 0, 9);
    assert_eq!(began.err(), Some(ProfileError::TruncatedSection));
}

fn member(start: u64, size: u64, name: &str) -> FatMember {
    FatMember {
        member_start_file_offset: start,
        member_size: size,
        disambiguator: None,
        arch_name: name.to_string(),
    }
}

fn enter(
    scan: &mut FileScan,
    profile: &mut Profile,
    member: FatMember,
    sections: Vec<Section>,
) -> Result<(), ProfileError> {
    scan.enter_member(profile, &member, library(), sections, 0).map(|_| ())
}

fn scan_member(scan: &mut FileScan, profile: &mut Profile) {
    while let Some(_) = scan.advance(profile).unwrap() {
        assert_eq!(scan.feed(profile, foo()), Ok(()));
    }
}

#[test]
fn fat_archive() {
    let (mut profile, thread, root) = new_profile();
    let mut scan = FileScan::begin(&profile, thread, root, OTHER, 6144);
    let first = vec![section("__text", "Text", 100, 24)];
    let second = vec![section("__data", "Data", 0, 1024)];
    assert_eq!(enter(&mut scan, &mut profile, member(4096, 1024, "x86_64"), first), Ok(()));
    scan_member(&mut scan, &mut profile);
    assert_eq!(enter(&mut scan, &mut profile, member(5120, 1024, "arm64"), second), Ok(()));
    scan_member(&mut scan, &mut profile);
    assert_eq!(scan.finish(&mut profile), Ok(()));
    assert_eq!(
        samples(&profile),
        vec![
            (0, 4096, labels(&["(root)"])),
            (4096, 100, labels(&["(root)", "x86_64"])),
            (
                4196,
                24,
                stack(&["(root)", "x86_64", "__text", "/src", "/src/a.cc"], 0x1064, &foo()),
            ),
            (4220, 900, labels(&["(root)", "x86_64"])),
            (5120, 1024, labels(&["(root)", "arm64", "__data", "Data"])),
            (6144, 0, labels(&["(root)"])),
        ]
    );
}

#[test]
fn fat_archive_with_padding_between_and_after_members() {
    let (mut profile, thread, root) = new_profile();
    let mut scan = FileScan::begin(&profile, thread, root, OTHER, 100);
    assert_eq!(enter(&mut scan, &mut profile, member(10, 20, "a"), vec![]), Ok(()));
    scan_member(&mut scan, &mut profile);
    assert_eq!(enter(&mut scan, &mut profile, member(40, 50, "b"), vec![]), Ok(()));
    scan_member(&mut scan, &mut profile);
    assert_eq!(scan.finish(&mut profile), Ok(()));
    let all = samples(&profile);
    assert_eq!(
        all,
        vec![
            (0, 10, labels(&["(root)"])),
            (10, 20, labels(&["(root)", "a"])),
            (30, 10, labels(&["(root)"])),
            (40, 50, labels(&["(root)", "b"])),
            (90, 10, labels(&["(root)"])),
            (100, 0, labels(&["(root)"])),
        ]
    );
    assert_eq!(all.iter().map(|s| s.1).sum::<i64>(), 100);
}

#[test]
fn single_binary_file() {
    let (mut profile, thread, root) = new_profile();
    let mut scan = FileScan::begin(&profile, thread, root, OTHER, 64);
    let sections = vec![section(".text", "Text", 8, 16)];
    assert_eq!(scan.enter_binary(&mut profile, library(), sections, 0x1000).map(|_| ()), Ok(()));
    let mut asked = Vec::new();
    while let Some(address) = scan.advance(&mut profile).unwrap() {
        asked.push(address);
        assert_eq!(scan.feed(&mut profile, foo()), Ok(()));
    }
    assert_eq!(asked, (8..24).collect::<Vec<u32>>());
    assert_eq!(scan.finish(&mut profile), Ok(()));
    assert_eq!(
        samples(&profile),
        vec![
            (0, 8, labels(&["(root)"])),
            (8, 16, stack(&["(root)", ".text", "/src", "/src/a.cc"], 8, &foo())),
            (24, 40, labels(&["(root)"])),
            (64, 0, labels(&["(root)"])),
        ]
    );
}

#[test]
fn overlapping_members_are_rejected() {
    let (mut profile, thread, root) = new_profile();
    let mut scan = FileScan::begin(&profile, thread, root, OTHER, 100);
    assert_eq!(enter(&mut scan, &mut profile, member(0, 20, "a"), vec![]), Ok(()));
    scan_member(&mut scan, &mut profile);
    let done = enter(&mut scan, &mut profile, member(19, 20, "b"), vec![]);
    assert_eq!(done, Err(ProfileError::OverlappingMembers { index: 1 }));
}

#[test]
fn truncated_member_is_rejected() {
    let (mut profile, thread, root) = new_profile();
    let mut scan = FileScan::begin(&profile, thread, root, OTHER, 100);
    let done = enter(&mut scan, &mut profile, member(90, 11, "a"), vec![]);
    assert_eq!(done, Err(ProfileError::TruncatedMember { index: 0 }));
    let done = enter(&mut scan, &mut profile, member(90, 10, "a"), vec![]);
    assert_eq!(done, Ok(()));
}

#[test]
fn member_with_bad_sections_is_rejected() {
    let (mut profile, thread, root) = new_profile();
    let mut scan = FileScan::begin(&profile, thread, root, OTHER, 100);
    let sections = vec![section(".a", "Data", 0, 30)];
    let done = enter(&mut scan, &mut profile, member(10, 20, "a"), sections);
    assert_eq!(done, Err(ProfileError::TruncatedSection));
}

#[test]
fn padding_that_is_too_heavy_is_rejected() {
    let (mut profile, thread, root) = new_profile();
    let mut scan = FileScan::begin(&profile, thread, root, OTHER, 0x8000_0000);
    assert_eq!(scan.finish(&mut profile), Err(ProfileError::WeightOverflow));

    let (mut profile, thread, root) = new_profile();
    let mut scan = FileScan::begin(&profile, thread, root, OTHER, 0x7fff_ffff);
    assert_eq!(scan.finish(&mut profile), Ok(()));
    assert_eq!(
        samples(&profile),
        vec![(0, 0x7fff_ffff, labels(&["(root)"])), (0x7fff_ffff, 0, labels(&["(root)"]))]
    );

    let (mut profile, thread, root) = new_profile();
    let mut scan = FileScan::begin(&profile, thread, root, OTHER, 0x1_0000_0000);
    let far = member(0x8000_0000, 16, "far");
    let done = enter(&mut scan, &mut profile, far, vec![]);
    assert_eq!(done, Err(ProfileError::WeightOverflow));
}

#[test]
fn binary_scan_stops_at_a_sample_that_is_too_heavy() {
    let (mut profile, thread, root) = new_profile();
    let sections = vec![section(".text", "Text", 0, 2), section(".data", "Data", 2, 0x8000_0000)];
    let mut scan =
        BinaryScan::begin(&profile, thread, root, sections, 0, OTHER, 0, 0x9000_0000).unwrap();
    assert_eq!(scan.advance(&mut profile), Ok(Some(0x1000)));
    assert_eq!(scan.feed(&mut profile, foo()), Ok(()));
    assert_eq!(scan.advance(&mut profile), Ok(Some(0x1001)));
    assert_eq!(scan.feed(&mut profile, bar()), Ok(()));
    assert_eq!(scan.advance(&mut profile), Err(ProfileError::WeightOverflow));
}

#[test]
fn new_profile_has_a_thread_that_weighs_in_bytes_and_a_root() {
    let start = begin_profile("libx.so", OTHER);
    let mut profile = start.profile;
    let again = push_label(&mut profile, start.thread, OTHER, None, "(root)");
    assert_eq!(again, start.root_stack);
    let json = serde_json::to_value(&profile).unwrap();
    assert_eq!(json["meta"]["product"], "size-profiler");
    assert_eq!(json["meta"]["interval"].as_f64(), Some(1.0));
    assert_eq!(json["meta"]["startTime"].as_f64(), Some(0.0));
    assert_eq!(json["meta"]["symbolicated"], true);
    assert_eq!(json["threads"].as_array().unwrap().len(), 1);
    let thread = &json["threads"][0];
    assert_eq!(thread["processName"], "libx.so");
    assert_eq!(thread["isMainThread"], true);
    assert_eq!(thread["pid"], "0");
    assert_eq!(thread["tid"], "0");
    assert_eq!(thread["samples"]["weightType"], "bytes");
    assert_eq!(thread["samples"]["length"], 0);
    assert_eq!(thread["stackTable"]["length"], 1);
    assert_eq!(samples(&profile), vec![]);
}

#[test]
fn sibling_inlinees_with_one_name_stay_distinct() {
    let (mut profile, thread, root) = new_profile();
    let section_stack = push_label(&mut profile, thread, OTHER, Some(root), ".text");
    let unknown_path = push_label(&mut profile, thread, OTHER, Some(section_stack), "<unknown path>");
    let text = profile.intern_string("<unknown bytes>");
    let unknown_bytes = profile.intern_frame(
        thread,
        fxprof_processed_profile::FrameInfo {
            frame: fxprof_processed_profile::Frame::Label(text),
            category_pair: OTHER.into(),
            flags: fxprof_processed_profile::FrameFlags::empty(),
        },
    );
    let mut cache = PathPrefixCache::new();
    let mut resolve = |info: &Option<AddressInfo>, profile: &mut Profile| {
        stack_for_address(
            8,
            info,
            section_stack,
            unknown_path,
            unknown_bytes,
            thread,
            OTHER,
            profile,
            &mut cache,
        )
    };
    let sibling = |path: &str, line: u32| {
        let mut inlined = frame("inl_leaf", path);
        inlined.line_number = Some(line);
        lookup("foo", 0, vec![inlined, frame("foo", "/src/a.cc")])
    };
    let first = resolve(&sibling("/src/h.h", 10), &mut profile);
    let other_line = resolve(&sibling("/src/h.h", 11), &mut profile);
    let other_file = resolve(&sibling("/src/g.h", 10), &mut profile);
    let again = resolve(&sibling("/src/h.h", 10), &mut profile);
    assert_ne!(first, other_line);
    assert_ne!(first, other_file);
    assert_ne!(other_line, other_file);
    assert_eq!(first, again);
}

#[test]
fn library_without_a_required_field_stops_the_binary() {
    let (mut profile, thread, root) = new_profile();
    let sections = vec![section(".data", "Data", 0, 8)];
    let incomplete = LibraryInfo { debug_path: None, ..library() };
    let done =
        process_binary(&mut profile, thread, root, &sections, incomplete, vec![vec![]], 0, OTHER, 0, 8);
    assert_eq!(
        done.map(|_| ()),
        Err(ProfileError::MissingLibraryInfo { field: LibraryField::DebugPath })
    );
    assert_eq!(samples(&profile), vec![]);
    let done =
        process_binary(&mut profile, thread, root, &sections, library(), vec![vec![]], 0, OTHER, 0, 8);
    let identity = done.unwrap();
    assert_eq!(identity.name, "libx.so");
    assert_eq!(identity.code_id, None);
    assert_eq!(samples(&profile).len(), 1);
}

#[test]
fn library_without_a_required_field_stops_the_member() {
    let (mut profile, thread, root) = new_profile();
    let mut scan = FileScan::begin(&profile, thread, root, OTHER, 100);
    let nameless = LibraryInfo { name: None, ..library() };
    let done = scan.enter_member(&mut profile, &member(10, 20, "a"), nameless, vec![], 0);
    assert_eq!(
        done.map(|_| ()),
        Err(ProfileError::MissingLibraryInfo { field: LibraryField::Name })
    );
    let unidentified = LibraryInfo { debug_id: None, ..library() };
    let done = scan.enter_binary(&mut profile, unidentified, vec![], 0);
    assert_eq!(
        done.map(|_| ()),
        Err(ProfileError::MissingLibraryInfo { field: LibraryField::DebugId })
    );
    assert_eq!(samples(&profile), vec![]);
    let done = scan.enter_binary(&mut profile, library(), vec![], 0);
    assert_eq!(done.unwrap().debug_name, "libx.so");
}
