//! From an address to its stack: section, path prefixes of the enclosing
//! function's source file, the enclosing function, and what was inlined into
//! it, outermost first.

use crate::paths::{path_prefixes, prefix_labels, texts};
use crate::sink::{
    distinct_handles, extends, intern_stack, interned_labels, interned_stacks, interned_strings,
    label_frame, labelled_child, lemma_extends_child, lemma_extends_known,
    lemma_extends_label_frame, lemma_extends_refl, lemma_extends_stack_at, lemma_extends_trans,
    lemma_pushed_all_concat, lemma_pushed_all_idle, lemma_pushed_all_same, lemma_pushed_all_step,
    lemma_stack_at_concat, lemma_stack_at_injective, lemma_stack_at_known, lemma_stack_at_one,
    push_label, pushed, pushed_all, recorded_samples, same_tables, stack_at, stack_known,
    thread_known,
};
use crate::symbols::{
    AddressInfo, AddressInfoView, FrameDebugInfo, FrameDebugInfoView, SourceFilePath,
    SourceFilePathView, SymbolInfo, SymbolInfoView, file_of, frames_of, lookup_of,
};
use crate::text::{
    hex_digits, hex_fixed, lemma_hex_fixed_injective, lemma_hex_fixed_len, lemma_sixteen_digits,
    push_hex, push_hex_fixed, text_of,
};
use fxprof_processed_profile::{CategoryHandle, FrameHandle, Profile, StackHandle, ThreadHandle};
use std::collections::HashMap;
use vstd::prelude::*;
use vstd::string::StringExecFns;

verus! {

/// Label of the node that holds the bytes whose source file is not known.
pub const UNKNOWN_PATH: &'static str = "<unknown path>";

/// Label of the frame that holds the bytes for which nothing was found.
pub const UNKNOWN_BYTES: &'static str = "<unknown bytes>";

/// What the name of a frame without a function begins with.
pub const UNNAMED: &'static str = "unnamed_";

/// One frame of a stack.
#[derive(Clone, Debug, PartialEq, Eq)]
pub enum Frame {
    /// A structural node that carries only a text.
    Label { text: String },
    /// A resolved code address of the binary that is being scanned.
    Symbolic {
        relative_address: u32,
        symbol: SymbolInfo,
        /// The function's name, or the name made up for a frame without one.
        name: String,
        file_path: Option<String>,
        line: Option<u32>,
        /// Zero for the function that stands in the binary, one for what was
        /// inlined into it, and so on inwards.
        inline_depth: usize,
    },
}

/// The values of a `Frame`.
pub enum FrameView {
    Label { text: Seq<char> },
    Symbolic {
        relative_address: u32,
        symbol: SymbolInfoView,
        name: Seq<char>,
        file_path: Option<Seq<char>>,
        line: Option<u32>,
        inline_depth: nat,
    },
}

impl View for Frame {
    type V = FrameView;

    open spec fn view(&self) -> FrameView {
        match *self {
            Frame::Label { text } => FrameView::Label { text: text@ },
            Frame::Symbolic { relative_address, symbol, name, file_path, line, inline_depth } => {
                FrameView::Symbolic {
                    relative_address,
                    symbol: symbol@,
                    name: name@,
                    file_path: text_of(file_path),
                    line,
                    inline_depth: inline_depth as nat,
                }
            },
        }
    }
}

/// The views of the frames of a list.
pub open spec fn frame_views(frames: Seq<Frame>) -> Seq<FrameView> {
    frames.map_values(|f: Frame| f@)
}

/// How many digits each number of a symbolic frame takes in its label.
pub const FIELD_WIDTH: usize = 16;

/// A number that may be missing, as one number: nothing as zero, a number as
/// the next higher.
pub open spec fn optional(n: Option<u32>) -> nat {
    match n {
        Some(v) => v as nat + 1,
        None => 0,
    }
}

/// A number of a symbolic frame as it stands in the label.
pub open spec fn field(n: nat) -> Seq<char> {
    hex_fixed(n, FIELD_WIDTH as nat)
}

/// The path of a frame as it stands in the label: nothing where the frame
/// names no file.
pub open spec fn file_text(file: Option<Seq<char>>) -> Seq<char> {
    match file {
        Some(path) => path,
        None => Seq::empty(),
    }
}

/// The numbers of a symbolic frame: relative address, address and size of
/// the symbol, line, inline depth, whether the frame names a file, and how
/// long that path and the name of the symbol are.
pub open spec fn frame_numbers(
    relative_address: u32,
    symbol: SymbolInfoView,
    file_path: Option<Seq<char>>,
    line: Option<u32>,
    inline_depth: nat,
) -> Seq<char> {
    field(relative_address as nat) + field(symbol.address as nat) + field(optional(symbol.size))
        + field(optional(line)) + field(inline_depth) + field(
        if file_path.is_some() {
            1
        } else {
            0
        },
    ) + field(file_text(file_path).len()) + field(symbol.name.len())
}

/// The text under which a frame stands in the profile, which holds every
/// frame as a label. That of a label is its text. That of a symbolic frame
/// begins with its name; its path, the name of its symbol and its numbers
/// follow, each after a blank, so that no two symbolic frames stand under
/// the same text.
pub open spec fn frame_label(frame: FrameView) -> Seq<char> {
    match frame {
        FrameView::Label { text } => text,
        FrameView::Symbolic { relative_address, symbol, name, file_path, line, inline_depth } => {
            name + seq![' '] + file_text(file_path) + seq![' '] + symbol.name + seq![' ']
                + frame_numbers(relative_address, symbol, file_path, line, inline_depth)
        },
    }
}

/// The numbers of the frame fit into the digits that the label has for them.
pub open spec fn fits_label(frame: FrameView) -> bool {
    match frame {
        FrameView::Label { .. } => true,
        FrameView::Symbolic { symbol, file_path, inline_depth, .. } => {
            &&& inline_depth <= u64::MAX
            &&& file_text(file_path).len() <= u64::MAX
            &&& symbol.name.len() <= u64::MAX
        },
    }
}

/// Frame identity: two symbolic frames stand under the same text only where
/// they are the same in everything, be it address, symbol, function, file,
/// line or inline depth.
#[verifier::rlimit(50)]
pub proof fn lemma_frame_label_injective(a: FrameView, b: FrameView)
    requires
        a is Symbolic,
        b is Symbolic,
        fits_label(a),
        fits_label(b),
        frame_label(a) == frame_label(b),
    ensures
        a == b,
{
    let w = FIELD_WIDTH as nat;
    let ta = frame_numbers(
        a->relative_address,
        a->symbol,
        a->file_path,
        a->line,
        a->inline_depth,
    );
    let tb = frame_numbers(
        b->relative_address,
        b->symbol,
        b->file_path,
        b->line,
        b->inline_depth,
    );
    let la = frame_label(a);
    let lb = frame_label(b);
    lemma_numbers_len(a->relative_address, a->symbol, a->file_path, a->line, a->inline_depth);
    lemma_numbers_len(b->relative_address, b->symbol, b->file_path, b->line, b->inline_depth);
    assert(ta =~= la.subrange(la.len() - 8 * w, la.len() as int));
    assert(tb =~= lb.subrange(lb.len() - 8 * w, lb.len() as int));
    lemma_numbers_injective(
        a->relative_address,
        a->symbol,
        a->file_path,
        a->line,
        a->inline_depth,
        b->relative_address,
        b->symbol,
        b->file_path,
        b->line,
        b->inline_depth,
    );
    let files = file_text(a->file_path).len();
    let names = a->symbol.name.len();
    let end = la.len() - 8 * w - 1;
    assert(a->symbol.name =~= la.subrange(end - names, end));
    assert(b->symbol.name =~= lb.subrange(end - names, end));
    assert(file_text(a->file_path) =~= la.subrange(end - names - 1 - files, end - names - 1));
    assert(file_text(b->file_path) =~= lb.subrange(end - names - 1 - files, end - names - 1));
    assert(a->name =~= la.subrange(0, end - names - 1 - files - 1));
    assert(b->name =~= lb.subrange(0, end - names - 1 - files - 1));
    assert(a->symbol.size == b->symbol.size);
    assert(a->line == b->line);
    assert(a->file_path == b->file_path);
    assert(a->symbol == b->symbol);
}

/// The numbers of a symbolic frame take eight fields.
proof fn lemma_numbers_len(
    relative_address: u32,
    symbol: SymbolInfoView,
    file_path: Option<Seq<char>>,
    line: Option<u32>,
    inline_depth: nat,
)
    ensures
        frame_numbers(relative_address, symbol, file_path, line, inline_depth).len() == 8
            * FIELD_WIDTH,
{
    let w = FIELD_WIDTH as nat;
    lemma_hex_fixed_len(relative_address as nat, w);
    lemma_hex_fixed_len(symbol.address as nat, w);
    lemma_hex_fixed_len(optional(symbol.size), w);
    lemma_hex_fixed_len(optional(line), w);
    lemma_hex_fixed_len(inline_depth, w);
    lemma_hex_fixed_len(1, w);
    lemma_hex_fixed_len(0, w);
    lemma_hex_fixed_len(file_text(file_path).len(), w);
    lemma_hex_fixed_len(symbol.name.len(), w);
}

/// Two symbolic frames with the same numbers in their labels have the same
/// address, symbol address and size, line and inline depth, both name a file
/// or neither does, and their paths and symbol names are equally long.
#[verifier::rlimit(50)]
proof fn lemma_numbers_injective(
    address_a: u32,
    symbol_a: SymbolInfoView,
    file_a: Option<Seq<char>>,
    line_a: Option<u32>,
    depth_a: nat,
    address_b: u32,
    symbol_b: SymbolInfoView,
    file_b: Option<Seq<char>>,
    line_b: Option<u32>,
    depth_b: nat,
)
    requires
        depth_a <= u64::MAX,
        depth_b <= u64::MAX,
        file_text(file_a).len() <= u64::MAX,
        file_text(file_b).len() <= u64::MAX,
        symbol_a.name.len() <= u64::MAX,
        symbol_b.name.len() <= u64::MAX,
        frame_numbers(address_a, symbol_a, file_a, line_a, depth_a) == frame_numbers(
            address_b,
            symbol_b,
            file_b,
            line_b,
            depth_b,
        ),
    ensures
        address_a == address_b,
        symbol_a.address == symbol_b.address,
        optional(symbol_a.size) == optional(symbol_b.size),
        optional(line_a) == optional(line_b),
        depth_a == depth_b,
        file_a.is_some() == file_b.is_some(),
        file_text(file_a).len() == file_text(file_b).len(),
        symbol_a.name.len() == symbol_b.name.len(),
{
    let a0 = address_a as nat;
    let a1 = symbol_a.address as nat;
    let a2 = optional(symbol_a.size);
    let a3 = optional(line_a);
    let a4 = depth_a;
    let a5: nat = if file_a.is_some() {
        1
    } else {
        0
    };
    let a6 = file_text(file_a).len();
    let a7 = symbol_a.name.len();
    let b0 = address_b as nat;
    let b1 = symbol_b.address as nat;
    let b2 = optional(symbol_b.size);
    let b3 = optional(line_b);
    let b4 = depth_b;
    let b5: nat = if file_b.is_some() {
        1
    } else {
        0
    };
    let b6 = file_text(file_b).len();
    let b7 = symbol_b.name.len();
    lemma_same_field(
        field(a0) + field(a1) + field(a2) + field(a3) + field(a4) + field(a5) + field(a6),
        a7,
        field(b0) + field(b1) + field(b2) + field(b3) + field(b4) + field(b5) + field(b6),
        b7,
    );
    lemma_same_field(
        field(a0) + field(a1) + field(a2) + field(a3) + field(a4) + field(a5),
        a6,
        field(b0) + field(b1) + field(b2) + field(b3) + field(b4) + field(b5),
        b6,
    );
    lemma_same_field(
        field(a0) + field(a1) + field(a2) + field(a3) + field(a4),
        a5,
        field(b0) + field(b1) + field(b2) + field(b3) + field(b4),
        b5,
    );
    lemma_same_field(
        field(a0) + field(a1) + field(a2) + field(a3),
        a4,
        field(b0) + field(b1) + field(b2) + field(b3),
        b4,
    );
    lemma_same_field(
        field(a0) + field(a1) + field(a2),
        a3,
        field(b0) + field(b1) + field(b2),
        b3,
    );
    lemma_same_field(field(a0) + field(a1), a2, field(b0) + field(b1), b2);
    lemma_same_field(field(a0), a1, field(b0), b1);
    lemma_same_field(Seq::empty(), a0, Seq::empty(), b0);
}

/// Two texts that end with a number each and are the same end with the
/// same number, and are the same before it.
proof fn lemma_same_field(before_a: Seq<char>, a: nat, before_b: Seq<char>, b: nat)
    requires
        a <= u64::MAX,
        b <= u64::MAX,
        before_a + field(a) == before_b + field(b),
    ensures
        a == b,
        before_a == before_b,
{
    let w = FIELD_WIDTH as nat;
    let whole = before_a + field(a);
    lemma_hex_fixed_len(a, w);
    lemma_hex_fixed_len(b, w);
    lemma_sixteen_digits();
    assert(whole.len() == before_a.len() + w);
    assert((before_b + field(b)).len() == before_b.len() + w);
    assert(before_a.len() == before_b.len());
    assert(field(a) =~= whole.subrange(before_a.len() as int, whole.len() as int));
    assert(field(b) =~= (before_b + field(b)).subrange(before_b.len() as int, whole.len() as int));
    assert(before_a =~= whole.subrange(0, before_a.len() as int));
    assert(before_b =~= (before_b + field(b)).subrange(0, before_b.len() as int));
    lemma_hex_fixed_injective(a, b, w);
}

/// Appends the numbers of a symbolic frame to its label.
#[verifier::rlimit(50)]
fn push_numbers(
    label: &mut String,
    relative_address: u32,
    symbol: &SymbolInfo,
    file_path: &Option<String>,
    line: &Option<u32>,
    inline_depth: usize,
)
    ensures
        final(label)@ == old(label)@ + frame_numbers(
            relative_address,
            symbol@,
            text_of(*file_path),
            *line,
            inline_depth as nat,
        ),
        file_text(text_of(*file_path)).len() <= u64::MAX,
        symbol@.name.len() <= u64::MAX,
{
    let size: u64 = match symbol.size {
        Some(size) => size as u64 + 1,
        None => 0,
    };
    let line_number: u64 = match line {
        Some(line) => *line as u64 + 1,
        None => 0,
    };
    let (named, file_length): (u64, usize) = match file_path {
        Some(path) => (1, path.as_str().unicode_len()),
        None => (0, 0),
    };
    let name_length = symbol.name.as_str().unicode_len();
    let ghost file = text_of(*file_path);
    let ghost flag: nat = if file.is_some() {
        1
    } else {
        0
    };
    let mut numbers = String::new();
    push_hex_fixed(&mut numbers, relative_address as u64, FIELD_WIDTH);
    assert(numbers@ =~= field(relative_address as nat));
    push_hex_fixed(&mut numbers, symbol.address as u64, FIELD_WIDTH);
    assert(numbers@ == field(relative_address as nat) + field(symbol.address as nat));
    push_hex_fixed(&mut numbers, size, FIELD_WIDTH);
    assert(numbers@ == field(relative_address as nat) + field(symbol.address as nat) + field(
        optional(symbol.size),
    ));
    push_hex_fixed(&mut numbers, line_number, FIELD_WIDTH);
    assert(numbers@ == field(relative_address as nat) + field(symbol.address as nat) + field(
        optional(symbol.size),
    ) + field(optional(*line)));
    push_hex_fixed(&mut numbers, inline_depth as u64, FIELD_WIDTH);
    assert(numbers@ == field(relative_address as nat) + field(symbol.address as nat) + field(
        optional(symbol.size),
    ) + field(optional(*line)) + field(inline_depth as nat));
    push_hex_fixed(&mut numbers, named, FIELD_WIDTH);
    assert(numbers@ == field(relative_address as nat) + field(symbol.address as nat) + field(
        optional(symbol.size),
    ) + field(optional(*line)) + field(inline_depth as nat) + field(flag));
    push_hex_fixed(&mut numbers, file_length as u64, FIELD_WIDTH);
    assert(numbers@ == field(relative_address as nat) + field(symbol.address as nat) + field(
        optional(symbol.size),
    ) + field(optional(*line)) + field(inline_depth as nat) + field(flag) + field(
        file_text(file).len(),
    ));
    push_hex_fixed(&mut numbers, name_length as u64, FIELD_WIDTH);
    assert(numbers@ == frame_numbers(
        relative_address,
        symbol@,
        file,
        *line,
        inline_depth as nat,
    ));
    label.append(numbers.as_str());
}

/// The text under which `frame` stands in the profile.
pub fn label_of_frame(frame: &Frame) -> (label: String)
    ensures
        label@ == frame_label(frame@),
        fits_label(frame@),
{
    match frame {
        Frame::Label { text } => text.clone(),
        Frame::Symbolic { relative_address, symbol, name, file_path, line, inline_depth } => {
            let mut label = name.clone();
            label.append(" ");
            match file_path {
                Some(path) => {
                    label.append(path.as_str());
                },
                None => {},
            }
            label.append(" ");
            label.append(symbol.name.as_str());
            label.append(" ");
            let ghost head = label@;
            proof {
                reveal_strlit(" ");
                assert(" "@ =~= seq![' ']);
                assert(head =~= name@ + seq![' '] + file_text(text_of(*file_path)) + seq![' ']
                    + symbol@.name + seq![' ']);
            }
            push_numbers(&mut label, *relative_address, symbol, file_path, line, *inline_depth);
            label
        },
    }
}

/// The display path of the source file of the function that encloses the
/// address: that of the last frame, where there are frames and the last one
/// names a file.
pub open spec fn outer_location(info: Option<AddressInfoView>) -> Option<Seq<char>> {
    match info {
        Some(AddressInfoView { frames: Some(frames), .. }) => if frames.len() > 0 {
            match frames.last().file_path {
                Some(path) => Some(path.display_path),
                None => None,
            }
        } else {
            None
        },
        _ => None,
    }
}

/// The path that a frame's source location carries: the special path of the
/// mapped path where there is one, else the raw path.
pub open spec fn special_path(file: Option<SourceFilePathView>) -> Option<Seq<char>> {
    match file {
        Some(f) => match f.mapped_special_path {
            Some(special) => Some(special),
            None => Some(f.raw_path),
        },
        None => None,
    }
}

/// The name of a frame: its function, or `unnamed_` and the symbol's address
/// in hexadecimal where it has none.
pub open spec fn frame_name(symbol: SymbolInfoView, frame: FrameDebugInfoView) -> Seq<char> {
    match frame.function {
        Some(name) => name,
        None => UNNAMED@ + hex_digits(symbol.address as nat),
    }
}

/// The frames of a resolved address, outermost first: one per reported
/// frame, in reverse of the order in which they were reported, or one for the
/// symbol where no frames were reported.
pub open spec fn symbolic_frames(relative_address: u32, info: AddressInfoView) -> Seq<FrameView> {
    match info.frames {
        Some(frames) => Seq::new(
            frames.len(),
            |i: int|
                FrameView::Symbolic {
                    relative_address,
                    symbol: info.symbol,
                    name: frame_name(info.symbol, frames[frames.len() - 1 - i]),
                    file_path: special_path(frames[frames.len() - 1 - i].file_path),
                    line: frames[frames.len() - 1 - i].line_number,
                    inline_depth: i as nat,
                },
        ),
        None => seq![
            FrameView::Symbolic {
                relative_address,
                symbol: info.symbol,
                name: info.symbol.name,
                file_path: None,
                line: None,
                inline_depth: 0,
            },
        ],
    }
}

/// The frames that stand below the path prefixes: those of the resolved
/// address, or the unknown-bytes label where the lookup found nothing.
pub open spec fn address_frames(relative_address: u32, info: Option<AddressInfoView>) -> Seq<
    FrameView,
> {
    match info {
        Some(i) => symbolic_frames(relative_address, i),
        None => seq![FrameView::Label { text: UNKNOWN_BYTES@ }],
    }
}

/// The labels of the path part of a stack: the cumulative prefixes of the
/// enclosing function's source path, or the unknown-path label.
pub open spec fn path_labels(info: Option<AddressInfoView>) -> Seq<Seq<char>> {
    match outer_location(info) {
        Some(path) => prefix_labels(path),
        None => seq![UNKNOWN_PATH@],
    }
}

/// The labels of the stack of an address below its section, outermost first.
pub open spec fn stack_labels(relative_address: u32, info: Option<AddressInfoView>) -> Seq<
    Seq<char>,
> {
    path_labels(info) + address_frames(relative_address, info).map_values(
        |f: FrameView| frame_label(f),
    )
}

/// The frames of the stack of an address below its section, outermost
/// first: one label per path prefix, then the frames of the address.
pub open spec fn stack_frames(relative_address: u32, info: Option<AddressInfoView>) -> Seq<
    FrameView,
> {
    path_labels(info).map_values(|text: Seq<char>| FrameView::Label { text }) + address_frames(
        relative_address,
        info,
    )
}

/// The stack reached from `start` by descending through `frames`, outermost
/// first, if the profile has all of them.
pub open spec fn stack_of(
    profile: Profile,
    thread: ThreadHandle,
    category: CategoryHandle,
    start: StackHandle,
    frames: Seq<FrameView>,
) -> Option<StackHandle> {
    stack_at(profile, thread, category, start, frames.map_values(|f: FrameView| frame_label(f)))
}

/// The labels of the stack of an address are those of its frames.
pub proof fn lemma_stack_labels_of_frames(relative_address: u32, info: Option<AddressInfoView>)
    ensures
        stack_labels(relative_address, info) == stack_frames(relative_address, info).map_values(
            |f: FrameView| frame_label(f),
        ),
{
    assert(stack_labels(relative_address, info) =~= stack_frames(
        relative_address,
        info,
    ).map_values(|f: FrameView| frame_label(f)));
}

/// The display path of the source file of the function that encloses the
/// address.
pub fn get_outer_function_location(addr_info: &Option<AddressInfo>) -> (path: Option<String>)
    ensures
        text_of(path) == outer_location(lookup_of(*addr_info)),
{
    match addr_info {
        Some(info) => match &info.frames {
            Some(frames) => {
                if frames.len() == 0 {
                    return None;
                }
                let last = &frames[frames.len() - 1];
                assert(lookup_of(*addr_info).unwrap().frames.unwrap().last() == last@);
                match &last.file_path {
                    Some(file) => Some(file.display_path.clone()),
                    None => None,
                }
            },
            None => None,
        },
        None => None,
    }
}

/// The path that the source location of a frame carries.
pub fn get_special_path(file_path: &Option<SourceFilePath>) -> (path: Option<String>)
    ensures
        text_of(path) == special_path(file_of(*file_path)),
{
    match file_path {
        Some(file) => match &file.mapped_special_path {
            Some(special) => Some(special.clone()),
            None => Some(file.raw_path.clone()),
        },
        None => None,
    }
}

fn copy_symbol(symbol: &SymbolInfo) -> (copy: SymbolInfo)
    ensures
        copy@ == symbol@,
{
    SymbolInfo { address: symbol.address, size: symbol.size, name: symbol.name.clone() }
}

fn name_of_frame(symbol: &SymbolInfo, frame: &FrameDebugInfo) -> (name: String)
    ensures
        name@ == frame_name(symbol@, frame@),
{
    match &frame.function {
        Some(function) => function.clone(),
        None => {
            let mut name = String::from_str(UNNAMED);
            push_hex(&mut name, symbol.address);
            name
        },
    }
}

/// The frames that stand below the path prefixes of the stack of
/// `relative_address`, outermost first.
pub fn frames_for_address(relative_address: u32, addr_info: &Option<AddressInfo>) -> (frames: Vec<
    Frame,
>)
    ensures
        frame_views(frames@) == address_frames(relative_address, lookup_of(*addr_info)),
        frames.len() == address_frames(relative_address, lookup_of(*addr_info)).len(),
{
    let mut out: Vec<Frame> = Vec::new();
    match addr_info {
        None => {
            out.push(Frame::Label { text: String::from_str(UNKNOWN_BYTES) });
            assert(frame_views(out@) =~= address_frames(relative_address, lookup_of(*addr_info)));
        },
        Some(info) => match &info.frames {
            None => {
                out.push(
                    Frame::Symbolic {
                        relative_address,
                        symbol: copy_symbol(&info.symbol),
                        name: info.symbol.name.clone(),
                        file_path: None,
                        line: None,
                        inline_depth: 0,
                    },
                );
                assert(frame_views(out@) =~= address_frames(
                    relative_address,
                    lookup_of(*addr_info),
                ));
            },
            Some(reported) => {
                let n = reported.len();
                let mut i: usize = 0;
                while i < n
                    invariant
                        i <= n,
                        n == reported.len(),
                        info@.frames == frames_of(Some(*reported)),
                        out.len() == i,
                        forall|j: int|
                            0 <= j < i ==> (#[trigger] out@[j])@ == symbolic_frames(
                                relative_address,
                                info@,
                            )[j],
                    decreases n - i,
                {
                    let frame = &reported[n - 1 - i];
                    out.push(
                        Frame::Symbolic {
                            relative_address,
                            symbol: copy_symbol(&info.symbol),
                            name: name_of_frame(&info.symbol, frame),
                            file_path: get_special_path(&frame.file_path),
                            line: frame.line_number,
                            inline_depth: i,
                        },
                    );
                    i += 1;
                }
                assert(frame_views(out@) =~= address_frames(
                    relative_address,
                    lookup_of(*addr_info),
                ));
            },
        },
    }
    out
}

/// Where the hash of a path starts.
pub const HASH_SEED: u64 = 0xcbf2_9ce4_8422_2325;

/// What the hash of a path is multiplied by for every character.
pub const HASH_PRIME: u64 = 0x100_0000_01b3;

/// The hash of a path that has the hash `hash` so far and goes on with `c`.
pub open spec fn hash_step(hash: u64, c: char) -> u64 {
    (((hash ^ (c as u64)) * HASH_PRIME) % 0x1_0000_0000_0000_0000) as u64
}

/// The hash under which the cache files a path.
pub open spec fn path_hash(path: Seq<char>) -> u64
    decreases path.len(),
{
    if path.len() == 0 {
        HASH_SEED
    } else {
        hash_step(path_hash(path.drop_last()), path.last())
    }
}

/// The hash under which the cache files `path`.
pub fn hash_of(path: &str) -> (hash: u64)
    ensures
        hash == path_hash(path@),
{
    let mut hash: u64 = HASH_SEED;
    assert(path@.take(0) =~= Seq::<char>::empty());
    for c in it: path.chars()
        invariant
            it.seq() == path@,
            hash == path_hash(path@.take(it.index() as int)),
    {
        let ghost count = it.index() as int;
        proof {
            assert(path@.take(count + 1).drop_last() =~= path@.take(count));
            assert(path@.take(count + 1).last() == c);
        }
        let mixed: u128 = (hash ^ (c as u64)) as u128 * HASH_PRIME as u128;
        hash = (mixed % 0x1_0000_0000_0000_0000u128) as u64;
    }
    assert(path@.take(path@.len() as int) =~= path@);
    hash
}

/// The stacks that were built for source paths, by path as it was reported.
/// Each slot holds a path and the stack that ends at the last component of
/// that path, below the stack of the section that the cache belongs to. The
/// slot of a path is that of its hash: of two paths with the same hash, the
/// later takes the slot, and the stack of the earlier is built anew when the
/// path comes again.
pub struct PathPrefixCache {
    slots: HashMap<u64, (String, StackHandle)>,
}

impl PathPrefixCache {
    /// The slots of the cache that are taken: by hash, the path and its stack.
    pub closed spec fn slots(&self) -> Map<u64, (Seq<char>, StackHandle)> {
        Map::new(
            |hash: u64| self.slots@.contains_key(hash),
            |hash: u64| (self.slots@[hash].0@, self.slots@[hash].1),
        )
    }

    /// The cache holds a stack for `path`.
    pub open spec fn holds(&self, path: Seq<char>) -> bool {
        self.slots().contains_key(path_hash(path)) && self.slots()[path_hash(path)].0 == path
    }

    /// Every slot holds the stack that `profile` has for the prefixes of its
    /// path below `section_stack`.
    pub open spec fn valid(
        &self,
        profile: Profile,
        thread: ThreadHandle,
        category: CategoryHandle,
        section_stack: StackHandle,
    ) -> bool {
        forall|hash: u64|
            self.slots().contains_key(hash) ==> stack_at(
                profile,
                thread,
                category,
                section_stack,
                prefix_labels((#[trigger] self.slots()[hash]).0),
            ) == Some(self.slots()[hash].1)
    }

    /// The slots of the cache once the stack of the path of `info` was asked
    /// for and was found to be `stack`: the path has its slot, where the
    /// address names one; the other slots are as before.
    pub open spec fn after_lookup(
        &self,
        info: Option<AddressInfoView>,
        stack: Option<StackHandle>,
    ) -> Map<u64, (Seq<char>, StackHandle)> {
        match (outer_location(info), stack) {
            (Some(path), Some(stack)) => if self.holds(path) {
                self.slots()
            } else {
                self.slots().insert(path_hash(path), (path, stack))
            },
            _ => self.slots(),
        }
    }

    /// A cache that holds nothing.
    pub fn new() -> (cache: PathPrefixCache)
        ensures
            cache.slots() == Map::<u64, (Seq<char>, StackHandle)>::empty(),
    {
        broadcast use vstd::std_specs::hash::group_hash_axioms;

        let cache = PathPrefixCache { slots: HashMap::new() };
        assert(cache.slots() =~= Map::<u64, (Seq<char>, StackHandle)>::empty());
        cache
    }

    /// A cache that is valid for a profile is valid for every profile that
    /// extends it.
    pub proof fn lemma_valid_extends(
        &self,
        a: Profile,
        b: Profile,
        thread: ThreadHandle,
        category: CategoryHandle,
        section_stack: StackHandle,
    )
        requires
            self.valid(a, thread, category, section_stack),
            extends(a, b),
        ensures
            self.valid(b, thread, category, section_stack),
    {
        assert forall|hash: u64| self.slots().contains_key(hash) implies stack_at(
            b,
            thread,
            category,
            section_stack,
            prefix_labels((#[trigger] self.slots()[hash]).0),
        ) == Some(self.slots()[hash].1) by {
            lemma_extends_stack_at(
                a,
                b,
                thread,
                category,
                section_stack,
                prefix_labels(self.slots()[hash].0),
            );
        }
    }

    /// The stack that the cache holds for `path`, whose hash is `hash`.
    fn get(&self, path: &String, hash: u64) -> (found: Option<StackHandle>)
        requires
            hash == path_hash(path@),
        ensures
            found.is_some() <==> self.holds(path@),
            found matches Some(stack) ==> self.slots()[hash].1 == stack,
    {
        broadcast use vstd::std_specs::hash::group_hash_axioms;

        match self.slots.get(&hash) {
            Some(slot) => if slot.0 == *path {
                Some(slot.1)
            } else {
                None
            },
            None => None,
        }
    }

    /// Puts `path`, whose hash is `hash`, and its stack into their slot.
    fn insert(&mut self, path: String, hash: u64, stack: StackHandle)
        requires
            hash == path_hash(path@),
        ensures
            final(self).slots() == old(self).slots().insert(hash, (path@, stack)),
    {
        broadcast use vstd::std_specs::hash::group_hash_axioms;

        self.slots.insert(hash, (path, stack));
        assert(self.slots() =~= old(self).slots().insert(hash, (path@, stack)));
    }
}

/// The stack of the path prefixes of the function that encloses an address,
/// below `root_stack`: taken from the cache where the path was seen before,
/// else built, one label per prefix, and put into the cache. `None` where
/// the address names no source file.
#[verifier::rlimit(50)]
pub fn get_path_stack(
    addr_info: &Option<AddressInfo>,
    root_stack: StackHandle,
    thread: ThreadHandle,
    category: CategoryHandle,
    profile: &mut Profile,
    stack_prefix_for_path: &mut PathPrefixCache,
) -> (path_stack: Option<StackHandle>)
    requires
        thread_known(*old(profile), thread),
        stack_known(*old(profile), thread, root_stack),
        old(stack_prefix_for_path).valid(*old(profile), thread, category, root_stack),
    ensures
        match outer_location(lookup_of(*addr_info)) {
            Some(path) => path_stack.is_some() && path_stack == stack_at(
                *final(profile),
                thread,
                category,
                root_stack,
                prefix_labels(path),
            ),
            None => path_stack.is_none(),
        },
        extends(*old(profile), *final(profile)),
        recorded_samples(*final(profile)) == recorded_samples(*old(profile)),
        final(stack_prefix_for_path).valid(*final(profile), thread, category, root_stack),
        final(stack_prefix_for_path).slots() == old(stack_prefix_for_path).after_lookup(
            lookup_of(*addr_info),
            path_stack,
        ),
        match outer_location(lookup_of(*addr_info)) {
            Some(path) => pushed_all(
                *old(profile),
                *final(profile),
                thread,
                category,
                root_stack,
                prefix_labels(path),
            ) && (old(stack_prefix_for_path).holds(path) ==> same_tables(
                *old(profile),
                *final(profile),
            )),
            None => same_tables(*old(profile), *final(profile)),
        },
{
    let path = match get_outer_function_location(addr_info) {
        Some(path) => path,
        None => {
            proof {
                lemma_extends_refl(*profile);
            }
            return None;
        },
    };
    let hash = hash_of(path.as_str());
    if let Some(stack) = stack_prefix_for_path.get(&path, hash) {
        proof {
            lemma_extends_refl(*profile);
            lemma_pushed_all_idle(*profile, thread, category, root_stack, prefix_labels(path@));
        }
        return Some(stack);
    }
    let labels = path_prefixes(path.as_str());
    let mut path_stack = root_stack;
    let mut i: usize = 0;
    proof {
        lemma_extends_refl(*profile);
        assert(texts(labels@).take(0) =~= Seq::<Seq<char>>::empty());
    }
    while i < labels.len()
        invariant
            i <= labels.len(),
            thread_known(*profile, thread),
            stack_known(*profile, thread, path_stack),
            extends(*old(profile), *profile),
            recorded_samples(*profile) == recorded_samples(*old(profile)),
            stack_at(*profile, thread, category, root_stack, texts(labels@).take(i as int))
                == Some(path_stack),
            pushed_all(
                *old(profile),
                *profile,
                thread,
                category,
                root_stack,
                texts(labels@).take(i as int),
            ),
        decreases labels.len() - i,
    {
        let ghost before = *profile;
        let child = push_label(profile, thread, category, Some(path_stack), labels[i].as_str());
        proof {
            let done = texts(labels@).take(i as int);
            let next = texts(labels@).take(i + 1);
            lemma_pushed_all_step(
                *old(profile),
                before,
                *profile,
                thread,
                category,
                root_stack,
                done,
                labels@[i as int]@,
            );
            lemma_extends_stack_at(before, *profile, thread, category, root_stack, done);
            lemma_extends_trans(*old(profile), before, *profile);
            assert(next =~= done.push(labels@[i as int]@));
            assert(next.drop_last() =~= done);
            assert(next.last() == labels@[i as int]@);
        }
        path_stack = child;
        i += 1;
    }
    proof {
        assert(texts(labels@).take(labels.len() as int) =~= texts(labels@));
        stack_prefix_for_path.lemma_valid_extends(
            *old(profile),
            *profile,
            thread,
            category,
            root_stack,
        );
    }
    stack_prefix_for_path.insert(path, hash, path_stack);
    Some(path_stack)
}

/// The stack of `relative_address` below `root_stack`, the stack of its
/// section: the path prefixes of the enclosing function (or the unknown-path
/// stack), then one frame per reported frame, outermost first (or the
/// unknown-bytes frame where the lookup found nothing).
#[verifier::rlimit(50)]
pub fn stack_for_address(
    relative_address: u32,
    addr_info: &Option<AddressInfo>,
    root_stack: StackHandle,
    unknown_path_stack: StackHandle,
    unknown_bytes_frame: FrameHandle,
    thread: ThreadHandle,
    category: CategoryHandle,
    profile: &mut Profile,
    stack_prefix_for_path: &mut PathPrefixCache,
) -> (stack: StackHandle)
    requires
        thread_known(*old(profile), thread),
        stack_known(*old(profile), thread, root_stack),
        old(stack_prefix_for_path).valid(*old(profile), thread, category, root_stack),
        labelled_child(*old(profile), thread, category, Some(root_stack), UNKNOWN_PATH@) == Some(
            unknown_path_stack,
        ),
        label_frame(*old(profile), thread, category, UNKNOWN_BYTES@) == Some(unknown_bytes_frame),
    ensures
        stack_of(
            *final(profile),
            thread,
            category,
            root_stack,
            stack_frames(relative_address, lookup_of(*addr_info)),
        ) == Some(stack),
        forall|i: int|
            0 <= i < stack_frames(relative_address, lookup_of(*addr_info)).len() ==> fits_label(
                #[trigger] stack_frames(relative_address, lookup_of(*addr_info))[i],
            ),
        stack_at(
            *final(profile),
            thread,
            category,
            root_stack,
            stack_labels(relative_address, lookup_of(*addr_info)),
        ) == Some(stack),
        stack_known(*final(profile), thread, stack),
        extends(*old(profile), *final(profile)),
        recorded_samples(*final(profile)) == recorded_samples(*old(profile)),
        final(stack_prefix_for_path).valid(*final(profile), thread, category, root_stack),
        pushed_all(
            *old(profile),
            *final(profile),
            thread,
            category,
            root_stack,
            stack_labels(relative_address, lookup_of(*addr_info)),
        ),
        final(stack_prefix_for_path).slots() == old(stack_prefix_for_path).after_lookup(
            lookup_of(*addr_info),
            stack_at(
                *final(profile),
                thread,
                category,
                root_stack,
                path_labels(lookup_of(*addr_info)),
            ),
        ),
{
    let ghost info = lookup_of(*addr_info);
    let ghost upper = path_labels(info);
    proof {
        lemma_stack_labels_of_frames(relative_address, info);
    }
    let found = get_path_stack(
        addr_info,
        root_stack,
        thread,
        category,
        profile,
        stack_prefix_for_path,
    );
    let path_stack = match found {
        Some(stack) => stack,
        None => unknown_path_stack,
    };
    proof {
        lemma_extends_known(*old(profile), *profile, thread);
        if found.is_none() {
            lemma_extends_child(
                *old(profile),
                *profile,
                thread,
                category,
                Some(root_stack),
                UNKNOWN_PATH@,
            );
            assert(upper =~= seq![UNKNOWN_PATH@]);
            assert(upper.drop_last() =~= Seq::<Seq<char>>::empty());
            assert(stack_at(*profile, thread, category, root_stack, upper.drop_last()) == Some(
                root_stack,
            ));
            assert(upper.last() == UNKNOWN_PATH@);
        }
        assert(stack_at(*profile, thread, category, root_stack, upper) == Some(path_stack));
        lemma_stack_at_known(*profile, thread, category, root_stack, upper);
        if found.is_none() {
            lemma_stack_at_one(*old(profile), thread, category, root_stack, UNKNOWN_PATH@);
            lemma_pushed_all_idle(*old(profile), thread, category, root_stack, upper);
            lemma_pushed_all_same(
                *old(profile),
                *old(profile),
                *profile,
                thread,
                category,
                root_stack,
                upper,
            );
        }
        assert(pushed_all(*old(profile), *profile, thread, category, root_stack, upper));
    }
    let ghost middle = *profile;
    let frames = frames_for_address(relative_address, addr_info);
    let ghost lower = frame_views(frames@).map_values(|f: FrameView| frame_label(f));
    let mut stack = path_stack;
    if addr_info.is_none() {
        proof {
            lemma_extends_label_frame(*old(profile), *profile, thread, category, UNKNOWN_BYTES@);
        }
        stack = intern_stack(profile, thread, Some(path_stack), unknown_bytes_frame);
        proof {
            assert(interned_stacks(*profile).contains_pair(
                (thread, Some(path_stack), unknown_bytes_frame),
                stack,
            ));
            assert(lower =~= seq![UNKNOWN_BYTES@]);
            assert(lower.drop_last() =~= Seq::<Seq<char>>::empty());
            assert(lower.last() == UNKNOWN_BYTES@);
            assert(label_frame(*profile, thread, category, UNKNOWN_BYTES@) == Some(
                unknown_bytes_frame,
            ));
            assert(stack_at(*profile, thread, category, path_stack, lower.drop_last()) == Some(
                path_stack,
            ));
            assert(stack_at(*profile, thread, category, path_stack, lower) == Some(stack));
            let text = interned_strings(middle)[UNKNOWN_BYTES@];
            assert(interned_strings(*profile) =~= interned_strings(middle).insert(
                UNKNOWN_BYTES@,
                text,
            ));
            assert(interned_labels(*profile) =~= interned_labels(middle).insert(
                (thread, text, category),
                unknown_bytes_frame,
            ));
            assert(stack_at(middle, thread, category, path_stack, lower.drop_last()) == Some(
                path_stack,
            ));
            assert(pushed(
                middle,
                *profile,
                thread,
                category,
                Some(path_stack),
                UNKNOWN_BYTES@,
            ));
            assert(pushed_all(middle, middle, thread, category, path_stack, lower.drop_last()));
            assert(pushed_all(middle, *profile, thread, category, path_stack, lower));
        }
    } else {
        let mut i: usize = 0;
        assert(lower.take(0) =~= Seq::<Seq<char>>::empty());
        while i < frames.len()
            invariant
                i <= frames.len(),
                lower == frame_views(frames@).map_values(|f: FrameView| frame_label(f)),
                thread_known(*profile, thread),
                stack_known(*profile, thread, stack),
                extends(middle, *profile),
                recorded_samples(*profile) == recorded_samples(middle),
                stack_at(*profile, thread, category, path_stack, lower.take(i as int)) == Some(
                    stack,
                ),
                pushed_all(middle, *profile, thread, category, path_stack, lower.take(i as int)),
                forall|j: int| 0 <= j < i ==> fits_label(#[trigger] frame_views(frames@)[j]),
            decreases frames.len() - i,
        {
            let ghost before = *profile;
            let label = label_of_frame(&frames[i]);
            let child = push_label(profile, thread, category, Some(stack), label.as_str());
            proof {
                let done = lower.take(i as int);
                let next = lower.take(i + 1);
                lemma_pushed_all_step(
                    middle,
                    before,
                    *profile,
                    thread,
                    category,
                    path_stack,
                    done,
                    label@,
                );
                lemma_extends_stack_at(before, *profile, thread, category, path_stack, done);
                lemma_extends_trans(middle, before, *profile);
                assert(next =~= done.push(label@));
                assert(next.drop_last() =~= done);
                assert(next.last() == frame_label(frames@[i as int]@));
            }
            stack = child;
            i += 1;
        }
        assert(lower.take(frames.len() as int) =~= lower);
    }
    proof {
        lemma_pushed_all_concat(
            *old(profile),
            middle,
            *profile,
            thread,
            category,
            root_stack,
            path_stack,
            upper,
            lower,
        );
        lemma_extends_trans(*old(profile), middle, *profile);
        lemma_extends_stack_at(middle, *profile, thread, category, root_stack, upper);
        lemma_stack_at_concat(*profile, thread, category, root_stack, upper, lower);
        stack_prefix_for_path.lemma_valid_extends(middle, *profile, thread, category, root_stack);
    }
    stack
}

/// Stack identity: two lookups of one address that gave the same result
/// have the same stack, and so have two addresses for which nothing was
/// found, whenever the two stacks are built in the same profile or the second
/// in one that extends that of the first.
pub proof fn lemma_stack_identity(
    earlier: Profile,
    later: Profile,
    thread: ThreadHandle,
    category: CategoryHandle,
    section_stack: StackHandle,
    first_address: u32,
    second_address: u32,
    info: Option<AddressInfoView>,
    first_stack: StackHandle,
    second_stack: StackHandle,
)
    requires
        first_address == second_address || info.is_none(),
        extends(earlier, later),
        stack_at(earlier, thread, category, section_stack, stack_labels(first_address, info))
            == Some(first_stack),
        stack_at(later, thread, category, section_stack, stack_labels(second_address, info))
            == Some(second_stack),
    ensures
        first_stack == second_stack,
{
    lemma_extends_stack_at(
        earlier,
        later,
        thread,
        category,
        section_stack,
        stack_labels(first_address, info),
    );
}

/// Sibling frames stay distinct: where no two things share a handle, two
/// lists of as many frames that differ in a symbolic frame, be it only in
/// its file or its line, lead from one stack to different stacks.
pub proof fn lemma_distinct_frames_distinct_stacks(
    profile: Profile,
    thread: ThreadHandle,
    category: CategoryHandle,
    start: StackHandle,
    first: Seq<FrameView>,
    second: Seq<FrameView>,
    index: int,
)
    requires
        distinct_handles(profile),
        first.len() == second.len(),
        0 <= index < first.len(),
        first[index] is Symbolic,
        second[index] is Symbolic,
        fits_label(first[index]),
        fits_label(second[index]),
        first[index] != second[index],
        stack_at(
            profile,
            thread,
            category,
            start,
            first.map_values(|f: FrameView| frame_label(f)),
        ).is_some(),
    ensures
        stack_at(profile, thread, category, start, first.map_values(|f: FrameView| frame_label(f)))
            != stack_at(
            profile,
            thread,
            category,
            start,
            second.map_values(|f: FrameView| frame_label(f)),
        ),
{
    let one = first.map_values(|f: FrameView| frame_label(f));
    let two = second.map_values(|f: FrameView| frame_label(f));
    if stack_at(profile, thread, category, start, one) == stack_at(
        profile,
        thread,
        category,
        start,
        two,
    ) {
        lemma_stack_at_injective(profile, thread, category, start, one, two);
        assert(one[index] == frame_label(first[index]));
        assert(two[index] == frame_label(second[index]));
        lemma_frame_label_injective(first[index], second[index]);
    }
}

} // verus!
