//! Source paths as grouping nodes: a path is cut into its components, and
//! every cumulative prefix of it (`/a`, `/a/b`, `/a/b/c.cc`) becomes one label.

use crate::text::chars_of;
use vstd::prelude::*;
use vstd::string::StringExecFns;

verus! {

/// The build sandbox prefix that is taken off source paths.
pub const SANDBOX_PREFIX: &'static str = "C:\\b\\s\\w\\ir\\cache\\builder\\";

/// The characters of the sandbox prefix.
pub open spec fn sandbox_prefix() -> Seq<char> {
    SANDBOX_PREFIX@
}

/// Paths are cut at forward and at backward slashes.
pub open spec fn is_separator(c: char) -> bool {
    c == '/' || c == '\\'
}

/// `path` without the sandbox prefix, which is taken off as often as it
/// stands at the start.
pub open spec fn trim_sandbox(path: Seq<char>) -> Seq<char>
    decreases path.len(),
{
    if sandbox_prefix().len() > 0 && sandbox_prefix().is_prefix_of(path) {
        trim_sandbox(path.skip(sandbox_prefix().len() as int))
    } else {
        path
    }
}

/// How many characters stand before the first separator of `s`.
pub open spec fn leading_run(s: Seq<char>) -> nat
    decreases s.len(),
{
    if s.len() == 0 || is_separator(s[0]) {
        0
    } else {
        1 + leading_run(s.skip(1))
    }
}

/// The components of `s`: its maximal runs of characters that are no
/// separators, in order. Nothing stands for two separators in a row, nor
/// for one at either end.
pub open spec fn components(s: Seq<char>) -> Seq<Seq<char>>
    decreases s.len(),
    via components_decreases
{
    if s.len() == 0 {
        Seq::empty()
    } else if is_separator(s[0]) {
        components(s.skip(1))
    } else {
        seq![s.take(leading_run(s) as int)] + components(s.skip(leading_run(s) as int))
    }
}

#[via_fn]
proof fn components_decreases(s: Seq<char>) {
    if s.len() > 0 && !is_separator(s[0]) {
        lemma_leading_run_bound(s);
    }
}

/// The components, each with a slash before it, joined into one path.
pub open spec fn joined(parts: Seq<Seq<char>>) -> Seq<char>
    decreases parts.len(),
{
    if parts.len() == 0 {
        Seq::empty()
    } else {
        joined(parts.drop_last()) + seq!['/'] + parts.last()
    }
}

/// One path per component: the components up to and including it, joined.
pub open spec fn cumulative(parts: Seq<Seq<char>>) -> Seq<Seq<char>> {
    Seq::new(parts.len(), |i: int| joined(parts.take(i + 1)))
}

/// The labels that stand for a source path: the cumulative prefixes of its
/// components, once the sandbox prefix is taken off.
pub open spec fn prefix_labels(path: Seq<char>) -> Seq<Seq<char>> {
    cumulative(components(trim_sandbox(path)))
}

/// The characters of each text of a list.
pub open spec fn texts(list: Seq<String>) -> Seq<Seq<char>> {
    list.map_values(|s: String| s@)
}

proof fn lemma_leading_run_bound(s: Seq<char>)
    ensures
        leading_run(s) <= s.len(),
        forall|i: int| 0 <= i < leading_run(s) ==> !is_separator(#[trigger] s[i]),
        leading_run(s) < s.len() ==> is_separator(s[leading_run(s) as int]),
    decreases s.len(),
{
    if s.len() == 0 || is_separator(s[0]) {
    } else {
        lemma_leading_run_bound(s.skip(1));
        assert forall|i: int| 0 <= i < leading_run(s) implies !is_separator(#[trigger] s[i]) by {
            if i > 0 {
                assert(s[i] == s.skip(1)[i - 1]);
            }
        }
    }
}

/// A run of characters that are no separators and that ends at a separator
/// or at the end is the leading run.
proof fn lemma_leading_run_is(s: Seq<char>, n: int)
    requires
        0 <= n <= s.len(),
        forall|i: int| 0 <= i < n ==> !is_separator(#[trigger] s[i]),
        n < s.len() ==> is_separator(s[n]),
    ensures
        leading_run(s) == n,
    decreases s.len(),
{
    if n == 0 {
    } else {
        assert(!is_separator(s[0]));
        assert forall|i: int| 0 <= i < n - 1 implies !is_separator(#[trigger] s.skip(1)[i]) by {
            assert(s.skip(1)[i] == s[i + 1]);
        }
        lemma_leading_run_is(s.skip(1), n - 1);
    }
}

fn starts_with_at(text: &Vec<char>, at: usize, prefix: &Vec<char>) -> (r: bool)
    requires
        at <= text.len(),
    ensures
        r == prefix@.is_prefix_of(text@.skip(at as int)),
{
    if prefix.len() > text.len() - at {
        return false;
    }
    let mut i: usize = 0;
    while i < prefix.len()
        invariant
            i <= prefix.len(),
            at <= text.len(),
            prefix.len() <= text.len() - at,
            forall|j: int| 0 <= j < i ==> prefix@[j] == text@[at + j],
        decreases prefix.len() - i,
    {
        if prefix[i] != text[at + i] {
            assert(text@.skip(at as int).subrange(0, prefix@.len() as int)[i as int]
                != prefix@[i as int]);
            return false;
        }
        i += 1;
    }
    assert(prefix@ =~= text@.skip(at as int).subrange(0, prefix@.len() as int));
    true
}

/// Where `text` starts once the sandbox prefix is taken off.
fn trimmed_start(text: &Vec<char>) -> (start: usize)
    ensures
        start <= text.len(),
        trim_sandbox(text@) == text@.skip(start as int),
{
    let prefix = chars_of(SANDBOX_PREFIX);
    let mut start: usize = 0;
    if prefix.len() == 0 {
        assert(text@.skip(0) =~= text@);
        return 0;
    }
    assert(text@.skip(0) =~= text@);
    while starts_with_at(text, start, &prefix)
        invariant
            start <= text.len(),
            prefix@ == sandbox_prefix(),
            prefix.len() > 0,
            trim_sandbox(text@) == trim_sandbox(text@.skip(start as int)),
        decreases text.len() - start,
    {
        assert(text@.skip(start as int).skip(prefix@.len() as int) =~= text@.skip(
            start + prefix@.len(),
        ));
        start += prefix.len();
    }
    start
}

/// The labels that stand for the source path `path`.
pub fn path_prefixes(path: &str) -> (labels: Vec<String>)
    ensures
        texts(labels@) == prefix_labels(path@),
        labels.len() == prefix_labels(path@).len(),
{
    let chars = chars_of(path);
    let start = trimmed_start(&chars);
    let ghost whole = chars@.skip(start as int);
    let ghost mut done: Seq<Seq<char>> = Seq::empty();
    let mut labels: Vec<String> = Vec::new();
    let mut accum = String::new();
    let mut pos: usize = start;
    assert(texts(labels@) =~= cumulative(done));
    assert(chars@.skip(pos as int) == whole);
    while pos < chars.len()
        invariant
            start <= pos <= chars.len(),
            chars@ == path@,
            whole == chars@.skip(start as int),
            components(whole) == done + components(chars@.skip(pos as int)),
            texts(labels@) == cumulative(done),
            accum@ == joined(done),
        decreases chars.len() - pos,
    {
        let ghost rest = chars@.skip(pos as int);
        if chars[pos] == '/' || chars[pos] == '\\' {
            assert(rest.skip(1) =~= chars@.skip(pos + 1));
            pos += 1;
        } else {
            let mut end: usize = pos + 1;
            while end < chars.len() && !(chars[end] == '/' || chars[end] == '\\')
                invariant
                    pos < end <= chars.len(),
                    forall|i: int| pos <= i < end ==> !is_separator(#[trigger] chars@[i]),
                decreases chars.len() - end,
            {
                end += 1;
            }
            proof {
                assert forall|i: int| 0 <= i < end - pos implies !is_separator(
                    #[trigger] rest[i],
                ) by {
                    assert(rest[i] == chars@[pos + i]);
                }
                lemma_leading_run_is(rest, end - pos);
                assert(rest.take(end - pos) =~= path@.subrange(pos as int, end as int));
                assert(rest.skip(end - pos) =~= chars@.skip(end as int));
            }
            let part = path.substring_char(pos, end);
            accum.append("/");
            accum.append(part);
            let label = accum.clone();
            proof {
                reveal_strlit("/");
                let next = done.push(part@);
                assert("/"@ =~= seq!['/']);
                assert(next.drop_last() =~= done);
                assert(accum@ =~= joined(next));
                assert(done + (seq![part@] + components(chars@.skip(end as int))) =~= next
                    + components(chars@.skip(end as int)));
                assert(texts(labels@).len() == cumulative(done).len());
                assert(label@ == accum@);
                assert forall|i: int| 0 <= i < next.len() implies #[trigger] cumulative(next)[i]
                    == texts(labels@.push(label))[i] by {
                    if i < done.len() {
                        assert(next.take(i + 1) =~= done.take(i + 1));
                        assert(texts(labels@)[i] == cumulative(done)[i]);
                        assert(texts(labels@.push(label))[i] == labels@[i]@);
                        assert(texts(labels@)[i] == labels@[i]@);
                    } else {
                        assert(next.take(i + 1) =~= next);
                    }
                }
                assert(texts(labels@.push(label)) =~= cumulative(next));
                done = next;
            }
            labels.push(label);
            pos = end;
        }
    }
    assert(chars@.skip(pos as int).len() == 0);
    assert(done + Seq::<Seq<char>>::empty() =~= done);
    labels
}

} // verus!
