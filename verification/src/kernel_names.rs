//! The kernels of a PTX module as an evaluator on a graphics card finds
//! them: the names of the module's entries, and the entry that stands for
//! a kernel.
use vstd::prelude::*;

use crate::golly::{find_char, find_from, lemma_find_from, lemma_trim_subrange, starts_with, texts, trim_seq};
use crate::text::{chars_of, range_equals, string_from_range, string_from_str, trim_range};

verus! {

/// A line without the `\r` that ends it before its `\n`.
pub open spec fn without_cr(line: Seq<char>) -> Seq<char> {
    if line.len() > 0 && line.last() == '\r' {
        line.drop_last()
    } else {
        line
    }
}

/// The lines of `s` from position `i` on, as `str::lines` gives them: each
/// up to a `\n`, without it and a `\r` before it; a last line without `\n`
/// as it is; no line after a final `\n`.
pub open spec fn lines_from(s: Seq<char>, i: int) -> Seq<Seq<char>>
    recommends
        0 <= i,
    decreases s.len() - i,
{
    if i < 0 || i >= s.len() {
        seq![]
    } else {
        let e = find_from(s, i, '\n');
        proof {
            lemma_find_from(s, i, '\n');
        }
        if e >= s.len() {
            seq![s.subrange(i, s.len() as int)]
        } else {
            seq![without_cr(s.subrange(i, e))] + lines_from(s, e + 1)
        }
    }
}

/// The text that starts an entry's line.
pub open spec fn entry_marker() -> Seq<char> {
    seq!['.', 'v', 'i', 's', 'i', 'b', 'l', 'e', ' ', '.', 'e', 'n', 't', 'r', 'y', ' ']
}

/// The entry that a line declares: where the line, trimmed, starts with
/// `.visible .entry `, the name after it, up to the first `(`.
pub open spec fn entry_of(line: Seq<char>) -> Option<Seq<char>> {
    let t = trim_seq(line);
    if starts_with(t, entry_marker()) {
        let rest = t.subrange(entry_marker().len() as int, t.len() as int);
        Some(rest.subrange(0, find_from(rest, 0, '(')))
    } else {
        None
    }
}

/// The entries that the lines declare, in order.
pub open spec fn entries_of(lines: Seq<Seq<char>>) -> Seq<Seq<char>>
    decreases lines.len(),
{
    if lines.len() == 0 {
        seq![]
    } else {
        let rest = entries_of(lines.drop_first());
        match entry_of(lines[0]) {
            Some(e) => seq![e] + rest,
            None => rest,
        }
    }
}

/// The entry as a sequence of at most one name.
pub open spec fn entry_seq(entry: Option<Seq<char>>) -> Seq<Seq<char>> {
    match entry {
        Some(e) => seq![e],
        None => seq![],
    }
}

/// The end of the line that starts at `i`: before its `\n` and a `\r`
/// before that, or the end of the text.
pub open spec fn line_end(s: Seq<char>, i: int) -> int {
    let e = find_from(s, i, '\n');
    if e < s.len() && e > i && s[e - 1] == '\r' {
        e - 1
    } else {
        e
    }
}

/// Where the line after the one that starts at `i` starts.
pub open spec fn next_line(s: Seq<char>, i: int) -> int {
    let e = find_from(s, i, '\n');
    if e < s.len() {
        e + 1
    } else {
        s.len() as int
    }
}

/// The lines from `i` on are the line up to `line_end` and the lines from
/// the next one on; so are their entries.
proof fn lemma_line_step(s: Seq<char>, i: int)
    requires
        0 <= i < s.len(),
    ensures
        i <= line_end(s, i) <= s.len(),
        i < next_line(s, i) <= s.len(),
        lines_from(s, i) == seq![s.subrange(i, line_end(s, i))] + lines_from(s, next_line(s, i)),
        entries_of(lines_from(s, i)) == entry_seq(entry_of(s.subrange(i, line_end(s, i)))) + entries_of(
            lines_from(s, next_line(s, i)),
        ),
{
    lemma_find_from(s, i, '\n');
    let e = find_from(s, i, '\n');
    let b = line_end(s, i);
    if e < s.len() {
        if e > i && s[e - 1] == '\r' {
            assert(s.subrange(i, e).drop_last() =~= s.subrange(i, b));
        }
    }
    let lines = lines_from(s, i);
    assert(lines.drop_first() =~= lines_from(s, next_line(s, i)));
    assert(lines[0] == s.subrange(i, b));
    assert(lines =~= seq![s.subrange(i, b)] + lines_from(s, next_line(s, i)));
    assert(entries_of(lines) =~= entry_seq(entry_of(s.subrange(i, b))) + entries_of(lines.drop_first()));
}

/// The entry of the line `s[a..b]`, read at the positions of its trimmed
/// part `s[ta..tb]`.
proof fn lemma_entry_at(s: Seq<char>, a: int, b: int, ta: int, tb: int)
    requires
        0 <= a <= b <= s.len(),
        (ta, tb) == crate::text::trimmed(s, a, b),
    ensures
        a <= ta <= tb <= b,
        entry_of(s.subrange(a, b)) == if tb - ta >= 16 && s.subrange(ta, ta + 16) == entry_marker() {
            Some(s.subrange(ta + 16, find_from(s.subrange(ta + 16, tb), 0, '(') + ta + 16))
        } else {
            None
        },
{
    lemma_trim_subrange(s, a, b);
    let t = s.subrange(ta, tb);
    if t.len() >= 16 {
        assert(t.subrange(0, 16) =~= s.subrange(ta, ta + 16));
        let rest = t.subrange(16, t.len() as int);
        assert(rest =~= s.subrange(ta + 16, tb));
        lemma_find_from(rest, 0, '(');
        assert(rest.subrange(0, find_from(rest, 0, '(')) =~= s.subrange(ta + 16, find_from(rest, 0, '(') + ta + 16));
    }
}

/// The names of the entries of the PTX module `ptx`, in order; an error
/// where it declares none.
pub fn sidecar_kernel_names(ptx: &str) -> (r: Result<Vec<String>, String>)
    ensures
        ({
            let entries = entries_of(lines_from(ptx@, 0));
            &&& entries.len() == 0 ==> (r matches Err(m) && m@ == "vnstudio.ptx has no entry"@)
            &&& entries.len() > 0 ==> (r matches Ok(v) && texts(v@) == entries)
        }),
{
    let s = chars_of(ptx);
    let n = s.len();
    let marker: &[char] = &['.', 'v', 'i', 's', 'i', 'b', 'l', 'e', ' ', '.', 'e', 'n', 't', 'r', 'y', ' '];
    assert(marker@ == entry_marker());
    let mut names: Vec<String> = Vec::new();
    let mut i: usize = 0;
    while i < n
        invariant
            s@ == ptx@,
            n == s@.len(),
            i <= n,
            marker@ == entry_marker(),
            entries_of(lines_from(s@, 0)) == texts(names@) + entries_of(lines_from(s@, i as int)),
        decreases n - i,
    {
        let ghost i0 = i as int;
        proof {
            lemma_line_step(s@, i as int);
            lemma_find_from(s@.subrange(i as int, n as int), 0, '\n');
            lemma_find_shift(s@, i as int);
        }
        let e = find_char(s.as_slice(), i, n, '\n');
        let b = if e < n && e > i && s[e - 1] == '\r' {
            e - 1
        } else {
            e
        };
        assert(b == line_end(s@, i as int));
        let (ta, tb) = trim_range(s.as_slice(), i, b);
        proof {
            lemma_entry_at(s@, i as int, b as int, ta as int, tb as int);
        }
        let ghost before = names@;
        let ghost entry = entry_of(s@.subrange(i as int, b as int));
        if tb - ta >= 16 && range_equals(s.as_slice(), ta, ta + 16, marker) {
            let f = find_char(s.as_slice(), ta + 16, tb, '(');
            names.push(string_from_range(s.as_slice(), ta + 16, f));
            assert(texts(names@) =~= texts(before) + entry_seq(entry));
        } else {
            assert(texts(names@) =~= texts(before) + entry_seq(entry));
        }
        if e < n {
            i = e + 1;
        } else {
            i = n;
        }
        proof {
            let rest = entries_of(lines_from(s@, i as int));
            assert(i == next_line(s@, i0));
            assert((texts(before) + entry_seq(entry)) + rest =~= texts(before) + (entry_seq(entry) + rest));
        }
    }
    if names.len() == 0 {
        Err(string_from_str("vnstudio.ptx has no entry"))
    } else {
        Ok(names)
    }
}

/// The first position of `\n` from `i` on, read in the rest of the text.
proof fn lemma_find_shift(s: Seq<char>, i: int)
    requires
        0 <= i <= s.len(),
    ensures
        find_from(s.subrange(i, s.len() as int), 0, '\n') + i == find_from(s, i, '\n'),
    decreases s.len() - i,
{
    if i < s.len() && s[i] != '\n' {
        lemma_find_shift(s, i + 1);
        assert(find_from(s.subrange(i, s.len() as int), 1, '\n') == find_from(s.subrange(i + 1, s.len() as int), 0, '\n')
            + 1) by {
            lemma_find_offset(s.subrange(i, s.len() as int), 1);
            assert(s.subrange(i, s.len() as int).subrange(1, s.len() - i) =~= s.subrange(i + 1, s.len() as int));
        }
    }
}

/// Searching from `k` is searching the text from `k` on.
proof fn lemma_find_offset(t: Seq<char>, k: int)
    requires
        0 <= k <= t.len(),
    ensures
        find_from(t, k, '\n') == find_from(t.subrange(k, t.len() as int), 0, '\n') + k,
    decreases t.len() - k,
{
    if k < t.len() && t[k] != '\n' {
        lemma_find_offset(t, k + 1);
        lemma_find_offset(t.subrange(k, t.len() as int), 1);
        assert(t.subrange(k, t.len() as int).subrange(1, t.len() - k) =~= t.subrange(k + 1, t.len() as int));
    }
}

/// The name stands for the kernel `prefix`: it is `prefix`, or `prefix`
/// followed by `_TID_` and more.
pub open spec fn names_kernel(name: Seq<char>, prefix: Seq<char>) -> bool {
    name == prefix || starts_with(name, prefix + seq!['_', 'T', 'I', 'D', '_'])
}

/// The first of `kernel_names` that stands for the kernel `prefix`, if any.
pub fn sidecar_kernel_name(kernel_names: &[String], prefix: &str) -> (r: Option<String>)
    ensures
        match r {
            None => forall|k: int| 0 <= k < kernel_names@.len() ==> !names_kernel(#[trigger] kernel_names@[k]@, prefix@),
            Some(name) => exists|k: int|
                0 <= k < kernel_names@.len() && names_kernel(#[trigger] kernel_names@[k]@, prefix@) && name@
                    == kernel_names@[k]@ && forall|j: int| 0 <= j < k ==> !names_kernel(#[trigger] kernel_names@[j]@, prefix@),
        },
{
    let p = chars_of(prefix);
    let mut tagged: Vec<char> = chars_of(prefix);
    tagged.push('_');
    tagged.push('T');
    tagged.push('I');
    tagged.push('D');
    tagged.push('_');
    assert(tagged@ =~= prefix@ + seq!['_', 'T', 'I', 'D', '_']);
    let mut k: usize = 0;
    while k < kernel_names.len()
        invariant
            k <= kernel_names@.len(),
            p@ == prefix@,
            tagged@ == prefix@ + seq!['_', 'T', 'I', 'D', '_'],
            forall|j: int| 0 <= j < k ==> !names_kernel(#[trigger] kernel_names@[j]@, prefix@),
        decreases kernel_names@.len() - k,
    {
        let name = chars_of(kernel_names[k].as_str());
        let exact = name.len() == p.len() && range_equals(name.as_slice(), 0, name.len(), p.as_slice());
        let longer = name.len() >= tagged.len() && range_equals(name.as_slice(), 0, tagged.len(), tagged.as_slice());
        proof {
            assert(name@.subrange(0, name@.len() as int) =~= name@);
        }
        if exact || longer {
            return Some(string_from_str(kernel_names[k].as_str()));
        }
        k = k + 1;
    }
    None
}

} // verus!
