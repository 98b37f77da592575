//! File names: recognising Ogg data, and the `.ogg` suffix that the archive drops.
use crate::text::{
    chars_of, ends_with, str_ends_with, str_lowercase, string_from_chars, to_lowercase,
};
use vstd::prelude::*;
use vstd::slice::slice_subrange;

verus! {

/// The magic number at the start of an Ogg stream: `OggS`.
pub open spec fn ogg_magic() -> Seq<u8> {
    seq![0x4fu8, 0x67u8, 0x67u8, 0x53u8]
}

/// The suffix of Ogg files: `.ogg`.
pub open spec fn ogg_ext() -> Seq<char> {
    seq!['.', 'o', 'g', 'g']
}

/// The extension that the first bytes of a file suggest, if any.
pub open spec fn suggested_extension(header: Seq<u8>) -> Option<Seq<char>> {
    if 4 <= header.len() && header.take(4) == ogg_magic() {
        Some(ogg_ext())
    } else {
        None
    }
}

/// Whether a name ends, in lower case, with `.ogg`.
pub open spec fn strips_extension(name: Seq<char>) -> bool {
    ends_with(str_lowercase(name), ogg_ext())
}

/// The greatest index below `end` that holds `c`, or -1.
pub open spec fn last_index_of(s: Seq<char>, c: char, end: int) -> int
    decreases end,
{
    if end <= 0 {
        -1
    } else if s[end - 1] == c {
        end - 1
    } else {
        last_index_of(s, c, end - 1)
    }
}

pub proof fn lemma_last_index_of(s: Seq<char>, c: char, end: int)
    requires
        0 <= end <= s.len(),
    ensures
        -1 <= last_index_of(s, c, end) < end,
        last_index_of(s, c, end) >= 0 ==> s[last_index_of(s, c, end)] == c,
        forall|k: int| last_index_of(s, c, end) < k < end ==> s[k] != c,
    decreases end,
{
    if end > 0 && s[end - 1] != c {
        lemma_last_index_of(s, c, end - 1);
    }
}

/// The last component of the path `s[..end]`, with `/` as separator: empty
/// and `.` components are skipped, and a final `..` or no component at all
/// gives `None`.
pub open spec fn last_component(s: Seq<char>, end: int) -> Option<Seq<char>>
    decreases end,
{
    if end <= 0 || end > s.len() {
        None
    } else {
        let start = last_index_of(s, '/', end) + 1;
        let seg = s.subrange(start, end);
        if seg.len() == 0 || seg == seq!['.'] {
            if start <= 0 {
                None
            } else {
                proof {
                    lemma_last_index_of(s, '/', end);
                }
                last_component(s, start - 1)
            }
        } else if seg == seq!['.', '.'] {
            None
        } else {
            Some(seg)
        }
    }
}

/// The stem of a file name: all of it when it has no `.` but possibly a
/// leading one, else the part before the last `.`.
pub open spec fn file_stem(name: Seq<char>) -> Seq<char> {
    let d = last_index_of(name, '.', name.len() as int);
    if d <= 0 {
        name
    } else {
        name.subrange(0, d)
    }
}

/// A path with the extension of its last component removed; a path without
/// a last component is kept as it is.
pub open spec fn stripped_name(path: Seq<char>) -> Seq<char> {
    match last_component(path, path.len() as int) {
        Some(c) => file_stem(c),
        None => path,
    }
}

/// Every character of the last component occurs in the path.
pub proof fn lemma_last_component_within(s: Seq<char>, end: int)
    ensures
        last_component(s, end) matches Some(c) ==> forall|k: int|
            0 <= k < c.len() ==> exists|j: int| 0 <= j < s.len() && s[j] == #[trigger] c[k],
    decreases end,
{
    if 0 < end <= s.len() {
        lemma_last_index_of(s, '/', end);
        let start = last_index_of(s, '/', end) + 1;
        let seg = s.subrange(start, end);
        if seg.len() == 0 || seg == seq!['.'] {
            if start > 0 {
                lemma_last_component_within(s, start - 1);
            }
        } else if seg != seq!['.', '.'] {
            assert forall|k: int| 0 <= k < seg.len() implies exists|j: int|
                0 <= j < s.len() && s[j] == #[trigger] seg[k] by {
                assert(s[start + k] == seg[k]);
            }
        }
    }
}

/// Every character of a stripped name occurs in the name.
pub proof fn lemma_stripped_within(path: Seq<char>)
    ensures
        forall|k: int|
            0 <= k < stripped_name(path).len() ==> exists|j: int|
                0 <= j < path.len() && path[j] == #[trigger] stripped_name(path)[k],
{
    lemma_last_component_within(path, path.len() as int);
    match last_component(path, path.len() as int) {
        Some(c) => {
            let d = last_index_of(c, '.', c.len() as int);
            lemma_last_index_of(c, '.', c.len() as int);
            assert forall|k: int| 0 <= k < file_stem(c).len() implies exists|j: int|
                0 <= j < path.len() && path[j] == #[trigger] file_stem(c)[k] by {
                assert(file_stem(c)[k] == c[k]);
            }
        },
        None => {
            assert forall|k: int| 0 <= k < path.len() implies exists|j: int|
                0 <= j < path.len() && path[j] == #[trigger] path[k] by {}
        },
    }
}

/// The index of the last `c` in `s[..end]`.
fn find_last(s: &[char], c: char, end: usize) -> (r: Option<usize>)
    requires
        end <= s@.len(),
    ensures
        match r {
            Some(k) => k < end && k as int == last_index_of(s@, c, end as int),
            None => last_index_of(s@, c, end as int) == -1,
        },
{
    let mut i = end;
    while i > 0
        invariant
            i <= end <= s@.len(),
            last_index_of(s@, c, end as int) == last_index_of(s@, c, i as int),
        decreases i,
    {
        if s[i - 1] == c {
            return Some(i - 1);
        }
        i = i - 1;
    }
    None
}

/// Recognition of file formats by their contents, and the matching names.
pub struct MagicDetector;

impl MagicDetector {
    /// The extension suggested by the first bytes of a file: `.ogg` for data
    /// that starts with `OggS`, else none.
    pub fn suggest_extension(header: &[u8]) -> (r: Option<&'static str>)
        ensures
            match r {
                Some(ext) => suggested_extension(header@) == Some(ext@),
                None => suggested_extension(header@) is None,
            },
    {
        if header.len() >= 4 && header[0] == 0x4f && header[1] == 0x67 && header[2] == 0x67
            && header[3] == 0x53 {
            proof {
                reveal_strlit(".ogg");
                assert(header@.take(4) =~= ogg_magic());
            }
            Some(".ogg")
        } else {
            proof {
                if 4 <= header@.len() && header@.take(4) == ogg_magic() {
                    assert(header@[0] == header@.take(4)[0]);
                    assert(header@[1] == header@.take(4)[1]);
                    assert(header@[2] == header@.take(4)[2]);
                    assert(header@[3] == header@.take(4)[3]);
                }
            }
            None
        }
    }

    /// Whether a name is stored without its extension: whether it ends, in
    /// lower case, with `.ogg`.
    pub fn should_strip_extension(filename: &str) -> (r: bool)
        ensures
            r == strips_extension(filename@),
    {
        let lower = to_lowercase(filename);
        let ext = ".ogg";
        proof {
            reveal_strlit(".ogg");
            assert(ext@ =~= ogg_ext());
        }
        str_ends_with(lower.as_str(), ext)
    }

    /// The name without the extension of its last path component
    /// (components separated by `/`).
    pub fn strip_extension(filename: &str) -> (r: String)
        ensures
            r@ == stripped_name(filename@),
    {
        let cs = chars_of(filename);
        let s = cs.as_slice();
        let mut end = s.len();
        loop
            invariant
                s@ == filename@,
                end <= s@.len(),
                last_component(s@, s@.len() as int) == last_component(s@, end as int),
            decreases end,
        {
            if end == 0 {
                return string_from_chars(s);
            }
            let start = match find_last(s, '/', end) {
                Some(k) => k + 1,
                None => 0,
            };
            proof {
                lemma_last_index_of(s@, '/', end as int);
            }
            let len = end - start;
            let dot_only = len == 1 && s[start] == '.';
            if len == 0 || dot_only {
                proof {
                    if dot_only {
                        assert(s@.subrange(start as int, end as int) =~= seq!['.']);
                    }
                }
                if start == 0 {
                    return string_from_chars(s);
                }
                end = start - 1;
            } else {
                proof {
                    if !dot_only {
                        if len == 1 {
                            assert(s@.subrange(start as int, end as int)[0] == s@[start as int]);
                        }
                    }
                }
                if len == 2 && s[start] == '.' && s[start + 1] == '.' {
                    assert(s@.subrange(start as int, end as int) =~= seq!['.', '.']);
                    return string_from_chars(s);
                }
                let comp = slice_subrange(s, start, end);
                proof {
                    if len == 2 {
                        assert(comp@[0] == s@[start as int]);
                        assert(comp@[1] == s@[start + 1]);
                        assert(comp@ != seq!['.', '.'] || (comp@[0] == '.' && comp@[1] == '.'));
                    }
                    assert(comp@ != seq!['.']) by {
                        if len == 1 {
                            assert(comp@[0] == s@[start as int]);
                        }
                    }
                }
                let stem_end = match find_last(comp, '.', comp.len()) {
                    Some(d) => if d == 0 {
                        comp.len()
                    } else {
                        d
                    },
                    None => comp.len(),
                };
                proof {
                    lemma_last_index_of(comp@, '.', comp@.len() as int);
                }
                let stem = slice_subrange(comp, 0, stem_end);
                proof {
                    if stem_end == comp.len() {
                        assert(stem@ =~= comp@);
                    }
                }
                return string_from_chars(stem);
            }
        }
    }
}

} // verus!
