//! The filter predicate: case-insensitive substring match on the entry
//! name, combined with an optional kind restriction.

use vstd::prelude::*;

verus! {

/// Options for searching files and directories.
///
/// `name_pattern` is an optional substring that the entry name must
/// contain, compared case-insensitively; `None` matches every name.
/// `file_type` is an optional kind restriction: `"f"` accepts only
/// regular files, `"d"` accepts only directories, `None` accepts any
/// kind. A `file_type` outside `{"f", "d"}` accepts nothing on the
/// kind axis; this is a deliberate choice, documented here because a
/// caller could also have expected it to mean "no restriction".
#[derive(Clone)]
pub struct SearchOptions {
    pub name_pattern: Option<String>,
    pub file_type: Option<String>,
}

/// The lowercase form of a string, as the UTF-8 bytes of the string
/// that `str::to_lowercase` returns. The result depends on the
/// characters of the input alone.
pub uninterp spec fn lower_of(s: Seq<char>) -> Seq<u8>;

/// Relies on `str::to_lowercase`: returns the lowercase equivalent of
/// the string, a pure function of its characters. `String::into_bytes`
/// only converts the result to its UTF-8 bytes.
#[verifier::external_body]
fn lower_bytes(s: &str) -> (r: Vec<u8>)
    ensures
        r@ == lower_of(s@),
{
    s.to_lowercase().into_bytes()
}

/// `needle` occurs as a contiguous subrange of `hay`.
pub open spec fn is_substring(needle: Seq<u8>, hay: Seq<u8>) -> bool {
    exists|i: int|
        0 <= i && i + needle.len() <= hay.len() && #[trigger] hay.subrange(i, i + needle.len())
            == needle
}

/// The bytes of `needle` match `hay` starting at position `start`.
spec fn matches_at(needle: Seq<u8>, hay: Seq<u8>, start: int) -> bool {
    &&& 0 <= start
    &&& start + needle.len() <= hay.len()
    &&& forall|j: int| 0 <= j < needle.len() ==> needle[j] == hay[start + j]
}

proof fn lemma_matches_at_is_subrange(needle: Seq<u8>, hay: Seq<u8>, start: int)
    requires
        matches_at(needle, hay, start),
    ensures
        hay.subrange(start, start + needle.len() as int) == needle,
{
    assert(hay.subrange(start, start + needle.len() as int) =~= needle);
}

/// Whether `hay` starts with `needle` at offset `start`, byte for byte.
fn check_match_at(hay: &Vec<u8>, needle: &Vec<u8>, start: usize) -> (r: bool)
    requires
        start + needle@.len() <= hay@.len(),
    ensures
        r == matches_at(needle@, hay@, start as int),
{
    proof {
        assert(hay@.len() == hay.len());
    }
    let mut j: usize = 0;
    while j < needle.len()
        invariant
            hay@.len() <= usize::MAX,
            start + needle@.len() <= hay@.len(),
            0 <= j <= needle@.len(),
            forall|k: int| 0 <= k < j ==> needle@[k] == hay@[start + k],
        decreases needle@.len() - j,
    {
        if hay[start + j] != needle[j] {
            return false;
        }
        j += 1;
    }
    true
}

/// Whether `needle` occurs anywhere in `hay` as a contiguous run of
/// bytes. The empty needle occurs in every haystack.
pub fn contains_bytes(hay: &Vec<u8>, needle: &Vec<u8>) -> (r: bool)
    ensures
        r == is_substring(needle@, hay@),
{
    if needle.len() > hay.len() {
        return false;
    }
    let mut i: usize = 0;
    let last: usize = hay.len() - needle.len();
    loop
        invariant
            needle@.len() <= hay@.len(),
            last == hay@.len() - needle@.len(),
            0 <= i <= last,
            forall|k: int| 0 <= k < i ==> !matches_at(needle@, hay@, k),
        ensures
            forall|k: int| 0 <= k <= last ==> !matches_at(needle@, hay@, k),
        decreases last - i,
    {
        if check_match_at(hay, needle, i) {
            proof {
                lemma_matches_at_is_subrange(needle@, hay@, i as int);
            }
            return true;
        }
        if i == last {
            break;
        }
        i += 1;
    }
    proof {
        assert forall|k: int|
            0 <= k && k + needle@.len() <= hay@.len() implies #[trigger] hay@.subrange(
            k,
            k + needle@.len(),
        ) != needle@ by {
            assert(!matches_at(needle@, hay@, k));
            let j = choose|j: int| 0 <= j < needle@.len() && needle@[j] != hay@[k + j];
            assert(hay@.subrange(k, k + needle@.len())[j] == hay@[k + j]);
        }
    }
    false
}

/// The name axis of the filter: with no pattern every name passes;
/// with a pattern, the lowercased pattern must occur in the
/// lowercased name.
pub open spec fn name_matches(options: SearchOptions, file_name: Seq<char>) -> bool {
    match options.name_pattern {
        None => true,
        Some(pattern) => is_substring(lower_of(pattern@), lower_of(file_name)),
    }
}

/// The kind axis of the filter: `"f"` demands a regular file, `"d"`
/// demands a directory, no restriction accepts anything, and any
/// other restriction accepts nothing.
pub open spec fn kind_matches(options: SearchOptions, is_file: bool, is_dir: bool) -> bool {
    match options.file_type {
        None => true,
        Some(t) => if t@ == seq!['f'] {
            is_file
        } else if t@ == seq!['d'] {
            is_dir
        } else {
            false
        },
    }
}

/// The whole filter predicate: both the name axis and the kind axis
/// must accept the entry.
pub open spec fn spec_apply_filters(
    options: SearchOptions,
    file_name: Seq<char>,
    is_file: bool,
    is_dir: bool,
) -> bool {
    name_matches(options, file_name) && kind_matches(options, is_file, is_dir)
}

/// Decides whether an entry with the given name and kind is reported.
pub fn apply_filters(
    options: &SearchOptions,
    file_name: &str,
    is_file: bool,
    is_dir: bool,
) -> (r: bool)
    ensures
        r == spec_apply_filters(*options, file_name@, is_file, is_dir),
{
    // Filter by name pattern if provided, case-insensitively.
    if let Some(pattern) = &options.name_pattern {
        let pattern_lower = lower_bytes(pattern.as_str());
        let file_name_lower = lower_bytes(file_name);
        if !contains_bytes(&file_name_lower, &pattern_lower) {
            return false;
        }
    }

    // Filter by file type: 'f' for files, 'd' for directories.
    if let Some(file_type) = &options.file_type {
        let want_file: String = "f".to_owned();
        let want_dir: String = "d".to_owned();
        proof {
            reveal_strlit("f");
            reveal_strlit("d");
            assert(want_file@ =~= seq!['f']);
            assert(want_dir@ =~= seq!['d']);
        }
        if *file_type == want_file {
            return is_file;
        }
        if *file_type == want_dir {
            return is_dir;
        }
        return false;
    }

    true
}

} // verus!
