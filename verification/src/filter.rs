//! Eligibility: which entries of a directory tree are hashed and compared.
//!
//! An entry is eligible by its size, its extension and its name. Whether a
//! name matches the pattern is for the `regex` crate to say.

use regex::Regex;
use vstd::prelude::*;
use vstd::std_specs::iter::IteratorSpec;

verus! {

/// What the traversal read of an entry besides its name.
#[derive(Clone, Copy, Debug, PartialEq, Eq, Structural)]
pub struct Metadata {
    /// The size in bytes.
    pub size: u64,
    /// Whether the entry is a regular file.
    pub is_file: bool,
}

/// One entry of the directory tree, as the traversal hands it over.
#[derive(Debug, PartialEq, Eq)]
pub struct DirectoryEntry {
    /// The path that leads to the entry.
    pub path: String,
    /// The last component of the path.
    pub file_name: String,
    /// The metadata, or `None` where it could not be read.
    pub metadata: Option<Metadata>,
}

/// The mathematical value of a `DirectoryEntry`.
pub struct EntryView {
    pub path: Seq<char>,
    pub file_name: Seq<char>,
    pub metadata: Option<Metadata>,
}

impl View for DirectoryEntry {
    type V = EntryView;

    open spec fn view(&self) -> EntryView {
        EntryView { path: self.path@, file_name: self.file_name@, metadata: self.metadata }
    }
}

impl DeepView for DirectoryEntry {
    type V = EntryView;

    open spec fn deep_view(&self) -> EntryView {
        self@
    }
}

impl Clone for DirectoryEntry {
    /// A copy with the same path, name and metadata.
    fn clone(&self) -> (copy: Self)
        ensures
            copy@ == self@,
    {
        DirectoryEntry {
            path: self.path.clone(),
            file_name: self.file_name.clone(),
            metadata: self.metadata,
        }
    }
}

/// `regex::Regex`, a compiled regular expression, as an opaque value.
#[verifier::external_type_specification]
#[verifier::external_body]
pub struct ExRegex(Regex);

/// Whether `re` matches somewhere in `haystack`, as `regex` decides it. The
/// answer depends on the compiled expression and the haystack alone.
pub uninterp spec fn regex_matches(re: Regex, haystack: Seq<char>) -> bool;

/// `regex::Regex::is_match`: whether there is a match for the pattern
/// anywhere in the haystack.
#[verifier::external_body]
fn is_match(re: &Regex, haystack: &str) -> (found: bool)
    ensures
        found == regex_matches(*re, haystack@),
{
    re.is_match(haystack)
}

// ---------------------------------------------------------------------------
// The model
// ---------------------------------------------------------------------------

/// The index of the last `.` in `name`, or -1 if it has none.
pub open spec fn last_dot(name: Seq<char>) -> int
    decreases name.len(),
{
    if name.len() == 0 {
        -1
    } else if name.last() == '.' {
        name.len() - 1
    } else {
        last_dot(name.drop_last())
    }
}

/// The extension of `name`: what follows its last `.`, and nothing if it has
/// none.
pub open spec fn extension_of(name: Seq<char>) -> Seq<char> {
    if last_dot(name) < 0 {
        Seq::empty()
    } else {
        name.subrange(last_dot(name) + 1, name.len() as int)
    }
}

/// Whether an entry is eligible: its metadata could be read and its size is
/// within the bounds, both included; its extension is one of the allowed
/// ones, letter for letter; and the pattern matches somewhere in its name.
pub open spec fn is_eligible(
    entry: EntryView,
    min_size: u64,
    max_size: u64,
    allowed_exts: Seq<Seq<char>>,
    name_regex: Regex,
) -> bool {
    &&& entry.metadata matches Some(m) && min_size <= m.size <= max_size
    &&& allowed_exts.contains(extension_of(entry.file_name))
    &&& regex_matches(name_regex, entry.file_name)
}

/// `last_dot` finds a `.` with none after it, or there is none at all.
pub proof fn lemma_last_dot(name: Seq<char>)
    ensures
        -1 <= last_dot(name) < name.len(),
        last_dot(name) >= 0 ==> name[last_dot(name)] == '.',
        forall|j: int| last_dot(name) < j < name.len() ==> name[j] != '.',
    decreases name.len(),
{
    if name.len() > 0 && name.last() != '.' {
        lemma_last_dot(name.drop_last());
        assert forall|j: int| last_dot(name) < j < name.len() implies name[j] != '.' by {
            if j < name.len() - 1 {
                assert(name.drop_last()[j] == name[j]);
            }
        }
    }
}

/// An extension holds no `.`, and a name without `.` has the empty extension.
pub proof fn lemma_extension_has_no_dot(name: Seq<char>)
    ensures
        !extension_of(name).contains('.'),
        !name.contains('.') ==> extension_of(name) == Seq::<char>::empty(),
{
    lemma_last_dot(name);
    let at = last_dot(name);
    if extension_of(name).contains('.') {
        let k = choose|k: int| 0 <= k < extension_of(name).len() && extension_of(name)[k] == '.';
        assert(name[at + 1 + k] == '.');
    }
    if !name.contains('.') && at >= 0 {
        assert(name[at] == '.');
    }
}

/// A name that ends in a `.` and then `ext`, where `ext` holds no `.`, has the
/// extension `ext`.
pub proof fn lemma_extension_after_dot(stem: Seq<char>, ext: Seq<char>)
    requires
        !ext.contains('.'),
    ensures
        extension_of(stem + seq!['.'] + ext) == ext,
{
    let name = stem + seq!['.'] + ext;
    let at = last_dot(name);
    lemma_last_dot(name);
    assert(name[stem.len() as int] == '.');
    if at > stem.len() {
        assert(name[at] == ext[at - stem.len() - 1]);
    }
}

// ---------------------------------------------------------------------------
// The filter
// ---------------------------------------------------------------------------

/// The characters of `text`, one by one.
fn chars_of(text: &str) -> (chars: Vec<char>)
    ensures
        chars@ == text@,
{
    let mut chars: Vec<char> = Vec::new();
    for c in it: text.chars()
        invariant
            it.seq() == text@,
            chars@ == text@.take(it.index()),
    {
        chars.push(c);
    }
    chars
}

/// Where the extension of `name` starts: behind the last `.`, or at the end
/// if there is none.
fn extension_start(name: &Vec<char>) -> (start: usize)
    ensures
        start <= name.len(),
        name@.subrange(start as int, name.len() as int) == extension_of(name@),
{
    let mut dot: Option<usize> = None;
    let mut i: usize = 0;
    while i < name.len()
        invariant
            i <= name.len(),
            match dot {
                Some(at) => at == last_dot(name@.take(i as int)),
                None => last_dot(name@.take(i as int)) == -1,
            },
        decreases name.len() - i,
    {
        assert(name@.take(i + 1).drop_last() == name@.take(i as int));
        if name[i] == '.' {
            dot = Some(i);
        }
        i = i + 1;
    }
    assert(name@.take(name.len() as int) == name@);
    proof {
        lemma_last_dot(name@);
    }
    match dot {
        Some(at) => at + 1,
        None => {
            name.len()
        },
    }
}

/// Whether what `name` holds from `start` on is `candidate`, letter for
/// letter.
fn tail_equals(name: &Vec<char>, start: usize, candidate: &Vec<char>) -> (same: bool)
    requires
        start <= name.len(),
    ensures
        same == (name@.subrange(start as int, name.len() as int) == candidate@),
{
    let ghost tail = name@.subrange(start as int, name.len() as int);
    if name.len() - start != candidate.len() {
        return false;
    }
    let mut k: usize = 0;
    while k < candidate.len()
        invariant
            start <= name.len(),
            name.len() - start == candidate.len(),
            k <= candidate.len(),
            tail == name@.subrange(start as int, name.len() as int),
            tail.take(k as int) == candidate@.take(k as int),
        decreases candidate.len() - k,
    {
        if name[start + k] != candidate[k] {
            return false;
        }
        k = k + 1;
    }
    assert(tail.take(tail.len() as int) == tail);
    assert(candidate@.take(candidate.len() as int) == candidate@);
    true
}

/// Whether the extension of `file_name` is one of `allowed_exts`: an exact
/// match, with upper and lower case told apart.
pub fn extension_allowed(file_name: &str, allowed_exts: &[&str]) -> (allowed: bool)
    ensures
        allowed == allowed_exts.deep_view().contains(extension_of(file_name@)),
{
    let name = chars_of(file_name);
    let start = extension_start(&name);
    let ghost wanted = extension_of(file_name@);
    let ghost exts = allowed_exts.deep_view();
    let mut k: usize = 0;
    while k < allowed_exts.len()
        invariant
            k <= allowed_exts.len(),
            name@ == file_name@,
            start <= name.len(),
            wanted == extension_of(file_name@),
            name@.subrange(start as int, name.len() as int) == wanted,
            exts == allowed_exts.deep_view(),
            forall|m: int| 0 <= m < k ==> exts[m] != wanted,
        decreases allowed_exts.len() - k,
    {
        let candidate = chars_of(allowed_exts[k]);
        assert(exts[k as int] == candidate@);
        if tail_equals(&name, start, &candidate) {
            return true;
        }
        k = k + 1;
    }
    false
}

/// Whether `entry` is eligible for comparison. An entry whose metadata could
/// not be read is not, and that is no error.
pub fn file_filter(
    entry: &DirectoryEntry,
    min_size: u64,
    max_size: u64,
    allowed_exts: &[&str],
    name_regex: &Regex,
) -> (eligible: bool)
    ensures
        eligible == is_eligible(
            entry@,
            min_size,
            max_size,
            allowed_exts.deep_view(),
            *name_regex,
        ),
{
    let size = match entry.metadata {
        Some(m) => m.size,
        None => {
            return false;
        },
    };
    size >= min_size && size <= max_size && extension_allowed(
        entry.file_name.as_str(),
        allowed_exts,
    ) && is_match(name_regex, entry.file_name.as_str())
}

// ---------------------------------------------------------------------------
// The criteria of a run
// ---------------------------------------------------------------------------

/// What makes an entry eligible: made once for a run and read from then on.
/// The upper bound on the size is never below the lower one.
pub struct EligibilityCriteria<'a> {
    min_size: u64,
    max_size: u64,
    allowed_extensions: Vec<&'a str>,
    name_pattern: Regex,
}

/// The mathematical value of an `EligibilityCriteria`.
pub struct CriteriaView {
    pub min_size: u64,
    pub max_size: u64,
    pub allowed_extensions: Seq<Seq<char>>,
    pub name_pattern: Regex,
}

/// Whether the criteria `c` admit `entry`.
pub open spec fn admits(c: CriteriaView, entry: EntryView) -> bool {
    is_eligible(entry, c.min_size, c.max_size, c.allowed_extensions, c.name_pattern)
}

/// The entries that a run compares: regular files that the criteria admit.
pub open spec fn selects(c: CriteriaView) -> spec_fn(EntryView) -> bool {
    |entry: EntryView| entry.metadata matches Some(m) && m.is_file && admits(c, entry)
}

impl<'a> View for EligibilityCriteria<'a> {
    type V = CriteriaView;

    closed spec fn view(&self) -> CriteriaView {
        CriteriaView {
            min_size: self.min_size,
            max_size: self.max_size,
            allowed_extensions: self.allowed_extensions.deep_view(),
            name_pattern: self.name_pattern,
        }
    }
}

impl<'a> EligibilityCriteria<'a> {
    #[verifier::type_invariant]
    spec fn bounds_in_order(self) -> bool {
        self.min_size <= self.max_size
    }

    /// The criteria with these bounds, extensions and pattern, or `None`
    /// where `max_size` is below `min_size`. The extensions are written
    /// without the dot.
    pub fn new(
        min_size: u64,
        max_size: u64,
        allowed_extensions: Vec<&'a str>,
        name_pattern: Regex,
    ) -> (made: Option<Self>)
        ensures
            min_size <= max_size ==> made is Some && made->0@ == (CriteriaView {
                min_size,
                max_size,
                allowed_extensions: allowed_extensions.deep_view(),
                name_pattern,
            }),
            min_size > max_size ==> made is None,
    {
        if min_size > max_size {
            None
        } else {
            Some(EligibilityCriteria { min_size, max_size, allowed_extensions, name_pattern })
        }
    }

    /// The size bounds, the lower one first.
    pub fn size_bounds(&self) -> (bounds: (u64, u64))
        ensures
            bounds.0 == self@.min_size,
            bounds.1 == self@.max_size,
            bounds.0 <= bounds.1,
    {
        proof {
            use_type_invariant(self);
        }
        (self.min_size, self.max_size)
    }

    /// Whether these criteria admit `entry`.
    pub fn is_eligible(&self, entry: &DirectoryEntry) -> (eligible: bool)
        ensures
            eligible == admits(self@, entry@),
    {
        file_filter(
            entry,
            self.min_size,
            self.max_size,
            self.allowed_extensions.as_slice(),
            &self.name_pattern,
        )
    }
}

/// The entries of `entries` that are compared, in their order: the regular
/// files that the criteria admit. The file type is tested first.
pub fn select_eligible(entries: Vec<DirectoryEntry>, criteria: &EligibilityCriteria) -> (chosen:
    Vec<DirectoryEntry>)
    ensures
        chosen.deep_view() == entries.deep_view().filter(selects(criteria@)),
{
    let ghost all = entries.deep_view();
    let ghost wanted = selects(criteria@);
    let mut chosen: Vec<DirectoryEntry> = Vec::new();
    assert(chosen.deep_view() =~= all.take(0).filter(wanted)) by {
        all.take(0).lemma_filter_len(wanted);
    }
    for entry in it: entries
        invariant
            it.seq() == entries@,
            all == entries.deep_view(),
            wanted == selects(criteria@),
            chosen.deep_view() == all.take(it.index()).filter(wanted),
    {
        proof {
            assert(all.take(it.index() + 1) == all.take(it.index()).push(entry@));
            all.take(it.index()).lemma_filter_push(entry@, wanted);
        }
        let regular = match entry.metadata {
            Some(m) => m.is_file,
            None => false,
        };
        if regular && criteria.is_eligible(&entry) {
            let ghost before = chosen.deep_view();
            chosen.push(entry);
            assert(chosen.deep_view() =~= before.push(entry@));
        }
    }
    assert(all.take(all.len() as int) == all);
    chosen
}

// ---------------------------------------------------------------------------
// What holds of the filter
// ---------------------------------------------------------------------------

/// `entry` with the size `size`.
pub open spec fn with_size(entry: EntryView, size: u64) -> EntryView {
    EntryView {
        path: entry.path,
        file_name: entry.file_name,
        metadata: Some(Metadata { size, is_file: true }),
    }
}

/// The filter is a function of the entry and the criteria: two runs on the
/// same input give the same answer.
pub proof fn lemma_filter_repeats(
    entry: &DirectoryEntry,
    min_size: u64,
    max_size: u64,
    allowed_exts: &[&str],
    name_regex: &Regex,
    first: bool,
    second: bool,
)
    requires
        call_ensures(file_filter, (entry, min_size, max_size, allowed_exts, name_regex), first),
        call_ensures(file_filter, (entry, min_size, max_size, allowed_exts, name_regex), second),
    ensures
        first == second,
{
}

/// Both size bounds are included. Of the files with an allowed extension and
/// a matching name, one of exactly `min_size` bytes is eligible and one of a
/// byte less is not; one of exactly `max_size` bytes is eligible and one of a
/// byte more is not.
pub proof fn lemma_size_bounds(
    entry: EntryView,
    min_size: u64,
    max_size: u64,
    allowed_exts: Seq<Seq<char>>,
    name_regex: Regex,
)
    requires
        min_size <= max_size,
        allowed_exts.contains(extension_of(entry.file_name)),
        regex_matches(name_regex, entry.file_name),
    ensures
        is_eligible(with_size(entry, min_size), min_size, max_size, allowed_exts, name_regex),
        is_eligible(with_size(entry, max_size), min_size, max_size, allowed_exts, name_regex),
        min_size > 0 ==> !is_eligible(
            with_size(entry, (min_size - 1) as u64),
            min_size,
            max_size,
            allowed_exts,
            name_regex,
        ),
        max_size < u64::MAX ==> !is_eligible(
            with_size(entry, (max_size + 1) as u64),
            min_size,
            max_size,
            allowed_exts,
            name_regex,
        ),
        forall|size: u64|
            min_size <= size <= max_size <==> #[trigger] is_eligible(
                with_size(entry, size),
                min_size,
                max_size,
                allowed_exts,
                name_regex,
            ),
{
}

/// The extension has to be one of the allowed ones exactly: an entry is not
/// eligible unless its extension, letter for letter, is in the list.
pub proof fn lemma_extension_exact(
    entry: EntryView,
    min_size: u64,
    max_size: u64,
    allowed_exts: Seq<Seq<char>>,
    name_regex: Regex,
)
    requires
        forall|k: int|
            0 <= k < allowed_exts.len() ==> #[trigger] allowed_exts[k] != extension_of(
                entry.file_name,
            ),
    ensures
        !is_eligible(entry, min_size, max_size, allowed_exts, name_regex),
{
}

} // verus!
