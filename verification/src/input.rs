//! Putting the list of names together and checking the settings.

use vstd::prelude::*;
use crate::order::Standing;
use crate::order::comes_before;
use crate::order::lemma_order_transitive;
use crate::order::standing;
use crate::order::strictly_rising;
use crate::text::blank;
use crate::text::chars_of;
use crate::text::decimal;
use crate::text::decimal_string;
use crate::text::is_blank;
use crate::text::is_whitespace_char;
use crate::text::string_of;
use crate::text::string_views;

verus! {

/// Why a list of names or a setting was refused.
#[derive(Clone, Copy, Debug, PartialEq, Eq, Structural)]
pub enum InputError {
    /// The threshold is above 100 percent.
    ThresholdOutOfRange { threshold: u8 },
    /// The least size of a group is below two.
    MinGroupSizeTooSmall { min_size: usize },
    /// No name was given.
    NoFiles,
}

/// The text of an error.
pub open spec fn error_text(e: InputError) -> Seq<char> {
    match e {
        InputError::ThresholdOutOfRange { threshold } => "Threshold must be between 0 and 100, got: "@
            + decimal(threshold as nat),
        InputError::MinGroupSizeTooSmall { min_size } => "Minimum group size must be at least 2, got: "@
            + decimal(min_size as nat),
        InputError::NoFiles => "No files provided. Use --help for usage information."@,
    }
}

impl InputError {
    /// The text of the error.
    pub fn message(&self) -> (text: String)
        ensures
            text@ == error_text(*self),
    {
        match self {
            InputError::ThresholdOutOfRange { threshold } => {
                let mut text = String::from_str("Threshold must be between 0 and 100, got: ");
                text.append(decimal_string(*threshold as usize).as_str());
                text
            },
            InputError::MinGroupSizeTooSmall { min_size } => {
                let mut text = String::from_str("Minimum group size must be at least 2, got: ");
                text.append(decimal_string(*min_size).as_str());
                text
            },
            InputError::NoFiles => String::from_str(
                "No files provided. Use --help for usage information.",
            ),
        }
    }
}

/// Accepts a threshold of at most 100 percent.
pub fn validate_threshold(threshold: u8) -> (r: Result<(), InputError>)
    ensures
        threshold <= 100 ==> r is Ok,
        threshold > 100 ==> r == Err::<(), InputError>(InputError::ThresholdOutOfRange { threshold }),
{
    if threshold > 100 {
        return Err(InputError::ThresholdOutOfRange { threshold });
    }
    Ok(())
}

/// Accepts a least group size of at least two.
pub fn validate_min_group_size(min_size: usize) -> (r: Result<(), InputError>)
    ensures
        min_size >= 2 ==> r is Ok,
        min_size < 2 ==> r == Err::<(), InputError>(InputError::MinGroupSizeTooSmall { min_size }),
{
    if min_size < 2 {
        return Err(InputError::MinGroupSizeTooSmall { min_size });
    }
    Ok(())
}

/// Finds the files of a directory tree.
#[derive(Clone, Copy, Debug)]
pub struct FileDiscovery {}

impl FileDiscovery {
    /// A discovery with no settings.
    pub fn new() -> (r: Self)
        ensures
            r == (FileDiscovery {  }),
    {
        Self {  }
    }
}

/// A string without the white space at its beginning.
pub open spec fn trim_start(s: Seq<char>) -> Seq<char>
    decreases s.len(),
{
    if s.len() > 0 && is_whitespace_char(s[0]) {
        trim_start(s.drop_first())
    } else {
        s
    }
}

/// A string without the white space at its end.
pub open spec fn trim_end(s: Seq<char>) -> Seq<char>
    decreases s.len(),
{
    if s.len() > 0 && is_whitespace_char(s.last()) {
        trim_end(s.drop_last())
    } else {
        s
    }
}

/// A string without the white space at its beginning and at its end.
pub open spec fn trimmed(s: Seq<char>) -> Seq<char> {
    trim_end(trim_start(s))
}

/// Whether a line names a file: without the white space around it, it is
/// not empty and, where comments are skipped, does not begin with `#`.
pub open spec fn is_entry(line: Seq<char>, skip_comments: bool) -> bool {
    trimmed(line).len() > 0 && !(skip_comments && trimmed(line)[0] == '#')
}

/// The names that `line` adds to `done`: itself without the white space
/// around it, where it names a file.
pub open spec fn with_line(done: Seq<Seq<char>>, line: Seq<char>, skip_comments: bool) -> Seq<
    Seq<char>,
> {
    if is_entry(line, skip_comments) {
        done.push(trimmed(line))
    } else {
        done
    }
}

/// Where the reading of a text stands: the names of the lines that have
/// ended, and the line that is still open.
pub open spec fn line_scan(text: Seq<char>, skip_comments: bool) -> (Seq<Seq<char>>, Seq<char>)
    decreases text.len(),
{
    if text.len() == 0 {
        (Seq::empty(), Seq::empty())
    } else {
        let (done, line) = line_scan(text.drop_last(), skip_comments);
        if text.last() == '\n' {
            (with_line(done, line, skip_comments), Seq::empty())
        } else {
            (done, line.push(text.last()))
        }
    }
}

/// The names in a text, one to a line: each line without the white space
/// around it, but for the lines that are then empty and, where comments
/// are skipped, the lines that then begin with `#`.
pub open spec fn entries_of(text: Seq<char>, skip_comments: bool) -> Seq<Seq<char>> {
    let (done, line) = line_scan(text, skip_comments);
    with_line(done, line, skip_comments)
}

/// Copies a line without the white space around it.
pub fn trim(line: &Vec<char>) -> (r: Vec<char>)
    ensures
        r@ == trimmed(line@),
{
    let n = line.len();
    let mut lo: usize = 0;
    assert(line@.subrange(0, n as int) =~= line@);
    while lo < n && line[lo].is_whitespace()
        invariant
            lo <= n,
            n == line.len(),
            trim_start(line@) == trim_start(line@.subrange(lo as int, n as int)),
        decreases n - lo,
    {
        assert(line@.subrange(lo as int, n as int).drop_first() =~= line@.subrange(
            lo + 1,
            n as int,
        ));
        lo = lo + 1;
    }
    let ghost rest = line@.subrange(lo as int, n as int);
    assert(trim_start(line@) == rest);
    let mut hi: usize = n;
    while hi > lo && line[hi - 1].is_whitespace()
        invariant
            lo <= hi <= n,
            n == line.len(),
            rest == line@.subrange(lo as int, n as int),
            trim_end(rest) == trim_end(line@.subrange(lo as int, hi as int)),
        decreases hi,
    {
        assert(line@.subrange(lo as int, hi as int).drop_last() =~= line@.subrange(
            lo as int,
            hi - 1,
        ));
        hi = hi - 1;
    }
    let mut r: Vec<char> = Vec::new();
    let mut k: usize = lo;
    while k < hi
        invariant
            lo <= k <= hi <= n,
            n == line.len(),
            r@ == line@.subrange(lo as int, k as int),
        decreases hi - k,
    {
        r.push(line[k]);
        assert(line@.subrange(lo as int, k + 1) =~= line@.subrange(lo as int, k as int).push(
            line@[k as int],
        ));
        k = k + 1;
    }
    r
}

/// Adds the name of a line that has ended to the names.
fn end_line(done: &mut Vec<String>, line: &Vec<char>, skip_comments: bool)
    ensures
        string_views(final(done)@) == with_line(string_views(old(done)@), line@, skip_comments),
{
    let name = trim(line);
    if name.len() > 0 && !(skip_comments && name[0] == '#') {
        let entry = string_of(&name);
        assert(string_views(done@.push(entry)) =~= string_views(done@).push(entry@));
        done.push(entry);
    }
}

/// The names in a text, one to a line.
pub fn names_in_text(text: &str, skip_comments: bool) -> (names: Vec<String>)
    ensures
        string_views(names@) == entries_of(text@, skip_comments),
{
    let chars = chars_of(text);
    let n = chars.len();
    let mut names: Vec<String> = Vec::new();
    let mut line: Vec<char> = Vec::new();
    let mut i: usize = 0;
    assert(string_views(names@) =~= Seq::<Seq<char>>::empty());
    while i < n
        invariant
            i <= n,
            n == chars.len(),
            chars@ == text@,
            line_scan(text@.subrange(0, i as int), skip_comments) == (string_views(names@), line@),
        decreases n - i,
    {
        assert(text@.subrange(0, i + 1).drop_last() =~= text@.subrange(0, i as int));
        if chars[i] == '\n' {
            end_line(&mut names, &line, skip_comments);
            line = Vec::new();
        } else {
            line.push(chars[i]);
        }
        i = i + 1;
    }
    assert(text@.subrange(0, n as int) =~= text@);
    end_line(&mut names, &line, skip_comments);
    names
}

/// The names in the text of a list of files: one name to a line, without
/// the white space around it; empty lines and lines that begin with `#`
/// name nothing.
pub fn parse_file_list(text: &str) -> (names: Vec<String>)
    ensures
        string_views(names@) == entries_of(text@, true),
{
    names_in_text(text, true)
}

/// The names in a text that was typed or piped in: one name to a line,
/// without the white space around it; empty lines name nothing.
pub fn parse_name_lines(text: &str) -> (names: Vec<String>)
    ensures
        string_views(names@) == entries_of(text@, false),
{
    names_in_text(text, false)
}

/// The names among the first `upto` of `given` that are not blank.
pub open spec fn named_among(given: Seq<Seq<char>>, upto: int) -> Set<Seq<char>> {
    Set::new(|s: Seq<char>| exists|i: int| 0 <= i < upto && i < given.len() && given[i] == s && !is_blank(s))
}

/// The names of `given` that are not blank.
pub open spec fn named(given: Seq<Seq<char>>) -> Set<Seq<char>> {
    named_among(given, given.len() as int)
}

/// Whether `sorted` holds the names of `given` that are not blank, each
/// once, in the order of strings.
pub open spec fn is_sorted_names(sorted: Seq<Seq<char>>, given: Seq<Seq<char>>) -> bool {
    &&& strictly_rising(sorted)
    &&& sorted.to_set() == named(given)
}

/// Puts `name` into the rising list `sorted`, unless it is there already.
fn insert_name(sorted: &mut Vec<String>, name: &String)
    requires
        strictly_rising(string_views(old(sorted)@)),
    ensures
        strictly_rising(string_views(final(sorted)@)),
        string_views(final(sorted)@).to_set() == string_views(old(sorted)@).to_set().insert(name@),
{
    let ghost before = string_views(sorted@);
    let chars = chars_of(name.as_str());
    let n = sorted.len();
    let mut p: usize = 0;
    let mut placed = false;
    while p < n && !placed
        invariant
            p <= n,
            n == sorted.len(),
            before == string_views(sorted@),
            strictly_rising(before),
            chars@ == name@,
            forall|i: int| 0 <= i < p ==> comes_before(before[i], name@),
            placed ==> p < n && comes_before(name@, before[p as int]),
        decreases n - p, (if placed { 0int } else { 1int }),
    {
        let other = chars_of(sorted[p].as_str());
        assert(other@ == before[p as int]);
        match standing(&other, &chars) {
            Standing::Before => {
                p = p + 1;
            },
            Standing::Same => {
                proof {
                    assert(before.to_set().contains(name@));
                    assert(before.to_set().insert(name@) =~= before.to_set());
                }
                return ;
            },
            Standing::After => {
                placed = true;
            },
        }
    }
    proof {
        let after = before.insert(p as int, name@);
        assert(string_views(sorted@.insert(p as int, *name)) =~= after);
        assert forall|i: int, j: int| 0 <= i < j < after.len() implies comes_before(
            after[i],
            after[j],
        ) by {
            if j == p {
                assert(after[i] == before[i]);
            } else if i == p {
                assert(after[j] == before[j - 1]);
                if j - 1 > p {
                    lemma_order_transitive(name@, before[p as int], before[j - 1]);
                }
            } else {
                let bi = if i < p {
                    i
                } else {
                    i - 1
                };
                let bj = if j < p {
                    j
                } else {
                    j - 1
                };
                assert(after[i] == before[bi]);
                assert(after[j] == before[bj]);
            }
        }
        assert(after.to_set() =~= before.to_set().insert(name@)) by {
            assert forall|s: Seq<char>| after.to_set().contains(s) <==> before.to_set().insert(
                name@,
            ).contains(s) by {
                if after.to_set().contains(s) {
                    let i = choose|i: int| 0 <= i < after.len() && after[i] == s;
                    if i < p {
                        assert(before[i] == s);
                    } else if i > p {
                        assert(before[i - 1] == s);
                    }
                }
                if before.to_set().contains(s) {
                    let i = choose|i: int| 0 <= i < before.len() && before[i] == s;
                    if i < p {
                        assert(after[i] == s);
                    } else {
                        assert(after[i + 1] == s);
                    }
                }
                if s == name@ {
                    assert(after[p as int] == s);
                }
            }
        }
    }
    sorted.insert(p, name.clone());
}

/// Puts the names of `given` that are not blank into the rising list
/// `sorted`.
fn insert_names(sorted: &mut Vec<String>, given: &Vec<String>)
    requires
        strictly_rising(string_views(old(sorted)@)),
    ensures
        strictly_rising(string_views(final(sorted)@)),
        string_views(final(sorted)@).to_set() == string_views(old(sorted)@).to_set().union(
            named(string_views(given@)),
        ),
{
    let ghost start = string_views(sorted@).to_set();
    let ghost names = string_views(given@);
    let n = given.len();
    let mut i: usize = 0;
    assert(named_among(names, 0) =~= Set::<Seq<char>>::empty());
    assert(start.union(named_among(names, 0)) =~= start);
    while i < n
        invariant
            i <= n,
            n == given.len(),
            names == string_views(given@),
            strictly_rising(string_views(sorted@)),
            string_views(sorted@).to_set() == start.union(named_among(names, i as int)),
        decreases n - i,
    {
        let ghost now = string_views(sorted@).to_set();
        if !blank(given[i].as_str()) {
            insert_name(sorted, &given[i]);
            assert(now.insert(names[i as int]) =~= start.union(named_among(names, i + 1)));
        } else {
            assert(now =~= start.union(named_among(names, i + 1)));
        }
        i = i + 1;
    }
}

/// All the names that were given, in one list: those of the command line,
/// then those of the input file, then those that were discovered.
pub open spec fn all_given(
    cli_files: Seq<Seq<char>>,
    input_file: Option<Seq<Seq<char>>>,
    discover_dir: Option<Seq<Seq<char>>>,
) -> Seq<Seq<char>> {
    cli_files + (match input_file {
        Some(names) => names,
        None => Seq::empty(),
    }) + (match discover_dir {
        Some(names) => names,
        None => Seq::empty(),
    })
}

/// The views of a list of names that may be missing.
pub open spec fn optional_views(names: Option<Vec<String>>) -> Option<Seq<Seq<char>>> {
    match names {
        Some(names) => Some(string_views(names@)),
        None => None,
    }
}

/// The names of a list and of another after it are the names of the one
/// and those of the other.
pub proof fn lemma_named_concat(a: Seq<Seq<char>>, b: Seq<Seq<char>>)
    ensures
        named(a + b) == named(a).union(named(b)),
{
    let ab = a + b;
    assert forall|s: Seq<char>| named(ab).contains(s) <==> named(a).union(named(b)).contains(s) by {
        if named(ab).contains(s) {
            let i = choose|i: int| 0 <= i < ab.len() && i < ab.len() && ab[i] == s && !is_blank(s);
            if i < a.len() {
                assert(a[i] == s);
            } else {
                assert(b[i - a.len()] == s);
            }
        }
        if named(a).contains(s) {
            let i = choose|i: int| 0 <= i < a.len() && i < a.len() && a[i] == s && !is_blank(s);
            assert(ab[i] == s);
        }
        if named(b).contains(s) {
            let i = choose|i: int| 0 <= i < b.len() && i < b.len() && b[i] == s && !is_blank(s);
            assert(ab[i + a.len()] == s);
        }
    }
    assert(named(ab) =~= named(a).union(named(b)));
}

/// Puts the names of the command line, of the input file and of the
/// discovery into one list: each name once, in the order of strings,
/// without the names that are blank. Where no name is left, the list is
/// refused.
pub fn collect_files(
    cli_files: Vec<String>,
    input_file: Option<Vec<String>>,
    discover_dir: Option<Vec<String>>,
) -> (r: Result<Vec<String>, InputError>)
    ensures
        r is Err <==> named(
            all_given(
                string_views(cli_files@),
                optional_views(input_file),
                optional_views(discover_dir),
            ),
        ) == Set::<Seq<char>>::empty(),
        match r {
            Ok(files) => files.len() > 0 && is_sorted_names(
                string_views(files@),
                all_given(
                    string_views(cli_files@),
                    optional_views(input_file),
                    optional_views(discover_dir),
                ),
            ),
            Err(e) => e == InputError::NoFiles && named(
                all_given(
                    string_views(cli_files@),
                    optional_views(input_file),
                    optional_views(discover_dir),
                ),
            ) == Set::<Seq<char>>::empty(),
        },
{
    let ghost first = string_views(cli_files@);
    let ghost second = match optional_views(input_file) {
        Some(names) => names,
        None => Seq::empty(),
    };
    let ghost third = match optional_views(discover_dir) {
        Some(names) => names,
        None => Seq::empty(),
    };
    let mut all_files: Vec<String> = Vec::new();
    assert(string_views(all_files@).to_set() =~= Set::<Seq<char>>::empty());
    insert_names(&mut all_files, &cli_files);
    assert(string_views(all_files@).to_set() =~= named(first));
    if let Some(names) = &input_file {
        insert_names(&mut all_files, names);
    } else {
        assert(named(second) =~= Set::<Seq<char>>::empty());
        assert(named(first).union(named(second)) =~= named(first));
    }
    proof {
        lemma_named_concat(first, second);
    }
    if let Some(names) = &discover_dir {
        insert_names(&mut all_files, names);
    } else {
        assert(named(third) =~= Set::<Seq<char>>::empty());
        assert(named(first + second).union(named(third)) =~= named(first + second));
    }
    proof {
        lemma_named_concat(first + second, third);
    }
    if all_files.len() == 0 {
        assert(string_views(all_files@) =~= Seq::<Seq<char>>::empty());
        assert(string_views(all_files@).to_set() =~= Set::<Seq<char>>::empty());
        return Err(InputError::NoFiles);
    }
    assert(string_views(all_files@).to_set().contains(string_views(all_files@)[0]));
    Ok(all_files)
}

} // verus!
