//! Output file names: the name a response suggests, and the renaming that
//! keeps a download from overwriting a file that is already there.

use vstd::prelude::*;
use vstd::string::*;
use crate::text::{after_last_in, chars_of, find_after_last, find_first, first_position,
    lemma_after_last_in, lemma_position_from};

verus! {

/// The two quote characters that may surround a header parameter.
pub open spec fn is_quote(c: char) -> bool {
    c == '"' || c == '\''
}

/// Index of the first character of `s` at or after `from` that is no quote,
/// or `s.len()` if only quotes follow.
pub open spec fn skip_quotes(s: Seq<char>, from: int) -> int
    decreases s.len() - from,
{
    if from >= s.len() {
        s.len() as int
    } else if is_quote(s[from]) {
        skip_quotes(s, from + 1)
    } else {
        from
    }
}

/// One past the last character of `s` in `low..upto` that is no quote, or
/// `low` if that stretch holds only quotes.
pub open spec fn drop_quotes(s: Seq<char>, low: int, upto: int) -> int
    decreases upto - low,
{
    if upto <= low {
        low
    } else if is_quote(s[upto - 1]) {
        drop_quotes(s, low, upto - 1)
    } else {
        upto
    }
}

/// The file name in a `Content-Disposition` value: the text after the last
/// `=` (the whole value if it has none), without the quotes around it.
pub open spec fn spec_name_from_content_disposition(value: Seq<char>) -> Seq<char> {
    let start = after_last_in(value, '=', value.len() as int);
    let low = skip_quotes(value, start);
    let high = drop_quotes(value, low, value.len() as int);
    value.subrange(low, high)
}

/// The file name in a URL: the last `/`-separated segment of what precedes
/// the first `?`.
pub open spec fn spec_name_from_url(url: Seq<char>) -> Seq<char> {
    let end = first_position(url, '?');
    let start = after_last_in(url, '/', end);
    url.subrange(start, end)
}

/// What a colliding name gains.
pub open spec fn collision_suffix() -> Seq<char> {
    seq!['_', 'n', 'e', 'w']
}

/// `name` with the collision suffix put before its first `.`, or at its end
/// if it has no `.`.
pub open spec fn spec_collision_rename(name: Seq<char>) -> Seq<char> {
    let dot = first_position(name, '.');
    name.subrange(0, dot) + collision_suffix() + name.subrange(dot, name.len() as int)
}

/// `name` after `times` renamings.
pub open spec fn renamed(name: Seq<char>, times: nat) -> Seq<char>
    decreases times,
{
    if times == 0 {
        name
    } else {
        spec_collision_rename(renamed(name, (times - 1) as nat))
    }
}

/// Whether `name` is among the names in `existing`.
pub open spec fn taken(existing: Seq<String>, name: Seq<char>) -> bool {
    exists|i: int| 0 <= i < existing.len() && (#[trigger] existing[i])@ == name
}

/// `name` is what `hint` turns into when it is renamed until it is free:
/// `hint` renamed some number of times, not among `existing`, while every
/// candidate before it is.
pub open spec fn resolves_to(hint: Seq<char>, existing: Seq<String>, name: Seq<char>) -> bool {
    &&& !taken(existing, name)
    &&& exists|k: nat|
        {
            &&& name == #[trigger] renamed(hint, k)
            &&& forall|j: nat| j < k ==> taken(existing, #[trigger] renamed(hint, j))
        }
}

/// How many names in `existing` have at least `n` characters.
pub open spec fn count_at_least(existing: Seq<String>, n: nat) -> nat
    decreases existing.len(),
{
    if existing.len() == 0 {
        0
    } else {
        let rest = count_at_least(existing.drop_last(), n);
        if existing.last()@.len() >= n {
            rest + 1
        } else {
            rest
        }
    }
}

proof fn lemma_count_at_least_monotonic(existing: Seq<String>, n: nat, m: nat)
    requires
        n <= m,
    ensures
        count_at_least(existing, m) <= count_at_least(existing, n),
    decreases existing.len(),
{
    if existing.len() > 0 {
        lemma_count_at_least_monotonic(existing.drop_last(), n, m);
    }
}

proof fn lemma_longer_names_fewer(existing: Seq<String>, name: Seq<char>, more: nat)
    requires
        taken(existing, name),
        more > name.len(),
    ensures
        count_at_least(existing, more) < count_at_least(existing, name.len()),
    decreases existing.len(),
{
    let i = choose|i: int| 0 <= i < existing.len() && (#[trigger] existing[i])@ == name;
    let rest = existing.drop_last();
    if existing.last()@ == name {
        lemma_count_at_least_monotonic(rest, name.len(), more);
    } else {
        assert(rest[i] == existing[i]);
        assert(taken(rest, name));
        lemma_longer_names_fewer(rest, name, more);
    }
}

/// Renaming touches nothing but the first segment of a name: what precedes
/// the first `.` is kept and gains the suffix, and everything from that `.`
/// on follows unchanged, so the first `.` of the new name is the old one.
pub proof fn lemma_rename_keeps_extensions(name: Seq<char>)
    ensures
        spec_collision_rename(name).len() == name.len() + 4,
        first_position(spec_collision_rename(name), '.') == first_position(name, '.') + 4,
        spec_collision_rename(name).subrange(0, first_position(name, '.')) == name.subrange(
            0,
            first_position(name, '.'),
        ),
        spec_collision_rename(name).subrange(
            first_position(name, '.'),
            first_position(name, '.') + 4,
        ) == collision_suffix(),
        spec_collision_rename(name).subrange(
            first_position(name, '.') + 4,
            spec_collision_rename(name).len() as int,
        ) == name.subrange(first_position(name, '.'), name.len() as int),
{
    let dot = first_position(name, '.');
    let out = spec_collision_rename(name);
    lemma_position_from(name, '.', 0);
    assert(out.len() == name.len() + 4);
    assert(out.subrange(0, dot) =~= name.subrange(0, dot));
    assert(out.subrange(dot, dot + 4) =~= collision_suffix());
    assert(out.subrange(dot + 4, out.len() as int) =~= name.subrange(dot, name.len() as int));
    lemma_position_from(out, '.', 0);
    let found = first_position(out, '.');
    // No `.` stands in the kept prefix or in the suffix, and the old first
    // `.`, if there is one, now stands at `dot + 4`.
    if found < dot {
        assert(out[found] == name[found]);
    } else if found < dot + 4 {
        assert(out[found] == collision_suffix()[found - dot]);
    } else if found > dot + 4 {
        assert(out[dot + 4] == name[dot]);
    }
}

/// However often a name is renamed, only its first segment grows: what
/// precedes the first `.` stays in front, everything from that `.` on
/// stays at the end, and each renaming puts one suffix between the two.
pub proof fn lemma_renamed_keeps_extensions(name: Seq<char>, times: nat)
    ensures
        renamed(name, times).len() == name.len() + 4 * times,
        first_position(renamed(name, times), '.') == first_position(name, '.') + 4 * times,
        renamed(name, times).subrange(0, first_position(name, '.')) == name.subrange(
            0,
            first_position(name, '.'),
        ),
        renamed(name, times).subrange(
            first_position(name, '.') + 4 * times,
            renamed(name, times).len() as int,
        ) == name.subrange(first_position(name, '.'), name.len() as int),
    decreases times,
{
    let dot = first_position(name, '.');
    lemma_position_from(name, '.', 0);
    if times > 0 {
        let before = renamed(name, (times - 1) as nat);
        let after = renamed(name, times);
        let moved = dot + 4 * (times - 1);
        lemma_renamed_keeps_extensions(name, (times - 1) as nat);
        lemma_rename_keeps_extensions(before);
        assert(after.subrange(0, dot) =~= after.subrange(0, moved).subrange(0, dot));
        assert(before.subrange(0, dot) =~= before.subrange(0, moved).subrange(0, dot));
    }
}

/// The name taken from a URL is a single path segment: it holds neither a
/// `/` nor a `?`.
pub proof fn lemma_name_from_url_is_one_segment(url: Seq<char>)
    ensures
        forall|i: int|
            0 <= i < spec_name_from_url(url).len() ==> {
                &&& (#[trigger] spec_name_from_url(url)[i]) != '/'
                &&& spec_name_from_url(url)[i] != '?'
            },
{
    let end = first_position(url, '?');
    lemma_position_from(url, '?', 0);
    lemma_after_last_in(url, '/', end);
}

/// A hint resolves to one name only.
pub proof fn lemma_resolution_unique(
    hint: Seq<char>,
    existing: Seq<String>,
    one: Seq<char>,
    other: Seq<char>,
)
    requires
        resolves_to(hint, existing, one),
        resolves_to(hint, existing, other),
    ensures
        one == other,
{
    let k = choose|k: nat|
        {
            &&& one == #[trigger] renamed(hint, k)
            &&& forall|j: nat| j < k ==> taken(existing, #[trigger] renamed(hint, j))
        };
    let m = choose|m: nat|
        {
            &&& other == #[trigger] renamed(hint, m)
            &&& forall|j: nat| j < m ==> taken(existing, #[trigger] renamed(hint, j))
        };
    if k < m {
        assert(taken(existing, renamed(hint, k)));
    } else if m < k {
        assert(taken(existing, renamed(hint, m)));
    }
}

/// Extracts the file name that a `Content-Disposition` value carries.
pub fn name_from_content_disposition(value: &str) -> (name: String)
    ensures
        name@ == spec_name_from_content_disposition(value@),
{
    let chars = chars_of(value);
    let len: usize = chars.len();
    let start: usize = find_after_last(&chars, '=', len);
    let mut low: usize = start;
    while low < len && (chars[low] == '"' || chars[low] == '\'')
        invariant
            start <= low <= len,
            len == chars@.len(),
            skip_quotes(chars@, start as int) == skip_quotes(chars@, low as int),
        decreases len - low,
    {
        low = low + 1;
    }
    let mut high: usize = len;
    while high > low && (chars[high - 1] == '"' || chars[high - 1] == '\'')
        invariant
            low <= high <= len,
            len == chars@.len(),
            drop_quotes(chars@, low as int, len as int) == drop_quotes(
                chars@,
                low as int,
                high as int,
            ),
        decreases high - low,
    {
        high = high - 1;
    }
    String::from_str(value.substring_char(low, high))
}

/// Extracts the file name that a URL ends in.
pub fn name_from_url(url: &str) -> (name: String)
    ensures
        name@ == spec_name_from_url(url@),
{
    let chars = chars_of(url);
    let end: usize = find_first(&chars, '?');
    let start: usize = find_after_last(&chars, '/', end);
    String::from_str(url.substring_char(start, end))
}

/// Renames `name` after a collision: `report.pdf` becomes `report_new.pdf`,
/// `archive.tar.gz` becomes `archive_new.tar.gz`, `notes` becomes
/// `notes_new`.
pub fn collision_rename(name: &str) -> (out: String)
    ensures
        out@ == spec_collision_rename(name@),
{
    let chars = chars_of(name);
    let dot: usize = find_first(&chars, '.');
    let mut out = String::from_str(name.substring_char(0, dot));
    proof {
        reveal_strlit("_new");
        assert("_new"@ =~= collision_suffix());
    }
    out.append("_new");
    out.append(name.substring_char(dot, chars.len()));
    out
}

/// Tells whether `name` is one of `existing`.
pub fn is_taken(existing: &Vec<String>, name: &String) -> (found: bool)
    ensures
        found == taken(existing@, name@),
{
    let mut i: usize = 0;
    while i < existing.len()
        invariant
            i <= existing@.len(),
            forall|j: int| 0 <= j < i ==> (#[trigger] existing@[j])@ != name@,
        decreases existing@.len() - i,
    {
        if existing[i] == *name {
            return true;
        }
        i = i + 1;
    }
    false
}

/// Finds a free name for the output file. Starting from `hint`, the name is
/// renamed for as long as it is one of `existing`; the first candidate that
/// is not is returned.
pub fn resolve(hint: &str, existing: &Vec<String>) -> (name: String)
    ensures
        resolves_to(hint@, existing@, name@),
{
    let mut candidate = String::from_str(hint);
    let ghost mut k: nat = 0;
    while is_taken(existing, &candidate)
        invariant
            candidate@ == renamed(hint@, k),
            forall|j: nat| j < k ==> taken(existing@, #[trigger] renamed(hint@, j)),
        decreases count_at_least(existing@, candidate@.len()),
    {
        proof {
            lemma_rename_keeps_extensions(candidate@);
            lemma_longer_names_fewer(existing@, candidate@, candidate@.len() + 4);
        }
        candidate = collision_rename(candidate.as_str());
        proof {
            k = k + 1;
        }
    }
    candidate
}

} // verus!
