//! What the first response tells about the resource: its size, whether it
//! can be fetched in ranges, and the file name it suggests.

use vstd::prelude::*;
use crate::filename::{name_from_content_disposition, name_from_url,
    spec_name_from_content_disposition, spec_name_from_url};
use vstd::string::*;
use crate::text::{chars_of, equals_ignoring_case, find_from, parse_decimal, position_from,
    same_ignoring_case, spec_parse_decimal};

verus! {

/// One header line of a response.
#[derive(Clone, Debug, PartialEq, Eq)]
pub struct Header {
    pub name: String,
    pub value: String,
}

/// The outcome of the capability probe.
#[derive(Clone, Debug, PartialEq, Eq)]
pub struct ProbeResult {
    /// Size of the resource, where the response states one that can be read.
    pub content_length: Option<u64>,
    /// Whether the resource can be fetched as byte ranges.
    pub accepts_ranges: bool,
    /// Whether the body comes in the chunked transfer coding, and so at no
    /// fixed length.
    pub chunked: bool,
    /// The file name that the response suggests.
    pub filename_hint: String,
}

/// A `ProbeResult` with its text as a sequence of characters.
pub struct ProbeView {
    pub content_length: Option<u64>,
    pub accepts_ranges: bool,
    pub chunked: bool,
    pub filename_hint: Seq<char>,
}

impl View for ProbeResult {
    type V = ProbeView;

    open spec fn view(&self) -> ProbeView {
        ProbeView {
            content_length: self.content_length,
            accepts_ranges: self.accepts_ranges,
            chunked: self.chunked,
            filename_hint: self.filename_hint@,
        }
    }
}

/// Index of the first header at or after `from` that is called `name`, in
/// whatever case, or `headers.len()` if there is none.
pub open spec fn header_index(headers: Seq<Header>, name: Seq<char>, from: int) -> int
    decreases headers.len() - from,
{
    if from >= headers.len() {
        headers.len() as int
    } else if same_ignoring_case(headers[from].name@, name) {
        from
    } else {
        header_index(headers, name, from + 1)
    }
}

/// The value of the first header called `name`.
pub open spec fn spec_header_value(headers: Seq<Header>, name: Seq<char>) -> Option<Seq<char>> {
    let i = header_index(headers, name, 0);
    if i < headers.len() {
        Some(headers[i].value@)
    } else {
        None
    }
}

/// The characters that may surround an item of a list in a header value:
/// the space and the tab.
pub open spec fn is_blank(c: char) -> bool {
    c == ' ' || c == '\t'
}

/// Index of the first character of `s` in `from..upto` that is no blank, or
/// `upto` if that stretch holds only blanks.
pub open spec fn skip_blanks(s: Seq<char>, from: int, upto: int) -> int
    decreases upto - from,
{
    if from >= upto {
        upto
    } else if is_blank(s[from]) {
        skip_blanks(s, from + 1, upto)
    } else {
        from
    }
}

/// One past the last character of `s` in `low..upto` that is no blank, or
/// `low` if that stretch holds only blanks.
pub open spec fn drop_blanks(s: Seq<char>, low: int, upto: int) -> int
    decreases upto - low,
{
    if upto <= low {
        low
    } else if is_blank(s[upto - 1]) {
        drop_blanks(s, low, upto - 1)
    } else {
        upto
    }
}

/// The characters of `s` in `from..upto` without the blanks at either end.
pub open spec fn trimmed(s: Seq<char>, from: int, upto: int) -> Seq<char> {
    let low = skip_blanks(s, from, upto);
    s.subrange(low, drop_blanks(s, low, upto))
}

/// Whether one of the comma-separated items of `value` that start at or
/// after `from` is `word`, once the blanks around the item are taken off and
/// the case of letters is set aside. `from` is the start of an item.
pub open spec fn lists_from(value: Seq<char>, word: Seq<char>, from: int) -> bool
    decreases value.len() - from,
{
    let end = position_from(value, ',', from);
    ||| same_ignoring_case(trimmed(value, from, end), word)
    ||| (from <= end < value.len() && lists_from(value, word, end + 1))
}

/// Whether `word` is one of the comma-separated items of `value`.
pub open spec fn lists(value: Seq<char>, word: Seq<char>) -> bool {
    lists_from(value, word, 0)
}

/// Whether the response names the chunked transfer coding: one of its
/// `Transfer-Encoding` headers lists `chunked`.
pub open spec fn spec_chunked(headers: Seq<Header>) -> bool {
    exists|i: int|
        0 <= i < headers.len() && same_ignoring_case(
            (#[trigger] headers[i]).name@,
            "transfer-encoding"@,
        ) && lists(headers[i].value@, "chunked"@)
}

/// A resource can be fetched in ranges exactly when its size is known and
/// its body does not come in the chunked transfer coding.
pub open spec fn segmentable(content_length: Option<u64>, chunked: bool) -> bool {
    content_length is Some && !chunked
}

/// What the headers of a response and the URL it came from say of the
/// resource.
pub open spec fn spec_classify(headers: Seq<Header>, url: Seq<char>) -> ProbeView {
    let content_length = match spec_header_value(headers, "content-length"@) {
        Some(value) => spec_parse_decimal(value),
        None => None,
    };
    let chunked = spec_chunked(headers);
    ProbeView {
        content_length,
        accepts_ranges: segmentable(content_length, chunked),
        chunked,
        filename_hint: match spec_header_value(headers, "content-disposition"@) {
            Some(value) => spec_name_from_content_disposition(value),
            None => spec_name_from_url(url),
        },
    }
}

/// Looks up a header by name, without regard to case.
pub fn header_value<'a>(headers: &'a Vec<Header>, name: &str) -> (value: Option<&'a str>)
    ensures
        match value {
            Some(text) => spec_header_value(headers@, name@) == Some(text@),
            None => spec_header_value(headers@, name@) is None,
        },
{
    let mut i: usize = 0;
    while i < headers.len()
        invariant
            i <= headers@.len(),
            header_index(headers@, name@, 0) == header_index(headers@, name@, i as int),
        decreases headers@.len() - i,
    {
        if equals_ignoring_case(headers[i].name.as_str(), name) {
            return Some(headers[i].value.as_str());
        }
        i = i + 1;
    }
    None
}

/// Tells whether `word` is one of the comma-separated items of `value`.
/// Blanks around an item and the case of letters do not count.
pub fn value_lists(value: &str, word: &str) -> (found: bool)
    ensures
        found == lists(value@, word@),
{
    let chars = chars_of(value);
    let len: usize = chars.len();
    let mut from: usize = 0;
    loop
        invariant
            from <= len,
            len == chars@.len(),
            chars@ == value@,
            lists(value@, word@) == lists_from(value@, word@, from as int),
        decreases len - from,
    {
        let end: usize = find_from(&chars, ',', from);
        let mut low: usize = from;
        while low < end && (chars[low] == ' ' || chars[low] == '\t')
            invariant
                from <= low <= end <= len,
                len == chars@.len(),
                skip_blanks(chars@, from as int, end as int) == skip_blanks(
                    chars@,
                    low as int,
                    end as int,
                ),
            decreases end - low,
        {
            low = low + 1;
        }
        let mut high: usize = end;
        while high > low && (chars[high - 1] == ' ' || chars[high - 1] == '\t')
            invariant
                low <= high <= end <= len,
                len == chars@.len(),
                drop_blanks(chars@, low as int, end as int) == drop_blanks(
                    chars@,
                    low as int,
                    high as int,
                ),
            decreases high - low,
        {
            high = high - 1;
        }
        if equals_ignoring_case(value.substring_char(low, high), word) {
            return true;
        }
        if end >= len {
            return false;
        }
        from = end + 1;
    }
}

/// Tells whether the response names the chunked transfer coding.
pub fn is_chunked(headers: &Vec<Header>) -> (chunked: bool)
    ensures
        chunked == spec_chunked(headers@),
{
    let mut i: usize = 0;
    while i < headers.len()
        invariant
            i <= headers@.len(),
            forall|j: int|
                0 <= j < i ==> !(same_ignoring_case(
                    (#[trigger] headers@[j]).name@,
                    "transfer-encoding"@,
                ) && lists(headers@[j].value@, "chunked"@)),
        decreases headers@.len() - i,
    {
        if equals_ignoring_case(headers[i].name.as_str(), "transfer-encoding") && value_lists(
            headers[i].value.as_str(),
            "chunked",
        ) {
            return true;
        }
        i = i + 1;
    }
    false
}

/// Classifies a resource from the headers of the response to the first
/// request and from the URL that the response came from.
///
/// The size is the `Content-Length` value, if that is a decimal number. The
/// body is chunked if a `Transfer-Encoding` header lists the `chunked`
/// coding; any other transfer coding leaves the resource to its length. The
/// file name comes from `Content-Disposition` if the response has one, from
/// the URL otherwise.
pub fn classify(headers: &Vec<Header>, url: &str) -> (probe: ProbeResult)
    ensures
        probe@ == spec_classify(headers@, url@),
        probe.accepts_ranges == segmentable(probe.content_length, probe.chunked),
{
    let content_length = match header_value(headers, "content-length") {
        Some(value) => parse_decimal(value),
        None => None,
    };
    let chunked = is_chunked(headers);
    let filename_hint = match header_value(headers, "content-disposition") {
        Some(value) => name_from_content_disposition(value),
        None => name_from_url(url),
    };
    ProbeResult {
        content_length,
        accepts_ranges: content_length.is_some() && !chunked,
        chunked,
        filename_hint,
    }
}

} // verus!
