//! Android: the hierarchy comes from `adb exec-out uiautomator dump`.

use vstd::prelude::*;

use crate::error::{ErrorView, InspectorError};
use crate::text::{chars_of, find_first, find_last, first_occurrence, last_occurrence, lemma_first_occurrence_is_first, lemma_last_occurrence_is_last, occurs_at, owned, slice_chars, string_from_chars};

verus! {

/// The adb invocation, for an optional device serial.
pub struct AdbPlatform {
    serial: Option<String>,
}

/// The arguments given to `adb`: the device selector when a serial is
/// given, then the dump command that writes the hierarchy to stdout.
pub open spec fn adb_args_for(serial: Option<Seq<char>>) -> Seq<Seq<char>> {
    let cmd = seq!["exec-out"@, "uiautomator"@, "dump"@, "/dev/tty"@];
    match serial {
        Some(s) => seq!["-s"@, s] + cmd,
        None => cmd,
    }
}

/// The views of a vector of strings.
pub open spec fn string_views(v: Seq<String>) -> Seq<Seq<char>> {
    Seq::new(v.len(), |i: int| v[i]@)
}

impl AdbPlatform {
    /// The device serial, if one was given.
    pub closed spec fn serial_view(&self) -> Option<Seq<char>> {
        match self.serial {
            Some(s) => Some(s@),
            None => None,
        }
    }

    /// A platform for the device with `serial`, or the only device.
    pub fn new(serial: Option<String>) -> (r: AdbPlatform)
        ensures
            r.serial_view() == match serial {
                Some(s) => Some(s@),
                None => None::<Seq<char>>,
            },
    {
        AdbPlatform { serial }
    }

    /// The arguments to run `adb` with.
    pub fn adb_args(&self) -> (r: Vec<String>)
        ensures
            string_views(r@) == adb_args_for(self.serial_view()),
    {
        let mut v: Vec<String> = Vec::new();
        if let Some(s) = &self.serial {
            v.push(owned("-s"));
            v.push(s.clone());
        }
        v.push(owned("exec-out"));
        v.push(owned("uiautomator"));
        v.push(owned("dump"));
        v.push(owned("/dev/tty"));
        assert(string_views(v@) =~= adb_args_for(self.serial_view()));
        v
    }

    /// The name of the platform.
    pub fn name(&self) -> (r: &'static str)
        ensures
            r@ == "android"@,
    {
        "android"
    }
}

/// Where the XML starts: at the first `<?xml`, or else at the first
/// `<hierarchy`.
pub open spec fn xml_start(raw: Seq<char>) -> Option<int> {
    match first_occurrence(raw, "<?xml"@) {
        Some(i) => Some(i),
        None => first_occurrence(raw, "<hierarchy"@),
    }
}

/// Where the XML ends: just after the last `</hierarchy>`.
pub open spec fn xml_end(raw: Seq<char>) -> Option<int> {
    match last_occurrence(raw, "</hierarchy>"@) {
        Some(i) => Some(i + "</hierarchy>"@.len()),
        None => None,
    }
}

/// The start does not come after the end. Slicing `raw` fails otherwise.
pub open spec fn span_ordered(raw: Seq<char>) -> bool {
    match (xml_start(raw), xml_end(raw)) {
        (Some(s), Some(e)) => s <= e,
        _ => true,
    }
}

/// The message when the output holds no XML.
pub open spec fn no_xml_message() -> Seq<char> {
    "no se encontro XML en la salida de adb"@
}

/// The message when the output does not close the hierarchy.
pub open spec fn no_close_message() -> Seq<char> {
    "falta el cierre </hierarchy>"@
}

/// What extracting the XML from the output `raw` gives.
pub open spec fn extract_xml_result(raw: Seq<char>) -> Result<Seq<char>, ErrorView> {
    match xml_start(raw) {
        None => Err(ErrorView::Adb(no_xml_message())),
        Some(s) => match xml_end(raw) {
            None => Err(ErrorView::Adb(no_close_message())),
            Some(e) => Ok(raw.subrange(s, e)),
        },
    }
}

/// Where the XML starts and ends in `raw`, counted in chars.
pub fn xml_span(raw: &str) -> (r: (Option<usize>, Option<usize>))
    ensures
        match r.0 {
            Some(s) => xml_start(raw@) == Some(s as int),
            None => xml_start(raw@) is None,
        },
        match r.1 {
            Some(e) => xml_end(raw@) == Some(e as int) && e <= raw@.len(),
            None => xml_end(raw@) is None,
        },
{
    let cs = chars_of(raw);
    let start = match find_first(&cs, &chars_of("<?xml")) {
        Some(i) => Some(i),
        None => find_first(&cs, &chars_of("<hierarchy")),
    };
    let close = chars_of("</hierarchy>");
    let end = match find_last(&cs, &close) {
        Some(i) => {
            assert(cs@.len() == cs.len());
            assert(i + close@.len() <= cs@.len()) by {
                assert(last_occurrence(cs@, close@) == Some(i as int));
                lemma_last_occurrence_fits(cs@, close@, cs@.len() - close@.len());
            }
            Some(i + close.len())
        },
        None => None,
    };
    (start, end)
}

/// A found occurrence lies inside the text.
proof fn lemma_last_occurrence_fits(s: Seq<char>, pat: Seq<char>, upto: int)
    ensures
        crate::text::last_occurrence_upto(s, pat, upto) matches Some(i) ==> 0 <= i && i + pat.len() <= s.len(),
    decreases upto + 1,
{
    if upto >= 0 && !crate::text::occurs_at(s, pat, upto) {
        lemma_last_occurrence_fits(s, pat, upto - 1);
    }
}

/// The XML part of the output of `uiautomator dump`, which may be followed
/// by a message of the tool: from the XML declaration (or the opening
/// `<hierarchy`) to the last `</hierarchy>`.
pub fn extract_xml(raw: &str) -> (r: Result<String, InspectorError>)
    requires
        span_ordered(raw@),
    ensures
        match r {
            Ok(x) => extract_xml_result(raw@) == Ok::<Seq<char>, ErrorView>(x@),
            Err(e) => extract_xml_result(raw@) == Err::<Seq<char>, ErrorView>(e@),
        },
{
    let (start, end) = xml_span(raw);
    let start = match start {
        Some(s) => s,
        None => return Err(InspectorError::Adb(owned("no se encontro XML en la salida de adb"))),
    };
    let end = match end {
        Some(e) => e,
        None => return Err(InspectorError::Adb(owned("falta el cierre </hierarchy>"))),
    };
    let cs = chars_of(raw);
    let part = slice_chars(&cs, start, end);
    Ok(string_from_chars(&part))
}

/// What the dump gives, from how adb ended and what it wrote.
pub open spec fn dump_result(success: bool, stdout: Seq<char>, stderr: Seq<char>) -> Result<Seq<char>, ErrorView> {
    if !success {
        Err(ErrorView::Adb(stderr))
    } else {
        extract_xml_result(stdout)
    }
}

/// The dump from adb's exit status and output: its error output when it
/// failed, else the XML extracted from its standard output.
pub fn dump_from_output(success: bool, stdout: &str, stderr: &str) -> (r: Result<String, InspectorError>)
    requires
        success ==> span_ordered(stdout@),
    ensures
        match r {
            Ok(x) => dump_result(success, stdout@, stderr@) == Ok::<Seq<char>, ErrorView>(x@),
            Err(e) => dump_result(success, stdout@, stderr@) == Err::<Seq<char>, ErrorView>(e@),
        },
{
    if !success {
        return Err(InspectorError::Adb(owned(stderr)));
    }
    extract_xml(stdout)
}

/// The XML taken from adb's output starts at the first `<?xml` or, when the
/// output has none, at the first `<hierarchy`, and ends with the last
/// `</hierarchy>`, so that a message after the document is left out; it
/// fails with the first message exactly when the output has neither
/// opening, and with the second exactly when it has an opening and no
/// `</hierarchy>`.
pub proof fn lemma_extract_takes_the_document(raw: Seq<char>)
    ensures
        extract_xml_result(raw) matches Ok(x) ==> exists|s: int, e: int|
            #![trigger raw.subrange(s, e)]
            x == raw.subrange(s, e) && {
                ||| occurs_at(raw, "<?xml"@, s) && forall|j: int| 0 <= j < s ==> !#[trigger] occurs_at(raw, "<?xml"@, j)
                ||| (forall|j: int| !#[trigger] occurs_at(raw, "<?xml"@, j)) && occurs_at(raw, "<hierarchy"@, s)
                    && forall|j: int| 0 <= j < s ==> !#[trigger] occurs_at(raw, "<hierarchy"@, j)
            } && occurs_at(raw, "</hierarchy>"@, e - "</hierarchy>"@.len()) && forall|j: int|
                j > e - "</hierarchy>"@.len() ==> !#[trigger] occurs_at(raw, "</hierarchy>"@, j),
        extract_xml_result(raw) == Err::<Seq<char>, ErrorView>(ErrorView::Adb(no_xml_message())) <==> (forall|j: int|
            !#[trigger] occurs_at(raw, "<?xml"@, j)) && (forall|j: int| !#[trigger] occurs_at(raw, "<hierarchy"@, j)),
        extract_xml_result(raw) == Err::<Seq<char>, ErrorView>(ErrorView::Adb(no_close_message())) <==> !((forall|j: int|
            !#[trigger] occurs_at(raw, "<?xml"@, j)) && (forall|j: int| !#[trigger] occurs_at(raw, "<hierarchy"@, j)))
            && (forall|j: int| !#[trigger] occurs_at(raw, "</hierarchy>"@, j)),
{
    reveal_strlit("no se encontro XML en la salida de adb");
    reveal_strlit("falta el cierre </hierarchy>");
    lemma_first_occurrence_is_first(raw, "<?xml"@);
    lemma_first_occurrence_is_first(raw, "<hierarchy"@);
    lemma_last_occurrence_is_last(raw, "</hierarchy>"@);
    assert(no_xml_message().len() != no_close_message().len());
    let no_open = (forall|j: int| !#[trigger] occurs_at(raw, "<?xml"@, j)) && (forall|j: int|
        !#[trigger] occurs_at(raw, "<hierarchy"@, j));
    let no_close = forall|j: int| !#[trigger] occurs_at(raw, "</hierarchy>"@, j);
    assert(xml_start(raw) is None <==> no_open);
    assert(xml_end(raw) is None <==> no_close);
    if let Ok(x) = extract_xml_result(raw) {
        let s = xml_start(raw)->0;
        let e = xml_end(raw)->0;
        assert(x == raw.subrange(s, e));
    }
}

} // verus!
