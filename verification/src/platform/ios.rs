//! iOS: the hierarchy comes from the page source of an Appium session.
//! The HTTP requests are made by the caller; the library decides the URLs,
//! which session to use, and what the replies mean.

use vstd::prelude::*;

use crate::error::{ErrorView, InspectorError};
use crate::text::{chars_of, decimal, owned, push_decimal, push_str, string_from_chars};

verus! {

/// An Appium server and, optionally, the session to inspect.
pub struct AppiumPlatform {
    base_url: String,
    session: Option<String>,
}

/// `s` without the `/` characters at its end.
pub open spec fn trim_trailing_slashes(s: Seq<char>) -> Seq<char>
    decreases s.len(),
{
    if s.len() > 0 && s.last() == '/' {
        trim_trailing_slashes(s.drop_last())
    } else {
        s
    }
}

/// The path of the list of sessions.
pub open spec fn sessions_path() -> Seq<char> {
    "/sessions"@
}

/// The path of the page source of session `sid`.
pub open spec fn source_path_of(sid: Seq<char>) -> Seq<char> {
    "/session/"@ + sid + "/source"@
}

/// The message for a list of sessions without a `value` array.
pub open spec fn malformed_sessions_message() -> Seq<char> {
    "respuesta /sessions malformada"@
}

/// The message when no session is active.
pub open spec fn no_sessions_message() -> Seq<char> {
    "no hay sesiones appium activas"@
}

/// The message for the one active session when it has no id.
pub open spec fn session_without_id_message() -> Seq<char> {
    "sesion sin id"@
}

/// The message when `n` sessions are active.
pub open spec fn many_sessions_message(n: nat) -> Seq<char> {
    decimal(n) + " sesiones activas; pasa --session <id>"@
}

/// The message for a page source reply without a string `value`.
pub open spec fn missing_source_message() -> Seq<char> {
    "falta 'value' en la respuesta appium"@
}

/// The ids of the listed sessions as plain text: `None` when the reply has
/// no `value` array, else each entry's `id` string if it has one.
pub open spec fn listing_view(l: Option<Vec<Option<String>>>) -> Option<Seq<Option<Seq<char>>>> {
    match l {
        None => None,
        Some(v) => Some(
            Seq::new(
                v@.len(),
                |i: int|
                    match v@[i] {
                        Some(s) => Some(s@),
                        None => None,
                    },
            ),
        ),
    }
}

/// The session to inspect: the one given, or else the only active one.
pub open spec fn session_result(
    given: Option<Seq<char>>,
    listing: Option<Seq<Option<Seq<char>>>>,
) -> Result<Seq<char>, ErrorView> {
    match given {
        Some(s) => Ok(s),
        None => match listing {
            None => Err(ErrorView::Appium(malformed_sessions_message())),
            Some(ids) => if ids.len() == 0 {
                Err(ErrorView::Appium(no_sessions_message()))
            } else if ids.len() == 1 {
                match ids[0] {
                    Some(id) => Ok(id),
                    None => Err(ErrorView::Appium(session_without_id_message())),
                }
            } else {
                Err(ErrorView::Appium(many_sessions_message(ids.len())))
            },
        },
    }
}

/// What the page source reply gives.
pub open spec fn source_result(value: Option<Seq<char>>) -> Result<Seq<char>, ErrorView> {
    match value {
        Some(x) => Ok(x),
        None => Err(ErrorView::Appium(missing_source_message())),
    }
}

impl AppiumPlatform {
    /// The server URL as given.
    pub closed spec fn base_url_view(&self) -> Seq<char> {
        self.base_url@
    }

    /// The session given, if any.
    pub closed spec fn session_view(&self) -> Option<Seq<char>> {
        match self.session {
            Some(s) => Some(s@),
            None => None,
        }
    }

    /// A platform for the server at `base_url` and, optionally, a session.
    pub fn new(base_url: String, session: Option<String>) -> (r: AppiumPlatform)
        ensures
            r.base_url_view() == base_url@,
            r.session_view() == match session {
                Some(s) => Some(s@),
                None => None::<Seq<char>>,
            },
    {
        AppiumPlatform { base_url, session }
    }

    /// The name of the platform.
    pub fn name(&self) -> (r: &'static str)
        ensures
            r@ == "ios"@,
    {
        "ios"
    }

    /// The server URL without trailing slashes.
    pub fn base(&self) -> (r: String)
        ensures
            r@ == trim_trailing_slashes(self.base_url_view()),
    {
        let cs = chars_of(self.base_url.as_str());
        let mut n = cs.len();
        assert(cs@.take(n as int) =~= cs@);
        while n > 0 && cs[n - 1] == '/'
            invariant
                0 <= n <= cs@.len(),
                cs@ == self.base_url@,
                trim_trailing_slashes(cs@) == trim_trailing_slashes(cs@.take(n as int)),
            decreases n,
        {
            assert(cs@.take(n as int).drop_last() =~= cs@.take(n - 1));
            n = n - 1;
        }
        let mut out: Vec<char> = Vec::new();
        let mut i: usize = 0;
        while i < n
            invariant
                0 <= i <= n <= cs@.len(),
                out@ == cs@.take(i as int),
            decreases n - i,
        {
            out.push(cs[i]);
            i = i + 1;
            assert(out@ =~= cs@.take(i as int));
        }
        proof {
            let t = cs@.take(n as int);
            assert(cs@.take(cs@.len() as int) =~= cs@);
            assert(!(t.len() > 0 && t.last() == '/'));
        }
        string_from_chars(&out)
    }

    /// The URL of `path` on the server.
    pub fn url(&self, path: &str) -> (r: String)
        ensures
            r@ == trim_trailing_slashes(self.base_url_view()) + path@,
    {
        let mut buf = chars_of(self.base().as_str());
        push_str(&mut buf, path);
        string_from_chars(&buf)
    }

    /// Whether the list of sessions must be fetched: when no session was
    /// given.
    pub fn needs_session_list(&self) -> (b: bool)
        ensures
            b == (self.session_view() is None),
    {
        self.session.is_none()
    }

    /// The session to inspect, from the given one or, when none was given,
    /// from the list of active sessions.
    pub fn resolve_session(&self, listing: Option<Vec<Option<String>>>) -> (r: Result<String, InspectorError>)
        ensures
            match r {
                Ok(s) => session_result(self.session_view(), listing_view(listing)) == Ok::<Seq<char>, ErrorView>(s@),
                Err(e) => session_result(self.session_view(), listing_view(listing)) == Err::<Seq<char>, ErrorView>(e@),
            },
    {
        if let Some(s) = &self.session {
            return Ok(s.clone());
        }
        let ghost lv = listing_view(listing);
        match listing {
            None => Err(InspectorError::Appium(owned("respuesta /sessions malformada"))),
            Some(ids) => {
                if ids.len() == 0 {
                    Err(InspectorError::Appium(owned("no hay sesiones appium activas")))
                } else if ids.len() == 1 {
                    match &ids[0] {
                        Some(id) => Ok(id.clone()),
                        None => Err(InspectorError::Appium(owned("sesion sin id"))),
                    }
                } else {
                    let mut buf: Vec<char> = Vec::new();
                    push_decimal(&mut buf, ids.len());
                    push_str(&mut buf, " sesiones activas; pasa --session <id>");
                    Err(InspectorError::Appium(string_from_chars(&buf)))
                }
            },
        }
    }

    /// The path of the page source of session `sid`.
    pub fn source_path(sid: &str) -> (r: String)
        ensures
            r@ == source_path_of(sid@),
    {
        let mut buf = chars_of("/session/");
        push_str(&mut buf, sid);
        push_str(&mut buf, "/source");
        string_from_chars(&buf)
    }

    /// The page source from the `value` string of the reply, if it has one.
    pub fn source_from_reply(value: Option<String>) -> (r: Result<String, InspectorError>)
        ensures
            match r {
                Ok(x) => source_result(match value { Some(s) => Some(s@), None => None }) == Ok::<Seq<char>, ErrorView>(x@),
                Err(e) => source_result(match value { Some(s) => Some(s@), None => None }) == Err::<Seq<char>, ErrorView>(e@),
            },
    {
        match value {
            Some(x) => Ok(x),
            None => Err(InspectorError::Appium(owned("falta 'value' en la respuesta appium"))),
        }
    }

    /// The error for a request to `path` that failed with `err`.
    pub fn request_failed(path: &str, err: &str) -> (r: InspectorError)
        ensures
            r@ == ErrorView::Appium("GET "@ + path@ + " fallo: "@ + err@),
    {
        let mut buf = chars_of("GET ");
        push_str(&mut buf, path);
        push_str(&mut buf, " fallo: ");
        push_str(&mut buf, err);
        InspectorError::Appium(string_from_chars(&buf))
    }

    /// The error for a reply to `path` with the unsuccessful `status` and
    /// the body `body`.
    pub fn bad_status(status: &str, path: &str, body: &str) -> (r: InspectorError)
        ensures
            r@ == ErrorView::Appium("appium respondio "@ + status@ + " en "@ + path@ + ": "@ + body@),
    {
        let mut buf = chars_of("appium respondio ");
        push_str(&mut buf, status);
        push_str(&mut buf, " en ");
        push_str(&mut buf, path);
        push_str(&mut buf, ": ");
        push_str(&mut buf, body);
        InspectorError::Appium(string_from_chars(&buf))
    }
}

/// A session given explicitly is used as it is, whatever the server lists.
pub proof fn lemma_given_session_wins(
    s: Seq<char>,
    l1: Option<Seq<Option<Seq<char>>>>,
    l2: Option<Seq<Option<Seq<char>>>>,
)
    ensures
        session_result(Some(s), l1) == Ok::<Seq<char>, ErrorView>(s),
        session_result(Some(s), l1) == session_result(Some(s), l2),
{
}

/// Without a given session the session comes from the server's list only
/// when exactly one session is active: any session taken is the id of the
/// only listed one; with none listed, or with two or more, the answer is
/// the error that says so, with the count.
pub proof fn lemma_session_from_listing(ids: Seq<Option<Seq<char>>>)
    ensures
        session_result(None, Some(ids)) matches Ok(s) ==> ids.len() == 1 && ids[0] == Some(s),
        ids.len() == 1 && ids[0] is Some ==> session_result(None, Some(ids)) == Ok::<Seq<char>, ErrorView>(
            ids[0]->0,
        ),
        ids.len() == 0 ==> session_result(None, Some(ids)) == Err::<Seq<char>, ErrorView>(
            ErrorView::Appium("no hay sesiones appium activas"@),
        ),
        ids.len() >= 2 ==> session_result(None, Some(ids)) == Err::<Seq<char>, ErrorView>(
            ErrorView::Appium(decimal(ids.len()) + " sesiones activas; pasa --session <id>"@),
        ),
{
}

/// Trimming removes every `/` at the end and nothing else: the result is a
/// prefix of the text, what it leaves out is only `/` characters, and it
/// does not itself end with `/`.
pub proof fn lemma_trim_trailing_slashes(s: Seq<char>)
    ensures
        trim_trailing_slashes(s).len() <= s.len(),
        trim_trailing_slashes(s) == s.take(trim_trailing_slashes(s).len() as int),
        forall|k: int| trim_trailing_slashes(s).len() <= k < s.len() ==> #[trigger] s[k] == '/',
        trim_trailing_slashes(s).len() > 0 ==> trim_trailing_slashes(s).last() != '/',
    decreases s.len(),
{
    if s.len() > 0 && s.last() == '/' {
        let init = s.drop_last();
        lemma_trim_trailing_slashes(init);
        let t = trim_trailing_slashes(init);
        assert(init.take(t.len() as int) =~= s.take(t.len() as int));
        assert forall|k: int| t.len() <= k < s.len() implies #[trigger] s[k] == '/' by {
            if k < init.len() {
                assert(init[k] == s[k]);
            }
        }
    } else {
        assert(s.take(s.len() as int) =~= s);
    }
}

} // verus!
