//! The decisions of the interactive session: what a line asks for, and the
//! cache of the last dump. Reading lines, fetching dumps and printing are
//! left to the caller.

use vstd::prelude::*;

use crate::error::{ErrorView, InspectorError};
use crate::model::{parse_tree_result, ElementView, UiNode};
use crate::text::{chars_eq, chars_of, is_white_space, push_chars, slice_chars, string_from_chars, white_space};

verus! {

/// `s` without its leading white space.
pub open spec fn trim_start(s: Seq<char>) -> Seq<char>
    decreases s.len(),
{
    if s.len() > 0 && is_white_space(s[0]) {
        trim_start(s.drop_first())
    } else {
        s
    }
}

/// `s` without its trailing white space.
pub open spec fn trim_end(s: Seq<char>) -> Seq<char>
    decreases s.len(),
{
    if s.len() > 0 && is_white_space(s.last()) {
        trim_end(s.drop_last())
    } else {
        s
    }
}

/// `s` without white space at either end.
pub open spec fn trim(s: Seq<char>) -> Seq<char> {
    trim_end(trim_start(s))
}

/// The words of `s`: its maximal runs of characters that are not white
/// space, in order.
pub open spec fn words(s: Seq<char>) -> Seq<Seq<char>>
    decreases s.len(),
{
    if s.len() == 0 {
        seq![]
    } else {
        let w = words(s.drop_last());
        let c = s.last();
        if is_white_space(c) {
            w
        } else if s.len() >= 2 && !is_white_space(s[s.len() - 2]) {
            w.drop_last().push(w.last().push(c))
        } else {
            w.push(seq![c])
        }
    }
}

/// The words joined by single spaces.
pub open spec fn join_words(ws: Seq<Seq<char>>) -> Seq<char>
    decreases ws.len(),
{
    if ws.len() == 0 {
        seq![]
    } else if ws.len() == 1 {
        ws[0]
    } else {
        join_words(ws.drop_last()) + " "@ + ws.last()
    }
}

/// `w` without one pair of matching quotes (`"` or `'`) around it, as a
/// shell would pass a quoted argument.
pub open spec fn unquote(w: Seq<char>) -> Seq<char> {
    if w.len() >= 2 && ((w[0] == '"' && w.last() == '"') || (w[0] == '\'' && w.last() == '\'')) {
        w.subrange(1, w.len() - 1)
    } else {
        w
    }
}

/// The words unquoted.
pub open spec fn unquote_all(ws: Seq<Seq<char>>) -> Seq<Seq<char>> {
    Seq::new(ws.len(), |i: int| unquote(ws[i]))
}

/// What a line of the session asks for.
#[derive(Debug)]
pub enum ReplCommand {
    /// A blank line: nothing.
    Empty,
    /// `exit` or `quit`: end the session.
    Exit,
    /// `help` or `?`: list the commands.
    Help,
    /// `refresh`: dump the device again.
    Refresh,
    /// `dump`: print the cached tree as XML.
    Dump,
    /// `find` with these arguments, unquoted: filter the cached tree by
    /// attributes.
    Find(Vec<String>),
    /// `xpath` with this expression: select in the cached dump.
    XPath(String),
    /// `xpath` without an expression: print its usage.
    XPathUsage,
    /// Any other first word.
    Unknown(String),
}

/// A command as plain values.
pub enum CommandView {
    Empty,
    Exit,
    Help,
    Refresh,
    Dump,
    Find(Seq<Seq<char>>),
    XPath(Seq<char>),
    XPathUsage,
    Unknown(Seq<char>),
}

/// The views of a vector of strings.
pub open spec fn string_views(v: Seq<String>) -> Seq<Seq<char>> {
    Seq::new(v.len(), |i: int| v[i]@)
}

impl View for ReplCommand {
    type V = CommandView;

    open spec fn view(&self) -> CommandView {
        match self {
            ReplCommand::Empty => CommandView::Empty,
            ReplCommand::Exit => CommandView::Exit,
            ReplCommand::Help => CommandView::Help,
            ReplCommand::Refresh => CommandView::Refresh,
            ReplCommand::Dump => CommandView::Dump,
            ReplCommand::Find(args) => CommandView::Find(string_views(args@)),
            ReplCommand::XPath(e) => CommandView::XPath(e@),
            ReplCommand::XPathUsage => CommandView::XPathUsage,
            ReplCommand::Unknown(c) => CommandView::Unknown(c@),
        }
    }
}

/// What the line `line` asks for. The line is trimmed; a blank line asks
/// for nothing, `exit` and `quit` end the session; otherwise its first word
/// is the command and the other words its arguments; the arguments of
/// `find` lose one pair of surrounding quotes each.
pub open spec fn command_of(line: Seq<char>) -> CommandView {
    let t = trim(line);
    if t.len() == 0 {
        CommandView::Empty
    } else if t == "exit"@ || t == "quit"@ {
        CommandView::Exit
    } else {
        let ws = words(t);
        let cmd = if ws.len() > 0 {
            ws[0]
        } else {
            seq![]
        };
        let rest = ws.drop_first();
        if cmd == "help"@ || cmd == "?"@ {
            CommandView::Help
        } else if cmd == "refresh"@ {
            CommandView::Refresh
        } else if cmd == "dump"@ {
            CommandView::Dump
        } else if cmd == "find"@ {
            CommandView::Find(unquote_all(rest))
        } else if cmd == "xpath"@ {
            if rest.len() == 0 {
                CommandView::XPathUsage
            } else {
                CommandView::XPath(join_words(rest))
            }
        } else {
            CommandView::Unknown(cmd)
        }
    }
}

/// `s` without white space at either end.
pub fn trim_chars(s: &Vec<char>) -> (r: Vec<char>)
    ensures
        r@ == trim(s@),
{
    let n = s.len();
    let mut a: usize = 0;
    assert(s@.skip(0) =~= s@);
    while a < n && white_space(s[a])
        invariant
            0 <= a <= n,
            n == s@.len(),
            trim_start(s@) == trim_start(s@.skip(a as int)),
        decreases n - a,
    {
        assert(s@.skip(a as int).drop_first() =~= s@.skip(a + 1));
        a = a + 1;
    }
    let ghost u = s@.skip(a as int);
    assert(trim_start(s@) == u);
    let mut b: usize = n;
    assert(u.take(u.len() as int) =~= u);
    while b > a && white_space(s[b - 1])
        invariant
            a <= b <= n,
            n == s@.len(),
            u == s@.skip(a as int),
            trim_end(u) == trim_end(u.take(b - a)),
        decreases b,
    {
        assert(u.take(b - a).drop_last() =~= u.take(b - a - 1));
        b = b - 1;
    }
    let r = slice_chars(s, a, b);
    assert(r@ =~= u.take(b - a));
    r
}

/// The words of `s`.
pub fn split_words(s: &Vec<char>) -> (r: Vec<Vec<char>>)
    ensures
        r@.len() == words(s@).len(),
        forall|i: int| 0 <= i < r@.len() ==> #[trigger] r@[i]@ == words(s@)[i],
{
    let mut out: Vec<Vec<char>> = Vec::new();
    let n = s.len();
    let mut i: usize = 0;
    assert(s@.take(0) =~= Seq::<char>::empty());
    while i < n
        invariant
            0 <= i <= n,
            n == s@.len(),
            out@.len() == words(s@.take(i as int)).len(),
            forall|k: int| 0 <= k < out@.len() ==> #[trigger] out@[k]@ == words(s@.take(i as int))[k],
        decreases n - i,
    {
        let c = s[i];
        let ghost t = s@.take(i + 1);
        proof {
            assert(t.drop_last() =~= s@.take(i as int));
            assert(t.last() == c);
            if i >= 1 {
                assert(t[t.len() - 2] == s@[i - 1]);
            }
        }
        if white_space(c) {
        } else if i >= 1 && !white_space(s[i - 1]) {
            let ghost before = out@;
            let last = out.len() - 1;
            assert(out@.len() > 0) by {
                lemma_words_last(s@.take(i as int));
            }
            let mut w = out.pop().unwrap();
            w.push(c);
            out.push(w);
            proof {
                let wd = words(s@.take(i as int));
                assert(words(t) == wd.drop_last().push(wd.last().push(c)));
                assert forall|k: int| 0 <= k < out@.len() implies #[trigger] out@[k]@ == words(t)[k] by {
                    if k < last {
                        assert(out@[k] == before[k]);
                    }
                }
            }
        } else {
            let ghost before = out@;
            let mut w: Vec<char> = Vec::new();
            w.push(c);
            out.push(w);
            proof {
                assert(w@ =~= seq![c]);
                assert forall|k: int| 0 <= k < out@.len() implies #[trigger] out@[k]@ == words(t)[k] by {
                    if k < before.len() {
                        assert(out@[k] == before[k]);
                    }
                }
            }
        }
        i = i + 1;
    }
    assert(s@.take(n as int) =~= s@);
    out
}

/// A text ending in a character that is not white space has a last word.
proof fn lemma_words_last(s: Seq<char>)
    requires
        s.len() > 0,
        !is_white_space(s.last()),
    ensures
        words(s).len() > 0,
    decreases s.len(),
{
    let w = words(s.drop_last());
    if s.len() >= 2 && !is_white_space(s[s.len() - 2]) {
        lemma_words_last(s.drop_last());
        assert(s.drop_last().last() == s[s.len() - 2]);
    }
}

/// Each word is a run of one or more characters none of which is white
/// space.
pub proof fn lemma_words_are_runs(s: Seq<char>)
    ensures
        forall|i: int| 0 <= i < words(s).len() ==> (#[trigger] words(s)[i]).len() > 0,
        forall|i: int, k: int|
            0 <= i < words(s).len() && 0 <= k < words(s)[i].len() ==> !is_white_space(
                #[trigger] words(s)[i][k],
            ),
    decreases s.len(),
{
    if s.len() > 0 {
        let w = words(s.drop_last());
        lemma_words_are_runs(s.drop_last());
        let c = s.last();
        if is_white_space(c) {
        } else if s.len() >= 2 && !is_white_space(s[s.len() - 2]) {
            lemma_words_last(s.drop_last());
            let r = w.drop_last().push(w.last().push(c));
            assert forall|i: int| 0 <= i < r.len() implies (#[trigger] r[i]).len() > 0 by {
                if i < r.len() - 1 {
                    assert(r[i] == w[i]);
                }
            }
            assert forall|i: int, k: int| 0 <= i < r.len() && 0 <= k < r[i].len() implies !is_white_space(
                #[trigger] r[i][k],
            ) by {
                if i < r.len() - 1 {
                    assert(r[i] == w[i]);
                } else {
                    assert(w.last() == w[w.len() - 1]);
                    if k < w.last().len() {
                        assert(r[i][k] == w[w.len() - 1][k]);
                    }
                }
            }
        } else {
            let r = w.push(seq![c]);
            assert forall|i: int| 0 <= i < r.len() implies (#[trigger] r[i]).len() > 0 by {
                if i < r.len() - 1 {
                    assert(r[i] == w[i]);
                }
            }
            assert forall|i: int, k: int| 0 <= i < r.len() && 0 <= k < r[i].len() implies !is_white_space(
                #[trigger] r[i][k],
            ) by {
                if i < r.len() - 1 {
                    assert(r[i] == w[i]);
                }
            }
        }
    }
}

/// No character of `w` is white space.
pub open spec fn no_white_space(w: Seq<char>) -> bool {
    forall|k: int| 0 <= k < w.len() ==> !is_white_space(#[trigger] w[k])
}

/// A run of characters none of which is white space is one word.
proof fn lemma_words_of_run(w: Seq<char>)
    requires
        w.len() > 0,
        no_white_space(w),
    ensures
        words(w) == seq![w],
    decreases w.len(),
{
    let init = w.drop_last();
    assert(!is_white_space(w[w.len() - 1]));
    if init.len() == 0 {
        assert(words(init) == Seq::<Seq<char>>::empty());
        assert(w =~= seq![w.last()]);
        assert(words(w) =~= seq![w]);
    } else {
        assert(no_white_space(init)) by {
            assert forall|k: int| 0 <= k < init.len() implies !is_white_space(#[trigger] init[k]) by {
                assert(init[k] == w[k]);
            }
        }
        lemma_words_of_run(init);
        assert(!is_white_space(w[w.len() - 2]));
        assert(words(init).last() == init);
        assert(words(init).drop_last() =~= Seq::<Seq<char>>::empty());
        assert(init.push(w.last()) =~= w);
        assert(words(w) =~= seq![w]);
    }
}

proof fn lemma_words_split_at(a: Seq<char>, c: char, b: Seq<char>)
    requires
        is_white_space(c),
    ensures
        words(a.push(c) + b) == words(a) + words(b),
    decreases b.len(),
{
    let ac = a.push(c);
    assert(ac.drop_last() =~= a);
    if b.len() == 0 {
        assert(ac + b =~= ac);
        assert(words(b) == Seq::<Seq<char>>::empty());
        assert(words(a) + words(b) =~= words(a));
    } else {
        let s = ac + b;
        let bi = b.drop_last();
        let x = b.last();
        lemma_words_split_at(a, c, bi);
        assert(s.drop_last() =~= ac + bi);
        assert(s.last() == x);
        let p = words(a);
        let q = words(bi);
        if is_white_space(x) {
            assert(words(s) == p + q);
        } else if b.len() >= 2 && !is_white_space(b[b.len() - 2]) {
            assert(s[s.len() - 2] == b[b.len() - 2]);
            assert(bi.last() == b[b.len() - 2]);
            lemma_words_last(bi);
            assert((p + q).last() == q.last());
            assert((p + q).drop_last().push((p + q).last().push(x)) =~= p + q.drop_last().push(q.last().push(x)));
        } else {
            if b.len() >= 2 {
                assert(s[s.len() - 2] == b[b.len() - 2]);
            } else {
                assert(s[s.len() - 2] == c);
                assert(bi.len() == 0);
                assert(q == Seq::<Seq<char>>::empty());
            }
            assert((p + q).push(seq![x]) =~= p + q.push(seq![x]));
        }
    }
}

/// Splitting into words cuts at white space and keeps the rest: a text
/// cut at one white-space character gives the words of the part before
/// and then those of the part after, and a run without white space is a
/// single word.
pub proof fn lemma_words_cut_at_white_space(a: Seq<char>, c: char, b: Seq<char>, w: Seq<char>)
    requires
        is_white_space(c),
    ensures
        words(a.push(c) + b) == words(a) + words(b),
        w.len() > 0 && no_white_space(w) ==> words(w) == seq![w],
        words(Seq::<char>::empty()) == Seq::<Seq<char>>::empty(),
{
    lemma_words_split_at(a, c, b);
    if w.len() > 0 && no_white_space(w) {
        lemma_words_of_run(w);
    }
}

/// Joining words by single spaces loses nothing: splitting the joined text
/// gives back the same words, so an expression that arrives as words is
/// rebuilt with one space between them.
pub proof fn lemma_join_words_round_trip(ws: Seq<Seq<char>>)
    requires
        forall|i: int| 0 <= i < ws.len() ==> (#[trigger] ws[i]).len() > 0 && no_white_space(ws[i]),
    ensures
        words(join_words(ws)) == ws,
    decreases ws.len(),
{
    if ws.len() == 0 {
        assert(words(Seq::<char>::empty()) =~= ws);
    } else if ws.len() == 1 {
        assert(ws[0].len() > 0 && no_white_space(ws[0]));
        lemma_words_of_run(ws[0]);
        assert(seq![ws[0]] =~= ws);
    } else {
        let init = ws.drop_last();
        assert forall|i: int| 0 <= i < init.len() implies (#[trigger] init[i]).len() > 0 && no_white_space(init[i]) by {
            assert(init[i] == ws[i]);
        }
        lemma_join_words_round_trip(init);
        let last = ws.last();
        assert(ws[ws.len() - 1].len() > 0 && no_white_space(ws[ws.len() - 1]));
        lemma_words_of_run(last);
        reveal_strlit(" ");
        assert(is_white_space(' '));
        lemma_words_split_at(join_words(init), ' ', last);
        assert(join_words(init) + " "@ + last =~= join_words(init).push(' ') + last);
        assert(init + seq![last] =~= ws);
    }
}

/// Trimmed text that is not empty ends in a character that is not white
/// space.
proof fn lemma_trim_end_last(s: Seq<char>)
    ensures
        trim_end(s).len() > 0 ==> !is_white_space(trim_end(s).last()),
    decreases s.len(),
{
    if s.len() > 0 && is_white_space(s.last()) {
        lemma_trim_end_last(s.drop_last());
    }
}

/// `w` without one pair of surrounding quotes.
pub fn unquote_chars(w: &Vec<char>) -> (r: Vec<char>)
    ensures
        r@ == unquote(w@),
{
    let n = w.len();
    if n >= 2 && ((w[0] == '"' && w[n - 1] == '"') || (w[0] == '\'' && w[n - 1] == '\'')) {
        slice_chars(w, 1, n - 1)
    } else {
        slice_chars(w, 0, n)
    }
}

/// Whether `x` holds exactly the characters of `lit`.
fn is_word(x: &Vec<char>, lit: &str) -> (b: bool)
    ensures
        b == (x@ == lit@),
{
    let l = chars_of(lit);
    chars_eq(x, &l)
}

/// What the line asks for.
pub fn parse_line(line: &str) -> (r: ReplCommand)
    ensures
        r@ == command_of(line@),
{
    let cs = chars_of(line);
    let t = trim_chars(&cs);
    if t.len() == 0 {
        return ReplCommand::Empty;
    }
    if is_word(&t, "exit") || is_word(&t, "quit") {
        return ReplCommand::Exit;
    }
    let ws = split_words(&t);
    let ghost wv = words(t@);
    proof {
        lemma_trim_end_last(trim_start(cs@));
        lemma_words_last(t@);
    }
    let cmd: Vec<char> = if ws.len() > 0 {
        slice_chars(&ws[0], 0, ws[0].len())
    } else {
        Vec::new()
    };
    assert(ws.len() > 0 ==> cmd@ =~= wv[0]);
    assert(ws.len() == 0 ==> cmd@ =~= Seq::<char>::empty());
    if is_word(&cmd, "help") || is_word(&cmd, "?") {
        return ReplCommand::Help;
    }
    if is_word(&cmd, "refresh") {
        return ReplCommand::Refresh;
    }
    if is_word(&cmd, "dump") {
        return ReplCommand::Dump;
    }
    let is_find = is_word(&cmd, "find");
    let is_xpath = is_word(&cmd, "xpath");
    if !is_find && !is_xpath {
        return ReplCommand::Unknown(string_from_chars(&cmd));
    }
    let ghost rest = wv.drop_first();
    if is_find {
        let mut args: Vec<String> = Vec::new();
        let mut i: usize = 1;
        while i < ws.len()
            invariant
                1 <= i <= ws@.len(),
                ws@.len() == wv.len(),
                forall|k: int| 0 <= k < ws@.len() ==> #[trigger] ws@[k]@ == wv[k],
                rest == wv.drop_first(),
                string_views(args@) == unquote_all(rest.take(i - 1)),
            decreases ws@.len() - i,
        {
            let u = unquote_chars(&ws[i]);
            let a = string_from_chars(&u);
            let ghost before = args@;
            args.push(a);
            assert(string_views(args@) =~= string_views(before).push(a@));
            i = i + 1;
            assert(unquote_all(rest.take(i - 1)) =~= unquote_all(rest.take(i - 2)).push(unquote(rest[i - 2])));
        }
        assert(rest.take(ws@.len() - 1) =~= rest);
        return ReplCommand::Find(args);
    }
    if ws.len() <= 1 {
        return ReplCommand::XPathUsage;
    }
    let mut buf: Vec<char> = Vec::new();
    push_chars(&mut buf, &ws[1]);
    assert(rest.take(1) =~= seq![rest[0]]);
    assert(join_words(rest.take(1)) == rest[0]);
    let mut i: usize = 2;
    while i < ws.len()
        invariant
            2 <= i <= ws@.len(),
            ws@.len() == wv.len(),
            forall|k: int| 0 <= k < ws@.len() ==> #[trigger] ws@[k]@ == wv[k],
            rest == wv.drop_first(),
            buf@ == join_words(rest.take(i - 1)),
        decreases ws@.len() - i,
    {
        buf.push(' ');
        push_chars(&mut buf, &ws[i]);
        proof {
            let t = rest.take(i as int);
            assert(t.drop_last() =~= rest.take(i - 1));
            assert(t.last() == wv[i as int]);
            assert(" "@ =~= seq![' ']) by {
                reveal_strlit(" ");
            }
        }
        i = i + 1;
    }
    assert(rest.take(ws@.len() - 1) =~= rest);
    ReplCommand::XPath(string_from_chars(&buf))
}

// ---------------------------------------------------------------------------
// The cache of the last dump
// ---------------------------------------------------------------------------

/// The last dump and its parsed tree, or nothing yet.
pub struct Cache {
    xml: Option<String>,
    tree: Option<UiNode>,
}

impl Cache {
    /// The cached XML text, if any.
    pub closed spec fn cached_xml(&self) -> Option<Seq<char>> {
        match self.xml {
            Some(x) => Some(x@),
            None => None,
        }
    }

    /// The cached tree, if any.
    pub closed spec fn cached_tree(&self) -> Option<ElementView> {
        match self.tree {
            Some(t) => Some(t@),
            None => None,
        }
    }

    /// A text and a tree are cached together, and the tree is the parse of
    /// the text.
    #[verifier::type_invariant]
    spec fn consistent(&self) -> bool {
        match (self.xml, self.tree) {
            (Some(x), Some(t)) => parse_tree_result(x@) == Ok::<ElementView, ErrorView>(t@),
            (None, None) => true,
            _ => false,
        }
    }

    /// An empty cache.
    pub fn new() -> (r: Cache)
        ensures
            r.cached_xml() is None,
            r.cached_tree() is None,
    {
        Cache { xml: None, tree: None }
    }

    /// Whether a dump must be fetched before the cache can be used.
    pub fn needs_refresh(&self) -> (b: bool)
        ensures
            b == (self.cached_xml() is None),
    {
        self.xml.is_none()
    }

    /// Replaces the cache with the dump `xml` and its tree; when `xml` does
    /// not parse, the cache is left as it was and the error is returned.
    pub fn refresh(&mut self, xml: String) -> (r: Result<(), InspectorError>)
        ensures
            match r {
                Ok(()) => final(self).cached_xml() == Some(xml@) && parse_tree_result(xml@)
                    == Ok::<ElementView, ErrorView>(final(self).cached_tree()->0),
                Err(e) => parse_tree_result(xml@) == Err::<ElementView, ErrorView>(e@)
                    && final(self).cached_xml() == old(self).cached_xml() && final(self).cached_tree()
                    == old(self).cached_tree(),
            },
    {
        let tree = UiNode::parse_tree(xml.as_str())?;
        *self = Cache { xml: Some(xml), tree: Some(tree) };
        Ok(())
    }

    /// The cached tree: the parse of the cached text.
    pub fn tree(&self) -> (r: &UiNode)
        requires
            self.cached_xml() is Some,
        ensures
            Some(r@) == self.cached_tree(),
            parse_tree_result(self.cached_xml()->0) == Ok::<ElementView, ErrorView>(r@),
    {
        proof {
            use_type_invariant(self);
        }
        match &self.tree {
            Some(t) => t,
            None => {
                vstd::pervasive::unreached()
            },
        }
    }

    /// The cached XML text.
    pub fn xml(&self) -> (r: &String)
        requires
            self.cached_xml() is Some,
        ensures
            Some(r@) == self.cached_xml(),
    {
        match &self.xml {
            Some(x) => x,
            None => {
                vstd::pervasive::unreached()
            },
        }
    }
}

impl Cache {
    /// Whatever was stored, the cached tree is the parse of the cached
    /// text, and one is cached exactly when the other is.
    pub fn check_consistent(&self)
        ensures
            self.cached_xml() is Some <==> self.cached_tree() is Some,
            self.cached_xml() is Some ==> parse_tree_result(self.cached_xml()->0) == Ok::<
                ElementView,
                ErrorView,
            >(self.cached_tree()->0),
    {
        proof {
            use_type_invariant(self);
        }
    }
}

} // verus!
