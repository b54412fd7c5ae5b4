//! The XML rendering: the tree indented by two spaces per level, or the
//! selected elements wrapped in `<results>`.

use vstd::prelude::*;

use crate::attrmap::Entry;
use crate::error::InspectorError;
use crate::filter::{FilterResult, FilterResultView};
use crate::model::{ElementView, UiNode};
use crate::text::{chars_of, push_chars, push_str, string_from_chars};

verus! {

/// The escaped form of one character of an attribute value.
pub open spec fn escape_char(c: char) -> Seq<char> {
    if c == '&' {
        "&amp;"@
    } else if c == '<' {
        "&lt;"@
    } else if c == '>' {
        "&gt;"@
    } else if c == '"' {
        "&quot;"@
    } else {
        seq![c]
    }
}

/// `s` with `&`, `<`, `>` and `"` replaced by their entities.
pub open spec fn escape(s: Seq<char>) -> Seq<char>
    decreases s.len(),
{
    if s.len() == 0 {
        seq![]
    } else {
        escape_char(s[0]) + escape(s.drop_first())
    }
}

/// The attributes as written in a start tag: for each, a space, the name,
/// `="`, the escaped value and `"`.
pub open spec fn attrs_xml(a: Seq<Entry>) -> Seq<char>
    decreases a.len(),
{
    if a.len() == 0 {
        seq![]
    } else {
        attrs_xml(a.drop_last()) + " "@ + a.last().0 + "=\""@ + escape(a.last().1) + "\""@
    }
}

/// The element written at indentation `pad`: an empty-element tag when it
/// has no children, else a start tag, the children one level deeper and an
/// end tag; each tag on a line of its own.
pub open spec fn node_xml(e: ElementView, pad: Seq<char>) -> Seq<char>
    decreases e,
{
    pad + "<"@ + e.tag + attrs_xml(e.attrs) + if e.children.len() == 0 {
        "/>\n"@
    } else {
        ">\n"@ + children_xml(e.children, pad + "  "@) + pad + "</"@ + e.tag + ">\n"@
    }
}

/// The elements of `cs`, one after the other, at indentation `pad`.
pub open spec fn children_xml(cs: Seq<ElementView>, pad: Seq<char>) -> Seq<char>
    decreases cs,
{
    if cs.len() == 0 {
        seq![]
    } else {
        children_xml(cs.drop_last(), pad) + node_xml(cs.last(), pad)
    }
}

/// The XML text of a result: the tree from the left margin, or the
/// elements one level deep inside `<results>` and `</results>`.
pub open spec fn xml_text(r: FilterResultView) -> Seq<char> {
    match r {
        FilterResultView::Tree(t) => node_xml(t, seq![]),
        FilterResultView::Nodes(ns) => "<results>\n"@ + children_xml(ns, "  "@) + "</results>\n"@,
    }
}

/// Renders a result as XML text.
pub fn render(result: &FilterResult) -> (r: Result<String, InspectorError>)
    ensures
        r matches Ok(s) && s@ == xml_text(result@),
{
    let mut buf: Vec<char> = Vec::new();
    match result {
        FilterResult::Tree(root) => {
            let pad: Vec<char> = Vec::new();
            write_node(root, &pad, &mut buf);
            assert(buf@ =~= node_xml(root@, seq![]));
        },
        FilterResult::Nodes(nodes) => {
            push_str(&mut buf, "<results>\n");
            let pad = chars_of("  ");
            let ghost start = buf@;
            let ghost ns = result@->Nodes_0;
            let mut i: usize = 0;
            assert(ns.take(0) =~= Seq::<ElementView>::empty());
            while i < nodes.len()
                invariant
                    0 <= i <= nodes@.len(),
                    pad@ == "  "@,
                    ns == crate::model::node_views(nodes@),
                    buf@ == start + children_xml(ns.take(i as int), "  "@),
                decreases nodes@.len() - i,
            {
                write_node(&nodes[i], &pad, &mut buf);
                proof {
                    assert(ns.take(i + 1).drop_last() =~= ns.take(i as int));
                    assert(ns.take(i + 1).last() == nodes@[i as int]@);
                }
                i = i + 1;
            }
            assert(ns.take(nodes@.len() as int) =~= ns);
            push_str(&mut buf, "</results>\n");
            assert(buf@ =~= "<results>\n"@ + children_xml(ns, "  "@) + "</results>\n"@);
        },
    }
    Ok(string_from_chars(&buf))
}

/// Appends `node_xml(node, pad)` to `buf`.
fn write_node(node: &UiNode, pad: &Vec<char>, buf: &mut Vec<char>)
    ensures
        final(buf)@ == old(buf)@ + node_xml(node@, pad@),
    decreases node,
{
    let ghost start = buf@;
    push_chars(buf, pad);
    push_str(buf, "<");
    push_str(buf, node.tag.as_str());
    write_attrs(node, buf);
    let ghost head = pad@ + "<"@ + node@.tag + attrs_xml(node@.attrs);
    assert(buf@ =~= start + head);
    if node.children.len() == 0 {
        push_str(buf, "/>\n");
        assert(buf@ =~= start + node_xml(node@, pad@));
    } else {
        push_str(buf, ">\n");
        let mut inner = pad.clone();
        inner.push(' ');
        inner.push(' ');
        assert(inner@ =~= pad@ + "  "@) by {
            reveal_strlit("  ");
        }
        let ghost mid = buf@;
        let m = node.children.len();
        let mut i: usize = 0;
        assert(node@.children.take(0) =~= Seq::<ElementView>::empty());
        while i < m
            invariant
                m == node.children@.len(),
                0 <= i <= m,
                inner@ == pad@ + "  "@,
                buf@ == mid + children_xml(node@.children.take(i as int), inner@),
            decreases m - i,
        {
            write_node(&node.children[i], &inner, buf);
            proof {
                let cs = node@.children.take(i + 1);
                assert(cs.drop_last() =~= node@.children.take(i as int));
                assert(cs.last() == node.children@[i as int]@);
            }
            i = i + 1;
        }
        assert(node@.children.take(m as int) =~= node@.children);
        push_chars(buf, pad);
        push_str(buf, "</");
        push_str(buf, node.tag.as_str());
        push_str(buf, ">\n");
        assert(buf@ =~= start + node_xml(node@, pad@));
    }
}

/// Appends `attrs_xml` of the node's attributes to `buf`.
fn write_attrs(node: &UiNode, buf: &mut Vec<char>)
    ensures
        final(buf)@ == old(buf)@ + attrs_xml(node@.attrs),
{
    let es = node.attrs.entries();
    let ghost a = node@.attrs;
    let ghost start = buf@;
    let mut i: usize = 0;
    assert(a.take(0) =~= Seq::<Entry>::empty());
    while i < es.len()
        invariant
            0 <= i <= es@.len(),
            a == crate::attrmap::entry_views(es@),
            buf@ == start + attrs_xml(a.take(i as int)),
        decreases es@.len() - i,
    {
        push_str(buf, " ");
        push_str(buf, es[i].0.as_str());
        push_str(buf, "=\"");
        write_escaped(es[i].1.as_str(), buf);
        push_str(buf, "\"");
        proof {
            let t = a.take(i + 1);
            assert(t.drop_last() =~= a.take(i as int));
            assert(t.last() == (es@[i as int].0@, es@[i as int].1@));
        }
        i = i + 1;
        assert(buf@ =~= start + attrs_xml(a.take(i as int)));
    }
    assert(a.take(es@.len() as int) =~= a);
}

/// Escaping a concatenation escapes each part.
pub proof fn lemma_escape_concat(a: Seq<char>, b: Seq<char>)
    ensures
        escape(a + b) == escape(a) + escape(b),
    decreases a.len(),
{
    if a.len() == 0 {
        assert(a + b =~= b);
    } else {
        assert((a + b).drop_first() =~= a.drop_first() + b);
        lemma_escape_concat(a.drop_first(), b);
        assert(escape(a + b) =~= escape(a) + escape(b));
    }
}

/// Appends `escape(s)` to `buf`.
pub fn write_escaped(s: &str, buf: &mut Vec<char>)
    ensures
        final(buf)@ == old(buf)@ + escape(s@),
{
    let cs = chars_of(s);
    let ghost start = buf@;
    let mut i: usize = 0;
    assert(cs@.take(0) =~= Seq::<char>::empty());
    while i < cs.len()
        invariant
            0 <= i <= cs@.len(),
            cs@ == s@,
            buf@ == start + escape(cs@.take(i as int)),
        decreases cs@.len() - i,
    {
        let c = cs[i];
        if c == '&' {
            push_str(buf, "&amp;");
        } else if c == '<' {
            push_str(buf, "&lt;");
        } else if c == '>' {
            push_str(buf, "&gt;");
        } else if c == '"' {
            push_str(buf, "&quot;");
        } else {
            buf.push(c);
        }
        proof {
            lemma_escape_concat(cs@.take(i as int), seq![c]);
            assert(cs@.take(i + 1) =~= cs@.take(i as int) + seq![c]);
            assert(escape(seq![c]) =~= escape_char(c)) by {
                let one = seq![c];
                assert(one.drop_first() =~= Seq::<char>::empty());
                assert(escape(one.drop_first()) =~= Seq::<char>::empty());
                assert(escape(one) == escape_char(one[0]) + escape(one.drop_first()));
            }
        }
        i = i + 1;
    }
    assert(cs@.take(cs@.len() as int) =~= cs@);
}

// ---------------------------------------------------------------------------
// Laws of escaping
// ---------------------------------------------------------------------------

/// An escaped value holds no `<`, `>` or `"`, so it cannot end the
/// attribute or the tag it is written in.
pub proof fn lemma_escape_safe(s: Seq<char>)
    ensures
        forall|i: int|
            0 <= i < escape(s).len() ==> #[trigger] escape(s)[i] != '<' && escape(s)[i] != '>'
                && escape(s)[i] != '"',
    decreases s.len(),
{
    reveal_strlit("&amp;");
    reveal_strlit("&lt;");
    reveal_strlit("&gt;");
    reveal_strlit("&quot;");
    if s.len() > 0 {
        lemma_escape_safe(s.drop_first());
        let h = escape_char(s[0]);
        let t = escape(s.drop_first());
        assert forall|i: int| 0 <= i < escape(s).len() implies #[trigger] escape(s)[i] != '<'
            && escape(s)[i] != '>' && escape(s)[i] != '"' by {
            if i < h.len() {
                assert(escape(s)[i] == h[i]);
            } else {
                assert(escape(s)[i] == t[i - h.len()]);
            }
        }
    }
}

/// Escaping loses nothing: different values have different escaped forms,
/// so a reader that replaces the entities gets back the value written.
pub proof fn lemma_escape_injective(a: Seq<char>, b: Seq<char>)
    requires
        escape(a) == escape(b),
    ensures
        a == b,
    decreases a.len() + b.len(),
{
    reveal_strlit("&amp;");
    reveal_strlit("&lt;");
    reveal_strlit("&gt;");
    reveal_strlit("&quot;");
    if a.len() == 0 && b.len() == 0 {
        assert(a =~= b);
    } else if a.len() == 0 {
        assert(escape(b).len() > 0);
    } else if b.len() == 0 {
        assert(escape(a).len() > 0);
    } else {
        let ha = escape_char(a[0]);
        let hb = escape_char(b[0]);
        let e = escape(a);
        assert(e == ha + escape(a.drop_first()));
        assert(e == hb + escape(b.drop_first()));
        assert(e[0] == ha[0]);
        assert(e[0] == hb[0]);
        if ha.len() > 1 {
            assert(e[1] == ha[1]);
        }
        if hb.len() > 1 {
            assert(e[1] == hb[1]);
        }
        assert(a[0] == b[0]);
        assert(ha == hb);
        assert(escape(a.drop_first()) =~= e.skip(ha.len() as int));
        assert(escape(b.drop_first()) =~= e.skip(hb.len() as int));
        lemma_escape_injective(a.drop_first(), b.drop_first());
        assert(a =~= seq![a[0]] + a.drop_first());
        assert(b =~= seq![b[0]] + b.drop_first());
    }
}

/// Text with the entities of `escape` replaced by the characters they
/// stand for, read from the left.
pub open spec fn unescape(t: Seq<char>) -> Seq<char>
    decreases t.len(),
{
    if t.len() == 0 {
        seq![]
    } else if t.len() >= 5 && t.subrange(0, 5) == "&amp;"@ {
        seq!['&'] + unescape(t.skip(5))
    } else if t.len() >= 4 && t.subrange(0, 4) == "&lt;"@ {
        seq!['<'] + unescape(t.skip(4))
    } else if t.len() >= 4 && t.subrange(0, 4) == "&gt;"@ {
        seq!['>'] + unescape(t.skip(4))
    } else if t.len() >= 6 && t.subrange(0, 6) == "&quot;"@ {
        seq!['"'] + unescape(t.skip(6))
    } else {
        seq![t[0]] + unescape(t.drop_first())
    }
}

/// Replacing the entities of an escaped value gives the value back.
pub proof fn lemma_unescape_escape(s: Seq<char>)
    ensures
        unescape(escape(s)) == s,
    decreases s.len(),
{
    reveal_strlit("&amp;");
    reveal_strlit("&lt;");
    reveal_strlit("&gt;");
    reveal_strlit("&quot;");
    if s.len() == 0 {
        assert(escape(s) =~= Seq::<char>::empty());
    } else {
        let c = s[0];
        let h = escape_char(c);
        let rest = escape(s.drop_first());
        let t = escape(s);
        assert(t == h + rest);
        lemma_unescape_escape(s.drop_first());
        assert(t.skip(h.len() as int) =~= rest);
        assert(t.subrange(0, h.len() as int) =~= h);
        if c == '&' {
            assert(unescape(t) == seq!['&'] + unescape(t.skip(5)));
        } else if c == '<' {
            assert(t.subrange(0, 5) != "&amp;"@ || t.len() < 5) by {
                if t.len() >= 5 {
                    assert(t.subrange(0, 5)[1] == 'l');
                }
            }
            assert(unescape(t) == seq!['<'] + unescape(t.skip(4)));
        } else if c == '>' {
            assert(t.subrange(0, 5) != "&amp;"@ || t.len() < 5) by {
                if t.len() >= 5 {
                    assert(t.subrange(0, 5)[1] == 'g');
                }
            }
            assert(t.subrange(0, 4) != "&lt;"@) by {
                assert(t.subrange(0, 4)[1] == 'g');
            }
            assert(unescape(t) == seq!['>'] + unescape(t.skip(4)));
        } else if c == '"' {
            assert(t.subrange(0, 5)[1] == 'q');
            assert(t.subrange(0, 4)[1] == 'q');
            assert(unescape(t) == seq!['"'] + unescape(t.skip(6)));
        } else {
            assert(t[0] == c);
            assert(t.len() >= 5 ==> t.subrange(0, 5)[0] != '&');
            assert(t.len() >= 4 ==> t.subrange(0, 4)[0] != '&');
            assert(t.len() >= 6 ==> t.subrange(0, 6)[0] != '&');
            assert(t.drop_first() =~= rest);
            assert(unescape(t) == seq![c] + unescape(t.drop_first()));
        }
        assert(s =~= seq![c] + s.drop_first());
    }
}

/// Every `&` of an escaped value starts one of the four entities.
pub proof fn lemma_escape_ampersands(s: Seq<char>)
    ensures
        forall|i: int|
            0 <= i < escape(s).len() && #[trigger] escape(s)[i] == '&' ==> {
                ||| crate::text::occurs_at(escape(s), "&amp;"@, i)
                ||| crate::text::occurs_at(escape(s), "&lt;"@, i)
                ||| crate::text::occurs_at(escape(s), "&gt;"@, i)
                ||| crate::text::occurs_at(escape(s), "&quot;"@, i)
            },
    decreases s.len(),
{
    reveal_strlit("&amp;");
    reveal_strlit("&lt;");
    reveal_strlit("&gt;");
    reveal_strlit("&quot;");
    if s.len() > 0 {
        let c = s[0];
        let h = escape_char(c);
        let rest = escape(s.drop_first());
        let t = escape(s);
        assert(t == h + rest);
        lemma_escape_ampersands(s.drop_first());
        assert forall|i: int| 0 <= i < t.len() && #[trigger] t[i] == '&' implies {
            ||| crate::text::occurs_at(t, "&amp;"@, i)
            ||| crate::text::occurs_at(t, "&lt;"@, i)
            ||| crate::text::occurs_at(t, "&gt;"@, i)
            ||| crate::text::occurs_at(t, "&quot;"@, i)
        } by {
            if i < h.len() {
                if c == '&' || c == '<' || c == '>' || c == '"' {
                    assert(t[i] == h[i]);
                    assert(i == 0);
                    assert(t.subrange(0, h.len() as int) =~= h);
                } else {
                    assert(t[i] == c);
                }
            } else {
                let j = i - h.len();
                assert(t[i] == rest[j]);
                if crate::text::occurs_at(rest, "&amp;"@, j) {
                    assert(t.subrange(i, i + 5) =~= rest.subrange(j, j + 5));
                } else if crate::text::occurs_at(rest, "&lt;"@, j) {
                    assert(t.subrange(i, i + 4) =~= rest.subrange(j, j + 4));
                } else if crate::text::occurs_at(rest, "&gt;"@, j) {
                    assert(t.subrange(i, i + 4) =~= rest.subrange(j, j + 4));
                } else {
                    assert(t.subrange(i, i + 6) =~= rest.subrange(j, j + 6));
                }
            }
        }
    }
}

/// What `write_escaped` appends is safe markup that reads back as the
/// value: the buffer keeps what it held, the appended text holds no `<`,
/// `>` or `"`, every `&` in it starts an entity, and replacing the
/// entities gives back `s`.
pub proof fn lemma_write_escaped(b0: Seq<char>, s: Seq<char>, buf: Seq<char>)
    requires
        buf == b0 + escape(s),
    ensures
        buf.take(b0.len() as int) == b0,
        forall|i: int|
            0 <= i < buf.skip(b0.len() as int).len() ==> #[trigger] buf.skip(b0.len() as int)[i] != '<'
                && buf.skip(b0.len() as int)[i] != '>' && buf.skip(b0.len() as int)[i] != '"',
        forall|i: int|
            0 <= i < buf.skip(b0.len() as int).len() && #[trigger] buf.skip(b0.len() as int)[i] == '&' ==> {
                ||| crate::text::occurs_at(buf.skip(b0.len() as int), "&amp;"@, i)
                ||| crate::text::occurs_at(buf.skip(b0.len() as int), "&lt;"@, i)
                ||| crate::text::occurs_at(buf.skip(b0.len() as int), "&gt;"@, i)
                ||| crate::text::occurs_at(buf.skip(b0.len() as int), "&quot;"@, i)
            },
        unescape(buf.skip(b0.len() as int)) == s,
{
    assert(buf.take(b0.len() as int) =~= b0);
    assert(buf.skip(b0.len() as int) =~= escape(s));
    lemma_escape_safe(s);
    lemma_escape_ampersands(s);
    lemma_unescape_escape(s);
}

// ---------------------------------------------------------------------------
// Laws of indentation
// ---------------------------------------------------------------------------

/// No character of `s` is a line feed.
pub open spec fn no_newline(s: Seq<char>) -> bool {
    forall|i: int| 0 <= i < s.len() ==> #[trigger] s[i] != '\n'
}

/// Neither the name nor the value of the attribute holds a line feed.
pub open spec fn single_line_entry(x: Entry) -> bool {
    no_newline(x.0) && no_newline(x.1)
}

/// No tag, attribute name or attribute value in the tree `e` holds a line
/// feed.
pub open spec fn single_line_fields(e: ElementView) -> bool
    decreases e,
{
    &&& no_newline(e.tag)
    &&& forall|k: int| 0 <= k < e.attrs.len() ==> single_line_entry(#[trigger] e.attrs[k])
    &&& forall|k: int| 0 <= k < e.children.len() ==> single_line_fields(#[trigger] e.children[k])
}

/// `s` with `p` put at the start of each of its lines; `at_start` tells
/// whether `s` begins a line.
pub open spec fn indent_lines(p: Seq<char>, s: Seq<char>, at_start: bool) -> Seq<char>
    decreases s.len(),
{
    if s.len() == 0 {
        seq![]
    } else {
        (if at_start {
            p
        } else {
            seq![]
        }) + seq![s[0]] + indent_lines(p, s.drop_first(), s[0] == '\n')
    }
}

/// The text `s`, made of whole lines, with every line indented by `p`.
pub open spec fn indented(p: Seq<char>, s: Seq<char>) -> Seq<char> {
    indent_lines(p, s, true)
}

/// Whether the text after `a` begins a line, when `a` itself begins one
/// exactly if `at_start`.
pub open spec fn ends_line(a: Seq<char>, at_start: bool) -> bool {
    if a.len() == 0 {
        at_start
    } else {
        a.last() == '\n'
    }
}

proof fn lemma_indent_concat(p: Seq<char>, a: Seq<char>, b: Seq<char>, st: bool)
    ensures
        indent_lines(p, a + b, st) == indent_lines(p, a, st) + indent_lines(p, b, ends_line(a, st)),
    decreases a.len(),
{
    if a.len() == 0 {
        assert(a + b =~= b);
        assert(indent_lines(p, a, st) =~= Seq::<char>::empty());
        assert(Seq::<char>::empty() + indent_lines(p, b, st) =~= indent_lines(p, b, st));
    } else {
        let t = a.drop_first();
        lemma_indent_concat(p, t, b, a[0] == '\n');
        assert((a + b)[0] == a[0]);
        assert((a + b).drop_first() =~= t + b);
        if t.len() > 0 {
            assert(t.last() == a.last());
        }
        let pre = (if st {
            p
        } else {
            seq![]
        }) + seq![a[0]];
        assert(indent_lines(p, a + b, st) == pre + indent_lines(p, t + b, a[0] == '\n'));
        assert(indent_lines(p, a, st) == pre + indent_lines(p, t, a[0] == '\n'));
        assert(pre + (indent_lines(p, t, a[0] == '\n') + indent_lines(p, b, ends_line(a, st))) =~= (pre
            + indent_lines(p, t, a[0] == '\n')) + indent_lines(p, b, ends_line(a, st)));
    }
}

/// A line: its text without a line feed, then the line feed.
proof fn lemma_indent_line(p: Seq<char>, x: Seq<char>, st: bool)
    requires
        no_newline(x),
    ensures
        indent_lines(p, x + "\n"@, st) == (if st {
            p
        } else {
            seq![]
        }) + x + "\n"@,
    decreases x.len(),
{
    reveal_strlit("\n");
    if x.len() == 0 {
        assert(x + "\n"@ =~= seq!['\n']);
        assert(seq!['\n'].drop_first() =~= Seq::<char>::empty());
        assert(indent_lines(p, Seq::<char>::empty(), true) =~= Seq::<char>::empty());
        let pre = if st {
            p
        } else {
            seq![]
        };
        assert(pre + seq!['\n'] + Seq::<char>::empty() =~= pre + x + "\n"@);
    } else {
        let t = x.drop_first();
        assert(x[0] != '\n');
        assert(no_newline(t)) by {
            assert forall|i: int| 0 <= i < t.len() implies #[trigger] t[i] != '\n' by {
                assert(t[i] == x[i + 1]);
            }
        }
        lemma_indent_line(p, t, false);
        assert((x + "\n"@)[0] == x[0]);
        assert((x + "\n"@).drop_first() =~= t + "\n"@);
        let pre = if st {
            p
        } else {
            seq![]
        };
        assert(pre + seq![x[0]] + (Seq::<char>::empty() + t + "\n"@) =~= pre + x + "\n"@);
    }
}

proof fn lemma_no_newline_concat(a: Seq<char>, b: Seq<char>)
    requires
        no_newline(a),
        no_newline(b),
    ensures
        no_newline(a + b),
{
    assert forall|i: int| 0 <= i < (a + b).len() implies #[trigger] (a + b)[i] != '\n' by {
        if i < a.len() {
            assert((a + b)[i] == a[i]);
        } else {
            assert((a + b)[i] == b[i - a.len()]);
        }
    }
}

proof fn lemma_escape_no_newline(s: Seq<char>)
    requires
        no_newline(s),
    ensures
        no_newline(escape(s)),
    decreases s.len(),
{
    reveal_strlit("&amp;");
    reveal_strlit("&lt;");
    reveal_strlit("&gt;");
    reveal_strlit("&quot;");
    if s.len() > 0 {
        let t = s.drop_first();
        assert(no_newline(t)) by {
            assert forall|i: int| 0 <= i < t.len() implies #[trigger] t[i] != '\n' by {
                assert(t[i] == s[i + 1]);
            }
        }
        lemma_escape_no_newline(t);
        assert(s[0] != '\n');
        assert(no_newline(escape_char(s[0])));
        lemma_no_newline_concat(escape_char(s[0]), escape(t));
    }
}

proof fn lemma_attrs_no_newline(a: Seq<Entry>)
    requires
        forall|k: int| 0 <= k < a.len() ==> single_line_entry(#[trigger] a[k]),
    ensures
        no_newline(attrs_xml(a)),
    decreases a.len(),
{
    reveal_strlit(" ");
    reveal_strlit("=\"");
    reveal_strlit("\"");
    if a.len() > 0 {
        let init = a.drop_last();
        assert forall|k: int| 0 <= k < init.len() implies single_line_entry(#[trigger] init[k]) by {
            assert(init[k] == a[k]);
        }
        lemma_attrs_no_newline(init);
        assert(single_line_entry(a[a.len() - 1]));
        lemma_escape_no_newline(a.last().1);
        assert(no_newline(" "@));
        assert(no_newline("=\""@));
        assert(no_newline("\""@));
        lemma_no_newline_concat(attrs_xml(init), " "@);
        lemma_no_newline_concat(attrs_xml(init) + " "@, a.last().0);
        lemma_no_newline_concat(attrs_xml(init) + " "@ + a.last().0, "=\""@);
        lemma_no_newline_concat(attrs_xml(init) + " "@ + a.last().0 + "=\""@, escape(a.last().1));
        lemma_no_newline_concat(attrs_xml(init) + " "@ + a.last().0 + "=\""@ + escape(a.last().1), "\""@);
    }
}

proof fn lemma_node_ends_line(e: ElementView, pad: Seq<char>)
    ensures
        node_xml(e, pad).len() > 0,
        node_xml(e, pad).last() == '\n',
{
    reveal_strlit("/>\n");
    reveal_strlit(">\n");
}

proof fn lemma_children_end_line(cs: Seq<ElementView>, pad: Seq<char>)
    ensures
        ends_line(children_xml(cs, pad), true),
{
    if cs.len() > 0 {
        lemma_node_ends_line(cs.last(), pad);
        let a = children_xml(cs.drop_last(), pad);
        let b = node_xml(cs.last(), pad);
        assert((a + b).last() == b.last());
    }
}

proof fn lemma_head_single_line(e: ElementView, q: Seq<char>)
    requires
        single_line_fields(e),
        no_newline(q),
    ensures
        no_newline(q + "<"@ + e.tag + attrs_xml(e.attrs)),
{
    reveal_strlit("<");
    lemma_attrs_no_newline(e.attrs);
    assert(no_newline("<"@));
    lemma_no_newline_concat(q, "<"@);
    lemma_no_newline_concat(q + "<"@, e.tag);
    lemma_no_newline_concat(q + "<"@ + e.tag, attrs_xml(e.attrs));
}

proof fn lemma_leaf_shift(e: ElementView, p: Seq<char>, q: Seq<char>)
    requires
        single_line_fields(e),
        no_newline(q),
        e.children.len() == 0,
    ensures
        node_xml(e, p + q) == indented(p, node_xml(e, q)),
{
    reveal_strlit("/>");
    reveal_strlit("\n");
    reveal_strlit("/>\n");
    let head = q + "<"@ + e.tag + attrs_xml(e.attrs);
    lemma_head_single_line(e, q);
    assert(no_newline("/>"@));
    lemma_no_newline_concat(head, "/>"@);
    lemma_indent_line(p, head + "/>"@, true);
    assert(node_xml(e, q) =~= head + "/>"@ + "\n"@);
    assert(node_xml(e, p + q) =~= p + (head + "/>"@) + "\n"@);
}

proof fn lemma_branch_shift(e: ElementView, p: Seq<char>, q: Seq<char>)
    requires
        single_line_fields(e),
        no_newline(q),
        e.children.len() > 0,
        children_xml(e.children, p + (q + "  "@)) == indented(p, children_xml(e.children, q + "  "@)),
    ensures
        node_xml(e, p + q) == indented(p, node_xml(e, q)),
{
    reveal_strlit(">");
    reveal_strlit("</");
    reveal_strlit("\n");
    reveal_strlit(">\n");
    let head = q + "<"@ + e.tag + attrs_xml(e.attrs);
    lemma_head_single_line(e, q);
    let cs = e.children;
    let inner = q + "  "@;
    let l1 = head + ">"@;
    let m = children_xml(cs, inner);
    let l2 = q + "</"@ + e.tag + ">"@;
    assert(no_newline(l1)) by {
        assert(no_newline(">"@));
        lemma_no_newline_concat(head, ">"@);
    }
    assert(no_newline(l2)) by {
        assert(no_newline(">"@));
        assert(no_newline("</"@));
        lemma_no_newline_concat(q, "</"@);
        lemma_no_newline_concat(q + "</"@, e.tag);
        lemma_no_newline_concat(q + "</"@ + e.tag, ">"@);
    }
    assert(node_xml(e, q) =~= (l1 + "\n"@) + m + (l2 + "\n"@));
    lemma_children_end_line(cs, inner);
    assert(ends_line((l1 + "\n"@) + m, true)) by {
        if m.len() > 0 {
            assert(((l1 + "\n"@) + m).last() == m.last());
        } else {
            assert((l1 + "\n"@) + m =~= l1 + "\n"@);
        }
    }
    assert(indented(p, node_xml(e, q)) == (p + l1 + "\n"@) + indented(p, m) + (p + l2 + "\n"@)) by {
        lemma_indent_concat(p, (l1 + "\n"@) + m, l2 + "\n"@, true);
        lemma_indent_concat(p, l1 + "\n"@, m, true);
        lemma_indent_line(p, l1, true);
        lemma_indent_line(p, l2, true);
        assert(ends_line(l1 + "\n"@, true));
    }
    assert(p + q + "  "@ =~= p + inner);
    assert(node_xml(e, p + q) =~= (p + l1 + "\n"@) + children_xml(cs, p + inner) + (p + l2 + "\n"@));
}

/// Rendering an element at indentation `p + q` is rendering it at `q` and
/// indenting every line by `p`.
proof fn lemma_node_shift(e: ElementView, p: Seq<char>, q: Seq<char>)
    requires
        single_line_fields(e),
        no_newline(q),
    ensures
        node_xml(e, p + q) == indented(p, node_xml(e, q)),
    decreases e,
{
    if e.children.len() == 0 {
        lemma_leaf_shift(e, p, q);
    } else {
        reveal_strlit("  ");
        assert(no_newline("  "@));
        lemma_no_newline_concat(q, "  "@);
        assert forall|k: int| 0 <= k < e.children.len() implies single_line_fields(#[trigger] e.children[k]) by {
        }
        lemma_children_shift(e.children, p, q + "  "@);
        lemma_branch_shift(e, p, q);
    }
}

/// Rendering elements at indentation `p + q` is rendering them at `q` and
/// indenting every line by `p`.
proof fn lemma_children_shift(cs: Seq<ElementView>, p: Seq<char>, q: Seq<char>)
    requires
        forall|k: int| 0 <= k < cs.len() ==> single_line_fields(#[trigger] cs[k]),
        no_newline(q),
    ensures
        children_xml(cs, p + q) == indented(p, children_xml(cs, q)),
    decreases cs,
{
    if cs.len() == 0 {
        assert(indented(p, Seq::<char>::empty()) =~= Seq::<char>::empty());
    } else {
        let init = cs.drop_last();
        assert forall|k: int| 0 <= k < init.len() implies single_line_fields(#[trigger] init[k]) by {
            assert(init[k] == cs[k]);
        }
        lemma_children_shift(init, p, q);
        assert(single_line_fields(cs[cs.len() - 1]));
        lemma_node_shift(cs.last(), p, q);
        lemma_children_end_line(init, q);
        lemma_indent_concat(p, children_xml(init, q), node_xml(cs.last(), q), true);
    }
}

/// The XML is indented two spaces per level: rendering an element at an
/// indentation indents every line of its rendering from the margin; a
/// leaf is one empty-element line; an element with children is its start
/// line, then its children as rendered from the margin with every line
/// indented two spaces, then its end line. This holds when no tag, name
/// or value holds a line feed.
pub proof fn lemma_xml_indentation(e: ElementView, pad: Seq<char>)
    requires
        single_line_fields(e),
        no_newline(pad),
    ensures
        node_xml(e, pad) == indented(pad, node_xml(e, seq![])),
        e.children.len() == 0 ==> node_xml(e, seq![]) == "<"@ + e.tag + attrs_xml(e.attrs) + "/>\n"@,
        e.children.len() > 0 ==> node_xml(e, seq![]) == "<"@ + e.tag + attrs_xml(e.attrs) + ">\n"@ + indented(
            "  "@,
            children_xml(e.children, seq![]),
        ) + "</"@ + e.tag + ">\n"@,
{
    reveal_strlit("  ");
    assert(pad + Seq::<char>::empty() =~= pad);
    assert(no_newline(Seq::<char>::empty()));
    lemma_node_shift(e, pad, seq![]);
    if e.children.len() > 0 {
        assert forall|k: int| 0 <= k < e.children.len() implies single_line_fields(#[trigger] e.children[k]) by {
        }
        lemma_children_shift(e.children, "  "@, seq![]);
        assert("  "@ + Seq::<char>::empty() =~= "  "@);
        assert(Seq::<char>::empty() + "  "@ =~= "  "@);
        assert(node_xml(e, seq![]) =~= "<"@ + e.tag + attrs_xml(e.attrs) + ">\n"@ + children_xml(e.children, "  "@)
            + "</"@ + e.tag + ">\n"@);
    } else {
        assert(node_xml(e, seq![]) =~= "<"@ + e.tag + attrs_xml(e.attrs) + "/>\n"@);
    }
}

/// Selected elements are listed one level deep inside `<results>`: each is
/// its rendering as a whole tree with every line indented two spaces, in
/// order. This holds when no tag, name or value holds a line feed.
pub proof fn lemma_results_indented(ns: Seq<ElementView>)
    requires
        forall|k: int| 0 <= k < ns.len() ==> single_line_fields(#[trigger] ns[k]),
    ensures
        xml_text(FilterResultView::Nodes(ns)) == "<results>\n"@ + indented("  "@, children_xml(ns, seq![]))
            + "</results>\n"@,
        ns.len() == 1 ==> xml_text(FilterResultView::Nodes(ns)) == "<results>\n"@ + indented(
            "  "@,
            xml_text(FilterResultView::Tree(ns[0])),
        ) + "</results>\n"@,
{
    assert(no_newline(Seq::<char>::empty()));
    lemma_children_shift(ns, "  "@, seq![]);
    assert("  "@ + Seq::<char>::empty() =~= "  "@);
    if ns.len() == 1 {
        assert(ns.drop_last() =~= Seq::<ElementView>::empty());
        assert(children_xml(Seq::<ElementView>::empty(), seq![]) == Seq::<char>::empty());
        assert(ns.last() == ns[0]);
        assert(children_xml(ns, seq![]) == children_xml(ns.drop_last(), seq![]) + node_xml(ns.last(), seq![]));
        assert(children_xml(ns, seq![]) =~= node_xml(ns[0], seq![]));
    }
}

/// The attributes are written one after the other in the order the element
/// keeps them (increasing name order): the attributes of two runs are
/// those of the first run, then those of the second, and one attribute is
/// a space, its name, `="`, its escaped value and `"`.
pub proof fn lemma_attrs_in_order(a: Seq<Entry>, b: Seq<Entry>, x: Entry)
    ensures
        attrs_xml(a + b) == attrs_xml(a) + attrs_xml(b),
        attrs_xml(seq![x]) == " "@ + x.0 + "=\""@ + escape(x.1) + "\""@,
    decreases b.len(),
{
    let one = seq![x];
    assert(one.drop_last() =~= Seq::<Entry>::empty());
    assert(attrs_xml(Seq::<Entry>::empty()) == Seq::<char>::empty());
    assert(attrs_xml(one) =~= " "@ + x.0 + "=\""@ + escape(x.1) + "\""@);
    if b.len() == 0 {
        assert(a + b =~= a);
        assert(attrs_xml(a) + attrs_xml(b) =~= attrs_xml(a));
    } else {
        lemma_attrs_in_order(a, b.drop_last(), x);
        assert((a + b).drop_last() =~= a + b.drop_last());
        assert((a + b).last() == b.last());
        assert(attrs_xml(a + b) =~= attrs_xml(a) + attrs_xml(b));
    }
}

} // verus!
