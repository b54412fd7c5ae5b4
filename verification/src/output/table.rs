//! The table rendering: one row per element with its id, class, text and
//! bounds, each cut and padded to a fixed width.

use vstd::prelude::*;

use crate::attr::{bounds_keys, bounds_names, class_keys, class_names, id_keys, id_names, str_views, text_keys, text_names};
use crate::attrmap::lookup;
use crate::error::InspectorError;
use crate::filter::{FilterResult, FilterResultView};
use crate::model::{element_count, lemma_preorder_counts_every_element, node_views, preorder, ref_views, ElementView, UiNode};
use crate::text::{fit, pad_right, push_fit, push_pad_right, push_repeat, push_str, repeat_char, string_from_chars};

verus! {

/// The value of the first of `names` that the element has with a value
/// that is not empty, or the empty text.
pub open spec fn pick(e: ElementView, names: Seq<Seq<char>>) -> Seq<char>
    decreases names.len(),
{
    if names.len() == 0 {
        seq![]
    } else {
        match lookup(e.attrs, names[0]) {
            Some(v) => if v.len() > 0 {
                v
            } else {
                pick(e, names.drop_first())
            },
            None => pick(e, names.drop_first()),
        }
    }
}

/// The header line.
pub open spec fn header_line() -> Seq<char> {
    pad_right("id/name"@, 45) + " "@ + pad_right("class/type"@, 30) + " "@ + pad_right(
        "text/label"@,
        35,
    ) + " "@ + pad_right("bounds"@, 25) + "\n"@
}

/// The rule under the header: 140 dashes.
pub open spec fn rule_line() -> Seq<char> {
    repeat_char('-', 140) + "\n"@
}

/// The row of an element.
pub open spec fn row(e: ElementView) -> Seq<char> {
    fit(pick(e, id_names()), 45) + " "@ + fit(pick(e, class_names()), 30) + " "@ + fit(
        pick(e, text_names()),
        35,
    ) + " "@ + fit(pick(e, bounds_names()), 25) + "\n"@
}

/// The rows of the elements, in order.
pub open spec fn rows(ns: Seq<ElementView>) -> Seq<char>
    decreases ns.len(),
{
    if ns.len() == 0 {
        seq![]
    } else {
        rows(ns.drop_last()) + row(ns.last())
    }
}

/// The elements a result lists: all elements of the tree in document
/// order, or the selected elements.
pub open spec fn listed(r: FilterResultView) -> Seq<ElementView> {
    match r {
        FilterResultView::Tree(t) => preorder(t),
        FilterResultView::Nodes(ns) => ns,
    }
}

/// The table text of a result.
pub open spec fn table_text(r: FilterResultView) -> Seq<char> {
    header_line() + rule_line() + rows(listed(r))
}

/// The value of the first of `names` that the node has with a value that
/// is not empty, or `""`.
fn pick_value<'a>(node: &'a UiNode, names: &Vec<&str>) -> (r: &'a str)
    ensures
        r@ == pick(node@, str_views(names@)),
{
    let ghost ns = str_views(names@);
    let mut i: usize = 0;
    assert(ns.skip(0) =~= ns);
    while i < names.len()
        invariant
            0 <= i <= names@.len(),
            ns == str_views(names@),
            pick(node@, ns) == pick(node@, ns.skip(i as int)),
        decreases names@.len() - i,
    {
        proof {
            assert(ns.skip(i as int)[0] == ns[i as int]);
            assert(ns.skip(i as int).drop_first() =~= ns.skip(i + 1));
            assert(ns[i as int] == names@[i as int]@);
        }
        match node.attrs.get(names[i]) {
            Some(v) => {
                if !v.as_str().is_empty() {
                    return v.as_str();
                }
            },
            None => {},
        }
        i = i + 1;
    }
    assert(ns.skip(i as int).len() == 0);
    let r = "";
    proof {
        reveal_strlit("");
        assert(r@ =~= Seq::<char>::empty());
    }
    r
}

/// Appends the row of `n` to `buf`.
fn write_row(n: &UiNode, buf: &mut Vec<char>)
    ensures
        final(buf)@ == old(buf)@ + row(n@),
{
    let ghost start = buf@;
    push_fit(buf, pick_value(n, &id_keys()), 45);
    push_str(buf, " ");
    push_fit(buf, pick_value(n, &class_keys()), 30);
    push_str(buf, " ");
    push_fit(buf, pick_value(n, &text_keys()), 35);
    push_str(buf, " ");
    push_fit(buf, pick_value(n, &bounds_keys()), 25);
    push_str(buf, "\n");
    assert(buf@ =~= start + row(n@));
}

/// Renders a result as a table: a header, a rule, and a row per listed
/// element.
pub fn render(result: &FilterResult) -> (r: Result<String, InspectorError>)
    ensures
        r matches Ok(s) && s@ == table_text(result@),
{
    let nodes: Vec<&UiNode> = match result {
        FilterResult::Tree(root) => root.iter_descendants(),
        FilterResult::Nodes(ns) => {
            let mut v: Vec<&UiNode> = Vec::new();
            let mut i: usize = 0;
            while i < ns.len()
                invariant
                    0 <= i <= ns@.len(),
                    ref_views(v@) == node_views(ns@).take(i as int),
                decreases ns@.len() - i,
            {
                let ghost before = v@;
                v.push(&ns[i]);
                assert(ref_views(v@) =~= ref_views(before).push(ns@[i as int]@));
                i = i + 1;
                assert(ref_views(v@) =~= node_views(ns@).take(i as int));
            }
            assert(node_views(ns@).take(ns@.len() as int) =~= node_views(ns@));
            v
        },
    };
    let ghost all = listed(result@);
    assert(ref_views(nodes@) == all);
    let mut buf: Vec<char> = Vec::new();
    push_pad_right(&mut buf, "id/name", 45);
    push_str(&mut buf, " ");
    push_pad_right(&mut buf, "class/type", 30);
    push_str(&mut buf, " ");
    push_pad_right(&mut buf, "text/label", 35);
    push_str(&mut buf, " ");
    push_pad_right(&mut buf, "bounds", 25);
    push_str(&mut buf, "\n");
    push_repeat(&mut buf, '-', 140);
    push_str(&mut buf, "\n");
    let ghost head = buf@;
    assert(head =~= header_line() + rule_line());
    let mut i: usize = 0;
    assert(all.take(0) =~= Seq::<ElementView>::empty());
    while i < nodes.len()
        invariant
            0 <= i <= nodes@.len(),
            all == ref_views(nodes@),
            buf@ == head + rows(all.take(i as int)),
        decreases nodes@.len() - i,
    {
        write_row(nodes[i], &mut buf);
        proof {
            assert(all.take(i + 1).drop_last() =~= all.take(i as int));
            assert(all.take(i + 1).last() == nodes@[i as int]@);
        }
        i = i + 1;
    }
    assert(all.take(nodes@.len() as int) =~= all);
    Ok(string_from_chars(&buf))
}

/// Every row has the width of the header line: each column is cut or
/// padded to its width, so the columns line up under their titles.
pub proof fn lemma_row_width(e: ElementView)
    ensures
        row(e).len() == 139,
        header_line().len() == 139,
{
    reveal_strlit(" ");
    reveal_strlit("\n");
    reveal_strlit("id/name");
    reveal_strlit("class/type");
    reveal_strlit("text/label");
    reveal_strlit("bounds");
    lemma_fit_len(pick(e, id_names()), 45);
    lemma_fit_len(pick(e, class_names()), 30);
    lemma_fit_len(pick(e, text_names()), 35);
    lemma_fit_len(pick(e, bounds_names()), 25);
}

/// No character of `s` ends a line.
pub open spec fn no_line_breaks(s: Seq<char>) -> bool {
    forall|i: int| 0 <= i < s.len() ==> #[trigger] s[i] != '\n' && s[i] != '\r'
}

/// No attribute value of `e` holds a line break.
pub open spec fn values_without_breaks(e: ElementView) -> bool {
    forall|i: int| 0 <= i < e.attrs.len() ==> no_line_breaks(#[trigger] e.attrs[i].1)
}

/// `l` is a line of `width` characters without breaks, ended by `\n`.
pub open spec fn is_line(l: Seq<char>, width: nat) -> bool {
    &&& l.len() == width + 1
    &&& l[width as int] == '\n'
    &&& no_line_breaks(l.take(width as int))
}

proof fn lemma_no_breaks_concat(a: Seq<char>, b: Seq<char>)
    requires
        no_line_breaks(a),
        no_line_breaks(b),
    ensures
        no_line_breaks(a + b),
{
    assert forall|i: int| 0 <= i < (a + b).len() implies #[trigger] (a + b)[i] != '\n' && (a + b)[i] != '\r' by {
        if i < a.len() {
            assert((a + b)[i] == a[i]);
        } else {
            assert((a + b)[i] == b[i - a.len()]);
        }
    }
}

proof fn lemma_lookup_is_a_value(s: Seq<crate::attrmap::Entry>, k: Seq<char>)
    ensures
        lookup(s, k) matches Some(v) ==> exists|i: int| 0 <= i < s.len() && #[trigger] s[i].1 == v,
    decreases s.len(),
{
    if s.len() > 0 && s[0].0 != k {
        lemma_lookup_is_a_value(s.drop_first(), k);
        if lookup(s, k) is Some {
            let i = choose|i: int| 0 <= i < s.drop_first().len() && #[trigger] s.drop_first()[i].1 == lookup(s, k)->0;
            assert(s[i + 1] == s.drop_first()[i]);
        }
    }
}

proof fn lemma_pick_no_breaks(e: ElementView, names: Seq<Seq<char>>)
    requires
        values_without_breaks(e),
    ensures
        no_line_breaks(pick(e, names)),
    decreases names.len(),
{
    if names.len() > 0 {
        lemma_pick_no_breaks(e, names.drop_first());
        lemma_lookup_is_a_value(e.attrs, names[0]);
        if lookup(e.attrs, names[0]) is Some {
            let v = lookup(e.attrs, names[0])->0;
            let i = choose|i: int| 0 <= i < e.attrs.len() && #[trigger] e.attrs[i].1 == v;
            assert(no_line_breaks(e.attrs[i].1));
        }
    }
}

proof fn lemma_fit_no_breaks(s: Seq<char>, width: nat)
    requires
        no_line_breaks(s),
    ensures
        no_line_breaks(fit(s, width)),
{
    if s.len() < width {
        let pad = repeat_char(' ', (width - s.len()) as nat);
        assert(no_line_breaks(pad));
        lemma_no_breaks_concat(s, pad);
    } else {
        assert forall|i: int| 0 <= i < fit(s, width).len() implies #[trigger] fit(s, width)[i] != '\n'
            && fit(s, width)[i] != '\r' by {
            assert(fit(s, width)[i] == s[i]);
        }
    }
}

/// A row is a line of 138 characters when no attribute value of its element
/// holds a line break.
pub proof fn lemma_row_is_line(e: ElementView)
    requires
        values_without_breaks(e),
    ensures
        is_line(row(e), 138),
{
    reveal_strlit(" ");
    reveal_strlit("\n");
    let a = fit(pick(e, id_names()), 45);
    let b = fit(pick(e, class_names()), 30);
    let c = fit(pick(e, text_names()), 35);
    let d = fit(pick(e, bounds_names()), 25);
    lemma_pick_no_breaks(e, id_names());
    lemma_pick_no_breaks(e, class_names());
    lemma_pick_no_breaks(e, text_names());
    lemma_pick_no_breaks(e, bounds_names());
    lemma_fit_no_breaks(pick(e, id_names()), 45);
    lemma_fit_no_breaks(pick(e, class_names()), 30);
    lemma_fit_no_breaks(pick(e, text_names()), 35);
    lemma_fit_no_breaks(pick(e, bounds_names()), 25);
    lemma_row_width(e);
    let sp = " "@;
    assert(no_line_breaks(sp));
    lemma_no_breaks_concat(a, sp);
    lemma_no_breaks_concat(a + sp, b);
    lemma_no_breaks_concat(a + sp + b, sp);
    lemma_no_breaks_concat(a + sp + b + sp, c);
    lemma_no_breaks_concat(a + sp + b + sp + c, sp);
    lemma_no_breaks_concat(a + sp + b + sp + c + sp, d);
    assert(row(e) == a + sp + b + sp + c + sp + d + "\n"@);
    assert(row(e).take(138) =~= a + sp + b + sp + c + sp + d);
}

/// The rows follow one another, 139 characters each.
proof fn lemma_rows_split(ns: Seq<ElementView>)
    ensures
        rows(ns).len() == 139 * ns.len(),
        forall|k: int| 0 <= k < ns.len() ==> #[trigger] rows(ns).subrange(139 * k, 139 * k + 139) == row(ns[k]),
    decreases ns.len(),
{
    if ns.len() > 0 {
        let init = ns.drop_last();
        lemma_rows_split(init);
        lemma_row_width(ns.last());
        let n = ns.len() as int;
        assert(139 * (n - 1) + 139 == 139 * n) by (nonlinear_arith);
        assert forall|k: int| 0 <= k < ns.len() implies #[trigger] rows(ns).subrange(139 * k, 139 * k + 139) == row(ns[k]) by {
            if k < n - 1 {
                assert(139 * k + 139 <= 139 * (n - 1)) by (nonlinear_arith)
                    requires k < n - 1;
                assert(rows(ns).subrange(139 * k, 139 * k + 139) =~= rows(init).subrange(139 * k, 139 * k + 139));
                assert(ns[k] == init[k]);
            } else {
                assert(rows(ns).subrange(139 * k, 139 * k + 139) =~= row(ns.last()));
            }
        }
    }
}

/// The table is a header line, a rule of 140 dashes, and one line per listed
/// element; the header and every row are 138 characters wide when no
/// attribute value holds a line break.
pub proof fn lemma_table_shape(r: FilterResultView)
    requires
        forall|k: int| 0 <= k < listed(r).len() ==> values_without_breaks(#[trigger] listed(r)[k]),
    ensures
        table_text(r).len() == 280 + 139 * listed(r).len(),
        is_line(table_text(r).subrange(0, 139), 138),
        table_text(r).subrange(139, 280) == repeat_char('-', 140).push('\n'),
        forall|k: int|
            0 <= k < listed(r).len() ==> is_line(
                #[trigger] table_text(r).subrange(280 + 139 * k, 280 + 139 * k + 139),
                138,
            ),
{
    reveal_strlit(" ");
    reveal_strlit("\n");
    reveal_strlit("id/name");
    reveal_strlit("class/type");
    reveal_strlit("text/label");
    reveal_strlit("bounds");
    let ns = listed(r);
    let t = table_text(r);
    let h = header_line();
    lemma_rows_split(ns);
    lemma_row_width(ns.first());
    assert(h.len() == 139);
    assert(rule_line() =~= repeat_char('-', 140).push('\n'));
    assert(t.subrange(0, 139) =~= h);
    assert(h[138] == '\n');
    assert(no_line_breaks(h.take(138))) by {
        assert forall|i: int| 0 <= i < h.take(138).len() implies #[trigger] h.take(138)[i] != '\n'
            && h.take(138)[i] != '\r' by {
            assert(h.take(138)[i] == h[i]);
        }
    }
    assert(t.subrange(139, 280) =~= rule_line());
    assert forall|k: int| 0 <= k < ns.len() implies is_line(
        #[trigger] t.subrange(280 + 139 * k, 280 + 139 * k + 139),
        138,
    ) by {
        assert(139 * k + 139 <= 139 * ns.len()) by (nonlinear_arith)
            requires k < ns.len();
        assert(0 <= 139 * k) by (nonlinear_arith)
            requires 0 <= k;
        assert(t.subrange(280 + 139 * k, 280 + 139 * k + 139) =~= rows(ns).subrange(139 * k, 139 * k + 139));
        lemma_row_is_line(ns[k]);
    }
}

/// `fit` gives exactly the width asked for.
pub proof fn lemma_fit_len(s: Seq<char>, width: nat)
    ensures
        fit(s, width).len() == width,
{
}

/// The table of a whole tree has a row for every element of the tree, in
/// document order: it is the table of the tree's elements listed one by
/// one, and it has as many rows as the tree has elements.
pub proof fn lemma_tree_table_rows(t: ElementView)
    ensures
        table_text(FilterResultView::Tree(t)) == table_text(FilterResultView::Nodes(preorder(t))),
        table_text(FilterResultView::Tree(t)).len() == 280 + 139 * element_count(t),
{
    reveal_strlit(" ");
    reveal_strlit("\n");
    reveal_strlit("id/name");
    reveal_strlit("class/type");
    reveal_strlit("text/label");
    reveal_strlit("bounds");
    lemma_rows_split(listed(FilterResultView::Tree(t)));
    lemma_row_width(t);
    lemma_preorder_counts_every_element(t);
}

/// The value of attribute `a` when the element has it and it is not empty,
/// else that of `b` under the same condition, else the empty text.
pub open spec fn first_filled(e: ElementView, a: Seq<char>, b: Seq<char>) -> Seq<char> {
    let va = lookup(e.attrs, a);
    let vb = lookup(e.attrs, b);
    if va is Some && va->0.len() > 0 {
        va->0
    } else if vb is Some && vb->0.len() > 0 {
        vb->0
    } else {
        seq![]
    }
}

proof fn lemma_pick_two(e: ElementView, a: Seq<char>, b: Seq<char>)
    ensures
        pick(e, seq![a, b]) == first_filled(e, a, b),
{
    let ns = seq![a, b];
    assert(ns.drop_first() =~= seq![b]);
    assert(seq![b].drop_first() =~= Seq::<Seq<char>>::empty());
    assert(pick(e, Seq::<Seq<char>>::empty()) == Seq::<char>::empty());
    let vb = lookup(e.attrs, b);
    assert(pick(e, seq![b]) == if vb is Some && vb->0.len() > 0 { vb->0 } else { seq![] });
}

/// The columns of a row: the id column shows `resource-id` (Android) when
/// it is set and not empty, else `name` (iOS); the class column `class`,
/// else `type`; the text column `text`, else `label`; the bounds column
/// `bounds`; a column with none of these is blank.
pub proof fn lemma_row_columns(e: ElementView)
    ensures
        row(e) == fit(first_filled(e, "resource-id"@, "name"@), 45) + " "@ + fit(
            first_filled(e, "class"@, "type"@),
            30,
        ) + " "@ + fit(first_filled(e, "text"@, "label"@), 35) + " "@ + fit(
            match lookup(e.attrs, "bounds"@) {
                Some(v) => v,
                None => seq![],
            },
            25,
        ) + "\n"@,
{
    lemma_pick_two(e, "resource-id"@, "name"@);
    lemma_pick_two(e, "class"@, "type"@);
    lemma_pick_two(e, "text"@, "label"@);
    let bs = seq!["bounds"@];
    assert(bs.drop_first() =~= Seq::<Seq<char>>::empty());
    assert(pick(e, Seq::<Seq<char>>::empty()) == Seq::<char>::empty());
    if let Some(v) = lookup(e.attrs, "bounds"@) {
        if v.len() == 0 {
            assert(v =~= Seq::<char>::empty());
        }
    }
}

} // verus!
