use vstd::prelude::*;
use vstd::string::*;

use crate::diff::field::{FieldView, ValueType};
use crate::diff::{
    lemma_results_deltas_index, node_item, result_delta, results_deltas, Delta, Diff, DiffResult,
    Item, Node,
};
use crate::stack::Stack;
use crate::{join, repeat, string_views, with_separators};

verus! {

/// The colour a report line asks for: removed, added, or a changed subtree.
#[derive(Clone, Copy, Debug, PartialEq, Eq, Structural)]
pub enum LineColor {
    Removed,
    Added,
    Changed,
}

/// One line of a report, with its line break, and the colour to show it in, if any.
pub struct ReportLine {
    pub color: Option<LineColor>,
    pub text: String,
}

/// A report as the model sees it: each line's colour and text.
pub type ReportView = Seq<(Option<LineColor>, Seq<char>)>;

pub open spec fn line_views(s: Seq<ReportLine>) -> ReportView {
    s.map_values(|l: ReportLine| (l.color, l.text@))
}

/// The concatenated texts of report lines.
pub open spec fn report_text(s: ReportView) -> Seq<char>
    decreases s.len(),
{
    if s.len() == 0 {
        Seq::empty()
    } else {
        report_text(s.drop_last()) + s.last().1
    }
}

/// The printed value of a field: protected values are masked on request.
pub open spec fn shown_value(f: FieldView, mask_passwords: bool) -> Seq<char> {
    if mask_passwords && f.kind == ValueType::Protected {
        "***"@
    } else {
        f.value
    }
}

/// How a node is labelled in a report.
pub open spec fn item_label(it: Item, use_verbose: bool, mask_passwords: bool) -> Seq<char> {
    match it {
        Item::Field(f) => if use_verbose {
            "Field '"@ + f.name + "' = '"@ + shown_value(f, mask_passwords) + "'"@
        } else {
            shown_value(f, mask_passwords)
        },
        Item::Entry(e) => if use_verbose {
            "Entry '"@ + e.name + "'"@
        } else {
            e.name
        },
        Item::Group(g) => if use_verbose {
            "Group '"@ + g.name + "'"@
        } else {
            g.name
        },
    }
}

/// A line for `label` at `path`: verbose lines are indented by depth, compact lines
/// spell out the path in brackets.
pub open spec fn line_text(
    sign: Seq<char>,
    path: Seq<Seq<char>>,
    label: Seq<char>,
    use_verbose: bool,
) -> Seq<char> {
    if use_verbose {
        sign + repeat("  "@, path.len()) + label + "\n"@
    } else {
        sign + "["@ + join(path.push(label), ", "@) + "]\n"@
    }
}

pub open spec fn colored(c: LineColor, use_color: bool) -> Option<LineColor> {
    if use_color {
        Some(c)
    } else {
        None
    }
}

/// The line for node `it` at `path`, with its sign and colour.
pub open spec fn item_line(
    c: LineColor,
    sign: Seq<char>,
    path: Seq<Seq<char>>,
    it: Item,
    use_color: bool,
    use_verbose: bool,
    mask_passwords: bool,
) -> (Option<LineColor>, Seq<char>) {
    (
        colored(c, use_color),
        line_text(sign, path, item_label(it, use_verbose, mask_passwords), use_verbose),
    )
}

/// The report lines for one outcome at `path`.
pub open spec fn render_delta(
    d: Delta,
    path: Seq<Seq<char>>,
    use_color: bool,
    use_verbose: bool,
    mask_passwords: bool,
) -> ReportView
    decreases d,
{
    match d {
        Delta::Identical(_, _) => Seq::empty(),
        Delta::Changed(l, r) => seq![
            item_line(LineColor::Removed, "- "@, path, l, use_color, use_verbose, mask_passwords),
            item_line(LineColor::Added, "+ "@, path, r, use_color, use_verbose, mask_passwords),
        ],
        Delta::InnerDifferences(l, _, children) => {
            let head = if use_verbose {
                seq![item_line(LineColor::Changed, "~ "@, path, l, use_color, use_verbose, mask_passwords)]
            } else {
                Seq::empty()
            };
            let label = item_label(l, use_verbose, mask_passwords);
            head + render_all(children, path.push(label), use_color, use_verbose, mask_passwords)
        },
        Delta::OnlyLeft(l) => seq![
            item_line(LineColor::Removed, "- "@, path, l, use_color, use_verbose, mask_passwords),
        ],
        Delta::OnlyRight(r) => seq![
            item_line(LineColor::Added, "+ "@, path, r, use_color, use_verbose, mask_passwords),
        ],
    }
}

/// The report lines for a list of outcomes at `path`, one after another.
pub open spec fn render_all(
    ds: Seq<Delta>,
    path: Seq<Seq<char>>,
    use_color: bool,
    use_verbose: bool,
    mask_passwords: bool,
) -> ReportView
    decreases ds,
{
    if ds.len() == 0 {
        Seq::empty()
    } else {
        render_all(ds.drop_last(), path, use_color, use_verbose, mask_passwords) + render_delta(
            ds.last(),
            path,
            use_color,
            use_verbose,
            mask_passwords,
        )
    }
}

proof fn lemma_join_push(q: Seq<Seq<char>>, x: Seq<char>, sep: Seq<char>)
    ensures
        join(q.push(x), sep) == with_separators(q, sep) + x,
    decreases q.len(),
{
    if q.len() == 0 {
        assert(q.push(x) =~= seq![x]);
        assert(with_separators(q, sep) + x =~= x);
    } else {
        lemma_join_push(q.drop_last(), q.last(), sep);
        assert(q.drop_last().push(q.last()) =~= q);
        assert(q.push(x).drop_last() =~= q);
        if q.len() == 1 {
            assert(q.drop_last() =~= Seq::<Seq<char>>::empty());
            assert(with_separators(q, sep) + x =~= q[0] + sep + x);
        } else {
            assert(with_separators(q, sep) + x =~= with_separators(q.drop_last(), sep) + q.last()
                + sep + x);
        }
    }
}

fn label_of(n: &Node, use_verbose: bool, mask_passwords: bool) -> (r: String)
    ensures
        r@ == item_label(node_item(*n), use_verbose, mask_passwords),
{
    let mut s = String::new();
    match n {
        Node::Field(f) => {
            let value: &str = if mask_passwords && f.kind() == ValueType::Protected {
                "***"
            } else {
                f.value()
            };
            if use_verbose {
                s.append("Field '");
                s.append(f.name());
                s.append("' = '");
                s.append(value);
                s.append("'");
            } else {
                s.append(value);
            }
        },
        Node::Entry(e) => {
            if use_verbose {
                s.append("Entry '");
                s.append(e.name());
                s.append("'");
            } else {
                s.append(e.name());
            }
        },
        Node::Group(g) => {
            if use_verbose {
                s.append("Group '");
                s.append(g.name());
                s.append("'");
            } else {
                s.append(g.name());
            }
        },
    }
    assert(s@ =~= item_label(node_item(*n), use_verbose, mask_passwords));
    s
}

fn make_line(sign: &str, path: &Stack<String>, label: &str, use_verbose: bool) -> (r: String)
    ensures
        r@ == line_text(sign@, string_views(path@), label@, use_verbose),
{
    let mut s = String::from_str(sign);
    if use_verbose {
        path.write_repeated(&mut s, "  ");
        s.append(label);
        s.append("\n");
        assert(s@ =~= sign@ + repeat("  "@, path@.len()) + label@ + "\n"@);
    } else {
        s.append("[");
        path.write_separated(&mut s, ", ");
        s.append(label);
        s.append("]\n");
        proof {
            lemma_join_push(string_views(path@), label@, ", "@);
        }
        assert(s@ =~= sign@ + "["@ + join(string_views(path@).push(label@), ", "@) + "]\n"@);
    }
    s
}

fn push_line(out: &mut Vec<ReportLine>, color: Option<LineColor>, text: String)
    ensures
        line_views(final(out)@) == line_views(old(out)@).push((color, text@)),
{
    let ghost t = text@;
    out.push(ReportLine { color, text });
    assert(line_views(out@) =~= line_views(old(out)@).push((color, t)));
}

fn color_of(c: LineColor, use_color: bool) -> (r: Option<LineColor>)
    ensures
        r == colored(c, use_color),
{
    if use_color {
        Some(c)
    } else {
        None
    }
}

proof fn lemma_render_all_prefix(
    ds: Seq<Delta>,
    k: int,
    path: Seq<Seq<char>>,
    use_color: bool,
    use_verbose: bool,
    mask_passwords: bool,
)
    requires
        0 <= k < ds.len(),
    ensures
        render_all(ds.subrange(0, k + 1), path, use_color, use_verbose, mask_passwords) == render_all(
            ds.subrange(0, k),
            path,
            use_color,
            use_verbose,
            mask_passwords,
        ) + render_delta(ds[k], path, use_color, use_verbose, mask_passwords),
{
    assert(ds.subrange(0, k + 1).drop_last() =~= ds.subrange(0, k));
}

/// Appends the report lines of `r` at `path` to `out`. A container's children are
/// written at a new path that extends `path` by the container's label and shares the
/// rest with it.
fn format_into(
    r: &DiffResult,
    path: &Stack<String>,
    use_color: bool,
    use_verbose: bool,
    mask_passwords: bool,
    out: &mut Vec<ReportLine>,
)
    ensures
        line_views(final(out)@) == line_views(old(out)@) + render_delta(
            result_delta(*r),
            string_views(path@),
            use_color,
            use_verbose,
            mask_passwords,
        ),
    decreases r,
{
    let ghost base = line_views(out@);
    let ghost pv = string_views(path@);
    match r {
        DiffResult::Identical { .. } => {
            assert(line_views(out@) =~= base + Seq::empty());
        },
        DiffResult::Changed { left, right } => {
            let l = label_of(left, use_verbose, mask_passwords);
            let text = make_line("- ", path, l.as_str(), use_verbose);
            push_line(out, color_of(LineColor::Removed, use_color), text);
            let l = label_of(right, use_verbose, mask_passwords);
            let text = make_line("+ ", path, l.as_str(), use_verbose);
            push_line(out, color_of(LineColor::Added, use_color), text);
            assert(line_views(out@) =~= base + render_delta(
                result_delta(*r),
                pv,
                use_color,
                use_verbose,
                mask_passwords,
            ));
        },
        DiffResult::InnerDifferences { left, inner_differences, .. } => {
            let label = label_of(left, use_verbose, mask_passwords);
            let ghost lv = label@;
            if use_verbose {
                let text = make_line("~ ", path, label.as_str(), use_verbose);
                push_line(out, color_of(LineColor::Changed, use_color), text);
            }
            let ghost head = line_views(out@);
            let ghost ds = results_deltas(inner_differences@);
            proof {
                lemma_results_deltas_index(inner_differences@);
                assert(ds.subrange(0, 0) =~= Seq::<Delta>::empty());
                assert(head =~= head + render_all(
                    ds.subrange(0, 0),
                    pv.push(lv),
                    use_color,
                    use_verbose,
                    mask_passwords,
                ));
            }
            let inner_path = path.append(label);
            assert(string_views(inner_path@) =~= pv.push(lv));
            let mut k: usize = 0;
            while k < inner_differences.len()
                invariant
                    r is InnerDifferences,
                    r->inner_differences == *inner_differences,
                    k <= inner_differences@.len(),
                    ds == results_deltas(inner_differences@),
                    ds.len() == inner_differences@.len(),
                    forall|j: int|
                        0 <= j < inner_differences@.len() ==> #[trigger] ds[j] == result_delta(
                            inner_differences@[j],
                        ),
                    string_views(inner_path@) == pv.push(lv),
                    line_views(out@) == head + render_all(
                        ds.subrange(0, k as int),
                        pv.push(lv),
                        use_color,
                        use_verbose,
                        mask_passwords,
                    ),
                decreases inner_differences.len() - k,
            {
                proof {
                    vstd::std_specs::vec::axiom_vec_index_decreases(*inner_differences, k as int);
                    assert(decreases_to!(*r => r->inner_differences));
                }
                format_into(
                    &inner_differences[k],
                    &inner_path,
                    use_color,
                    use_verbose,
                    mask_passwords,
                    out,
                );
                proof {
                    lemma_render_all_prefix(
                        ds,
                        k as int,
                        pv.push(lv),
                        use_color,
                        use_verbose,
                        mask_passwords,
                    );
                }
                k = k + 1;
                assert(line_views(out@) =~= head + render_all(
                    ds.subrange(0, k as int),
                    pv.push(lv),
                    use_color,
                    use_verbose,
                    mask_passwords,
                ));
            }
            assert(ds.subrange(0, k as int) =~= ds);
            assert(line_views(out@) =~= base + render_delta(
                result_delta(*r),
                pv,
                use_color,
                use_verbose,
                mask_passwords,
            ));
        },
        DiffResult::OnlyLeft { left } => {
            let l = label_of(left, use_verbose, mask_passwords);
            let text = make_line("- ", path, l.as_str(), use_verbose);
            push_line(out, color_of(LineColor::Removed, use_color), text);
            assert(line_views(out@) =~= base + render_delta(
                result_delta(*r),
                pv,
                use_color,
                use_verbose,
                mask_passwords,
            ));
        },
        DiffResult::OnlyRight { right } => {
            let l = label_of(right, use_verbose, mask_passwords);
            let text = make_line("+ ", path, l.as_str(), use_verbose);
            push_line(out, color_of(LineColor::Added, use_color), text);
            assert(line_views(out@) =~= base + render_delta(
                result_delta(*r),
                pv,
                use_color,
                use_verbose,
                mask_passwords,
            ));
        },
    }
}

/// Denotes that an object can be formatted as a DiffResult
pub trait DiffResultFormat {
    /// The report lines of this object at `path`.
    spec fn format_spec(
        &self,
        path: Seq<Seq<char>>,
        use_color: bool,
        use_verbose: bool,
        mask_passwords: bool,
    ) -> ReportView;

    fn diff_result_format(
        &self,
        out: &mut Vec<ReportLine>,
        path: &Stack<String>,
        use_color: bool,
        use_verbose: bool,
        mask_passwords: bool,
    )
        ensures
            line_views(final(out)@) == line_views(old(out)@) + self.format_spec(
                string_views(path@),
                use_color,
                use_verbose,
                mask_passwords,
            ),
    ;
}

impl<'a> DiffResultFormat for DiffResult<'a> {
    open spec fn format_spec(
        &self,
        path: Seq<Seq<char>>,
        use_color: bool,
        use_verbose: bool,
        mask_passwords: bool,
    ) -> ReportView {
        render_delta(result_delta(*self), path, use_color, use_verbose, mask_passwords)
    }

    fn diff_result_format(
        &self,
        out: &mut Vec<ReportLine>,
        path: &Stack<String>,
        use_color: bool,
        use_verbose: bool,
        mask_passwords: bool,
    ) {
        format_into(self, path, use_color, use_verbose, mask_passwords, out);
    }
}

/// A diff result together with the settings of its report.
pub struct DiffDisplay<'a> {
    pub inner: DiffResult<'a>,
    pub use_color: bool,
    pub use_verbose: bool,
    pub mask_passwords: bool,
}

impl<'a> DiffDisplay<'a> {
    pub fn new(inner: DiffResult<'a>, use_color: bool, use_verbose: bool, mask_passwords: bool) -> (r:
        Self)
        ensures
            r.inner == inner,
            r.use_color == use_color,
            r.use_verbose == use_verbose,
            r.mask_passwords == mask_passwords,
    {
        DiffDisplay { inner, use_color, use_verbose, mask_passwords }
    }

    /// The report's lines, from the root with an empty path.
    pub open spec fn report(&self) -> ReportView {
        render_delta(
            result_delta(self.inner),
            Seq::empty(),
            self.use_color,
            self.use_verbose,
            self.mask_passwords,
        )
    }

    pub fn lines(&self) -> (r: Vec<ReportLine>)
        ensures
            line_views(r@) == self.report(),
    {
        let mut out: Vec<ReportLine> = Vec::new();
        let path: Stack<String> = Stack::empty();
        proof {
            assert(string_views(path@) =~= Seq::<Seq<char>>::empty());
            assert(line_views(out@) =~= Seq::<(Option<LineColor>, Seq<char>)>::empty());
        }
        self.inner.diff_result_format(
            &mut out,
            &path,
            self.use_color,
            self.use_verbose,
            self.mask_passwords,
        );
        assert(line_views(out@) =~= self.report());
        out
    }

    /// The report as one text, its lines one after another.
    pub fn to_string(&self) -> (r: String)
        ensures
            r@ == report_text(self.report()),
    {
        let lines = self.lines();
        let ghost lv = line_views(lines@);
        let mut s = String::new();
        let mut k: usize = 0;
        while k < lines.len()
            invariant
                k <= lines@.len(),
                lv == line_views(lines@),
                s@ == report_text(lv.subrange(0, k as int)),
            decreases lines.len() - k,
        {
            s.append(lines[k].text.as_str());
            proof {
                assert(lv.subrange(0, k + 1).drop_last() =~= lv.subrange(0, k as int));
            }
            k = k + 1;
        }
        assert(lv.subrange(0, k as int) =~= lv);
        s
    }
}

/// Whether two reports have as many lines, each in the same colour.
pub open spec fn same_colors(x: ReportView, y: ReportView) -> bool {
    &&& x.len() == y.len()
    &&& forall|i: int| 0 <= i < x.len() ==> #[trigger] x[i].0 == y[i].0
}

proof fn lemma_same_colors_concat(
    x1: ReportView,
    x2: ReportView,
    y1: ReportView,
    y2: ReportView,
)
    requires
        same_colors(x1, y1),
        same_colors(x2, y2),
    ensures
        same_colors(x1 + x2, y1 + y2),
{
    assert forall|i: int| 0 <= i < (x1 + x2).len() implies #[trigger] (x1 + x2)[i].0 == (y1
        + y2)[i].0 by {
        if i >= x1.len() {
            assert((x1 + x2)[i] == x2[i - x1.len()]);
            assert((y1 + y2)[i] == y2[i - y1.len()]);
        }
    }
}

proof fn lemma_masking_keeps_all(
    ds: Seq<Delta>,
    p1: Seq<Seq<char>>,
    p2: Seq<Seq<char>>,
    use_color: bool,
    use_verbose: bool,
)
    ensures
        same_colors(
            render_all(ds, p1, use_color, use_verbose, true),
            render_all(ds, p2, use_color, use_verbose, false),
        ),
    decreases ds,
{
    if ds.len() > 0 {
        lemma_masking_keeps_all(ds.drop_last(), p1, p2, use_color, use_verbose);
        lemma_masking_keeps_lines(ds.last(), p1, p2, use_color, use_verbose);
        lemma_same_colors_concat(
            render_all(ds.drop_last(), p1, use_color, use_verbose, true),
            render_delta(ds.last(), p1, use_color, use_verbose, true),
            render_all(ds.drop_last(), p2, use_color, use_verbose, false),
            render_delta(ds.last(), p2, use_color, use_verbose, false),
        );
    }
}

/// Masking protected values changes only the text of a report: the comparison itself
/// never sees the setting, and with or without masking the same lines come out, each
/// in the same colour, at any path.
pub proof fn lemma_masking_keeps_lines(
    d: Delta,
    p1: Seq<Seq<char>>,
    p2: Seq<Seq<char>>,
    use_color: bool,
    use_verbose: bool,
)
    ensures
        same_colors(
            render_delta(d, p1, use_color, use_verbose, true),
            render_delta(d, p2, use_color, use_verbose, false),
        ),
    decreases d,
{
    if let Delta::InnerDifferences(l, _, children) = d {
        let l1 = item_label(l, use_verbose, true);
        let l2 = item_label(l, use_verbose, false);
        lemma_masking_keeps_all(children, p1.push(l1), p2.push(l2), use_color, use_verbose);
        let h1: ReportView = if use_verbose {
            seq![item_line(LineColor::Changed, "~ "@, p1, l, use_color, use_verbose, true)]
        } else {
            Seq::empty()
        };
        let h2: ReportView = if use_verbose {
            seq![item_line(LineColor::Changed, "~ "@, p2, l, use_color, use_verbose, false)]
        } else {
            Seq::empty()
        };
        lemma_same_colors_concat(
            h1,
            render_all(children, p1.push(l1), use_color, use_verbose, true),
            h2,
            render_all(children, p2.push(l2), use_color, use_verbose, false),
        );
    }
}

} // verus!
