use vstd::prelude::*;

use crate::diff::entry::{Entry, EntryView};
use crate::diff::{
    all_identical, compare_names, diff_hashmap, insert_by_key, keyed_deltas, keys_ascending,
    lemma_all_identical_concat, lemma_all_identical_push, lemma_results_deltas_concat,
    lemma_results_deltas_push, name_lt, placed, result_delta, results_deltas, views, Delta, Diff,
    DiffResult, Item, Node,
};

verus! {

/// A named group: its child groups and its records, each list in ascending order of
/// names; nodes that share a name keep the order in which they were added.
#[derive(Debug)]
pub struct Group {
    name: String,
    child_groups: Vec<Group>,
    entries: Vec<Entry>,
}

pub struct GroupView {
    pub name: Seq<char>,
    pub groups: Seq<GroupView>,
    pub entries: Seq<EntryView>,
}

pub closed spec fn group_view(g: Group) -> GroupView
    decreases g,
{
    GroupView { name: g.name@, groups: group_views(g.child_groups@), entries: views(g.entries@) }
}

pub closed spec fn group_views(s: Seq<Group>) -> Seq<GroupView>
    decreases s,
{
    if s.len() == 0 {
        Seq::empty()
    } else {
        group_views(s.drop_last()).push(group_view(s.last()))
    }
}

impl View for Group {
    type V = GroupView;

    closed spec fn view(&self) -> GroupView {
        group_view(*self)
    }
}

proof fn lemma_group_views(s: Seq<Group>)
    ensures
        group_views(s) == views(s),
    decreases s.len(),
{
    if s.len() > 0 {
        lemma_group_views(s.drop_last());
        assert(views(s) =~= views(s.drop_last()).push(s.last()@));
    } else {
        assert(views(s) =~= Seq::<GroupView>::empty());
    }
}

/// Two groups are identical when their child groups and their records all are; else
/// the outcomes for the child groups, then those for the records, are recorded under
/// them.
pub open spec fn group_delta(a: GroupView, b: GroupView) -> Delta
    decreases a, b,
{
    let children = group_list_deltas(a.groups, b.groups) + keyed_deltas::<Entry>(
        a.entries,
        b.entries,
    );
    if all_identical(children) {
        Delta::Identical(Item::Group(a), Item::Group(b))
    } else {
        Delta::InnerDifferences(Item::Group(a), Item::Group(b), children)
    }
}

/// `keyed_deltas` over lists of child groups, each pair compared by `group_delta`.
pub open spec fn group_list_deltas(a: Seq<GroupView>, b: Seq<GroupView>) -> Seq<Delta>
    decreases a, b,
{
    if a.len() == 0 && b.len() == 0 {
        Seq::empty()
    } else if b.len() == 0 || (a.len() > 0 && name_lt(a[0].name, b[0].name)) {
        seq![Delta::OnlyLeft(Item::Group(a[0]))] + group_list_deltas(a.drop_first(), b)
    } else if a.len() == 0 || name_lt(b[0].name, a[0].name) {
        seq![Delta::OnlyRight(Item::Group(b[0]))] + group_list_deltas(a, b.drop_first())
    } else {
        seq![group_delta(a[0], b[0])] + group_list_deltas(a.drop_first(), b.drop_first())
    }
}

/// `diff_hashmap` over lists of child groups. The comparison of each pair calls back
/// into `diff_group` directly, which keeps the recursion visible to the termination
/// check.
fn diff_child_groups<'a>(a: &'a Vec<Group>, b: &'a Vec<Group>) -> (r: (bool, Vec<DiffResult<'a>>))
    ensures
        results_deltas(r.1@) == group_list_deltas(views(a@), views(b@)),
        r.0 == !all_identical(results_deltas(r.1@)),
    decreases a,
{
    let ghost va = views(a@);
    let ghost vb = views(b@);
    let mut acc: Vec<DiffResult<'a>> = Vec::new();
    let mut has_differences = false;
    let mut i: usize = 0;
    let mut j: usize = 0;
    proof {
        assert(va.subrange(0, va.len() as int) =~= va);
        assert(vb.subrange(0, vb.len() as int) =~= vb);
        assert(results_deltas(acc@) =~= Seq::<Delta>::empty());
    }
    while i < a.len() || j < b.len()
        invariant
            va == views(a@),
            vb == views(b@),
            i <= a.len(),
            j <= b.len(),
            group_list_deltas(va, vb) == results_deltas(acc@) + group_list_deltas(
                va.subrange(i as int, va.len() as int),
                vb.subrange(j as int, vb.len() as int),
            ),
            has_differences == !all_identical(results_deltas(acc@)),
        decreases a.len() + b.len() - i - j,
    {
        let ghost ra = va.subrange(i as int, va.len() as int);
        let ghost rb = vb.subrange(j as int, vb.len() as int);
        let order = if i < a.len() && j < b.len() {
            compare_names(a[i].name.as_str(), b[j].name.as_str())
        } else if i < a.len() {
            std::cmp::Ordering::Less
        } else {
            std::cmp::Ordering::Greater
        };
        let ghost old_acc = acc@;
        let ghost oi = i;
        let ghost oj = j;
        let dr: DiffResult<'a> = match order {
            std::cmp::Ordering::Less => {
                let left: &'a Group = &a[i];
                i = i + 1;
                DiffResult::OnlyLeft { left: Node::Group(left) }
            },
            std::cmp::Ordering::Greater => {
                let right: &'a Group = &b[j];
                j = j + 1;
                DiffResult::OnlyRight { right: Node::Group(right) }
            },
            std::cmp::Ordering::Equal => {
                let left: &'a Group = &a[i];
                let right: &'a Group = &b[j];
                i = i + 1;
                j = j + 1;
                left.diff_group(right)
            },
        };
        if !matches!(dr, DiffResult::Identical { .. }) {
            has_differences = true;
        }
        acc.push(dr);
        proof {
            lemma_results_deltas_push(old_acc, dr);
            lemma_all_identical_push(results_deltas(old_acc), result_delta(dr));
            if i == oi + 1 {
                assert(ra.drop_first() =~= va.subrange(i as int, va.len() as int));
            }
            if j == oj + 1 {
                assert(rb.drop_first() =~= vb.subrange(j as int, vb.len() as int));
            }
            assert(results_deltas(acc@) + group_list_deltas(
                va.subrange(i as int, va.len() as int),
                vb.subrange(j as int, vb.len() as int),
            ) =~= results_deltas(old_acc) + group_list_deltas(ra, rb));
        }
    }
    proof {
        assert(results_deltas(acc@) + Seq::<Delta>::empty() =~= results_deltas(acc@));
    }
    (has_differences, acc)
}

impl Group {
    /// The child groups and the records are each in ascending order of names.
    pub open spec fn wf(&self) -> bool {
        &&& keys_ascending::<Group>(self@.groups)
        &&& keys_ascending::<Entry>(self@.entries)
    }

    /// A group without children.
    pub fn new(name: String) -> (r: Group)
        ensures
            r@ == (GroupView { name: name@, groups: Seq::empty(), entries: Seq::empty() }),
            r.wf(),
    {
        let r = Group { name, child_groups: Vec::new(), entries: Vec::new() };
        proof {
            assert(group_views(r.child_groups@) =~= Seq::<GroupView>::empty());
            assert(views(r.entries@) =~= Seq::<EntryView>::empty());
        }
        r
    }

    /// Adds a child group after those whose names are not greater than its own.
    pub fn add_group(&mut self, g: Group)
        requires
            old(self).wf(),
        ensures
            final(self).wf(),
            final(self)@.name == old(self)@.name,
            final(self)@.entries == old(self)@.entries,
            final(self)@.groups == placed::<Group>(old(self)@.groups, g@),
    {
        proof {
            lemma_group_views(self.child_groups@);
        }
        insert_by_key(&mut self.child_groups, g);
        proof {
            lemma_group_views(self.child_groups@);
        }
    }

    /// Adds a record after those whose names are not greater than its own.
    pub fn add_entry(&mut self, e: Entry)
        requires
            old(self).wf(),
        ensures
            final(self).wf(),
            final(self)@.name == old(self)@.name,
            final(self)@.groups == old(self)@.groups,
            final(self)@.entries == placed::<Entry>(old(self)@.entries, e@),
    {
        insert_by_key(&mut self.entries, e);
    }

    fn diff_group<'a>(&'a self, other: &'a Group) -> (r: DiffResult<'a>)
        ensures
            result_delta(r) == group_delta(self@, other@),
        decreases self,
    {
        let (has_differences_groups, mut inner_differences) = diff_child_groups(
            &self.child_groups,
            &other.child_groups,
        );
        let (has_differences_entries, mut acc_entries) = diff_hashmap(&self.entries, &other.entries);
        proof {
            lemma_group_views(self.child_groups@);
            lemma_group_views(other.child_groups@);
        }
        let ghost gs = inner_differences@;
        let ghost es = acc_entries@;
        inner_differences.append(&mut acc_entries);
        proof {
            lemma_results_deltas_concat(gs, es);
            lemma_all_identical_concat(results_deltas(gs), results_deltas(es));
        }
        if has_differences_groups || has_differences_entries {
            DiffResult::InnerDifferences {
                left: Node::Group(self),
                right: Node::Group(other),
                inner_differences,
            }
        } else {
            DiffResult::Identical { left: Node::Group(self), right: Node::Group(other) }
        }
    }
}

impl Diff for Group {
    open spec fn key(v: GroupView) -> Seq<char> {
        v.name
    }

    open spec fn item(v: GroupView) -> Item {
        Item::Group(v)
    }

    open spec fn delta(left: GroupView, right: GroupView) -> Delta {
        group_delta(left, right)
    }

    fn name(&self) -> (r: &str) {
        self.name.as_str()
    }

    fn node(&self) -> (r: Node<'_>) {
        Node::Group(self)
    }

    fn diff<'a>(&'a self, other: &'a Self) -> (r: DiffResult<'a>) {
        self.diff_group(other)
    }
}

} // verus!
