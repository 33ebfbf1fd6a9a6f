use std::cmp::Ordering;
use vstd::prelude::*;
use vstd::string::*;

pub mod algebra;
pub mod display;
pub mod entry;
pub mod field;
pub mod group;

pub use display::{DiffDisplay, DiffResultFormat, LineColor, ReportLine};
pub use group::Group;

use crate::diff::entry::{Entry, EntryView};
use crate::diff::field::{Field, FieldView};
use crate::diff::group::GroupView;

verus! {

/// A node of a compared document, as the model sees it.
pub enum Item {
    Field(FieldView),
    Entry(EntryView),
    Group(GroupView),
}

/// The outcome of comparing two nodes, as the model sees it.
pub enum Delta {
    Identical(Item, Item),
    Changed(Item, Item),
    InnerDifferences(Item, Item, Seq<Delta>),
    OnlyLeft(Item),
    OnlyRight(Item),
}

/// A reference to a compared node of one of the three kinds.
#[derive(Debug)]
pub enum Node<'a> {
    Field(&'a Field),
    Entry(&'a Entry),
    Group(&'a Group),
}

/// The node behind a reference, as the model sees it.
pub open spec fn node_item(n: Node) -> Item {
    match n {
        Node::Field(f) => Item::Field(f@),
        Node::Entry(e) => Item::Entry(e@),
        Node::Group(g) => Item::Group(g@),
    }
}

/// The possible outcomes of diffing two objects against another
#[derive(Debug)]
pub enum DiffResult<'a> {
    /// The objects are identical, including any children
    Identical { left: Node<'a>, right: Node<'a> },
    /// The objects have changed value
    Changed { left: Node<'a>, right: Node<'a> },
    /// There is a difference in a child object
    InnerDifferences { left: Node<'a>, right: Node<'a>, inner_differences: Vec<DiffResult<'a>> },
    /// Only the left object exists
    OnlyLeft { left: Node<'a> },
    /// Only the right object exists
    OnlyRight { right: Node<'a> },
}

/// What a diff result records, as the model sees it.
pub open spec fn result_delta(r: DiffResult) -> Delta
    decreases r,
{
    match r {
        DiffResult::Identical { left, right } => Delta::Identical(node_item(left), node_item(right)),
        DiffResult::Changed { left, right } => Delta::Changed(node_item(left), node_item(right)),
        DiffResult::InnerDifferences { left, right, inner_differences } => Delta::InnerDifferences(
            node_item(left),
            node_item(right),
            results_deltas(inner_differences@),
        ),
        DiffResult::OnlyLeft { left } => Delta::OnlyLeft(node_item(left)),
        DiffResult::OnlyRight { right } => Delta::OnlyRight(node_item(right)),
    }
}

/// `result_delta` of each result, in order.
pub open spec fn results_deltas(s: Seq<DiffResult>) -> Seq<Delta>
    decreases s,
{
    if s.len() == 0 {
        Seq::empty()
    } else {
        results_deltas(s.drop_last()).push(result_delta(s.last()))
    }
}


/// Strict lexicographic order of names, by the code points of their characters.
pub open spec fn name_lt(a: Seq<char>, b: Seq<char>) -> bool
    decreases a.len(),
{
    if a.len() == 0 {
        b.len() > 0
    } else if b.len() == 0 {
        false
    } else if a[0] != b[0] {
        (a[0] as int) < (b[0] as int)
    } else {
        name_lt(a.drop_first(), b.drop_first())
    }
}

proof fn lemma_name_lt_common_prefix(a: Seq<char>, b: Seq<char>, i: int)
    requires
        0 <= i <= a.len(),
        i <= b.len(),
        a.subrange(0, i) == b.subrange(0, i),
    ensures
        name_lt(a, b) == name_lt(a.subrange(i, a.len() as int), b.subrange(i, b.len() as int)),
        name_lt(b, a) == name_lt(b.subrange(i, b.len() as int), a.subrange(i, a.len() as int)),
    decreases i,
{
    if i > 0 {
        assert(a[0] == a.subrange(0, i)[0]);
        assert(b[0] == b.subrange(0, i)[0]);
        assert(a.drop_first().subrange(0, i - 1) =~= a.subrange(0, i).drop_first());
        assert(b.drop_first().subrange(0, i - 1) =~= b.subrange(0, i).drop_first());
        lemma_name_lt_common_prefix(a.drop_first(), b.drop_first(), i - 1);
        assert(a.drop_first().subrange(i - 1, a.len() - 1) =~= a.subrange(i, a.len() as int));
        assert(b.drop_first().subrange(i - 1, b.len() - 1) =~= b.subrange(i, b.len() as int));
    } else {
        assert(a.subrange(0, a.len() as int) =~= a);
        assert(b.subrange(0, b.len() as int) =~= b);
    }
}

pub proof fn lemma_name_lt_transitive(a: Seq<char>, b: Seq<char>, c: Seq<char>)
    requires
        name_lt(a, b),
        name_lt(b, c),
    ensures
        name_lt(a, c),
    decreases a.len(),
{
    if a.len() > 0 && a[0] == b[0] && b[0] == c[0] {
        lemma_name_lt_transitive(a.drop_first(), b.drop_first(), c.drop_first());
    }
}

pub proof fn lemma_name_lt_irreflexive(a: Seq<char>)
    ensures
        !name_lt(a, a),
    decreases a.len(),
{
    if a.len() > 0 {
        lemma_name_lt_irreflexive(a.drop_first());
    }
}

pub proof fn lemma_name_lt_asymmetric(a: Seq<char>, b: Seq<char>)
    ensures
        !(name_lt(a, b) && name_lt(b, a)),
    decreases a.len(),
{
    if a.len() > 0 && b.len() > 0 && a[0] == b[0] {
        lemma_name_lt_asymmetric(a.drop_first(), b.drop_first());
    }
}

pub proof fn lemma_name_lt_total(a: Seq<char>, b: Seq<char>)
    ensures
        a == b || name_lt(a, b) || name_lt(b, a),
    decreases a.len(),
{
    if a.len() > 0 && b.len() > 0 && a[0] == b[0] {
        lemma_name_lt_total(a.drop_first(), b.drop_first());
        if a.drop_first() == b.drop_first() {
            assert(a =~= seq![a[0]] + a.drop_first());
            assert(b =~= seq![b[0]] + b.drop_first());
        }
    } else if a.len() > 0 && b.len() > 0 {
        assert((a[0] as int) != (b[0] as int));
    } else if a.len() == 0 && b.len() == 0 {
        assert(a =~= b);
    }
}

/// Compares two names in the order of `name_lt`.
pub fn compare_names(a: &str, b: &str) -> (r: Ordering)
    ensures
        (r == Ordering::Less) == name_lt(a@, b@),
        (r == Ordering::Greater) == name_lt(b@, a@),
        (r == Ordering::Equal) == (a@ == b@),
{
    let la: usize = a.unicode_len();
    let lb: usize = b.unicode_len();
    let mut i: usize = 0;
    while i < la && i < lb
        invariant
            la == a@.len(),
            lb == b@.len(),
            i <= la,
            i <= lb,
            a@.subrange(0, i as int) == b@.subrange(0, i as int),
        decreases la - i,
    {
        let ca = a.get_char(i);
        let cb = b.get_char(i);
        if ca != cb {
            proof {
                lemma_name_lt_common_prefix(a@, b@, i as int);
                let ra = a@.subrange(i as int, la as int);
                let rb = b@.subrange(i as int, lb as int);
                assert(ra[0] == ca && rb[0] == cb);
                assert(a@ != b@) by {
                    if a@ == b@ {
                        assert(a@[i as int] == b@[i as int]);
                    }
                }
            }
            if (ca as u32) < (cb as u32) {
                return Ordering::Less;
            } else {
                return Ordering::Greater;
            }
        }
        proof {
            assert(a@.subrange(0, i + 1) =~= a@.subrange(0, i as int).push(ca));
            assert(b@.subrange(0, i + 1) =~= b@.subrange(0, i as int).push(cb));
        }
        i = i + 1;
    }
    proof {
        lemma_name_lt_common_prefix(a@, b@, i as int);
        let ra = a@.subrange(i as int, la as int);
        let rb = b@.subrange(i as int, lb as int);
        if la == lb {
            assert(a@ =~= a@.subrange(0, i as int));
            assert(b@ =~= b@.subrange(0, i as int));
        } else {
            assert(a@.len() != b@.len());
        }
        assert(ra.len() == 0 || rb.len() == 0);
    }
    if la < lb {
        Ordering::Less
    } else if lb < la {
        Ordering::Greater
    } else {
        Ordering::Equal
    }
}

/// The views of the elements of `s`, in order.
pub open spec fn views<A: View>(s: Seq<A>) -> Seq<A::V> {
    s.map_values(|x: A| x@)
}

/// Whether no outcome in `s` records a difference.
pub open spec fn all_identical(s: Seq<Delta>) -> bool {
    forall|i: int| 0 <= i < s.len() ==> s[i] is Identical
}

/// Denotes that an object can be diffed
pub trait Diff: Sized + View {
    /// The name under which a parent files this node.
    spec fn key(v: Self::V) -> Seq<char>;

    /// This node as the model sees it.
    spec fn item(v: Self::V) -> Item;

    /// The outcome of comparing two nodes of this kind.
    spec fn delta(left: Self::V, right: Self::V) -> Delta;

    fn name(&self) -> (r: &str)
        ensures
            r@ == Self::key(self@),
    ;

    fn node(&self) -> (r: Node<'_>)
        ensures
            node_item(r) == Self::item(self@),
    ;

    fn diff<'a>(&'a self, other: &'a Self) -> (r: DiffResult<'a>)
        ensures
            result_delta(r) == Self::delta(self@, other@),
    ;
}

/// The keyed comparison of two lists of nodes ordered by key: the keys are walked in
/// ascending order; a node whose key the other side lacks is reported alone, and the
/// nodes under a key both sides have are paired by their position under that key.
pub open spec fn keyed_deltas<A: Diff>(a: Seq<A::V>, b: Seq<A::V>) -> Seq<Delta>
    decreases a.len() + b.len(),
{
    if a.len() == 0 && b.len() == 0 {
        Seq::empty()
    } else if b.len() == 0 || (a.len() > 0 && name_lt(A::key(a[0]), A::key(b[0]))) {
        seq![Delta::OnlyLeft(A::item(a[0]))] + keyed_deltas::<A>(a.drop_first(), b)
    } else if a.len() == 0 || name_lt(A::key(b[0]), A::key(a[0])) {
        seq![Delta::OnlyRight(A::item(b[0]))] + keyed_deltas::<A>(a, b.drop_first())
    } else {
        seq![A::delta(a[0], b[0])] + keyed_deltas::<A>(a.drop_first(), b.drop_first())
    }
}

proof fn lemma_results_deltas_push(s: Seq<DiffResult>, r: DiffResult)
    ensures
        results_deltas(s.push(r)) == results_deltas(s).push(result_delta(r)),
{
    assert(s.push(r).drop_last() =~= s);
}

proof fn lemma_all_identical_push(s: Seq<Delta>, d: Delta)
    ensures
        all_identical(s.push(d)) == (all_identical(s) && d is Identical),
{
    if all_identical(s.push(d)) {
        assert forall|i: int| 0 <= i < s.len() implies s[i] is Identical by {
            assert(s.push(d)[i] == s[i]);
        }
        assert(s.push(d)[s.len() as int] == d);
    }
}

/// Compares two lists of nodes ordered by key (names may repeat; nodes under one name
/// keep their order) and returns whether any difference was found, with the outcome of
/// each step of `keyed_deltas`.
pub fn diff_hashmap<'a, A: Diff>(a: &'a Vec<A>, b: &'a Vec<A>) -> (r: (bool, Vec<DiffResult<'a>>))
    ensures
        results_deltas(r.1@) == keyed_deltas::<A>(views(a@), views(b@)),
        r.0 == !all_identical(results_deltas(r.1@)),
{
    let ghost va = views(a@);
    let ghost vb = views(b@);
    let mut acc: Vec<DiffResult<'a>> = Vec::new();
    let mut has_differences = false;
    let mut i: usize = 0;
    let mut j: usize = 0;
    proof {
        assert(va.subrange(0, va.len() as int) =~= va);
        assert(vb.subrange(0, vb.len() as int) =~= vb);
        assert(results_deltas(acc@) =~= Seq::<Delta>::empty());
    }
    while i < a.len() || j < b.len()
        invariant
            va == views(a@),
            vb == views(b@),
            i <= a.len(),
            j <= b.len(),
            keyed_deltas::<A>(va, vb) == results_deltas(acc@) + keyed_deltas::<A>(
                va.subrange(i as int, va.len() as int),
                vb.subrange(j as int, vb.len() as int),
            ),
            has_differences == !all_identical(results_deltas(acc@)),
        decreases a.len() + b.len() - i - j,
    {
        let ghost ra = va.subrange(i as int, va.len() as int);
        let ghost rb = vb.subrange(j as int, vb.len() as int);
        let order = if i < a.len() && j < b.len() {
            compare_names(a[i].name(), b[j].name())
        } else if i < a.len() {
            Ordering::Less
        } else {
            Ordering::Greater
        };
        let ghost old_acc = acc@;
        let ghost oi = i;
        let ghost oj = j;
        let dr: DiffResult<'a> = match order {
            Ordering::Less => {
                let left: &'a A = &a[i];
                i = i + 1;
                DiffResult::OnlyLeft { left: left.node() }
            },
            Ordering::Greater => {
                let right: &'a A = &b[j];
                j = j + 1;
                DiffResult::OnlyRight { right: right.node() }
            },
            Ordering::Equal => {
                let left: &'a A = &a[i];
                let right: &'a A = &b[j];
                i = i + 1;
                j = j + 1;
                left.diff(right)
            },
        };
        if !matches!(dr, DiffResult::Identical { .. }) {
            has_differences = true;
        }
        acc.push(dr);
        proof {
            lemma_results_deltas_push(old_acc, dr);
            lemma_all_identical_push(results_deltas(old_acc), result_delta(dr));
            if i == oi + 1 {
                assert(ra.drop_first() =~= va.subrange(i as int, va.len() as int));
            }
            if j == oj + 1 {
                assert(rb.drop_first() =~= vb.subrange(j as int, vb.len() as int));
            }
            assert(results_deltas(acc@) + keyed_deltas::<A>(
                va.subrange(i as int, va.len() as int),
                vb.subrange(j as int, vb.len() as int),
            ) =~= results_deltas(old_acc) + keyed_deltas::<A>(ra, rb));
        }
    }
    proof {
        assert(results_deltas(acc@) + Seq::<Delta>::empty() =~= results_deltas(acc@));
    }
    (has_differences, acc)
}

/// Compares two lists of nodes whose keys are unique and ascending: the single-valued
/// case of `diff_hashmap`.
pub fn diff_entry<'a, A: Diff>(a: &'a Vec<A>, b: &'a Vec<A>) -> (r: (bool, Vec<DiffResult<'a>>))
    ensures
        results_deltas(r.1@) == keyed_deltas::<A>(views(a@), views(b@)),
        r.0 == !all_identical(results_deltas(r.1@)),
{
    diff_hashmap(a, b)
}

pub proof fn lemma_results_deltas_concat(s: Seq<DiffResult>, t: Seq<DiffResult>)
    ensures
        results_deltas(s + t) == results_deltas(s) + results_deltas(t),
    decreases t.len(),
{
    if t.len() == 0 {
        assert(s + t =~= s);
        assert(results_deltas(s) + results_deltas(t) =~= results_deltas(s));
    } else {
        lemma_results_deltas_concat(s, t.drop_last());
        assert((s + t).drop_last() =~= s + t.drop_last());
        assert((s + t).last() == t.last());
        assert(results_deltas(s) + results_deltas(t) =~= (results_deltas(s) + results_deltas(
            t.drop_last(),
        )).push(result_delta(t.last())));
    }
}

pub proof fn lemma_all_identical_concat(s: Seq<Delta>, t: Seq<Delta>)
    ensures
        all_identical(s + t) == (all_identical(s) && all_identical(t)),
{
    if all_identical(s + t) {
        assert forall|i: int| 0 <= i < s.len() implies s[i] is Identical by {
            assert((s + t)[i] == s[i]);
        }
        assert forall|i: int| 0 <= i < t.len() implies t[i] is Identical by {
            assert((s + t)[s.len() + i] == t[i]);
        }
    }
}

/// Keys in ascending order; equal keys may repeat.
pub open spec fn keys_ascending<A: Diff>(s: Seq<A::V>) -> bool {
    forall|i: int, j: int|
        0 <= i < j < s.len() ==> !name_lt(#[trigger] A::key(s[j]), #[trigger] A::key(s[i]))
}

/// How many nodes lead `s` whose keys are not greater than the key of `x`: where `x`
/// goes when it is added.
pub open spec fn insert_position<A: Diff>(s: Seq<A::V>, x: A::V) -> int
    decreases s.len(),
{
    if s.len() == 0 || name_lt(A::key(x), A::key(s[0])) {
        0
    } else {
        1 + insert_position::<A>(s.drop_first(), x)
    }
}

/// `s` with `x` added after every node whose key is not greater than its own.
pub open spec fn placed<A: Diff>(s: Seq<A::V>, x: A::V) -> Seq<A::V> {
    s.insert(insert_position::<A>(s, x), x)
}

/// A position before which no key is greater than that of `x`, and from which every key
/// is, is the insertion position.
pub proof fn lemma_insert_position_unique<A: Diff>(s: Seq<A::V>, x: A::V, p: int)
    requires
        0 <= p <= s.len(),
        forall|i: int| 0 <= i < p ==> !name_lt(A::key(x), #[trigger] A::key(s[i])),
        forall|i: int| p <= i < s.len() ==> name_lt(A::key(x), #[trigger] A::key(s[i])),
    ensures
        insert_position::<A>(s, x) == p,
    decreases s.len(),
{
    if s.len() > 0 && p > 0 {
        let t = s.drop_first();
        assert(!name_lt(A::key(x), A::key(s[0])));
        assert forall|i: int| 0 <= i < p - 1 implies !name_lt(A::key(x), #[trigger] A::key(t[i])) by {
            assert(t[i] == s[i + 1]);
        }
        assert forall|i: int| p - 1 <= i < t.len() implies name_lt(A::key(x), #[trigger] A::key(t[i])) by {
            assert(t[i] == s[i + 1]);
        }
        lemma_insert_position_unique::<A>(t, x, p - 1);
    } else if s.len() > 0 {
        assert(name_lt(A::key(x), A::key(s[0])));
    }
}

/// On keys in ascending order, the insertion position splits the keys not greater than
/// that of `x` from the greater ones.
pub proof fn lemma_insert_position_splits<A: Diff>(s: Seq<A::V>, x: A::V)
    requires
        keys_ascending::<A>(s),
    ensures
        0 <= insert_position::<A>(s, x) <= s.len(),
        forall|i: int|
            0 <= i < insert_position::<A>(s, x) ==> !name_lt(A::key(x), #[trigger] A::key(s[i])),
        forall|i: int|
            insert_position::<A>(s, x) <= i < s.len() ==> name_lt(A::key(x), #[trigger] A::key(s[i])),
    decreases s.len(),
{
    if s.len() > 0 {
        let t = s.drop_first();
        assert forall|i: int, j: int| 0 <= i < j < t.len() implies !name_lt(
            #[trigger] A::key(t[j]),
            #[trigger] A::key(t[i]),
        ) by {
            assert(t[i] == s[i + 1] && t[j] == s[j + 1]);
        }
        lemma_insert_position_splits::<A>(t, x);
        let p = insert_position::<A>(s, x);
        if name_lt(A::key(x), A::key(s[0])) {
            assert forall|i: int| 0 <= i < s.len() implies name_lt(A::key(x), #[trigger] A::key(s[i])) by {
                if i > 0 {
                    assert(!name_lt(A::key(s[i]), A::key(s[0])));
                    lemma_name_lt_total(A::key(s[0]), A::key(s[i]));
                    if A::key(s[0]) != A::key(s[i]) {
                        lemma_name_lt_transitive(A::key(x), A::key(s[0]), A::key(s[i]));
                    }
                }
            }
        } else {
            assert forall|i: int| 0 <= i < p implies !name_lt(A::key(x), #[trigger] A::key(s[i])) by {
                if i > 0 {
                    assert(s[i] == t[i - 1]);
                }
            }
            assert forall|i: int| p <= i < s.len() implies name_lt(A::key(x), #[trigger] A::key(s[i])) by {
                assert(s[i] == t[i - 1]);
            }
        }
    }
}

/// Nodes with different keys can be added in either order: the list comes out the same.
/// Only the order in which nodes that share a key were added shows in the result.
pub proof fn lemma_additions_commute<A: Diff>(s: Seq<A::V>, x: A::V, y: A::V)
    requires
        keys_ascending::<A>(s),
        A::key(x) != A::key(y),
    ensures
        placed::<A>(placed::<A>(s, x), y) == placed::<A>(placed::<A>(s, y), x),
{
    lemma_name_lt_total(A::key(x), A::key(y));
    if name_lt(A::key(y), A::key(x)) {
        lemma_additions_commute_ordered::<A>(s, y, x);
    } else {
        lemma_additions_commute_ordered::<A>(s, x, y);
    }
}

proof fn lemma_additions_commute_ordered<A: Diff>(s: Seq<A::V>, x: A::V, y: A::V)
    requires
        keys_ascending::<A>(s),
        name_lt(A::key(x), A::key(y)),
    ensures
        placed::<A>(placed::<A>(s, x), y) == placed::<A>(placed::<A>(s, y), x),
{
    lemma_name_lt_asymmetric(A::key(x), A::key(y));
    lemma_insert_position_splits::<A>(s, x);
    lemma_insert_position_splits::<A>(s, y);
    let px = insert_position::<A>(s, x);
    let py = insert_position::<A>(s, y);
    assert(px <= py) by {
        if px > py {
            assert(name_lt(A::key(y), A::key(s[py])));
            assert(!name_lt(A::key(x), A::key(s[py])));
            lemma_name_lt_total(A::key(x), A::key(s[py]));
            if A::key(s[py]) != A::key(x) {
                lemma_name_lt_transitive(A::key(s[py]), A::key(x), A::key(y));
                lemma_name_lt_asymmetric(A::key(s[py]), A::key(y));
            }
        }
    }
    let s1 = s.insert(px, x);
    assert forall|i: int| 0 <= i < py + 1 implies !name_lt(A::key(y), #[trigger] A::key(s1[i])) by {
        if i < px {
            assert(s1[i] == s[i]);
        } else if i > px {
            assert(s1[i] == s[i - 1]);
        }
    }
    assert forall|i: int| py + 1 <= i < s1.len() implies name_lt(A::key(y), #[trigger] A::key(s1[i])) by {
        assert(s1[i] == s[i - 1]);
    }
    lemma_insert_position_unique::<A>(s1, y, py + 1);
    let s2 = s.insert(py, y);
    assert forall|i: int| 0 <= i < px implies !name_lt(A::key(x), #[trigger] A::key(s2[i])) by {
        assert(s2[i] == s[i]);
    }
    assert forall|i: int| px <= i < s2.len() implies name_lt(A::key(x), #[trigger] A::key(s2[i])) by {
        if i < py {
            assert(s2[i] == s[i]);
        } else if i > py {
            assert(s2[i] == s[i - 1]);
        }
    }
    lemma_insert_position_unique::<A>(s2, x, px);
    assert(s1.insert(py + 1, y) =~= s2.insert(px, x));
}

/// Inserts `x` after every node whose key is not greater than its own.
pub fn insert_by_key<A: Diff>(v: &mut Vec<A>, x: A)
    requires
        keys_ascending::<A>(views(old(v)@)),
    ensures
        keys_ascending::<A>(views(final(v)@)),
        views(final(v)@) == placed::<A>(views(old(v)@), x@),
{
    let ghost s = views(v@);
    let mut k: usize = 0;
    while k < v.len()
        invariant
            v@ == old(v)@,
            s == views(v@),
            k <= s.len(),
            forall|i: int| 0 <= i < k ==> !name_lt(A::key(x@), #[trigger] A::key(s[i])),
        ensures
            v@ == old(v)@,
            k <= s.len(),
            forall|i: int| 0 <= i < k ==> !name_lt(A::key(x@), #[trigger] A::key(s[i])),
            k < s.len() ==> name_lt(A::key(x@), A::key(s[k as int])),
        decreases v.len() - k,
    {
        match compare_names(x.name(), v[k].name()) {
            Ordering::Less => {
                break;
            },
            _ => {
                k = k + 1;
            },
        }
    }
    proof {
        assert forall|i: int| k <= i < s.len() implies name_lt(A::key(x@), #[trigger] A::key(s[i])) by {
            if i > k {
                lemma_name_lt_total(A::key(s[k as int]), A::key(s[i]));
                if A::key(s[k as int]) != A::key(s[i]) {
                    lemma_name_lt_transitive(A::key(x@), A::key(s[k as int]), A::key(s[i]));
                }
            }
        }
    }
    proof {
        lemma_insert_position_unique::<A>(s, x@, k as int);
    }
    v.insert(k, x);
    proof {
        let t = views(v@);
        assert(t =~= s.insert(k as int, x@));
        assert forall|i: int, j: int| 0 <= i < j < t.len() implies !name_lt(
            #[trigger] A::key(t[j]),
            #[trigger] A::key(t[i]),
        ) by {
            if i == k && j > k {
                lemma_name_lt_asymmetric(A::key(x@), A::key(s[j - 1]));
            } else if i > k {
                assert(t[i] == s[i - 1] && t[j] == s[j - 1]);
            } else if j > k {
                assert(t[j] == s[j - 1]);
            }
        }
    }
}

pub proof fn lemma_results_deltas_index(s: Seq<DiffResult>)
    ensures
        results_deltas(s).len() == s.len(),
        forall|k: int| 0 <= k < s.len() ==> #[trigger] results_deltas(s)[k] == result_delta(s[k]),
    decreases s.len(),
{
    if s.len() > 0 {
        lemma_results_deltas_index(s.drop_last());
    }
}

} // verus!
