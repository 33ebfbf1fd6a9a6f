use vstd::prelude::*;

use crate::diff::entry::{entry_delta, Entry, EntryView};
use crate::diff::field::{field_delta, Field, FieldView};
use crate::diff::group::{group_delta, group_list_deltas, Group, GroupView};
use crate::diff::{
    all_identical, keyed_deltas, keys_ascending, lemma_additions_commute, lemma_name_lt_asymmetric,
    lemma_name_lt_irreflexive, name_lt, placed, Delta, Diff, Item,
};

verus! {

proof fn lemma_keyed_reflexive<A: Diff>(s: Seq<A::V>)
    requires
        forall|i: int| 0 <= i < s.len() ==> #[trigger] A::delta(s[i], s[i]) is Identical,
    ensures
        all_identical(keyed_deltas::<A>(s, s)),
    decreases s.len(),
{
    if s.len() > 0 {
        lemma_name_lt_irreflexive(A::key(s[0]));
        assert(A::delta(s[0], s[0]) is Identical);
        let rest = s.drop_first();
        assert forall|i: int| 0 <= i < rest.len() implies #[trigger] A::delta(rest[i], rest[i]) is Identical by {
            assert(rest[i] == s[i + 1]);
        }
        lemma_keyed_reflexive::<A>(rest);
        let d = keyed_deltas::<A>(s, s);
        assert(d == seq![A::delta(s[0], s[0])] + keyed_deltas::<A>(rest, rest));
        assert forall|i: int| 0 <= i < d.len() implies d[i] is Identical by {
            if i > 0 {
                assert(d[i] == keyed_deltas::<A>(rest, rest)[i - 1]);
            }
        }
    }
}

/// A record compared with itself is identical.
pub proof fn lemma_entry_reflexive(e: EntryView)
    ensures
        entry_delta(e, e) == Delta::Identical(Item::Entry(e), Item::Entry(e)),
{
    assert forall|i: int| 0 <= i < e.fields.len() implies #[trigger] Field::delta(
        e.fields[i],
        e.fields[i],
    ) is Identical by {}
    lemma_keyed_reflexive::<Field>(e.fields);
}

proof fn lemma_group_list_reflexive(s: Seq<GroupView>)
    ensures
        all_identical(group_list_deltas(s, s)),
    decreases s,
{
    if s.len() > 0 {
        lemma_name_lt_irreflexive(s[0].name);
        lemma_group_reflexive(s[0]);
        let rest = s.drop_first();
        lemma_group_list_reflexive(rest);
        let d = group_list_deltas(s, s);
        assert(d == seq![group_delta(s[0], s[0])] + group_list_deltas(rest, rest));
        assert forall|i: int| 0 <= i < d.len() implies d[i] is Identical by {
            if i > 0 {
                assert(d[i] == group_list_deltas(rest, rest)[i - 1]);
            }
        }
    }
}

/// A group compared with itself is identical, and so, transitively, is every node
/// below it: no difference is reported anywhere.
pub proof fn lemma_group_reflexive(g: GroupView)
    ensures
        group_delta(g, g) == Delta::Identical(Item::Group(g), Item::Group(g)),
    decreases g,
{
    lemma_group_list_reflexive(g.groups);
    assert forall|i: int| 0 <= i < g.entries.len() implies #[trigger] Entry::delta(
        g.entries[i],
        g.entries[i],
    ) is Identical by {
        lemma_entry_reflexive(g.entries[i]);
    }
    lemma_keyed_reflexive::<Entry>(g.entries);
    crate::diff::lemma_all_identical_concat(
        group_list_deltas(g.groups, g.groups),
        keyed_deltas::<Entry>(g.entries, g.entries),
    );
}

/// The outcome seen from the other side: left and right trade places, so that a node
/// only on the left becomes one only on the right, and a change from one value to
/// another becomes the change back.
pub open spec fn mirror(d: Delta) -> Delta
    decreases d,
{
    match d {
        Delta::Identical(l, r) => Delta::Identical(r, l),
        Delta::Changed(l, r) => Delta::Changed(r, l),
        Delta::InnerDifferences(l, r, children) => Delta::InnerDifferences(r, l, mirror_all(children)),
        Delta::OnlyLeft(x) => Delta::OnlyRight(x),
        Delta::OnlyRight(x) => Delta::OnlyLeft(x),
    }
}

/// `mirror` applied to each outcome, in order.
pub open spec fn mirror_all(s: Seq<Delta>) -> Seq<Delta>
    decreases s,
{
    if s.len() == 0 {
        Seq::empty()
    } else {
        seq![mirror(s[0])] + mirror_all(s.drop_first())
    }
}

proof fn lemma_mirror_all_concat(s: Seq<Delta>, t: Seq<Delta>)
    ensures
        mirror_all(s + t) == mirror_all(s) + mirror_all(t),
    decreases s.len(),
{
    if s.len() == 0 {
        assert(s + t =~= t);
        assert(mirror_all(s) + mirror_all(t) =~= mirror_all(t));
    } else {
        assert((s + t).drop_first() =~= s.drop_first() + t);
        assert((s + t)[0] == s[0]);
        lemma_mirror_all_concat(s.drop_first(), t);
        assert(mirror_all(s) + mirror_all(t) =~= seq![mirror(s[0])] + (mirror_all(s.drop_first())
            + mirror_all(t)));
    }
}

proof fn lemma_mirror_all_index(s: Seq<Delta>)
    ensures
        mirror_all(s).len() == s.len(),
        forall|i: int| 0 <= i < s.len() ==> #[trigger] mirror_all(s)[i] == mirror(s[i]),
    decreases s.len(),
{
    if s.len() > 0 {
        lemma_mirror_all_index(s.drop_first());
        assert forall|i: int| 0 <= i < s.len() implies #[trigger] mirror_all(s)[i] == mirror(s[i]) by {
            if i > 0 {
                assert(mirror_all(s)[i] == mirror_all(s.drop_first())[i - 1]);
            }
        }
    }
}

proof fn lemma_mirror_all_identical(s: Seq<Delta>)
    ensures
        all_identical(mirror_all(s)) == all_identical(s),
{
    lemma_mirror_all_index(s);
    if all_identical(mirror_all(s)) {
        assert forall|i: int| 0 <= i < s.len() implies s[i] is Identical by {
            assert(mirror_all(s)[i] == mirror(s[i]));
        }
    }
    if all_identical(s) {
        assert forall|i: int| 0 <= i < s.len() implies mirror_all(s)[i] is Identical by {
            assert(mirror_all(s)[i] == mirror(s[i]));
        }
    }
}

proof fn lemma_keyed_symmetric<A: Diff>(a: Seq<A::V>, b: Seq<A::V>)
    requires
        forall|x: A::V, y: A::V| #[trigger] A::delta(y, x) == mirror(A::delta(x, y)),
    ensures
        keyed_deltas::<A>(b, a) == mirror_all(keyed_deltas::<A>(a, b)),
    decreases a.len() + b.len(),
{
    if a.len() == 0 && b.len() == 0 {
    } else {
        if a.len() > 0 && b.len() > 0 {
            lemma_name_lt_asymmetric(A::key(a[0]), A::key(b[0]));
        }
        let d = keyed_deltas::<A>(a, b);
        assert(mirror_all(d) == seq![mirror(d[0])] + mirror_all(d.drop_first()));
        if b.len() == 0 || (a.len() > 0 && name_lt(A::key(a[0]), A::key(b[0]))) {
            lemma_keyed_symmetric::<A>(a.drop_first(), b);
            assert(d.drop_first() =~= keyed_deltas::<A>(a.drop_first(), b));
        } else if a.len() == 0 || name_lt(A::key(b[0]), A::key(a[0])) {
            lemma_keyed_symmetric::<A>(a, b.drop_first());
            assert(d.drop_first() =~= keyed_deltas::<A>(a, b.drop_first()));
        } else {
            lemma_keyed_symmetric::<A>(a.drop_first(), b.drop_first());
            assert(d.drop_first() =~= keyed_deltas::<A>(a.drop_first(), b.drop_first()));
            assert(A::delta(b[0], a[0]) == mirror(A::delta(a[0], b[0])));
        }
        assert(keyed_deltas::<A>(b, a) =~= mirror_all(d));
    }
}

/// Comparing records the other way round mirrors the outcome.
pub proof fn lemma_entry_symmetric(a: EntryView, b: EntryView)
    ensures
        entry_delta(b, a) == mirror(entry_delta(a, b)),
{
    assert forall|x: FieldView, y: FieldView| #[trigger] Field::delta(y, x) == mirror(
        Field::delta(x, y),
    ) by {}
    lemma_keyed_symmetric::<Field>(a.fields, b.fields);
    lemma_mirror_all_identical(keyed_deltas::<Field>(a.fields, b.fields));
}

proof fn lemma_group_list_symmetric(a: Seq<GroupView>, b: Seq<GroupView>)
    ensures
        group_list_deltas(b, a) == mirror_all(group_list_deltas(a, b)),
    decreases a, b,
{
    if a.len() == 0 && b.len() == 0 {
    } else {
        if a.len() > 0 && b.len() > 0 {
            lemma_name_lt_asymmetric(a[0].name, b[0].name);
        }
        let d = group_list_deltas(a, b);
        assert(mirror_all(d) == seq![mirror(d[0])] + mirror_all(d.drop_first()));
        if b.len() == 0 || (a.len() > 0 && name_lt(a[0].name, b[0].name)) {
            lemma_group_list_symmetric(a.drop_first(), b);
            assert(d.drop_first() =~= group_list_deltas(a.drop_first(), b));
        } else if a.len() == 0 || name_lt(b[0].name, a[0].name) {
            lemma_group_list_symmetric(a, b.drop_first());
            assert(d.drop_first() =~= group_list_deltas(a, b.drop_first()));
        } else {
            lemma_group_symmetric(a[0], b[0]);
            lemma_group_list_symmetric(a.drop_first(), b.drop_first());
            assert(d.drop_first() =~= group_list_deltas(a.drop_first(), b.drop_first()));
        }
        assert(group_list_deltas(b, a) =~= mirror_all(d));
    }
}

/// Comparing groups the other way round mirrors the outcome at every node: a node only
/// on the left becomes one only on the right and the reverse, and a changed field
/// `(left, right)` becomes the change `(right, left)`.
pub proof fn lemma_group_symmetric(a: GroupView, b: GroupView)
    ensures
        group_delta(b, a) == mirror(group_delta(a, b)),
    decreases a, b,
{
    lemma_group_list_symmetric(a.groups, b.groups);
    assert forall|x: EntryView, y: EntryView| #[trigger] Entry::delta(y, x) == mirror(
        Entry::delta(x, y),
    ) by {
        lemma_entry_symmetric(x, y);
    }
    lemma_keyed_symmetric::<Entry>(a.entries, b.entries);
    let gs = group_list_deltas(a.groups, b.groups);
    let es = keyed_deltas::<Entry>(a.entries, b.entries);
    lemma_mirror_all_concat(gs, es);
    lemma_mirror_all_identical(gs + es);
}

/// Adding two child groups with different names to a group in either order changes no
/// comparison that the group takes part in, on either side.
pub proof fn lemma_child_group_order(a: GroupView, x: GroupView, y: GroupView, b: GroupView)
    requires
        keys_ascending::<Group>(a.groups),
        x.name != y.name,
    ensures
        ({
            let a1 = GroupView {
                name: a.name,
                groups: placed::<Group>(placed::<Group>(a.groups, x), y),
                entries: a.entries,
            };
            let a2 = GroupView {
                name: a.name,
                groups: placed::<Group>(placed::<Group>(a.groups, y), x),
                entries: a.entries,
            };
            a1 == a2 && group_delta(a1, b) == group_delta(a2, b) && group_delta(b, a1)
                == group_delta(b, a2)
        }),
{
    lemma_additions_commute::<Group>(a.groups, x, y);
}

/// Adding two records with different names to a group in either order changes no
/// comparison that the group takes part in, on either side.
pub proof fn lemma_record_order(a: GroupView, x: EntryView, y: EntryView, b: GroupView)
    requires
        keys_ascending::<Entry>(a.entries),
        x.name != y.name,
    ensures
        ({
            let a1 = GroupView {
                name: a.name,
                groups: a.groups,
                entries: placed::<Entry>(placed::<Entry>(a.entries, x), y),
            };
            let a2 = GroupView {
                name: a.name,
                groups: a.groups,
                entries: placed::<Entry>(placed::<Entry>(a.entries, y), x),
            };
            a1 == a2 && group_delta(a1, b) == group_delta(a2, b) && group_delta(b, a1)
                == group_delta(b, a2)
        }),
{
    lemma_additions_commute::<Entry>(a.entries, x, y);
}

/// Adding two fields with new, different names to a record in either order changes no
/// comparison that the record takes part in, on either side.
pub proof fn lemma_field_order(a: EntryView, x: FieldView, y: FieldView, b: EntryView)
    requires
        keys_ascending::<Field>(a.fields),
        x.name != y.name,
    ensures
        ({
            let a1 = EntryView {
                name: a.name,
                fields: placed::<Field>(placed::<Field>(a.fields, x), y),
            };
            let a2 = EntryView {
                name: a.name,
                fields: placed::<Field>(placed::<Field>(a.fields, y), x),
            };
            a1 == a2 && entry_delta(a1, b) == entry_delta(a2, b) && entry_delta(b, a1)
                == entry_delta(b, a2)
        }),
{
    lemma_additions_commute::<Field>(a.fields, x, y);
}

} // verus!
