use std::cmp::Ordering;
use vstd::prelude::*;

use crate::diff::field::{Field, FieldView};
use crate::diff::{
    all_identical, compare_names, diff_entry, keyed_deltas, lemma_insert_position_unique,
    lemma_name_lt_asymmetric, lemma_name_lt_irreflexive, name_lt, placed, views, Delta, Diff,
    DiffResult, Item, Node,
};

verus! {

/// A named record: its fields, kept in ascending order of their names.
#[derive(Clone, Debug, PartialEq, Eq)]
pub struct Entry {
    name: String,
    fields: Vec<Field>,
}

pub struct EntryView {
    pub name: Seq<char>,
    pub fields: Seq<FieldView>,
}

impl View for Entry {
    type V = EntryView;

    closed spec fn view(&self) -> EntryView {
        EntryView { name: self.name@, fields: views(self.fields@) }
    }
}

/// Names strictly ascending: each name occurs once.
pub open spec fn fields_ascending(s: Seq<FieldView>) -> bool {
    forall|i: int, j: int| 0 <= i < j < s.len() ==> name_lt(#[trigger] s[i].name, #[trigger] s[j].name)
}

/// Two records are identical when all their fields are; else the outcomes for their
/// fields, in the order of the names, are recorded under them.
pub open spec fn entry_delta(a: EntryView, b: EntryView) -> Delta {
    let children = keyed_deltas::<Field>(a.fields, b.fields);
    if all_identical(children) {
        Delta::Identical(Item::Entry(a), Item::Entry(b))
    } else {
        Delta::InnerDifferences(Item::Entry(a), Item::Entry(b), children)
    }
}

impl Entry {
    /// Field names strictly ascending.
    pub open spec fn wf(&self) -> bool {
        fields_ascending(self@.fields)
    }

    /// A record without fields.
    pub fn new(name: String) -> (r: Entry)
        ensures
            r@ == (EntryView { name: name@, fields: Seq::empty() }),
            r.wf(),
    {
        let r = Entry { name, fields: Vec::new() };
        assert(r@.fields =~= Seq::<FieldView>::empty());
        r
    }

    /// Files `f` under its name: it replaces a field of that name, or goes where its
    /// name belongs in the order.
    pub fn add_field(&mut self, f: Field)
        requires
            old(self).wf(),
        ensures
            final(self).wf(),
            final(self)@.name == old(self)@.name,
            forall|i: int|
                0 <= i < old(self)@.fields.len() && #[trigger] old(self)@.fields[i].name == f@.name
                    ==> final(self)@.fields == old(self)@.fields.update(i, f@),
            (forall|i: int|
                0 <= i < old(self)@.fields.len() ==> #[trigger] old(self)@.fields[i].name != f@.name)
                ==> final(self)@.fields == placed::<Field>(old(self)@.fields, f@),
    {
        let ghost s = self@.fields;
        let mut k: usize = 0;
        while k < self.fields.len()
            invariant
                self@ == old(self)@,
                s == self@.fields,
                s.len() == self.fields@.len(),
                k <= s.len(),
                fields_ascending(s),
                forall|i: int| 0 <= i < k ==> name_lt(#[trigger] s[i].name, f@.name),
            ensures
                self@ == old(self)@,
                s == self@.fields,
                s.len() == self.fields@.len(),
                k <= s.len(),
                forall|i: int| 0 <= i < k ==> name_lt(#[trigger] s[i].name, f@.name),
                k < s.len() ==> name_lt(f@.name, s[k as int].name),
            decreases self.fields.len() - k,
        {
            match compare_names(self.fields[k].name(), f.name()) {
                Ordering::Less => {
                    k = k + 1;
                },
                Ordering::Equal => {
                    self.fields.set(k, f);
                    proof {
                        assert forall|i: int|
                            0 <= i < s.len() && #[trigger] s[i].name == f@.name implies i == k by {
                            if i < k {
                                lemma_name_lt_irreflexive(s[i].name);
                            } else if i > k {
                                assert(name_lt(s[k as int].name, s[i].name));
                                lemma_name_lt_irreflexive(s[i].name);
                            }
                        }
                        assert(self@.fields =~= s.update(k as int, f@));
                        assert forall|i: int, j: int| 0 <= i < j < self@.fields.len() implies name_lt(
                            #[trigger] self@.fields[i].name,
                            #[trigger] self@.fields[j].name,
                        ) by {
                            assert(self@.fields[i].name == s[i].name);
                            assert(self@.fields[j].name == s[j].name);
                        }
                    }
                    return;
                },
                Ordering::Greater => {
                    break;
                },
            }
        }
        proof {
            assert forall|i: int| k <= i < s.len() implies name_lt(f@.name, #[trigger] s[i].name) by {
                if i > k {
                    crate::diff::lemma_name_lt_transitive(f@.name, s[k as int].name, s[i].name);
                }
            }
        }
        proof {
            assert forall|i: int| 0 <= i < k implies !name_lt(f@.name, #[trigger] s[i].name) by {
                lemma_name_lt_asymmetric(f@.name, s[i].name);
            }
            assert forall|i: int| 0 <= i < s.len() implies #[trigger] s[i].name != f@.name by {
                lemma_name_lt_irreflexive(f@.name);
            }
            lemma_insert_position_unique::<Field>(s, f@, k as int);
        }
        self.fields.insert(k, f);
        proof {
            assert(self@.fields =~= s.insert(k as int, f@));
            assert forall|i: int, j: int| 0 <= i < j < self@.fields.len() implies name_lt(
                #[trigger] self@.fields[i].name,
                #[trigger] self@.fields[j].name,
            ) by {
                if j < k {
                } else if j == k {
                } else if i < k {
                    crate::diff::lemma_name_lt_transitive(s[i].name, f@.name, s[j - 1].name);
                } else if i == k {
                } else {
                }
            }
        }
    }

    pub fn fields(&self) -> (r: &Vec<Field>)
        ensures
            views(r@) == self@.fields,
    {
        &self.fields
    }
}

impl Diff for Entry {
    open spec fn key(v: EntryView) -> Seq<char> {
        v.name
    }

    open spec fn item(v: EntryView) -> Item {
        Item::Entry(v)
    }

    open spec fn delta(left: EntryView, right: EntryView) -> Delta {
        entry_delta(left, right)
    }

    fn name(&self) -> (r: &str) {
        self.name.as_str()
    }

    fn node(&self) -> (r: Node<'_>) {
        Node::Entry(self)
    }

    fn diff<'a>(&'a self, other: &'a Self) -> (r: DiffResult<'a>) {
        let (has_differences, inner_differences) = diff_entry(&self.fields, &other.fields);
        if has_differences {
            DiffResult::InnerDifferences {
                left: Node::Entry(self),
                right: Node::Entry(other),
                inner_differences,
            }
        } else {
            DiffResult::Identical { left: Node::Entry(self), right: Node::Entry(other) }
        }
    }
}

} // verus!
