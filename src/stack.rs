use std::rc::Rc;
use vstd::prelude::*;
use vstd::string::*;

use crate::{join, repeat, string_views, with_separators};

verus! {

/// A persistent stack: appending returns a new stack that shares the cells of the old
/// one, and both stay valid.
pub struct Stack<T> {
    head: Option<Rc<StackCell<T>>>,
}

struct StackCell<T> {
    value: T,
    next: Option<Rc<StackCell<T>>>,
}

/// The values of a chain of cells, the first appended first.
spec fn link_items<T>(l: Option<Rc<StackCell<T>>>) -> Seq<T>
    decreases l,
{
    match l {
        None => Seq::empty(),
        Some(cell) => link_items(cell.next).push(cell.value),
    }
}

impl<T> View for Stack<T> {
    type V = Seq<T>;

    closed spec fn view(&self) -> Seq<T> {
        link_items(self.head)
    }
}

/// Whether each string of `texts` is what `Display` writes for the value at its place.
pub open spec fn displays<T: std::fmt::Display>(items: Seq<T>, texts: Seq<String>) -> bool {
    &&& texts.len() == items.len()
    &&& forall|i: int|
        0 <= i < items.len() ==> to_string_from_display_ensures::<T>(&items[i], #[trigger] texts[i])
}

fn link_len<T>(l: &Option<Rc<StackCell<T>>>) -> (r: usize)
    requires
        link_items(*l).len() <= usize::MAX,
    ensures
        r == link_items(*l).len(),
    decreases l,
{
    match l {
        None => 0,
        Some(cell) => 1 + link_len(&cell.next),
    }
}

fn display_link<T: std::fmt::Display>(l: &Option<Rc<StackCell<T>>>) -> (r: Vec<String>)
    ensures
        displays(link_items(*l), r@),
    decreases l,
{
    match l {
        None => Vec::new(),
        Some(cell) => {
            let mut texts = display_link(&cell.next);
            let text = cell.value.to_string();
            texts.push(text);
            proof {
                let items = link_items(*l);
                assert(items == link_items(cell.next).push(cell.value));
                assert forall|i: int| 0 <= i < items.len() implies to_string_from_display_ensures::<
                    T,
                >(&items[i], #[trigger] texts@[i]) by {
                    if i < items.len() - 1 {
                        assert(items[i] == link_items(cell.next)[i]);
                    }
                }
            }
            texts
        },
    }
}

impl<T> Stack<T> {
    pub fn empty() -> (r: Self)
        ensures
            r@ == Seq::<T>::empty(),
    {
        Stack { head: None }
    }

    pub fn append(&self, value: T) -> (r: Stack<T>)
        ensures
            r@ == self@.push(value),
    {
        let next = match &self.head {
            None => None,
            Some(cell) => Some(cell.clone()),
        };
        Stack { head: Some(Rc::new(StackCell { value, next })) }
    }

    /// The value appended last, if any.
    pub fn head(&self) -> (r: Option<&T>)
        ensures
            r is None <==> self@.len() == 0,
            r is Some ==> *r->0 == self@.last(),
    {
        match &self.head {
            None => None,
            Some(cell) => Some(&cell.value),
        }
    }

    /// The stack without the value appended last; the empty stack stays empty.
    pub fn tail(&self) -> (r: Stack<T>)
        ensures
            r@ == if self@.len() == 0 {
                Seq::<T>::empty()
            } else {
                self@.drop_last()
            },
    {
        match &self.head {
            None => Stack { head: None },
            Some(cell) => {
                let next = match &cell.next {
                    None => None,
                    Some(n) => Some(n.clone()),
                };
                Stack { head: next }
            },
        }
    }

    pub fn len(&self) -> (r: usize)
        requires
            self@.len() <= usize::MAX,
        ensures
            r == self@.len(),
    {
        link_len(&self.head)
    }
}

impl<T: std::fmt::Display> Stack<T> {
    pub fn to_string(&self) -> (r: String)
        ensures
            exists|texts: Seq<String>|
                displays(self@, texts) && r@ == "Stack("@ + join(string_views(texts), ", "@)
                    + ")"@,
    {
        self.mk_string("Stack(", ", ", ")")
    }

    /// `start`, then what `Display` writes for each value from the first appended to the
    /// last with `separator` between them, then `end`.
    pub fn mk_string(&self, start: &'static str, separator: &'static str, end: &'static str) -> (r:
        String)
        ensures
            exists|texts: Seq<String>|
                displays(self@, texts) && r@ == start@ + join(string_views(texts), separator@)
                    + end@,
    {
        let texts = display_link(&self.head);
        let ghost tv = string_views(texts@);
        let mut s = String::from_str(start);
        let mut k: usize = 0;
        while k < texts.len()
            invariant
                k <= texts@.len(),
                tv == string_views(texts@),
                s@ == start@ + join(tv.subrange(0, k as int), separator@),
            decreases texts.len() - k,
        {
            if k > 0 {
                s.append(separator);
            }
            s.append(texts[k].as_str());
            proof {
                let q = tv.subrange(0, k + 1);
                assert(q.drop_last() =~= tv.subrange(0, k as int));
                if k == 0 {
                    assert(join(tv.subrange(0, 0), separator@) =~= Seq::<char>::empty());
                }
            }
            k = k + 1;
            assert(s@ =~= start@ + join(tv.subrange(0, k as int), separator@));
        }
        s.append(end);
        assert(tv.subrange(0, k as int) =~= tv);
        assert(displays(self@, texts@));
        s
    }
}

fn write_link_separated(l: &Option<Rc<StackCell<String>>>, out: &mut String, sep: &str)
    ensures
        final(out)@ == old(out)@ + with_separators(string_views(link_items(*l)), sep@),
    decreases l,
{
    match l {
        None => {
            assert(string_views(link_items(*l)) =~= Seq::<Seq<char>>::empty());
            assert(final(out)@ =~= old(out)@ + Seq::<char>::empty());
        },
        Some(cell) => {
            write_link_separated(&cell.next, out, sep);
            out.append(cell.value.as_str());
            out.append(sep);
            assert(string_views(link_items(*l)) =~= string_views(link_items(cell.next)).push(
                cell.value@,
            ));
            assert(string_views(link_items(cell.next)).push(cell.value@).drop_last()
                =~= string_views(link_items(cell.next)));
        },
    }
}

fn write_link_repeated<T>(l: &Option<Rc<StackCell<T>>>, out: &mut String, unit: &str)
    ensures
        final(out)@ == old(out)@ + repeat(unit@, link_items(*l).len()),
    decreases l,
{
    match l {
        None => {
            assert(out@ =~= old(out)@ + repeat(unit@, 0));
        },
        Some(cell) => {
            write_link_repeated(&cell.next, out, unit);
            out.append(unit);
            assert(out@ =~= old(out)@ + repeat(unit@, link_items(*l).len()));
        },
    }
}

impl<T> Stack<T> {
    /// Writes `unit` to `out` once for each value of the stack.
    pub fn write_repeated(&self, out: &mut String, unit: &str)
        ensures
            final(out)@ == old(out)@ + repeat(unit@, self@.len()),
    {
        write_link_repeated(&self.head, out, unit);
    }
}

impl Stack<String> {
    /// Writes the strings to `out`, from the first appended to the last, each followed
    /// by `sep`.
    pub fn write_separated(&self, out: &mut String, sep: &str)
        ensures
            final(out)@ == old(out)@ + with_separators(string_views(self@), sep@),
    {
        write_link_separated(&self.head, out, sep);
    }
}

} // verus!
