use std::rc::Rc;
use vstd::prelude::*;
use vstd::string::*;

use crate::join;

verus! {

/// A persistent stack of owned strings; pushing shares the existing cells.
#[derive(Debug, PartialEq)]
pub enum StringStack {
    Cons(String, Rc<StringStack>),
    Empty,
}

/// The strings of a stack, the first pushed first.
pub open spec fn string_items(s: StringStack) -> Seq<Seq<char>>
    decreases s,
{
    match s {
        StringStack::Empty => Seq::empty(),
        StringStack::Cons(d, next) => string_items(*next).push(d@),
    }
}

impl StringStack {
    pub fn empty() -> (r: StringStack)
        ensures
            string_items(r) == Seq::<Seq<char>>::empty(),
    {
        StringStack::Empty
    }

    pub fn is_empty(&self) -> (r: bool)
        ensures
            r == (string_items(*self).len() == 0),
    {
        match *self {
            StringStack::Cons(_, _) => false,
            StringStack::Empty => true,
        }
    }

    /// A copy of the string pushed last, if any.
    pub fn head(&self) -> (r: Option<String>)
        ensures
            r is None <==> string_items(*self).len() == 0,
            r is Some ==> r->0@ == string_items(*self).last(),
    {
        match self {
            StringStack::Empty => None,
            StringStack::Cons(data, _) => Some(data.clone()),
        }
    }

    pub fn len(&self) -> (r: usize)
        requires
            string_items(*self).len() <= usize::MAX,
        ensures
            r == string_items(*self).len(),
        decreases self,
    {
        match self {
            StringStack::Empty => 0,
            StringStack::Cons(_, tail) => 1 + (&**tail).len(),
        }
    }

    pub fn push(&self, data: String) -> (r: StringStack)
        ensures
            string_items(r) == string_items(*self).push(data@),
    {
        match self {
            StringStack::Cons(h, t) => StringStack::Cons(
                data,
                Rc::new(StringStack::Cons(h.clone(), t.clone())),
            ),
            StringStack::Empty => StringStack::Cons(data, Rc::new(StringStack::Empty)),
        }
    }

    /// The stack without the string pushed last, if there is one.
    pub fn tail(&self) -> (r: Option<&StringStack>)
        ensures
            r is None <==> string_items(*self).len() == 0,
            r is Some ==> string_items(*r->0) == string_items(*self).drop_last(),
    {
        match self {
            StringStack::Empty => None,
            StringStack::Cons(_, next) => Some(&**next),
        }
    }

    pub fn to_string(&self) -> (r: String)
        ensures
            r@ == "Stack("@ + join(string_items(*self), ", "@) + ")"@,
    {
        self.mk_string("Stack(", ", ", ")")
    }

    /// `start`, then the strings from the first pushed to the last with `separator`
    /// between them, then `end`.
    pub fn mk_string(&self, start: &'static str, separator: &'static str, end: &'static str) -> (r:
        String)
        ensures
            r@ == start@ + join(string_items(*self), separator@) + end@,
    {
        let mut s = self.mk_string_helper(separator, start);
        s.append(end);
        s
    }

    fn mk_string_helper(&self, separator: &'static str, start: &'static str) -> (r: String)
        ensures
            r@ == start@ + join(string_items(*self), separator@),
        decreases self,
    {
        match self {
            StringStack::Empty => String::from_str(start),
            StringStack::Cons(data, next) => {
                let stack: &StringStack = &**next;
                match stack {
                    StringStack::Empty => {
                        let mut s = String::from_str(start);
                        s.append(data.as_str());
                        assert(string_items(*stack) == Seq::<Seq<char>>::empty());
                        assert(string_items(*self) =~= seq![data@]);
                        s
                    },
                    StringStack::Cons(_, _) => {
                        let mut s = stack.mk_string_helper(separator, start);
                        s.append(separator);
                        s.append(data.as_str());
                        assert(string_items(*self).drop_last() == string_items(*stack));
                        s
                    },
                }
            },
        }
    }
}

} // verus!
