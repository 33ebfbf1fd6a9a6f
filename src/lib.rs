use std::rc::Rc;
use vstd::prelude::*;
use vstd::string::*;

pub mod diff;
pub mod stack;
pub mod string_stack;

verus! {

/// Joins the strings of `s` with `sep` between each two neighbours.
pub open spec fn join(s: Seq<Seq<char>>, sep: Seq<char>) -> Seq<char>
    decreases s.len(),
{
    if s.len() == 0 {
        Seq::empty()
    } else if s.len() == 1 {
        s[0]
    } else {
        join(s.drop_last(), sep) + sep + s.last()
    }
}

/// Each string of `q` followed by `sep`.
pub open spec fn with_separators(q: Seq<Seq<char>>, sep: Seq<char>) -> Seq<char>
    decreases q.len(),
{
    if q.len() == 0 {
        Seq::empty()
    } else {
        with_separators(q.drop_last(), sep) + q.last() + sep
    }
}

/// `unit`, `n` times over.
pub open spec fn repeat(unit: Seq<char>, n: nat) -> Seq<char>
    decreases n,
{
    if n == 0 {
        Seq::empty()
    } else {
        repeat(unit, (n - 1) as nat) + unit
    }
}

/// The views of a list of strings.
pub open spec fn string_views(s: Seq<String>) -> Seq<Seq<char>> {
    s.map_values(|x: String| x@)
}

/// A persistent stack of static string slices; pushing shares the existing cells.
#[derive(Debug, PartialEq)]
pub enum StringStack {
    Empty,
    Cons(&'static str, Rc<StringStack>),
}

/// The strings of a stack, the first pushed first.
pub open spec fn static_items(s: StringStack) -> Seq<Seq<char>>
    decreases s,
{
    match s {
        StringStack::Empty => Seq::empty(),
        StringStack::Cons(d, next) => static_items(*next).push(d@),
    }
}

impl StringStack {
    pub fn empty() -> (r: StringStack)
        ensures
            static_items(r) == Seq::<Seq<char>>::empty(),
    {
        StringStack::Empty
    }

    pub fn is_empty(&self) -> (r: bool)
        ensures
            r == (static_items(*self).len() == 0),
    {
        match *self {
            StringStack::Cons(_, _) => false,
            StringStack::Empty => true,
        }
    }

    /// The string pushed last, if any.
    pub fn head(&self) -> (r: Option<&'static str>)
        ensures
            r is None <==> static_items(*self).len() == 0,
            r is Some ==> r->0@ == static_items(*self).last(),
    {
        match self {
            StringStack::Empty => None,
            StringStack::Cons(data, _) => Some(data),
        }
    }

    pub fn push(&self, data: &'static str) -> (r: StringStack)
        ensures
            static_items(r) == static_items(*self).push(data@),
    {
        match self {
            StringStack::Empty => StringStack::Cons(data, Rc::new(StringStack::Empty)),
            StringStack::Cons(b, next) => {
                StringStack::Cons(data, Rc::new(StringStack::Cons(b, next.clone())))
            },
        }
    }

    /// The stack without the string pushed last, if there is one.
    pub fn tail(&self) -> (r: Option<&StringStack>)
        ensures
            r is None <==> static_items(*self).len() == 0,
            r is Some ==> static_items(*r->0) == static_items(*self).drop_last(),
    {
        match self {
            StringStack::Empty => None,
            StringStack::Cons(_, next) => Some(&**next),
        }
    }

    pub fn to_string(&self) -> (r: String)
        ensures
            r@ == "Stack("@ + join(static_items(*self), ", "@) + ")"@,
    {
        self.mk_string("Stack(", ", ", ")")
    }

    /// `start`, then the strings from the first pushed to the last with `separator`
    /// between them, then `end`.
    pub fn mk_string(&self, start: &'static str, separator: &'static str, end: &'static str) -> (r:
        String)
        ensures
            r@ == start@ + join(static_items(*self), separator@) + end@,
    {
        let mut s = self.mk_string_helper(separator, start);
        s.append(end);
        s
    }

    fn mk_string_helper(&self, separator: &'static str, start: &'static str) -> (r: String)
        ensures
            r@ == start@ + join(static_items(*self), separator@),
        decreases self,
    {
        match self {
            StringStack::Empty => String::from_str(start),
            StringStack::Cons(data, next) => {
                let stack: &StringStack = &**next;
                match stack {
                    StringStack::Empty => {
                        let mut s = String::from_str(start);
                        s.append(data);
                        assert(static_items(*stack) == Seq::<Seq<char>>::empty());
                        assert(static_items(*self) =~= seq![data@]);
                        s
                    },
                    StringStack::Cons(_, _) => {
                        let mut s = stack.mk_string_helper(separator, start);
                        s.append(separator);
                        s.append(data);
                        assert(s@ == start@ + join(static_items(*self), separator@)) by {
                            let items = static_items(*self);
                            assert(items.drop_last() == static_items(*stack));
                        };
                        s
                    },
                }
            },
        }
    }
}

} // verus!
