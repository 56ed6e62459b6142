//! A cons list in the Lisp tradition — `cons`, `car`, `cdr`, `map`,
//! `filter`, `list_ref` — with a stack built on top of it.

use vstd::prelude::*;
use vstd::pervasive::unreached;

verus! {

/// A singly linked list: empty, or an element followed by a list.
#[derive(Debug)]
pub enum List<T: Copy> {
    Empty,
    Elem(Box<Node<T>>),
}

/// One cell of a [`List`].
#[derive(Debug)]
pub struct Node<T: Copy> {
    elem: T,
    next: List<T>,
}

impl<T: Copy> View for List<T> {
    type V = Seq<T>;

    closed spec fn view(&self) -> Seq<T>
        decreases self,
    {
        match self {
            List::Empty => Seq::empty(),
            List::Elem(node) => seq![node.elem] + node.next@,
        }
    }
}

/// Put `data` in front of `list`.
pub fn cons<T: Copy>(data: T, list: List<T>) -> (r: List<T>)
    ensures
        r@ == seq![data] + list@,
{
    List::Elem(Box::new(Node { elem: data, next: list }))
}

/// The first element of a nonempty list.
pub fn car<T: Copy>(list: &List<T>) -> (r: &T)
    requires
        list@.len() > 0,
    ensures
        *r == list@[0],
{
    match list {
        List::Empty => unreached(),
        List::Elem(node) => {
            proof {
                assert(list@ == seq![node.elem] + node.next@);
                assert(list@[0] == node.elem);
            }
            &node.elem
        },
    }
}

/// Everything but the first element of a nonempty list.
pub fn cdr<T: Copy>(list: &List<T>) -> (r: &List<T>)
    requires
        list@.len() > 0,
    ensures
        r@ == list@.drop_first(),
{
    match list {
        List::Empty => unreached(),
        List::Elem(node) => {
            proof {
                assert(node.next@ =~= list@.drop_first());
            }
            &node.next
        },
    }
}

/// Apply `f` to every element, front to back.
pub fn map<T: Copy, F: Fn(&T) -> T>(f: F, list: &List<T>) -> (r: List<T>)
    requires
        forall|x: &T| #[trigger] f.requires((x,)),
    ensures
        r@.len() == list@.len(),
        forall|i: int| 0 <= i < list@.len() ==> f.ensures((&list@[i],), #[trigger] r@[i]),
    decreases list,
{
    match list {
        List::Empty => List::Empty,
        List::Elem(node) => {
            let elem = f(&node.elem);
            let rest = map(f, &node.next);
            let r = List::Elem(Box::new(Node { elem, next: rest }));
            proof {
                assert(r@ == seq![elem] + rest@);
                assert(list@ == seq![node.elem] + node.next@);
                assert forall|i: int| 0 <= i < list@.len() implies f.ensures(
                    (&list@[i],),
                    #[trigger] r@[i],
                ) by {
                    if i > 0 {
                        assert(r@[i] == rest@[i - 1]);
                        assert(list@[i] == node.next@[i - 1]);
                    }
                }
            }
            r
        },
    }
}

/// The elements of `s` at the positions where `keep` is true.
pub open spec fn mask<T>(s: Seq<T>, keep: Seq<bool>) -> Seq<T>
    decreases s.len(),
{
    if s.len() == 0 || keep.len() == 0 {
        Seq::empty()
    } else {
        let rest = mask(s.drop_first(), keep.drop_first());
        if keep[0] {
            seq![s[0]] + rest
        } else {
            rest
        }
    }
}

/// Keep exactly the elements on which `f` answered true, in order.
pub fn filter<T: Copy, F: Fn(&T) -> bool>(f: F, list: &List<T>) -> (r: List<T>)
    requires
        forall|x: &T| #[trigger] f.requires((x,)),
    ensures
        exists|keep: Seq<bool>|
            {
                &&& keep.len() == list@.len()
                &&& (forall|i: int|
                    0 <= i < list@.len() ==> f.ensures((&list@[i],), #[trigger] keep[i]))
                &&& r@ == mask(list@, keep)
            },
    decreases list,
{
    match list {
        List::Empty => {
            let r = List::<T>::Empty;
            proof {
                let keep = Seq::<bool>::empty();
                assert(keep.len() == list@.len() && (forall|i: int|
                    0 <= i < list@.len() ==> f.ensures((&list@[i],), #[trigger] keep[i])) && r@
                    == mask(list@, keep));
            }
            r
        },
        List::Elem(node) => {
            let b = f(&node.elem);
            let rest = filter(f, &node.next);
            let ghost keep_rest = choose|keep: Seq<bool>|
                {
                    &&& keep.len() == node.next@.len()
                    &&& (forall|i: int|
                        0 <= i < node.next@.len() ==> f.ensures(
                            (&node.next@[i],),
                            #[trigger] keep[i],
                        ))
                    &&& rest@ == mask(node.next@, keep)
                };
            let r = if b {
                cons(node.elem, rest)
            } else {
                rest
            };
            proof {
                let keep = seq![b] + keep_rest;
                assert(list@ == seq![node.elem] + node.next@);
                assert(list@.drop_first() =~= node.next@);
                assert(keep.drop_first() =~= keep_rest);
                assert forall|i: int| 0 <= i < list@.len() implies f.ensures(
                    (&list@[i],),
                    #[trigger] keep[i],
                ) by {
                    if i > 0 {
                        assert(list@[i] == node.next@[i - 1]);
                        assert(keep[i] == keep_rest[i - 1]);
                    }
                }
                assert(r@ == mask(list@, keep));
                assert(keep.len() == list@.len() && (forall|i: int|
                    0 <= i < list@.len() ==> f.ensures((&list@[i],), #[trigger] keep[i])) && r@
                    == mask(list@, keep));
            }
            r
        },
    }
}

/// The element at position `idx`.
pub fn list_ref<T: Copy>(idx: usize, list: &List<T>) -> (r: &T)
    requires
        idx < list@.len(),
    ensures
        *r == list@[idx as int],
    decreases idx,
{
    match list {
        List::Empty => unreached(),
        List::Elem(node) => {
            proof {
                assert(list@ == seq![node.elem] + node.next@);
            }
            if idx == 0 {
                &node.elem
            } else {
                list_ref(idx - 1, &node.next)
            }
        },
    }
}

/// A stack: push and pop at the front of a cons list.
#[derive(Debug)]
pub struct Stack<T: Copy> {
    head: List<T>,
}

impl<T: Copy> View for Stack<T> {
    type V = Seq<T>;

    closed spec fn view(&self) -> Seq<T> {
        self.head@
    }
}

impl<T: Copy> Stack<T> {
    /// An empty stack.
    pub fn new() -> (r: Stack<T>)
        ensures
            r@ == Seq::<T>::empty(),
    {
        Stack { head: List::Empty }
    }

    /// Put `data` on top.
    pub fn push(&mut self, data: T)
        ensures
            final(self)@ == seq![data] + old(self)@,
    {
        let mut taken = List::Empty;
        core::mem::swap(&mut self.head, &mut taken);
        self.head = List::Elem(Box::new(Node { elem: data, next: taken }));
    }

    /// Take the top element, if there is one.
    pub fn pop(&mut self) -> (r: Option<T>)
        ensures
            old(self)@.len() == 0 ==> r is None && final(self)@ == old(self)@,
            old(self)@.len() > 0 ==> r == Some(old(self)@[0]) && final(self)@ == old(
                self,
            )@.drop_first(),
    {
        let mut taken = List::Empty;
        core::mem::swap(&mut self.head, &mut taken);
        match taken {
            List::Empty => {
                proof {
                    assert(old(self)@ =~= Seq::<T>::empty());
                }
                None
            },
            List::Elem(node) => {
                let n = *node;
                self.head = n.next;
                proof {
                    assert(self@ =~= old(self)@.drop_first());
                }
                Some(n.elem)
            },
        }
    }
}

} // verus!
