//! Shared immutable lists.
//!
//! Copying a list copies no item, and two lists with the same items are equal.

use std::sync::Arc;

use vstd::prelude::*;

verus! {

/// The cells of a list, first item first.
#[derive(Debug, PartialEq, Eq)]
pub enum Cells<T> {
    End,
    Item(T, Arc<Cells<T>>),
}

/// A shared immutable list.
#[derive(Debug, PartialEq, Eq)]
pub struct Items<T> {
    pub cells: Arc<Cells<T>>,
}

impl<T> Cells<T> {
    /// The items in order.
    pub open spec fn seq(self) -> Seq<T>
        decreases self,
    {
        match self {
            Cells::End => Seq::empty(),
            Cells::Item(first, rest) => seq![first] + rest.seq(),
        }
    }

    /// The cells that hold a list of items.
    pub open spec fn of(items: Seq<T>) -> Cells<T>
        decreases items.len(),
    {
        if items.len() == 0 {
            Cells::End
        } else {
            Cells::Item(items[0], Arc::new(Cells::of(items.drop_first())))
        }
    }
}

impl<T> View for Items<T> {
    type V = Seq<T>;

    open spec fn view(&self) -> Seq<T> {
        self.cells.seq()
    }
}

impl<T> Items<T> {
    /// The list of given items.
    pub open spec fn of(items: Seq<T>) -> Items<T> {
        Items { cells: Arc::new(Cells::of(items)) }
    }

    /// The list of a vector's items.
    pub fn from_vec(items: Vec<T>) -> (res: Items<T>)
        ensures
            res == Items::of(items@),
    {
        let mut items = items;
        let ghost all = items@;
        let mut cells: Cells<T> = Cells::End;
        assert(all.skip(all.len() as int) =~= Seq::empty());
        while items.len() > 0
            invariant
                items@.len() <= all.len(),
                items@ == all.take(items@.len() as int),
                cells == Cells::of(all.skip(items@.len() as int)),
            decreases items@.len(),
        {
            let ghost n = items@.len() as int;
            match items.pop() {
                Some(item) => {
                    assert(all.skip(n - 1).drop_first() =~= all.skip(n));
                    assert(all.skip(n - 1)[0] == item);
                    cells = Cells::Item(item, Arc::new(cells));
                },
                None => {},
            }
        }
        assert(all.skip(0) =~= all);
        Items { cells: Arc::new(cells) }
    }

    pub fn is_empty(&self) -> (res: bool)
        ensures
            res == (self@.len() == 0),
    {
        match &*self.cells {
            Cells::End => true,
            Cells::Item(_, _) => false,
        }
    }

    /// References to the items, in order.
    pub fn refs(&self) -> (res: Vec<&T>)
        ensures
            res@.len() == self@.len(),
            forall|i: int| 0 <= i < res@.len() ==> *(#[trigger] res@[i]) == self@[i],
    {
        let mut res: Vec<&T> = Vec::new();
        let mut rest: &Cells<T> = &self.cells;
        loop
            invariant_except_break
                res@.len() + rest.seq().len() == self@.len(),
                forall|i: int| 0 <= i < res@.len() ==> *(#[trigger] res@[i]) == self@[i],
                forall|i: int|
                    0 <= i < rest.seq().len() ==> #[trigger] rest.seq()[i] == self@[res@.len() + i],
            ensures
                res@.len() == self@.len(),
                forall|i: int| 0 <= i < res@.len() ==> *(#[trigger] res@[i]) == self@[i],
            decreases *rest,
        {
            match rest {
                Cells::End => {
                    break;
                },
                Cells::Item(first, next) => {
                    proof {
                        assert(rest.seq()[0] == *first);
                        assert forall|i: int| 0 <= i < next.seq().len() implies #[trigger] next.seq()[i]
                            == self@[res@.len() + 1 + i] by {
                            assert(rest.seq()[i + 1] == next.seq()[i]);
                        }
                    }
                    res.push(first);
                    rest = &**next;
                },
            }
        }
        res
    }
}

impl<T> Clone for Items<T> {
    fn clone(&self) -> (res: Self)
        ensures
            res == *self,
    {
        Items { cells: Arc::clone(&self.cells) }
    }
}

/// A list holds what it was made from.
pub broadcast proof fn law_items_hold<T>(items: Seq<T>)
    ensures
        #[trigger] Items::of(items)@ == items,
    decreases items.len(),
{
    if items.len() > 0 {
        law_items_hold(items.drop_first());
        assert(Items::of(items)@ =~= items);
    } else {
        assert(Items::of(items)@ =~= items);
    }
}

} // verus!
