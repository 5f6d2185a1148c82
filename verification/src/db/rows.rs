//! Reading rows, one at a time or all of a listing.

use vstd::prelude::*;

use crate::error::{AppError, ErrorView};

verus! {

/// A row of a table.
pub trait Row: Sized {
    /// What a row is read as.
    type Item: View;

    /// What the row means.
    spec fn meaning(&self) -> Result<<Self::Item as View>::V, ErrorView>;

    /// An item is stored as this row.
    spec fn stores(&self, item: <Self::Item as View>::V) -> bool;

    /// Reads the row. An item is read back from the row that it is stored as.
    fn read(&self) -> (r: Result<Self::Item, AppError>)
        ensures
            outcome(r) == self.meaning(),
            forall|item: <Self::Item as View>::V| #[trigger]
                self.stores(item) ==> self.meaning() == Ok::<
                    <Self::Item as View>::V,
                    ErrorView,
                >(item),
    ;
}

/// The outcome of reading a row, with its texts as characters.
pub open spec fn outcome<T: View>(r: Result<T, AppError>) -> Result<T::V, ErrorView> {
    match r {
        Ok(item) => Ok(item@),
        Err(e) => Err(e@),
    }
}

/// The items of a list, with their texts as characters.
pub open spec fn views<T: View>(items: Seq<T>) -> Seq<T::V> {
    items.map_values(|item: T| item@)
}

/// The outcome of reading a listing, with its texts as characters.
pub open spec fn list_outcome<T: View>(r: Result<Vec<T>, AppError>) -> Result<
    Seq<T::V>,
    ErrorView,
> {
    match r {
        Ok(items) => Ok(views(items@)),
        Err(e) => Err(e@),
    }
}

/// What a listing means: the items in order, or the error of the first row that cannot
/// be read.
pub open spec fn all_of<R: Row>(rows: Seq<R>) -> Result<Seq<<R::Item as View>::V>, ErrorView>
    decreases rows.len(),
{
    if rows.len() == 0 {
        Ok(Seq::empty())
    } else {
        match all_of(rows.drop_last()) {
            Err(e) => Err(e),
            Ok(before) => match rows.last().meaning() {
                Err(e) => Err(e),
                Ok(item) => Ok(before.push(item)),
            },
        }
    }
}

/// A list of items is stored as these rows, one by one.
pub open spec fn store_all<R: Row>(rows: Seq<R>, items: Seq<<R::Item as View>::V>) -> bool {
    &&& rows.len() == items.len()
    &&& forall|i: int| 0 <= i < rows.len() ==> (#[trigger] rows[i]).stores(items[i])
}

/// An error among the first rows is the error of all.
proof fn lemma_first_error<R: Row>(rows: Seq<R>, n: int)
    requires
        0 <= n <= rows.len(),
        all_of(rows.take(n)) is Err,
    ensures
        all_of(rows) == all_of(rows.take(n)),
    decreases rows.len(),
{
    if n < rows.len() {
        assert(rows.drop_last().take(n) =~= rows.take(n));
        lemma_first_error(rows.drop_last(), n);
        assert(all_of(rows.drop_last()) is Err);
    } else {
        assert(rows.take(n) =~= rows);
    }
}

/// Rows that can all be read mean what each of them means.
proof fn lemma_all_read<R: Row>(rows: Seq<R>, items: Seq<<R::Item as View>::V>)
    requires
        rows.len() == items.len(),
        forall|i: int|
            0 <= i < rows.len() ==> (#[trigger] rows[i]).meaning() == Ok::<
                <R::Item as View>::V,
                ErrorView,
            >(items[i]),
    ensures
        all_of(rows) == Ok::<Seq<<R::Item as View>::V>, ErrorView>(items),
    decreases rows.len(),
{
    if rows.len() > 0 {
        let front = rows.drop_last();
        let before = items.drop_last();
        assert forall|i: int| 0 <= i < front.len() implies (#[trigger] front[i]).meaning() == Ok::<
            <R::Item as View>::V,
            ErrorView,
        >(before[i]) by {
            assert(front[i] == rows[i]);
        }
        lemma_all_read(front, before);
        assert(rows[rows.len() - 1] == rows.last());
        assert(before.push(items.last()) =~= items);
    } else {
        assert(items =~= Seq::empty());
    }
}

/// Reads the rows of a listing. Items are read back from the rows that they are stored
/// as, in order.
pub fn read_all<R: Row>(rows: &Vec<R>) -> (r: Result<Vec<R::Item>, AppError>)
    ensures
        list_outcome(r) == all_of(rows@),
        forall|items: Seq<<R::Item as View>::V>| #[trigger]
            store_all(rows@, items) ==> list_outcome(r) == Ok::<
                Seq<<R::Item as View>::V>,
                ErrorView,
            >(items),
{
    let mut out: Vec<R::Item> = Vec::new();
    let mut i: usize = 0;
    assert(rows@.take(0) =~= Seq::<R>::empty());
    assert(views(out@) =~= Seq::empty());
    while i < rows.len()
        invariant
            i <= rows@.len(),
            all_of(rows@.take(i as int)) == Ok::<Seq<<R::Item as View>::V>, ErrorView>(views(out@)),
            forall|j: int, item: <R::Item as View>::V|
                0 <= j < i && #[trigger] rows@[j].stores(item) ==> rows@[j].meaning() == Ok::<
                    <R::Item as View>::V,
                    ErrorView,
                >(item),
        decreases rows@.len() - i,
    {
        assert(rows@.take(i + 1).drop_last() =~= rows@.take(i as int));
        match rows[i].read() {
            Ok(item) => {
                let ghost before = out@;
                out.push(item);
                assert(views(out@) =~= views(before).push(item@));
            },
            Err(e) => {
                proof {
                    lemma_first_error(rows@, i + 1);
                    assert forall|items: Seq<<R::Item as View>::V>| #[trigger]
                        store_all(rows@, items) implies false by {
                        assert(rows@[i as int].stores(items[i as int]));
                    }
                }
                return Err(e);
            },
        }
        i = i + 1;
    }
    assert(rows@.take(rows@.len() as int) =~= rows@);
    proof {
        assert forall|items: Seq<<R::Item as View>::V>| #[trigger]
            store_all(rows@, items) implies all_of(rows@) == Ok::<
            Seq<<R::Item as View>::V>,
            ErrorView,
        >(items) by {
            assert forall|j: int| 0 <= j < rows@.len() implies (#[trigger] rows@[j]).meaning()
                == Ok::<<R::Item as View>::V, ErrorView>(items[j]) by {
                assert(rows@[j].stores(items[j]));
            }
            lemma_all_read(rows@, items);
        }
    }
    Ok(out)
}

/// A listing can be read exactly where each of its rows can. It is then the items of the
/// rows, one for one and in their order; else it is the error of the first row that cannot
/// be read.
pub proof fn law_listing_reads_each<R: Row>(rows: Seq<R>)
    ensures
        match all_of(rows) {
            Ok(items) => items.len() == rows.len() && forall|i: int|
                0 <= i < rows.len() ==> (#[trigger] rows[i]).meaning() == Ok::<
                    <R::Item as View>::V,
                    ErrorView,
                >(items[i]),
            Err(e) => exists|i: int|
                0 <= i < rows.len() && (#[trigger] rows[i]).meaning() == Err::<
                    <R::Item as View>::V,
                    ErrorView,
                >(e) && forall|j: int| 0 <= j < i ==> (#[trigger] rows[j]).meaning() is Ok,
        },
    decreases rows.len(),
{
    if rows.len() > 0 {
        let front = rows.drop_last();
        let n = front.len() as int;
        law_listing_reads_each(front);
        assert(rows[n] == rows.last());
        match all_of(front) {
            Err(e) => {
                let i = choose|i: int|
                    0 <= i < front.len() && (#[trigger] front[i]).meaning() == Err::<
                        <R::Item as View>::V,
                        ErrorView,
                    >(e) && forall|j: int| 0 <= j < i ==> (#[trigger] front[j]).meaning() is Ok;
                assert(rows[i] == front[i]);
                assert forall|j: int| 0 <= j < i implies (#[trigger] rows[j]).meaning() is Ok by {
                    assert(front[j] == rows[j]);
                }
            },
            Ok(before) => {
                assert forall|j: int| 0 <= j < n implies (#[trigger] rows[j]).meaning() == Ok::<
                    <R::Item as View>::V,
                    ErrorView,
                >(before[j]) by {
                    assert(front[j] == rows[j]);
                }
                match rows.last().meaning() {
                    Ok(item) => {
                        assert(all_of(rows) == Ok::<Seq<<R::Item as View>::V>, ErrorView>(
                            before.push(item),
                        ));
                    },
                    Err(e) => {
                        assert(rows[n].meaning() == Err::<<R::Item as View>::V, ErrorView>(e));
                    },
                }
            },
        }
    }
}

} // verus!
