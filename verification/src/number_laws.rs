//! How the changes to a document number its objects.

use vstd::prelude::*;

use crate::document::{
    copies_have_numbers, empty_document, info_has_number, next_ref, numbers_distinct, page_copy, pages_named,
    with_copies, with_info_dict, with_info_text, with_last_page, with_object, with_page,
    without_kid,
};
use crate::model::{dict_at, Obj, ObjectRef};
use crate::pages::{page_list, pages_root, DocumentView};

verus! {

/// Whether each object of a document has a number of its own that was given out.
/// Such a document is saved as the same file each time.
pub open spec fn is_numbered(d: DocumentView) -> bool {
    &&& numbers_distinct(d.objects)
    &&& forall|r: ObjectRef| #[trigger]
        d.objects.contains_key(r) ==> r.object_number <= d.largest
}

/// An object in the place of another, or under the next number.
proof fn lemma_with_object_numbered(d: DocumentView, r: ObjectRef, value: Obj)
    requires
        is_numbered(d),
        d.objects.contains_key(r) || (r == next_ref(d) && d.largest < u32::MAX),
    ensures
        is_numbered(with_object(d, r, value)),
{
    let e = with_object(d, r, value);
    assert forall|a: ObjectRef, b: ObjectRef|
        #![trigger e.objects.contains_key(a), e.objects.contains_key(b)]
        e.objects.contains_key(a) && e.objects.contains_key(b) && a.object_number
            == b.object_number implies a == b by {
        if a != r {
            assert(d.objects.contains_key(a));
        }
        if b != r {
            assert(d.objects.contains_key(b));
        }
    }
    assert forall|a: ObjectRef| #[trigger] e.objects.contains_key(a) implies a.object_number
        <= e.largest by {
        if a != r {
            assert(d.objects.contains_key(a));
        }
    }
}

/// A new document has its objects numbered.
pub proof fn lemma_empty_numbered()
    ensures
        is_numbered(empty_document()),
{
}

/// A new page gets a number of its own.
pub proof fn lemma_insert_numbered(d: DocumentView, root: ObjectRef, page: Obj, index: nat)
    requires
        is_numbered(d),
        d.largest < u32::MAX,
    ensures
        is_numbered(with_page(d, root, page, index)),
        is_numbered(with_last_page(d, root, page)),
        with_page(d, root, page, index).largest == d.largest + 1,
        with_last_page(d, root, page).largest == d.largest + 1,
{
    lemma_with_object_numbered(d, next_ref(d), page);
    let stored = with_object(d, next_ref(d), page);
    if let Some(entries) = dict_at(stored.objects, root) {
        assert(stored.objects.contains_key(root));
        lemma_with_object_numbered(
            stored,
            root,
            with_page(d, root, page, index).objects[root],
        );
        lemma_with_object_numbered(
            stored,
            root,
            with_last_page(d, root, page).objects[root],
        );
    }
}

/// Removing a page leaves the numbers.
pub proof fn lemma_remove_numbered(d: DocumentView, index: nat)
    requires
        is_numbered(d),
    ensures
        is_numbered(without_kid(d, index)),
        without_kid(d, index).objects.dom() == d.objects.dom(),
{
    let root = pages_root(d);
    if dict_at(d.objects, root) is Some {
        assert(d.objects.contains_key(root));
        lemma_with_object_numbered(d, root, without_kid(d, index).objects[root]);
        assert(without_kid(d, index).objects.dom() =~= d.objects.dom());
    }
}

/// Each copy of a page gets a number of its own.
pub proof fn lemma_copies_numbered(d: DocumentView, src: DocumentView, indices: Seq<usize>)
    requires
        is_numbered(d),
        d.largest + pages_named(src, indices) <= u32::MAX,
    ensures
        is_numbered(with_copies(d, src, indices)),
        with_copies(d, src, indices).largest == d.largest + pages_named(src, indices),
    decreases indices.len(),
{
    if indices.len() > 0 {
        let fewer = indices.drop_last();
        lemma_copies_numbered(d, src, fewer);
        if indices.last() < page_list(src).len() {
            let before = with_copies(d, src, fewer);
            let page = page_copy(
                src.objects[page_list(src)[indices.last() as int]],
                pages_root(d),
            );
            lemma_insert_numbered(before, pages_root(d), page, 0);
        }
    }
}

/// Where a document has numbers for copies of pages, the copies go no further than
/// these numbers.
pub proof fn lemma_numbers_of_copies(d: DocumentView, src: DocumentView, indices: Seq<usize>)
    requires
        copies_have_numbers(d, pages_named(src, indices)),
    ensures
        ({
            let e = with_copies(d, src, indices);
            let count = pages_named(src, indices);
            let root = pages_root(d);
            &&& count == 0 ==> e == d
            &&& e.largest >= d.largest
            &&& e.largest <= d.largest + count || (dict_at(d.objects, root) is Some && e.largest
                <= root.object_number + count - 1)
            &&& count > 0 && dict_at(e.objects, root) is Some ==> root.object_number <= e.largest
            &&& dict_at(d.objects, root) is None && dict_at(e.objects, root) is Some
                ==> root.object_number <= e.largest
        }),
    decreases indices.len(),
{
    if indices.len() > 0 {
        let fewer = indices.drop_last();
        lemma_numbers_of_copies(d, src, fewer);
    }
}

/// Setting information leaves each object with a number of its own.
pub proof fn lemma_info_numbered(d: DocumentView, key: Seq<char>, text: Seq<char>)
    requires
        is_numbered(d),
        info_has_number(d),
    ensures
        is_numbered(with_info_text(d, key, text)),
{
    let ready = with_info_dict(d);
    if !(d.info matches Some(Obj::Ref(_))) {
        lemma_with_object_numbered(d, next_ref(d), Obj::Dict(Map::empty()));
    }
    assert(is_numbered(ready));
    if let Some(Obj::Ref(r)) = ready.info {
        if dict_at(ready.objects, r) is Some {
            assert(ready.objects.contains_key(r));
            lemma_with_object_numbered(ready, r, with_info_text(d, key, text).objects[r]);
        }
    }
}

/// Where each object has a number that was given out, there is room for copies of
/// pages exactly if there are as many numbers left.
pub proof fn lemma_room_for_copies(d: DocumentView, count: nat)
    requires
        forall|r: ObjectRef| #[trigger]
            d.objects.contains_key(r) ==> r.object_number <= d.largest,
    ensures
        copies_have_numbers(d, count) <==> d.largest + count <= u32::MAX,
{
    if dict_at(d.objects, pages_root(d)) is Some {
        assert(d.objects.contains_key(pages_root(d)));
    }
}

/// Where the root of the page tree has a number beyond those given out, the first
/// copy takes the next number, and the others those behind the root.
pub proof fn lemma_room_behind_the_root(d: DocumentView, count: nat)
    requires
        d.objects.contains_key(pages_root(d)),
        d.objects[pages_root(d)] is Dict,
        pages_root(d).object_number > d.largest,
    ensures
        count > 0 ==> (copies_have_numbers(d, count) <==> pages_root(d).object_number + count - 1
            <= u32::MAX),
        copies_have_numbers(d, 0),
{
}

/// Information can be set where there is an information dictionary to refer to, or
/// a number for a new one.
pub proof fn lemma_room_for_info(d: DocumentView)
    ensures
        d.info matches Some(Obj::Ref(_)) ==> info_has_number(d),
        !(d.info matches Some(Obj::Ref(_))) ==> (info_has_number(d) <==> d.largest < u32::MAX),
{
}

} // verus!
