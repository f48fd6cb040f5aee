//! How the changes to a document show in the list of its pages.

use vstd::prelude::*;

use crate::document::{
    blank_page, count_value, empty_document, next_ref, next_refs, page_copy, pages_named,
    with_copies, with_kids, with_last_page, with_object, with_page, without_kid,
};
use crate::model::{dict_at, Obj, ObjectRef, Objects};
use crate::pages::{
    has_type, kids_of, page_list, page_tree_ends, pages_among, pages_root, pages_within,
    DocumentView,
};
use crate::tree::{
    lemma_among_concat, lemma_among_same, lemma_names_differ, lemma_new_kids, lemma_pages_of_kids,
};

verus! {

/// Whether the page tree of a document is in order: it is finite and starts at a
/// node of the type `Pages`, and no object and no kid has a number that was not
/// given out.
pub open spec fn is_sound(d: DocumentView) -> bool {
    &&& d.objects.dom().finite()
    &&& forall|r: ObjectRef| #[trigger]
        d.objects.contains_key(r) ==> r.object_number <= d.largest
    &&& page_tree_ends(d)
    &&& has_type(d.objects, pages_root(d), "/Pages"@)
    &&& forall|node: ObjectRef, i: int|
        #![trigger kids_of(d.objects, node)[i]]
        0 <= i < kids_of(d.objects, node).len() && kids_of(d.objects, node)[i] is Ref
            ==> kids_of(d.objects, node)[i]->Ref_0.object_number <= d.largest
    &&& d.root matches Some(Obj::Ref(catalog)) ==> catalog.object_number <= d.largest
}

/// Whether an object is the dictionary of a page.
pub open spec fn is_page(value: Obj) -> bool {
    match value {
        Obj::Dict(entries) => entries.get("/Type"@) == Some(Obj::Name("/Page"@)),
        _ => false,
    }
}

/// The kids of the page tree's root.
pub open spec fn root_kids(d: DocumentView) -> Seq<Obj> {
    kids_of(d.objects, pages_root(d))
}

/// Whether each kid of the page tree's root is a page.
pub open spec fn is_flat(d: DocumentView) -> bool {
    forall|i: int|
        #![trigger root_kids(d)[i]]
        0 <= i < root_kids(d).len() ==> root_kids(d)[i] is Ref && has_type(
            d.objects,
            root_kids(d)[i]->Ref_0,
            "/Page"@,
        )
}

/// A document with `page`, if there is one, as a new object.
spec fn with_stored(d: DocumentView, page: Option<Obj>) -> DocumentView {
    match page {
        Some(value) => with_object(d, next_ref(d), value),
        None => d,
    }
}

/// The number that `page` gets in `with_stored`.
spec fn stored_ref(d: DocumentView, page: Option<Obj>) -> Option<ObjectRef> {
    match page {
        Some(_) => Some(next_ref(d)),
        None => None,
    }
}

/// A document with `page`, if there is one, as a new object, and with other kids
/// below the root of the page tree.
spec fn with_root_kids(d: DocumentView, page: Option<Obj>, kids: Seq<Obj>) -> DocumentView {
    with_kids(with_stored(d, page), pages_root(d), dict_at(d.objects, pages_root(d))->0, kids)
}

/// Whether two documents hold the same objects, but for those under `a` and `b`.
pub open spec fn same_but_at(d: DocumentView, e: DocumentView, a: ObjectRef, b: ObjectRef) -> bool {
    forall|r: ObjectRef|
        r != a && r != b ==> #[trigger] e.objects.get(r) == d.objects.get(r)
}

/// Whether the kids of the page tree's root in `d` have the same pages in `e`.
pub open spec fn kids_keep_pages(d: DocumentView, e: DocumentView) -> bool {
    forall|i: int|
        #![trigger root_kids(d)[i]]
        0 <= i < root_kids(d).len() && root_kids(d)[i] is Ref ==> pages_within(
            e.objects,
            root_kids(d)[i]->Ref_0,
            e.objects.dom().len(),
        ) == pages_within(d.objects, root_kids(d)[i]->Ref_0, d.objects.dom().len())
}

/// A document stays in order when the root of its page tree is given other kids:
/// some that it had, and perhaps a new page.
proof fn lemma_with_root_kids(d: DocumentView, page: Option<Obj>, kids: Seq<Obj>)
    requires
        is_sound(d),
        page is Some ==> d.largest < u32::MAX && is_page(page->0),
        forall|i: int|
            #![trigger kids[i]]
            0 <= i < kids.len() ==> root_kids(d).contains(kids[i]) || (page is Some && kids[i]
                == Obj::Ref(next_ref(d))),
    ensures
        ({
            let e = with_root_kids(d, page, kids);
            &&& is_sound(e)
            &&& pages_root(e) == pages_root(d)
            &&& root_kids(e) == kids
            &&& kids_keep_pages(d, e)
            &&& page is Some ==> e.objects.get(next_ref(d)) == page
        }),
{
    lemma_names_differ();
    let e = with_root_kids(d, page, kids);
    let root = pages_root(d);
    let fresh = stored_ref(d, page);
    let entries = dict_at(d.objects, root)->0;
    assert(d.objects.contains_key(root));
    assert(dict_at(e.objects, root) == Some(
        entries.insert("/Kids"@, Obj::Array(kids)).insert("/Count"@, count_value(kids.len())),
    ));
    assert(kids_of(e.objects, root) == kids);
    assert(pages_root(e) == root);
    assert forall|r: ObjectRef| r != root && Some(r) != fresh implies #[trigger] dict_at(
        e.objects,
        r,
    ) == dict_at(d.objects, r) by {}
    if page is Some {
        assert(dict_at(e.objects, next_ref(d)) == Some(page->0->Dict_0));
        assert forall|node: ObjectRef, i: int|
            #![trigger kids_of(d.objects, node)[i]]
            0 <= i < kids_of(d.objects, node).len() implies kids_of(d.objects, node)[i] != Obj::Ref(
            next_ref(d),
        ) by {}
    }
    lemma_new_kids(d.objects, e.objects, root, fresh);
    assert forall|node: ObjectRef, i: int|
        #![trigger kids_of(e.objects, node)[i]]
        0 <= i < kids_of(e.objects, node).len() && kids_of(e.objects, node)[i] is Ref implies
        kids_of(e.objects, node)[i]->Ref_0.object_number <= e.largest by {
        if node == root {
            if root_kids(d).contains(kids[i]) {
                let j = choose|j: int| 0 <= j < root_kids(d).len() && root_kids(d)[j] == kids[i];
                assert(kids_of(d.objects, root)[j] == kids[i]);
            }
        } else if Some(node) != fresh {
            assert(dict_at(e.objects, node) == dict_at(d.objects, node));
            assert(kids_of(d.objects, node)[i] == kids_of(e.objects, node)[i]);
        }
    }
}

/// The pages of a document whose page tree is in order are those of the kids of
/// its root.
pub proof fn lemma_pages_by_kid(d: DocumentView)
    requires
        is_sound(d),
    ensures
        page_list(d) == pages_among(d.objects, root_kids(d), d.objects.dom().len()),
{
    lemma_pages_of_kids(d.objects, pages_root(d));
}

/// Kids that keep their pages keep them together.
proof fn lemma_some_kids_keep_pages(d: DocumentView, e: DocumentView, start: int, end: int)
    requires
        kids_keep_pages(d, e),
        0 <= start <= end <= root_kids(d).len(),
    ensures
        pages_among(e.objects, root_kids(d).subrange(start, end), e.objects.dom().len())
            == pages_among(d.objects, root_kids(d).subrange(start, end), d.objects.dom().len()),
{
    let kids = root_kids(d);
    let part = kids.subrange(start, end);
    assert forall|i: int| #![trigger part[i]] 0 <= i < part.len() && part[i] is Ref implies
        pages_within(e.objects, part[i]->Ref_0, e.objects.dom().len()) == pages_within(
        d.objects,
        part[i]->Ref_0,
        d.objects.dom().len(),
    ) by {
        assert(part[i] == kids[start + i]);
    }
    lemma_among_same(d.objects, e.objects, part, d.objects.dom().len(), e.objects.dom().len());
}

/// The pages of a list of items, split in two.
proof fn lemma_split(objects: Objects, items: Seq<Obj>, at: int, depth: nat)
    requires
        0 <= at <= items.len(),
    ensures
        pages_among(objects, items, depth) == pages_among(objects, items.take(at), depth)
            + pages_among(objects, items.skip(at), depth),
{
    assert(items =~= items.take(at) + items.skip(at));
    lemma_among_concat(objects, items.take(at), items.skip(at), depth);
}

/// The pages of a document with a page put in among the kids of its page tree's
/// root: those before the place, the new one and those behind it.
pub proof fn lemma_insert_page(d: DocumentView, page: Obj, index: nat)
    requires
        is_sound(d),
        d.largest < u32::MAX,
        is_page(page),
    ensures
        ({
            let e = with_page(d, pages_root(d), page, index);
            let kids = root_kids(d);
            let at = if index < kids.len() {
                index as int
            } else {
                kids.len() as int
            };
            let depth = d.objects.dom().len();
            &&& is_sound(e)
            &&& pages_root(e) == pages_root(d)
            &&& e.largest == d.largest + 1
            &&& e.objects.get(next_ref(d)) == Some(page)
            &&& same_but_at(d, e, pages_root(d), next_ref(d))
            &&& root_kids(e) == kids.insert(at, Obj::Ref(next_ref(d)))
            &&& kids_keep_pages(d, e)
            &&& page_list(d) == pages_among(d.objects, kids.take(at), depth) + pages_among(
                d.objects,
                kids.skip(at),
                depth,
            )
            &&& page_list(e) == pages_among(d.objects, kids.take(at), depth) + seq![next_ref(d)]
                + pages_among(d.objects, kids.skip(at), depth)
        }),
{
    let root = pages_root(d);
    let kids = root_kids(d);
    let at = if index < kids.len() {
        index as int
    } else {
        kids.len() as int
    };
    let r = next_ref(d);
    let longer = kids.insert(at, Obj::Ref(r));
    let e = with_root_kids(d, Some(page), longer);
    assert(d.objects.contains_key(root));
    assert(with_page(d, root, page, index) == e);
    assert forall|i: int| #![trigger longer[i]] 0 <= i < longer.len() implies kids.contains(
        longer[i],
    ) || longer[i] == Obj::Ref(r) by {
        if i < at {
            assert(longer[i] == kids[i]);
        } else if i > at {
            assert(longer[i] == kids[i - 1]);
        }
    }
    lemma_with_root_kids(d, Some(page), longer);
    lemma_pages_by_kid(d);
    lemma_pages_by_kid(e);
    let depth = d.objects.dom().len();
    let deep = e.objects.dom().len();
    lemma_split(d.objects, kids, at, depth);
    lemma_split(e.objects, longer, at, deep);
    lemma_split(e.objects, longer.skip(at), 1, deep);
    lemma_some_kids_keep_pages(d, e, 0, at);
    lemma_some_kids_keep_pages(d, e, at, kids.len() as int);
    assert(longer.take(at) =~= kids.subrange(0, at));
    assert(longer.skip(at).skip(1) =~= kids.subrange(at, kids.len() as int));
    assert(kids.take(at) =~= kids.subrange(0, at));
    assert(kids.skip(at) =~= kids.subrange(at, kids.len() as int));
    lemma_single_page(e.objects, longer.skip(at).take(1), r, deep);
    let left = pages_among(d.objects, kids.take(at), depth);
    let right = pages_among(d.objects, kids.skip(at), depth);
    assert(left + (seq![r] + right) =~= left + seq![r] + right);
}

/// The pages among one reference to a page.
proof fn lemma_single_page(objects: Objects, items: Seq<Obj>, r: ObjectRef, depth: nat)
    requires
        items.len() == 1,
        items[0] == Obj::Ref(r),
        has_type(objects, r, "/Page"@),
    ensures
        pages_among(objects, items, depth) == seq![r],
{
    assert(items.drop_last() =~= seq![]);
    assert(pages_among(objects, items.drop_last(), depth) =~= seq![]);
    assert(items.last() == Obj::Ref(r));
    assert(pages_within(objects, r, depth) == seq![r]);
    assert(pages_among(objects, items, depth) =~= seq![r]);
}

/// Adding a page appends it to the pages.
pub proof fn lemma_add_page(d: DocumentView, page: Obj)
    requires
        is_sound(d),
        d.largest < u32::MAX,
        is_page(page),
    ensures
        ({
            let e = with_last_page(d, pages_root(d), page);
            &&& is_sound(e)
            &&& pages_root(e) == pages_root(d)
            &&& e.largest == d.largest + 1
            &&& e.objects.get(next_ref(d)) == Some(page)
            &&& same_but_at(d, e, pages_root(d), next_ref(d))
            &&& page_list(e) == page_list(d).push(next_ref(d))
            &&& is_flat(d) ==> is_flat(e)
        }),
{
    let kids = root_kids(d);
    assert(d.objects.contains_key(pages_root(d)));
    lemma_insert_page(d, page, kids.len());
    assert(kids.take(kids.len() as int) =~= kids);
    assert(kids.skip(kids.len() as int) =~= seq![]);
    assert(pages_among(d.objects, seq![], d.objects.dom().len()) =~= seq![]);
    let e = with_last_page(d, pages_root(d), page);
    assert(page_list(e) =~= page_list(d).push(next_ref(d)));
    if is_flat(d) {
        lemma_insert_page_flat(d, page, kids.len());
    }
}

/// The pages of a document without a kid of its page tree's root: those before
/// it and those behind it. Without such a kid nothing changes.
pub proof fn lemma_remove_page(d: DocumentView, index: nat)
    requires
        is_sound(d),
    ensures
        is_sound(without_kid(d, index)),
        pages_root(without_kid(d, index)) == pages_root(d),
        same_but_at(d, without_kid(d, index), pages_root(d), pages_root(d)),
        index >= root_kids(d).len() ==> without_kid(d, index) == d,
        index < root_kids(d).len() ==> ({
            let e = without_kid(d, index);
            let kids = root_kids(d);
            let depth = d.objects.dom().len();
            &&& root_kids(e) == kids.remove(index as int)
            &&& kids_keep_pages(d, e)
            &&& page_list(e) == pages_among(d.objects, kids.take(index as int), depth)
                + pages_among(d.objects, kids.skip(index as int + 1), depth)
        }),
{
    let kids = root_kids(d);
    assert(d.objects.contains_key(pages_root(d)));
    if index < kids.len() {
        let at = index as int;
        let fewer = kids.remove(at);
        let e = with_root_kids(d, None, fewer);
        assert(without_kid(d, index) == e);
        assert forall|i: int| #![trigger fewer[i]] 0 <= i < fewer.len() implies kids.contains(
            fewer[i],
        ) by {
            if i < at {
                assert(fewer[i] == kids[i]);
            } else {
                assert(fewer[i] == kids[i + 1]);
            }
        }
        lemma_with_root_kids(d, None, fewer);
        lemma_pages_by_kid(e);
        lemma_split(e.objects, fewer, at, e.objects.dom().len());
        lemma_some_kids_keep_pages(d, e, 0, at);
        lemma_some_kids_keep_pages(d, e, at + 1, kids.len() as int);
        assert(fewer.take(at) =~= kids.subrange(0, at));
        assert(fewer.skip(at) =~= kids.subrange(at + 1, kids.len() as int));
        assert(kids.take(at) =~= kids.subrange(0, at));
        assert(kids.skip(at + 1) =~= kids.subrange(at + 1, kids.len() as int));
    }
}

/// Removing a page that was just inserted gives back the pages that there were.
pub proof fn lemma_remove_undoes_insert(d: DocumentView, page: Obj, index: nat)
    requires
        is_sound(d),
        d.largest < u32::MAX,
        is_page(page),
        index <= root_kids(d).len(),
    ensures
        page_list(without_kid(with_page(d, pages_root(d), page, index), index)) == page_list(d),
        root_kids(without_kid(with_page(d, pages_root(d), page, index), index)) == root_kids(d),
{
    let kids = root_kids(d);
    let at = index as int;
    let e = with_page(d, pages_root(d), page, index);
    lemma_insert_page(d, page, index);
    lemma_remove_page(e, index);
    lemma_some_kids_keep_pages(d, e, 0, at);
    lemma_some_kids_keep_pages(d, e, at, kids.len() as int);
    assert(root_kids(e).take(at) =~= kids.subrange(0, at));
    assert(root_kids(e).skip(at + 1) =~= kids.subrange(at, kids.len() as int));
    assert(kids.take(at) =~= kids.subrange(0, at));
    assert(kids.skip(at) =~= kids.subrange(at, kids.len() as int));
    assert(root_kids(e).remove(at) =~= kids);
}

/// In a flat page tree the pages are the kids of the root.
pub proof fn lemma_flat_pages(d: DocumentView)
    requires
        is_sound(d),
        is_flat(d),
    ensures
        page_list(d) == root_kids(d).map_values(|kid: Obj| kid->Ref_0),
{
    lemma_pages_by_kid(d);
    lemma_flat_items(d.objects, root_kids(d), d.objects.dom().len());
}

/// The pages among references to pages.
proof fn lemma_flat_items(objects: Objects, items: Seq<Obj>, depth: nat)
    requires
        forall|i: int|
            #![trigger items[i]]
            0 <= i < items.len() ==> items[i] is Ref && has_type(
                objects,
                items[i]->Ref_0,
                "/Page"@,
            ),
    ensures
        pages_among(objects, items, depth) == items.map_values(|kid: Obj| kid->Ref_0),
    decreases items.len(),
{
    let refs = items.map_values(|kid: Obj| kid->Ref_0);
    if items.len() == 0 {
        assert(pages_among(objects, items, depth) =~= refs);
    } else {
        let fewer = items.drop_last();
        assert forall|i: int| #![trigger fewer[i]] 0 <= i < fewer.len() implies fewer[i] is Ref
            && has_type(objects, fewer[i]->Ref_0, "/Page"@) by {
            assert(fewer[i] == items[i]);
        }
        lemma_flat_items(objects, fewer, depth);
        let last = items[items.len() - 1]->Ref_0;
        assert(items.last() == Obj::Ref(last));
        assert(pages_within(objects, last, depth) == seq![last]);
        assert(pages_among(objects, items, depth) =~= refs);
    }
}

/// In a flat page tree a page is inserted at its index, or behind the last page
/// if there are fewer, and the tree stays flat.
pub proof fn lemma_insert_page_flat(d: DocumentView, page: Obj, index: nat)
    requires
        is_sound(d),
        is_flat(d),
        d.largest < u32::MAX,
        is_page(page),
    ensures
        ({
            let e = with_page(d, pages_root(d), page, index);
            let pages = page_list(d);
            let at = if index < pages.len() {
                index as int
            } else {
                pages.len() as int
            };
            &&& is_flat(e)
            &&& page_list(e) == pages.insert(at, next_ref(d))
        }),
{
    let kids = root_kids(d);
    let e = with_page(d, pages_root(d), page, index);
    lemma_insert_page(d, page, index);
    lemma_flat_pages(d);
    let at = if index < kids.len() {
        index as int
    } else {
        kids.len() as int
    };
    let longer = root_kids(e);
    assert(d.objects.contains_key(pages_root(d)));
    assert forall|i: int| #![trigger root_kids(e)[i]] 0 <= i < root_kids(e).len() implies root_kids(
        e,
    )[i] is Ref && has_type(e.objects, root_kids(e)[i]->Ref_0, "/Page"@) by {
        if i != at {
            let j = if i < at {
                i
            } else {
                i - 1
            };
            assert(longer[i] == kids[j]);
            lemma_type_kept(d, page, index, kids[j]->Ref_0);
        }
    }
    lemma_flat_pages(e);
    assert(page_list(e) =~= page_list(d).insert(at, next_ref(d)));
}

/// A page of a document whose page tree gets a new page stays a page.
proof fn lemma_type_kept(d: DocumentView, page: Obj, index: nat, r: ObjectRef)
    requires
        is_sound(d),
        d.largest < u32::MAX,
        has_type(d.objects, r, "/Page"@),
    ensures
        has_type(with_page(d, pages_root(d), page, index).objects, r, "/Page"@),
{
    lemma_names_differ();
    assert(d.objects.contains_key(r));
    assert(d.objects.contains_key(pages_root(d)));
}

/// In a flat page tree the page at an index is removed, if there is one, and the
/// tree stays flat.
pub proof fn lemma_remove_page_flat(d: DocumentView, index: nat)
    requires
        is_sound(d),
        is_flat(d),
    ensures
        is_flat(without_kid(d, index)),
        page_list(without_kid(d, index)) == if index < page_list(d).len() {
            page_list(d).remove(index as int)
        } else {
            page_list(d)
        },
{
    lemma_names_differ();
    let kids = root_kids(d);
    let e = without_kid(d, index);
    lemma_remove_page(d, index);
    lemma_flat_pages(d);
    if index < kids.len() {
        let at = index as int;
        assert forall|i: int| #![trigger root_kids(e)[i]] 0 <= i < root_kids(e).len() implies
            root_kids(e)[i] is Ref && has_type(e.objects, root_kids(e)[i]->Ref_0, "/Page"@) by {
            let j = if i < at {
                i
            } else {
                i + 1
            };
            assert(root_kids(e)[i] == kids[j]);
            assert(kids[j]->Ref_0 != pages_root(d));
        }
        lemma_flat_pages(e);
        assert(page_list(e) =~= page_list(d).remove(at));
    }
}

/// What a document lists as its pages are pages.
pub proof fn lemma_listed_pages(d: DocumentView)
    ensures
        forall|i: int|
            0 <= i < page_list(d).len() ==> has_type(
                d.objects,
                #[trigger] page_list(d)[i],
                "/Page"@,
            ),
{
    lemma_pages_are_pages(d.objects, pages_root(d), d.objects.dom().len());
}

/// What is found at a node and below it are pages.
proof fn lemma_pages_are_pages(objects: Objects, node: ObjectRef, depth: nat)
    ensures
        forall|i: int|
            0 <= i < pages_within(objects, node, depth).len() ==> has_type(
                objects,
                #[trigger] pages_within(objects, node, depth)[i],
                "/Page"@,
            ),
    decreases depth, 0nat,
{
    let found = pages_within(objects, node, depth);
    if has_type(objects, node, "/Page"@) {
        assert(found == seq![node]);
    } else if depth > 0 {
        lemma_items_are_pages(objects, kids_of(objects, node), (depth - 1) as nat);
        assert(found == pages_among(objects, kids_of(objects, node), (depth - 1) as nat));
    }
}

/// What is found among items and below them are pages.
proof fn lemma_items_are_pages(objects: Objects, items: Seq<Obj>, depth: nat)
    ensures
        forall|i: int|
            0 <= i < pages_among(objects, items, depth).len() ==> has_type(
                objects,
                #[trigger] pages_among(objects, items, depth)[i],
                "/Page"@,
            ),
    decreases depth, items.len() + 1,
{
    let found = pages_among(objects, items, depth);
    if items.len() > 0 {
        let before = pages_among(objects, items.drop_last(), depth);
        lemma_items_are_pages(objects, items.drop_last(), depth);
        if let Obj::Ref(kid) = items.last() {
            let last = pages_within(objects, kid, depth);
            lemma_pages_are_pages(objects, kid, depth);
            assert forall|i: int| 0 <= i < found.len() implies has_type(
                objects,
                #[trigger] found[i],
                "/Page"@,
            ) by {
                if i < before.len() {
                    assert(found[i] == before[i]);
                } else {
                    assert(found[i] == last[i - before.len()]);
                }
            }
        } else {
            assert(found == before);
        }
    }
}

/// The pages of `src` at those of `indices` that are indices of pages.
pub open spec fn pages_chosen(src: DocumentView, indices: Seq<usize>) -> Seq<ObjectRef>
    decreases indices.len(),
{
    if indices.len() == 0 {
        seq![]
    } else {
        let before = pages_chosen(src, indices.drop_last());
        if indices.last() < page_list(src).len() {
            before.push(page_list(src)[indices.last() as int])
        } else {
            before
        }
    }
}

/// Copying pages appends one page for each index of a page, in the order of the
/// indices. Each is the page at its index with another parent.
pub proof fn lemma_copy_pages(d: DocumentView, src: DocumentView, indices: Seq<usize>)
    requires
        is_sound(d),
        d.largest + pages_named(src, indices) <= u32::MAX,
    ensures
        ({
            let e = with_copies(d, src, indices);
            let chosen = pages_chosen(src, indices);
            let refs = next_refs(d, chosen.len());
            &&& chosen.len() == pages_named(src, indices)
            &&& is_sound(e)
            &&& pages_root(e) == pages_root(d)
            &&& e.largest == d.largest + chosen.len()
            &&& page_list(e) == page_list(d) + refs
            &&& is_flat(d) ==> is_flat(e)
            &&& forall|k: int|
                #![trigger refs[k]]
                0 <= k < chosen.len() ==> e.objects.get(refs[k]) == Some(
                    page_copy(src.objects[chosen[k]], pages_root(d)),
                )
        }),
    decreases indices.len(),
{
    if indices.len() == 0 {
        assert(page_list(d) + next_refs(d, 0) =~= page_list(d));
    } else {
        let fewer = indices.drop_last();
        let index = indices.last();
        let before = with_copies(d, src, fewer);
        let chosen = pages_chosen(src, fewer);
        lemma_copy_pages(d, src, fewer);
        if index < page_list(src).len() {
            let from = page_list(src)[index as int];
            let page = page_copy(src.objects[from], pages_root(d));
            lemma_names_differ();
            lemma_listed_pages(src);
            assert(has_type(src.objects, from, "/Page"@));
            assert(is_page(page));
            lemma_add_page(before, page);
            let e = with_copies(d, src, indices);
            assert(e == with_last_page(before, pages_root(d), page));
            let refs = next_refs(d, chosen.len());
            let more = next_refs(d, chosen.len() + 1);
            assert(more =~= refs.push(next_ref(before)));
            assert(page_list(e) =~= page_list(d) + more);
            assert(d.objects.contains_key(pages_root(d)));
            assert forall|k: int| #![trigger more[k]] 0 <= k < chosen.len() + 1 implies e.objects.get(
                more[k],
            ) == Some(page_copy(src.objects[pages_chosen(src, indices)[k]], pages_root(d))) by {
                if k < chosen.len() {
                    assert(more[k] == refs[k]);
                    assert(more[k] != pages_root(d));
                    assert(more[k] != next_ref(before));
                }
            }
        }
    }
}

/// A blank page is a page.
pub proof fn lemma_blank_page(parent: ObjectRef, width: u32, height: u32)
    ensures
        is_page(blank_page(parent, width, height)),
{
    lemma_names_differ();
}

/// A new document is in order and has no pages.
pub proof fn lemma_empty_document()
    ensures
        is_sound(empty_document()),
        is_flat(empty_document()),
        page_list(empty_document()) == Seq::<ObjectRef>::empty(),
{
    lemma_names_differ();
    reveal_strlit("/Catalog");
    reveal_strlit("/Pages");
    let d = empty_document();
    let pages = ObjectRef { object_number: 1, generation_number: 0 };
    let catalog = ObjectRef { object_number: 2, generation_number: 0 };
    assert("/Catalog"@.len() == 8 && "/Pages"@.len() == 6);
    assert(pages_root(d) == pages);
    assert(kids_of(d.objects, pages) =~= seq![]);
    assert(kids_of(d.objects, catalog) =~= seq![]);
    assert forall|node: ObjectRef| #[trigger] kids_of(d.objects, node) =~= seq![] by {
        if node != pages && node != catalog {
            assert(!d.objects.contains_key(node));
        }
    }
    lemma_pages_by_kid(d);
}

/// Each index of a page counts once, as often as it is given, wherever the list is
/// cut; an index without a page does not count.
pub proof fn lemma_pages_counted(
    src: DocumentView,
    first: Seq<usize>,
    second: Seq<usize>,
    index: usize,
)
    ensures
        pages_named(src, first + second) == pages_named(src, first) + pages_named(src, second),
        index < page_list(src).len() ==> pages_named(src, seq![index]) == 1,
        index >= page_list(src).len() ==> pages_named(src, seq![index]) == 0,
    decreases second.len(),
{
    let one = seq![index];
    assert(one.drop_last() =~= seq![]);
    assert(pages_named(src, seq![]) == 0);
    assert(one.last() == index);
    if second.len() == 0 {
        assert(first + second =~= first);
    } else {
        lemma_pages_counted(src, first, second.drop_last(), index);
        assert((first + second).drop_last() =~= first + second.drop_last());
        assert((first + second).last() == second.last());
    }
}

} // verus!
