//! What setting information in a document has to do with the rest of it.

use vstd::prelude::*;

use crate::document::{
    copies_have_numbers, info_has_number, info_text, info_value, page_copy, pages_named, with_copies, with_info_dict,
    with_info_text, with_last_page, with_page, without_kid,
};
use crate::model::{dict_at, Obj, ObjectRef, Objects};
use crate::number_laws::lemma_numbers_of_copies;
use crate::page_laws::{is_flat, is_sound, root_kids};
use crate::pages::{
    ends_within, has_type, kids_of, lemma_depth_at_most_objects, page_list, pages_root,
    pages_within, DocumentView,
};
use crate::tree::{lemma_among_same, lemma_pages_stable};

verus! {

/// Whether the trailer of a document refers to something that is no dictionary,
/// so that the document has no place for information.
pub open spec fn info_is_lost(d: DocumentView) -> bool {
    d.info matches Some(Obj::Ref(r)) && dict_at(d.objects, r) is None
}

/// A text that was set is the text that is read.
pub proof fn lemma_info_reads_back(d: DocumentView, key: Seq<char>, text: Seq<char>)
    requires
        info_has_number(d),
        !info_is_lost(d),
    ensures
        info_text(with_info_text(d, key, text), key) == Some(text),
{
}

/// Of two texts set under one key the second stays, as if it had been set alone.
pub proof fn lemma_info_overwritten(
    d: DocumentView,
    key: Seq<char>,
    first: Seq<char>,
    second: Seq<char>,
)
    requires
        info_has_number(d),
    ensures
        with_info_text(with_info_text(d, key, first), key, second) == with_info_text(
            d,
            key,
            second,
        ),
{
    let ready = with_info_dict(d);
    if let Some(Obj::Ref(r)) = ready.info {
        if let Some(entries) = dict_at(ready.objects, r) {
            assert(entries.insert(key, Obj::Text(first)).insert(key, Obj::Text(second))
                =~= entries.insert(key, Obj::Text(second)));
            assert(with_info_text(with_info_text(d, key, first), key, second) =~= with_info_text(
                d,
                key,
                second,
            ));
        }
    }
}

/// Setting a text leaves what stands under the other keys, and whether the
/// document is encrypted.
pub proof fn lemma_info_other_keys(
    d: DocumentView,
    key: Seq<char>,
    text: Seq<char>,
    other: Seq<char>,
)
    requires
        info_has_number(d),
        other != key,
    ensures
        info_value(with_info_text(d, key, text), other) == info_value(d, other),
        with_info_text(d, key, text).encrypted == d.encrypted,
{
}

/// Setting a text leaves the pages.
pub proof fn lemma_info_keeps_pages(d: DocumentView, key: Seq<char>, text: Seq<char>)
    requires
        is_sound(d),
        info_has_number(d),
        key != "/Type"@,
        key != "/Kids"@,
        key != "/Pages"@,
    ensures
        is_sound(with_info_text(d, key, text)),
        page_list(with_info_text(d, key, text)) == page_list(d),
        is_flat(d) ==> is_flat(with_info_text(d, key, text)),
{
    let e = with_info_text(d, key, text);
    assert forall|r: ObjectRef, name: Seq<char>| #[trigger]
        has_type(e.objects, r, name) == has_type(d.objects, r, name) by {
        lemma_info_same_node(d, key, text, r);
    }
    assert forall|r: ObjectRef| #[trigger] kids_of(e.objects, r) == kids_of(d.objects, r) by {
        lemma_info_same_node(d, key, text, r);
    }
    assert(pages_root(e) == pages_root(d)) by {
        if let Some(Obj::Ref(catalog)) = d.root {
            lemma_info_same_node(d, key, text, catalog);
        }
    }
    let root = pages_root(d);
    let depth = d.objects.dom().len();
    let deep = e.objects.dom().len();
    lemma_same_tree(d.objects, e.objects, root, depth);
    lemma_depth_at_most_objects(e.objects, root, depth);
    lemma_pages_stable(e.objects, root, depth, deep);
    if is_flat(d) {
        assert forall|i: int| #![trigger root_kids(e)[i]] 0 <= i < root_kids(e).len() implies
            root_kids(e)[i] is Ref && has_type(e.objects, root_kids(e)[i]->Ref_0, "/Page"@) by {
            assert(root_kids(d)[i] == root_kids(e)[i]);
        }
    }
}

/// What the page tree reads of an object stays when a text is set.
proof fn lemma_info_same_node(d: DocumentView, key: Seq<char>, text: Seq<char>, r: ObjectRef)
    requires
        is_sound(d),
        info_has_number(d),
        key != "/Type"@,
        key != "/Kids"@,
        key != "/Pages"@,
    ensures
        ({
            let e = with_info_text(d, key, text);
            &&& forall|name: Seq<char>| #[trigger]
                has_type(e.objects, r, name) == has_type(d.objects, r, name)
            &&& kids_of(e.objects, r) == kids_of(d.objects, r)
            &&& r.object_number <= d.largest ==> match (
                dict_at(e.objects, r),
                dict_at(d.objects, r),
            ) {
                (Some(new), Some(old_entries)) => new.get("/Pages"@) == old_entries.get("/Pages"@),
                (None, None) => true,
                _ => false,
            }
        }),
{
    let e = with_info_text(d, key, text);
    if r.object_number > d.largest {
        assert(!d.objects.contains_key(r));
    }
    assert(kids_of(e.objects, r) =~= kids_of(d.objects, r));
}

/// Two documents in which the nodes of the page tree look the same have the same
/// tree.
proof fn lemma_same_tree(before: Objects, after: Objects, node: ObjectRef, depth: nat)
    requires
        forall|r: ObjectRef, name: Seq<char>| #[trigger]
            has_type(after, r, name) == has_type(before, r, name),
        forall|r: ObjectRef| #[trigger] kids_of(after, r) == kids_of(before, r),
    ensures
        ends_within(after, node, depth) == ends_within(before, node, depth),
        pages_within(after, node, depth) == pages_within(before, node, depth),
    decreases depth,
{
    let kids = kids_of(before, node);
    assert(kids_of(after, node) == kids);
    if depth > 0 {
        let less = (depth - 1) as nat;
        assert forall|i: int| #![trigger kids[i]] 0 <= i < kids.len() && kids[i] is Ref implies
            ends_within(after, kids[i]->Ref_0, less) == ends_within(before, kids[i]->Ref_0, less)
            && pages_within(after, kids[i]->Ref_0, less) == pages_within(
            before,
            kids[i]->Ref_0,
            less,
        ) by {
            lemma_same_tree(before, after, kids[i]->Ref_0, less);
        }
        lemma_among_same(before, after, kids, less, less);
    }
    assert(ends_within(after, node, depth) == ends_within(before, node, depth)) by {
        if ends_within(before, node, depth) {
            assert forall|i: int|
                #![trigger kids_of(after, node)[i]]
                0 <= i < kids_of(after, node).len() && kids_of(after, node)[i] is Ref implies depth
                > 0 && ends_within(after, kids_of(after, node)[i]->Ref_0, (depth - 1) as nat) by {
                assert(kids_of(before, node)[i] is Ref);
            }
        }
        if ends_within(after, node, depth) {
            assert forall|i: int|
                #![trigger kids_of(before, node)[i]]
                0 <= i < kids_of(before, node).len() && kids_of(before, node)[i] is Ref implies depth
                > 0 && ends_within(before, kids_of(before, node)[i]->Ref_0, (depth - 1) as nat) by {
                assert(kids_of(after, node)[i] is Ref);
            }
        }
    }
}

/// Whether the trailer's reference to the information dictionary, if there is
/// one, has a number that was given out.
pub open spec fn info_is_numbered(d: DocumentView) -> bool {
    d.info matches Some(Obj::Ref(r)) ==> r.object_number <= d.largest
}

/// Whether `e` has the information of `d`, under keys that a page tree does not
/// use.
pub open spec fn keeps_info(d: DocumentView, e: DocumentView) -> bool {
    info_is_numbered(d) ==> {
        &&& info_is_numbered(e)
        &&& forall|key: Seq<char>|
            key != "/Kids"@ && key != "/Count"@ ==> #[trigger] info_value(e, key) == info_value(
                d,
                key,
            )
    }
}

/// A new page leaves the information.
pub proof fn lemma_insert_keeps_info(d: DocumentView, root: ObjectRef, page: Obj, index: nat)
    requires
        d.largest < u32::MAX,
    ensures
        keeps_info(d, with_page(d, root, page, index)),
        keeps_info(d, with_last_page(d, root, page)),
{
}

/// Removing a page leaves the information.
pub proof fn lemma_remove_keeps_info(d: DocumentView, index: nat)
    ensures
        keeps_info(d, without_kid(d, index)),
{
}

/// Copying pages leaves the information.
pub proof fn lemma_copies_keep_info(d: DocumentView, src: DocumentView, indices: Seq<usize>)
    requires
        copies_have_numbers(d, pages_named(src, indices)),
    ensures
        keeps_info(d, with_copies(d, src, indices)),
    decreases indices.len(),
{
    if indices.len() > 0 {
        let fewer = indices.drop_last();
        let before = with_copies(d, src, fewer);
        lemma_copies_keep_info(d, src, fewer);
        lemma_numbers_of_copies(d, src, fewer);
        if indices.last() < page_list(src).len() {
            let page = page_copy(
                src.objects[page_list(src)[indices.last() as int]],
                pages_root(d),
            );
            lemma_insert_keeps_info(before, pages_root(d), page, 0);
        }
    }
}

/// Whether `key` is one that this library sets.
pub open spec fn is_info_key(key: Seq<char>) -> bool {
    key == "/Title"@ || key == "/Author"@ || key == "/Subject"@ || key == "/Keywords"@ || key
        == "/Creator"@ || key == "/Producer"@
}

/// No key of the information is one of the page tree.
pub proof fn lemma_info_keys_differ(key: Seq<char>)
    requires
        is_info_key(key),
    ensures
        key != "/Type"@,
        key != "/Kids"@,
        key != "/Count"@,
        key != "/Pages"@,
{
    reveal_strlit("/Title");
    reveal_strlit("/Author");
    reveal_strlit("/Subject");
    reveal_strlit("/Keywords");
    reveal_strlit("/Creator");
    reveal_strlit("/Producer");
    reveal_strlit("/Type");
    reveal_strlit("/Kids");
    reveal_strlit("/Count");
    reveal_strlit("/Pages");
    assert(key.len() >= 6);
    assert("/Type"@.len() == 5 && "/Kids"@.len() == 5);
    assert(key[1] == 'T' || key[1] == 'A' || key[1] == 'S' || key[1] == 'K' || key[1] == 'C'
        || key[1] == 'P');
    assert("/Count"@.len() == 6 && "/Count"@[1] == 'C' && "/Creator"@.len() == 8);
    assert("/Pages"@.len() == 6 && "/Pages"@[1] == 'P' && "/Producer"@.len() == 9);
}

/// Whether `e` has the pages of `d`.
pub open spec fn keeps_pages(d: DocumentView, e: DocumentView) -> bool {
    is_sound(d) ==> {
        &&& is_sound(e)
        &&& page_list(e) == page_list(d)
        &&& is_flat(d) ==> is_flat(e)
    }
}

/// Setting one of the texts that this library sets leaves the pages, and the
/// information numbered.
pub proof fn lemma_setter(d: DocumentView, key: Seq<char>, text: Seq<char>)
    requires
        info_has_number(d),
        is_info_key(key),
    ensures
        keeps_pages(d, with_info_text(d, key, text)),
        info_is_numbered(d) ==> info_is_numbered(with_info_text(d, key, text)),
{
    lemma_info_keys_differ(key);
    if is_sound(d) {
        lemma_info_keeps_pages(d, key, text);
    }
}

/// What stands in the information dictionary is what the object holds that the
/// trailer refers to. Text is read from strings alone.
pub proof fn lemma_info_is_in_the_dictionary(
    d: DocumentView,
    r: ObjectRef,
    entries: Map<Seq<char>, Obj>,
    key: Seq<char>,
)
    requires
        d.info == Some(Obj::Ref(r)),
        d.objects.contains_key(r),
        d.objects[r] == Obj::Dict(entries),
    ensures
        info_value(d, key) == entries.get(key),
        forall|text: Seq<char>|
            info_text(d, key) == Some(text) <==> #[trigger] entries.get(key) == Some(
                Obj::Text(text),
            ),
{
}

} // verus!
