//! How a change to the root of a page tree shows in the list of pages.

use vstd::prelude::*;

use crate::model::{dict_at, Obj, ObjectRef, Objects};
use crate::pages::{
    ends_within, has_type, kids_of, lemma_depth_at_most_objects, lemma_ends_within_longer,
    pages_among, pages_within,
};

verus! {

/// Whether two documents differ in the objects under `root` and `fresh` alone, as
/// far as these are dictionaries.
pub open spec fn differ_at_most_at(
    before: Objects,
    after: Objects,
    root: ObjectRef,
    fresh: Option<ObjectRef>,
) -> bool {
    forall|r: ObjectRef|
        r != root && Some(r) != fresh ==> #[trigger] dict_at(after, r) == dict_at(before, r)
}

/// Whether no node of a page tree refers to `r`.
pub open spec fn no_kid(objects: Objects, r: ObjectRef) -> bool {
    forall|node: ObjectRef, i: int|
        #![trigger kids_of(objects, node)[i]]
        0 <= i < kids_of(objects, node).len() ==> kids_of(objects, node)[i] != Obj::Ref(r)
}

/// Names of the page tree that are told apart.
pub(crate) proof fn lemma_names_differ()
    ensures
        "/Page"@ != "/Pages"@,
        "/Type"@ != "/Kids"@,
        "/Type"@ != "/Count"@,
        "/Type"@ != "/Parent"@,
        "/Type"@ != "/MediaBox"@,
        "/Kids"@ != "/Count"@,
        "/Pages"@ != "/Kids"@,
        "/Pages"@ != "/Count"@,
        "/Pages"@ != "/Type"@,
{
    reveal_strlit("/Page");
    reveal_strlit("/Pages");
    reveal_strlit("/Type");
    reveal_strlit("/Kids");
    reveal_strlit("/Count");
    reveal_strlit("/Parent");
    reveal_strlit("/MediaBox");
    assert("/Page"@.len() == 5 && "/Pages"@.len() == 6 && "/Type"@.len() == 5);
    assert("/Kids"@.len() == 5 && "/Count"@.len() == 6 && "/Parent"@.len() == 7);
    assert("/MediaBox"@.len() == 9);
    assert("/Type"@[1] == 'T' && "/Kids"@[1] == 'K');
    assert("/Pages"@[1] == 'P' && "/Count"@[1] == 'C');
}

/// The pages among two lists of items are those of the first and then those of
/// the second.
pub(crate) proof fn lemma_among_concat(objects: Objects, a: Seq<Obj>, b: Seq<Obj>, depth: nat)
    ensures
        pages_among(objects, a + b, depth) == pages_among(objects, a, depth) + pages_among(
            objects,
            b,
            depth,
        ),
    decreases b.len(),
{
    if b.len() == 0 {
        assert(a + b =~= a);
        assert(pages_among(objects, a, depth) + seq![] =~= pages_among(objects, a, depth));
    } else {
        lemma_among_concat(objects, a, b.drop_last(), depth);
        assert((a + b).drop_last() =~= a + b.drop_last());
        let left = pages_among(objects, a, depth);
        let middle = pages_among(objects, b.drop_last(), depth);
        if let Obj::Ref(kid) = b.last() {
            let right = pages_within(objects, kid, depth);
            assert((left + middle) + right =~= left + (middle + right));
        }
    }
}

/// Where the pages at each reference are the same, so are those among the items.
pub(crate) proof fn lemma_among_same(
    before: Objects,
    after: Objects,
    items: Seq<Obj>,
    depth: nat,
    other: nat,
)
    requires
        forall|i: int|
            #![trigger items[i]]
            0 <= i < items.len() && items[i] is Ref ==> pages_within(
                after,
                items[i]->Ref_0,
                other,
            ) == pages_within(before, items[i]->Ref_0, depth),
    ensures
        pages_among(after, items, other) == pages_among(before, items, depth),
    decreases items.len(),
{
    if items.len() > 0 {
        let fewer = items.drop_last();
        assert forall|i: int| #![trigger fewer[i]] 0 <= i < fewer.len() && fewer[i] is Ref implies
            pages_within(after, fewer[i]->Ref_0, other) == pages_within(
            before,
            fewer[i]->Ref_0,
            depth,
        ) by {
            assert(fewer[i] == items[i]);
        }
        lemma_among_same(before, after, fewer, depth, other);
        assert(items.last() == items[items.len() - 1]);
    }
}

/// Looking further down than a tree goes finds the same pages.
pub(crate) proof fn lemma_pages_stable(objects: Objects, node: ObjectRef, a: nat, b: nat)
    requires
        ends_within(objects, node, a),
        ends_within(objects, node, b),
    ensures
        pages_within(objects, node, a) == pages_within(objects, node, b),
    decreases a,
{
    if !has_type(objects, node, "/Page"@) {
        let kids = kids_of(objects, node);
        if a > 0 && b > 0 {
            assert forall|i: int| #![trigger kids[i]] 0 <= i < kids.len() && kids[i] is Ref implies
                pages_within(objects, kids[i]->Ref_0, (b - 1) as nat) == pages_within(
                objects,
                kids[i]->Ref_0,
                (a - 1) as nat,
            ) by {
                lemma_pages_stable(objects, kids[i]->Ref_0, (a - 1) as nat, (b - 1) as nat);
            }
            lemma_among_same(objects, objects, kids, (a - 1) as nat, (b - 1) as nat);
        } else {
            if a > 0 {
                lemma_no_refs(objects, kids, (a - 1) as nat);
            }
            if b > 0 {
                lemma_no_refs(objects, kids, (b - 1) as nat);
            }
        }
    }
}

/// Among items that hold no reference there are no pages.
proof fn lemma_no_refs(objects: Objects, items: Seq<Obj>, depth: nat)
    requires
        forall|i: int| #![trigger items[i]] 0 <= i < items.len() ==> !(items[i] is Ref),
    ensures
        pages_among(objects, items, depth) == Seq::<ObjectRef>::empty(),
    decreases items.len(),
{
    if items.len() > 0 {
        let fewer = items.drop_last();
        assert forall|i: int| #![trigger fewer[i]] 0 <= i < fewer.len() implies !(fewer[i] is Ref) by {
            assert(fewer[i] == items[i]);
        }
        lemma_no_refs(objects, fewer, depth);
        assert(items.last() == items[items.len() - 1]);
    }
}

/// A part of the tree that ends sooner than the part below `root` does not hold
/// `root`, and a change at `root` leaves its pages as they were.
pub(crate) proof fn lemma_same_below(
    before: Objects,
    after: Objects,
    root: ObjectRef,
    fresh: Option<ObjectRef>,
    node: ObjectRef,
    bound: nat,
    depth: nat,
)
    requires
        differ_at_most_at(before, after, root, fresh),
        fresh is Some ==> no_kid(before, fresh->0),
        fresh != Some(node),
        ends_within(before, node, bound),
        !ends_within(before, root, bound),
    ensures
        ends_within(after, node, bound),
        pages_within(after, node, depth) == pages_within(before, node, depth),
    decreases bound,
{
    assert(node != root);
    assert(dict_at(after, node) == dict_at(before, node));
    let kids = kids_of(before, node);
    assert(kids_of(after, node) == kids);
    assert forall|i: int, d: nat|
        #![trigger kids[i], pages_within(after, kids[i]->Ref_0, d)]
        0 <= i < kids.len() && kids[i] is Ref implies bound > 0 && ends_within(
        after,
        kids[i]->Ref_0,
        (bound - 1) as nat,
    ) && pages_within(after, kids[i]->Ref_0, d) == pages_within(before, kids[i]->Ref_0, d) by {
        let shorter = (bound - 1) as nat;
        if ends_within(before, root, shorter) {
            lemma_ends_within_longer(before, root, shorter, bound);
        }
        lemma_same_below(before, after, root, fresh, kids[i]->Ref_0, shorter, d);
    }
    assert forall|i: int|
        #![trigger kids_of(after, node)[i]]
        0 <= i < kids_of(after, node).len() && kids_of(after, node)[i] is Ref implies bound > 0
        && ends_within(after, kids_of(after, node)[i]->Ref_0, (bound - 1) as nat) by {
        let seen = pages_within(after, kids[i]->Ref_0, 0);
    }
    if !has_type(before, node, "/Page"@) && depth > 0 {
        let less = (depth - 1) as nat;
        assert forall|i: int| #![trigger kids[i]] 0 <= i < kids.len() && kids[i] is Ref implies
            pages_within(after, kids[i]->Ref_0, less) == pages_within(
            before,
            kids[i]->Ref_0,
            less,
        ) by {}
        lemma_among_same(before, after, kids, less, less);
    }
}

/// The pages of a tree are those of its root's kids.
pub(crate) proof fn lemma_pages_of_kids(objects: Objects, root: ObjectRef)
    requires
        has_type(objects, root, "/Pages"@),
        ends_within(objects, root, objects.dom().len()),
    ensures
        pages_within(objects, root, objects.dom().len()) == pages_among(
            objects,
            kids_of(objects, root),
            objects.dom().len(),
        ),
{
    lemma_names_differ();
    let depth = objects.dom().len();
    lemma_ends_within_longer(objects, root, depth, depth + 1);
    lemma_pages_stable(objects, root, depth, depth + 1);
}

/// A tree whose root was given other kids, namely old ones and `fresh`, which is
/// a page, is finite if it was, and the old kids have the pages that they had.
pub(crate) proof fn lemma_new_kids(
    before: Objects,
    after: Objects,
    root: ObjectRef,
    fresh: Option<ObjectRef>,
)
    requires
        differ_at_most_at(before, after, root, fresh),
        fresh is Some ==> no_kid(before, fresh->0),
        fresh is Some ==> has_type(after, fresh->0, "/Page"@),
        after.dom().finite(),
        ends_within(before, root, before.dom().len()),
        forall|i: int|
            #![trigger kids_of(after, root)[i]]
            0 <= i < kids_of(after, root).len() && kids_of(after, root)[i] is Ref ==> Some(
                kids_of(after, root)[i]->Ref_0,
            ) == fresh || kids_of(before, root).contains(kids_of(after, root)[i]),
    ensures
        ends_within(after, root, after.dom().len()),
        forall|i: int|
            #![trigger kids_of(before, root)[i]]
            0 <= i < kids_of(before, root).len() && kids_of(before, root)[i] is Ref
                ==> pages_within(
                after,
                kids_of(before, root)[i]->Ref_0,
                after.dom().len(),
            ) == pages_within(before, kids_of(before, root)[i]->Ref_0, before.dom().len()),
{
    lemma_names_differ();
    let kids = kids_of(before, root);
    let bound = least_bound(before, root, before.dom().len());
    lemma_least_bound(before, root, before.dom().len());
    assert forall|i: int| #![trigger kids[i]] 0 <= i < kids.len() && kids[i] is Ref implies bound > 0
        && ends_within(after, kids[i]->Ref_0, (bound - 1) as nat) && pages_within(
        after,
        kids[i]->Ref_0,
        after.dom().len(),
    ) == pages_within(before, kids[i]->Ref_0, before.dom().len()) by {
        let kid = kids[i]->Ref_0;
        let shorter = (bound - 1) as nat;
        assert(fresh != Some(kid));
        lemma_same_below(before, after, root, fresh, kid, shorter, shorter);
        lemma_depth_at_most_objects(after, kid, shorter);
        lemma_pages_stable(after, kid, after.dom().len(), shorter);
        lemma_ends_within_longer(before, kid, shorter, before.dom().len());
        lemma_pages_stable(before, kid, before.dom().len(), shorter);
    }
    let items = kids_of(after, root);
    let longest = (bound + 1) as nat;
    assert forall|i: int|
        #![trigger kids_of(after, root)[i]]
        0 <= i < kids_of(after, root).len() && kids_of(after, root)[i] is Ref implies longest > 0
        && ends_within(after, kids_of(after, root)[i]->Ref_0, (longest - 1) as nat) by {
        let kid = items[i]->Ref_0;
        if Some(kid) == fresh {
            assert(kids_of(after, kid) =~= seq![]);
        } else {
            let j = choose|j: int| 0 <= j < kids.len() && kids[j] == items[i];
            assert(kids[j] is Ref);
            lemma_ends_within_longer(after, kid, (bound - 1) as nat, (longest - 1) as nat);
        }
    }
    assert(ends_within(after, root, longest));
    lemma_depth_at_most_objects(after, root, longest);
}

/// The least depth within which the tree below `node` ends, where `depth` is one.
spec fn least_bound(objects: Objects, node: ObjectRef, depth: nat) -> nat
    decreases depth,
{
    if depth > 0 && ends_within(objects, node, (depth - 1) as nat) {
        least_bound(objects, node, (depth - 1) as nat)
    } else {
        depth
    }
}

proof fn lemma_least_bound(objects: Objects, node: ObjectRef, depth: nat)
    requires
        ends_within(objects, node, depth),
    ensures
        least_bound(objects, node, depth) <= depth,
        ends_within(objects, node, least_bound(objects, node, depth)),
        least_bound(objects, node, depth) > 0 ==> !ends_within(
            objects,
            node,
            (least_bound(objects, node, depth) - 1) as nat,
        ),
    decreases depth,
{
    if depth > 0 && ends_within(objects, node, (depth - 1) as nat) {
        lemma_least_bound(objects, node, (depth - 1) as nat);
    }
}

} // verus!
