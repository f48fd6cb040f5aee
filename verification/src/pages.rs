//! The page tree of a document.

use vstd::prelude::*;

use crate::model::{dict_at, Dictionary, Obj, ObjectRef, Objects};
use crate::objects::{
    array_get, array_items, array_size, context_objects, dict_get, inspect, is_plain_key, lookup,
    Array, Context, Shape,
};
use crate::text::same_text;

verus! {

/// What a document holds.
#[verifier::ext_equal]
pub struct DocumentView {
    pub objects: Objects,
    /// The largest object number that was ever given out.
    pub largest: u32,
    /// The trailer's reference to the catalog.
    pub root: Option<Obj>,
    /// The trailer's reference to the information dictionary.
    pub info: Option<Obj>,
    pub encrypted: bool,
}

/// Where the page tree of a document starts: the `Pages` entry of its catalog,
/// or object `1 0` if there is no such entry.
pub open spec fn pages_root(d: DocumentView) -> ObjectRef {
    let fallback = ObjectRef { object_number: 1, generation_number: 0 };
    match d.root {
        Some(Obj::Ref(catalog)) => match dict_at(d.objects, catalog) {
            Some(entries) => match entries.get("/Pages"@) {
                Some(Obj::Ref(pages)) => pages,
                _ => fallback,
            },
            None => fallback,
        },
        _ => fallback,
    }
}

/// Whether `node` is a dictionary of the given type.
pub open spec fn has_type(objects: Objects, node: ObjectRef, name: Seq<char>) -> bool {
    match dict_at(objects, node) {
        Some(entries) => entries.get("/Type"@) == Some(Obj::Name(name)),
        None => false,
    }
}

/// The items in the `Kids` array of a dictionary.
pub open spec fn kids_in(entries: Dictionary) -> Seq<Obj> {
    match entries.get("/Kids"@) {
        Some(Obj::Array(items)) => items,
        _ => seq![],
    }
}

/// The items below `node`, which has some if it is of the type `Pages`.
pub open spec fn kids_of(objects: Objects, node: ObjectRef) -> Seq<Obj> {
    if has_type(objects, node, "/Pages"@) {
        kids_in(dict_at(objects, node)->0)
    } else {
        seq![]
    }
}

/// Whether no path down from `node` has more than `depth` steps.
pub open spec fn ends_within(objects: Objects, node: ObjectRef, depth: nat) -> bool
    decreases depth,
{
    forall|i: int|
        #![trigger kids_of(objects, node)[i]]
        0 <= i < kids_of(objects, node).len() && kids_of(objects, node)[i] is Ref ==> depth > 0
            && ends_within(objects, kids_of(objects, node)[i]->Ref_0, (depth - 1) as nat)
}

/// The pages at `node` and at most `depth` steps below it, in order.
pub open spec fn pages_within(objects: Objects, node: ObjectRef, depth: nat) -> Seq<ObjectRef>
    decreases depth, 0nat,
{
    if has_type(objects, node, "/Page"@) {
        seq![node]
    } else if depth > 0 {
        pages_among(objects, kids_of(objects, node), (depth - 1) as nat)
    } else {
        seq![]
    }
}

/// The pages at the references among `items` and at most `depth` steps below
/// them, in order.
pub open spec fn pages_among(objects: Objects, items: Seq<Obj>, depth: nat) -> Seq<ObjectRef>
    decreases depth, items.len() + 1,
{
    if items.len() == 0 {
        seq![]
    } else {
        let before = pages_among(objects, items.drop_last(), depth);
        match items.last() {
            Obj::Ref(kid) => before + pages_within(objects, kid, depth),
            _ => before,
        }
    }
}

/// Whether the page tree of a document is finite: whether no path in it has more
/// steps than the document has objects. A longer path would come by one of them
/// twice and so lead round in a circle.
pub open spec fn page_tree_ends(d: DocumentView) -> bool {
    ends_within(d.objects, pages_root(d), d.objects.dom().len())
}

/// The pages of a document whose page tree is finite, in order.
pub open spec fn page_list(d: DocumentView) -> Seq<ObjectRef> {
    pages_within(d.objects, pages_root(d), d.objects.dom().len())
}

/// A longer bound holds where a shorter one does.
pub(crate) proof fn lemma_ends_within_longer(objects: Objects, node: ObjectRef, depth: nat, more: nat)
    requires
        ends_within(objects, node, depth),
        depth <= more,
    ensures
        ends_within(objects, node, more),
    decreases depth,
{
    let kids = kids_of(objects, node);
    assert forall|i: int| #![trigger kids[i]] 0 <= i < kids.len() && kids[i] is Ref implies more > 0
        && ends_within(objects, kids[i]->Ref_0, (more - 1) as nat) by {
        lemma_ends_within_longer(
            objects,
            kids[i]->Ref_0,
            (depth - 1) as nat,
            (more - 1) as nat,
        );
    }
}

/// Below a node with a path of `depth` steps and no longer one there are at
/// least `depth` objects that have further nodes below them.
proof fn lemma_path_objects(objects: Objects, node: ObjectRef, depth: nat) -> (passed: Set<
    ObjectRef,
>)
    requires
        objects.dom().finite(),
        ends_within(objects, node, depth),
        depth > 0 ==> !ends_within(objects, node, (depth - 1) as nat),
    ensures
        passed.subset_of(objects.dom()),
        passed.finite(),
        passed.len() == depth,
        forall|r: ObjectRef| #[trigger] passed.contains(r) ==> ends_within(objects, r, depth),
    decreases depth,
{
    if depth == 0 {
        Set::empty()
    } else {
        let kids = kids_of(objects, node);
        let shorter = (depth - 1) as nat;
        let i = choose|i: int|
            #![trigger kids[i]]
            0 <= i < kids.len() && kids[i] is Ref && !(shorter > 0 && ends_within(
                objects,
                kids[i]->Ref_0,
                (shorter - 1) as nat,
            ));
        let kid = kids[i]->Ref_0;
        assert(ends_within(objects, kid, shorter));
        let below = lemma_path_objects(objects, kid, shorter);
        assert(!below.contains(node));
        assert forall|r: ObjectRef| #[trigger] below.insert(node).contains(r) implies ends_within(
            objects,
            r,
            depth,
        ) by {
            if r != node {
                lemma_ends_within_longer(objects, r, shorter, depth);
            }
        }
        below.insert(node)
    }
}

/// The number of objects bounds every finite page tree: where the paths from a
/// node are bounded at all, none has more steps than there are objects.
pub proof fn lemma_depth_at_most_objects(objects: Objects, node: ObjectRef, depth: nat)
    requires
        objects.dom().finite(),
        ends_within(objects, node, depth),
    ensures
        ends_within(objects, node, objects.dom().len()),
    decreases depth,
{
    if depth <= objects.dom().len() {
        lemma_ends_within_longer(objects, node, depth, objects.dom().len());
    } else if ends_within(objects, node, (depth - 1) as nat) {
        lemma_depth_at_most_objects(objects, node, (depth - 1) as nat);
    } else {
        let passed = lemma_path_objects(objects, node, depth);
        vstd::set_lib::lemma_len_subset(passed, objects.dom());
    }
}

/// The keys of the page tree are plain, and what they are behind a slash.
pub(crate) proof fn lemma_page_keys()
    ensures
        is_plain_key("Type"@),
        seq!['/'] + "Type"@ == "/Type"@,
        is_plain_key("Kids"@),
        seq!['/'] + "Kids"@ == "/Kids"@,
        is_plain_key("Pages"@),
        seq!['/'] + "Pages"@ == "/Pages"@,
{
    reveal_strlit("Type");
    reveal_strlit("/Type");
    reveal_strlit("Kids");
    reveal_strlit("/Kids");
    reveal_strlit("Pages");
    reveal_strlit("/Pages");
    assert(seq!['/'] + "Type"@ =~= "/Type"@);
    assert(seq!['/'] + "Kids"@ =~= "/Kids"@);
    assert(seq!['/'] + "Pages"@ =~= "/Pages"@);
}

/// The array of the items below a node of the page tree, if it has one.
fn kid_array<'a>(ctx: &'a Context, node: ObjectRef) -> (kids: Option<&'a Array>)
    ensures
        kids_of(context_objects(*ctx), node) == match kids {
            Some(array) => array_items(*array),
            None => seq![],
        },
{
    proof {
        lemma_page_keys();
    }
    let dict = match lookup(ctx, node) {
        Some(found) => match inspect(found) {
            Shape::Dict(d) => d,
            _ => {
                return None;
            },
        },
        None => {
            return None;
        },
    };
    let is_tree_node = match dict_get(dict, "Type") {
        Some(value) => match inspect(value) {
            Shape::Name(name) => same_text(name, "/Pages"),
            _ => false,
        },
        None => false,
    };
    if !is_tree_node {
        return None;
    }
    match dict_get(dict, "Kids") {
        Some(value) => match inspect(value) {
            Shape::Array(array) => Some(array),
            _ => None,
        },
        None => None,
    }
}

/// Whether no path down from `node` has more than `depth` steps.
pub fn tree_ends_within(ctx: &Context, node: ObjectRef, depth: usize) -> (ends: bool)
    ensures
        ends == ends_within(context_objects(*ctx), node, depth as nat),
    decreases depth,
{
    let kids = match kid_array(ctx, node) {
        Some(array) => array,
        None => {
            return true;
        },
    };
    let ghost objects = context_objects(*ctx);
    let ghost items = kids_of(objects, node);
    let count = array_size(kids);
    let mut i: usize = 0;
    while i < count
        invariant
            objects == context_objects(*ctx),
            items == kids_of(objects, node),
            items == array_items(*kids),
            i <= count == items.len(),
            forall|j: int|
                #![trigger items[j]]
                0 <= j < i && items[j] is Ref ==> depth > 0 && ends_within(
                    objects,
                    items[j]->Ref_0,
                    (depth - 1) as nat,
                ),
        decreases count - i,
    {
        if let Some(item) = array_get(kids, i) {
            if let Shape::Ref(kid) = inspect(item) {
                assert(items[i as int] == Obj::Ref(kid));
                if depth == 0 || !tree_ends_within(ctx, kid, depth - 1) {
                    assert(!ends_within(objects, node, depth as nat));
                    return false;
                }
            }
        }
        i = i + 1;
    }
    true
}

/// Whether `path` goes down a page tree: from each node of the type `Pages` to a
/// reference among its kids.
pub open spec fn is_path(objects: Objects, path: Seq<ObjectRef>) -> bool {
    forall|k: int|
        #![trigger path[k]]
        0 <= k < path.len() - 1 ==> {
            &&& objects.contains_key(path[k])
            &&& objects[path[k]] matches Obj::Dict(node)
            &&& node.get("/Type"@) == Some(Obj::Name("/Pages"@))
            &&& node.get("/Kids"@) matches Some(Obj::Array(items))
            &&& items.contains(Obj::Ref(path[k + 1]))
        }
}

/// A tree that ends within a number of steps has no longer path.
proof fn lemma_paths_end(objects: Objects, path: Seq<ObjectRef>, depth: nat)
    requires
        path.len() > 0,
        is_path(objects, path),
        ends_within(objects, path[0], depth),
    ensures
        path.len() <= depth + 1,
    decreases path.len(),
{
    if path.len() > 1 {
        let node = path[0];
        let kids = kids_of(objects, node);
        let i = choose|i: int| 0 <= i < kids.len() && kids[i] == Obj::Ref(path[1]);
        assert(kids.contains(Obj::Ref(path[0 as int + 1])));
        assert(kids_of(objects, node)[i] is Ref);
        let rest = path.drop_first();
        assert forall|k: int| #![trigger rest[k]] 0 <= k < rest.len() - 1 implies {
            &&& objects.contains_key(rest[k])
            &&& objects[rest[k]] matches Obj::Dict(below)
            &&& below.get("/Type"@) == Some(Obj::Name("/Pages"@))
            &&& below.get("/Kids"@) matches Some(Obj::Array(items))
            &&& items.contains(Obj::Ref(rest[k + 1]))
        } by {
            assert(rest[k] == path[k + 1] && rest[k + 1] == path[k + 2]);
        }
        assert(rest[0] == path[1]);
        lemma_paths_end(objects, rest, (depth - 1) as nat);
    }
}

/// A tree that does not end within a number of steps has a longer path.
proof fn lemma_longer_path(objects: Objects, node: ObjectRef, depth: nat) -> (path: Seq<ObjectRef>)
    requires
        !ends_within(objects, node, depth),
    ensures
        is_path(objects, path),
        path.len() == depth + 2,
        path[0] == node,
    decreases depth,
{
    let kids = kids_of(objects, node);
    let i = choose|i: int|
        #![trigger kids[i]]
        0 <= i < kids.len() && kids[i] is Ref && !(depth > 0 && ends_within(
            objects,
            kids[i]->Ref_0,
            (depth - 1) as nat,
        ));
    let kid = kids[i]->Ref_0;
    assert(kids.contains(Obj::Ref(kid)));
    assert(objects.contains_key(node));
    let rest = if depth == 0 {
        seq![kid]
    } else {
        lemma_longer_path(objects, kid, (depth - 1) as nat)
    };
    let path = seq![node] + rest;
    assert forall|k: int| #![trigger path[k]] 0 <= k < path.len() - 1 implies {
        &&& objects.contains_key(path[k])
        &&& objects[path[k]] matches Obj::Dict(below)
        &&& below.get("/Type"@) == Some(Obj::Name("/Pages"@))
        &&& below.get("/Kids"@) matches Some(Obj::Array(items))
        &&& items.contains(Obj::Ref(path[k + 1]))
    } by {
        if k == 0 {
            assert(path[1] == kid);
        } else {
            assert(path[k] == rest[k - 1] && path[k + 1] == rest[k]);
        }
    }
    path
}

/// The page tree of a document is finite exactly if there is a bound on the lengths
/// of the paths down from its root.
pub proof fn lemma_finite_tree(d: DocumentView)
    requires
        d.objects.dom().finite(),
    ensures
        page_tree_ends(d) <==> exists|bound: nat| #[trigger]
            paths_bounded(d.objects, pages_root(d), bound),
{
    let root = pages_root(d);
    let depth = d.objects.dom().len();
    if page_tree_ends(d) {
        assert forall|path: Seq<ObjectRef>|
            path.len() > 0 && path[0] == root && #[trigger] is_path(d.objects, path) implies
            path.len() <= depth + 1 by {
            lemma_paths_end(d.objects, path, depth);
        }
        assert(paths_bounded(d.objects, root, depth + 1));
    }
    if exists|bound: nat| #[trigger] paths_bounded(d.objects, root, bound) {
        let bound = choose|bound: nat| #[trigger] paths_bounded(d.objects, root, bound);
        if !ends_within(d.objects, root, bound) {
            let path = lemma_longer_path(d.objects, root, bound);
            assert(is_path(d.objects, path));
        }
        lemma_depth_at_most_objects(d.objects, root, bound);
    }
}

/// Whether no path down from `root` passes more than `bound` nodes.
pub open spec fn paths_bounded(objects: Objects, root: ObjectRef, bound: nat) -> bool {
    forall|path: Seq<ObjectRef>|
        path.len() > 0 && path[0] == root && #[trigger] is_path(objects, path) ==> path.len()
            <= bound
}

/// The page tree starts where the catalog says, and at object `1 0` where it does
/// not say so.
pub proof fn lemma_tree_starts(d: DocumentView, catalog: ObjectRef, root: ObjectRef)
    requires
        d.root == Some(Obj::Ref(catalog)),
    ensures
        d.objects.contains_key(catalog) && (d.objects[catalog] matches Obj::Dict(entries)
            && entries.get("/Pages"@) == Some(Obj::Ref(root))) ==> pages_root(d) == root,
        !(d.objects.contains_key(catalog) && (d.objects[catalog] matches Obj::Dict(entries) && (
        entries.get("/Pages"@) matches Some(Obj::Ref(_))))) ==> pages_root(d) == (ObjectRef {
            object_number: 1,
            generation_number: 0,
        }),
{
}

/// Without a reference to a catalog the page tree starts at object `1 0`.
pub proof fn lemma_tree_starts_without_catalog(d: DocumentView)
    requires
        !(d.root matches Some(Obj::Ref(_))),
    ensures
        pages_root(d) == (ObjectRef { object_number: 1, generation_number: 0 }),
{
}

} // verus!
