//! Whether the places of a document's objects in its file can be written.

use vstd::prelude::*;

use crate::document::{
    extent, file_fits, header_size, is_last, lists_sizes, object_sizes, size_of_header, total_extent,
    written_sizes,
};
use crate::model::ObjectRef;
use crate::text::{decimal, decimal_len};
use pdf_lib_rs::api::PdfDocument;

verus! {

/// The number of bytes that listed objects take together.
spec fn listed_extent(entries: Seq<(ObjectRef, usize)>) -> nat
    decreases entries.len(),
{
    if entries.len() == 0 {
        0
    } else {
        listed_extent(entries.drop_last()) + extent(entries.last().0, entries.last().1 as nat)
    }
}

/// Any object can be taken out of a sum of extents.
proof fn lemma_total_without(sizes: Map<ObjectRef, nat>, r: ObjectRef)
    requires
        sizes.dom().finite(),
        sizes.contains_key(r),
    ensures
        total_extent(sizes) == extent(r, sizes[r]) + total_extent(sizes.remove(r)),
    decreases sizes.dom().len(),
{
    let first = sizes.dom().choose();
    assert(sizes.dom().contains(r));
    assert(sizes.remove(r).dom() =~= sizes.dom().remove(r));
    assert(sizes.remove(first).dom() =~= sizes.dom().remove(first));
    if first != r {
        lemma_total_without(sizes.remove(first), r);
        lemma_total_without(sizes.remove(r), first);
        assert(sizes.remove(first).remove(r) =~= sizes.remove(r).remove(first));
    }
}

/// Without one of its entries a list lists the other objects.
proof fn lemma_listed_without(sizes: Map<ObjectRef, nat>, entries: Seq<(ObjectRef, usize)>, at: int)
    requires
        lists_sizes(sizes, entries),
        0 <= at < entries.len(),
    ensures
        lists_sizes(sizes.remove(entries[at].0), entries.remove(at)),
{
    let fewer = entries.remove(at);
    let rest = sizes.remove(entries[at].0);
    assert forall|i: int| #![trigger fewer[i]] 0 <= i < fewer.len() implies rest.contains_key(
        fewer[i].0,
    ) && rest[fewer[i].0] == fewer[i].1 by {
        let j = if i < at {
            i
        } else {
            i + 1
        };
        assert(fewer[i] == entries[j]);
        assert(entries[j].0 != entries[at].0);
    }
    assert forall|r: ObjectRef| #[trigger] rest.contains_key(r) implies exists|i: int|
        0 <= i < fewer.len() && (#[trigger] fewer[i]).0 == r by {
        assert(sizes.contains_key(r));
        let j = choose|j: int| 0 <= j < entries.len() && (#[trigger] entries[j]).0 == r;
        let i = if j < at {
            j
        } else {
            j - 1
        };
        assert(fewer[i] == entries[j]);
    }
    assert forall|i: int, j: int|
        #![trigger fewer[i], fewer[j]]
        0 <= i < j < fewer.len() implies fewer[i].0 != fewer[j].0 by {
        let k = if i < at {
            i
        } else {
            i + 1
        };
        let l = if j < at {
            j
        } else {
            j + 1
        };
        assert(fewer[i] == entries[k] && fewer[j] == entries[l]);
    }
}

/// A list of all objects has the extent of all objects.
proof fn lemma_listed_extent(sizes: Map<ObjectRef, nat>, entries: Seq<(ObjectRef, usize)>)
    requires
        lists_sizes(sizes, entries),
    ensures
        sizes.dom().finite(),
        total_extent(sizes) == listed_extent(entries),
    decreases entries.len(),
{
    if entries.len() == 0 {
        assert(sizes.dom() =~= Set::empty()) by {
            assert forall|r: ObjectRef| !sizes.dom().contains(r) by {
                assert(!sizes.contains_key(r));
            }
        }
    } else {
        let last = entries.len() - 1;
        let r = entries.last().0;
        let rest = sizes.remove(r);
        lemma_listed_without(sizes, entries, last);
        assert(entries.remove(last) =~= entries.drop_last());
        lemma_listed_extent(rest, entries.drop_last());
        assert(entries[last].0 == r);
        assert(sizes.contains_key(r));
        assert(sizes.dom() =~= rest.dom().insert(r));
        lemma_total_without(sizes, r);
    }
}

/// No part of a list has a larger extent than the whole.
proof fn lemma_listed_part(entries: Seq<(ObjectRef, usize)>, count: int)
    requires
        0 <= count <= entries.len(),
    ensures
        listed_extent(entries.take(count)) <= listed_extent(entries),
    decreases entries.len(),
{
    if count == entries.len() {
        assert(entries.take(count) =~= entries);
    } else {
        lemma_listed_part(entries.drop_last(), count);
        assert(entries.drop_last().take(count) =~= entries.take(count));
    }
}

/// The extent of one object.
fn extent_of(entry: (ObjectRef, usize)) -> (bytes: u128)
    ensures
        bytes == extent(entry.0, entry.1 as nat),
        bytes <= 0x2_0000_0000_0000_0000,
{
    let digits: u64 = decimal_len(entry.0.object_number) as u64 + decimal_len(
        entry.0.generation_number as u32,
    ) as u64;
    digits as u128 + entry.1 as u128 + 15
}

/// The place in a list of the object that leaves the most in front of it: of those
/// with the largest number the one with the smallest extent.
fn smallest_last(entries: &Vec<(ObjectRef, usize)>) -> (at: usize)
    requires
        entries@.len() > 0,
    ensures
        at < entries@.len(),
        forall|i: int|
            #![trigger entries@[i]]
            0 <= i < entries@.len() ==> entries@[i].0.object_number
                <= entries@[at as int].0.object_number,
        forall|i: int|
            #![trigger entries@[i]]
            0 <= i < entries@.len() && entries@[i].0.object_number
                == entries@[at as int].0.object_number ==> extent(
                entries@[at as int].0,
                entries@[at as int].1 as nat,
            ) <= extent(entries@[i].0, entries@[i].1 as nat),
{
    let mut at: usize = 0;
    let mut i: usize = 1;
    while i < entries.len()
        invariant
            1 <= i <= entries@.len(),
            at < i,
            forall|k: int|
                #![trigger entries@[k]]
                0 <= k < i ==> entries@[k].0.object_number <= entries@[at as int].0.object_number,
            forall|k: int|
                #![trigger entries@[k]]
                0 <= k < i && entries@[k].0.object_number == entries@[at as int].0.object_number
                    ==> extent(entries@[at as int].0, entries@[at as int].1 as nat) <= extent(
                    entries@[k].0,
                    entries@[k].1 as nat,
                ),
        decreases entries@.len() - i,
    {
        let number: u32 = entries[i].0.object_number;
        let largest: u32 = entries[at].0.object_number;
        if number > largest || (number == largest && extent_of(entries[i]) < extent_of(
            entries[at],
        )) {
            at = i;
        }
        i = i + 1;
    }
    at
}

/// Whether listed objects take less than `limit` bytes together.
fn extent_is_below(entries: &Vec<(ObjectRef, usize)>, limit: u128) -> (below: bool)
    requires
        limit <= 10_000_000_000,
    ensures
        below == (listed_extent(entries@) < limit),
{
    let mut sum: u128 = 0;
    let mut i: usize = 0;
    while i < entries.len() && sum < limit
        invariant
            i <= entries@.len(),
            limit <= 10_000_000_000,
            sum == listed_extent(entries@.take(i as int)),
        decreases entries@.len() - i,
    {
        assert(entries@.take(i + 1).drop_last() =~= entries@.take(i as int));
        sum = sum + extent_of(entries[i]);
        i = i + 1;
    }
    proof {
        lemma_listed_part(entries@, i as int);
        assert(entries@.take(entries@.len() as int) =~= entries@);
    }
    sum < limit
}

/// Whether the place of each object in the file of a document can be written with
/// the ten digits that there are for it.
pub fn places_fit(doc: &PdfDocument) -> (fit: bool)
    ensures
        fit == file_fits(*doc),
{
    let mut entries = object_sizes(doc);
    let ghost all = entries@;
    let ghost sizes = written_sizes(*doc);
    let header: u128 = size_of_header(doc) as u128 + 2;
    if entries.len() == 0 {
        assert forall|r: ObjectRef| !#[trigger] is_last(sizes, r) by {
            if sizes.contains_key(r) {
                let i = choose|i: int| 0 <= i < all.len() && (#[trigger] all[i]).0 == r;
            }
        }
        return true;
    }
    let at = smallest_last(&entries);
    let ghost last = all[at as int].0;
    proof {
        lemma_listed_extent(sizes, all);
        lemma_listed_without(sizes, all, at as int);
        lemma_listed_extent(sizes.remove(last), all.remove(at as int));
        assert(is_last(sizes, last)) by {
            assert forall|other: ObjectRef| #[trigger] sizes.contains_key(other) implies
                other.object_number <= last.object_number by {
                let i = choose|i: int| 0 <= i < all.len() && (#[trigger] all[i]).0 == other;
            }
        }
        assert forall|r: ObjectRef| #[trigger] is_last(sizes, r) implies total_extent(
            sizes.remove(r),
        ) <= total_extent(sizes.remove(last)) by {
            let i = choose|i: int| 0 <= i < all.len() && (#[trigger] all[i]).0 == r;
            lemma_total_without(sizes, r);
            lemma_total_without(sizes, last);
        }
    }
    entries.remove(at);
    if header >= 10_000_000_000 {
        assert(!file_fits(*doc));
        return false;
    }
    extent_is_below(&entries, 10_000_000_000 - header)
}

/// Whether objects may be written in the given order: each once, and none before
/// one with a smaller number.
pub open spec fn is_writing_order(sizes: Map<ObjectRef, nat>, order: Seq<ObjectRef>) -> bool {
    &&& forall|i: int, j: int|
        #![trigger order[i], order[j]]
        0 <= i < j < order.len() ==> order[i] != order[j] && order[i].object_number
            <= order[j].object_number
    &&& forall|i: int| #![trigger order[i]] 0 <= i < order.len() ==> sizes.contains_key(order[i])
    &&& forall|r: ObjectRef| #[trigger] sizes.contains_key(r) ==> order.contains(r)
}

/// Where the object at `i` starts, when the objects are written in the given order
/// behind the first `start` bytes. Each is written as its number, its generation and
/// `obj`, then itself, then `endobj`.
pub open spec fn place_of(
    start: nat,
    sizes: Map<ObjectRef, nat>,
    order: Seq<ObjectRef>,
    i: int,
) -> nat
    decreases i,
{
    if i <= 0 {
        start
    } else {
        let r = order[i - 1];
        place_of(start, sizes, order, i - 1) + decimal(r.object_number as nat).len() + decimal(
            r.generation_number as nat,
        ).len() + sizes[r] + 15
    }
}

/// The places in front of an object take up what the objects there do.
proof fn lemma_place_is_total(
    start: nat,
    sizes: Map<ObjectRef, nat>,
    order: Seq<ObjectRef>,
    i: int,
)
    requires
        0 <= i <= order.len(),
        forall|a: int, b: int|
            #![trigger order[a], order[b]]
            0 <= a < b < order.len() ==> order[a] != order[b],
        forall|a: int| #![trigger order[a]] 0 <= a < order.len() ==> sizes.contains_key(order[a]),
    ensures
        sizes.restrict(order.take(i).to_set()).dom().finite(),
        place_of(start, sizes, order, i) == start + total_extent(
            sizes.restrict(order.take(i).to_set()),
        ),
    decreases i,
{
    let part = sizes.restrict(order.take(i).to_set());
    if i == 0 {
        assert(order.take(0).to_set() =~= Set::empty());
        assert(part.dom() =~= Set::empty());
    } else {
        lemma_place_is_total(start, sizes, order, i - 1);
        let before = sizes.restrict(order.take(i - 1).to_set());
        let r = order[i - 1];
        assert(order.take(i) =~= order.take(i - 1).push(r));
        assert forall|a: ObjectRef| #[trigger]
            order.take(i).to_set().contains(a) == (a == r || order.take(
                i - 1,
            ).to_set().contains(a)) by {
            let s = order.take(i - 1);
            if a == r {
                assert(order.take(i)[i - 1] == r);
            }
            if s.contains(a) {
                let k = choose|k: int| 0 <= k < s.len() && s[k] == a;
                assert(order.take(i)[k] == a);
            }
            if order.take(i).contains(a) && a != r {
                let t = order.take(i);
                let k = choose|k: int| 0 <= k < t.len() && t[k] == a;
                assert(s[k] == a);
            }
        }
        assert(!order.take(i - 1).contains(r)) by {
            let front = order.take(i - 1);
            if front.contains(r) {
                let k = choose|k: int| 0 <= k < front.len() && front[k] == r;
                assert(order[k] == order[i - 1]);
            }
        }
        assert(part.dom() =~= before.dom().insert(r));
        assert(part.remove(r) =~= before);
        lemma_total_without(part, r);
    }
}

/// Places grow along an order.
proof fn lemma_places_grow(
    start: nat,
    sizes: Map<ObjectRef, nat>,
    order: Seq<ObjectRef>,
    i: int,
    j: int,
)
    requires
        0 <= i <= j,
    ensures
        place_of(start, sizes, order, i) <= place_of(start, sizes, order, j),
    decreases j,
{
    if i < j {
        lemma_places_grow(start, sizes, order, i, j - 1);
    }
}

/// There is an order that ends with an object of the largest number.
proof fn lemma_order_ending_with(sizes: Map<ObjectRef, nat>, r: ObjectRef) -> (order: Seq<ObjectRef>)
    requires
        sizes.dom().finite(),
        is_last(sizes, r),
    ensures
        is_writing_order(sizes, order),
        order.len() > 0,
        order.last() == r,
    decreases sizes.dom().len(),
{
    let rest = sizes.remove(r);
    assert(rest.dom() =~= sizes.dom().remove(r));
    if rest.dom().len() == 0 {
        let order = seq![r];
        assert(order[0] == r);
        assert forall|a: ObjectRef| #[trigger] sizes.contains_key(a) implies order.contains(a) by {
            if a != r {
                assert(rest.dom().contains(a));
            }
        }
        order
    } else {
        let next = lemma_some_last(rest);
        let front = lemma_order_ending_with(rest, next);
        let order = front.push(r);
        assert forall|a: ObjectRef| #[trigger] sizes.contains_key(a) implies order.contains(a) by {
            if a == r {
                assert(order[front.len() as int] == a);
            } else {
                assert(rest.contains_key(a));
                let k = choose|k: int| 0 <= k < front.len() && front[k] == a;
                assert(order[k] == a);
            }
        }
        assert forall|i: int, j: int|
            #![trigger order[i], order[j]]
            0 <= i < j < order.len() implies order[i] != order[j] && order[i].object_number
            <= order[j].object_number by {
            assert(order[i] == front[i]);
            assert(rest.contains_key(front[i]));
            if j < front.len() {
                assert(order[j] == front[j]);
            }
        }
        assert forall|i: int| #![trigger order[i]] 0 <= i < order.len() implies sizes.contains_key(
            order[i],
        ) by {
            if i < front.len() {
                assert(rest.contains_key(front[i]));
            }
        }
        order
    }
}

/// Among finitely many objects one has the largest number.
proof fn lemma_some_last(sizes: Map<ObjectRef, nat>) -> (last: ObjectRef)
    requires
        sizes.dom().finite(),
        sizes.dom().len() > 0,
    ensures
        is_last(sizes, last),
    decreases sizes.dom().len(),
{
    let some = sizes.dom().choose();
    assert(sizes.contains_key(some));
    let rest = sizes.remove(some);
    assert(rest.dom() =~= sizes.dom().remove(some));
    if rest.dom().len() == 0 {
        assert forall|a: ObjectRef| #[trigger] sizes.contains_key(a) implies a.object_number
            <= some.object_number by {
            if a != some {
                assert(rest.dom().contains(a));
            }
        }
        some
    } else {
        let next = lemma_some_last(rest);
        let last = if next.object_number > some.object_number {
            next
        } else {
            some
        };
        assert forall|a: ObjectRef| #[trigger] sizes.contains_key(a) implies a.object_number
            <= last.object_number by {
            if a != some {
                assert(rest.contains_key(a));
            }
        }
        last
    }
}

/// A document can be saved exactly if in whatever order its objects may be written
/// the place of each has at most ten digits.
pub proof fn lemma_file_fits(doc: PdfDocument)
    requires
        written_sizes(doc).dom().finite(),
    ensures
        file_fits(doc) <==> forall|order: Seq<ObjectRef>, i: int|
            is_writing_order(written_sizes(doc), order) && 0 <= i < order.len() ==> #[trigger]
                place_of(header_size(doc) + 2, written_sizes(doc), order, i) < 10_000_000_000,
{
    let sizes = written_sizes(doc);
    let start = header_size(doc) + 2;
    assert forall|order: Seq<ObjectRef>|
        #[trigger] is_writing_order(sizes, order) && order.len() > 0 implies is_last(
        sizes,
        order.last(),
    ) && place_of(start, sizes, order, order.len() - 1) == start + total_extent(
        sizes.remove(order.last()),
    ) by {
        let r = order.last();
        let end = order.len() - 1;
        assert(order[end] == r);
        assert forall|other: ObjectRef| #[trigger] sizes.contains_key(other) implies
            other.object_number <= r.object_number by {
            let k = choose|k: int| 0 <= k < order.len() && order[k] == other;
            assert(order[k].object_number <= order[end].object_number);
        }
        lemma_place_is_total(start, sizes, order, end);
        assert(sizes.restrict(order.take(end).to_set()) =~= sizes.remove(r)) by {
            assert forall|a: ObjectRef|
                sizes.remove(r).contains_key(a) == #[trigger] sizes.restrict(
                    order.take(end).to_set(),
                ).contains_key(a) by {
                let front = order.take(end);
                if sizes.remove(r).contains_key(a) {
                    assert(sizes.contains_key(a));
                    let k = choose|k: int| 0 <= k < order.len() && order[k] == a;
                    assert(front[k] == a);
                }
                if front.contains(a) {
                    let k = choose|k: int| 0 <= k < front.len() && front[k] == a;
                    assert(order[k] == a && order[k] != order[end]);
                }
            }
        }
    }
    if file_fits(doc) {
        assert forall|order: Seq<ObjectRef>, i: int|
            is_writing_order(sizes, order) && 0 <= i < order.len() implies #[trigger] place_of(
            start,
            sizes,
            order,
            i,
        ) < 10_000_000_000 by {
            lemma_places_grow(start, sizes, order, i, order.len() - 1);
            assert(is_last(sizes, order.last()));
        }
    } else {
        let r = choose|r: ObjectRef|
            #[trigger] is_last(sizes, r) && !(start + total_extent(sizes.remove(r))
                < 10_000_000_000);
        let order = lemma_order_ending_with(sizes, r);
        assert(place_of(start, sizes, order, order.len() - 1) >= 10_000_000_000);
    }
}

} // verus!
