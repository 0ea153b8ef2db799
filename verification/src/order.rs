//! The order in which windows are listed: by name, windows without a name
//! first, windows of one name in document order.

use crate::text::{
    lemma_encoding_injective, lemma_lex_le_antisymmetric, lemma_lex_le_total,
    lemma_lex_le_transitive, text_before_or_equal, text_le,
};
use crate::tree::{leaf_views, name_view, Leaf, LeafView};
use vstd::prelude::*;
use vstd::set_lib::{lemma_int_range, lemma_len_subset, lemma_subset_equality, set_int_range};
use vstd::utf8::encode_utf8;

verus! {

/// The order on optional names: no name sorts before every name, and names
/// sort as texts do.
pub open spec fn name_le(a: Option<Seq<char>>, b: Option<Seq<char>>) -> bool {
    match (a, b) {
        (None, _) => true,
        (Some(_), None) => false,
        (Some(x), Some(y)) => text_le(x, y),
    }
}

/// Any two optional names are comparable.
pub proof fn lemma_name_le_total(a: Option<Seq<char>>, b: Option<Seq<char>>)
    ensures
        name_le(a, b) || name_le(b, a),
{
    if a is Some && b is Some {
        lemma_lex_le_total(encode_utf8(a->0), encode_utf8(b->0));
    }
}

/// The order on optional names is transitive.
pub proof fn lemma_name_le_transitive(
    a: Option<Seq<char>>,
    b: Option<Seq<char>>,
    c: Option<Seq<char>>,
)
    requires
        name_le(a, b),
        name_le(b, c),
    ensures
        name_le(a, c),
{
    if a is Some && b is Some && c is Some {
        lemma_lex_le_transitive(encode_utf8(a->0), encode_utf8(b->0), encode_utf8(c->0));
    }
}

/// Two optional names that are below each other are the same.
pub proof fn lemma_name_le_antisymmetric(a: Option<Seq<char>>, b: Option<Seq<char>>)
    requires
        name_le(a, b),
        name_le(b, a),
    ensures
        a == b,
{
    if a is Some && b is Some {
        lemma_lex_le_antisymmetric(encode_utf8(a->0), encode_utf8(b->0));
        lemma_encoding_injective(a->0, b->0);
    }
}

/// Whether name `a` sorts before or together with name `b`.
pub fn name_before_or_equal(a: &Option<String>, b: &Option<String>) -> (le: bool)
    ensures
        le == name_le(name_view(*a), name_view(*b)),
{
    match a {
        None => true,
        Some(x) => match b {
            None => false,
            Some(y) => text_before_or_equal(x.as_str(), y.as_str()),
        },
    }
}

/// `output` holds the leaves of `input` sorted by name, leaves of one name
/// in the order they have in `input`; `order[i]` is the position in `input`
/// of the leaf at position `i` of `output`.
pub open spec fn is_stable_sort(
    input: Seq<LeafView>,
    output: Seq<LeafView>,
    order: Seq<int>,
) -> bool {
    &&& output.len() == input.len()
    &&& order.len() == input.len()
    &&& forall|i: int|
        0 <= i < order.len() ==> 0 <= #[trigger] order[i] < input.len() && output[i]
            == input[order[i]]
    &&& forall|i: int, j: int|
        0 <= i < j < order.len() ==> #[trigger] order[i] != #[trigger] order[j]
    &&& forall|i: int, j: int|
        #![trigger output[i], output[j]]
        0 <= i < j < output.len() ==> name_le(output[i].name, output[j].name)
    &&& forall|i: int, j: int|
        #![trigger order[i], order[j]]
        0 <= i < j < output.len() && name_le(output[j].name, output[i].name) ==> order[i]
            < order[j]
}

/// `output` is `input` sorted by name, with document order kept among
/// leaves of one name.
pub open spec fn sorted_by_name(input: Seq<LeafView>, output: Seq<LeafView>) -> bool {
    exists|order: Seq<int>| is_stable_sort(input, output, order)
}

/// The stable sort of `input` by name.
pub open spec fn stable_sorted(input: Seq<LeafView>) -> Seq<LeafView> {
    choose|output: Seq<LeafView>| sorted_by_name(input, output)
}

/// For each place of the stable sort of `input`, the position in `input`
/// of the leaf that stands there.
pub open spec fn sort_order(input: Seq<LeafView>) -> Seq<int> {
    choose|order: Seq<int>| is_stable_sort(input, stable_sorted(input), order)
}

proof fn lemma_insert_keeps_stable_sort(
    input: Seq<LeafView>,
    output: Seq<LeafView>,
    order: Seq<int>,
    leaf: LeafView,
    at: int,
)
    requires
        is_stable_sort(input, output, order),
        0 <= at <= output.len(),
        at > 0 ==> name_le(output[at - 1].name, leaf.name),
        forall|p: int| at <= p < output.len() ==> !name_le(#[trigger] output[p].name, leaf.name),
    ensures
        is_stable_sort(
            input.push(leaf),
            output.insert(at, leaf),
            order.insert(at, input.len() as int),
        ),
{
    let n = input.len() as int;
    let input2 = input.push(leaf);
    let output2 = output.insert(at, leaf);
    let order2 = order.insert(at, n);
    assert forall|i: int| 0 <= i < order2.len() implies 0 <= #[trigger] order2[i] < input2.len()
        && output2[i] == input2[order2[i]] by {
        if i < at {
            assert(order2[i] == order[i]);
        } else if i > at {
            assert(order2[i] == order[i - 1]);
        }
    }
    assert forall|i: int, j: int| 0 <= i < j < order2.len() implies #[trigger] order2[i]
        != #[trigger] order2[j] by {
        let a = if i < at {
            i
        } else {
            i - 1
        };
        let b = if j < at {
            j
        } else {
            j - 1
        };
        if i != at && j != at {
            assert(order2[i] == order[a]);
            assert(order2[j] == order[b]);
        } else if i == at {
            assert(order2[j] == order[b]);
        } else {
            assert(order2[i] == order[a]);
        }
    }
    assert forall|i: int, j: int|
        #![trigger output2[i], output2[j]]
        0 <= i < j < output2.len() implies name_le(output2[i].name, output2[j].name) by {
        let a = if i < at {
            i
        } else {
            i - 1
        };
        let b = if j < at {
            j
        } else {
            j - 1
        };
        if i != at && j != at {
            assert(output2[i] == output[a]);
            assert(output2[j] == output[b]);
        } else if i == at {
            assert(output2[j] == output[b]);
            lemma_name_le_total(leaf.name, output[b].name);
        } else {
            assert(output2[i] == output[a]);
            if a < at - 1 {
                assert(name_le(output[a].name, output[at - 1].name));
                lemma_name_le_transitive(output[a].name, output[at - 1].name, leaf.name);
            }
        }
    }
    assert forall|i: int, j: int|
        #![trigger order2[i], order2[j]]
        0 <= i < j < output2.len() && name_le(output2[j].name, output2[i].name) implies order2[i]
            < order2[j] by {
        let a = if i < at {
            i
        } else {
            i - 1
        };
        let b = if j < at {
            j
        } else {
            j - 1
        };
        if i != at && j != at {
            assert(output2[i] == output[a]);
            assert(output2[j] == output[b]);
            assert(order2[i] == order[a]);
            assert(order2[j] == order[b]);
        } else if i == at {
            assert(output2[j] == output[b]);
        } else {
            assert(order2[i] == order[a]);
        }
    }
}

/// Sorts leaves by name, leaves without a name first; leaves of one name
/// keep their order.
pub fn sort_by_name(leaves: Vec<Leaf>) -> (sorted: Vec<Leaf>)
    ensures
        sorted_by_name(leaf_views(leaves@), leaf_views(sorted@)),
        leaf_views(sorted@) == stable_sorted(leaf_views(leaves@)),
{
    let ghost input = leaves@;
    let ghost mut order: Seq<int> = Seq::empty();
    let mut sorted: Vec<Leaf> = Vec::new();
    for leaf in it: leaves
        invariant
            it.seq() == input,
            is_stable_sort(
                leaf_views(input.take(it.index() as int)),
                leaf_views(sorted@),
                order,
            ),
    {
        let ghost done = it.index() as int;
        let ghost before = sorted@;
        let mut at: usize = sorted.len();
        while at > 0 && !name_before_or_equal(&sorted[at - 1].name, &leaf.name)
            invariant
                at <= sorted.len(),
                forall|p: int|
                    at <= p < sorted.len() ==> !name_le(
                        #[trigger] leaf_views(sorted@)[p].name,
                        leaf@.name,
                    ),
            decreases at,
        {
            at -= 1;
        }
        proof {
            lemma_insert_keeps_stable_sort(
                leaf_views(input.take(done)),
                leaf_views(before),
                order,
                leaf@,
                at as int,
            );
            order = order.insert(at as int, done);
            assert(leaf_views(input.take(done + 1)) =~= leaf_views(input.take(done)).push(leaf@));
            assert(leaf_views(before.insert(at as int, leaf)) =~= leaf_views(before).insert(
                at as int,
                leaf@,
            ));
        }
        sorted.insert(at, leaf);
    }
    proof {
        assert(input.take(input.len() as int) =~= input);
        assert(sorted_by_name(leaf_views(input), leaf_views(sorted@)));
        lemma_sorted_by_name_unique(
            leaf_views(input),
            leaf_views(sorted@),
            stable_sorted(leaf_views(input)),
        );
    }
    sorted
}

/// A sort loses no leaf: every position of the input stands somewhere in
/// the order.
pub proof fn lemma_order_onto(input: Seq<LeafView>, output: Seq<LeafView>, order: Seq<int>, k: int)
    requires
        is_stable_sort(input, output, order),
        0 <= k < input.len(),
    ensures
        exists|i: int| 0 <= i < order.len() && #[trigger] order[i] == k,
{
    let n = order.len() as int;
    let range = set_int_range(0, n);
    assert(order.no_duplicates()) by {
        assert forall|i: int, j: int|
            0 <= i < order.len() && 0 <= j < order.len() && i != j implies order[i]
            != order[j] by {
            if i < j {
                assert(order[i] != order[j]);
            } else {
                assert(order[j] != order[i]);
            }
        }
    }
    order.unique_seq_to_set();
    lemma_int_range(0, n);
    assert(order.to_set().subset_of(range)) by {
        assert forall|v: int| order.to_set().contains(v) implies range.contains(v) by {
            let i = choose|i: int| 0 <= i < order.len() && order[i] == v;
            assert(0 <= order[i] < n);
        }
    }
    lemma_len_subset(order.to_set(), range);
    lemma_subset_equality(order.to_set(), range);
    assert(range.contains(k));
    assert(order.to_set().contains(k));
    assert(order.contains(k));
}

proof fn lemma_orders_agree(
    input: Seq<LeafView>,
    out1: Seq<LeafView>,
    order1: Seq<int>,
    out2: Seq<LeafView>,
    order2: Seq<int>,
    upto: int,
)
    requires
        is_stable_sort(input, out1, order1),
        is_stable_sort(input, out2, order2),
        0 <= upto <= input.len(),
    ensures
        forall|i: int| 0 <= i < upto ==> order1[i] == order2[i],
    decreases upto,
{
    if upto > 0 {
        lemma_orders_agree(input, out1, order1, out2, order2, upto - 1);
        let i = upto - 1;
        let a = order1[i];
        let b = order2[i];
        if a != b {
            lemma_order_onto(input, out2, order2, a);
            let j2 = choose|j: int| 0 <= j < order2.len() && #[trigger] order2[j] == a;
            lemma_order_onto(input, out1, order1, b);
            let j1 = choose|j: int| 0 <= j < order1.len() && #[trigger] order1[j] == b;
            if j2 < i {
                assert(order1[j2] == order2[j2]);
                assert(order1[j2] != order1[i]);
            }
            if j1 < i {
                assert(order1[j1] == order2[j1]);
                assert(order2[j1] != order2[i]);
            }
            assert(i < j1 && i < j2);
            assert(out1[i] == input[a] && out1[j1] == input[b]);
            assert(out2[i] == input[b] && out2[j2] == input[a]);
            assert(name_le(out1[i].name, out1[j1].name));
            assert(name_le(out2[i].name, out2[j2].name));
            assert(order1[i] < order1[j1]);
            assert(order2[i] < order2[j2]);
        }
    }
}

/// A list of leaves has one stable sort only: the order of the output is
/// determined by the input.
pub proof fn lemma_stable_sort_unique(
    input: Seq<LeafView>,
    out1: Seq<LeafView>,
    order1: Seq<int>,
    out2: Seq<LeafView>,
    order2: Seq<int>,
)
    requires
        is_stable_sort(input, out1, order1),
        is_stable_sort(input, out2, order2),
    ensures
        order1 == order2,
        out1 == out2,
{
    lemma_orders_agree(input, out1, order1, out2, order2, input.len() as int);
    assert(order1 =~= order2);
    assert forall|i: int| 0 <= i < out1.len() implies out1[i] == out2[i] by {
        assert(out1[i] == input[order1[i]]);
        assert(out2[i] == input[order2[i]]);
    }
    assert(out1 =~= out2);
}

/// Sorting by name has one result only.
pub proof fn lemma_sorted_by_name_unique(
    input: Seq<LeafView>,
    out1: Seq<LeafView>,
    out2: Seq<LeafView>,
)
    requires
        sorted_by_name(input, out1),
        sorted_by_name(input, out2),
    ensures
        out1 == out2,
{
    let order1 = choose|order: Seq<int>| is_stable_sort(input, out1, order);
    let order2 = choose|order: Seq<int>| is_stable_sort(input, out2, order);
    lemma_stable_sort_unique(input, out1, order1, out2, order2);
}

/// The place at which `leaf` goes into a sorted list: behind every leaf
/// that sorts before or together with it.
proof fn lemma_insertion_place(output: Seq<LeafView>, leaf: LeafView, from: int) -> (at: int)
    requires
        0 <= from <= output.len(),
        forall|p: int| from <= p < output.len() ==> !name_le(#[trigger] output[p].name, leaf.name),
    ensures
        0 <= at <= output.len(),
        at > 0 ==> name_le(output[at - 1].name, leaf.name),
        forall|p: int| at <= p < output.len() ==> !name_le(#[trigger] output[p].name, leaf.name),
    decreases from,
{
    if from > 0 && !name_le(output[from - 1].name, leaf.name) {
        lemma_insertion_place(output, leaf, from - 1)
    } else {
        from
    }
}

/// Every list of leaves has a stable sort.
pub proof fn lemma_stable_sort_exists(input: Seq<LeafView>)
    ensures
        sorted_by_name(input, stable_sorted(input)),
        is_stable_sort(input, stable_sorted(input), sort_order(input)),
    decreases input.len(),
{
    if input.len() == 0 {
        assert(is_stable_sort(input, Seq::<LeafView>::empty(), Seq::<int>::empty()));
        assert(sorted_by_name(input, Seq::<LeafView>::empty()));
    } else {
        let front = input.drop_last();
        lemma_stable_sort_exists(front);
        let output = stable_sorted(front);
        let order = choose|order: Seq<int>| is_stable_sort(front, output, order);
        let at = lemma_insertion_place(output, input.last(), output.len() as int);
        lemma_insert_keeps_stable_sort(front, output, order, input.last(), at);
        assert(front.push(input.last()) =~= input);
        assert(sorted_by_name(input, output.insert(at, input.last())));
    }
}

} // verus!
