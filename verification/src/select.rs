//! From the scratchpad's subtree to the ordered list of labelled windows.

use crate::order::{
    lemma_order_onto, lemma_stable_sort_exists, sort_by_name, sort_order, stable_sorted,
};
use crate::text::{
    append_decimal, decimal, is_digit, lemma_decimal, lemma_decimal_injective, same_text,
};
use crate::tree::{first_named, leaf_views, name_view, Leaf, LeafView, Node, NodeView};
use vstd::prelude::*;
use vstd::string::*;

verus! {

/// One window offered to the user: its identifier and its label.
#[derive(Debug, PartialEq, Eq)]
pub struct SelectionEntry {
    pub id: u64,
    pub label: String,
}

/// The mathematical value of a [`SelectionEntry`].
pub ghost struct EntryView {
    pub id: u64,
    pub label: Seq<char>,
}

impl View for SelectionEntry {
    type V = EntryView;

    open spec fn view(&self) -> EntryView {
        EntryView { id: self.id, label: self.label@ }
    }
}

/// The views of a sequence of entries, in order.
pub open spec fn entry_views(entries: Seq<SelectionEntry>) -> Seq<EntryView> {
    Seq::new(entries.len(), |i: int| entries[i]@)
}

/// A node that the manager is expected to report is not there.
#[derive(Debug, Clone, Copy, PartialEq, Eq)]
pub enum StructuralViolation {
    /// No node of the tree carries the scratchpad's name.
    ScratchpadMissing,
    /// A window of the scratchpad has no identifier.
    IdentifierMissing,
}

impl StructuralViolation {
    /// What is reported for the violation.
    pub open spec fn description(self) -> Seq<char> {
        match self {
            StructuralViolation::ScratchpadMissing => "the window tree has no scratchpad"@,
            StructuralViolation::IdentifierMissing => "a scratchpad window has no identifier"@,
        }
    }

    /// The message that names the violation.
    pub fn describe(&self) -> (text: String)
        ensures
            text@ == self.description(),
    {
        match self {
            StructuralViolation::ScratchpadMissing => String::from_str(
                "the window tree has no scratchpad",
            ),
            StructuralViolation::IdentifierMissing => String::from_str(
                "a scratchpad window has no identifier",
            ),
        }
    }
}

/// The name of the node under which the manager keeps the scratchpad.
pub const SCRATCHPAD_NAME: &'static str = "__i3_scratch";

/// The kind of a node that holds a window.
pub const WINDOW_KIND: &'static str = "con";

/// What is shown for a window without a name.
pub const UNTITLED: &'static str = "<No title>";

/// The test for holding a window, as a predicate on leaves.
pub open spec fn is_window() -> spec_fn(LeafView) -> bool {
    |leaf: LeafView| leaf.kind == WINDOW_KIND@
}

/// Keeps the leaves that hold a window, in their order.
pub fn windows_only(leaves: Vec<Leaf>) -> (windows: Vec<Leaf>)
    ensures
        leaf_views(windows@) == leaf_views(leaves@).filter(is_window()),
{
    let ghost input = leaves@;
    let mut windows: Vec<Leaf> = Vec::new();
    proof {
        reveal(Seq::filter);
    }
    for leaf in it: leaves
        invariant
            it.seq() == input,
            leaf_views(windows@) == leaf_views(input.take(it.index() as int)).filter(is_window()),
    {
        let ghost done = it.index() as int;
        let ghost before = windows@;
        proof {
            reveal(Seq::filter);
            let grown = leaf_views(input.take(done + 1));
            assert(grown.drop_last() =~= leaf_views(input.take(done)));
            assert(grown.last() == leaf@);
        }
        if same_text(leaf.kind.as_str(), WINDOW_KIND) {
            windows.push(leaf);
            assert(leaf_views(windows@) =~= leaf_views(before).push(leaf@));
        }
    }
    assert(input.take(input.len() as int) =~= input);
    windows
}

/// The title shown for a window: its name, or a placeholder where it has none.
pub open spec fn title(name: Option<Seq<char>>) -> Seq<char> {
    match name {
        Some(text) => text,
        None => UNTITLED@,
    }
}

/// The label of the window that stands at place `number` of the list,
/// counted from one: the number, a colon, the title.
pub open spec fn label(number: nat, name: Option<Seq<char>>) -> Seq<char> {
    decimal(number) + seq![':'] + title(name)
}

/// Writes the label of the window at place `number`.
pub fn make_label(number: u64, name: &Option<String>) -> (text: String)
    ensures
        text@ == label(number as nat, name_view(*name)),
{
    let mut text = String::new();
    append_decimal(&mut text, number);
    proof {
        reveal_strlit(":");
    }
    text.append(":");
    match name {
        Some(own) => text.append(own.as_str()),
        None => text.append(UNTITLED),
    }
    assert(text@ =~= label(number as nat, name_view(*name)));
    text
}

/// A label tells the number it was made with.
pub proof fn lemma_label_tells_number(
    m: nat,
    a: Option<Seq<char>>,
    n: nat,
    b: Option<Seq<char>>,
)
    requires
        label(m, a) == label(n, b),
    ensures
        m == n,
{
    let dm = decimal(m);
    let dn = decimal(n);
    lemma_decimal(m);
    lemma_decimal(n);
    assert(!is_digit(':'));
    assert(label(m, a)[dm.len() as int] == ':');
    assert(label(n, b)[dn.len() as int] == ':');
    if dm.len() < dn.len() {
        assert(label(n, b)[dm.len() as int] == dn[dm.len() as int]);
        assert(is_digit(dn[dm.len() as int]));
    } else if dn.len() < dm.len() {
        assert(label(m, a)[dn.len() as int] == dm[dn.len() as int]);
        assert(is_digit(dm[dn.len() as int]));
    } else {
        assert forall|i: int| 0 <= i < dm.len() implies dm[i] == dn[i] by {
            assert(label(m, a)[i] == dm[i]);
            assert(label(n, b)[i] == dn[i]);
        }
        assert(dm =~= dn);
        lemma_decimal_injective(m, n);
    }
}

/// Whether every window has an identifier.
pub open spec fn all_identified(windows: Seq<LeafView>) -> bool {
    forall|i: int| 0 <= i < windows.len() ==> (#[trigger] windows[i]).id is Some
}

/// The entries for a list of windows: each with its identifier and the label
/// of its place.
pub open spec fn entries_of(windows: Seq<LeafView>) -> Seq<EntryView> {
    Seq::new(
        windows.len(),
        |i: int| EntryView { id: windows[i].id.unwrap(), label: label((i + 1) as nat, windows[i].name) },
    )
}

/// The entries for a list of windows, or the violation that a window without
/// an identifier is.
pub open spec fn labelled(windows: Seq<LeafView>) -> Result<Seq<EntryView>, StructuralViolation> {
    if all_identified(windows) {
        Ok(entries_of(windows))
    } else {
        Err(StructuralViolation::IdentifierMissing)
    }
}

/// The view of an outcome of the selection.
pub open spec fn outcome_view(
    outcome: Result<Vec<SelectionEntry>, StructuralViolation>,
) -> Result<Seq<EntryView>, StructuralViolation> {
    match outcome {
        Ok(entries) => Ok(entry_views(entries@)),
        Err(violation) => Err(violation),
    }
}

/// Numbers the windows from one and pairs each identifier with its label.
pub fn label_windows(windows: Vec<Leaf>) -> (outcome: Result<
    Vec<SelectionEntry>,
    StructuralViolation,
>)
    ensures
        outcome_view(outcome) == labelled(leaf_views(windows@)),
{
    let ghost input = leaf_views(windows@);
    let ghost raw = windows@;
    let total = windows.len();
    let mut entries: Vec<SelectionEntry> = Vec::new();
    for window in it: windows
        invariant
            it.seq() == raw,
            input == leaf_views(raw),
            raw.len() == total,
            entries@.len() == it.index(),
            all_identified(input.take(it.index() as int)),
            entry_views(entries@) == entries_of(input.take(it.index() as int)),
    {
        let ghost done = it.index() as int;
        let ghost before = entries@;
        assert(done < raw.len());
        assert(input[done] == window@);
        match window.id {
            Some(id) => {
                let place: usize = entries.len() + 1;
                let text = make_label(place as u64, &window.name);
                entries.push(SelectionEntry { id, label: text });
                proof {
                    let grown = entries_of(input.take(done + 1));
                    assert(entries@[done]@ == grown[done]);
                    assert forall|i: int| 0 <= i < done implies entry_views(entries@)[i]
                        == grown[i] by {
                        assert(entry_views(before)[i] == entries_of(input.take(done))[i]);
                    }
                    assert(entry_views(entries@) =~= grown);
                }
                assert(all_identified(input.take(done + 1)));
            },
            None => {
                return Err(StructuralViolation::IdentifierMissing);
            },
        }
    }
    assert(input.take(input.len() as int) =~= input);
    Ok(entries)
}

/// No two entries of one list carry the same label, whatever the windows
/// are called.
pub proof fn lemma_labels_distinct(windows: Seq<LeafView>)
    ensures
        forall|i: int, j: int|
            0 <= i < j < windows.len() ==> (#[trigger] entries_of(windows)[i]).label != (
            #[trigger] entries_of(windows)[j]).label,
{
    let entries = entries_of(windows);
    assert forall|i: int, j: int| 0 <= i < j < windows.len() implies (#[trigger] entries[i]).label
        != (#[trigger] entries[j]).label by {
        if entries[i].label == entries[j].label {
            lemma_label_tells_number(
                (i + 1) as nat,
                windows[i].name,
                (j + 1) as nat,
                windows[j].name,
            );
        }
    }
}

proof fn lemma_filter_keeps_windows(leaves: Seq<LeafView>)
    requires
        forall|i: int| 0 <= i < leaves.len() ==> is_window()(#[trigger] leaves[i]),
    ensures
        leaves.filter(is_window()) == leaves,
    decreases leaves.len(),
{
    reveal(Seq::filter);
    if leaves.len() > 0 {
        let front = leaves.drop_last();
        assert forall|i: int| 0 <= i < front.len() implies is_window()(#[trigger] front[i]) by {
            assert(front[i] == leaves[i]);
        }
        lemma_filter_keeps_windows(front);
        assert(is_window()(leaves[leaves.len() - 1]));
        assert(front.push(leaves.last()) =~= leaves);
    }
}

/// What the selection yields for the tree `root`: the leaves of the first
/// node that carries the scratchpad's name, sorted by name, the windows
/// among them numbered and labelled.
pub open spec fn selection(root: NodeView) -> Result<Seq<EntryView>, StructuralViolation> {
    match first_named(root.preorder(), SCRATCHPAD_NAME@) {
        None => Err(StructuralViolation::ScratchpadMissing),
        Some(scratchpad) => labelled(stable_sorted(scratchpad.leaves()).filter(is_window())),
    }
}

/// Lists the windows of the scratchpad, sorted by name, each with its
/// identifier and its label.
pub fn scratchpad_entries(root: Node) -> (outcome: Result<
    Vec<SelectionEntry>,
    StructuralViolation,
>)
    ensures
        outcome_view(outcome) == selection(root@),
{
    match root.find_name(SCRATCHPAD_NAME) {
        None => Err(StructuralViolation::ScratchpadMissing),
        Some(scratchpad) => {
            let leaves = scratchpad.into_leaves();
            let sorted = sort_by_name(leaves);
            let windows = windows_only(sorted);
            label_windows(windows)
        },
    }
}

/// From leaves to entries and nothing lost. Where every leaf is a window
/// with an identifier, the selection yields one entry for each leaf; the
/// entry at place `i` pairs the identifier of the leaf it stems from with
/// the label made of its place and that leaf's name; every leaf is the
/// source of exactly one entry; and no two entries share a label.
pub proof fn lemma_selection_preserves_windows(leaves: Seq<LeafView>)
    requires
        forall|i: int| 0 <= i < leaves.len() ==> is_window()(#[trigger] leaves[i]),
        all_identified(leaves),
    ensures
        ({
            let sorted = stable_sorted(leaves);
            let order = sort_order(leaves);
            let entries = entries_of(sorted);
            &&& labelled(sorted.filter(is_window())) == Ok::<Seq<EntryView>, StructuralViolation>(
                entries,
            )
            &&& entries.len() == leaves.len()
            &&& order.len() == leaves.len()
            &&& forall|i: int|
                0 <= i < leaves.len() ==> 0 <= #[trigger] order[i] < leaves.len() && entries[i]
                    == (EntryView {
                    id: leaves[order[i]].id.unwrap(),
                    label: label((i + 1) as nat, leaves[order[i]].name),
                })
            &&& forall|k: int| 0 <= k < leaves.len() ==> #[trigger] order.contains(k)
            &&& forall|i: int, j: int|
                0 <= i < j < order.len() ==> #[trigger] order[i] != #[trigger] order[j]
            &&& forall|i: int, j: int|
                0 <= i < j < entries.len() ==> (#[trigger] entries[i]).label != (
                #[trigger] entries[j]).label
        }),
{
    let sorted = stable_sorted(leaves);
    let order = sort_order(leaves);
    lemma_stable_sort_exists(leaves);
    assert forall|i: int| 0 <= i < sorted.len() implies is_window()(#[trigger] sorted[i])
        && sorted[i].id is Some by {
        assert(sorted[i] == leaves[order[i]]);
    }
    lemma_filter_keeps_windows(sorted);
    assert forall|k: int| 0 <= k < leaves.len() implies #[trigger] order.contains(k) by {
        lemma_order_onto(leaves, sorted, order, k);
    }
    lemma_labels_distinct(sorted);
    assert forall|i: int| 0 <= i < leaves.len() implies 0 <= #[trigger] order[i] < leaves.len()
        && entries_of(sorted)[i] == (EntryView {
        id: leaves[order[i]].id.unwrap(),
        label: label((i + 1) as nat, leaves[order[i]].name),
    }) by {
        assert(sorted[i] == leaves[order[i]]);
    }
}

} // verus!
