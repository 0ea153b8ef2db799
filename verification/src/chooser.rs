//! The exchange with the chooser: the lines it is given and the way back
//! from the line it returns to a window identifier.

use crate::select::{entry_views, EntryView, SelectionEntry};
use crate::text::{same_text, trim_end, trimmed_end};
use vstd::prelude::*;
use vstd::string::*;

verus! {

/// The chooser returned a line that is the label of no offered window.
#[derive(Debug, Clone, Copy, PartialEq, Eq)]
pub struct UnmatchedSelection;

impl UnmatchedSelection {
    /// What is reported for the failure.
    pub open spec fn description(self) -> Seq<char> {
        "the chooser returned a line that is no offered label"@
    }

    /// The message that names the failure.
    pub fn describe(&self) -> (text: String)
        ensures
            text@ == self.description(),
    {
        String::from_str("the chooser returned a line that is no offered label")
    }
}

/// The text given to the chooser: every label on a line of its own, each
/// line ended by a newline.
pub open spec fn chooser_lines(entries: Seq<EntryView>) -> Seq<char>
    decreases entries.len(),
{
    if entries.len() == 0 {
        Seq::empty()
    } else {
        chooser_lines(entries.drop_last()) + entries.last().label + seq!['\n']
    }
}

/// Writes the chooser's input for a list of entries.
pub fn chooser_input(entries: &Vec<SelectionEntry>) -> (text: String)
    ensures
        text@ == chooser_lines(entry_views(entries@)),
{
    let mut text = String::new();
    let mut done: usize = 0;
    proof {
        reveal_strlit("\n");
    }
    while done < entries.len()
        invariant
            done <= entries.len(),
            "\n"@ == seq!['\n'],
            text@ == chooser_lines(entry_views(entries@).take(done as int)),
        decreases entries.len() - done,
    {
        proof {
            let grown = entry_views(entries@).take(done + 1);
            assert(grown.drop_last() =~= entry_views(entries@).take(done as int));
            assert(grown.last() == entries@[done as int]@);
        }
        text.append(entries[done].label.as_str());
        text.append("\n");
        done += 1;
    }
    assert(entry_views(entries@).take(done as int) =~= entry_views(entries@));
    text
}

/// The identifier of the first entry whose label is `text`, if there is one.
pub open spec fn first_labelled(entries: Seq<EntryView>, text: Seq<char>) -> Option<u64>
    decreases entries.len(),
{
    if entries.len() == 0 {
        None
    } else if entries[0].label == text {
        Some(entries[0].id)
    } else {
        first_labelled(entries.drop_first(), text)
    }
}

/// What the chooser's output means: output that is empty once its trailing
/// whitespace is gone means that the user chose nothing; the label of an
/// entry means that entry's window; anything else matches nothing.
pub open spec fn resolution(entries: Seq<EntryView>, output: Seq<char>) -> Result<
    Option<u64>,
    UnmatchedSelection,
> {
    let text = trimmed_end(output);
    if text.len() == 0 {
        Ok(None)
    } else {
        match first_labelled(entries, text) {
            Some(id) => Ok(Some(id)),
            None => Err(UnmatchedSelection),
        }
    }
}

/// Maps the chooser's output back to the identifier of the chosen window.
pub fn resolve_choice(entries: &Vec<SelectionEntry>, output: &str) -> (choice: Result<
    Option<u64>,
    UnmatchedSelection,
>)
    ensures
        choice == resolution(entry_views(entries@), output@),
{
    let text = trim_end(output);
    if text.is_empty() {
        return Ok(None);
    }
    let ghost all = entry_views(entries@);
    let mut at: usize = 0;
    assert(all.skip(0) =~= all);
    while at < entries.len()
        invariant
            at <= entries.len(),
            all == entry_views(entries@),
            text@ == trimmed_end(output@),
            text@.len() > 0,
            first_labelled(all, text@) == first_labelled(all.skip(at as int), text@),
        decreases entries.len() - at,
    {
        proof {
            let rest = all.skip(at as int);
            assert(rest[0] == entries@[at as int]@);
            assert(rest.drop_first() =~= all.skip(at + 1));
        }
        if same_text(entries[at].label.as_str(), text) {
            return Ok(Some(entries[at].id));
        }
        at += 1;
    }
    Err(UnmatchedSelection)
}

/// An entry whose label stands in no earlier entry is found by its label.
pub proof fn lemma_first_labelled_finds(entries: Seq<EntryView>, at: int)
    requires
        0 <= at < entries.len(),
        forall|i: int| 0 <= i < at ==> (#[trigger] entries[i]).label != entries[at].label,
    ensures
        first_labelled(entries, entries[at].label) == Some(entries[at].id),
    decreases at,
{
    if at > 0 {
        let rest = entries.drop_first();
        assert(rest[at - 1] == entries[at]);
        assert forall|i: int| 0 <= i < at - 1 implies (#[trigger] rest[i]).label != rest[at
            - 1].label by {
            assert(rest[i] == entries[i + 1]);
        }
        lemma_first_labelled_finds(rest, at - 1);
    }
}

/// A label that stands in no entry is found in none.
pub proof fn lemma_first_labelled_none(entries: Seq<EntryView>, text: Seq<char>)
    ensures
        first_labelled(entries, text) is None <==> forall|i: int|
            0 <= i < entries.len() ==> (#[trigger] entries[i]).label != text,
    decreases entries.len(),
{
    if entries.len() > 0 {
        let rest = entries.drop_first();
        lemma_first_labelled_none(rest, text);
        if entries[0].label != text {
            if first_labelled(rest, text) is None {
                assert forall|i: int| 0 <= i < entries.len() implies (#[trigger] entries[i]).label
                    != text by {
                    if i > 0 {
                        assert(entries[i] == rest[i - 1]);
                    }
                }
            } else {
                let i = choose|i: int| 0 <= i < rest.len() && (#[trigger] rest[i]).label == text;
                assert(entries[i + 1] == rest[i]);
            }
        }
    }
}

/// The way back: where labels are distinct, output that is an entry's label
/// once trimmed resolves to that entry's window.
pub proof fn lemma_label_resolves(entries: Seq<EntryView>, at: int, output: Seq<char>)
    requires
        0 <= at < entries.len(),
        forall|i: int, j: int|
            0 <= i < j < entries.len() ==> (#[trigger] entries[i]).label != (
            #[trigger] entries[j]).label,
        entries[at].label.len() > 0,
        trimmed_end(output) == entries[at].label,
    ensures
        resolution(entries, output) == Ok::<Option<u64>, UnmatchedSelection>(
            Some(entries[at].id),
        ),
{
    lemma_first_labelled_finds(entries, at);
}

} // verus!
