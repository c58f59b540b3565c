//! Splitting text on a separator character, as a mathematical function on
//! sequences, with the facts that pin it down.

use vstd::prelude::*;

verus! {

/// The groups of `text`, in order: the stretches between separators.
///
/// Reading from left to right, a separator closes the last group and opens a
/// new, empty one; any other character is appended to the last group. Text
/// without a separator is a single group, and so is the empty text.
pub open spec fn split(text: Seq<char>, sep: char) -> Seq<Seq<char>>
    decreases text.len(),
{
    if text.len() == 0 {
        seq![Seq::<char>::empty()]
    } else {
        let before = split(text.drop_last(), sep);
        if text.last() == sep {
            before.push(Seq::<char>::empty())
        } else {
            before.drop_last().push(before.last().push(text.last()))
        }
    }
}

/// The groups written one after another with a separator between neighbours.
pub open spec fn join(groups: Seq<Seq<char>>, sep: char) -> Seq<char>
    decreases groups.len(),
{
    if groups.len() == 0 {
        Seq::<char>::empty()
    } else if groups.len() == 1 {
        groups[0]
    } else {
        join(groups.drop_last(), sep).push(sep) + groups.last()
    }
}

/// No character of `group` is the separator.
pub open spec fn free_of(group: Seq<char>, sep: char) -> bool {
    forall|i: int| 0 <= i < group.len() ==> group[i] != sep
}

/// Every group is free of the separator.
pub open spec fn all_free_of(groups: Seq<Seq<char>>, sep: char) -> bool {
    forall|k: int| 0 <= k < groups.len() ==> free_of(#[trigger] groups[k], sep)
}

/// Splitting always yields at least one group.
pub proof fn lemma_split_nonempty(text: Seq<char>, sep: char)
    ensures
        split(text, sep).len() >= 1,
    decreases text.len(),
{
    if text.len() > 0 {
        lemma_split_nonempty(text.drop_last(), sep);
    }
}

/// How the groups change when one character is appended to the text.
pub proof fn lemma_split_push(text: Seq<char>, c: char, sep: char)
    ensures
        split(text, sep).len() >= 1,
        c == sep ==> split(text.push(c), sep) == split(text, sep).push(Seq::<char>::empty()),
        c != sep ==> split(text.push(c), sep) == split(text, sep).drop_last().push(
            split(text, sep).last().push(c),
        ),
{
    lemma_split_nonempty(text, sep);
    assert(text.push(c).drop_last() =~= text);
}

/// Joining the groups of a text gives the text back, and no group holds a
/// separator.
pub proof fn lemma_join_split(text: Seq<char>, sep: char)
    ensures
        join(split(text, sep), sep) == text,
        all_free_of(split(text, sep), sep),
    decreases text.len(),
{
    if text.len() == 0 {
        assert(join(split(text, sep), sep) =~= text);
    } else {
        let head = text.drop_last();
        let c = text.last();
        let before = split(head, sep);
        lemma_join_split(head, sep);
        lemma_split_nonempty(head, sep);
        assert(text =~= head.push(c));
        if c == sep {
            let after = before.push(Seq::<char>::empty());
            assert(after.drop_last() =~= before);
            assert(join(after, sep) =~= text);
            assert forall|k: int| 0 <= k < after.len() implies free_of(#[trigger] after[k], sep) by {
                if k < before.len() {
                    assert(free_of(before[k], sep));
                }
            }
        } else {
            let grown = before.last().push(c);
            let after = before.drop_last().push(grown);
            assert(after.drop_last() =~= before.drop_last());
            assert(after.last() == grown);
            if before.len() > 1 {
                assert(join(after, sep) == join(before.drop_last(), sep).push(sep) + grown);
                assert(join(before, sep) == join(before.drop_last(), sep).push(sep)
                    + before.last());
            }
            assert(join(after, sep) =~= text);
            assert(free_of(before[before.len() - 1], sep));
            assert forall|k: int| 0 <= k < after.len() implies free_of(#[trigger] after[k], sep) by {
                if k < before.len() - 1 {
                    assert(free_of(before[k], sep));
                }
            }
        }
    }
}

/// Splitting a joined sequence of separator-free groups gives those groups
/// back: the groups of a text are the only way to write it so.
pub proof fn lemma_split_join(groups: Seq<Seq<char>>, sep: char)
    requires
        groups.len() >= 1,
        all_free_of(groups, sep),
    ensures
        split(join(groups, sep), sep) == groups,
    decreases groups.len(), groups.last().len(),
{
    let text = join(groups, sep);
    let last = groups.last();
    assert(free_of(groups[groups.len() - 1], sep));
    if last.len() > 0 {
        let shorter = groups.drop_last().push(last.drop_last());
        assert(shorter.drop_last() =~= groups.drop_last());
        assert(shorter.last() == last.drop_last());
        assert(last =~= last.drop_last().push(last.last()));
        assert(join(shorter, sep).push(last.last()) =~= text);
        assert(text.drop_last() =~= join(shorter, sep));
        assert(text.last() == last.last());
        assert forall|k: int| 0 <= k < shorter.len() implies free_of(
            #[trigger] shorter[k],
            sep,
        ) by {
            assert(free_of(groups[k], sep));
        }
        lemma_split_join(shorter, sep);
        assert(shorter.drop_last().push(shorter.last().push(text.last())) =~= groups);
    } else if groups.len() == 1 {
        assert(groups =~= seq![last]);
        assert(last =~= Seq::<char>::empty());
        assert(text =~= Seq::<char>::empty());
    } else {
        let front = groups.drop_last();
        assert(text =~= join(front, sep).push(sep));
        assert(text.drop_last() =~= join(front, sep));
        assert forall|k: int| 0 <= k < front.len() implies free_of(#[trigger] front[k], sep) by {
            assert(free_of(groups[k], sep));
        }
        lemma_split_join(front, sep);
        assert(last =~= Seq::<char>::empty());
        assert(front.push(Seq::<char>::empty()) =~= groups);
    }
}

} // verus!
