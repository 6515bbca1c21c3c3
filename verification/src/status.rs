//! The status report of the mirror: the publish counter, the size of the dedup
//! window, and the last applied seq of each remote node.

use vstd::prelude::*;
use vstd::string::*;

use crate::model::DaemonStateView;
use crate::node_map::{
    ascending_pairs, entry_pairs, lemma_ascending_pairs_unique, map_of, names_ascending,
};
use crate::state::DaemonState;
use crate::text::{append_decimal, decimal};

verus! {

/// One line per remote node, `"  <node>: <seq>\n"`, in the order of `pairs`.
pub open spec fn applied_lines(pairs: Seq<(Seq<char>, u64)>) -> Seq<char>
    decreases pairs.len(),
{
    if pairs.len() == 0 {
        Seq::empty()
    } else {
        applied_lines(pairs.drop_last()) + "  "@ + pairs.last().0 + ": "@ + decimal(
            pairs.last().1 as nat,
        ) + "\n"@
    }
}

/// The status report of a state:
///
/// ```text
/// last_published_seq: <seq>
/// seen_ids_count: <identities in the dedup window>
/// last_applied: (none)
/// ```
///
/// where, when some remote node was applied, the last line is `last_applied:`
/// followed by one line `  <node>: <seq>` per node, node names in strictly
/// ascending order of `str`.
pub open spec fn status_text(v: DaemonStateView) -> Seq<char> {
    "last_published_seq: "@ + decimal(v.last_published_seq as nat) + "\n"@ + "seen_ids_count: "@
        + decimal(v.seen.len()) + "\n"@ + if v.last_applied == Map::<Seq<char>, u64>::empty() {
        "last_applied: (none)\n"@
    } else {
        "last_applied:\n"@ + applied_lines(ascending_pairs(v.last_applied))
    }
}

/// Builds the status report of `state`; see [`status_text`].
pub fn status_report(state: &DaemonState) -> (text: String)
    ensures
        text@ == status_text(state@),
        names_ascending(ascending_pairs(state@.last_applied)),
        map_of(ascending_pairs(state@.last_applied)) == state@.last_applied,
{
    let mut text = String::from_str("last_published_seq: ");
    append_decimal(&mut text, state.last_published_seq);
    text.append("\n");
    text.append("seen_ids_count: ");
    let count = state.seen_ids.len();
    append_decimal(&mut text, count as u64);
    text.append("\n");
    let ghost head = text@;
    assert(head == "last_published_seq: "@ + decimal(state@.last_published_seq as nat) + "\n"@
        + "seen_ids_count: "@ + decimal(state@.seen.len()) + "\n"@);
    if state.last_applied.is_empty() {
        text.append("last_applied: (none)\n");
        proof {
            let none = Seq::<(Seq<char>, u64)>::empty();
            assert(map_of(none) == state@.last_applied);
            assert(names_ascending(none));
            lemma_ascending_pairs_unique(ascending_pairs(state@.last_applied), none);
        }
    } else {
        text.append("last_applied:\n");
        let entries = state.last_applied.sorted_entries();
        let ghost pairs = entry_pairs(entries@);
        let ghost start = text@;
        let mut i: usize = 0;
        while i < entries.len()
            invariant
                i <= entries@.len(),
                pairs == entry_pairs(entries@),
                text@ == start + applied_lines(pairs.take(i as int)),
            decreases entries@.len() - i,
        {
            text.append("  ");
            text.append(entries[i].0.as_str());
            text.append(": ");
            append_decimal(&mut text, entries[i].1);
            text.append("\n");
            proof {
                assert(pairs[i as int] == (entries@[i as int].0@, entries@[i as int].1));
                assert(pairs.take(i + 1).drop_last() =~= pairs.take(i as int));
                assert(pairs.take(i + 1).last() == pairs[i as int]);
                assert(text@ =~= start + applied_lines(pairs.take(i + 1)));
            }
            i = i + 1;
        }
        proof {
            assert(pairs.take(i as int) =~= pairs);
        }
    }
    proof {
        assert(text@ =~= status_text(state@));
    }
    text
}

} // verus!
