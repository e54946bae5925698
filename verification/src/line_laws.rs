//! What one reads from a line of the undo tree.

use crate::text::{
    law_age_in_largest_unit, law_numeral_read_back, numeral, reads_as, tells_age,
};
use crate::tree_lines::{
    age_secs, branch_info, indent, line_text, shows, RevisionInfo, TreeLine,
};
use vstd::prelude::*;

verus! {

/// The first character of `text` that is not blank stands at `at`.
pub open spec fn first_mark(text: Seq<char>, at: int) -> bool {
    &&& 0 <= at < text.len()
    &&& text[at] != ' '
    &&& forall|i: int| 0 <= i < at ==> #[trigger] text[i] == ' '
}

/// `secs` full seconds have passed from `timestamp` to `now`, both in nanoseconds; none where `now`
/// comes first.
pub open spec fn seconds_passed(secs: int, timestamp: int, now: int) -> bool {
    if timestamp <= now {
        secs * 1_000_000_000 <= now - timestamp < (secs + 1) * 1_000_000_000
    } else {
        secs == 0
    }
}

/// `text` says how many branches there are, if there are several.
pub open spec fn says_branches(text: Seq<char>, branches: int) -> bool {
    if branches > 1 {
        exists|digits: Seq<char>| #[trigger]
            reads_as(digits, branches, 10) && text == " ["@ + digits + " branches]"@
    } else {
        text.len() == 0
    }
}

/// `text` says, after the mark, which revision a line shows, how old it is and how many branches
/// start at it.
pub open spec fn says_details(text: Seq<char>, rev: RevisionInfo, index: int, now: int) -> bool {
    exists|number: Seq<char>, secs: int, age: Seq<char>, branches: Seq<char>|
        #![trigger reads_as(number, index, 10), tells_age(age, secs), says_branches(branches, rev.children@.len() as int)]
        {
            &&& text == " ["@ + number + "] "@ + age + branches
            &&& reads_as(number, index, 10)
            &&& seconds_passed(secs, rev.timestamp as int, now)
            &&& tells_age(age, secs)
            &&& says_branches(branches, rev.children@.len() as int)
        }
}

/// `line` tells of its revision: two blanks for each step of depth, then a star if the revision is the
/// current one and a circle if not, then the number of the revision, its age and its branches.
pub open spec fn tells_of(
    line: TreeLine,
    revisions: Seq<RevisionInfo>,
    depth: nat,
    now: u64,
) -> bool {
    let rev = revisions[line.revision_index as int];
    let text = line.text@;
    &&& first_mark(text, 2 * depth as int)
    &&& text[2 * depth as int] == '*' <==> rev.is_current
    &&& text[2 * depth as int] == 'o' <==> !rev.is_current
    &&& says_details(text.skip(2 * depth as int + 1), rev, line.revision_index as int, now as int)
}

/// A line that shows a revision tells of it.
pub proof fn law_line_tells_of(
    line: TreeLine,
    revisions: Seq<RevisionInfo>,
    entry: (int, nat),
    now: u64,
)
    requires
        shows(line, revisions, entry, now),
    ensures
        line.revision_index == entry.0,
        tells_of(line, revisions, entry.1, now),
{
    let depth = entry.1;
    let rev = revisions[entry.0];
    let index = entry.0 as nat;
    let text = line.text@;
    let secs = age_secs(rev.timestamp, now);
    let age = crate::text::duration_text(secs);
    let branches = branch_info(rev.children@.len());
    let number = numeral(index, 10);
    let at = 2 * depth as int;
    reveal_strlit("*");
    reveal_strlit("o");
    assert(text == line_text(rev, index, depth, now));
    assert(indent(depth).len() == at);
    assert(forall|i: int| 0 <= i < at ==> #[trigger] text[i] == indent(depth)[i]);
    law_numeral_read_back(index, 10);
    law_numeral_read_back(rev.children@.len(), 10);
    law_age_in_largest_unit(secs);
    assert(text.skip(at + 1) =~= " ["@ + number + "] "@ + age + branches);
    if rev.timestamp <= now {
        let passed = now - rev.timestamp;
        assert(secs == passed / 1_000_000_000);
    }
    assert(reads_as(number, line.revision_index as int, 10));
    assert(tells_age(age, secs as int));
    assert(says_branches(branches, rev.children@.len() as int));
}

/// The first character of a line after the indentation is a star exactly if the revision that the line
/// shows is the current one, and there is such a character.
pub proof fn law_star_marks_current(
    line: TreeLine,
    revisions: Seq<RevisionInfo>,
    entry: (int, nat),
    now: u64,
)
    requires
        shows(line, revisions, entry, now),
    ensures
        exists|at: int| first_mark(line.text@, at),
        forall|at: int| #[trigger]
            first_mark(line.text@, at) ==> (line.text@[at] == '*' <==> revisions[
                line.revision_index as int
            ].is_current),
{
    law_line_tells_of(line, revisions, entry, now);
    let there = 2 * entry.1 as int;
    assert(first_mark(line.text@, there));
    assert forall|at: int| #[trigger] first_mark(line.text@, at) implies at == there by {
        if at < there {
            assert(line.text@[at] == ' ');
        } else if there < at {
            assert(line.text@[there] == ' ');
        }
    }
}

/// How far a line is indented tells its depth: lines of different depths begin with different numbers
/// of blanks, two more for each step.
pub proof fn law_indentation_tells_depth(
    line: TreeLine,
    revisions: Seq<RevisionInfo>,
    entry: (int, nat),
    now: u64,
    at: int,
)
    requires
        shows(line, revisions, entry, now),
        first_mark(line.text@, at),
    ensures
        at == entry.1 + entry.1,
{
    law_line_tells_of(line, revisions, entry, now);
    let there = 2 * entry.1 as int;
    if at < there {
        assert(line.text@[at] == ' ');
    } else if there < at {
        assert(line.text@[there] == ' ');
    }
}

} // verus!
