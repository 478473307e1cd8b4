//! Splitting a line of a spectrum CSV file into its comma-separated fields.
use vstd::prelude::*;
use crate::shots::{string_of, string_views};

verus! {

broadcast use vstd::string::group_string_axioms;

/// The fields of `s` separated by `,`: one more field than there are commas,
/// each possibly empty (as `str::split(",")` gives them).
pub open spec fn split_fields(s: Seq<char>) -> Seq<Seq<char>>
    decreases s.len(),
{
    if s.len() == 0 {
        seq![Seq::empty()]
    } else {
        let r = split_fields(s.drop_last());
        if s.last() == ',' {
            r.push(Seq::empty())
        } else {
            r.update(r.len() - 1, r.last().push(s.last()))
        }
    }
}

proof fn lemma_split_fields_nonempty(s: Seq<char>)
    ensures
        split_fields(s).len() >= 1,
    decreases s.len(),
{
    if s.len() > 0 {
        lemma_split_fields_nonempty(s.drop_last());
    }
}

/// The comma-separated fields of a line, in order.
pub fn csv_fields(line: &str) -> (r: Vec<String>)
    ensures
        string_views(r@) == split_fields(line@),
{
    let mut fields: Vec<String> = Vec::new();
    let mut current: Vec<char> = Vec::new();
    let ghost mut seen: Seq<char> = Seq::empty();
    for c in it: line.chars()
        invariant
            it.seq() == line@,
            seen == it.seq().take(it.index() as int),
            string_views(fields@).push(current@) == split_fields(seen),
    {
        proof {
            lemma_split_fields_nonempty(seen);
            let next = seen.push(c);
            assert(next.drop_last() =~= seen);
            assert(next.last() == c);
        }
        let ghost before = string_views(fields@);
        if c == ',' {
            let field = string_of(&current);
            fields.push(field);
            current = Vec::new();
            assert(string_views(fields@) =~= before.push(field@));
            assert(string_views(fields@).push(current@) =~= split_fields(seen.push(c)));
        } else {
            let ghost old_current = current@;
            current.push(c);
            assert(string_views(fields@).push(current@) =~= before.push(old_current).update(
                before.len() as int,
                old_current.push(c),
            ));
        }
        proof {
            seen = seen.push(c);
        }
    }
    let last = string_of(&current);
    let ghost before = string_views(fields@);
    fields.push(last);
    assert(string_views(fields@) =~= before.push(current@));
    assert(seen =~= line@);
    fields
}

} // verus!
