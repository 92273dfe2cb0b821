use vstd::prelude::*;
use vstd::string::{StrSliceExecFns, StringExecFns};

verus! {

/// The letters that label groups, in order.
pub open spec fn alphabet() -> Seq<char> {
    seq![
        'A', 'B', 'C', 'D', 'E', 'F', 'G', 'H', 'I', 'J', 'K', 'L', 'M',
        'N', 'O', 'P', 'Q', 'R', 'S', 'T', 'U', 'V', 'W', 'X', 'Y', 'Z',
    ]
}

/// The label of the group at `index`: one letter for the first 26 groups,
/// then two letters, "AA" being the label of index 26.
pub open spec fn label(index: nat) -> Seq<char> {
    if index < 26 {
        seq![alphabet()[index as int]]
    } else {
        seq![alphabet()[index as int / 26 - 1], alphabet()[index as int % 26]]
    }
}

/// The number of groups that two letters at most can label.
pub const LABEL_LIMIT: usize = 702;

/// The label of the group at zero-based `index`: "A" to "Z", then "AA", "AB",
/// and so on up to "ZZ".
pub fn group_index_to_letter(index: usize) -> (r: String)
    requires
        index < LABEL_LIMIT,
    ensures
        r@ == label(index as nat),
{
    let letters = "ABCDEFGHIJKLMNOPQRSTUVWXYZ";
    proof {
        reveal_strlit("ABCDEFGHIJKLMNOPQRSTUVWXYZ");
        assert(letters@ =~= alphabet());
    }
    if index < 26 {
        let r = String::from_str(letters.substring_ascii(index, index + 1));
        proof {
            assert(r@ =~= label(index as nat));
        }
        r
    } else {
        let first = index / 26 - 1;
        let second = index % 26;
        let mut r = String::from_str(letters.substring_ascii(first, first + 1));
        r.append(letters.substring_ascii(second, second + 1));
        proof {
            assert(r@ =~= label(index as nat));
        }
        r
    }
}

} // verus!
