use vstd::prelude::*;
use vstd::string::{StrSliceExecFns, StringExecFns};

use crate::group::{Group, GROUP_CAPACITY};
use crate::partition::groups_view;

verus! {

/// The text of each identifier, in order.
pub open spec fn texts(s: Seq<String>) -> Seq<Seq<char>> {
    s.map_values(|m: String| m@)
}

/// `i` is the first position at which `s` holds `id`.
pub open spec fn first_match(s: Seq<String>, id: Seq<char>, i: int) -> bool {
    &&& 0 <= i < s.len()
    &&& s[i]@ == id
    &&& forall|j: int| 0 <= j < i ==> s[j]@ != id
}

/// `s` holds `id` somewhere.
pub open spec fn has_member(s: Seq<String>, id: Seq<char>) -> bool {
    exists|i: int| 0 <= i < s.len() && #[trigger] s[i]@ == id
}

/// The first position at which `s` holds `id`.
pub open spec fn first_index(s: Seq<String>, id: Seq<char>) -> int {
    choose|i: int| first_match(s, id, i)
}

/// `g` is the first group of `gs` that holds `id`.
pub open spec fn first_holder(gs: Seq<Seq<String>>, id: Seq<char>, g: int) -> bool {
    &&& 0 <= g < gs.len()
    &&& has_member(gs[g], id)
    &&& forall|h: int| 0 <= h < g ==> !has_member(#[trigger] gs[h], id)
}

/// The first group of `gs` that holds `id`.
pub open spec fn first_group(gs: Seq<Seq<String>>, id: Seq<char>) -> int {
    choose|g: int| first_holder(gs, id, g)
}

proof fn lemma_first_match_unique(s: Seq<String>, id: Seq<char>, i: int)
    requires
        first_match(s, id, i),
    ensures
        first_index(s, id) == i,
{
    let k = first_index(s, id);
    assert(first_match(s, id, k));
    if k < i {
        assert(s[k]@ != id);
    } else if i < k {
        assert(s[i]@ != id);
    }
}

proof fn lemma_first_holder_unique(gs: Seq<Seq<String>>, id: Seq<char>, g: int)
    requires
        first_holder(gs, id, g),
    ensures
        first_group(gs, id) == g,
{
    let k = first_group(gs, id);
    assert(first_holder(gs, id, k));
    if k < g {
        assert(!has_member(gs[k], id));
    } else if g < k {
        assert(!has_member(gs[g], id));
    }
}

/// The position of the first member equal to `id`, if any.
fn find_member(members: &Vec<String>, id: &String) -> (r: Option<usize>)
    ensures
        r matches Some(i) ==> first_match(members@, id@, i as int),
        r is None ==> !has_member(members@, id@),
{
    let mut i: usize = 0;
    while i < members.len()
        invariant
            i <= members@.len(),
            forall|j: int| 0 <= j < i ==> members@[j]@ != id@,
        decreases members@.len() - i,
    {
        if members[i] == *id {
            return Some(i);
        }
        i += 1;
    }
    None
}

/// The first group that holds `id`, and the member's position in it.
fn find_holder(groups: &Vec<Group>, id: &String) -> (r: Option<(usize, usize)>)
    ensures
        r matches Some((g, i)) ==> first_holder(groups_view(groups@), id@, g as int)
            && first_match(groups@[g as int]@, id@, i as int),
        r is None ==> forall|g: int|
            0 <= g < groups@.len() ==> !has_member(#[trigger] groups_view(groups@)[g], id@),
{
    let mut g: usize = 0;
    while g < groups.len()
        invariant
            g <= groups@.len(),
            forall|h: int| 0 <= h < g ==> !has_member(#[trigger] groups_view(groups@)[h], id@),
        decreases groups@.len() - g,
    {
        match find_member(&groups[g].members, id) {
            Some(i) => {
                return Some((g, i));
            },
            None => {},
        }
        g += 1;
    }
    None
}

/// A character of Unicode's White_Space property.
pub open spec fn is_white_space(c: char) -> bool {
    ||| '\u{9}' <= c <= '\u{d}'
    ||| c == ' '
    ||| c == '\u{85}'
    ||| c == '\u{a0}'
    ||| c == '\u{1680}'
    ||| '\u{2000}' <= c <= '\u{200a}'
    ||| c == '\u{2028}'
    ||| c == '\u{2029}'
    ||| c == '\u{202f}'
    ||| c == '\u{205f}'
    ||| c == '\u{3000}'
}

/// `s` without the white space at its front.
pub open spec fn trim_start(s: Seq<char>) -> Seq<char>
    decreases s.len(),
{
    if s.len() > 0 && is_white_space(s[0]) {
        trim_start(s.drop_first())
    } else {
        s
    }
}

/// `s` without the white space at its end.
pub open spec fn trim_end(s: Seq<char>) -> Seq<char>
    decreases s.len(),
{
    if s.len() > 0 && is_white_space(s.last()) {
        trim_end(s.drop_last())
    } else {
        s
    }
}

/// `s` without the white space at either end.
pub open spec fn trimmed(s: Seq<char>) -> Seq<char> {
    trim_end(trim_start(s))
}

/// Relies on `str::trim`: leading and trailing characters of Unicode's
/// White_Space property are cut off.
#[verifier::external_body]
fn trim_text(s: &str) -> (r: String)
    ensures
        r@ == trimmed(s@),
{
    s.trim().to_string()
}

/// The command word that removes an identifier, in lower case.
pub open spec fn delete_lower() -> Seq<char> {
    seq!['d', 'e', 'l', 'e', 't', 'e', ':']
}

/// The command word that removes an identifier, in upper case.
pub open spec fn delete_upper() -> Seq<char> {
    seq!['D', 'E', 'L', 'E', 'T', 'E', ':']
}

/// The length of the command word.
pub const DELETE_WORD_LEN: usize = 7;

/// `t` starts with "delete:", in any mix of upper and lower case.
pub open spec fn is_delete_command(t: Seq<char>) -> bool {
    &&& t.len() >= DELETE_WORD_LEN
    &&& forall|i: int|
        0 <= i < DELETE_WORD_LEN ==> t[i] == delete_lower()[i] || t[i] == delete_upper()[i]
}

/// The identifier that a delete command names.
pub open spec fn deleted_id(t: Seq<char>) -> Seq<char> {
    trimmed(t.skip(DELETE_WORD_LEN as int))
}

/// Some group of `gs` holds `id`.
pub open spec fn held_anywhere(gs: Seq<Seq<String>>, id: Seq<char>) -> bool {
    exists|g: int| 0 <= g < gs.len() && has_member(#[trigger] gs[g], id)
}

fn starts_with_delete(t: &str) -> (r: bool)
    ensures
        r == is_delete_command(t@),
{
    if t.unicode_len() < DELETE_WORD_LEN {
        return false;
    }
    let lower = "delete:";
    let upper = "DELETE:";
    proof {
        reveal_strlit("delete:");
        reveal_strlit("DELETE:");
        assert(lower@ =~= delete_lower());
        assert(upper@ =~= delete_upper());
    }
    let mut i: usize = 0;
    while i < DELETE_WORD_LEN
        invariant
            t@.len() >= DELETE_WORD_LEN,
            lower@ == delete_lower(),
            upper@ == delete_upper(),
            i <= DELETE_WORD_LEN,
            forall|j: int| 0 <= j < i ==> t@[j] == delete_lower()[j] || t@[j] == delete_upper()[j],
        decreases DELETE_WORD_LEN - i,
    {
        let c = t.get_char(i);
        if c != lower.get_char(i) && c != upper.get_char(i) {
            return false;
        }
        i += 1;
    }
    true
}

/// What reading one line did.
pub enum LineOutcome {
    /// A blank line that changed nothing.
    Blank,
    /// A blank line in batch mode closed the current group.
    GroupClosed,
    /// The identifier joined the current group.
    Added(String),
    /// The identifier joined the current group, which became full and was closed.
    Completed(String),
    /// The identifier was removed from the current group.
    RemovedFromCurrent(String),
    /// The identifier was removed from the closed group at the index given.
    RemovedFromGroup(String, usize),
    /// No group holds the identifier.
    NotFound(String),
}

/// Identifiers being gathered line by line into groups.
///
/// In interactive mode a group is closed as soon as it holds three members;
/// in batch mode groups are closed by blank lines and may grow to any size.
pub struct Intake {
    pub groups: Vec<Group>,
    pub current: Group,
    pub batch_mode: bool,
}

impl Intake {
    /// In interactive mode the open group always has room for one more.
    pub open spec fn wf(&self) -> bool {
        !self.batch_mode ==> self.current@.len() < GROUP_CAPACITY
    }

    /// Nothing gathered yet.
    pub fn new(batch_mode: bool) -> (r: Intake)
        ensures
            r.wf(),
            r.batch_mode == batch_mode,
            r.groups@.len() == 0,
            r.current@.len() == 0,
    {
        Intake { groups: Vec::new(), current: Group::new(), batch_mode }
    }

    /// How many groups have been closed.
    pub fn group_count(&self) -> (r: usize)
        ensures
            r == self.groups@.len(),
    {
        self.groups.len()
    }

    fn close_current(&mut self)
        ensures
            groups_view(final(self).groups@) == groups_view(old(self).groups@).push(
                old(self).current@,
            ),
            final(self).current@.len() == 0,
            final(self).batch_mode == old(self).batch_mode,
    {
        let mut done = Group::new();
        std::mem::swap(&mut done, &mut self.current);
        proof {
            assert(groups_view(self.groups@.push(done)) =~= groups_view(self.groups@).push(done@));
        }
        self.groups.push(done);
    }

    /// Closes the open group if it holds anyone, and tells how many it held.
    pub fn close_group(&mut self) -> (r: Option<usize>)
        ensures
            final(self).batch_mode == old(self).batch_mode,
            final(self).wf(),
            old(self).current@.len() == 0 ==> r is None && final(self).groups@ == old(
                self,
            ).groups@ && final(self).current@.len() == 0,
            old(self).current@.len() > 0 ==> r == Some(old(self).current@.len() as usize)
                && groups_view(final(self).groups@) == groups_view(old(self).groups@).push(
                old(self).current@,
            ) && final(self).current@.len() == 0,
    {
        let n = self.current.members.len();
        if n == 0 {
            return None;
        }
        self.close_current();
        Some(n)
    }

    /// Reads one line: a blank line closes the open group in batch mode, a
    /// line starting with "delete:" removes the identifier it names from the
    /// open group or else from the first closed group that holds it, and any
    /// other line is an identifier that joins the open group. White space
    /// around the line and around a deleted identifier is ignored.
    pub fn accept_line(&mut self, line: &str) -> (r: LineOutcome)
        requires
            old(self).wf(),
        ensures
            final(self).wf(),
            final(self).batch_mode == old(self).batch_mode,
            ({
                let t = trimmed(line@);
                let batch = old(self).batch_mode;
                let cur = old(self).current@;
                let gv = groups_view(old(self).groups@);
                &&& (t.len() == 0 && batch && cur.len() > 0) ==> {
                    &&& r is GroupClosed
                    &&& groups_view(final(self).groups@) == gv.push(cur)
                    &&& final(self).current@.len() == 0
                }
                &&& (t.len() == 0 && !(batch && cur.len() > 0)) ==> {
                    &&& r is Blank
                    &&& final(self).groups@ == old(self).groups@
                    &&& final(self).current@ == cur
                }
                &&& (t.len() > 0 && is_delete_command(t) && has_member(cur, deleted_id(t))) ==> {
                    &&& r matches LineOutcome::RemovedFromCurrent(s) && s@ == deleted_id(t)
                    &&& final(self).current@ == cur.remove(first_index(cur, deleted_id(t)))
                    &&& final(self).groups@ == old(self).groups@
                }
                &&& (t.len() > 0 && is_delete_command(t) && !has_member(cur, deleted_id(t))
                    && held_anywhere(gv, deleted_id(t))) ==> {
                    let id = deleted_id(t);
                    let g = first_group(gv, id);
                    &&& r matches LineOutcome::RemovedFromGroup(s, k) && s@ == id && k == g
                    &&& groups_view(final(self).groups@) == gv.update(
                        g,
                        gv[g].remove(first_index(gv[g], id)),
                    )
                    &&& final(self).current@ == cur
                }
                &&& (t.len() > 0 && is_delete_command(t) && !has_member(cur, deleted_id(t))
                    && !held_anywhere(gv, deleted_id(t))) ==> {
                    &&& r matches LineOutcome::NotFound(s) && s@ == deleted_id(t)
                    &&& final(self).groups@ == old(self).groups@
                    &&& final(self).current@ == cur
                }
                &&& (t.len() > 0 && !is_delete_command(t) && (batch || cur.len() + 1
                    < GROUP_CAPACITY)) ==> {
                    &&& r matches LineOutcome::Added(s) && s@ == t
                    &&& texts(final(self).current@) == texts(cur).push(t)
                    &&& final(self).groups@ == old(self).groups@
                }
                &&& (t.len() > 0 && !is_delete_command(t) && !batch && cur.len() + 1
                    == GROUP_CAPACITY) ==> {
                    &&& r matches LineOutcome::Completed(s) && s@ == t
                    &&& groups_view(final(self).groups@).drop_last() == gv
                    &&& final(self).groups@.len() == gv.len() + 1
                    &&& texts(final(self).groups@.last()@) == texts(cur).push(t)
                    &&& final(self).current@.len() == 0
                }
            }),
    {
        let t = trim_text(line);
        let n = t.as_str().unicode_len();
        if n == 0 {
            if self.batch_mode && self.current.members.len() > 0 {
                self.close_current();
                return LineOutcome::GroupClosed;
            }
            return LineOutcome::Blank;
        }
        if starts_with_delete(t.as_str()) {
            let id = trim_text(t.as_str().substring_char(DELETE_WORD_LEN, n));
            match find_member(&self.current.members, &id) {
                Some(i) => {
                    self.current.members.remove(i);
                    proof {
                        lemma_first_match_unique(old(self).current@, id@, i as int);
                    }
                    return LineOutcome::RemovedFromCurrent(id);
                },
                None => {},
            }
            match find_holder(&self.groups, &id) {
                Some((g, i)) => {
                    let ghost gv = groups_view(self.groups@);
                    let mut holder = self.groups.remove(g);
                    holder.members.remove(i);
                    self.groups.insert(g, holder);
                    proof {
                        lemma_first_holder_unique(gv, id@, g as int);
                        lemma_first_match_unique(gv[g as int], id@, i as int);
                        assert(groups_view(self.groups@) =~= gv.update(
                            g as int,
                            gv[g as int].remove(i as int),
                        ));
                    }
                    return LineOutcome::RemovedFromGroup(id, g);
                },
                None => {
                    return LineOutcome::NotFound(id);
                },
            }
        }
        let ghost cur = self.current@;
        if self.batch_mode {
            self.current.members.push(t.clone());
            proof {
                assert(texts(self.current@) =~= texts(cur).push(t@));
            }
            return LineOutcome::Added(t);
        }
        self.current.add_member(t.clone());
        proof {
            assert(texts(self.current@) =~= texts(cur).push(t@));
        }
        if self.current.is_full() {
            let ghost filled = self.current@;
            let ghost gv = groups_view(self.groups@);
            self.close_current();
            proof {
                let k = self.groups@.len() - 1;
                assert(groups_view(self.groups@)[k] == self.groups@.last()@);
                assert(groups_view(self.groups@).drop_last() =~= gv);
                assert(self.groups@.last()@ == filled);
            }
            return LineOutcome::Completed(t);
        }
        LineOutcome::Added(t)
    }

    /// The groups gathered, the open one last if it holds anyone.
    pub fn finish(self) -> (r: Vec<Group>)
        ensures
            self.current@.len() == 0 ==> r@ == self.groups@,
            self.current@.len() > 0 ==> groups_view(r@) == groups_view(self.groups@).push(
                self.current@,
            ),
    {
        let mut this = self;
        this.close_group();
        this.groups
    }
}

} // verus!
