use vstd::prelude::*;

verus! {

/// The most members a group takes while identifiers are being gathered.
pub const GROUP_CAPACITY: usize = 3;

/// An ordered list of identifiers that belong together.
#[derive(Debug, Clone)]
pub struct Group {
    pub members: Vec<String>,
}

impl View for Group {
    type V = Seq<String>;

    open spec fn view(&self) -> Seq<String> {
        self.members@
    }
}

impl Group {
    /// A group with no members.
    pub fn new() -> (g: Group)
        ensures
            g@ == Seq::<String>::empty(),
    {
        Group { members: Vec::new() }
    }

    /// Adds `student_id` at the end, unless the group already holds three members.
    pub fn add_member(&mut self, student_id: String)
        ensures
            old(self)@.len() < GROUP_CAPACITY ==> final(self)@ == old(self)@.push(student_id),
            old(self)@.len() >= GROUP_CAPACITY ==> final(self)@ == old(self)@,
    {
        if self.members.len() < GROUP_CAPACITY {
            self.members.push(student_id);
        }
    }

    /// Whether the group holds three members or more.
    pub fn is_full(&self) -> (r: bool)
        ensures
            r == (self@.len() >= GROUP_CAPACITY),
    {
        self.members.len() >= GROUP_CAPACITY
    }
}

} // verus!
