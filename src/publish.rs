//! The publisher's traversal of the output tree, kept as an explicit
//! worklist of paths relative to the tree's root: a directory is created
//! before anything below it is copied, and no entry is skipped.
use vstd::prelude::*;
use crate::entry_path::views;

verus! {

/// The path of the entry `name` inside the directory `parent`, both
/// relative to the tree's root (the root itself is the empty path).
pub open spec fn child_path_of(parent: Seq<char>, name: Seq<char>) -> Seq<char> {
    if parent.len() == 0 {
        name
    } else {
        parent + "/"@ + name
    }
}

/// The paths of the entries `names` inside `parent`, in order.
pub open spec fn children_of(parent: Seq<char>, names: Seq<Seq<char>>) -> Seq<Seq<char>> {
    names.map_values(|n: Seq<char>| child_path_of(parent, n))
}

/// Computes `child_path_of`.
pub fn child_path(parent: &str, name: &str) -> (r: String)
    ensures
        r@ == child_path_of(parent@, name@),
{
    if parent.unicode_len() == 0 {
        return name.to_owned();
    }
    let mut r = parent.to_owned();
    r.append("/");
    r.append(name);
    r
}

/// The entries still to copy; the last one is copied next.
pub struct CopyWork {
    pending: Vec<String>,
}

impl View for CopyWork {
    type V = Seq<Seq<char>>;

    closed spec fn view(&self) -> Seq<Seq<char>> {
        views(self.pending@)
    }
}

impl CopyWork {
    /// The work of copying a whole tree: its root alone.
    pub fn new() -> (r: CopyWork)
        ensures
            r@ == seq![Seq::<char>::empty()],
    {
        let mut pending: Vec<String> = Vec::new();
        pending.push(String::new());
        let r = CopyWork { pending };
        assert(r@ =~= seq![Seq::<char>::empty()]);
        r
    }

    /// Nothing is left to copy.
    pub fn is_done(&self) -> (r: bool)
        ensures
            r == (self@.len() == 0),
    {
        self.pending.len() == 0
    }

    /// Takes the entry to copy next.
    pub fn next(&mut self) -> (r: Option<String>)
        ensures
            old(self)@.len() == 0 ==> r is None && final(self)@ == old(self)@,
            old(self)@.len() > 0 ==> (r matches Some(p) && p@ == old(self)@.last()),
            old(self)@.len() > 0 ==> final(self)@ == old(self)@.drop_last(),
    {
        let r = self.pending.pop();
        proof {
            if old(self)@.len() > 0 {
                assert(self@ =~= old(self)@.drop_last());
            }
        }
        r
    }

    /// Adds the entries of the directory `parent`, just created at the
    /// destination, so that each of them is copied after it.
    pub fn push_children(&mut self, parent: &str, names: &Vec<String>)
        ensures
            final(self)@ == old(self)@ + children_of(parent@, views(names@)),
    {
        let mut i: usize = 0;
        while i < names.len()
            invariant
                i <= names.len(),
                self@ == old(self)@ + children_of(parent@, views(names@).take(i as int)),
            decreases names.len() - i,
        {
            let p = child_path(parent, names[i].as_str());
            let ghost before = self@;
            self.pending.push(p);
            proof {
                assert(self@ =~= before.push(p@));
                assert(children_of(parent@, views(names@).take(i + 1)) =~= children_of(
                    parent@,
                    views(names@).take(i as int),
                ).push(p@));
            }
            i = i + 1;
        }
        assert(views(names@).take(names.len() as int) =~= views(names@));
    }
}

} // verus!
