//! One directory of the scanned file tree: its place in the arena, its
//! accumulated size, and its links to parent and children.

use vstd::prelude::*;

verus! {

pub struct Directory {
    pub idx: usize,
    pub size: usize,
    pub name: String,
    pub parent: Option<usize>,
    pub children: Vec<usize>,
    pub files: Vec<(String, usize)>,
}

impl Directory {
    /// A fresh, empty directory at a given arena slot.
    pub fn new(name: &str, idx: usize, parent: Option<usize>) -> (r: Directory)
        ensures
            r.idx == idx,
            r.size == 0,
            r.name@ == name@,
            r.parent == parent,
            r.children@ == Seq::<usize>::empty(),
            r.files@ == Seq::<(String, usize)>::empty(),
    {
        Directory {
            idx,
            size: 0,
            name: name.to_owned(),
            parent,
            children: Vec::new(),
            files: Vec::new(),
        }
    }

    /// An exact copy.
    pub fn duplicate(&self) -> (r: Directory)
        ensures
            r.idx == self.idx,
            r.size == self.size,
            r.name@ == self.name@,
            r.parent == self.parent,
            r.children@ == self.children@,
            r.files.deep_view() == self.files.deep_view(),
    {
        let mut files: Vec<(String, usize)> = Vec::new();
        let mut i: usize = 0;
        while i < self.files.len()
            invariant
                i <= self.files@.len(),
                files.deep_view() =~~= self.files.deep_view().subrange(0, i as int),
            decreases self.files@.len() - i,
        {
            let name = self.files[i].0.clone();
            let size = self.files[i].1;
            files.push((name, size));
            proof {
                assert(files.deep_view() =~~= self.files.deep_view().subrange(0, i as int + 1));
            }
            i = i + 1;
        }
        proof {
            assert(files.deep_view() =~~= self.files.deep_view());
        }
        Directory {
            idx: self.idx,
            size: self.size,
            name: self.name.clone(),
            parent: self.parent,
            children: crate::text::copy_vec(&self.children),
            files,
        }
    }
}

} // verus!
