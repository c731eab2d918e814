use crate::text::{find_text, first_index, lemma_first_index, texts};
use vstd::prelude::*;

verus! {

/// What adding a name leaves in a waiting list of capacity `size` that holds
/// `names`: the name goes in at the end, and when that makes the list longer
/// than its capacity the oldest name leaves.
pub open spec fn added(names: Seq<Seq<char>>, size: nat, name: Seq<char>) -> Seq<Seq<char>> {
    if names.len() + 1 > size {
        names.push(name).drop_first()
    } else {
        names.push(name)
    }
}

/// Adding to a list within its capacity keeps the newest names, as many as
/// the capacity allows, oldest first; with room left, the new name is last.
pub proof fn lemma_added_keeps_newest(names: Seq<Seq<char>>, size: nat, name: Seq<char>)
    requires
        names.len() <= size,
    ensures
        ({
            let all = names.push(name);
            let keep = if all.len() > size { size as int } else { all.len() as int };
            added(names, size, name) == all.subrange(all.len() - keep, all.len() as int)
        }),
        added(names, size, name).len() <= size,
        size > 0 ==> added(names, size, name).last() == name,
{
    let all = names.push(name);
    if all.len() > size {
        assert(all.drop_first() =~= all.subrange(all.len() - size, all.len() as int));
    } else {
        assert(all =~= all.subrange(0, all.len() as int));
    }
}

/// A waiting list of fixed capacity: names come in at the end, and the
/// oldest leave first when it is full.
pub struct Wlist {
    list: Vec<String>,
    size: usize,
}

impl Wlist {
    #[verifier::type_invariant]
    spec fn within_capacity(self) -> bool {
        self.list.len() <= self.size
    }

    /// The names in the list, oldest first.
    pub closed spec fn names(&self) -> Seq<Seq<char>> {
        texts(self.list@)
    }

    /// How many names the list keeps at most.
    pub closed spec fn capacity(&self) -> nat {
        self.size as nat
    }

    /// An empty list that keeps at most `size` names.
    pub fn new(size: usize) -> (w: Wlist)
        ensures
            w.names() == Seq::<Seq<char>>::empty(),
            w.capacity() == size,
    {
        let w = Wlist { list: Vec::new(), size };
        assert(w.names() =~= Seq::<Seq<char>>::empty());
        w
    }

    /// Adds a name at the end; when the list then holds more names than its
    /// capacity, its oldest name leaves.
    pub fn add(&mut self, name: String)
        ensures
            final(self).names() == added(old(self).names(), old(self).capacity(), name@),
            final(self).capacity() == old(self).capacity(),
            final(self).names().len() <= final(self).capacity(),
    {
        proof {
            use_type_invariant(&*self);
        }
        let ghost old_names = self.names();
        let mut list: Vec<String> = Vec::new();
        std::mem::swap(&mut list, &mut self.list);
        let ghost name_view = name@;
        list.push(name);
        if list.len() > self.size {
            list.remove(0);
        }
        self.list = list;
        assert(self.names() =~= added(old_names, self.size as nat, name_view));
    }

    /// Removes the name at `index`, which must be in the list.
    pub fn remove(&mut self, index: usize)
        requires
            index < old(self).names().len(),
        ensures
            final(self).names() == old(self).names().remove(index as int),
            final(self).capacity() == old(self).capacity(),
    {
        proof {
            use_type_invariant(&*self);
        }
        let mut list: Vec<String> = Vec::new();
        std::mem::swap(&mut list, &mut self.list);
        list.remove(index);
        self.list = list;
        assert(self.names() =~= old(self).names().remove(index as int));
    }

    /// Where `node` first stands in the list, as an `i32`; -1 when it is
    /// not there.
    pub fn search(&self, node: &str) -> (r: i32)
        ensures
            r == (if self.names().contains(node@) {
                first_index(self.names(), node@) as i32
            } else {
                -1i32
            }),
    {
        let i = find_text(&self.list, node);
        proof {
            lemma_first_index(self.names(), node@);
        }
        if i < self.list.len() {
            i as i32
        } else {
            -1
        }
    }

    /// Removes the first occurrence of `node`. The node must be in the list,
    /// at an index that fits in an `i32`.
    pub fn remove_node(&mut self, node: &str)
        requires
            old(self).names().contains(node@),
            first_index(old(self).names(), node@) <= i32::MAX,
        ensures
            final(self).names() == old(self).names().remove(first_index(old(self).names(), node@)),
            final(self).capacity() == old(self).capacity(),
    {
        proof {
            lemma_first_index(self.names(), node@);
        }
        let index: i32 = self.search(node);
        self.remove(index as usize);
    }

    /// The names in the list, oldest first.
    pub fn to_vec(&self) -> (v: Vec<String>)
        ensures
            texts(v@) == self.names(),
    {
        let mut v: Vec<String> = Vec::new();
        let mut i: usize = 0;
        while i < self.list.len()
            invariant
                i <= self.list@.len(),
                v@.len() == i,
                texts(v@) =~= self.names().subrange(0, i as int),
            decreases self.list@.len() - i,
        {
            let c = self.list[i].clone();
            assert(c@ == self.names()[i as int]);
            v.push(c);
            i = i + 1;
            assert(texts(v@) =~= self.names().subrange(0, i as int));
        }
        v
    }

    /// A list with the same names and capacity.
    pub fn clone(&self) -> (w: Wlist)
        ensures
            w.names() == self.names(),
            w.capacity() == self.capacity(),
    {
        proof {
            use_type_invariant(self);
        }
        let v = self.to_vec();
        assert(texts(v@).len() == v@.len());
        let w = Wlist { list: v, size: self.size };
        assert(w.names() =~= self.names());
        w
    }
}

} // verus!
