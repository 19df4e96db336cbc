//! Tag sets: the labels a node carries, without order and without repeats.

use vstd::prelude::*;

verus! {

/// The tags that a sequence of strings stands for: the set of their texts.
pub open spec fn tags_of(texts: Seq<Seq<char>>) -> Set<Seq<char>> {
    texts.to_set()
}

/// A set of tags.
///
/// The tags are kept in insertion order in a vector in which no text occurs
/// twice; the view forgets the order.
#[derive(Debug)]
pub struct TagSet {
    items: Vec<String>,
}

impl View for TagSet {
    type V = Set<Seq<char>>;

    closed spec fn view(&self) -> Set<Seq<char>> {
        tags_of(self.texts())
    }
}

impl TagSet {
    /// The texts of the stored strings, in insertion order.
    spec fn texts(&self) -> Seq<Seq<char>> {
        self.items@.map_values(|s: String| s@)
    }

    #[verifier::type_invariant]
    spec fn distinct(&self) -> bool {
        self.texts().no_duplicates()
    }

    /// The empty tag set.
    pub fn new() -> (r: Self)
        ensures
            r@ == Set::<Seq<char>>::empty(),
    {
        let r = TagSet { items: Vec::new() };
        assert(r.texts() =~= Seq::<Seq<char>>::empty());
        assert(r@ =~= Set::<Seq<char>>::empty());
        r
    }

    /// The number of distinct tags.
    pub fn len(&self) -> (r: usize)
        ensures
            self@.finite(),
            r == self@.len(),
    {
        proof {
            use_type_invariant(self);
            self.texts().unique_seq_to_set();
            vstd::seq_lib::seq_to_set_is_finite(self.texts());
        }
        self.items.len()
    }

    /// Whether the set holds no tag.
    pub fn is_empty(&self) -> (r: bool)
        ensures
            r == (self@ == Set::<Seq<char>>::empty()),
    {
        proof {
            if self.items@.len() > 0 {
                assert(self.texts()[0] == self.items@[0]@);
                assert(self.texts().contains(self.texts()[0]));
                assert(self@.contains(self.items@[0]@));
            } else {
                assert(self.texts() =~= Seq::<Seq<char>>::empty());
                assert(self@ =~= Set::<Seq<char>>::empty());
            }
        }
        self.items.len() == 0
    }

    /// Whether `tag` is a member.
    pub fn contains(&self, tag: &str) -> (r: bool)
        ensures
            r == self@.contains(tag@),
    {
        let wanted: String = tag.to_owned();
        let mut i: usize = 0;
        while i < self.items.len()
            invariant
                i <= self.items@.len(),
                wanted@ == tag@,
                forall|j: int| 0 <= j < i ==> self.texts()[j] != tag@,
            decreases self.items@.len() - i,
        {
            if self.items[i] == wanted {
                proof {
                    assert(self.texts()[i as int] == tag@);
                    assert(self.texts().contains(tag@));
                }
                return true;
            }
            i += 1;
        }
        proof {
            assert(!self.texts().contains(tag@));
        }
        false
    }

    /// Adds `tag`. Returns whether it was new; a tag already present is not
    /// stored a second time.
    pub fn insert(&mut self, tag: &str) -> (r: bool)
        ensures
            final(self)@ == old(self)@.insert(tag@),
            r == !old(self)@.contains(tag@),
    {
        proof {
            use_type_invariant(&*self);
        }
        if self.contains(tag) {
            assert(self@.insert(tag@) =~= self@);
            false
        } else {
            let ghost before = self.texts();
            let mut items: Vec<String> = Vec::new();
            std::mem::swap(&mut items, &mut self.items);
            items.push(tag.to_owned());
            proof {
                let after = items@.map_values(|s: String| s@);
                assert(after =~= before.push(tag@));
                assert forall|i: int, j: int|
                    0 <= i < after.len() && 0 <= j < after.len() && i != j
                    implies after[i] != after[j] by {
                    if i < before.len() {
                        assert(before.contains(before[i]));
                    }
                    if j < before.len() {
                        assert(before.contains(before[j]));
                    }
                }
            }
            self.items = items;
            proof {
                assert(self.texts() =~= before.push(tag@));
                before.lemma_push_to_set_commute(tag@);
            }
            true
        }
    }

    /// The tags, each once, in the order in which they were first added.
    pub fn to_vec(&self) -> (r: Vec<String>)
        ensures
            r@.map_values(|s: String| s@).no_duplicates(),
            tags_of(r@.map_values(|s: String| s@)) == self@,
            r@.len() == self@.len(),
    {
        proof {
            use_type_invariant(self);
            self.texts().unique_seq_to_set();
        }
        let mut r: Vec<String> = Vec::new();
        let mut i: usize = 0;
        while i < self.items.len()
            invariant
                i <= self.items@.len(),
                r@ == self.items@.take(i as int),
            decreases self.items@.len() - i,
        {
            r.push(self.items[i].clone());
            assert(self.items@.take(i + 1) =~= self.items@.take(i as int).push(
                self.items@[i as int],
            ));
            i += 1;
        }
        assert(self.items@.take(self.items@.len() as int) =~= self.items@);
        r
    }

    /// The tag set of a list of strings. A string that occurs more than once
    /// counts once.
    pub fn from_strs(tags: &Vec<&str>) -> (r: Self)
        ensures
            r@ == tags_of(tags@.map_values(|s: &str| s@)),
    {
        let ghost texts = tags@.map_values(|s: &str| s@);
        let mut r = TagSet::new();
        let mut i: usize = 0;
        while i < tags.len()
            invariant
                i <= tags@.len(),
                texts == tags@.map_values(|s: &str| s@),
                r@ == tags_of(texts.take(i as int)),
            decreases tags@.len() - i,
        {
            r.insert(tags[i]);
            proof {
                let prev = texts.take(i as int);
                assert(texts.take(i + 1) =~= prev.push(texts[i as int]));
                prev.lemma_push_to_set_commute(texts[i as int]);
            }
            i += 1;
        }
        assert(texts.take(tags@.len() as int) =~= texts);
        r
    }
}

impl Clone for TagSet {
    /// A copy with the same tags.
    fn clone(&self) -> (r: Self)
        ensures
            r@ == self@,
    {
        proof {
            use_type_invariant(self);
        }
        let mut items: Vec<String> = Vec::new();
        let mut i: usize = 0;
        while i < self.items.len()
            invariant
                i <= self.items@.len(),
                items@.len() == i,
                forall|j: int| 0 <= j < i ==> items@[j] == self.items@[j],
            decreases self.items@.len() - i,
        {
            items.push(self.items[i].clone());
            i += 1;
        }
        assert(items@ =~= self.items@);
        TagSet { items }
    }
}

} // verus!
