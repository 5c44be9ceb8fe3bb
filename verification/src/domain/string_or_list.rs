//! A group of a pattern: one name, or a list of alternative names.

use vstd::prelude::*;

verus! {

/// Either a single card name or a list of names, any one of which will do.
#[derive(Debug, Clone, PartialEq, Eq, Hash)]
pub enum StringOrList {
    String(String),
    List(Vec<String>),
}

/// The characters of each name of a list of borrowed names.
pub open spec fn names_of(list: Seq<&String>) -> Seq<Seq<char>> {
    Seq::new(list.len(), |i: int| list[i]@)
}

/// No name stands at two places of the list.
pub open spec fn distinct_names(list: Seq<Seq<char>>) -> bool {
    forall|i: int, j: int| 0 <= i < j < list.len() ==> list[i] != list[j]
}

/// The names of a list, each once, in the order in which they first stand in
/// the list.
pub open spec fn first_occurrences(list: Seq<Seq<char>>) -> Seq<Seq<char>>
    decreases list.len(),
{
    if list.len() == 0 {
        Seq::empty()
    } else {
        let front = first_occurrences(list.drop_last());
        if front.contains(list.last()) {
            front
        } else {
            front.push(list.last())
        }
    }
}

/// The first occurrences of a list hold no name twice, and hold exactly the
/// names of the list.
pub proof fn lemma_first_occurrences(list: Seq<Seq<char>>)
    ensures
        distinct_names(first_occurrences(list)),
        first_occurrences(list).to_set() == list.to_set(),
    decreases list.len(),
{
    let firsts = first_occurrences(list);
    if list.len() == 0 {
        assert(firsts.to_set() =~= list.to_set());
    } else {
        let shorter = list.drop_last();
        let front = first_occurrences(shorter);
        lemma_first_occurrences(shorter);
        assert forall|name: Seq<char>| firsts.contains(name) <==> list.contains(name) by {
            if firsts.contains(name) {
                let at = choose|at: int| 0 <= at < firsts.len() && firsts[at] == name;
                if at < front.len() {
                    assert(front.contains(firsts[at]));
                    assert(shorter.to_set().contains(name));
                    let w = choose|w: int| 0 <= w < shorter.len() && shorter[w] == name;
                    assert(list[w] == name);
                } else {
                    assert(list[list.len() - 1] == name);
                }
            }
            if list.contains(name) {
                let w = choose|w: int| 0 <= w < list.len() && list[w] == name;
                if w < shorter.len() {
                    assert(shorter[w] == name);
                    assert(shorter.to_set().contains(name));
                    assert(front.contains(name));
                    let at = choose|at: int| 0 <= at < front.len() && front[at] == name;
                    assert(firsts[at] == name);
                } else if front.contains(name) {
                } else {
                    assert(firsts[front.len() as int] == name);
                }
            }
        }
        assert(firsts.to_set() =~= list.to_set());
        assert forall|i: int, j: int| 0 <= i < j < firsts.len() implies firsts[i]
            != firsts[j] by {
            if j == front.len() {
                assert(front.contains(firsts[i]));
            }
        }
    }
}

impl StringOrList {
    /// The alternative names, in the order in which they were written.
    pub open spec fn alternatives(&self) -> Seq<Seq<char>> {
        match self {
            StringOrList::String(name) => seq![name@],
            StringOrList::List(list) => Seq::new(list@.len(), |i: int| list@[i]@),
        }
    }

    /// The alternative names, each once: a name that is written several times
    /// stands where it was written first.
    ///
    /// The result holds no name twice, and holds exactly the names of
    /// [`StringOrList::as_vec`].
    pub fn as_set(&self) -> (set: Vec<&String>)
        ensures
            names_of(set@) == first_occurrences(self.alternatives()),
            distinct_names(names_of(set@)),
            names_of(set@).to_set() == self.alternatives().to_set(),
    {
        let all = self.as_vec();
        let mut set: Vec<&String> = Vec::new();
        let mut i: usize = 0;
        proof {
            assert(names_of(all@).take(0) =~= Seq::<Seq<char>>::empty());
            assert(names_of(set@) =~= Seq::<Seq<char>>::empty());
        }
        while i < all.len()
            invariant
                i <= all.len(),
                names_of(set@) == first_occurrences(names_of(all@).take(i as int)),
            decreases all.len() - i,
        {
            let candidate: &String = all[i];
            let known = holds_name(&set, candidate);
            let ghost before = names_of(set@);
            if !known {
                set.push(candidate);
            }
            proof {
                let next = names_of(all@).take(i + 1);
                assert(next.drop_last() =~= names_of(all@).take(i as int));
                assert(next.last() == candidate@);
                if !known {
                    assert(names_of(set@) =~= before.push(candidate@));
                }
            }
            i = i + 1;
        }
        proof {
            assert(names_of(all@).take(all.len() as int) =~= names_of(all@));
            lemma_first_occurrences(self.alternatives());
        }
        set
    }

    /// The alternative names, in the order in which they were written.
    pub fn as_vec(&self) -> (list: Vec<&String>)
        ensures
            names_of(list@) == self.alternatives(),
    {
        let mut list: Vec<&String> = Vec::new();
        match self {
            StringOrList::String(name) => {
                list.push(name);
                assert(names_of(list@) =~= self.alternatives());
            },
            StringOrList::List(names) => {
                let mut i: usize = 0;
                while i < names.len()
                    invariant
                        i <= names.len(),
                        list.len() == i,
                        forall|a: int| 0 <= a < i ==> list[a]@ == names[a]@,
                    decreases names.len() - i,
                {
                    list.push(&names[i]);
                    i = i + 1;
                }
                assert(names_of(list@) =~= self.alternatives());
            },
        }
        list
    }
}

/// Whether `name` stands in `list`.
pub fn holds_name(list: &Vec<&String>, name: &String) -> (found: bool)
    ensures
        found == names_of(list@).contains(name@),
{
    let mut i: usize = 0;
    while i < list.len()
        invariant
            i <= list.len(),
            forall|a: int| 0 <= a < i ==> names_of(list@)[a] != name@,
        decreases list.len() - i,
    {
        if *list[i] == *name {
            assert(names_of(list@)[i as int] == name@);
            return true;
        }
        i = i + 1;
    }
    false
}

impl Default for StringOrList {
    /// The empty list of alternatives.
    fn default() -> (group: Self)
        ensures
            group.alternatives() == Seq::<Seq<char>>::empty(),
    {
        let group = StringOrList::List(Vec::new());
        assert(group.alternatives() =~= Seq::<Seq<char>>::empty());
        group
    }
}

} // verus!
