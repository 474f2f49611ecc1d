//! The embedding table: text keys to byte contents, built by inserting one
//! entry after another.
use vstd::prelude::*;
use crate::plan::PlanEntry;

verus! {

/// The map that inserting `pairs` one after another into an empty map
/// yields; a later pair replaces an earlier one with the same key.
pub open spec fn table_of(pairs: Seq<(Seq<char>, Seq<u8>)>) -> Map<Seq<char>, Seq<u8>>
    decreases pairs.len(),
{
    if pairs.len() == 0 {
        Map::empty()
    } else {
        table_of(pairs.drop_last()).insert(pairs.last().0, pairs.last().1)
    }
}

/// Whether no two pairs share a key.
pub open spec fn keys_distinct(pairs: Seq<(Seq<char>, Seq<u8>)>) -> bool {
    forall|i: int, j: int|
        0 <= i < pairs.len() && 0 <= j < pairs.len() && i != j ==> #[trigger] pairs[i].0
            != #[trigger] pairs[j].0
}

/// With distinct keys, the table holds exactly the pairs' keys, each with
/// its own pair's content.
pub proof fn lemma_table_of_distinct(pairs: Seq<(Seq<char>, Seq<u8>)>)
    requires
        keys_distinct(pairs),
    ensures
        forall|k: Seq<char>|
            #[trigger] table_of(pairs).contains_key(k) <==> exists|i: int|
                0 <= i < pairs.len() && pairs[i].0 == k,
        forall|i: int|
            0 <= i < pairs.len() ==> table_of(pairs)[#[trigger] pairs[i].0] == pairs[i].1,
    decreases pairs.len(),
{
    if pairs.len() > 0 {
        let init = pairs.drop_last();
        lemma_table_of_distinct(init);
        assert forall|k: Seq<char>| #[trigger] table_of(pairs).contains_key(k) <==> exists|i: int|
            0 <= i < pairs.len() && pairs[i].0 == k by {
            if table_of(pairs).contains_key(k) {
                if k != pairs.last().0 {
                    assert(table_of(init).contains_key(k));
                    let i = choose|i: int| 0 <= i < init.len() && init[i].0 == k;
                    assert(init[i] == pairs[i]);
                } else {
                    assert(pairs[pairs.len() - 1].0 == k);
                }
            }
            if exists|i: int| 0 <= i < pairs.len() && pairs[i].0 == k {
                let i = choose|i: int| 0 <= i < pairs.len() && pairs[i].0 == k;
                if i < pairs.len() - 1 {
                    assert(init[i].0 == k);
                }
            }
        }
        assert forall|i: int| 0 <= i < pairs.len() implies table_of(pairs)[#[trigger] pairs[i].0]
            == pairs[i].1 by {
            if i < pairs.len() - 1 {
                assert(init[i] == pairs[i]);
                assert(pairs[i].0 != pairs[pairs.len() - 1].0);
            }
        }
    }
}

/// A table of embedded files. Each key stands once; its content is the
/// file's bytes.
pub struct EmbeddingTable {
    entries: Vec<(String, Vec<u8>)>,
}

impl EmbeddingTable {
    /// The entries as keys and contents, in insertion order.
    pub closed spec fn pairs(&self) -> Seq<(Seq<char>, Seq<u8>)> {
        self.entries@.map_values(|e: (String, Vec<u8>)| (e.0@, e.1@))
    }

    /// Each key is held once.
    pub closed spec fn wf(&self) -> bool {
        keys_distinct(self.pairs())
    }
}

impl View for EmbeddingTable {
    type V = Map<Seq<char>, Seq<u8>>;

    closed spec fn view(&self) -> Map<Seq<char>, Seq<u8>> {
        table_of(self.pairs())
    }
}

impl EmbeddingTable {
    /// An empty table.
    pub fn new() -> (r: Self)
        ensures
            r.wf(),
            r@ == Map::<Seq<char>, Seq<u8>>::empty(),
    {
        let r = EmbeddingTable { entries: Vec::new() };
        assert(r.pairs() =~= Seq::empty());
        r
    }

    /// The position of `key` among the entries, if it is there.
    fn find(&self, key: &String) -> (r: Option<usize>)
        requires
            self.wf(),
        ensures
            r is None <==> !self@.contains_key(key@),
            r is Some ==> r->Some_0 < self.entries.len() && self.pairs()[r->Some_0 as int].0
                == key@,
    {
        proof {
            lemma_table_of_distinct(self.pairs());
        }
        let mut i: usize = 0;
        while i < self.entries.len()
            invariant
                i <= self.entries.len(),
                self.wf(),
                forall|j: int| 0 <= j < i ==> self.pairs()[j].0 != key@,
            decreases self.entries.len() - i,
        {
            assert(self.pairs()[i as int].0 == self.entries@[i as int].0@);
            if self.entries[i].0 == *key {
                proof {
                    lemma_table_of_distinct(self.pairs());
                }
                assert(self.pairs()[i as int].0 == key@);
                return Some(i);
            }
            i += 1;
        }
        None
    }

    /// Binds `key` to `content`, replacing what it was bound to.
    pub fn insert(&mut self, key: String, content: Vec<u8>)
        requires
            old(self).wf(),
        ensures
            final(self).wf(),
            final(self)@ == old(self)@.insert(key@, content@),
    {
        let ghost before = self.pairs();
        let ghost k = key@;
        let ghost v = content@;
        match self.find(&key) {
            Some(i) => {
                self.entries.set(i, (key, content));
                let ghost after = self.pairs();
                assert(after =~= before.update(i as int, (k, v)));
                assert forall|a: int, b: int|
                    0 <= a < after.len() && 0 <= b < after.len() && a != b implies #[trigger] after[a].0
                    != #[trigger] after[b].0 by {
                    assert(after[a].0 == before[a].0);
                    assert(after[b].0 == before[b].0);
                }
                proof {
                    lemma_table_of_distinct(before);
                    lemma_table_of_distinct(after);
                    assert forall|q: Seq<char>| #[trigger] table_of(after).contains_key(q)
                        <==> table_of(before).insert(k, v).contains_key(q) by {
                        if exists|j: int| 0 <= j < after.len() && after[j].0 == q {
                            let j = choose|j: int| 0 <= j < after.len() && after[j].0 == q;
                            assert(before[j].0 == q);
                        }
                        if exists|j: int| 0 <= j < before.len() && before[j].0 == q {
                            let j = choose|j: int| 0 <= j < before.len() && before[j].0 == q;
                            assert(after[j].0 == q);
                        }
                    }
                    assert forall|q: Seq<char>| #[trigger] table_of(after).contains_key(q)
                        implies table_of(after)[q] == table_of(before).insert(k, v)[q] by {
                        let j = choose|j: int| 0 <= j < after.len() && after[j].0 == q;
                        if j != i {
                            assert(before[j] == after[j]);
                        }
                    }
                    assert(table_of(after) =~= table_of(before).insert(k, v));
                }
            },
            None => {
                self.entries.push((key, content));
                let ghost after = self.pairs();
                assert(after =~= before.push((k, v)));
                assert(after.drop_last() =~= before);
                proof {
                    lemma_table_of_distinct(before);
                    assert forall|a: int, b: int|
                        0 <= a < after.len() && 0 <= b < after.len() && a != b implies #[trigger] after[a].0
                        != #[trigger] after[b].0 by {
                        if a == before.len() {
                            assert(before[b].0 != k);
                        } else if b == before.len() {
                            assert(before[a].0 != k);
                        }
                    }
                }
            },
        }
    }

    /// The table for a plan: each entry's key bound to the content at the
    /// same position in `contents`, inserted in plan order.
    pub fn from_plan(plan: &Vec<PlanEntry>, contents: Vec<Vec<u8>>) -> (r: Self)
        requires
            plan.len() == contents.len(),
        ensures
            r.wf(),
            r@ == table_of(Seq::new(plan.len() as nat, |i: int| (plan[i].key@, contents[i]@))),
    {
        let ghost all = Seq::new(plan.len() as nat, |i: int| (plan[i].key@, contents[i]@));
        let ghost cs = contents@;
        let mut table = EmbeddingTable::new();
        let mut i: usize = 0;
        for content in it: contents.into_iter()
            invariant
                it.seq() == cs,
                i == it.index(),
                cs.len() == plan.len(),
                all == Seq::new(plan.len() as nat, |j: int| (plan[j].key@, cs[j]@)),
                table.wf(),
                table@ == table_of(all.take(i as int)),
        {
            assert(all.take(i + 1).drop_last() == all.take(i as int));
            table.insert(plan[i].key.clone(), content);
            i += 1;
        }
        assert(all.take(i as int) == all);
        table
    }

    /// The content bound to `key`, if any.
    pub fn get(&self, key: &str) -> (r: Option<&Vec<u8>>)
        requires
            self.wf(),
        ensures
            r is Some <==> self@.contains_key(key@),
            r is Some ==> r->Some_0@ == self@[key@],
    {
        proof {
            lemma_table_of_distinct(self.pairs());
        }
        let owned = key.to_owned();
        match self.find(&owned) {
            Some(i) => Some(&self.entries[i].1),
            None => None,
        }
    }

    /// The keys, each once, in insertion order.
    pub fn keys(&self) -> (r: Vec<String>)
        requires
            self.wf(),
        ensures
            forall|k: Seq<char>| self@.contains_key(k) <==> exists|i: int| 0 <= i < r.len() && #[trigger] r[i]@ == k,
            forall|i: int, j: int| 0 <= i < r.len() && 0 <= j < r.len() && i != j ==> r[i]@ != r[j]@,
    {
        proof {
            lemma_table_of_distinct(self.pairs());
        }
        let mut r: Vec<String> = Vec::new();
        let mut i: usize = 0;
        while i < self.entries.len()
            invariant
                i <= self.entries.len(),
                self.wf(),
                r.len() == i,
                forall|j: int| 0 <= j < i ==> #[trigger] r[j]@ == self.pairs()[j].0,
            decreases self.entries.len() - i,
        {
            r.push(self.entries[i].0.clone());
            i += 1;
        }
        assert forall|k: Seq<char>| self@.contains_key(k) implies exists|i: int| 0 <= i < r.len() && #[trigger] r[i]@ == k by {
            let j = choose|j: int| 0 <= j < self.pairs().len() && self.pairs()[j].0 == k;
            assert(r[j]@ == k);
        }
        assert forall|i: int, j: int| 0 <= i < r.len() && 0 <= j < r.len() && i != j implies r[i]@ != r[j]@ by {
            assert(self.pairs()[i].0 != self.pairs()[j].0);
        }
        r
    }
}

} // verus!
