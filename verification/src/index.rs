//! The corpus: the searchable texts in the order in which they were added.
//!
//! A text is known by its place in that order and by nothing else: taking
//! a text out is by value and takes out all its occurrences, and renaming
//! takes the old text out and adds the new one behind the others.

use vstd::prelude::*;

verus! {

/// The texts that can be searched, oldest first. A text may occur more than
/// once.
#[derive(Debug, Clone, PartialEq)]
pub struct SearchIndex {
    pub data: Vec<String>,
}

impl View for SearchIndex {
    type V = Seq<Seq<char>>;

    open spec fn view(&self) -> Seq<Seq<char>> {
        self.data.deep_view()
    }
}

/// The test that keeps every text but `text`.
pub open spec fn other_than(text: Seq<char>) -> spec_fn(Seq<char>) -> bool {
    |entry: Seq<char>| entry != text
}

/// The texts without the occurrences of `text`, in their order.
pub open spec fn without(texts: Seq<Seq<char>>, text: Seq<char>) -> Seq<Seq<char>> {
    texts.filter(other_than(text))
}

/// Nothing is left of a text that was taken out.
pub proof fn lemma_without_drops_text(texts: Seq<Seq<char>>, text: Seq<char>)
    ensures
        !without(texts, text).contains(text),
{
    let kept = without(texts, text);
    if kept.contains(text) {
        let i = choose|i: int| 0 <= i < kept.len() && kept[i] == text;
        texts.lemma_filter_pred(other_than(text), i);
    }
}

/// Taking out a text that does not occur changes nothing.
pub proof fn lemma_without_absent_text(texts: Seq<Seq<char>>, text: Seq<char>)
    requires
        !texts.contains(text),
    ensures
        without(texts, text) == texts,
    decreases texts.len(),
{
    reveal(Seq::filter);
    if texts.len() > 0 {
        let front = texts.drop_last();
        assert forall|i: int| 0 <= i < front.len() implies front[i] != text by {
            assert(texts[i] == front[i]);
        }
        lemma_without_absent_text(front, text);
        assert(texts.last() == texts[texts.len() - 1]);
        assert(front.push(texts.last()) =~= texts);
    } else {
        assert(without(texts, text) =~= texts);
    }
}

/// Taking a text out keeps every other text, as often as it occurred.
pub proof fn lemma_without_keeps_others(texts: Seq<Seq<char>>, text: Seq<char>, other: Seq<char>)
    requires
        other != text,
    ensures
        without(texts, text).filter(|entry: Seq<char>| entry == other) == texts.filter(
            |entry: Seq<char>| entry == other,
        ),
    decreases texts.len(),
{
    reveal(Seq::filter);
    if texts.len() > 0 {
        let front = texts.drop_last();
        lemma_without_keeps_others(front, text, other);
        if texts.last() != text {
            assert(without(texts, text).drop_last() == without(front, text));
        }
    }
}

impl SearchIndex {
    /// An index without texts.
    pub fn new() -> (index: Self)
        ensures
            index@ == Seq::<Seq<char>>::empty(),
    {
        let index = SearchIndex { data: Vec::new() };
        assert(index@ =~= Seq::<Seq<char>>::empty());
        index
    }

    /// The number of texts.
    pub fn len(&self) -> (len: usize)
        ensures
            len == self@.len(),
    {
        self.data.len()
    }

    /// Adds a text behind the others.
    pub fn add_file(&mut self, path: String)
        ensures
            final(self)@ == old(self)@.push(path@),
    {
        self.data.push(path);
        assert(self@ =~= old(self)@.push(path@));
    }

    /// Takes out every occurrence of a text; the others keep their order.
    pub fn remove_file(&mut self, path: &String)
        ensures
            final(self)@ == without(old(self)@, path@),
            !final(self)@.contains(path@),
            !old(self)@.contains(path@) ==> final(self)@ == old(self)@,
    {
        let ghost texts = self@;
        let ghost seen: int = 0;
        let mut at: usize = 0;
        proof {
            reveal(Seq::filter);
            assert(texts.take(0) =~= Seq::<Seq<char>>::empty());
            assert(self@ =~= without(texts.take(0), path@) + texts.skip(0));
        }
        while at < self.data.len()
            invariant
                0 <= seen <= texts.len(),
                at == without(texts.take(seen), path@).len(),
                self@ == without(texts.take(seen), path@) + texts.skip(seen),
            decreases texts.len() - seen,
        {
            proof {
                reveal(Seq::filter);
                assert(self@.len() == at + texts.skip(seen).len());
                assert(self@[at as int] == texts.skip(seen)[0]);
                assert(texts.take(seen + 1).drop_last() =~= texts.take(seen));
                assert(texts.take(seen + 1).last() == texts[seen]);
            }
            let ghost before = self@;
            if self.data[at] == *path {
                assert(texts[seen] == path@);
                let _ = self.data.remove(at);
                proof {
                    assert(self@ =~= before.remove(at as int));
                    assert(without(texts.take(seen + 1), path@) == without(
                        texts.take(seen),
                        path@,
                    ));
                    assert(self@ =~= without(texts.take(seen + 1), path@) + texts.skip(seen + 1));
                }
            } else {
                at += 1;
                proof {
                    assert(without(texts.take(seen + 1), path@) == without(
                        texts.take(seen),
                        path@,
                    ).push(texts[seen]));
                    assert(texts.skip(seen) =~= seq![texts[seen]] + texts.skip(seen + 1));
                    assert(self@ =~= without(texts.take(seen + 1), path@) + texts.skip(seen + 1));
                }
            }
            proof {
                seen = seen + 1;
            }
        }
        proof {
            assert(self@.len() == at + texts.skip(seen).len());
            assert(texts.take(seen) =~= texts);
            assert(self@ =~= without(texts, path@));
            lemma_without_drops_text(texts, path@);
            if !texts.contains(path@) {
                lemma_without_absent_text(texts, path@);
            }
        }
    }

    /// Takes out every occurrence of the old text and adds the new one
    /// behind the others.
    pub fn rename_file(&mut self, old_path: &String, new_path: String)
        ensures
            final(self)@ == without(old(self)@, old_path@).push(new_path@),
    {
        self.remove_file(old_path);
        self.add_file(new_path);
    }

    /// Replaces the texts by the given ones.
    pub fn update_index(&mut self, data: Vec<String>)
        ensures
            final(self)@ == data.deep_view(),
    {
        self.data = data;
    }

    /// Takes out every text.
    pub fn clear_index(&mut self)
        ensures
            final(self)@ == Seq::<Seq<char>>::empty(),
    {
        self.data = Vec::new();
        assert(self@ =~= Seq::<Seq<char>>::empty());
    }

    /// Whether the index holds exactly the given texts in the given order.
    pub fn check_index_consistency(&self, data: &Vec<String>) -> (same: bool)
        ensures
            same == (self@ == data.deep_view()),
    {
        if self.data.len() != data.len() {
            assert(self@.len() != data.deep_view().len());
            return false;
        }
        let mut at: usize = 0;
        while at < data.len()
            invariant
                at <= data.len(),
                self.data.len() == data.len(),
                forall|i: int| 0 <= i < at ==> self@[i] == data.deep_view()[i],
            decreases data.len() - at,
        {
            if self.data[at] != data[at] {
                assert(self@[at as int] != data.deep_view()[at as int]);
                return false;
            }
            at += 1;
        }
        assert(self@ =~= data.deep_view());
        true
    }
}

} // verus!
