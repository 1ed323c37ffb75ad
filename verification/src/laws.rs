//! What holds of the dictionary over a whole history of insertions.
use crate::alphabet::{fold, permitted};
use crate::trie::{kept, Trie};
use vstd::prelude::*;

verus! {

/// `kept` holds exactly the folded forms of the words whose folded form the
/// alphabet permits.
pub proof fn lemma_kept(words: Seq<Seq<char>>, w: Seq<char>)
    ensures
        kept(words).contains(w) <==> permitted(w) && exists|i: int|
            0 <= i < words.len() && fold(#[trigger] words[i]) == w,
    decreases words.len(),
{
    if words.len() > 0 {
        let front = words.drop_last();
        let last = fold(words.last());
        lemma_kept(front, w);
        if permitted(w) && exists|i: int| 0 <= i < words.len() && fold(#[trigger] words[i]) == w {
            let i = choose|i: int| 0 <= i < words.len() && fold(#[trigger] words[i]) == w;
            if i < front.len() {
                assert(fold(front[i]) == w);
            }
        }
        if permitted(last) {
            let both = kept(front).push(last);
            if kept(front).contains(w) {
                let t = choose|t: int| 0 <= t < kept(front).len() && kept(front)[t] == w;
                assert(both[t] == w);
            }
            if w == last {
                assert(both[kept(front).len() as int] == w);
            }
        }
    }
}

/// Inserting the words of a list one by one stores what inserting the list
/// stores: one more word adds its folded form if the alphabet permits it, and
/// nothing otherwise.
pub proof fn law_one_more(base: Set<Seq<char>>, words: Seq<Seq<char>>, word: Seq<char>)
    ensures
        base.union(kept(words.push(word)).to_set()) == if permitted(fold(word)) {
            base.union(kept(words).to_set()).insert(fold(word))
        } else {
            base.union(kept(words).to_set())
        },
{
    assert(words.push(word).drop_last() =~= words);
    if permitted(fold(word)) {
        kept(words).lemma_push_to_set_commute(fold(word));
        assert(base.union(kept(words.push(word)).to_set()) =~= base.union(
            kept(words).to_set(),
        ).insert(fold(word)));
    }
}

/// Round trip: after the words of a list have been inserted, each of them that
/// the alphabet permits is a member, whatever was inserted before or after it.
pub proof fn law_inserted_is_contained(before: Trie, after: Trie, words: Seq<Seq<char>>, i: int)
    requires
        after@ == before@.union(kept(words).to_set()),
        0 <= i < words.len(),
        permitted(fold(words[i])),
    ensures
        after@.contains(fold(words[i])),
{
    lemma_kept(words, fold(words[i]));
}

/// Membership comes from insertions alone: a word that was no member before
/// and is the folded form of none of the words inserted since is no member,
/// whatever the filter answers for it.
pub proof fn law_never_inserted_is_absent(
    before: Trie,
    after: Trie,
    words: Seq<Seq<char>>,
    w: Seq<char>,
)
    requires
        after@ == before@.union(kept(words).to_set()),
        !before@.contains(w),
        forall|i: int| 0 <= i < words.len() ==> fold(#[trigger] words[i]) != w,
    ensures
        !after@.contains(w),
{
    lemma_kept(words, w);
}

/// Idempotence: inserting a word a second time stores nothing new.
pub proof fn law_insert_twice(base: Set<Seq<char>>, words: Seq<Seq<char>>, word: Seq<char>)
    ensures
        base.union(kept(words.push(word).push(word)).to_set()) == base.union(
            kept(words.push(word)).to_set(),
        ),
{
    law_one_more(base, words.push(word), word);
    law_one_more(base, words, word);
}

/// Prefix correctness: the listing for a prefix holds each member that starts
/// with the prefix exactly once, and nothing else.
pub proof fn law_prefix_listing(t: Trie, p: Seq<char>, w: Seq<char>)
    requires
        t.wf(),
    ensures
        t.listing(p).no_duplicates(),
        t.listing(p).contains(w) <==> t@.contains(w) && p.is_prefix_of(w),
        t@.contains(w) && p.is_prefix_of(w) ==> t.listing(p).to_multiset().count(w) == 1,
{
    t.lemma_listing(p);
    t.listing(p).lemma_multiset_has_no_duplicates();
    if t.listing(p).contains(w) {
        t.listing(p).to_multiset_ensures();
    }
}

/// The filter has no false negative for the dictionary: it answers "possibly
/// present" for every member.
pub proof fn law_filter_admits_members(t: Trie, w: Seq<char>)
    requires
        t.wf(),
        t@.contains(w),
    ensures
        t.filter().may_contain(w),
{
    t.lemma_filter_admits(w);
}

} // verus!
