use crate::alphabet::{
    alphabet, fold, fold_text, lemma_slot_injective, lemma_slot_of, lemma_slot_of_nth, permitted,
    slot_of, CharIndex, ALPHABET_SIZE,
};
use crate::bloom_filter::{
    after_items, item_hashes, lemma_mark_again, lemma_mark_keeps, lemma_mark_sets, mark,
    BloomFilter,
};
use crate::error::TrieError;
use vstd::prelude::*;
use vstd::string::*;

verus! {

/// One character position of the stored words.
pub struct Node {
    letter: char,
    children: Vec<Option<Box<Node>>>,
    end_of_word: bool,
}

impl Node {
    /// The character that the node stands for.
    pub closed spec fn letter(&self) -> char {
        self.letter
    }

    /// Whether a stored word ends at this node.
    pub closed spec fn is_end(&self) -> bool {
        self.end_of_word
    }

    /// The child in a slot, if the slot is taken.
    pub closed spec fn child(&self, slot: int) -> Option<Node> {
        if 0 <= slot < self.children.len() {
            match self.children[slot] {
                Some(b) => Some(*b),
                None => None,
            }
        } else {
            None
        }
    }

    /// The node has one slot for each character of the alphabet, each child
    /// stands for the character of its slot, and the same holds below.
    pub closed spec fn wf(&self) -> bool
        decreases self,
    {
        &&& self.children.len() == ALPHABET_SIZE
        &&& forall|i: int|
            0 <= i < self.children.len() ==> match #[trigger] self.children[i] {
                Some(b) => b.letter == alphabet()[i] && b.wf(),
                None => true,
            }
    }

    /// Whether the path that spells `w`, taken from this node, ends at a node
    /// where a stored word ends.
    pub open spec fn stores(&self, w: Seq<char>) -> bool
        decreases w.len(),
    {
        if w.len() == 0 {
            self.is_end()
        } else {
            match slot_of(w[0]) {
                Some(i) => match self.child(i) {
                    Some(c) => c.stores(w.drop_first()),
                    None => false,
                },
                None => false,
            }
        }
    }

    /// A node for `letter` with no child, at which no word ends.
    pub fn new(letter: char) -> (n: Node)
        ensures
            n.wf(),
            n.letter() == letter,
            !n.is_end(),
            forall|i: int| n.child(i) is None,
    {
        let mut children: Vec<Option<Box<Node>>> = Vec::new();
        let mut i: usize = 0;
        while i < ALPHABET_SIZE
            invariant
                i <= ALPHABET_SIZE,
                children.len() == i,
                forall|j: int| 0 <= j < i ==> children[j] is None,
            decreases ALPHABET_SIZE - i,
        {
            children.push(None);
            i += 1;
        }
        Node { letter, children, end_of_word: false }
    }
}

impl Node {
    /// The node that the path spelling `p` leads to, if every slot on the way
    /// is taken.
    pub open spec fn node_at(&self, p: Seq<char>) -> Option<Node>
        decreases p.len(),
    {
        if p.len() == 0 {
            Some(*self)
        } else {
            match slot_of(p[0]) {
                Some(i) => match self.child(i) {
                    Some(c) => c.node_at(p.drop_first()),
                    None => None,
                },
                None => None,
            }
        }
    }

    /// A word is stored below a node exactly if its first part leads to a
    /// node and the rest is stored below that one.
    pub proof fn lemma_stores_split(&self, p: Seq<char>, s: Seq<char>)
        ensures
            self.stores(p + s) == match self.node_at(p) {
                Some(n) => n.stores(s),
                None => false,
            },
        decreases p.len(),
    {
        if p.len() > 0 {
            assert((p + s).drop_first() =~= p.drop_first() + s);
            match slot_of(p[0]) {
                Some(i) => match self.child(i) {
                    Some(c) => {
                        c.lemma_stores_split(p.drop_first(), s);
                    },
                    None => {},
                },
                None => {},
            }
        }
    }
}

impl Node {
    /// Whether `after` is `before` with the word `s` stored below it in
    /// addition: well formed, for the same letter, storing `s` and what
    /// `before` stored, and the same tree if `before` stored `s` already.
    pub open spec fn extends(after: Node, before: Node, s: Seq<char>) -> bool {
        &&& after.wf()
        &&& after.letter() == before.letter()
        &&& forall|w: Seq<char>| #[trigger] after.stores(w) == (before.stores(w) || w == s)
        &&& before.stores(s) ==> after.same_tree(before)
    }

    /// Marking a node stores the empty word below it.
    proof fn lemma_extends_here(after: Node, before: Node)
        requires
            before.wf(),
            after.letter == before.letter,
            after.children == before.children,
            after.end_of_word,
        ensures
            Node::extends(after, before, Seq::empty()),
    {
        assert forall|w: Seq<char>| #[trigger]
            after.stores(w) == (before.stores(w) || w == Seq::<char>::empty()) by {
            if w.len() == 0 {
                assert(w =~= Seq::<char>::empty());
            }
        }
        if before.stores(Seq::empty()) {
            before.lemma_same_tree_refl();
        }
    }

    /// Storing the rest of a word below the child for its first character
    /// stores the word below the node. `mid` is `before` with a new, empty
    /// child in slot `idx` if the slot was free; `after` is `mid` with the
    /// child in that slot extended by the rest of the word.
    proof fn lemma_extends_below(before: Node, mid: Node, after: Node, idx: int, s: Seq<char>)
        requires
            before.wf(),
            s.len() > 0,
            slot_of(s[0]) == Some(idx),
            mid.letter == before.letter,
            mid.end_of_word == before.end_of_word,
            mid.children.len() == before.children.len(),
            forall|j: int|
                0 <= j < mid.children.len() && j != idx ==> mid.children[j] == before.children[j],
            mid.child(idx) is Some,
            before.child(idx) is Some ==> mid.child(idx) == before.child(idx),
            before.child(idx) is None ==> {
                let m = mid.child(idx).unwrap();
                &&& m.wf()
                &&& m.letter == s[0]
                &&& !m.end_of_word
                &&& forall|j: int| m.child(j) is None
            },
            after.letter == mid.letter,
            after.end_of_word == mid.end_of_word,
            after.children.len() == mid.children.len(),
            forall|j: int|
                0 <= j < mid.children.len() && j != idx ==> after.children[j] == mid.children[j],
            after.child(idx) is Some,
            Node::extends(after.child(idx).unwrap(), mid.child(idx).unwrap(), s.drop_first()),
        ensures
            Node::extends(after, before, s),
    {
        lemma_slot_of(s[0]);
        let lower = mid.child(idx).unwrap();
        let upper = after.child(idx).unwrap();
        if before.child(idx) is None {
            assert forall|w: Seq<char>| !lower.stores(w) by {
                if w.len() > 0 {
                    lemma_slot_of(w[0]);
                }
            }
        }
        assert forall|w: Seq<char>| #[trigger] after.stores(w) == (before.stores(w) || w == s) by {
            if w.len() > 0 {
                match slot_of(w[0]) {
                    Some(j) => {
                        lemma_slot_of(w[0]);
                        if j == idx {
                            lemma_slot_injective(s[0], w[0]);
                            assert(after.stores(w) == upper.stores(w.drop_first()));
                            if w.drop_first() == s.drop_first() {
                                assert(w =~= seq![w[0]] + w.drop_first());
                                assert(s =~= seq![s[0]] + s.drop_first());
                            }
                        }
                    },
                    None => {},
                }
            }
        }
        if before.stores(s) {
            assert forall|i: int| 0 <= i < after.children.len() implies match (
                #[trigger] after.children[i],
                before.children[i],
            ) {
                (Some(a), Some(b)) => a.same_tree(*b),
                (None, None) => true,
                _ => false,
            } by {
                if i != idx {
                    match after.children[i] {
                        Some(a) => {
                            a.lemma_same_tree_refl();
                        },
                        None => {},
                    }
                }
            }
        }
    }
}

impl Node {
    /// Every node below a well-formed node is well formed.
    pub proof fn lemma_node_at_wf(&self, p: Seq<char>)
        requires
            self.wf(),
        ensures
            self.node_at(p) matches Some(n) ==> n.wf(),
        decreases p.len(),
    {
        if p.len() > 0 {
            match slot_of(p[0]) {
                Some(i) => match self.child(i) {
                    Some(c) => {
                        lemma_slot_of(p[0]);
                        c.lemma_node_at_wf(p.drop_first());
                    },
                    None => {},
                },
                None => {},
            }
        }
    }

    /// Whether two nodes are the same tree: the same letter and mark, and in
    /// each slot the same tree or none.
    pub closed spec fn same_tree(&self, other: Node) -> bool
        decreases self,
    {
        &&& self.letter == other.letter
        &&& self.end_of_word == other.end_of_word
        &&& self.children.len() == other.children.len()
        &&& forall|i: int|
            0 <= i < self.children.len() ==> match (
                #[trigger] self.children[i],
                other.children[i],
            ) {
                (Some(a), Some(b)) => a.same_tree(*b),
                (None, None) => true,
                _ => false,
            }
    }

    /// A node is the same tree as itself.
    pub proof fn lemma_same_tree_refl(&self)
        ensures
            self.same_tree(*self),
        decreases self,
    {
        assert forall|i: int| 0 <= i < self.children.len() implies match (
            #[trigger] self.children[i],
            self.children[i],
        ) {
            (Some(a), Some(b)) => a.same_tree(*b),
            (None, None) => true,
            _ => false,
        } by {
            match self.children[i] {
                Some(a) => {
                    a.lemma_same_tree_refl();
                },
                None => {},
            }
        }
    }

    /// The same trees list their words in the same order and give the same
    /// dump, whatever stands in front.
    pub proof fn lemma_same_tree(&self, other: Node, lead: Seq<char>, k: nat)
        requires
            self.same_tree(other),
        ensures
            self.listing_upto(lead, k) == other.listing_upto(lead, k),
            self.dump_upto(lead, k) == other.dump_upto(lead, k),
        decreases self, k,
    {
        if k > 0 {
            self.lemma_same_tree(other, lead, (k - 1) as nat);
            if k - 1 < self.children.len() {
                match (self.children[k - 1], other.children[k - 1]) {
                    (Some(a), Some(b)) => {
                        a.lemma_same_tree(*b, lead.push(a.letter), ALPHABET_SIZE as nat);
                        a.lemma_same_tree(*b, lead + "  "@, ALPHABET_SIZE as nat);
                    },
                    _ => {},
                }
            }
        }
    }

    /// The same trees lead to the same trees along every path.
    pub proof fn lemma_same_tree_node_at(&self, other: Node, p: Seq<char>)
        requires
            self.same_tree(other),
        ensures
            match (self.node_at(p), other.node_at(p)) {
                (Some(a), Some(b)) => a.same_tree(b),
                (None, None) => true,
                _ => false,
            },
        decreases p.len(),
    {
        if p.len() > 0 {
            match slot_of(p[0]) {
                Some(i) => {
                    if 0 <= i < self.children.len() {
                        match (self.children[i], other.children[i]) {
                            (Some(a), Some(b)) => {
                                a.lemma_same_tree_node_at(*b, p.drop_first());
                            },
                            _ => {},
                        }
                    }
                },
                None => {},
            }
        }
    }
}

/// The texts of a list of strings.
pub open spec fn texts(v: Seq<String>) -> Seq<Seq<char>> {
    Seq::new(v.len(), |i: int| v[i]@)
}

impl Node {
    /// The words stored below this node, each with `path` in front, as a
    /// depth-first walk meets them that has gone through the slots before `k`:
    /// first the word that ends here, then the words below each child, by slot.
    pub closed spec fn listing_upto(&self, path: Seq<char>, k: nat) -> Seq<Seq<char>>
        decreases self, k,
    {
        if k == 0 {
            if self.end_of_word {
                seq![path]
            } else {
                Seq::empty()
            }
        } else {
            let before = self.listing_upto(path, (k - 1) as nat);
            if k - 1 < self.children.len() {
                match self.children[k - 1] {
                    Some(b) => before + b.listing_upto(path.push(b.letter), ALPHABET_SIZE as nat),
                    None => before,
                }
            } else {
                before
            }
        }
    }

    /// The words stored below this node in depth-first order, each with `path`
    /// in front.
    pub open spec fn listing(&self, path: Seq<char>) -> Seq<Seq<char>> {
        self.listing_upto(path, ALPHABET_SIZE as nat)
    }

    /// Whether `s` is stored below this node and, unless it is empty, starts
    /// in a slot before `k`.
    pub open spec fn stores_before(&self, s: Seq<char>, k: nat) -> bool {
        self.stores(s) && (s.len() > 0 ==> slot_of(s[0]).unwrap() < k)
    }

    /// The depth-first listing holds no word twice, and holds exactly the
    /// words that start with `path` and whose rest is stored below the node.
    pub proof fn lemma_listing(&self, path: Seq<char>, k: nat)
        requires
            self.wf(),
            k <= ALPHABET_SIZE,
        ensures
            self.listing_upto(path, k).no_duplicates(),
            forall|w: Seq<char>|
                #[trigger] self.listing_upto(path, k).contains(w) <==> path.is_prefix_of(w)
                    && self.stores_before(w.skip(path.len() as int), k),
        decreases self, k,
    {
        let all = self.listing_upto(path, k);
        if k == 0 {
            assert forall|w: Seq<char>| #[trigger]
                all.contains(w) <==> path.is_prefix_of(w) && self.stores_before(
                    w.skip(path.len() as int),
                    k,
                ) by {
                if self.end_of_word {
                    assert(all[0] == path);
                }
                if path.is_prefix_of(w) && self.stores_before(w.skip(path.len() as int), k) {
                    let s = w.skip(path.len() as int);
                    if s.len() > 0 {
                        lemma_slot_of(s[0]);
                    }
                    assert(w =~= path);
                }
            }
        } else {
            let j = (k - 1) as nat;
            let before = self.listing_upto(path, j);
            self.lemma_listing(path, j);
            lemma_slot_of_nth(j as int);
            match self.children[j as int] {
                Some(b) => {
                    let deeper = path.push(b.letter);
                    let below = b.listing_upto(deeper, ALPHABET_SIZE as nat);
                    b.lemma_listing(deeper, ALPHABET_SIZE as nat);
                    assert forall|w: Seq<char>| #[trigger]
                        below.contains(w) <==> path.is_prefix_of(w) && self.stores(
                            w.skip(path.len() as int),
                        ) && w.len() > path.len() && slot_of(w[path.len() as int]) == Some(
                            j as int,
                        ) by {
                        let s = w.skip(path.len() as int);
                        let t = w.skip(deeper.len() as int);
                        if below.contains(w) {
                            assert(w.subrange(0, path.len() as int) =~= w.subrange(
                                0,
                                deeper.len() as int,
                            ).take(path.len() as int));
                            assert(w[path.len() as int] == deeper[path.len() as int]);
                            assert(s.drop_first() =~= t);
                        }
                        if path.is_prefix_of(w) && self.stores(s) && w.len() > path.len()
                            && slot_of(w[path.len() as int]) == Some(j as int) {
                            lemma_slot_injective(b.letter, s[0]);
                            assert(s.drop_first() =~= t);
                            assert(b.stores(t));
                            if t.len() > 0 {
                                lemma_slot_of(t[0]);
                            }
                        }
                    }
                    assert forall|x: int, y: int|
                        0 <= x < before.len() && 0 <= y < below.len() implies before[x]
                        != below[y] by {
                        assert(before.contains(before[x]));
                        assert(below.contains(below[y]));
                    }
                    vstd::seq_lib::lemma_no_dup_in_concat(before, below);
                    assert forall|w: Seq<char>| #[trigger]
                        all.contains(w) <==> path.is_prefix_of(w) && self.stores_before(
                            w.skip(path.len() as int),
                            k,
                        ) by {
                        let s = w.skip(path.len() as int);
                        if all.contains(w) {
                            let x = choose|x: int| 0 <= x < all.len() && all[x] == w;
                        }
                        if before.contains(w) {
                            let x = choose|x: int| 0 <= x < before.len() && before[x] == w;
                            assert(all[x] == w);
                        }
                        if below.contains(w) {
                            let y = choose|y: int| 0 <= y < below.len() && below[y] == w;
                            assert(all[before.len() + y] == w);
                        }
                    }
                },
                None => {
                    assert forall|w: Seq<char>| #[trigger]
                        all.contains(w) <==> path.is_prefix_of(w) && self.stores_before(
                            w.skip(path.len() as int),
                            k,
                        ) by {
                        let s = w.skip(path.len() as int);
                    }
                },
            }
        }
    }

    /// Appends to `results` the words stored below `node`, depth first, each
    /// with the text of `current_word` in front.
    fn collect_words_from_node(node: &Node, current_word: &mut String, results: &mut Vec<String>)
        requires
            node.wf(),
        ensures
            final(current_word)@ == old(current_word)@,
            texts(final(results)@) == texts(old(results)@) + node.listing(old(current_word)@),
        decreases node,
    {
        let ghost path = current_word@;
        let ghost start = texts(results@);
        if node.end_of_word {
            results.push(current_word.clone());
        }
        let mut i: usize = 0;
        while i < ALPHABET_SIZE
            invariant
                i <= ALPHABET_SIZE,
                node.wf(),
                current_word@ == path,
                texts(results@) == start + node.listing_upto(path, i as nat),
            decreases ALPHABET_SIZE - i,
        {
            match &node.children[i] {
                Some(child) => {
                    current_word.push(child.letter);
                    Self::collect_words_from_node(child, current_word, results);
                    current_word.pop();
                },
                None => {},
            }
            i += 1;
        }
    }
}

/// The texts of a list of string slices.
pub open spec fn slice_texts(v: Seq<&str>) -> Seq<Seq<char>> {
    Seq::new(v.len(), |i: int| v[i]@)
}

/// Of a list of words, those that can be stored, case-folded and in their
/// order: the ones whose folded form holds only characters of the alphabet.
pub open spec fn kept(words: Seq<Seq<char>>) -> Seq<Seq<char>>
    decreases words.len(),
{
    if words.len() == 0 {
        Seq::empty()
    } else if permitted(fold(words.last())) {
        kept(words.drop_last()).push(fold(words.last()))
    } else {
        kept(words.drop_last())
    }
}

/// The line of the diagnostic dump for a node.
pub open spec fn dump_line(indent: Seq<char>, letter: char, end_of_word: bool) -> Seq<char> {
    indent + seq!['\'', letter] + "' (end_of_word: "@ + (if end_of_word {
        "true"@
    } else {
        "false"@
    }) + ")\n"@
}

impl Node {
    /// The diagnostic dump of this node and, through the slots before `k`, of
    /// the nodes below it: one line for each node whose letter is not the
    /// root's sentinel, a node before its children, each level two spaces
    /// further in.
    pub closed spec fn dump_upto(&self, indent: Seq<char>, k: nat) -> Seq<char>
        decreases self, k,
    {
        if k == 0 {
            if self.letter != '\0' {
                dump_line(indent, self.letter, self.end_of_word)
            } else {
                Seq::empty()
            }
        } else {
            let before = self.dump_upto(indent, (k - 1) as nat);
            if k - 1 < self.children.len() {
                match self.children[k - 1] {
                    Some(b) => before + b.dump_upto(indent + "  "@, ALPHABET_SIZE as nat),
                    None => before,
                }
            } else {
                before
            }
        }
    }

    /// Appends the dump of `node` and of the nodes below it to `out`.
    fn debug_print(node: &Node, indent: &str, out: &mut String)
        ensures
            final(out)@ == old(out)@ + node.dump_upto(indent@, ALPHABET_SIZE as nat),
        decreases node,
    {
        let ghost start = out@;
        if node.letter != '\0' {
            out.append(indent);
            out.push('\'');
            out.push(node.letter);
            out.append("' (end_of_word: ");
            if node.end_of_word {
                out.append("true");
            } else {
                out.append("false");
            }
            out.append(")\n");
        }
        let mut deeper = indent.to_owned();
        deeper.append("  ");
        let mut i: usize = 0;
        while i < ALPHABET_SIZE
            invariant
                i <= ALPHABET_SIZE,
                deeper@ == indent@ + "  "@,
                out@ == start + node.dump_upto(indent@, i as nat),
            decreases ALPHABET_SIZE - i,
        {
            if i < node.children.len() {
                match &node.children[i] {
                    Some(child) => {
                        Self::debug_print(child, deeper.as_str(), out);
                    },
                    None => {},
                }
            }
            i += 1;
        }
    }
}

/// A set of words: a tree of nodes for exact membership, and a filter in
/// front of it that answers "definitely absent" early.
pub struct Trie {
    root: Box<Node>,
    bloom_filter: BloomFilter,
    char_to_index: CharIndex,
}

impl View for Trie {
    type V = Set<Seq<char>>;

    /// The stored words, case-folded.
    closed spec fn view(&self) -> Set<Seq<char>> {
        Set::new(|w: Seq<char>| self.root.stores(w))
    }
}

impl Trie {
    /// The filter in front of the tree.
    pub closed spec fn filter(&self) -> BloomFilter {
        self.bloom_filter
    }

    /// The tree, the filter and the index table are well formed, and the
    /// filter has no false negative: it answers "possibly present" for every
    /// stored word.
    pub closed spec fn wf(&self) -> bool {
        &&& self.root.wf()
        &&& self.bloom_filter.wf()
        &&& self.char_to_index.wf()
        &&& forall|w: Seq<char>| #[trigger] self.root.stores(w) ==> self.bloom_filter.may_contain(w)
    }

    /// The filter answers "possibly present" for every stored word.
    pub proof fn lemma_filter_admits(&self, w: Seq<char>)
        requires
            self.wf(),
            self@.contains(w),
        ensures
            self.filter().may_contain(w),
    {
    }

    /// An empty dictionary with a filter of `size` bits and `num_hashes` hash
    /// functions. A zero for either is refused.
    pub fn new(size: usize, num_hashes: usize) -> (r: Result<Trie, TrieError>)
        ensures
            (size == 0 || num_hashes == 0) <==> r == Err::<Trie, TrieError>(
                TrieError::InvalidConfiguration,
            ),
            size > 0 && num_hashes > 0 ==> r is Ok,
            r matches Ok(t) ==> {
                &&& t.wf()
                &&& t@ == Set::<Seq<char>>::empty()
                &&& t.filter().size() == size
                &&& t.filter().num_hashes() == num_hashes
                &&& t.filter().bits() == Seq::new(size as nat, |i: int| false)
            },
    {
        if size == 0 || num_hashes == 0 {
            return Err(TrieError::InvalidConfiguration);
        }
        let bloom_filter = match BloomFilter::new(size, num_hashes) {
            Ok(f) => f,
            Err(e) => {
                return Err(e);
            },
        };
        let root = Box::new(Node::new('\0'));
        let t = Trie { root, bloom_filter, char_to_index: CharIndex::new() };
        proof {
            assert forall|w: Seq<char>| !t.root.stores(w) by {
                if w.len() > 0 {
                    lemma_slot_of(w[0]);
                }
            }
        }
        Ok(t)
    }

    /// The characters of a folded text, if all of them are in the alphabet.
    fn permitted_chars(&self, folded: &str) -> (r: Option<Vec<char>>)
        requires
            self.char_to_index.wf(),
        ensures
            permitted(folded@) <==> r is Some,
            r matches Some(v) ==> v@ == folded@,
    {
        broadcast use vstd::string::group_string_axioms;

        let mut chars: Vec<char> = Vec::new();
        for c in it: folded.chars()
            invariant
                it.seq() == folded@,
                self.char_to_index.wf(),
                chars@ =~= folded@.take(it.index() as int),
                permitted(chars@),
        {
            if self.char_to_index.get(c).is_none() {
                return None;
            }
            chars.push(c);
        }
        assert(folded@.take(folded@.len() as int) =~= folded@);
        Some(chars)
    }

    /// Stores a word, case-folded. A word with a character outside the
    /// alphabet is refused and nothing changes.
    pub fn insert(&mut self, word: &str) -> (r: Result<(), TrieError>)
        requires
            old(self).wf(),
        ensures
            final(self).wf(),
            final(self).filter().size() == old(self).filter().size(),
            final(self).filter().num_hashes() == old(self).filter().num_hashes(),
            permitted(fold(word@)) ==> {
                &&& r == Ok::<(), TrieError>(())
                &&& final(self)@ == old(self)@.insert(fold(word@))
                &&& final(self).filter().bits() == mark(
                    old(self).filter().bits(),
                    item_hashes(fold(word@), old(self).filter().num_hashes()),
                )
            },
            !permitted(fold(word@)) ==> {
                &&& r == Err::<(), TrieError>(TrieError::InvalidCharacter)
                &&& *final(self) == *old(self)
            },
            old(self)@.contains(fold(word@)) ==> {
                &&& final(self).filter().bits() == old(self).filter().bits()
                &&& final(self).dump() == old(self).dump()
                &&& forall|p: Seq<char>| #[trigger] final(self).listing(p) == old(self).listing(p)
            },
    {
        let folded = fold_text(word);
        let chars = match self.permitted_chars(folded.as_str()) {
            Some(chars) => chars,
            None => {
                return Err(TrieError::InvalidCharacter);
            },
        };
        let mut current = &mut self.root;
        let mut i: usize = 0;
        assert(chars@.skip(0) =~= chars@);
        while i < chars.len()
            invariant
                i <= chars.len(),
                permitted(chars@),
                self.char_to_index.wf(),
                current.wf(),
                Node::extends(**final(current), **current, chars@.skip(i as int)) ==> Node::extends(
                    *after_borrow(self.root),
                    *old(self).root,
                    chars@,
                ),
            decreases chars.len() - i,
        {
            let ghost before = **current;
            let ghost target = **final(current);
            let ghost rest = chars@.skip(i as int);
            let c = chars[i];
            proof {
                lemma_slot_of(c);
            }
            let idx = self.char_to_index.get(c).unwrap();
            if current.children[idx].is_none() {
                current.children[idx] = Some(Box::new(Node::new(c)));
            }
            let ghost mid = **current;
            current = current.children[idx].as_mut().unwrap();
            proof {
                assert(rest.drop_first() =~= chars@.skip(i + 1));
                assert(Node::extends(**final(current), **current, chars@.skip(i + 1))
                    ==> Node::extends(target, before, rest)) by {
                    if Node::extends(**final(current), **current, chars@.skip(i + 1)) {
                        Node::lemma_extends_below(before, mid, target, idx as int, rest);
                    }
                }
            }
            i += 1;
        }
        let ghost before = **current;
        current.end_of_word = true;
        proof {
            assert(chars@.skip(chars@.len() as int) =~= Seq::<char>::empty());
            Node::lemma_extends_here(**current, before);
        }
        self.bloom_filter.insert(folded.as_str());
        proof {
            let w0 = fold(word@);
            old(self).bloom_filter.lemma_wf();
            let bits = old(self).bloom_filter.bits();
            let hashes = item_hashes(w0, old(self).bloom_filter.num_hashes());
            let k = old(self).bloom_filter.num_hashes();
            assert forall|w: Seq<char>| #[trigger]
                self.root.stores(w) implies self.bloom_filter.may_contain(w) by {
                if w == w0 {
                    lemma_mark_sets(bits, hashes);
                } else {
                    lemma_mark_keeps(bits, hashes, item_hashes(w, k));
                }
            }
            if old(self)@.contains(w0) {
                lemma_mark_again(bits, hashes);
                self.root.lemma_same_tree(*old(self).root, Seq::empty(), ALPHABET_SIZE as nat);
                assert forall|p: Seq<char>| #[trigger] self.listing(p) == old(self).listing(p) by {
                    self.root.lemma_same_tree_node_at(*old(self).root, p);
                    match (self.root.node_at(p), old(self).root.node_at(p)) {
                        (Some(a), Some(b)) => {
                            a.lemma_same_tree(b, p, ALPHABET_SIZE as nat);
                        },
                        _ => {},
                    }
                }
            }
        }
        Ok(())
    }

    /// The stored words that start with `p`, in the order in which a
    /// depth-first walk from the node of `p` meets them.
    pub closed spec fn listing(&self, p: Seq<char>) -> Seq<Seq<char>> {
        match self.root.node_at(p) {
            Some(n) => n.listing(p),
            None => Seq::empty(),
        }
    }

    /// The listing for a prefix holds no word twice, and holds exactly the
    /// stored words that start with the prefix.
    pub proof fn lemma_listing(&self, p: Seq<char>)
        requires
            self.wf(),
        ensures
            self.listing(p).no_duplicates(),
            forall|w: Seq<char>|
                #[trigger] self.listing(p).contains(w) <==> self@.contains(w) && p.is_prefix_of(w),
    {
        self.root.lemma_node_at_wf(p);
        match self.root.node_at(p) {
            Some(n) => {
                n.lemma_listing(p, ALPHABET_SIZE as nat);
            },
            None => {},
        }
        assert forall|w: Seq<char>| #[trigger]
            self.listing(p).contains(w) <==> self@.contains(w) && p.is_prefix_of(w) by {
            if p.is_prefix_of(w) {
                let s = w.skip(p.len() as int);
                assert(w =~= p + s);
                self.root.lemma_stores_split(p, s);
                if s.len() > 0 {
                    lemma_slot_of(s[0]);
                }
            }
        }
    }

    /// The stored words that start with the prefix, case-folded: each of them
    /// once, in depth-first order. A prefix that leads to no node, or holds a
    /// character outside the alphabet, gives the empty list.
    pub fn words_with_prefix(&self, prefix: &str) -> (results: Vec<String>)
        requires
            self.wf(),
        ensures
            texts(results@) == self.listing(fold(prefix@)),
            texts(results@).no_duplicates(),
            forall|w: Seq<char>|
                #[trigger] texts(results@).contains(w) <==> self@.contains(w) && fold(
                    prefix@,
                ).is_prefix_of(w),
    {
        broadcast use vstd::string::group_string_axioms;

        let folded = fold_text(prefix);
        let mut current: &Node = &self.root;
        let mut results: Vec<String> = Vec::new();
        let mut prefix_accum = String::new();
        proof {
            self.lemma_listing(folded@);
            assert(folded@.skip(0) =~= folded@);
        }
        for c in it: folded.as_str().chars()
            invariant
                it.seq() == folded@,
                folded@ == fold(prefix@),
                self.wf(),
                current.wf(),
                results@.len() == 0,
                prefix_accum@ == folded@.take(it.index() as int),
                self.root.node_at(folded@) == current.node_at(folded@.skip(it.index() as int)),
        {
            let ghost rest = folded@.skip(it.index() as int);
            assert(rest.drop_first() =~= folded@.skip(it.index() + 1));
            match self.char_to_index.get(c) {
                Some(idx) => {
                    match &current.children[idx] {
                        Some(node) => {
                            prefix_accum.push(c);
                            current = node;
                        },
                        None => {
                            proof {
                                self.lemma_listing(folded@);
                            }
                            assert(texts(results@) =~= self.listing(folded@));
                            return results;
                        },
                    }
                },
                None => {
                    proof {
                        self.lemma_listing(folded@);
                    }
                    return results;
                },
            }
        }
        Node::collect_words_from_node(current, &mut prefix_accum, &mut results);
        results
    }

    /// Stores each word as `insert` does, one after the other. A word that is
    /// refused leaves the dictionary as it is and the others are still stored;
    /// the result tells, for each word, how it fared.
    pub fn bulk_insert(&mut self, words: &[&str]) -> (outcomes: Vec<Result<(), TrieError>>)
        requires
            old(self).wf(),
        ensures
            final(self).wf(),
            final(self).filter().size() == old(self).filter().size(),
            final(self).filter().num_hashes() == old(self).filter().num_hashes(),
            final(self)@ == old(self)@.union(kept(slice_texts(words@)).to_set()),
            final(self).filter().bits() == after_items(
                old(self).filter().bits(),
                kept(slice_texts(words@)),
                old(self).filter().num_hashes(),
            ),
            outcomes@.len() == words@.len(),
            forall|i: int|
                0 <= i < words@.len() ==> #[trigger] outcomes@[i] == if permitted(
                    fold(words@[i]@),
                ) {
                    Ok::<(), TrieError>(())
                } else {
                    Err::<(), TrieError>(TrieError::InvalidCharacter)
                },
    {
        let ghost all = slice_texts(words@);
        let ghost bits = self.filter().bits();
        let ghost k = self.filter().num_hashes();
        let mut outcomes: Vec<Result<(), TrieError>> = Vec::new();
        let mut i: usize = 0;
        while i < words.len()
            invariant
                i <= words.len(),
                all == slice_texts(words@),
                self.wf(),
                self.filter().size() == old(self).filter().size(),
                self.filter().num_hashes() == k,
                self@ == old(self)@.union(kept(all.take(i as int)).to_set()),
                self.filter().bits() == after_items(bits, kept(all.take(i as int)), k),
                outcomes@.len() == i,
                forall|j: int|
                    0 <= j < i ==> #[trigger] outcomes@[j] == if permitted(fold(words@[j]@)) {
                        Ok::<(), TrieError>(())
                    } else {
                        Err::<(), TrieError>(TrieError::InvalidCharacter)
                    },
            decreases words.len() - i,
        {
            let ghost before = kept(all.take(i as int));
            let outcome = self.insert(words[i]);
            proof {
                let w = fold(words@[i as int]@);
                assert(all.take(i + 1).drop_last() =~= all.take(i as int));
                if permitted(w) {
                    assert(before.push(w).drop_last() =~= before);
                    before.lemma_push_to_set_commute(w);
                }
            }
            outcomes.push(outcome);
            i += 1;
        }
        assert(all.take(words@.len() as int) =~= all);
        outcomes
    }

    /// The diagnostic dump of the tree.
    pub closed spec fn dump(&self) -> Seq<char> {
        self.root.dump_upto(Seq::empty(), ALPHABET_SIZE as nat)
    }

    /// The tree as indented text for debugging, one line for each node. The
    /// caller prints it.
    pub fn print(&self) -> (text: String)
        ensures
            text@ == self.dump(),
    {
        let mut text = String::new();
        let indent = String::new();
        Node::debug_print(&self.root, indent.as_str(), &mut text);
        text
    }

    /// Whether the word is stored. The filter is asked first; where it
    /// answers "possibly present", the tree decides.
    pub fn contains(&self, word: &str) -> (r: bool)
        requires
            self.wf(),
        ensures
            r == self@.contains(fold(word@)),
    {
        broadcast use vstd::string::group_string_axioms;

        let folded = fold_text(word);
        if !self.bloom_filter.contains(folded.as_str()) {
            return false;
        }
        let mut current: &Node = &self.root;
        assert(folded@.skip(0) =~= folded@);
        for c in it: folded.as_str().chars()
            invariant
                it.seq() == folded@,
                folded@ == fold(word@),
                self.char_to_index.wf(),
                current.wf(),
                self.root.stores(folded@) == current.stores(folded@.skip(it.index() as int)),
        {
            let ghost rest = folded@.skip(it.index() as int);
            assert(rest.drop_first() =~= folded@.skip(it.index() + 1));
            match self.char_to_index.get(c) {
                Some(idx) => {
                    match &current.children[idx] {
                        Some(node) => {
                            current = node;
                        },
                        None => {
                            return false;
                        },
                    }
                },
                None => {
                    return false;
                },
            }
        }
        current.end_of_word
    }
}

} // verus!
