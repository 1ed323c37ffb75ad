//! The alphabet: the characters that a stored word may hold, and the slot that
//! each of them has in a node.
use vstd::prelude::*;

verus! {

/// The permitted characters, in slot order.
pub const ALPHABET: &'static str =
    "abcdefghijklmnopqrstuvwxyzABCDEFGHIJKLMNOPQRSTUVWXYZ0123456789.,;:!?\"'()-_[]{}@#$%^&*+/\\|<> ";

/// The number of permitted characters, which is the number of slots of a node.
pub const ALPHABET_SIZE: usize = 92;

/// Characters below this bound have an entry in the index table.
pub const TABLE_SIZE: usize = 128;

/// The alphabet as a sequence of characters.
pub open spec fn alphabet() -> Seq<char> {
    ALPHABET@
}

/// The slot of a character: its position in the alphabet, if it occurs there.
pub open spec fn slot_of(c: char) -> Option<int> {
    if alphabet().contains(c) {
        Some(alphabet().index_of(c))
    } else {
        None
    }
}

/// Whether every character of a word is in the alphabet.
pub open spec fn permitted(w: Seq<char>) -> bool {
    forall|i: int| 0 <= i < w.len() ==> (#[trigger] slot_of(w[i])) is Some
}

/// A character with its case folded: an ASCII capital becomes the small letter,
/// every other character stays.
pub open spec fn fold_char(c: char) -> char {
    if 'A' <= c && c <= 'Z' {
        ((c as u8) + 32) as char
    } else {
        c
    }
}

/// A word with the case of each character folded.
pub open spec fn fold(w: Seq<char>) -> Seq<char> {
    Seq::new(w.len(), |i: int| fold_char(w[i]))
}

/// The alphabet has `ALPHABET_SIZE` characters, no character twice, and all of
/// them below `TABLE_SIZE`.
pub proof fn lemma_alphabet()
    ensures
        alphabet().len() == ALPHABET_SIZE,
        forall|i: int, j: int| 0 <= i < j < ALPHABET_SIZE ==> alphabet()[i] != alphabet()[j],
        forall|i: int|
            0 <= i < ALPHABET_SIZE ==> 0 <= ((#[trigger] alphabet()[i]) as int) < TABLE_SIZE,
{
    reveal_strlit("abcdefghijklmnopqrstuvwxyzABCDEFGHIJKLMNOPQRSTUVWXYZ0123456789.,;:!?\"'()-_[]{}@#$%^&*+/\\|<> ");
}

/// The slot of the `i`-th character of the alphabet is `i`.
pub proof fn lemma_slot_of_nth(i: int)
    requires
        0 <= i < ALPHABET_SIZE,
    ensures
        slot_of(alphabet()[i]) == Some(i),
{
    lemma_alphabet();
    let c = alphabet()[i];
}

/// A slot lies within a node, and the alphabet holds the character there.
pub proof fn lemma_slot_of(c: char)
    ensures
        slot_of(c) matches Some(i) ==> 0 <= i < ALPHABET_SIZE && alphabet()[i] == c,
{
    lemma_alphabet();
}

/// Two characters with the same slot are the same character.
pub proof fn lemma_slot_injective(c: char, d: char)
    requires
        slot_of(c) is Some,
        slot_of(c) == slot_of(d),
    ensures
        c == d,
{
    lemma_slot_of(c);
    lemma_slot_of(d);
}

/// Folds the case of one character.
pub fn to_folded(c: char) -> (r: char)
    ensures
        r == fold_char(c),
{
    if 'A' <= c && c <= 'Z' {
        ((c as u8) + 32) as char
    } else {
        c
    }
}

/// Folds the case of a text.
pub fn fold_text(text: &str) -> (r: String)
    ensures
        r@ == fold(text@),
{
    broadcast use vstd::string::group_string_axioms;

    let mut r = String::new();
    for c in it: text.chars()
        invariant
            it.seq() == text@,
            r@ =~= fold(text@.take(it.index() as int)),
    {
        r.push(to_folded(c));
    }
    r
}

/// The table from character to slot.
pub struct CharIndex {
    slots: Vec<Option<usize>>,
}

impl CharIndex {
    /// The table has an entry for each character below `TABLE_SIZE`, and the
    /// entry is the character's slot.
    pub closed spec fn wf(&self) -> bool {
        &&& self.slots.len() == TABLE_SIZE
        &&& forall|b: u8|
            b < TABLE_SIZE ==> match slot_of(b as char) {
                Some(i) => #[trigger] self.slots[b as int] == Some(i as usize),
                None => self.slots[b as int] is None,
            }
    }

    /// Builds the table from the alphabet.
    pub fn new() -> (t: CharIndex)
        ensures
            t.wf(),
    {
        broadcast use vstd::string::group_string_axioms;

        proof {
            lemma_alphabet();
        }
        let mut slots: Vec<Option<usize>> = Vec::new();
        let mut k: usize = 0;
        while k < TABLE_SIZE
            invariant
                k <= TABLE_SIZE,
                slots.len() == k,
                forall|b: int| 0 <= b < k ==> slots[b] is None,
            decreases TABLE_SIZE - k,
        {
            slots.push(None);
            k += 1;
        }
        let mut i: usize = 0;
        for c in it: ALPHABET.chars()
            invariant
                it.seq() == alphabet(),
                alphabet().len() == ALPHABET_SIZE,
                i == it.index(),
                slots.len() == TABLE_SIZE,
                forall|j: int|
                    0 <= j < i ==> slots[#[trigger] alphabet()[j] as int] == Some(j as usize),
                forall|b: int|
                    0 <= b < TABLE_SIZE ==> match #[trigger] slots[b] {
                        Some(j) => j < i && alphabet()[j as int] as int == b,
                        None => true,
                    },
        {
            proof {
                lemma_alphabet();
            }
            let b = c as u8;
            slots.set(b as usize, Some(i));
            assert forall|j: int| 0 <= j < i + 1 implies slots[#[trigger] alphabet()[j] as int]
                == Some(j as usize) by {}
            i += 1;
        }
        let t = CharIndex { slots };
        proof {
            assert forall|b: u8| b < TABLE_SIZE implies match slot_of(b as char) {
                Some(i) => #[trigger] t.slots[b as int] == Some(i as usize),
                None => t.slots[b as int] is None,
            } by {
                lemma_slot_of(b as char);
                match slot_of(b as char) {
                    Some(i) => {
                    },
                    None => {
                    },
                }
            }
        }
        t
    }

    /// The slot of a character, or `None` for one outside the alphabet.
    pub fn get(&self, c: char) -> (r: Option<usize>)
        requires
            self.wf(),
        ensures
            match slot_of(c) {
                Some(i) => r == Some(i as usize) && i < ALPHABET_SIZE,
                None => r is None,
            },
    {
        proof {
            lemma_slot_of(c);
            lemma_alphabet();
        }
        if c <= '\x7f' {
            let b = c as u8;
            self.slots[b as usize]
        } else {
            None
        }
    }
}

} // verus!
