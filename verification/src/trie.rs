//! The dictionary index: a character trie whose nodes carry a bitmap of the
//! alphabet runes that their children start with.

use crate::lexicon::absorb;
use crate::lexicon::absorb_lines;
use crate::lexicon::has_entry;
use crate::lexicon::lemma_lexicon_keeps_top_score;
use crate::lexicon::lemma_load_idempotent;
use crate::lexicon::lexicon_of;
use crate::lexicon::none_higher;
use crate::lexicon::line_views;
use crate::lexicon::parse_line;
use crate::support::get_char_code;
use crate::support::in_alphabet;
use crate::support::is_alphabet;
use crate::support::lemma_code_rune;
use crate::support::lemma_rune_code;
use crate::support::rune_at;
use crate::support::runes_of;
use crate::support::char_code;
use vstd::prelude::*;

verus! {

/// A node of the trie. The root carries the rune NUL.
#[derive(Debug)]
pub struct Node {
    rune: char,
    occupied: u32,
    children: Vec<Node>,
    word: Option<(String, u32)>,
}

/// Whether bit `code` of `mask` is set.
pub open spec fn bit_is_set(mask: u32, code: u32) -> bool {
    (mask >> code) & 1 == 1
}

/// Position of the first of `children`, at or after `from`, that carries
/// `rune`; the number of children when none does.
pub closed spec fn child_pos(children: Seq<Node>, rune: char, from: int) -> int
    decreases children.len() - from,
{
    if from < 0 || from >= children.len() {
        children.len() as int
    } else if children[from].rune == rune {
        from
    } else {
        child_pos(children, rune, from + 1)
    }
}

/// The score that a lexicon holds for `key`, if it holds the key.
pub open spec fn score_in(lexicon: Map<Seq<char>, u32>, key: Seq<char>) -> Option<u32> {
    if lexicon.contains_key(key) {
        Some(lexicon[key])
    } else {
        None
    }
}

/// The score of a key after one more entry for it: the larger one stays.
pub open spec fn merged_score(held: Option<u32>, score: u32) -> u32 {
    match held {
        Some(s) => if s >= score {
            s
        } else {
            score
        },
        None => score,
    }
}

proof fn lemma_child_pos_found(children: Seq<Node>, rune: char, from: int)
    requires
        0 <= from <= children.len(),
    ensures
        from <= child_pos(children, rune, from) <= children.len(),
        child_pos(children, rune, from) < children.len() ==> children[child_pos(
            children,
            rune,
            from,
        )].rune == rune,
        forall|j: int|
            from <= j < child_pos(children, rune, from) ==> (#[trigger] children[j]).rune != rune,
    decreases children.len() - from,
{
    if from < children.len() && children[from].rune != rune {
        lemma_child_pos_found(children, rune, from + 1);
    }
}

proof fn lemma_child_pos_first(children: Seq<Node>, rune: char, from: int, at: int)
    requires
        0 <= from <= at < children.len(),
        children[at].rune == rune,
        forall|j: int| from <= j < at ==> (#[trigger] children[j]).rune != rune,
    ensures
        child_pos(children, rune, from) == at,
    decreases at - from,
{
    if from < at {
        lemma_child_pos_first(children, rune, from + 1, at);
    }
}

proof fn lemma_child_pos_absent(children: Seq<Node>, rune: char, from: int)
    requires
        0 <= from <= children.len(),
        forall|j: int| from <= j < children.len() ==> (#[trigger] children[j]).rune != rune,
    ensures
        child_pos(children, rune, from) == children.len(),
    decreases children.len() - from,
{
    if from < children.len() {
        lemma_child_pos_absent(children, rune, from + 1);
    }
}

/// Two runs of nodes with the same runes find every rune at the same place.
proof fn lemma_child_pos_same_runes(a: Seq<Node>, b: Seq<Node>, rune: char, from: int)
    requires
        a.len() == b.len(),
        forall|j: int| 0 <= j < a.len() ==> (#[trigger] a[j]).rune == b[j].rune,
        0 <= from <= a.len(),
    ensures
        child_pos(a, rune, from) == child_pos(b, rune, from),
    decreases a.len() - from,
{
    if from < a.len() {
        assert(a[from].rune == b[from].rune);
        if a[from].rune != rune {
            lemma_child_pos_same_runes(a, b, rune, from + 1);
        }
    }
}

/// Where a rune is found after one more node was appended.
proof fn lemma_child_pos_push(children: Seq<Node>, node: Node, rune: char)
    ensures
        child_pos(children.push(node), rune, 0) == if child_pos(children, rune, 0)
            < children.len() {
            child_pos(children, rune, 0)
        } else if node.rune == rune {
            children.len() as int
        } else {
            children.len() as int + 1
        },
{
    let grown = children.push(node);
    let at = child_pos(children, rune, 0);
    lemma_child_pos_found(children, rune, 0);
    if at < children.len() {
        assert forall|j: int| 0 <= j < at implies (#[trigger] grown[j]).rune != rune by {
            assert(grown[j] == children[j]);
        }
        assert(grown[at] == children[at]);
        lemma_child_pos_first(grown, rune, 0, at);
    } else if node.rune == rune {
        assert forall|j: int| 0 <= j < children.len() implies (#[trigger] grown[j]).rune
            != rune by {
            assert(grown[j] == children[j]);
        }
        lemma_child_pos_first(grown, rune, 0, children.len() as int);
    } else {
        assert forall|j: int| 0 <= j < grown.len() implies (#[trigger] grown[j]).rune != rune by {
            if j < children.len() {
                assert(grown[j] == children[j]);
            }
        }
        lemma_child_pos_absent(grown, rune, 0);
    }
}

proof fn lemma_set_bit(mask: u32, code: u32)
    by (bit_vector)
    requires
        code < 32,
    ensures
        bit_is_set(mask | (1u32 << code), code),
        forall|other: u32|
            other < 32 && other != code ==> (#[trigger] bit_is_set(mask | (1u32 << code), other)
                == bit_is_set(mask, other)),
{
}

proof fn lemma_no_bit(code: u32)
    by (bit_vector)
    requires
        code < 32,
    ensures
        !bit_is_set(0u32, code),
{
}

impl View for Node {
    type V = Map<Seq<char>, u32>;

    /// The lexicon that the trie under this node holds.
    open spec fn view(&self) -> Map<Seq<char>, u32> {
        Map::new(|key: Seq<char>| self.lookup(key) is Some, |key: Seq<char>| self.lookup(key)->0)
    }
}

impl Node {
    /// The score at the end of the path that `key` spells from this node.
    pub closed spec fn lookup(&self, key: Seq<char>) -> Option<u32>
        decreases key.len(),
    {
        if key.len() == 0 {
            match self.word {
                Some(entry) => Some(entry.1),
                None => None,
            }
        } else {
            let pos = child_pos(self.children@, key[0], 0);
            if 0 <= pos < self.children@.len() {
                self.children@[pos].lookup(key.skip(1))
            } else {
                None
            }
        }
    }

    /// Validity of the node that stands at the end of `path`: no two children
    /// carry the same rune, the bitmap has the bit of an alphabet rune exactly
    /// when a child carries that rune, a terminal holds the word that the path
    /// spells, and every child is valid in turn.
    pub closed spec fn wf_at(&self, path: Seq<char>) -> bool
        decreases self,
    {
        &&& forall|i: int, j: int|
            0 <= i < j < self.children@.len() ==> (#[trigger] self.children@[i]).rune != (
            #[trigger] self.children@[j]).rune
        &&& forall|code: u32|
            code < 26 ==> (#[trigger] bit_is_set(self.occupied, code) <==> child_pos(
                self.children@,
                rune_at(code as int),
                0,
            ) < self.children@.len())
        &&& match self.word {
            Some(entry) => entry.0@ == path,
            None => true,
        }
        &&& forall|i: int|
            0 <= i < self.children@.len() ==> (#[trigger] self.children@[i]).wf_at(
                path.push(self.children@[i].rune),
            )
    }

    /// Validity of a root: the node is valid at the empty path, and the
    /// lexicon that it holds is finite.
    pub open spec fn wf(&self) -> bool {
        self.wf_at(Seq::empty()) && self@.dom().finite()
    }

    /// The score that the trie holds for `key`, if any.
    pub open spec fn score_of(&self, key: Seq<char>) -> Option<u32> {
        score_in(self@, key)
    }

    /// An empty root.
    pub fn new() -> (node: Node)
        ensures
            node.wf(),
            node@ == Map::<Seq<char>, u32>::empty(),
    {
        let node = Node::new_with('\0', None);
        proof {
            node.lemma_bare(Seq::empty());
            assert(node@ =~= Map::<Seq<char>, u32>::empty());
        }
        node
    }

    fn new_with(rune: char, word: Option<(String, u32)>) -> (node: Node)
        ensures
            node.rune == rune,
            node.occupied == 0,
            node.children@.len() == 0,
            node.word == word,
    {
        Node { rune, occupied: 0, children: Vec::new(), word }
    }

    /// A node without children nor terminal is valid and holds nothing.
    proof fn lemma_bare(&self, path: Seq<char>)
        requires
            self.occupied == 0,
            self.children@.len() == 0,
            self.word is None,
        ensures
            self.wf_at(path),
            forall|key: Seq<char>| (#[trigger] self.lookup(key)) is None,
    {
        assert forall|code: u32| code < 26 implies (#[trigger] bit_is_set(self.occupied, code)
            <==> child_pos(self.children@, rune_at(code as int), 0) < self.children@.len()) by {
            lemma_no_bit(code);
        }
        assert forall|key: Seq<char>| (#[trigger] self.lookup(key)) is None by {
            if key.len() > 0 {
                assert(child_pos(self.children@, key[0], 0) == 0);
            }
        }
    }

    /// Looks a word up: its score if the lexicon holds it.
    pub fn check(&self, word: &str) -> (score: Option<u32>)
        requires
            self.wf(),
        ensures
            score == self.score_of(word@),
    {
        let len = word.unicode_len();
        let mut curr: &Node = self;
        let mut i: usize = 0;
        assert(word@.skip(0) == word@);
        assert(word@.take(0) == Seq::<char>::empty());
        while i < len
            invariant
                i <= len,
                len == word@.len(),
                curr.wf_at(word@.take(i as int)),
                self.lookup(word@) == curr.lookup(word@.skip(i as int)),
            decreases len - i,
        {
            let rune = word.get_char(i);
            let ghost rest = word@.skip(i as int);
            assert(rest[0] == rune);
            assert(rest.skip(1) == word@.skip(i + 1));
            if in_alphabet(rune) && !curr.check_bit(rune) {
                proof {
                    lemma_code_rune(rune);
                    assert(!bit_is_set(curr.occupied, char_code(rune) as u32));
                }
                return None;
            }
            let (pos, _) = find_child_pos(&curr.children, rune);
            if pos == curr.children.len() {
                return None;
            }
            assert(word@.take(i + 1) == word@.take(i as int).push(rune));
            curr = &curr.children[pos];
            i += 1;
        }
        assert(word@.skip(len as int).len() == 0);
        match &curr.word {
            Some(entry) => Some(entry.1),
            None => None,
        }
    }

    /// Adds the entry `content` below this node, which stands at the end of
    /// the first `index` runes of `arr`. The larger score of a word is kept.
    fn insert(&mut self, content: (String, u32), arr: &Vec<char>, index: usize)
        requires
            old(self).wf_at(arr@.take(index as int)),
            arr@ == content.0@,
        ensures
            final(self).wf_at(arr@.take(index as int)),
            final(self).rune == old(self).rune,
            forall|key: Seq<char>| #[trigger]
                final(self).lookup(key) == (if index < arr.len() && key == arr@.skip(
                    index as int,
                ) {
                    Some(merged_score(old(self).lookup(key), content.1))
                } else {
                    old(self).lookup(key)
                }),
        decreases arr.len() - index,
    {
        let len = arr.len();
        if index >= len {
            return ;
        }
        let ghost before = *self;
        let ghost path = arr@.take(index as int);
        let ghost tail = arr@.skip(index as int);
        let rune = arr[index];
        let (pos, _) = find_child_pos(&self.children, rune);
        if pos == self.children.len() {
            if in_alphabet(rune) {
                self.add_bit(rune);
            }
            let fresh = Node::new_with(rune, None);
            proof {
                fresh.lemma_bare(path.push(rune));
            }
            self.children.push(fresh);
            proof {
                lemma_child_pos_found(before.children@, rune, 0);
                lemma_child_pos_push(before.children@, fresh, rune);
                assert forall|code: u32| code < 26 implies (#[trigger] bit_is_set(
                    self.occupied,
                    code,
                ) <==> child_pos(self.children@, rune_at(code as int), 0)
                    < self.children@.len()) by {
                    lemma_rune_code(code as int);
                    lemma_child_pos_push(before.children@, fresh, rune_at(code as int));
                    assert(bit_is_set(before.occupied, code) <==> child_pos(
                        before.children@,
                        rune_at(code as int),
                        0,
                    ) < before.children@.len());
                    if is_alphabet(rune) {
                        lemma_code_rune(rune);
                        lemma_set_bit(before.occupied, char_code(rune) as u32);
                    }
                }
                assert forall|i: int| 0 <= i < self.children@.len() implies (
                #[trigger] self.children@[i]).wf_at(path.push(self.children@[i].rune)) by {
                    if i < before.children@.len() {
                        assert(self.children@[i] == before.children@[i]);
                    }
                }
                assert(self.wf_at(path));
                assert forall|key: Seq<char>| #[trigger]
                    self.lookup(key) == before.lookup(key) by {
                    if key.len() > 0 {
                        lemma_child_pos_found(before.children@, key[0], 0);
                        lemma_child_pos_push(before.children@, fresh, key[0]);
                        let at = child_pos(before.children@, key[0], 0);
                        if at < before.children@.len() {
                            assert(self.children@[at] == before.children@[at]);
                        } else if key[0] == rune {
                            assert(self.children@[at] == fresh);
                            assert(fresh.lookup(key.skip(1)) is None);
                        }
                    } else {
                        assert(self.word == before.word);
                    }
                }
            }
        }
        let ghost mid = *self;
        proof {
            lemma_child_pos_found(before.children@, rune, 0);
            assert(child_pos(mid.children@, rune, 0) == pos);
            assert(mid.children@[pos as int].wf_at(path.push(rune)));
            assert(path.push(rune) == arr@.take(index + 1));
        }
        if index == len - 1 {
            let keep = match &self.children[pos].word {
                Some(held) => held.1 >= content.1,
                None => false,
            };
            if !keep {
                self.children[pos].word = Some(content);
            }
            proof {
                assert(arr@.take(index + 1) == arr@);
                assert(arr@.skip(index + 1).len() == 0);
            }
        } else {
            self.children[pos].insert(content, arr, index + 1);
        }
        proof {
            let child = self.children@[pos as int];
            let was = mid.children@[pos as int];
            assert(self.children@ == mid.children@.update(pos as int, child));
            assert(child.rune == rune);
            assert forall|code: u32| code < 26 implies (#[trigger] bit_is_set(
                self.occupied,
                code,
            ) <==> child_pos(self.children@, rune_at(code as int), 0)
                < self.children@.len()) by {
                lemma_child_pos_same_runes(mid.children@, self.children@, rune_at(code as int), 0);
                assert(bit_is_set(mid.occupied, code) <==> child_pos(
                    mid.children@,
                    rune_at(code as int),
                    0,
                ) < mid.children@.len());
            }
            assert forall|i: int| 0 <= i < self.children@.len() implies (
            #[trigger] self.children@[i]).wf_at(path.push(self.children@[i].rune)) by {
                if i != pos {
                    assert(self.children@[i] == mid.children@[i]);
                }
            }
            assert(self.wf_at(path));
            assert forall|sub: Seq<char>| #[trigger]
                child.lookup(sub) == (if sub == arr@.skip(index + 1) {
                    Some(merged_score(was.lookup(sub), content.1))
                } else {
                    was.lookup(sub)
                }) by {
                if index == len - 1 {
                    if sub.len() == 0 {
                        assert(sub == arr@.skip(index + 1));
                    }
                }
            }
            assert forall|key: Seq<char>| #[trigger]
                self.lookup(key) == (if key == tail {
                    Some(merged_score(before.lookup(key), content.1))
                } else {
                    before.lookup(key)
                }) by {
                assert(mid.lookup(key) == before.lookup(key));
                assert(tail.len() > 0);
                assert(tail[0] == rune);
                assert(tail.skip(1) == arr@.skip(index + 1));
                if key.len() > 0 {
                    lemma_child_pos_same_runes(mid.children@, self.children@, key[0], 0);
                    lemma_child_pos_found(mid.children@, key[0], 0);
                    let at = child_pos(mid.children@, key[0], 0);
                    assert(child_pos(self.children@, key[0], 0) == at);
                    if key[0] == rune {
                        assert(at == pos);
                        assert(self.lookup(key) == child.lookup(key.skip(1)));
                        assert(mid.lookup(key) == was.lookup(key.skip(1)));
                        if key.skip(1) == tail.skip(1) {
                            assert(key == tail) by {
                                assert(key == seq![key[0]] + key.skip(1));
                                assert(tail == seq![tail[0]] + tail.skip(1));
                            }
                        }
                    } else {
                        assert(key != tail);
                        if at < mid.children@.len() {
                            assert(at != pos);
                            assert(self.children@[at] == mid.children@[at]);
                        }
                        assert(self.lookup(key) == mid.lookup(key));
                    }
                } else {
                    assert(self.word == mid.word);
                    assert(self.lookup(key) == mid.lookup(key));
                }
            }
        }
    }

    /// Adds every well-formed line of `lines` to the trie, in order, and
    /// returns the number of words that were not in it before.
    pub fn build(&mut self, lines: &Vec<String>) -> (added: usize)
        requires
            old(self).wf(),
        ensures
            final(self).wf(),
            final(self)@ == absorb_lines(old(self)@, line_views(lines@)),
            final(self)@.len() == old(self)@.len() + added,
    {
        let ghost before = self@;
        let mut n: usize = 0;
        let mut added: usize = 0;
        assert(line_views(lines@).take(0) == Seq::<Seq<char>>::empty());
        while n < lines.len()
            invariant
                n <= lines.len(),
                added <= n,
                self.wf(),
                self@ == absorb_lines(before, line_views(lines@).take(n as int)),
                self@.len() == before.len() + added,
            decreases lines.len() - n,
        {
            let ghost held = *self;
            let ghost seen = line_views(lines@).take(n as int);
            let ghost grown = line_views(lines@).take(n + 1);
            assert(grown.drop_last() == seen);
            assert(grown.last() == lines@[n as int]@);
            match parse_line(lines[n].as_str()) {
                Some(entry) => {
                    let arr = runes_of(entry.0.as_str());
                    let ghost key = entry.0@;
                    let ghost score = entry.1;
                    assert(key.len() > 0);
                    assert(arr@.take(0) == Seq::<char>::empty());
                    assert(arr@.skip(0) == arr@);
                    let known = self.check(entry.0.as_str()).is_some();
                    self.insert(entry, &arr, 0);
                    assert forall|k: Seq<char>| #[trigger]
                        self.lookup(k) == (if k == key {
                            Some(merged_score(held.lookup(k), score))
                        } else {
                            held.lookup(k)
                        }) by {
                        assert(arr@.skip(0) == arr@);
                    }
                    assert(self@ =~= absorb(held@, key, score));
                    assert(self@.dom() =~= held@.dom().insert(key));
                    if !known {
                        added += 1;
                    }
                },
                None => {},
            }
            n += 1;
        }
        assert(line_views(lines@).take(lines@.len() as int) == line_views(lines@));
        added
    }

    /// Whether the bitmap has the bit of `rune`.
    fn check_bit(&self, rune: char) -> (set: bool)
        requires
            is_alphabet(rune),
        ensures
            set == bit_is_set(self.occupied, char_code(rune) as u32),
    {
        (self.occupied >> get_char_code(rune)) & 1 == 1
    }

    /// Sets the bit of `rune` in the bitmap.
    fn add_bit(&mut self, rune: char)
        requires
            is_alphabet(rune),
        ensures
            final(self).occupied == old(self).occupied | (1u32 << (char_code(rune) as u32)),
            final(self).rune == old(self).rune,
            final(self).children == old(self).children,
            final(self).word == old(self).word,
    {
        self.occupied |= 1u32 << get_char_code(rune);
    }
}

/// A dictionary that was built from a run of lines holds a word with a
/// score exactly when some line gives the word that score and no line gives
/// it a higher one.
pub proof fn lemma_check_top_score(
    dict: Node,
    lines: Seq<Seq<char>>,
    word: Seq<char>,
    score: u32,
)
    requires
        dict@ == lexicon_of(lines),
    ensures
        dict.score_of(word) == Some(score) <==> (has_entry(lines, word, score) && none_higher(
            lines,
            word,
            score,
        )),
{
    lemma_lexicon_keeps_top_score(lines, word, score);
}

/// Two dictionaries that were built from the same lines answer every lookup
/// alike.
pub proof fn lemma_build_repeatable(
    first: Node,
    second: Node,
    lines: Seq<Seq<char>>,
    word: Seq<char>,
)
    requires
        first@ == lexicon_of(lines),
        second@ == lexicon_of(lines),
    ensures
        first.score_of(word) == second.score_of(word),
{
}

/// Building a dictionary again from the lines that it was built from
/// changes nothing.
pub proof fn lemma_rebuild_changes_nothing(dict: Node, lines: Seq<Seq<char>>)
    requires
        dict@ == lexicon_of(lines),
    ensures
        absorb_lines(dict@, lines) == dict@,
{
    lemma_load_idempotent(lines);
}

impl Default for Node {
    fn default() -> (node: Self)
        ensures
            node.wf(),
            node@ == Map::<Seq<char>, u32>::empty(),
    {
        Node::new()
    }
}

/// Position of the child that carries `rune`, or the number of children when
/// none does; the rune comes back with it.
fn find_child_pos(children: &Vec<Node>, rune: char) -> (found: (usize, char))
    ensures
        found.0 == child_pos(children@, rune, 0),
        found.0 <= children@.len(),
        found.0 < children@.len() ==> children@[found.0 as int].rune == rune,
        found.1 == rune,
{
    let mut index: usize = 0;
    while index < children.len() && children[index].rune != rune
        invariant
            index <= children.len(),
            child_pos(children@, rune, 0) == child_pos(children@, rune, index as int),
        decreases children.len() - index,
    {
        index += 1;
    }
    (index, rune)
}

} // verus!
