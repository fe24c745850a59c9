use vstd::prelude::*;

verus! {

/// The words of `words` that extend `prefix` by at least one character.
pub open spec fn completions(words: Set<Seq<char>>, prefix: Seq<char>) -> Set<Seq<char>> {
    words.filter(
        |w: Seq<char>| prefix.len() < w.len() && w.subrange(0, prefix.len() as int) == prefix,
    )
}

/// The character sequences of a sequence of strings.
pub open spec fn texts(v: Seq<String>) -> Seq<Seq<char>> {
    v.map_values(|s: String| s@)
}

/// One node of a prefix tree; the node that a caller holds is the root.
///
/// Each child edge is labelled by a character; no two edges of a node carry the same one.
pub struct Node {
    is_complete: bool,
    children: Vec<(char, Node)>,
}

impl Node {
    /// Edge labels are distinct, every node below is well formed, and every node
    /// below the root ends a word or has children (so every leaf ends a word).
    pub closed spec fn wf(&self) -> bool
        decreases self,
    {
        &&& forall|i: int, j: int|
            0 <= i < j < self.children.len() ==> self.children[i].0 != self.children[j].0
        &&& forall|i: int|
            0 <= i < self.children.len() ==> {
                let child = (#[trigger] self.children[i]).1;
                child.wf() && (child.is_complete || child.children.len() > 0)
            }
    }

    /// `w` spells a path from this node down to a node that ends a word.
    pub closed spec fn has_word(&self, w: Seq<char>) -> bool
        decreases w.len(),
    {
        if w.len() == 0 {
            self.is_complete
        } else {
            exists|i: int|
                0 <= i < self.children.len() && (#[trigger] self.children[i]).0 == w[0]
                    && self.children[i].1.has_word(w.drop_first())
        }
    }
}

impl Node {
    /// `w` spells a path of edges from this node down to some node.
    pub closed spec fn has_path(&self, w: Seq<char>) -> bool
        decreases w.len(),
    {
        if w.len() == 0 {
            true
        } else {
            exists|i: int|
                0 <= i < self.children.len() && (#[trigger] self.children[i]).0 == w[0]
                    && self.children[i].1.has_path(w.drop_first())
        }
    }
}

impl View for Node {
    type V = Set<Seq<char>>;

    /// The set of words stored below this node.
    closed spec fn view(&self) -> Set<Seq<char>> {
        Set::new(|w: Seq<char>| self.has_word(w))
    }
}

impl Node {
    /// An empty tree: it holds no word.
    pub fn new() -> (r: Self)
        ensures
            r.wf(),
            r@ == Set::<Seq<char>>::empty(),
    {
        let r = Node { is_complete: false, children: Vec::new() };
        assert(r@ =~= Set::<Seq<char>>::empty());
        r
    }

    fn is_leaf(&self) -> (r: bool)
        ensures
            r == (self.children.len() == 0),
    {
        self.children.is_empty()
    }

    fn is_word(&self) -> (r: bool)
        ensures
            r == self.is_complete,
    {
        self.is_complete
    }

    /// The position of the edge labelled `ch`, if there is one.
    fn child_index(&self, ch: char) -> (r: Option<usize>)
        ensures
            match r {
                Some(j) => j < self.children.len() && self.children[j as int].0 == ch,
                None => forall|j: int| 0 <= j < self.children.len() ==> self.children[j].0 != ch,
            },
    {
        let mut j: usize = 0;
        while j < self.children.len()
            invariant
                j <= self.children.len(),
                forall|k: int| 0 <= k < j ==> self.children[k].0 != ch,
            decreases self.children.len() - j,
        {
            if self.children[j].0 == ch {
                return Some(j);
            }
            j = j + 1;
        }
        None
    }
}


/// The words below a node whose first character is the label of edge `j` are that
/// edge's character followed by the words below its child.
proof fn lemma_has_word_first(n: &Node, w: Seq<char>, j: int)
    requires
        n.wf(),
        0 <= j < n.children.len(),
        w.len() > 0,
        w[0] == n.children[j].0,
    ensures
        n.has_word(w) == n.children[j].1.has_word(w.drop_first()),
{
    if n.has_word(w) {
        let k = choose|k: int|
            0 <= k < n.children.len() && (#[trigger] n.children[k]).0 == w[0]
                && n.children[k].1.has_word(w.drop_first());
        assert(k == j);
    }
}

/// No word below a node starts with a character that labels none of its edges.
proof fn lemma_has_word_absent(n: &Node, w: Seq<char>)
    requires
        w.len() > 0,
        forall|k: int| 0 <= k < n.children.len() ==> n.children[k].0 != w[0],
    ensures
        !n.has_word(w),
{
}

/// A path from a node whose first character is the label of edge `j` is that
/// edge followed by a path from its child.
proof fn lemma_has_path_first(n: &Node, w: Seq<char>, j: int)
    requires
        n.wf(),
        0 <= j < n.children.len(),
        w.len() > 0,
        w[0] == n.children[j].0,
    ensures
        n.has_path(w) == n.children[j].1.has_path(w.drop_first()),
{
    if n.has_path(w) {
        let k = choose|k: int|
            0 <= k < n.children.len() && (#[trigger] n.children[k]).0 == w[0]
                && n.children[k].1.has_path(w.drop_first());
        assert(k == j);
    }
}

/// No path from a node starts with a character that labels none of its edges.
proof fn lemma_has_path_absent(n: &Node, w: Seq<char>)
    requires
        w.len() > 0,
        forall|k: int| 0 <= k < n.children.len() ==> n.children[k].0 != w[0],
    ensures
        !n.has_path(w),
{
}

impl Node {
    /// Stores the characters of `word` from position `i` on, below this node.
    fn insert_from(&mut self, word: &Vec<char>, i: usize)
        requires
            old(self).wf(),
            i < word.len(),
        ensures
            final(self).wf(),
            final(self).children.len() > 0,
            final(self)@ == old(self)@.insert(word@.subrange(i as int, word.len() as int)),
        decreases word.len() - i,
    {
        let ghost before = *self;
        let ghost s = word@.subrange(i as int, word.len() as int);
        let ghost rest = word@.subrange(i + 1, word.len() as int);
        assert(s.drop_first() =~= rest);
        assert(s =~= seq![word@[i as int]] + rest);
        let ch = word[i];
        let last = i + 1 == word.len();
        let ghost pos: int;
        match self.child_index(ch) {
            Some(j) => {
                let (c, mut node) = self.children.remove(j);
                let ghost prev = node;
                assert(prev.wf() && (prev.is_complete || prev.children.len() > 0)) by {
                    assert(prev == before.children[j as int].1);
                }
                if !last {
                    node.insert_from(word, i + 1);
                    assert forall|v: Seq<char>| node.has_word(v) == (prev.has_word(v) || v == rest) by {
                        assert(node@.contains(v) == node.has_word(v));
                        assert(prev@.contains(v) == prev.has_word(v));
                    }
                } else {
                    node.is_complete = true;
                    assert(node.children@ == prev.children@);
                    assert(node.wf());
                    assert forall|v: Seq<char>| node.has_word(v) == (prev.has_word(v) || v == rest) by {
                        if v.len() == 0 {
                            assert(v =~= rest);
                        } else {
                            assert(node.has_word(v) == prev.has_word(v));
                        }
                    }
                }
                self.children.insert(j, (c, node));
                proof {
                    pos = j as int;
                    assert(self.children@ =~= before.children@.update(pos, (ch, node)));
                }
            },
            None => {
                let mut node = Node::new();
                if !last {
                    node.insert_from(word, i + 1);
                    assert forall|v: Seq<char>| node.has_word(v) == (v == rest) by {
                        assert(node@.contains(v) == node.has_word(v));
                    }
                } else {
                    let ghost prev = node;
                    node.is_complete = true;
                    assert(node.children@ == prev.children@);
                    assert(node.wf());
                    assert forall|v: Seq<char>| node.has_word(v) == (v == rest) by {
                        if v.len() == 0 {
                            assert(v =~= rest);
                        } else {
                            assert(prev@.contains(v) == prev.has_word(v));
                            assert(node.has_word(v) == prev.has_word(v));
                        }
                    }
                }
                self.children.push((ch, node));
                proof {
                    pos = before.children.len() as int;
                }
            },
        }
        proof {
            let child = self.children[pos].1;
            assert forall|v: Seq<char>| child.has_word(v) == (before.has_word(seq![ch] + v) || v == rest) by {
                let cv = seq![ch] + v;
                assert(cv.drop_first() =~= v);
                if pos < before.children.len() {
                    lemma_has_word_first(&before, cv, pos);
                } else {
                    lemma_has_word_absent(&before, cv);
                }
            }
            assert(self.wf());
            assert forall|w: Seq<char>| #[trigger] self@.contains(w) == (before@.contains(w) || w == s) by {
                if w.len() > 0 {
                    let v = w.drop_first();
                    assert(w =~= seq![w[0]] + v);
                    if w[0] == ch {
                        lemma_has_word_first(self, w, pos);
                        assert(w == s <==> v == rest);
                    } else {
                        if self.has_word(w) {
                            let k = choose|k: int|
                                0 <= k < self.children.len() && (#[trigger] self.children[k]).0
                                    == w[0] && self.children[k].1.has_word(v);
                            assert(before.children[k] == self.children[k]);
                        }
                        if before.has_word(w) {
                            let k = choose|k: int|
                                0 <= k < before.children.len() && (#[trigger] before.children[k]).0
                                    == w[0] && before.children[k].1.has_word(v);
                            assert(before.children[k] == self.children[k]);
                        }
                    }
                }
            }
            assert(self@ =~= before@.insert(s));
        }
    }
}


/// The characters of `s`, in order.
fn chars_of(s: &str) -> (r: Vec<char>)
    ensures
        r@ == s@,
{
    broadcast use vstd::string::group_string_axioms;

    let mut r: Vec<char> = Vec::new();
    for c in it: s.chars()
        invariant
            r@ == it.seq().subrange(0, it.index() as int),
            it.seq() == s@,
    {
        r.push(c);
    }
    r
}

impl Node {
    /// Stores `word`. The empty word leaves the tree as it is.
    pub fn insert(&mut self, word: &str) -> (r: &mut Node)
        requires
            old(self).wf(),
        ensures
            r.wf(),
            r@ == (if word@.len() == 0 {
                old(self)@
            } else {
                old(self)@.insert(word@)
            }),
            *final(self) == *final(r),
    {
        let chars = chars_of(word);
        if chars.len() > 0 {
            self.insert_from(&chars, 0);
            assert(chars@.subrange(0, chars@.len() as int) =~= word@);
        }
        self
    }
}


/// Relies on `String::push`, which appends the character to the end of the string.
pub assume_specification[ String::push ](string: &mut String, ch: char)
    ensures
        final(string)@ == old(string)@.push(ch),
;

/// `x` is `prefix` followed by a (possibly empty) word stored below `n`.
spec fn at_or_below(n: &Node, prefix: Seq<char>, x: Seq<char>) -> bool {
    &&& prefix.len() <= x.len()
    &&& x.subrange(0, prefix.len() as int) == prefix
    &&& n.has_word(x.subrange(prefix.len() as int, x.len() as int))
}

/// `x` is `prefix` followed by a non-empty word stored below `n`.
spec fn strictly_below(n: &Node, prefix: Seq<char>, x: Seq<char>) -> bool {
    prefix.len() < x.len() && at_or_below(n, prefix, x)
}

/// `x` is `prefix` followed by the label of one of the first `i` edges of `n` and a
/// word stored below that edge's child.
spec fn below_edges(n: &Node, prefix: Seq<char>, x: Seq<char>, i: int) -> bool {
    exists|j: int|
        0 <= j < i && at_or_below(
            &(#[trigger] n.children[j]).1,
            prefix.push(n.children[j].0),
            x,
        )
}

/// Below edge `j`, the strings that extend `prefix` are those whose next character
/// is that edge's label.
proof fn lemma_below_edge(n: &Node, prefix: Seq<char>, x: Seq<char>, j: int)
    requires
        0 <= j < n.children.len(),
    ensures
        at_or_below(&n.children[j].1, prefix.push(n.children[j].0), x) == (prefix.len() < x.len()
            && x.subrange(0, prefix.len() as int) == prefix && x[prefix.len() as int]
            == n.children[j].0 && n.children[j].1.has_word(
            x.subrange(prefix.len() as int + 1, x.len() as int),
        )),
{
    let q = prefix.push(n.children[j].0);
    if prefix.len() < x.len() {
        assert(x.subrange(0, q.len() as int) == q <==> (x.subrange(0, prefix.len() as int)
            == prefix && x[prefix.len() as int] == n.children[j].0)) by {
            if x.subrange(0, prefix.len() as int) == prefix && x[prefix.len() as int]
                == n.children[j].0 {
                assert(x.subrange(0, q.len() as int) =~= q);
            }
            if x.subrange(0, q.len() as int) == q {
                assert(x.subrange(0, prefix.len() as int) =~= prefix);
                assert(q[prefix.len() as int] == n.children[j].0);
            }
        }
    }
}

/// The strings below all edges of a well-formed node are those strictly below it.
proof fn lemma_below_all_edges(n: &Node, prefix: Seq<char>, x: Seq<char>)
    requires
        n.wf(),
    ensures
        below_edges(n, prefix, x, n.children.len() as int) == strictly_below(n, prefix, x),
{
    if prefix.len() < x.len() {
        let t = x.subrange(prefix.len() as int, x.len() as int);
        assert(t.drop_first() =~= x.subrange(prefix.len() as int + 1, x.len() as int));
        assert(t[0] == x[prefix.len() as int]);
        if below_edges(n, prefix, x, n.children.len() as int) {
            let j = choose|j: int|
                0 <= j < n.children.len() && at_or_below(
                    &(#[trigger] n.children[j]).1,
                    prefix.push(n.children[j].0),
                    x,
                );
            lemma_below_edge(n, prefix, x, j);
        }
        if strictly_below(n, prefix, x) {
            let j = choose|j: int|
                0 <= j < n.children.len() && (#[trigger] n.children[j]).0 == t[0]
                    && n.children[j].1.has_word(t.drop_first());
            lemma_below_edge(n, prefix, x, j);
        }
    } else {
        if below_edges(n, prefix, x, n.children.len() as int) {
            let j = choose|j: int|
                0 <= j < n.children.len() && at_or_below(
                    &(#[trigger] n.children[j]).1,
                    prefix.push(n.children[j].0),
                    x,
                );
            lemma_below_edge(n, prefix, x, j);
        }
    }
}

impl Node {
    /// Appends to `words` each word below this node, written after `prefix`, that a
    /// child edge reaches: a leaf child's word always, another child's word where it
    /// ends a word, and then the words further below that child.
    fn produce_words(&self, prefix: String, words: &mut Vec<String>)
        requires
            self.wf(),
        ensures
            final(words)@.len() >= old(words)@.len(),
            final(words)@.subrange(0, old(words)@.len() as int) == old(words)@,
            forall|k: int|
                old(words)@.len() <= k < final(words)@.len() ==> strictly_below(
                    self,
                    prefix@,
                    #[trigger] final(words)@[k]@,
                ),
            forall|x: Seq<char>|
                strictly_below(self, prefix@, x) ==> exists|k: int|
                    old(words)@.len() <= k < final(words)@.len() && #[trigger] final(words)@[k]@
                        == x,
            forall|k1: int, k2: int|
                old(words)@.len() <= k1 < k2 < final(words)@.len() ==> final(words)@[k1]@
                    != final(words)@[k2]@,
        decreases self,
    {
        let ghost start = words@;
        let ghost p = prefix@;
        let mut i: usize = 0;
        while i < self.children.len()
            invariant
                self.wf(),
                prefix@ == p,
                i <= self.children.len(),
                words@.len() >= start.len(),
                words@.subrange(0, start.len() as int) == start,
                forall|k: int|
                    start.len() <= k < words@.len() ==> below_edges(
                        self,
                        p,
                        #[trigger] words@[k]@,
                        i as int,
                    ),
                forall|x: Seq<char>|
                    below_edges(self, p, x, i as int) ==> exists|k: int|
                        start.len() <= k < words@.len() && #[trigger] words@[k]@ == x,
                forall|k1: int, k2: int|
                    start.len() <= k1 < k2 < words@.len() ==> words@[k1]@ != words@[k2]@,
            decreases self.children.len() - i,
        {
            let ghost mid = words@;
            let ch = self.children[i].0;
            let node = &self.children[i].1;
            assert(node.wf() && (node.is_complete || node.children.len() > 0));
            let mut word = prefix.clone();
            word.push(ch);
            let ghost w = word@;
            if node.is_leaf() {
                words.push(word);
                proof {
                    assert forall|x: Seq<char>| at_or_below(node, w, x) == (x == w) by {
                        if x == w {
                            assert(x.subrange(0, w.len() as int) =~= w);
                        }
                        if at_or_below(node, w, x) {
                            let t = x.subrange(w.len() as int, x.len() as int);
                            if t.len() > 0 {
                                lemma_has_word_absent(node, t);
                            }
                            assert(x =~= w);
                        }
                    }
                    assert forall|k: int| mid.len() <= k < words@.len() implies at_or_below(node, w, #[trigger] words@[k]@) by {
                        
                    }
                    assert forall|x: Seq<char>| at_or_below(node, w, x) implies exists|k: int|
                        mid.len() <= k < words@.len() && #[trigger] words@[k]@ == x by {
                        assert(words@[mid.len() as int]@ == x);
                    }
                    assert forall|k1: int, k2: int|
                        mid.len() <= k1 < k2 < words@.len() implies words@[k1]@ != words@[k2]@ by {
                        
                    }
                }
            } else if node.is_word() {
                let new_prefix = word.clone();
                words.push(word);
                let ghost pushed = words@;
                node.produce_words(new_prefix, words);
                proof {
                    assert(words@[mid.len() as int] == pushed[mid.len() as int]);
                    assert forall|x: Seq<char>|
                        at_or_below(node, w, x) == (x == w || strictly_below(node, w, x)) by {
                        if x == w {
                            assert(x.subrange(0, w.len() as int) =~= w);
                            assert(x.subrange(w.len() as int, x.len() as int).len() == 0);
                        }
                        if at_or_below(node, w, x) && x.len() == w.len() {
                            assert(x =~= w);
                        }
                    }
                    assert forall|k: int| mid.len() <= k < words@.len() implies at_or_below(node, w, #[trigger] words@[k]@) by {
                        if k > mid.len() { assert(strictly_below(node, w, words@[k]@)); }
                    }
                    assert forall|x: Seq<char>| at_or_below(node, w, x) implies exists|k: int|
                        mid.len() <= k < words@.len() && #[trigger] words@[k]@ == x by {
                        if x == w {
                            assert(words@[mid.len() as int]@ == x);
                        } else {
                            assert(strictly_below(node, w, x));
                        }
                    }
                    assert forall|k1: int, k2: int|
                        mid.len() <= k1 < k2 < words@.len() implies words@[k1]@ != words@[k2]@ by {
                        if k1 == mid.len() {
                            assert(strictly_below(node, w, words@[k2]@));
                        }
                    }
                    assert forall|k: int| start.len() <= k < mid.len() implies words@[k] == mid[k] by {
                        assert(words@[k] == pushed.subrange(0, pushed.len() as int - 1)[k]);
                    }
                    assert(words@.subrange(0, start.len() as int) =~= start);
                }
            } else {
                node.produce_words(word, words);
                proof {
                    assert forall|x: Seq<char>| at_or_below(node, w, x) == strictly_below(node, w, x) by {
                        if at_or_below(node, w, x) && x.len() == w.len() {
                            assert(x.subrange(w.len() as int, x.len() as int).len() == 0);
                        }
                    }
                    assert forall|k: int| mid.len() <= k < words@.len() implies at_or_below(node, w, #[trigger] words@[k]@) by {
                        assert(strictly_below(node, w, words@[k]@));
                    }
                    assert forall|x: Seq<char>| at_or_below(node, w, x) implies exists|k: int|
                        mid.len() <= k < words@.len() && #[trigger] words@[k]@ == x by {
                        assert(strictly_below(node, w, x));
                    }
                    assert forall|k1: int, k2: int|
                        mid.len() <= k1 < k2 < words@.len() implies words@[k1]@ != words@[k2]@ by {
                        
                    }
                    assert forall|k: int| start.len() <= k < mid.len() implies words@[k] == mid[k] by {
                        assert(words@[k] == words@.subrange(0, mid.len() as int)[k]);
                    }
                    assert(words@.subrange(0, start.len() as int) =~= start);
                }
            }
            proof {
                assert(w == p.push(ch));
                assert forall|x: Seq<char>|
                    below_edges(self, p, x, i + 1) == (below_edges(self, p, x, i as int)
                        || at_or_below(node, w, x)) by {
                    if below_edges(self, p, x, i + 1) && !at_or_below(node, w, x) {
                        let j = choose|j: int|
                            0 <= j < i + 1 && at_or_below(
                                &(#[trigger] self.children[j]).1,
                                p.push(self.children[j].0),
                                x,
                            );
                        assert(j != i);
                    }
                }
                assert forall|x: Seq<char>|
                    below_edges(self, p, x, i as int) && at_or_below(node, w, x) implies false by {
                    let j = choose|j: int|
                        0 <= j < i && at_or_below(
                            &(#[trigger] self.children[j]).1,
                            p.push(self.children[j].0),
                            x,
                        );
                    lemma_below_edge(self, p, x, j);
                    lemma_below_edge(self, p, x, i as int);
                }
                assert forall|k: int| start.len() <= k < mid.len() implies words@[k] == mid[k] by {
                    assert(words@[k] == words@.subrange(0, mid.len() as int)[k]);
                }
                assert forall|k: int|
                    start.len() <= k < words@.len() implies below_edges(self, p, #[trigger] words@[k]@, i + 1) by {
                    if k < mid.len() {
                        assert(below_edges(self, p, mid[k]@, i as int));
                    } else {
                        assert(at_or_below(node, w, words@[k]@));
                    }
                }
                assert forall|k1: int, k2: int|
                    start.len() <= k1 < k2 < words@.len() implies words@[k1]@ != words@[k2]@ by {
                    if k1 < mid.len() && k2 >= mid.len() {
                        assert(below_edges(self, p, mid[k1]@, i as int));
                        assert(at_or_below(node, w, words@[k2]@));
                    } else if k2 < mid.len() {
                        assert(words@[k1] == mid[k1] && words@[k2] == mid[k2]);
                    }
                }
                assert forall|x: Seq<char>| #[trigger] below_edges(self, p, x, i + 1) implies exists|k: int|
                    start.len() <= k < words@.len() && #[trigger] words@[k]@ == x by {
                    if below_edges(self, p, x, i as int) {
                        let k = choose|k: int| start.len() <= k < mid.len() && #[trigger] mid[k]@ == x;
                        assert(words@[k]@ == x);
                    } else {
                        assert(at_or_below(node, w, x));
                    }
                }
            }
            i = i + 1;
        }
        proof {
            assert forall|x: Seq<char>|
                below_edges(self, p, x, self.children.len() as int) == strictly_below(self, p, x) by {
                lemma_below_all_edges(self, p, x);
            }
        }
    }
}


impl Node {
    /// Walks down from this node along `chars`. On success, yields the characters
    /// walked as a string together with the node reached; it fails where an edge is
    /// missing.
    fn get_start<'a>(&'a self, chars: &Vec<char>) -> (r: Option<(String, &'a Node)>)
        requires
            self.wf(),
        ensures
            r is Some <==> self.has_path(chars@),
            chars@.len() == 0 ==> match r {
                Some((_, n)) => n == self,
                None => false,
            },
            match r {
                Some((s, n)) => s@ == chars@ && n.wf() && forall|v: Seq<char>|
                    n.has_word(v) == self.has_word(chars@ + v),
                None => forall|v: Seq<char>| !self.has_word(chars@ + v),
            },
    {
        let mut node: &Node = self;
        let mut s = String::new();
        let mut i: usize = 0;
        while i < chars.len()
            invariant
                self.wf(),
                node.wf(),
                i <= chars.len(),
                s@ == chars@.subrange(0, i as int),
                forall|v: Seq<char>|
                    node.has_word(v) == self.has_word(chars@.subrange(0, i as int) + v),
                forall|v: Seq<char>|
                    node.has_path(v) == self.has_path(chars@.subrange(0, i as int) + v),
                i == 0 ==> node == self,
            decreases chars.len() - i,
        {
            let ch = chars[i];
            match node.child_index(ch) {
                None => {
                    proof {
                        assert forall|v: Seq<char>| !self.has_word(chars@ + v) by {
                            let t = chars@.subrange(i as int, chars.len() as int) + v;
                            assert(chars@ + v =~= chars@.subrange(0, i as int) + t);
                            assert(t[0] == ch);
                            lemma_has_word_absent(node, t);
                        }
                        let t = chars@.subrange(i as int, chars.len() as int);
                        assert(chars@ =~= chars@.subrange(0, i as int) + t);
                        assert(t[0] == ch);
                        lemma_has_path_absent(node, t);
                    }
                    return None;
                },
                Some(j) => {
                    proof {
                        assert forall|v: Seq<char>|
                            node.children[j as int].1.has_word(v) == self.has_word(
                                chars@.subrange(0, i + 1) + v,
                            ) by {
                            let t = seq![ch] + v;
                            assert(t.drop_first() =~= v);
                            lemma_has_word_first(node, t, j as int);
                            assert(chars@.subrange(0, i + 1) + v =~= chars@.subrange(0, i as int)
                                + t);
                        }
                        assert forall|v: Seq<char>|
                            node.children[j as int].1.has_path(v) == self.has_path(
                                chars@.subrange(0, i + 1) + v,
                            ) by {
                            let t = seq![ch] + v;
                            assert(t.drop_first() =~= v);
                            lemma_has_path_first(node, t, j as int);
                            assert(chars@.subrange(0, i + 1) + v =~= chars@.subrange(0, i as int)
                                + t);
                        }
                    }
                    node = &node.children[j].1;
                    s.push(ch);
                    i = i + 1;
                    assert(s@ =~= chars@.subrange(0, i as int));
                },
            }
        }
        assert(chars@.subrange(0, i as int) =~= chars@);
        assert(chars@.subrange(0, i as int) + Seq::<char>::empty() =~= chars@);
        assert(node.has_path(Seq::<char>::empty()));
        Some((s, node))
    }

    /// The stored words that extend `prefix` by at least one character, each once.
    /// A stored word equal to `prefix` itself is not among them.
    pub fn find(&self, prefix: &str) -> (r: Vec<String>)
        requires
            self.wf(),
        ensures
            texts(r@).no_duplicates(),
            texts(r@).to_set() == completions(self@, prefix@),
    {
        let chars = chars_of(prefix);
        let mut words: Vec<String> = Vec::new();
        let ghost p = prefix@;
        match self.get_start(&chars) {
            Some((start_prefix, start_node)) => {
                start_node.produce_words(start_prefix, &mut words);
                proof {
                    assert(words@.subrange(0, 0) =~= Seq::<String>::empty());
                    assert forall|x: Seq<char>| #[trigger] strictly_below(start_node, p, x)
                        == completions(self@, p).contains(x) by {
                        let v = x.subrange(p.len() as int, x.len() as int);
                        if p.len() <= x.len() && x.subrange(0, p.len() as int) == p {
                            assert(p + v =~= x);
                        }
                    }
                    assert forall|k: int| 0 <= k < words@.len() implies completions(self@, p).contains(
                        #[trigger] words@[k]@,
                    ) by {
                        assert(strictly_below(start_node, p, words@[k]@));
                    }
                    assert forall|x: Seq<char>| #[trigger] completions(self@, p).contains(x) implies exists|k: int|
                        0 <= k < words@.len() && #[trigger] words@[k]@ == x by {
                        assert(strictly_below(start_node, p, x));
                    }
                }
            },
            None => {
                proof {
                    assert forall|x: Seq<char>| !completions(self@, p).contains(x) by {
                        if p.len() < x.len() && x.subrange(0, p.len() as int) == p {
                            let v = x.subrange(p.len() as int, x.len() as int);
                            assert(p + v =~= x);
                        }
                    }
                    assert(words@.len() == 0);
                }
            },
        }
        proof {
            let t = texts(words@);
            assert forall|a: int, b: int| 0 <= a < t.len() && 0 <= b < t.len() && a != b
                implies t[a] != t[b] by {
                if a > b {
                    assert(words@[b]@ != words@[a]@);
                } else {
                    assert(words@[a]@ != words@[b]@);
                }
            }
            assert forall|x: Seq<char>| t.to_set().contains(x) == completions(self@, p).contains(x) by {
                if t.to_set().contains(x) {
                    let k = choose|k: int| 0 <= k < t.len() && t[k] == x;
                    assert(words@[k]@ == x);
                    assert(completions(self@, p).contains(words@[k]@));
                }
                if completions(self@, p).contains(x) {
                    let k = choose|k: int| 0 <= k < words@.len() && #[trigger] words@[k]@ == x;
                    assert(t[k] == x);
                    assert(t.contains(x));
                }
            }
            assert(t.to_set() =~= completions(self@, p));
        }
        words
    }
}

} // verus!
