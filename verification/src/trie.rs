//! A character trie over keyword strings.
//!
//! Each node maps characters to child nodes and carries a terminal flag.
//! The trie's contents are described by [`accepts`]; scanning is described
//! by the maximal-descent function [`descend`].

use vstd::prelude::*;

verus! {

/// One trie node: labelled edges to children, and whether some keyword ends
/// here. Lookups always take the first edge with a matching label.
#[derive(Debug)]
pub struct TrieNode {
    pub children: Vec<(char, TrieNode)>,
    pub is_word_end: bool,
}

/// The first child reached from `cs` along an edge labelled `c`.
pub open spec fn find_child(cs: Seq<(char, TrieNode)>, c: char) -> Option<TrieNode>
    decreases cs.len(),
{
    if cs.len() == 0 {
        None
    } else if cs[0].0 == c {
        Some(cs[0].1)
    } else {
        find_child(cs.drop_first(), c)
    }
}

/// Whether the word `w` is spelled by a path from `node` ending at a
/// terminal node.
pub open spec fn accepts(node: TrieNode, w: Seq<char>) -> bool
    decreases w.len(),
{
    if w.len() == 0 {
        node.is_word_end
    } else {
        match find_child(node.children@, w[0]) {
            Some(c) => accepts(c, w.drop_first()),
            None => false,
        }
    }
}

/// Maximal descent from `node` through `text` starting at position `j`:
/// follows edges while one exists, and returns the stop position together
/// with whether the node reached is terminal.
pub open spec fn descend(node: TrieNode, text: Seq<char>, j: int) -> (int, bool)
    recommends
        0 <= j <= text.len(),
    decreases text.len() - j,
{
    if j < text.len() && find_child(node.children@, text[j]) is Some {
        descend(find_child(node.children@, text[j]).unwrap(), text, j + 1)
    } else {
        (j, node.is_word_end)
    }
}

/// A match attempt at position `p`: enters the trie on `text[p]` and
/// descends maximally from there; `None` when no edge leaves the root on
/// `text[p]`.
pub open spec fn attempt(root: TrieNode, text: Seq<char>, p: int) -> Option<(int, bool)> {
    if p < text.len() && find_child(root.children@, text[p]) is Some {
        Some(descend(find_child(root.children@, text[p]).unwrap(), text, p + 1))
    } else {
        None
    }
}

/// Where scanning resumes after a descent that stopped at `j`: the stopping
/// character was consumed by the descent, so scanning continues just past it.
pub open spec fn resume(text: Seq<char>, j: int) -> int {
    if j < text.len() {
        j + 1
    } else {
        text.len() as int
    }
}

/// Two non-empty sequences with equal heads and equal tails are equal.
pub proof fn lemma_cons_eq(a: Seq<char>, b: Seq<char>)
    requires
        a.len() > 0,
        b.len() > 0,
        a[0] == b[0],
        a.drop_first() == b.drop_first(),
    ensures
        a == b,
{
    assert(a =~= b) by {
        assert(a.drop_first().len() == a.len() - 1);
        assert(b.drop_first().len() == b.len() - 1);
        assert(a.len() == b.len());
        assert forall|t: int| 0 <= t < a.len() implies a[t] == b[t] by {
            if t > 0 {
                assert(a[t] == a.drop_first()[t - 1]);
                assert(b[t] == b.drop_first()[t - 1]);
            }
        }
    }
}

pub proof fn lemma_find_child_first(cs: Seq<(char, TrieNode)>, c: char, j: int)
    requires
        0 <= j < cs.len(),
        cs[j].0 == c,
        forall|i: int| 0 <= i < j ==> cs[i].0 != c,
    ensures
        find_child(cs, c) == Some(cs[j].1),
    decreases j,
{
    if j > 0 {
        lemma_find_child_first(cs.drop_first(), c, j - 1);
    }
}

pub proof fn lemma_find_child_none(cs: Seq<(char, TrieNode)>, c: char)
    requires
        forall|i: int| 0 <= i < cs.len() ==> cs[i].0 != c,
    ensures
        find_child(cs, c) is None,
    decreases cs.len(),
{
    if cs.len() > 0 {
        lemma_find_child_none(cs.drop_first(), c);
    }
}

/// A failed lookup means no edge at all is labelled `c`.
pub proof fn lemma_find_child_none_inv(cs: Seq<(char, TrieNode)>, c: char)
    requires
        find_child(cs, c) is None,
    ensures
        forall|i: int| 0 <= i < cs.len() ==> cs[i].0 != c,
    decreases cs.len(),
{
    if cs.len() > 0 {
        lemma_find_child_none_inv(cs.drop_first(), c);
        assert(forall|i: int| 0 < i < cs.len() ==> cs[i] == cs.drop_first()[i - 1]);
    }
}

/// The first index whose edge is labelled `c`, for a lookup known to succeed.
pub proof fn lemma_find_child_witness(cs: Seq<(char, TrieNode)>, c: char) -> (j: int)
    requires
        find_child(cs, c) is Some,
    ensures
        0 <= j < cs.len(),
        cs[j].0 == c,
        forall|i: int| 0 <= i < j ==> cs[i].0 != c,
        find_child(cs, c) == Some(cs[j].1),
    decreases cs.len(),
{
    if cs[0].0 == c {
        0
    } else {
        let j = lemma_find_child_witness(cs.drop_first(), c) + 1;
        assert(cs.drop_first()[j - 1] == cs[j]);
        assert(forall|i: int| 0 < i < j ==> cs.drop_first()[i - 1] == cs[i]);
        j
    }
}

/// Bounds of a maximal descent: it stops between its start and the end of
/// the text.
pub proof fn lemma_descend_bounds(node: TrieNode, text: Seq<char>, j: int)
    requires
        0 <= j <= text.len(),
    ensures
        j <= descend(node, text, j).0 <= text.len(),
    decreases text.len() - j,
{
    if j < text.len() && find_child(node.children@, text[j]) is Some {
        lemma_descend_bounds(find_child(node.children@, text[j]).unwrap(), text, j + 1);
    }
}

/// A descent that stops at a terminal node spells an accepted word.
pub proof fn lemma_descend_terminal_accepts(node: TrieNode, text: Seq<char>, j: int)
    requires
        0 <= j <= text.len(),
        descend(node, text, j).1,
    ensures
        accepts(node, text.subrange(j, descend(node, text, j).0)),
    decreases text.len() - j,
{
    let (e, t) = descend(node, text, j);
    if j < text.len() && find_child(node.children@, text[j]) is Some {
        let child = find_child(node.children@, text[j]).unwrap();
        lemma_descend_terminal_accepts(child, text, j + 1);
        lemma_descend_bounds(child, text, j + 1);
        let w = text.subrange(j, e);
        assert(w[0] == text[j]);
        assert(w.drop_first() =~= text.subrange(j + 1, e));
    } else {
        assert(text.subrange(j, j) =~= Seq::<char>::empty());
    }
}

impl TrieNode {
    /// A fresh node with no children and no terminal mark.
    pub fn new() -> (node: TrieNode)
        ensures
            node.children@ =~= Seq::<(char, TrieNode)>::empty(),
            !node.is_word_end,
            forall|w: Seq<char>| !accepts(node, w),
    {
        let node = TrieNode { children: Vec::new(), is_word_end: false };
        proof {
            assert forall|w: Seq<char>| !accepts(node, w) by {
                if w.len() > 0 {
                    lemma_find_child_none(node.children@, w[0]);
                }
            }
        }
        node
    }
}

/// The first child of `children` along an edge labelled `c`, as a reference.
pub fn get_child<'a>(children: &'a Vec<(char, TrieNode)>, c: char) -> (r: Option<&'a TrieNode>)
    ensures
        match r {
            Some(n) => find_child(children@, c) == Some(*n),
            None => find_child(children@, c) is None,
        },
{
    let mut i: usize = 0;
    while i < children.len()
        invariant
            i <= children@.len(),
            forall|k: int| 0 <= k < i ==> children@[k].0 != c,
        decreases children@.len() - i,
    {
        let pair = &children[i];
        if pair.0 == c {
            proof {
                lemma_find_child_first(children@, c, i as int);
            }
            return Some(&pair.1);
        }
        i = i + 1;
    }
    proof {
        lemma_find_child_none(children@, c);
    }
    None
}

/// The index of the first child labelled `c`.
pub(crate) fn find_child_idx(children: &Vec<(char, TrieNode)>, c: char) -> (r: Option<usize>)
    ensures
        match r {
            Some(j) => j < children@.len() && children@[j as int].0 == c && (forall|i: int|
                0 <= i < j ==> children@[i].0 != c) && find_child(children@, c) == Some(
                children@[j as int].1,
            ),
            None => find_child(children@, c) is None,
        },
{
    let mut i: usize = 0;
    while i < children.len()
        invariant
            i <= children@.len(),
            forall|k: int| 0 <= k < i ==> children@[k].0 != c,
        decreases children@.len() - i,
    {
        if children[i].0 == c {
            proof {
                lemma_find_child_first(children@, c, i as int);
            }
            return Some(i);
        }
        i = i + 1;
    }
    proof {
        lemma_find_child_none(children@, c);
    }
    None
}

/// Maximal descent, executable form: mirrors [`descend`].
pub fn descend_exec(node: &TrieNode, text: &Vec<char>, j: usize) -> (r: (usize, bool))
    requires
        j <= text@.len(),
    ensures
        (r.0 as int, r.1) == descend(*node, text@, j as int),
        j <= r.0 <= text@.len(),
{
    let mut cur: &TrieNode = node;
    let mut k = j;
    loop
        invariant
            j <= k <= text@.len(),
            descend(*node, text@, j as int) == descend(*cur, text@, k as int),
        decreases text@.len() - k,
    {
        if k < text.len() {
            match get_child(&cur.children, text[k]) {
                Some(c) => {
                    cur = c;
                    k = k + 1;
                },
                None => {
                    return (k, cur.is_word_end);
                },
            }
        } else {
            return (k, cur.is_word_end);
        }
    }
}

/// A chain of fresh nodes accepting exactly the suffix `word[k..]`.
fn fresh_chain(word: &Vec<char>, k: usize) -> (node: TrieNode)
    requires
        k <= word@.len(),
    ensures
        forall|w: Seq<char>| accepts(node, w) <==> w == word@.subrange(
            k as int,
            word@.len() as int,
        ),
    decreases word@.len() - k,
{
    let ghost suffix = word@.subrange(k as int, word@.len() as int);
    if k == word.len() {
        let node = TrieNode { children: Vec::new(), is_word_end: true };
        proof {
            assert forall|w: Seq<char>| accepts(node, w) <==> w == suffix by {
                if w.len() > 0 {
                    lemma_find_child_none(node.children@, w[0]);
                } else {
                    assert(w =~= suffix);
                }
            }
        }
        node
    } else {
        let ch = word[k];
        let child = fresh_chain(word, k + 1);
        let ghost csuffix = word@.subrange(k + 1, word@.len() as int);
        let mut children: Vec<(char, TrieNode)> = Vec::new();
        children.push((ch, child));
        let node = TrieNode { children, is_word_end: false };
        proof {
            assert forall|w: Seq<char>| accepts(node, w) <==> w == suffix by {
                assert(suffix.len() > 0);
                assert(suffix[0] == ch);
                if w.len() == 0 {
                    assert(!accepts(node, w));
                } else {
                    assert(node.children@[0] == (ch, child));
                    if w[0] == ch {
                        lemma_find_child_first(node.children@, w[0], 0);
                        assert(accepts(node, w) == accepts(child, w.drop_first()));
                        assert(suffix.drop_first() =~= csuffix);
                        if w.drop_first() == csuffix {
                            lemma_cons_eq(w, suffix);
                        }
                        if w == suffix {
                            assert(w.drop_first() == csuffix);
                        }
                    } else {
                        lemma_find_child_none(node.children@, w[0]);
                        assert(!accepts(node, w));
                        assert(w != suffix);
                    }
                }
            }
        }
        node
    }
}

/// That `post` accepts exactly what `pre` accepts, plus the word `word`.
pub open spec fn inserted(pre: TrieNode, post: TrieNode, word: Seq<char>) -> bool {
    forall|w: Seq<char>| accepts(post, w) <==> (accepts(pre, w) || w == word)
}

/// Inserts the suffix `word[i..]` below `node`: afterwards the node accepts
/// exactly what it accepted before, plus that suffix.
pub fn insert_at(node: &mut TrieNode, word: &Vec<char>, i: usize)
    requires
        i <= word@.len(),
    ensures
        inserted(*old(node), *final(node), word@.subrange(i as int, word@.len() as int)),
    decreases word@.len() - i,
{
    let ghost orig = *node;
    let ghost suffix = word@.subrange(i as int, word@.len() as int);
    if i == word.len() {
        node.is_word_end = true;
        proof {
            assert(suffix.len() == 0);
            assert forall|w: Seq<char>| #![trigger accepts(*node, w)]
                accepts(*node, w) <==> (accepts(orig, w) || w == suffix) by {
                if w.len() == 0 {
                    assert(accepts(*node, w));
                    assert(w =~= suffix);
                } else {
                    assert(node.children@ == orig.children@);
                    assert(accepts(*node, w) == accepts(orig, w));
                    assert(w != suffix);
                }
            }
            assert(inserted(orig, *node, suffix));
        }
    } else {
        let ch = word[i];
        let ghost csuffix = word@.subrange(i + 1, word@.len() as int);
        proof {
            assert(suffix.len() > 0);
            assert(suffix[0] == ch);
            assert(suffix.drop_first() =~= csuffix);
        }
        match find_child_idx(&node.children, ch) {
            Some(j) => {
                let (c0, mut child) = node.children.remove(j);
                let ghost old_child = child;
                insert_at(&mut child, word, i + 1);
                node.children.insert(j, (c0, child));
                proof {
                    let cs = orig.children@;
                    let cs2 = node.children@;
                    assert(cs2 =~= cs.update(j as int, (ch, child)));
                    assert forall|w: Seq<char>| #![trigger accepts(*node, w)]
                        accepts(*node, w) <==> (accepts(orig, w) || w == suffix) by {
                        if w.len() == 0 {
                            assert(node.is_word_end == orig.is_word_end);
                            assert(w != suffix);
                        } else if w[0] == ch {
                            lemma_find_child_first(cs2, ch, j as int);
                            assert(find_child(cs2, w[0]) == Some(child));
                            assert(find_child(cs, w[0]) == Some(old_child));
                            assert(accepts(*node, w) == accepts(child, w.drop_first()));
                            assert(accepts(orig, w) == accepts(old_child, w.drop_first()));
                            if w.drop_first() == csuffix {
                                lemma_cons_eq(w, suffix);
                            }
                            if w == suffix {
                                assert(w.drop_first() == csuffix);
                            }
                        } else {
                            if find_child(cs, w[0]) is Some {
                                let k = lemma_find_child_witness(cs, w[0]);
                                assert(cs2[k] == cs[k]);
                                assert(forall|t: int| 0 <= t < k ==> cs2[t].0 == cs[t].0);
                                lemma_find_child_first(cs2, w[0], k);
                            } else {
                                lemma_find_child_none_inv(cs, w[0]);
                                assert(forall|t: int| 0 <= t < cs2.len() ==> cs2[t].0 != w[0]);
                                lemma_find_child_none(cs2, w[0]);
                            }
                            assert(accepts(*node, w) == accepts(orig, w));
                            assert(w != suffix);
                        }
                    }
                    assert(inserted(orig, *node, suffix));
                }
            },
            None => {
                let child = fresh_chain(word, i + 1);
                node.children.push((ch, child));
                proof {
                    let cs = orig.children@;
                    let cs2 = node.children@;
                    assert(cs2 =~= cs.push((ch, child)));
                    lemma_find_child_none_inv(cs, ch);
                    assert forall|w: Seq<char>| #![trigger accepts(*node, w)]
                        accepts(*node, w) <==> (accepts(orig, w) || w == suffix) by {
                        if w.len() == 0 {
                            assert(node.is_word_end == orig.is_word_end);
                            assert(w != suffix);
                        } else if w[0] == ch {
                            lemma_find_child_none(cs, w[0]);
                            assert(!accepts(orig, w));
                            lemma_find_child_first(cs2, ch, cs.len() as int);
                            assert(find_child(cs2, w[0]) == Some(child));
                            assert(accepts(*node, w) == accepts(child, w.drop_first()));
                            if w.drop_first() == csuffix {
                                lemma_cons_eq(w, suffix);
                            }
                            if w == suffix {
                                assert(w.drop_first() == csuffix);
                            }
                        } else {
                            if find_child(cs, w[0]) is Some {
                                let k = lemma_find_child_witness(cs, w[0]);
                                assert(cs2[k] == cs[k]);
                                lemma_find_child_first(cs2, w[0], k);
                            } else {
                                lemma_find_child_none_inv(cs, w[0]);
                                lemma_find_child_none(cs2, w[0]);
                            }
                            assert(accepts(*node, w) == accepts(orig, w));
                            assert(w != suffix);
                        }
                    }
                    assert(inserted(orig, *node, suffix));
                }
            },
        }
    }
}

} // verus!
