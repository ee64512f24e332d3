//! Domain-suffix matching: a pattern covers itself and every name below it.
use vstd::prelude::*;

use crate::text::{chars_of, same_chars};

verus! {

/// The label separator of a domain name.
pub const DOT: char = '.';

/// The separator of entries in a domain list.
pub const NEWLINE: char = '\n';

/// A blank that trimming removes.
pub open spec fn is_space(c: char) -> bool {
    c == ' ' || c == '\t' || c == '\r'
}

/// The labels of a name, from the rightmost (top-level) one to the leftmost.
pub open spec fn rlabels(s: Seq<char>) -> Seq<Seq<char>> {
    split_on(s, DOT).reverse()
}

/// `p` covers `n` when the rightmost labels of `n` are exactly those of `p`:
/// `n` is `p` itself or a name below it.
pub open spec fn covers(p: Seq<char>, n: Seq<char>) -> bool {
    rlabels(p).len() <= rlabels(n).len() && rlabels(n).subrange(0, rlabels(p).len() as int)
        == rlabels(p)
}

/// Some pattern of `pats` covers `n`.
pub open spec fn matched_by(pats: Set<Seq<char>>, n: Seq<char>) -> bool {
    exists|p: Seq<char>| pats.contains(p) && covers(p, n)
}

/// The pieces of `s` between occurrences of `sep` (one piece when `sep` is absent).
pub open spec fn split_on(s: Seq<char>, sep: char) -> Seq<Seq<char>>
    decreases s.len(),
{
    if s.len() == 0 {
        seq![Seq::empty()]
    } else {
        let r = split_on(s.drop_last(), sep);
        if s.last() == sep {
            r.push(Seq::empty())
        } else {
            r.update(r.len() - 1, r.last().push(s.last()))
        }
    }
}

pub open spec fn trim_start(s: Seq<char>) -> Seq<char>
    decreases s.len(),
{
    if s.len() > 0 && is_space(s[0]) {
        trim_start(s.drop_first())
    } else {
        s
    }
}

pub open spec fn trim_end(s: Seq<char>) -> Seq<char>
    decreases s.len(),
{
    if s.len() > 0 && is_space(s.last()) {
        trim_end(s.drop_last())
    } else {
        s
    }
}

/// `s` without leading and trailing blanks.
pub open spec fn trim(s: Seq<char>) -> Seq<char> {
    trim_end(trim_start(s))
}

/// The patterns that a sequence of lines holds: each line trimmed, blank ones left out.
pub open spec fn entries_of(lines: Seq<Seq<char>>) -> Set<Seq<char>> {
    Set::new(
        |p: Seq<char>|
            p.len() > 0 && exists|i: int| 0 <= i < lines.len() && #[trigger] trim(lines[i]) == p,
    )
}

/// The patterns that a domain list holds, one per line.
pub open spec fn entry_set(text: Seq<char>) -> Set<Seq<char>> {
    entries_of(split_on(text, NEWLINE))
}

pub proof fn lemma_split_nonempty(s: Seq<char>, sep: char)
    ensures
        split_on(s, sep).len() >= 1,
    decreases s.len(),
{
    if s.len() > 0 {
        lemma_split_nonempty(s.drop_last(), sep);
    }
}

proof fn lemma_entries_push(lines: Seq<Seq<char>>, l: Seq<char>)
    ensures
        entries_of(lines.push(l)) == (if trim(l).len() > 0 {
            entries_of(lines).insert(trim(l))
        } else {
            entries_of(lines)
        }),
{
    let a = entries_of(lines.push(l));
    let b = if trim(l).len() > 0 {
        entries_of(lines).insert(trim(l))
    } else {
        entries_of(lines)
    };
    assert forall|p: Seq<char>| a.contains(p) implies b.contains(p) by {
        let i = choose|i: int| 0 <= i < lines.push(l).len() && #[trigger] trim(lines.push(l)[i]) == p;
        if i < lines.len() {
            assert(trim(lines[i]) == p);
        }
    }
    assert forall|p: Seq<char>| b.contains(p) implies a.contains(p) by {
        if p == trim(l) && trim(l).len() > 0 {
            assert(trim(lines.push(l)[lines.len() as int]) == p);
        } else {
            let i = choose|i: int| 0 <= i < lines.len() && #[trigger] trim(lines[i]) == p;
            assert(trim(lines.push(l)[i]) == p);
        }
    }
    assert(a =~= b);
}

proof fn lemma_split_concat(a: Seq<char>, b: Seq<char>, sep: char)
    ensures
        split_on(a + seq![sep] + b, sep) == split_on(a, sep) + split_on(b, sep),
    decreases b.len(),
{
    let s = a + seq![sep] + b;
    lemma_split_nonempty(a, sep);
    if b.len() == 0 {
        assert(s.drop_last() =~= a);
        assert(split_on(b, sep) =~= seq![Seq::<char>::empty()]);
        assert(split_on(a, sep).push(Seq::empty()) =~= split_on(a, sep) + split_on(b, sep));
    } else {
        assert(s.drop_last() =~= a + seq![sep] + b.drop_last());
        lemma_split_concat(a, b.drop_last(), sep);
        lemma_split_nonempty(b.drop_last(), sep);
        let x = split_on(a, sep);
        let y = split_on(b.drop_last(), sep);
        if b.last() == sep {
            assert((x + y).push(Seq::empty()) =~= x + y.push(Seq::empty()));
        } else {
            assert((x + y).update((x + y).len() - 1, (x + y).last().push(b.last())) =~= x
                + y.update(y.len() - 1, y.last().push(b.last())));
        }
    }
}

/// A pattern covers itself and any name formed by prepending labels to it; a
/// set that holds it matches all of those names. A set that holds only that
/// pattern matches no name that the pattern does not cover.
pub proof fn lemma_pattern_coverage(
    pats: Set<Seq<char>>,
    p: Seq<char>,
    prefix: Seq<char>,
    other: Seq<char>,
)
    requires
        pats.contains(p),
    ensures
        matched_by(pats, p),
        matched_by(pats, prefix + seq![DOT] + p),
        !covers(p, other) ==> !matched_by(set![p], other),
{
    let n = prefix + seq![DOT] + p;
    lemma_split_concat(prefix, p, DOT);
    assert(rlabels(n) =~= rlabels(p) + rlabels(prefix));
    assert(rlabels(n).subrange(0, rlabels(p).len() as int) =~= rlabels(p));
    assert(rlabels(p).subrange(0, rlabels(p).len() as int) =~= rlabels(p));
    assert(covers(p, p));
    assert(covers(p, n));
}

/// A list of K distinct lines, each already trimmed and not blank, with or
/// without a final line break, holds exactly K patterns; loading it into an
/// empty matcher leaves K patterns there.
pub proof fn lemma_load_count(text: Seq<char>, lines: Seq<Seq<char>>)
    requires
        lines.no_duplicates(),
        forall|i: int| 0 <= i < lines.len() ==> lines[i].len() > 0 && #[trigger] trim(lines[i]) == lines[i],
        split_on(text, NEWLINE) == lines || split_on(text, NEWLINE) == lines.push(Seq::empty()),
    ensures
        entry_set(text).len() == lines.len(),
        Set::<Seq<char>>::empty().union(entry_set(text)).len() == lines.len(),
{
    let e = entry_set(text);
    let sp = split_on(text, NEWLINE);
    assert(trim(Seq::<char>::empty()) == Seq::<char>::empty());
    assert forall|p: Seq<char>| e.contains(p) implies lines.to_set().contains(p) by {
        let i = choose|i: int| 0 <= i < sp.len() && #[trigger] trim(sp[i]) == p;
        if i < lines.len() {
            assert(sp[i] == lines[i]);
            assert(lines.contains(p));
        }
    }
    assert forall|p: Seq<char>| lines.to_set().contains(p) implies e.contains(p) by {
        let i = choose|i: int| 0 <= i < lines.len() && lines[i] == p;
        assert(sp[i] == lines[i]);
        assert(trim(sp[i]) == p);
    }
    assert(e =~= lines.to_set());
    lines.unique_seq_to_set();
    assert(Set::<Seq<char>>::empty().union(e) =~= e);
}

/// Loading the same list a second time changes nothing.
pub proof fn lemma_load_idempotent(pats: Set<Seq<char>>, text: Seq<char>)
    ensures
        pats.union(entry_set(text)).union(entry_set(text)) == pats.union(entry_set(text)),
{
    assert(pats.union(entry_set(text)).union(entry_set(text)) =~= pats.union(entry_set(text)));
}

/// The character sequences of a list of character vectors.
pub open spec fn char_views(v: Seq<Vec<char>>) -> Seq<Seq<char>> {
    v.map_values(|x: Vec<char>| x@)
}

/// The pieces of `s` between occurrences of `sep`.
pub fn split_chars(s: &Vec<char>, sep: char) -> (r: Vec<Vec<char>>)
    ensures
        char_views(r@) == split_on(s@, sep),
{
    let mut done: Vec<Vec<char>> = Vec::new();
    let mut cur: Vec<char> = Vec::new();
    let mut i: usize = 0;
    assert(s@.subrange(0, 0) =~= Seq::<char>::empty());
    assert(char_views(done@).push(cur@) =~= seq![Seq::<char>::empty()]);
    while i < s.len()
        invariant
            i <= s@.len(),
            split_on(s@.subrange(0, i as int), sep) == char_views(done@).push(cur@),
        decreases s@.len() - i,
    {
        let c = s[i];
        assert(s@.subrange(0, i + 1).drop_last() =~= s@.subrange(0, i as int));
        let ghost before = char_views(done@).push(cur@);
        if c == sep {
            done.push(cur);
            cur = Vec::new();
            assert(char_views(done@).push(cur@) =~= before.push(Seq::empty()));
        } else {
            cur.push(c);
            assert(char_views(done@).push(cur@) =~= before.update(
                before.len() - 1,
                before.last().push(c),
            ));
        }
        i = i + 1;
    }
    assert(s@.subrange(0, s@.len() as int) =~= s@);
    let ghost before = char_views(done@).push(cur@);
    done.push(cur);
    assert(char_views(done@) =~= before);
    done
}

/// A trie node: whether a pattern ends here, and the next labels below it.
struct Node {
    terminal: bool,
    children: Vec<(Vec<char>, usize)>,
}

/// A set of domain patterns, each of which covers itself and all of its
/// subdomains, held as a trie of labels from the rightmost one down. Node 0 is
/// the root; the ghost `paths` gives the labels leading to each node.
pub struct Domain {
    nodes: Vec<Node>,
    paths: Ghost<Seq<Seq<Seq<char>>>>,
    pats: Ghost<Set<Seq<char>>>,
}

impl Domain {
    /// Some node is reached by the labels `q`.
    pub closed spec fn has_node(&self, q: Seq<Seq<char>>) -> bool {
        exists|i: int| 0 <= i < self.nodes@.len() && self.paths@[i] == q
    }

    /// Some node has node `j` as a child.
    pub closed spec fn has_parent(&self, j: int) -> bool {
        exists|i: int, c: int|
            0 <= i < self.nodes@.len() && 0 <= c < self.nodes@[i].children@.len()
                && self.nodes@[i].children@[c].1 == j
    }

    /// The labels `q` are those of a pattern held.
    pub closed spec fn is_pattern_path(&self, q: Seq<Seq<char>>) -> bool {
        exists|p: Seq<char>| self.pats@.contains(p) && rlabels(p) == q
    }

    /// The trie holds exactly the patterns of the view: each node has one
    /// path, each child extends its parent's path by its label, a node ends a
    /// pattern exactly when its path is that pattern's, and every prefix of a
    /// pattern's path has a node.
    pub closed spec fn wf(&self) -> bool {
        let n = self.nodes@;
        let ps = self.paths@;
        &&& n.len() >= 1
        &&& ps.len() == n.len()
        &&& ps[0] == Seq::<Seq<char>>::empty()
        &&& self.pats@.finite()
        &&& forall|i: int, c: int|
            0 <= i < n.len() && 0 <= c < n[i].children@.len() ==> 0 < (
            #[trigger] n[i].children@[c]).1 < n.len() && ps[n[i].children@[c].1 as int]
                == ps[i].push(n[i].children@[c].0@)
        &&& forall|i: int, j: int|
            0 <= i < n.len() && 0 <= j < n.len() && i != j ==> #[trigger] ps[i] != #[trigger] ps[j]
        &&& forall|j: int| 0 < j < n.len() ==> #[trigger] self.has_parent(j)
        &&& forall|i: int| 0 <= i < n.len() ==> (#[trigger] n[i].terminal <==> self.is_pattern_path(ps[i]))
        &&& forall|p: Seq<char>, k: int|
            self.pats@.contains(p) && 0 <= k <= rlabels(p).len() ==> #[trigger] self.has_node(
                rlabels(p).subrange(0, k),
            )
    }

    pub fn new() -> (r: Domain)
        ensures
            r.wf(),
            r@ == Set::<Seq<char>>::empty(),
    {
        let mut nodes: Vec<Node> = Vec::new();
        nodes.push(Node { terminal: false, children: Vec::new() });
        Domain {
            nodes,
            paths: Ghost(Seq::<Seq<Seq<char>>>::empty().push(Seq::empty())),
            pats: Ghost(Set::empty()),
        }
    }

    /// No child of `node` has label `l`, so no node has its path with `l` added.
    proof fn lemma_no_child(&self, node: int, l: Seq<char>)
        requires
            self.wf(),
            0 <= node < self.nodes@.len(),
            forall|c: int|
                0 <= c < self.nodes@[node].children@.len() ==> (
                #[trigger] self.nodes@[node].children@[c]).0@ != l,
        ensures
            !self.has_node(self.paths@[node].push(l)),
    {
        let q = self.paths@[node].push(l);
        if self.has_node(q) {
            let j = choose|j: int| 0 <= j < self.nodes@.len() && self.paths@[j] == q;
            assert(self.paths@[j].len() > 0);
            assert(j != 0);
            assert(self.has_parent(j));
            let (i, c) = choose|i: int, c: int|
                0 <= i < self.nodes@.len() && 0 <= c < self.nodes@[i].children@.len()
                    && self.nodes@[i].children@[c].1 == j;
            let e = self.nodes@[i].children@[c];
            assert(self.paths@[j] == self.paths@[i].push(e.0@));
            assert(self.paths@[i] =~= self.paths@[j].drop_last());
            assert(self.paths@[node] =~= q.drop_last());
            assert(i == node);
            assert(self.paths@[j].last() == e.0@);
            assert(q.last() == l);
        }
    }

    /// The child of `node` with label `label`, if any.
    fn find_child(&self, node: usize, label: &Vec<char>) -> (r: Option<usize>)
        requires
            self.wf(),
            node < self.nodes@.len(),
        ensures
            match r {
                Some(j) => j < self.nodes@.len() && self.paths@[j as int] == self.paths@[node as int].push(
                    label@,
                ),
                None => !self.has_node(self.paths@[node as int].push(label@)),
            },
    {
        let children = &self.nodes[node].children;
        let mut c: usize = 0;
        while c < children.len()
            invariant
                self.wf(),
                node < self.nodes@.len(),
                children@ == self.nodes@[node as int].children@,
                c <= children@.len(),
                forall|m: int| 0 <= m < c ==> (#[trigger] children@[m]).0@ != label@,
            decreases children@.len() - c,
        {
            if same_chars(&children[c].0, label) {
                assert(self.nodes@[node as int].children@[c as int] == children@[c as int]);
                return Some(children[c].1);
            }
            c = c + 1;
        }
        proof {
            self.lemma_no_child(node as int, label@);
        }
        None
    }

    /// Adds a child of `node` under `label`, where none is.
    fn push_child(&mut self, node: usize, label: Vec<char>) -> (j: usize)
        requires
            old(self).wf(),
            node < old(self).nodes@.len(),
            !old(self).has_node(old(self).paths@[node as int].push(label@)),
        ensures
            final(self).wf(),
            final(self).pats@ == old(self).pats@,
            j < final(self).nodes@.len(),
            final(self).paths@ == old(self).paths@.push(old(self).paths@[node as int].push(label@)),
            j == old(self).nodes@.len(),
    {
        let ghost q = self.paths@[node as int].push(label@);
        let ghost l = label@;
        let ghost old_self = *self;
        let j = self.nodes.len();
        self.nodes.push(Node { terminal: false, children: Vec::new() });
        self.nodes[node].children.push((label, j));
        self.paths = Ghost(self.paths@.push(q));
        let ghost n0 = old_self.nodes@;
        let ghost n = self.nodes@;
        let ghost ps = self.paths@;
        assert forall|i: int| 0 <= i < n.len() && i != node implies n[i].children@ == (if i
            < n0.len() {
            n0[i].children@
        } else {
            Seq::<(Vec<char>, usize)>::empty()
        }) && n[i].terminal == (i < n0.len() && n0[i].terminal) by {}
        assert(n[node as int].children@ == n0[node as int].children@.push((label, j)));
        assert forall|i: int, c: int|
            0 <= i < n.len() && 0 <= c < n[i].children@.len() implies 0 < (
            #[trigger] n[i].children@[c]).1 < n.len() && ps[n[i].children@[c].1 as int]
                == ps[i].push(n[i].children@[c].0@) by {
            if i != node && i < n0.len() {
                assert(n0[i].children@[c] == n[i].children@[c]);
            } else if i == node && c < n0[i].children@.len() {
                assert(n0[i].children@[c] == n[i].children@[c]);
            }
        }
        assert forall|a: int, b: int|
            0 <= a < n.len() && 0 <= b < n.len() && a != b implies #[trigger] ps[a]
            != #[trigger] ps[b] by {
            if a == j as int {
                assert(!old_self.has_node(q));
                assert(old_self.paths@[b] != q);
            } else if b == j as int {
                assert(!old_self.has_node(q));
                assert(old_self.paths@[a] != q);
            }
        }
        assert forall|b: int| 0 < b < n.len() implies #[trigger] self.has_parent(b) by {
            if b == j as int {
                assert(n[node as int].children@[n0[node as int].children@.len() as int].1 == b);
            } else {
                assert(old_self.has_parent(b));
                let (i, c) = choose|i: int, c: int|
                    0 <= i < n0.len() && 0 <= c < n0[i].children@.len() && n0[i].children@[c].1
                        == b;
                assert(n[i].children@[c] == n0[i].children@[c]);
            }
        }
        assert forall|i: int| 0 <= i < n.len() implies (#[trigger] n[i].terminal
            <==> self.is_pattern_path(ps[i])) by {
            if i == j as int {
                if self.is_pattern_path(q) {
                    let p = choose|p: Seq<char>| self.pats@.contains(p) && rlabels(p) == q;
                    assert(rlabels(p).subrange(0, rlabels(p).len() as int) =~= rlabels(p));
                    assert(old_self.has_node(rlabels(p).subrange(0, rlabels(p).len() as int)));
                }
            } else {
                assert(old_self.is_pattern_path(ps[i]) == self.is_pattern_path(ps[i]));
            }
        }
        assert forall|p: Seq<char>, k: int|
            self.pats@.contains(p) && 0 <= k <= rlabels(p).len() implies #[trigger] self.has_node(
            rlabels(p).subrange(0, k),
        ) by {
            assert(old_self.has_node(rlabels(p).subrange(0, k)));
            let i = choose|i: int|
                0 <= i < n0.len() && old_self.paths@[i] == rlabels(p).subrange(0, k);
            assert(ps[i] == rlabels(p).subrange(0, k));
        }
        j
    }

    fn add(&mut self, p: Vec<char>)
        requires
            old(self).wf(),
        ensures
            final(self).wf(),
            final(self)@ == old(self)@.insert(p@),
    {
        let mut labels = split_chars(&p, DOT);
        let ghost rl = rlabels(p@);
        let ghost sp = split_on(p@, DOT);
        let len = labels.len();
        let mut node: usize = 0;
        let mut k: usize = 0;
        assert(rl.subrange(0, 0) =~= Seq::<Seq<char>>::empty());
        while k < len
            invariant
                self.wf(),
                self.pats@ == old(self).pats@,
                sp == split_on(p@, DOT),
                rl == rlabels(p@),
                len == sp.len(),
                rl == sp.reverse(),
                labels@.len() == len - k,
                k <= len,
                char_views(labels@) == sp.subrange(0, len - k),
                node < self.nodes@.len(),
                self.paths@[node as int] == rl.subrange(0, k as int),
                forall|m: int| 0 <= m <= k ==> #[trigger] self.has_node(rl.subrange(0, m)),
            decreases len - k,
        {
            let ghost before_pop = labels@;
            assert(char_views(before_pop)[len - k - 1] == before_pop[len - k - 1]@);
            let label = labels.pop().unwrap();
            assert(label@ == sp[len - k - 1]);
            assert(char_views(labels@) =~= sp.subrange(0, len - k - 1));
            assert(rl[k as int] == sp[len - 1 - k]);
            assert(rl.subrange(0, k + 1) =~= rl.subrange(0, k as int).push(label@));
            match self.find_child(node, &label) {
                Some(j) => {
                    node = j;
                },
                None => {
                    let ghost before = *self;
                    node = self.push_child(node, label);
                    assert forall|m: int| 0 <= m <= k implies #[trigger] self.has_node(
                        rl.subrange(0, m),
                    ) by {
                        assert(before.has_node(rl.subrange(0, m)));
                        let i = choose|i: int|
                            0 <= i < before.nodes@.len() && before.paths@[i] == rl.subrange(0, m);
                        assert(self.paths@[i] == rl.subrange(0, m));
                    }
                },
            }
            assert(self.paths@[node as int] == rl.subrange(0, k + 1));
            assert(self.has_node(rl.subrange(0, k + 1)));
            k = k + 1;
        }
        assert(rl.subrange(0, len as int) =~= rl);
        let ghost before = *self;
        self.nodes[node].terminal = true;
        self.pats = Ghost(self.pats@.insert(p@));
        let ghost n0 = before.nodes@;
        let ghost n = self.nodes@;
        let ghost ps = self.paths@;
        assert forall|i: int| 0 <= i < n.len() implies n[i].children@ == n0[i].children@ && (i
            != node ==> n[i].terminal == n0[i].terminal) by {}
        assert forall|i: int, c: int|
            0 <= i < n.len() && 0 <= c < n[i].children@.len() implies 0 < (
            #[trigger] n[i].children@[c]).1 < n.len() && ps[n[i].children@[c].1 as int]
                == ps[i].push(n[i].children@[c].0@) by {
            assert(n0[i].children@[c] == n[i].children@[c]);
        }
        assert forall|b: int| 0 < b < n.len() implies #[trigger] self.has_parent(b) by {
            assert(before.has_parent(b));
            let (i, c) = choose|i: int, c: int|
                0 <= i < n0.len() && 0 <= c < n0[i].children@.len() && n0[i].children@[c].1 == b;
            assert(n[i].children@[c] == n0[i].children@[c]);
        }
        assert forall|i: int| 0 <= i < n.len() implies (#[trigger] n[i].terminal
            <==> self.is_pattern_path(ps[i])) by {
            if i == node as int {
                assert(rlabels(p@) == ps[i]);
            } else {
                assert(ps[i] != ps[node as int]);
                if self.is_pattern_path(ps[i]) {
                    let x = choose|x: Seq<char>| self.pats@.contains(x) && rlabels(x) == ps[i];
                    assert(x != p@);
                    assert(before.is_pattern_path(ps[i]));
                }
                if before.is_pattern_path(ps[i]) {
                    let x = choose|x: Seq<char>| before.pats@.contains(x) && rlabels(x) == ps[i];
                    assert(self.pats@.contains(x));
                }
            }
        }
        assert forall|x: Seq<char>, m: int|
            self.pats@.contains(x) && 0 <= m <= rlabels(x).len() implies #[trigger] self.has_node(
            rlabels(x).subrange(0, m),
        ) by {
            if x == p@ {
                assert(before.has_node(rl.subrange(0, m)));
            } else {
                assert(before.has_node(rlabels(x).subrange(0, m)));
            }
            let i = choose|i: int|
                0 <= i < n0.len() && before.paths@[i] == rlabels(x).subrange(0, m);
            assert(ps[i] == rlabels(x).subrange(0, m));
        }
    }

    /// Adds one pattern; adding one already held changes nothing.
    pub fn insert(&mut self, pattern: &str)
        requires
            old(self).wf(),
        ensures
            final(self).wf(),
            final(self)@ == old(self)@.insert(pattern@),
    {
        let p = chars_of(pattern);
        self.add(p);
    }

    /// Adds each non-blank line of `text`, trimmed, as a pattern.
    pub fn insert_multi(&mut self, text: &str)
        requires
            old(self).wf(),
        ensures
            final(self).wf(),
            final(self)@ == old(self)@.union(entry_set(text@)),
    {
        let s = chars_of(text);
        let ghost done: Seq<Seq<char>> = Seq::empty();
        let mut cur: Vec<char> = Vec::new();
        let mut i: usize = 0;
        assert(s@.subrange(0, 0) =~= Seq::<char>::empty());
        assert(old(self)@.union(entries_of(done)) =~= old(self)@);
        while i < s.len()
            invariant
                i <= s@.len(),
                s@ == text@,
                self.wf(),
                split_on(s@.subrange(0, i as int), NEWLINE) == done.push(cur@),
                self@ == old(self)@.union(entries_of(done)),
            decreases s@.len() - i,
        {
            let c = s[i];
            let ghost prev = s@.subrange(0, i as int);
            assert(s@.subrange(0, i + 1).drop_last() =~= prev);
            if c == NEWLINE {
                let line = trim_chars(&cur);
                proof {
                    lemma_entries_push(done, cur@);
                }
                if line.len() > 0 {
                    self.add(line);
                }
                proof {
                    done = done.push(cur@);
                }
                assert(self@ =~= old(self)@.union(entries_of(done)));
                cur = Vec::new();
                assert(cur@ =~= Seq::<char>::empty());
            } else {
                let ghost before = done.push(cur@);
                cur.push(c);
                assert(before.update(before.len() - 1, before.last().push(c)) =~= done.push(cur@));
            }
            i = i + 1;
        }
        assert(s@.subrange(0, s@.len() as int) =~= s@);
        let line = trim_chars(&cur);
        proof {
            lemma_entries_push(done, cur@);
        }
        if line.len() > 0 {
            self.add(line);
        }
        assert(self@ =~= old(self)@.union(entries_of(done.push(cur@))));
    }

    /// Whether some pattern held covers `name`. The walk goes down the trie
    /// from the rightmost label of `name` and stops at the first node where a
    /// pattern ends.
    pub fn matches(&self, name: &str) -> (r: bool)
        requires
            self.wf(),
        ensures
            r == matched_by(self@, name@),
    {
        let s = chars_of(name);
        let labels = split_chars(&s, DOT);
        let ghost sp = split_on(name@, DOT);
        let ghost rl = rlabels(name@);
        let len = labels.len();
        let mut node: usize = 0;
        let mut k: usize = 0;
        assert(rl.subrange(0, 0) =~= Seq::<Seq<char>>::empty());
        loop
            invariant
                self.wf(),
                sp == split_on(name@, DOT),
                rl == rlabels(name@),
                char_views(labels@) == sp,
                labels@.len() == len,
                rl == sp.reverse(),
                len == sp.len(),
                k <= len,
                node < self.nodes@.len(),
                self.paths@[node as int] == rl.subrange(0, k as int),
                forall|m: int| 0 <= m < k ==> !self.is_pattern_path(#[trigger] rl.subrange(0, m)),
            decreases len - k,
        {
            if self.nodes[node].terminal {
                proof {
                    let p = choose|p: Seq<char>|
                        self.pats@.contains(p) && rlabels(p) == self.paths@[node as int];
                    assert(covers(p, name@));
                }
                return true;
            }
            if k == len {
                assert forall|p: Seq<char>| self@.contains(p) implies !covers(p, name@) by {
                    if covers(p, name@) {
                        let m = rlabels(p).len() as int;
                        assert(self.is_pattern_path(rl.subrange(0, m)));
                    }
                }
                return false;
            }
            let ghost lab = labels@[len - 1 - k]@;
            assert(char_views(labels@)[len - 1 - k] == lab);
            assert(lab == rl[k as int]);
            assert(rl.subrange(0, k + 1) =~= rl.subrange(0, k as int).push(lab));
            match self.find_child(node, &labels[len - 1 - k]) {
                Some(j) => {
                    node = j;
                },
                None => {
                    assert forall|p: Seq<char>| self@.contains(p) implies !covers(p, name@) by {
                        if covers(p, name@) {
                            let m = rlabels(p).len() as int;
                            if m > k {
                                assert(rlabels(p).subrange(0, k + 1) =~= rl.subrange(0, k + 1));
                                assert(self.has_node(rlabels(p).subrange(0, k + 1)));
                            } else {
                                assert(self.is_pattern_path(rl.subrange(0, m)));
                            }
                        }
                    }
                    return false;
                },
            }
            k = k + 1;
        }
    }
}

impl View for Domain {
    type V = Set<Seq<char>>;

    closed spec fn view(&self) -> Set<Seq<char>> {
        self.pats@
    }
}

/// `s` without leading and trailing blanks.
pub fn trim_chars(s: &Vec<char>) -> (r: Vec<char>)
    ensures
        r@ == trim(s@),
{
    let len = s.len();
    let mut a: usize = 0;
    assert(s@.subrange(0, len as int) =~= s@);
    while a < len && (s[a] == ' ' || s[a] == '\t' || s[a] == '\r')
        invariant
            len == s@.len(),
            a <= len,
            trim_start(s@) == trim_start(s@.subrange(a as int, len as int)),
        decreases len - a,
    {
        assert(s@.subrange(a as int, len as int).drop_first() =~= s@.subrange(
            a + 1,
            len as int,
        ));
        a = a + 1;
    }
    let mut b: usize = len;
    while b > a && (s[b - 1] == ' ' || s[b - 1] == '\t' || s[b - 1] == '\r')
        invariant
            len == s@.len(),
            a <= b <= len,
            trim(s@) == trim_end(s@.subrange(a as int, b as int)),
        decreases b - a,
    {
        assert(s@.subrange(a as int, b as int).drop_last() =~= s@.subrange(
            a as int,
            b - 1,
        ));
        b = b - 1;
    }
    let mut r: Vec<char> = Vec::new();
    let mut k: usize = a;
    while k < b
        invariant
            len == s@.len(),
            a <= k <= b <= len,
            r@ == s@.subrange(a as int, k as int),
        decreases b - k,
    {
        r.push(s[k]);
        assert(r@ =~= s@.subrange(a as int, k + 1));
        k = k + 1;
    }
    r
}

} // verus!
