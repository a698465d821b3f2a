//! Orders in which to draw the nodes of a graph.

use crate::graph::{arrangement, borrowed_texts, number_of, predecessors, Graph};
use crate::label::Label;
use crate::normalize::permutation;
use vstd::prelude::*;
use vstd::string::*;
use vstd::utf8::encode_utf8;

verus! {

/// A way to order the nodes of a graph.
#[derive(Clone, Copy, Debug, PartialEq, Eq)]
pub enum Order {
    /// As the graph numbers them.
    Original,
    /// By their labels, as texts.
    Alphabetical,
    /// By the number of their direct predecessors, fewest first.
    Degree,
}

/// Whether the text `a` comes before the text `b`, byte by byte; a text
/// comes after every text that begins it.
pub open spec fn text_before(a: Seq<u8>, b: Seq<u8>) -> bool
    decreases a.len(),
{
    if b.len() == 0 {
        false
    } else if a.len() == 0 {
        true
    } else if a.first() != b.first() {
        a.first() < b.first()
    } else {
        text_before(a.drop_first(), b.drop_first())
    }
}

/// Whether node `a` is drawn before node `b`: by the key of the order, and
/// by their numbers where the keys are equal.
pub open spec fn precedes(
    order: Order,
    labels: Seq<Seq<char>>,
    s: Seq<Set<int>>,
    a: int,
    b: int,
) -> bool {
    match order {
        Order::Original => a < b,
        Order::Alphabetical => {
            let x = encode_utf8(labels[a]);
            let y = encode_utf8(labels[b]);
            text_before(x, y) || (!text_before(y, x) && a < b)
        },
        Order::Degree => {
            let x = predecessors(s, a).len();
            let y = predecessors(s, b).len();
            x < y || (x == y && a < b)
        },
    }
}

/// Of two texts, one comes before the other, or they are the same text.
pub proof fn lemma_text_before_total(a: Seq<u8>, b: Seq<u8>)
    ensures
        text_before(a, b) || text_before(b, a) || a == b,
        !(text_before(a, b) && text_before(b, a)),
    decreases a.len(),
{
    if a.len() == 0 || b.len() == 0 {
        if a.len() == 0 && b.len() == 0 {
            assert(a =~= b);
        }
    } else if a.first() == b.first() {
        lemma_text_before_total(a.drop_first(), b.drop_first());
        if a.drop_first() == b.drop_first() {
            assert(a =~= seq![a.first()] + a.drop_first());
            assert(b =~= seq![b.first()] + b.drop_first());
        }
    }
}

/// What comes before a text comes before all that the text comes before.
pub proof fn lemma_text_before_transitive(a: Seq<u8>, b: Seq<u8>, c: Seq<u8>)
    requires
        text_before(a, b),
        text_before(b, c),
    ensures
        text_before(a, c),
    decreases a.len(),
{
    if a.len() > 0 && a.first() == b.first() && b.first() == c.first() {
        lemma_text_before_transitive(a.drop_first(), b.drop_first(), c.drop_first());
    }
}

/// Whether the text `a` comes before the text `b`.
pub fn comes_before(a: &Vec<u8>, b: &Vec<u8>) -> (r: bool)
    ensures
        r == text_before(a@, b@),
{
    let mut i: usize = 0;
    assert(a@.skip(0) =~= a@ && b@.skip(0) =~= b@);
    while i < a.len() && i < b.len()
        invariant
            i <= a.len(),
            i <= b.len(),
            text_before(a@, b@) == text_before(a@.skip(i as int), b@.skip(i as int)),
        decreases a.len() - i,
    {
        let ghost x = a@.skip(i as int);
        let ghost y = b@.skip(i as int);
        assert(x.first() == a[i as int] && y.first() == b[i as int]);
        assert(x.drop_first() =~= a@.skip(i as int + 1));
        assert(y.drop_first() =~= b@.skip(i as int + 1));
        if a[i] != b[i] {
            return a[i] < b[i];
        }
        i += 1;
    }
    i < b.len()
}

/// The keys by which the nodes are ordered.
pub enum Keys {
    /// No key: the nodes stay as they are numbered.
    Numbers,
    /// The label of each node, in bytes.
    Texts(Vec<Vec<u8>>),
    /// The number of direct predecessors of each node.
    Degrees(Vec<usize>),
}

impl Keys {
    /// Whether there is a key for each of `n` nodes.
    pub open spec fn fits(self, n: nat) -> bool {
        match self {
            Keys::Numbers => true,
            Keys::Texts(texts) => texts.len() == n,
            Keys::Degrees(degrees) => degrees.len() == n,
        }
    }

    /// Whether node `a` goes before node `b`: by the keys, and by the
    /// numbers where the keys are equal.
    pub open spec fn before(self, a: int, b: int) -> bool {
        match self {
            Keys::Numbers => a < b,
            Keys::Texts(texts) => text_before(texts[a]@, texts[b]@) || (!text_before(
                texts[b]@,
                texts[a]@,
            ) && a < b),
            Keys::Degrees(degrees) => degrees[a] < degrees[b] || (degrees[a] == degrees[b] && a
                < b),
        }
    }

    /// Of two different nodes, one goes before the other.
    pub proof fn lemma_total(self, a: int, b: int)
        requires
            a != b,
        ensures
            self.before(a, b) || self.before(b, a),
    {
    }

    /// What goes before a node goes before all that the node goes before.
    pub proof fn lemma_transitive(self, a: int, b: int, c: int)
        requires
            self.before(a, b),
            self.before(b, c),
        ensures
            self.before(a, c),
    {
        match self {
            Keys::Texts(texts) => {
                let x = texts[a]@;
                let y = texts[b]@;
                let z = texts[c]@;
                lemma_text_before_total(x, y);
                lemma_text_before_total(y, z);
                lemma_text_before_total(x, z);
                if text_before(x, y) && text_before(y, z) {
                    lemma_text_before_transitive(x, y, z);
                }
                if text_before(z, x) && text_before(x, y) {
                    lemma_text_before_transitive(z, x, y);
                }
                if text_before(y, z) && text_before(z, x) {
                    lemma_text_before_transitive(y, z, x);
                }
            },
            _ => {},
        }
    }

    /// Whether node `a` goes before node `b`.
    pub fn goes_before(&self, a: usize, b: usize) -> (r: bool)
        requires
            match *self {
                Keys::Numbers => true,
                Keys::Texts(texts) => a < texts.len() && b < texts.len(),
                Keys::Degrees(degrees) => a < degrees.len() && b < degrees.len(),
            },
        ensures
            r == self.before(a as int, b as int),
    {
        match self {
            Keys::Numbers => a < b,
            Keys::Texts(texts) => comes_before(&texts[a], &texts[b]) || (!comes_before(
                &texts[b],
                &texts[a],
            ) && a < b),
            Keys::Degrees(degrees) => degrees[a] < degrees[b] || (degrees[a] == degrees[b] && a
                < b),
        }
    }
}

/// The numbers `0` to `n - 1` in the order of their keys; numbers with equal
/// keys stay in ascending order.
pub fn sorted_numbers(keys: &Keys, n: usize) -> (r: Vec<usize>)
    requires
        keys.fits(n as nat),
    ensures
        r.len() == n,
        permutation(r@),
        forall|i: int, j: int| 0 <= i < j < n ==> keys.before(r[i] as int, r[j] as int),
{
    let mut r: Vec<usize> = Vec::new();
    for v in 0..n
        invariant
            keys.fits(n as nat),
            r.len() == v,
            forall|i: int| 0 <= i < v ==> #[trigger] r[i] < v,
            forall|i: int, j: int| 0 <= i < j < v ==> r[i] != r[j],
            forall|i: int, j: int| 0 <= i < j < v ==> keys.before(r[i] as int, r[j] as int),
    {
        let mut p: usize = 0;
        while p < r.len() && !keys.goes_before(v, r[p])
            invariant
                keys.fits(n as nat),
                v < n,
                r.len() == v,
                p <= r.len(),
                forall|i: int| 0 <= i < v ==> #[trigger] r[i] < v,
                forall|i: int| 0 <= i < p ==> keys.before(#[trigger] r[i] as int, v as int),
            decreases r.len() - p,
        {
            proof {
                keys.lemma_total(v as int, r[p as int] as int);
            }
            p += 1;
        }
        let ghost before = r@;
        proof {
            assert forall|i: int| p <= i < v implies keys.before(
                v as int,
                #[trigger] before[i] as int,
            ) by {
                if i > p {
                    keys.lemma_transitive(v as int, before[p as int] as int, before[i] as int);
                }
            }
        }
        r.insert(p, v);
        proof {
            assert forall|i: int| 0 <= i < v + 1 implies #[trigger] r[i] < v + 1 by {
                if i < p {
                    assert(r[i] == before[i]);
                } else if i > p {
                    assert(r[i] == before[i - 1]);
                }
            }
            assert forall|i: int, j: int| 0 <= i < j < v + 1 implies r[i] != r[j] && keys.before(
                r[i] as int,
                r[j] as int,
            ) by {
                let x = if i < p {
                    before[i]
                } else if i == p {
                    v
                } else {
                    before[i - 1]
                };
                let y = if j < p {
                    before[j]
                } else if j == p {
                    v
                } else {
                    before[j - 1]
                };
                assert(r[i] == x && r[j] == y);
                if i != p && j != p {
                    let oi = if i < p { i } else { i - 1 };
                    let oj = if j < p { j } else { j - 1 };
                    assert(before[oi] < v && before[oj] < v);
                    assert(0 <= oi < oj < v);
                } else if i == p {
                    assert(before[j - 1] < v);
                } else {
                    assert(before[i] < v);
                }
            }
        }
    }
    r
}

impl<T: Label> Graph<T> {
    /// The nodes of the graph in the given order: every node once, each
    /// before the nodes that it precedes.
    pub fn nodes_in(&self, order: Order) -> (r: Vec<&T>)
        ensures
            arrangement(self.labels(), borrowed_texts(r@)),
            forall|i: int, j: int|
                0 <= i < j < r.len() ==> precedes(
                    order,
                    self.labels(),
                    self.edges(),
                    number_of(self.labels(), borrowed_texts(r@)[i]) as int,
                    number_of(self.labels(), borrowed_texts(r@)[j]) as int,
                ),
            order == Order::Original ==> borrowed_texts(r@) == self.labels(),
    {
        let nodes = self.nodes();
        let n = nodes.len();
        let ghost labels = self.labels();
        let ghost s = self.edges();
        let keys = match order {
            Order::Original => Keys::Numbers,
            Order::Alphabetical => {
                let mut texts: Vec<Vec<u8>> = Vec::new();
                for i in 0..n
                    invariant
                        n == nodes.len(),
                        labels == borrowed_texts(nodes@),
                        texts.len() == i,
                        forall|k: int| 0 <= k < i ==> (#[trigger] texts[k])@ == encode_utf8(labels[k]),
                {
                    let name = nodes[i].print();
                    assert(name@ == labels[i as int]);
                    texts.push(name.as_str().as_bytes_vec());
                }
                Keys::Texts(texts)
            },
            Order::Degree => {
                let tails = self.tails();
                let mut degrees: Vec<usize> = Vec::new();
                assert forall|k: int| 0 <= k < n implies (#[trigger] tails[k]).1@.len()
                    == predecessors(s, k).len() by {
                    assert(borrowed_texts(tails[k].1@).len() == predecessors(s, k).len());
                }
                for i in 0..n
                    invariant
                        n == nodes.len(),
                        n == tails.len(),
                        s == self.edges(),
                        forall|k: int|
                            0 <= k < n ==> (#[trigger] tails[k]).1@.len() == predecessors(s, k).len(),
                        degrees.len() == i,
                        forall|k: int|
                            0 <= k < i ==> #[trigger] degrees[k] == predecessors(s, k).len(),
                {
                    degrees.push(tails[i].1.len());
                }
                Keys::Degrees(degrees)
            },
        };
        assert forall|a: int, b: int| 0 <= a < n && 0 <= b < n implies keys.before(a, b)
            == precedes(order, labels, s, a, b) by {}
        let numbers = sorted_numbers(&keys, n);
        let mut r: Vec<&T> = Vec::new();
        for i in 0..n
            invariant
                n == nodes.len(),
                n == numbers.len(),
                permutation(numbers@),
                labels == borrowed_texts(nodes@),
                r.len() == i,
                forall|k: int| 0 <= k < i ==> borrowed_texts(r@)[k] == labels[numbers[k] as int],
        {
            let ghost before = borrowed_texts(r@);
            r.push(nodes[numbers[i]]);
            assert forall|k: int| 0 <= k < i + 1 implies borrowed_texts(r@)[k]
                == labels[numbers[k] as int] by {
                if k < i {
                    assert(borrowed_texts(r@)[k] == before[k]);
                }
            }
        }
        proof {
            let wanted = borrowed_texts(r@);
            assert forall|k: int| 0 <= k < n implies number_of(labels, #[trigger] wanted[k])
                == numbers[k] by {
                let v = numbers[k];
                assert(v < labels.len() && labels[v as int] == wanted[k]);
            }
            assert forall|k: int| 0 <= k < n implies labels.contains(#[trigger] wanted[k]) by {
                assert(labels[numbers[k] as int] == wanted[k]);
            }
            assert forall|i: int, j: int| 0 <= i < j < n implies precedes(
                order,
                labels,
                s,
                number_of(labels, wanted[i]) as int,
                number_of(labels, wanted[j]) as int,
            ) by {
                let a = numbers[i] as int;
                let b = numbers[j] as int;
                assert(number_of(labels, wanted[i]) == numbers[i]);
                assert(number_of(labels, wanted[j]) == numbers[j]);
                assert(keys.before(a, b));
                assert(keys.before(a, b) == precedes(order, labels, s, a, b));
            }
            if order == Order::Original {
                assert forall|i: int, j: int| 0 <= i < j < n implies numbers[i] < numbers[j] by {
                    assert(keys.before(numbers[i] as int, numbers[j] as int));
                }
                assert forall|k: int| 0 <= k < n implies numbers[k] == k by {
                    lemma_ascending_permutation(numbers@, k);
                }
                assert(wanted =~= labels);
            }
        }
        r
    }

    /// Renders the graph with its nodes in the given order.
    pub fn ascii_in(&self, order: Order) -> (r: Result<String, crate::rendering::RenderError>)
        ensures
            exists|names: Seq<Seq<char>>|
                {
                    &&& arrangement(self.labels(), names)
                    &&& forall|i: int, j: int|
                        0 <= i < j < names.len() ==> precedes(
                            order,
                            self.labels(),
                            self.edges(),
                            number_of(self.labels(), names[i]) as int,
                            number_of(self.labels(), names[j]) as int,
                        )
                    &&& crate::rendering::renders(
                        r,
                        crate::rendering::outcome(
                            crate::normalize::renumbered(
                                self.edges(),
                                crate::graph::numbers_of(self.labels(), names),
                            ),
                            names,
                        ),
                    )
                },
    {
        let nodes = self.nodes_in(order);
        self.ascii_with_order(&nodes)
    }
}

/// A permutation in ascending order names each number at its own place.
proof fn lemma_ascending_permutation(numbers: Seq<usize>, k: int)
    requires
        permutation(numbers),
        forall|i: int, j: int| 0 <= i < j < numbers.len() ==> numbers[i] < numbers[j],
        0 <= k < numbers.len(),
    ensures
        numbers[k] == k,
{
    lemma_at_least_place(numbers, k);
    lemma_at_most_place(numbers, k);
}

/// In an ascending list of numbers, each is at least its place.
proof fn lemma_at_least_place(numbers: Seq<usize>, k: int)
    requires
        forall|i: int, j: int| 0 <= i < j < numbers.len() ==> numbers[i] < numbers[j],
        0 <= k < numbers.len(),
    ensures
        numbers[k] >= k,
    decreases k,
{
    if k > 0 {
        lemma_at_least_place(numbers, k - 1);
    }
}

/// In an ascending list of numbers below its length, each is at most its
/// place.
proof fn lemma_at_most_place(numbers: Seq<usize>, k: int)
    requires
        forall|i: int, j: int| 0 <= i < j < numbers.len() ==> numbers[i] < numbers[j],
        forall|i: int| 0 <= i < numbers.len() ==> #[trigger] numbers[i] < numbers.len(),
        0 <= k < numbers.len(),
    ensures
        numbers[k] <= k,
    decreases numbers.len() - k,
{
    if k < numbers.len() - 1 {
        lemma_at_most_place(numbers, k + 1);
    }
}

} // verus!
