//! Graphs to try the renderer on.

use crate::graph::{edge_texts, entry_texts, label_texts, Graph};
use crate::label::{decimal, digit, lemma_decimal_injective, print_decimal};
use vstd::string::*;
use crate::meeting::{
    first_occurrences, heads_of, joined, lemma_first_occurrences_append_old,
    lemma_first_occurrences_of_distinct, lemma_first_occurrences_push, lemma_heads_of_single,
    lemma_heads_of_holds, lemma_heads_of_stranger, lemma_joined_holds, lemma_joined_push, listed_for,
    lemma_met_with_tails_of_their_own, lists_of, tails_of, Entry,
};
use crate::table::edge;
use vstd::prelude::*;

verus! {

/// The entries of [`diagv`] as plain text.
pub open spec fn diagv_entries() -> Seq<Entry> {
    seq![
        (seq!['d'], seq![seq!['a']]),
        (seq!['i'], seq![seq!['a'], seq!['g']]),
        (seq!['a'], seq![seq!['v']]),
        (seq!['g'], seq![seq!['v']]),
    ]
}

/// Five nodes, `d`, `i`, `a`, `g` and `v`, with the edges `d → a`, `i → a`,
/// `i → g`, `a → v` and `g → v`.
pub fn diagv() -> (g: Graph<char>)
    ensures
        g.labels() == seq![seq!['d'], seq!['i'], seq!['a'], seq!['g'], seq!['v']],
        g.edges() == seq![set![2int], set![2int, 3int], set![4int], set![4int], Set::<int>::empty()],
{
    let mut heads: Vec<(char, Vec<char>)> = Vec::new();
    heads.push(('d', vec!['a']));
    heads.push(('i', vec!['a', 'g']));
    heads.push(('a', vec!['v']));
    heads.push(('g', vec!['v']));
    let g = Graph::from_heads(heads);
    proof {
        let entries = entry_texts(heads@);
        assert(entries =~= diagv_entries()) by {
            assert(label_texts(heads@[0].1@) =~= seq![seq!['a']]);
            assert(label_texts(heads@[1].1@) =~= seq![seq!['a'], seq!['g']]);
            assert(label_texts(heads@[2].1@) =~= seq![seq!['v']]);
            assert(label_texts(heads@[3].1@) =~= seq![seq!['v']]);
        }
        lemma_diagv(g.labels(), g.edges());
    }
    g
}

/// The graph that is built from the entries of [`diagv`].
proof fn lemma_diagv(names: Seq<Seq<char>>, s: Seq<Set<int>>)
    requires
        names == crate::meeting::met_in_order(diagv_entries()),
        s.len() == names.len(),
        forall|i: int, c: int|
            0 <= i < names.len() ==> (#[trigger] edge(s, i, c) <==> 0 <= c < names.len()
                && listed_for(diagv_entries(), names[i], names[c])),
    ensures
        names == seq![seq!['d'], seq!['i'], seq!['a'], seq!['g'], seq!['v']],
        s == seq![set![2int], set![2int, 3int], set![4int], set![4int], Set::<int>::empty()],
{
    let entries = diagv_entries();
    let tails = tails_of(entries);
    assert forall|i: int, c: int| 0 <= i < names.len() implies (#[trigger] edge(s, i, c) <==> 0
        <= c < names.len() && heads_of(entries, names[i]).contains(names[c])) by {
        lemma_heads_of_holds(entries, names[i], names[c]);
    }
    let d = seq!['d'];
    let i = seq!['i'];
    let a = seq!['a'];
    let g = seq!['g'];
    let v = seq!['v'];
    assert(d[0] != i[0] && d[0] != a[0] && d[0] != g[0] && d[0] != v[0]);
    assert(i[0] != a[0] && i[0] != g[0] && i[0] != v[0]);
    assert(a[0] != g[0] && a[0] != v[0] && g[0] != v[0]);
    assert(tails =~= seq![d, i, a, g]);
    lemma_met_with_tails_of_their_own(entries);
    lemma_first_occurrences_of_distinct(tails);
    let lists = lists_of(entries);
    let l0 = Seq::<Seq<Seq<char>>>::empty().push(seq![a]);
    let l1 = l0.push(seq![a, g]);
    let l2 = l1.push(seq![v]);
    let l3 = l2.push(seq![v]);
    assert(lists =~= l3);
    lemma_joined_push(Seq::empty(), seq![a]);
    lemma_joined_push(l0, seq![a, g]);
    lemma_joined_push(l1, seq![v]);
    lemma_joined_push(l2, seq![v]);
    let old = seq![a, a, g];
    assert(joined(lists) =~= old.push(v).push(v));
    assert(tails + joined(lists) =~= (tails + old).push(v).push(v));
    assert(tails.contains(a)) by {
        assert(tails[2] == a);
    }
    assert(tails.contains(g)) by {
        assert(tails[3] == g);
    }
    lemma_first_occurrences_append_old(tails, old);
    lemma_first_occurrences_push(tails + old, v);
    lemma_first_occurrences_push((tails + old).push(v), v);
    assert(tails.push(v).contains(v)) by {
        assert(tails.push(v)[4] == v);
    }
    assert(names =~= seq![d, i, a, g, v]);
    lemma_heads_of_single(entries, 0);
    lemma_heads_of_single(entries, 1);
    lemma_heads_of_single(entries, 2);
    lemma_heads_of_single(entries, 3);
    assert(!tails.contains(v));
    lemma_heads_of_stranger(entries, v);
    let want = seq![set![2int], set![2int, 3int], set![4int], set![4int], Set::<int>::empty()];
    assert forall|r: int| 0 <= r < 5 implies s[r] =~= want[r] by {
        assert forall|c: int| s[r].contains(c) <==> want[r].contains(c) by {
            assert(s[r].contains(c) <==> edge(s, r, c));
            let listed = heads_of(entries, names[r]);
            if 0 <= c < 5 && listed.contains(names[c]) {
                let k = choose|k: int| 0 <= k < listed.len() && listed[k] == names[c];
                assert(listed[k][0] == names[c][0]);
            }
            if want[r].contains(c) {
                if r == 1 && c == 3 {
                    assert(listed[1] == names[c]);
                } else {
                    assert(listed[0] == names[c]);
                }
            }
        }
    }
    assert(s =~= want);
}

/// Entries over numbered nodes: entry `i` has the tail `i` and lists the heads
/// `rows[i]`, every number in decimal.
pub open spec fn numbered_entries(rows: Seq<Seq<int>>) -> Seq<Entry> {
    Seq::new(
        rows.len(),
        |i: int|
            (
                decimal(i as nat),
                Seq::new(rows[i].len(), |k: int| decimal(rows[i][k] as nat)),
            ),
    )
}

/// The graph that is built from numbered entries whose heads are all among
/// the tails: node `i` is called `i`, and its successors are `rows[i]`.
pub proof fn lemma_numbered(rows: Seq<Seq<int>>, names: Seq<Seq<char>>, s: Seq<Set<int>>)
    requires
        forall|i: int, k: int|
            0 <= i < rows.len() && 0 <= k < rows[i].len() ==> 0 <= #[trigger] rows[i][k]
                < rows.len(),
        names == crate::meeting::met_in_order(numbered_entries(rows)),
        s.len() == names.len(),
        forall|i: int, c: int|
            0 <= i < names.len() ==> (#[trigger] edge(s, i, c) <==> 0 <= c < names.len()
                && listed_for(numbered_entries(rows), names[i], names[c])),
    ensures
        names == Seq::new(rows.len(), |i: int| decimal(i as nat)),
        forall|i: int, c: int|
            0 <= i < rows.len() ==> (#[trigger] s[i].contains(c) <==> rows[i].contains(c)),
{
    let entries = numbered_entries(rows);
    let tails = tails_of(entries);
    let n = rows.len() as int;
    assert forall|i: int, c: int| 0 <= i < names.len() implies (#[trigger] edge(s, i, c) <==> 0
        <= c < names.len() && heads_of(entries, names[i]).contains(names[c])) by {
        lemma_heads_of_holds(entries, names[i], names[c]);
    }
    assert(tails =~= Seq::new(rows.len(), |i: int| decimal(i as nat)));
    assert forall|i: int, j: int| 0 <= i < j < entries.len() implies entries[i].0
        != entries[j].0 by {
        if decimal(i as nat) == decimal(j as nat) {
            lemma_decimal_injective(i as nat, j as nat);
        }
    }
    lemma_met_with_tails_of_their_own(entries);
    lemma_first_occurrences_of_distinct(tails);
    let lists = lists_of(entries);
    let more = joined(lists);
    assert forall|k: int| 0 <= k < more.len() implies tails.contains(#[trigger] more[k]) by {
        lemma_joined_holds(lists, k);
        let (i, q) = choose|i: int, q: int|
            0 <= i < lists.len() && 0 <= q < lists[i].len() && #[trigger] lists[i][q] == more[k];
        assert(tails[rows[i][q]] == more[k]);
    }
    lemma_first_occurrences_append_old(tails, more);
    assert(names == tails);
    assert forall|i: int, c: int| 0 <= i < rows.len() implies (#[trigger] s[i].contains(c)
        <==> rows[i].contains(c)) by {
        lemma_heads_of_single(entries, i);
        let listed = heads_of(entries, names[i]);
        assert(listed == entries[i].1);
        assert(s[i].contains(c) <==> edge(s, i, c));
        if 0 <= c < n && listed.contains(names[c]) {
            let k = choose|k: int| 0 <= k < listed.len() && listed[k] == names[c];
            lemma_decimal_injective(rows[i][k] as nat, c as nat);
            assert(rows[i][k] == c);
        }
        if rows[i].contains(c) {
            let k = choose|k: int| 0 <= k < rows[i].len() && rows[i][k] == c;
            assert(listed[k] == names[c]);
        }
    }
}

/// The successors of each node of [`cyclic`].
pub open spec fn cyclic_rows() -> Seq<Seq<int>> {
    seq![
        seq![1int, 4int],
        Seq::<int>::empty(),
        seq![6int],
        seq![4int],
        seq![8int],
        seq![4int],
        seq![0int],
        Seq::<int>::empty(),
        seq![2int, 7int],
    ]
}

/// Nine nodes, `0` to `8`, with the edges `0 → 1`, `0 → 4`, `2 → 6`,
/// `3 → 4`, `4 → 8`, `5 → 4`, `6 → 0`, `8 → 2` and `8 → 7`.
pub fn cyclic() -> (g: Graph<i32>)
    ensures
        g.labels() == Seq::new(9, |i: int| decimal(i as nat)),
        g.edges().len() == 9,
        forall|i: int, c: int|
            0 <= i < 9 ==> (#[trigger] g.edges()[i].contains(c) <==> cyclic_rows()[i].contains(c)),
{
    let mut heads: Vec<(i32, Vec<i32>)> = Vec::new();
    heads.push((0, vec![1, 4]));
    heads.push((1, vec![]));
    heads.push((2, vec![6]));
    heads.push((3, vec![4]));
    heads.push((4, vec![8]));
    heads.push((5, vec![4]));
    heads.push((6, vec![0]));
    heads.push((7, vec![]));
    heads.push((8, vec![2, 7]));
    let g = Graph::from_heads(heads);
    proof {
        let entries = entry_texts(heads@);
        let want = numbered_entries(cyclic_rows());
        assert forall|i: int| 0 <= i < 9 implies entries[i] == want[i] by {
            assert(entries[i].1 =~= want[i].1);
        }
        assert(entries =~= want);
        lemma_numbered(cyclic_rows(), g.labels(), g.edges());
    }
    g
}

/// The successors of each node of a ring of `n` nodes: the next node, and
/// the first after the last.
pub open spec fn ring_rows(n: nat) -> Seq<Seq<int>> {
    Seq::new(n, |i: int| seq![(i + 1) % (n as int)])
}

/// A ring of `n` nodes, `0` to `n - 1`: each node has one successor, the
/// next node, and the last has the first.
pub fn cycle(n: usize) -> (g: Graph<usize>)
    requires
        0 < n,
    ensures
        g.labels() == Seq::new(n as nat, |i: int| decimal(i as nat)),
        g.edges().len() == n,
        forall|i: int, c: int|
            0 <= i < n ==> (#[trigger] g.edges()[i].contains(c) <==> c == (i + 1) % (n as int)),
{
    let mut edges: Vec<(usize, usize)> = Vec::new();
    for i in 0..n - 1
        invariant
            edges.len() == i,
            forall|k: int| 0 <= k < i ==> #[trigger] edges[k] == (k as usize, (k + 1) as usize),
    {
        edges.push((i, i + 1));
    }
    edges.push((n - 1, 0));
    let g = Graph::from_edges(edges);
    proof {
        let entries = edge_texts(edges@);
        let rows = ring_rows(n as nat);
        let want = numbered_entries(rows);
        assert forall|i: int| 0 <= i < n implies entries[i] == want[i] by {
            let next = (i + 1) % (n as int);
            if i < n - 1 {
                assert(edges[i] == (i as usize, (i + 1) as usize));
                assert(next == i + 1) by (nonlinear_arith)
                    requires
                        0 <= i < n - 1,
                        next == (i + 1) % (n as int),
                ;
            } else {
                assert(edges[i] == ((n - 1) as usize, 0usize));
                assert(next == 0) by (nonlinear_arith)
                    requires
                        i == n - 1,
                        n > 0,
                        next == (i + 1) % (n as int),
                ;
            }
            assert(rows[i][0] == next);
            assert(entries[i].1 =~= want[i].1);
        }
        assert(entries =~= want);
        lemma_numbered(rows, g.labels(), g.edges());
        assert forall|i: int, c: int| 0 <= i < n implies (#[trigger] g.edges()[i].contains(c)
            <==> c == (i + 1) % (n as int)) by {
            assert(rows[i].contains(c) <==> c == (i + 1) % (n as int)) by {
                if c == (i + 1) % (n as int) {
                    assert(rows[i][0] == c);
                }
            }
        }
    }
    g
}

/// The name of the origin of [`sonic`].
pub open spec fn origin() -> Seq<char> {
    seq!['x', '1']
}

/// The name of node `j` of petal `i`: the two digits.
pub open spec fn petal_name(i: int, j: int) -> Seq<char> {
    seq![digit(i as nat), digit(j as nat)]
}

/// Edge `k` of petal `i`: from the origin to the first node of the petal,
/// from each node of the petal to the next, and from the last back to the
/// origin.
pub open spec fn petal_edge(i: int, k: int) -> Entry {
    (
        if k == 0 {
            origin()
        } else {
            petal_name(i, k + 1)
        },
        seq![
            if k == i - 1 {
                origin()
            } else {
                petal_name(i, k + 2)
            },
        ],
    )
}

/// The `i` edges of petal `i`, which has the nodes `i2` to `ii`.
pub open spec fn petal(i: int) -> Seq<Entry> {
    Seq::new(i as nat, |k: int| petal_edge(i, k))
}

/// The edges of the petals `2` to `n`, petal by petal.
pub open spec fn petals(n: int) -> Seq<Entry>
    decreases n,
{
    if n < 2 {
        Seq::empty()
    } else {
        petals(n - 1) + petal(n)
    }
}

/// The names of the nodes of petal `i`: `i2` to `ii`.
pub open spec fn petal_names(i: int) -> Seq<Seq<char>> {
    Seq::new((i - 1) as nat, |k: int| petal_name(i, k + 2))
}

/// The names of the nodes of the petals `2` to `n`, petal by petal.
pub open spec fn petals_names(n: int) -> Seq<Seq<char>>
    decreases n,
{
    if n < 2 {
        Seq::empty()
    } else {
        petals_names(n - 1) + petal_names(n)
    }
}

/// The names of the nodes of [`sonic`]: the origin, then the nodes of the
/// petals, petal by petal. Without a petal there is no origin either.
pub open spec fn sonic_names(n: int) -> Seq<Seq<char>> {
    if n < 2 {
        Seq::empty()
    } else {
        seq![origin()] + petals_names(n)
    }
}

/// Every name of the petals up to `n` is the name of a node of one of them.
proof fn lemma_petals_names_shape(n: int, x: int)
    requires
        0 <= x < petals_names(n).len(),
    ensures
        exists|i: int, j: int|
            2 <= i <= n && 2 <= j <= i && petals_names(n)[x] == #[trigger] petal_name(i, j),
    decreases n,
{
    if n >= 2 {
        let before = petals_names(n - 1);
        if x < before.len() {
            lemma_petals_names_shape(n - 1, x);
            let (i, j) = choose|i: int, j: int|
                2 <= i <= n - 1 && 2 <= j <= i && before[x] == #[trigger] petal_name(i, j);
            assert(petals_names(n)[x] == petal_name(i, j));
        } else {
            let k = x - before.len();
            assert(petals_names(n)[x] == petal_name(n, k + 2));
        }
    }
}

/// The name of every node of every petal up to `n` is among the names.
proof fn lemma_petals_names_hold(n: int, i: int, j: int)
    requires
        2 <= i <= n,
        2 <= j <= i,
    ensures
        petals_names(n).contains(petal_name(i, j)),
    decreases n,
{
    let before = petals_names(n - 1);
    if i < n {
        lemma_petals_names_hold(n - 1, i, j);
        let x = choose|x: int| 0 <= x < before.len() && before[x] == petal_name(i, j);
        assert(petals_names(n)[x] == petal_name(i, j));
    } else {
        assert(petals_names(n)[before.len() + (j - 2)] == petal_name(i, j));
    }
}

/// Every edge of the petals up to `n` is an edge of one of them.
proof fn lemma_petals_shape(n: int, x: int)
    requires
        0 <= x < petals(n).len(),
    ensures
        exists|i: int, k: int| 2 <= i <= n && 0 <= k < i && petals(n)[x] == #[trigger] petal_edge(i, k),
    decreases n,
{
    if n >= 2 {
        let before = petals(n - 1);
        if x < before.len() {
            lemma_petals_shape(n - 1, x);
            let (i, k) = choose|i: int, k: int|
                2 <= i <= n - 1 && 0 <= k < i && before[x] == #[trigger] petal_edge(i, k);
            assert(petals(n)[x] == petal_edge(i, k));
        } else {
            let k = x - before.len();
            assert(petals(n)[x] == petal_edge(n, k));
        }
    }
}

/// The tails of the petals up to `n`: for each petal the origin, then the
/// nodes of the petal.
proof fn lemma_petals_tails(n: int)
    requires
        2 <= n,
    ensures
        tails_of(petals(n)) == tails_of(petals(n - 1)) + seq![origin()] + petal_names(n),
{
    assert(tails_of(petals(n)) =~= tails_of(petals(n - 1)) + seq![origin()] + petal_names(n));
}

/// The tails of the petals, each where it first occurs, are the names of
/// the nodes.
proof fn lemma_sonic_tails(n: int)
    requires
        1 <= n <= 9,
    ensures
        first_occurrences(tails_of(petals(n))) == sonic_names(n),
    decreases n,
{
    if n < 2 {
        assert(tails_of(petals(n)) =~= Seq::<Seq<char>>::empty());
    } else {
        lemma_sonic_tails(n - 1);
        lemma_petals_tails(n);
        let before = tails_of(petals(n - 1));
        let with_origin = before + seq![origin()];
        let fresh = petal_names(n);
        crate::meeting::lemma_first_occurrences(before);
        crate::meeting::lemma_first_occurrences(with_origin);
        // the origin is new for the first petal only
        if n == 2 {
            assert(before =~= Seq::<Seq<char>>::empty());
            assert(with_origin =~= Seq::<Seq<char>>::empty().push(origin()));
            lemma_first_occurrences_push(Seq::empty(), origin());
            assert(first_occurrences(with_origin) =~= seq![origin()]);
        } else {
            assert(sonic_names(n - 1)[0] == origin());
            assert(first_occurrences(before).contains(origin()));
            lemma_first_occurrences_append_old(before, seq![origin()]);
        }
        assert(first_occurrences(with_origin) =~= seq![origin()] + petals_names(n - 1));
        // the nodes of the petal are all new
        assert forall|a: int, b: int| 0 <= a < b < fresh.len() implies fresh[a] != fresh[b] by {
            assert(fresh[a][1] != fresh[b][1]);
        }
        assert forall|k: int| 0 <= k < fresh.len() implies !with_origin.contains(
            #[trigger] fresh[k],
        ) by {
            if with_origin.contains(fresh[k]) {
                assert(first_occurrences(with_origin).contains(fresh[k]));
                let met = seq![origin()] + petals_names(n - 1);
                let x = choose|x: int| 0 <= x < met.len() && met[x] == fresh[k];
                if x == 0 {
                    assert(origin()[0] != fresh[k][0]);
                } else {
                    lemma_petals_names_shape(n - 1, x - 1);
                    let (i, j) = choose|i: int, j: int|
                        2 <= i <= n - 1 && 2 <= j <= i && petals_names(n - 1)[x - 1]
                            == #[trigger] petal_name(i, j);
                    assert(petal_name(i, j)[0] != fresh[k][0]);
                }
            }
        }
        crate::meeting::lemma_first_occurrences_append_new(with_origin, fresh);
        assert(sonic_names(n) =~= seq![origin()] + petals_names(n - 1) + fresh);
    }
}

/// The nodes that the graph of the petals meets are the origin and the
/// nodes of the petals, petal by petal.
pub proof fn lemma_sonic_names(n: int)
    requires
        1 <= n <= 9,
    ensures
        crate::meeting::met_in_order(petals(n)) == sonic_names(n),
{
    let entries = petals(n);
    let tails = tails_of(entries);
    lemma_sonic_tails(n);
    crate::meeting::lemma_first_occurrences(tails);
    assert forall|x: int, q: int|
        0 <= x < entries.len() && 0 <= q < entries[x].1.len() implies tails.contains(
        #[trigger] entries[x].1[q],
    ) by {
        lemma_petals_shape(n, x);
        let (i, k) = choose|i: int, k: int|
            2 <= i <= n && 0 <= k < i && entries[x] == #[trigger] petal_edge(i, k);
        let head = entries[x].1[q];
        assert(head == petal_edge(i, k).1[0]);
        assert(sonic_names(n)[0] == origin());
        if k == i - 1 {
            assert(sonic_names(n).contains(origin()));
        } else {
            lemma_petals_names_hold(n, i, k + 2);
            let y = choose|y: int|
                0 <= y < petals_names(n).len() && petals_names(n)[y] == petal_name(i, k + 2);
            assert(sonic_names(n)[y + 1] == head);
        }
        assert(first_occurrences(tails).contains(head));
    }
    crate::meeting::lemma_met_when_heads_are_tails(entries);
}

/// The label of node `j` of petal `i`.
fn petal_label(i: usize, j: usize) -> (s: String)
    requires
        i < 10,
        j < 10,
    ensures
        s@ == petal_name(i as int, j as int),
{
    let mut s = print_decimal(i as u64);
    let t = print_decimal(j as u64);
    s.append(t.as_str());
    assert(s@ =~= petal_name(i as int, j as int));
    s
}

/// The label of the origin.
fn origin_label() -> (s: String)
    ensures
        s@ == origin(),
{
    proof {
        reveal_strlit("x1");
    }
    let s = String::from_str("x1");
    assert(s@ =~= origin());
    s
}

/// Petals about the origin `x1`: petal `i`, for `i` from 2 to `n`, leads
/// from the origin through the nodes `i2`, `i3`, up to `ii`, and back to
/// the origin. The graph is built from the edges of the petals in turn.
pub fn sonic(n: usize) -> (g: Graph<String>)
    requires
        1 <= n <= 9,
    ensures
        g.labels() == sonic_names(n as int),
        g.edges().len() == g.labels().len(),
        forall|i: int, c: int|
            0 <= i < g.labels().len() ==> (#[trigger] edge(g.edges(), i, c) <==> 0 <= c
                < g.labels().len() && listed_for(petals(n as int), g.labels()[i], g.labels()[c])),
{
    let mut edges: Vec<(String, String)> = Vec::new();
    assert(edge_texts(edges@) =~= petals(1));
    for i in 2..n + 1
        invariant
            n <= 9,
            edge_texts(edges@) == petals(i as int - 1),
    {
        let ghost done = petals(i as int - 1);
        let ghost now = petal(i as int);
        let ghost before = edge_texts(edges@);
        edges.push((origin_label(), petal_label(i, 2)));
        proof {
            let added = edge_texts(edges@)[edges.len() - 1];
            assert(added.1 =~= now[0].1);
            assert(added == now[0]);
            assert(edge_texts(edges@) =~= before.push(added));
            assert(done + now.take(1) =~= done.push(now[0]));
        }
        for j in 2..i
            invariant
                2 <= i <= 9,
                done == petals(i as int - 1),
                now == petal(i as int),
                edge_texts(edges@) == done + now.take(j as int - 1),
        {
            let ghost before = edge_texts(edges@);
            edges.push((petal_label(i, j), petal_label(i, j + 1)));
            proof {
                let added = edge_texts(edges@)[edges.len() - 1];
                assert(added.1 =~= now[j as int - 1].1);
                assert(added == now[j as int - 1]);
                assert(edge_texts(edges@) =~= before.push(added));
                assert(done + now.take(j as int) =~= (done + now.take(j as int - 1)).push(
                    now[j as int - 1],
                ));
            }
        }
        let ghost before = edge_texts(edges@);
        edges.push((petal_label(i, i), origin_label()));
        proof {
            let added = edge_texts(edges@)[edges.len() - 1];
            assert(added.1 =~= now[i as int - 1].1);
            assert(added == now[i as int - 1]);
            assert(edge_texts(edges@) =~= before.push(added));
            assert(done + now =~= (done + now.take(i as int - 1)).push(now[i as int - 1]));
        }
    }
    proof {
        lemma_sonic_names(n as int);
    }
    Graph::from_edges(edges)
}

} // verus!
