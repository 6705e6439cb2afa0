//! Order updates of two exchanges merged by the text of their prices, and
//! the summary of one exchange's book.
use vstd::prelude::*;
use crate::decimal::{chars_of, ONE};
use crate::error::OrderbookResult;
use crate::grpc::{levels_view, Summary};
use crate::merger::{convert_side, converted_orders};
pub use crate::exchange::exchange_client::{orders_view, OrderUpdate, OrderbookUpdate};

verus! {

/// `a` comes before `b` in lexicographic order of their characters, which is
/// the order of `String`.
pub open spec fn lex_less(a: Seq<char>, b: Seq<char>) -> bool
    decreases a.len(),
{
    if b.len() == 0 {
        false
    } else if a.len() == 0 {
        true
    } else if a[0] != b[0] {
        (a[0] as u32) < (b[0] as u32)
    } else {
        lex_less(a.drop_first(), b.drop_first())
    }
}

proof fn lemma_lex_less_skip(a: Seq<char>, b: Seq<char>, i: int)
    requires
        0 <= i <= a.len(),
        i <= b.len(),
        forall|j: int| 0 <= j < i ==> a[j] == b[j],
    ensures
        lex_less(a, b) == lex_less(a.skip(i), b.skip(i)),
    decreases i,
{
    if i > 0 {
        assert(a.len() > 0 && b.len() > 0 && a[0] == b[0]);
        lemma_lex_less_skip(a.drop_first(), b.drop_first(), i - 1);
        assert(a.drop_first().skip(i - 1) =~= a.skip(i));
        assert(b.drop_first().skip(i - 1) =~= b.skip(i));
    } else {
        assert(a.skip(0) =~= a);
        assert(b.skip(0) =~= b);
    }
}

/// Whether `a` comes before `b` in the order of strings.
pub fn str_less(a: &String, b: &String) -> (r: bool)
    ensures
        r == lex_less(a@, b@),
{
    let x = chars_of(a.as_str());
    let y = chars_of(b.as_str());
    let mut i: usize = 0;
    while i < x.len() && i < y.len()
        invariant
            x@ == a@,
            y@ == b@,
            i <= x@.len(),
            i <= y@.len(),
            forall|j: int| 0 <= j < i ==> x@[j] == y@[j],
        decreases x@.len() - i,
    {
        if x[i] != y[i] {
            proof {
                lemma_lex_less_skip(a@, b@, i as int);
                assert(a@.skip(i as int)[0] == x@[i as int]);
                assert(b@.skip(i as int)[0] == y@[i as int]);
            }
            return (x[i] as u32) < (y[i] as u32);
        }
        i = i + 1;
    }
    proof {
        lemma_lex_less_skip(a@, b@, i as int);
    }
    i < y.len()
}

/// Whether the price text of the order `ai` of `a` comes, for asks, before
/// that of the order `bi` of `b`, or, for bids, not before it.
pub open spec fn takes_first(a: Seq<Seq<Seq<char>>>, b: Seq<Seq<Seq<char>>>, is_ask: bool, ai: int, bi: int) -> bool {
    lex_less(a[ai][0], b[bi][0]) == is_ask
}

/// Orders `ai` of `a` and `bi` of `b` exist and both have a price.
pub open spec fn heads_present(a: Seq<Seq<Seq<char>>>, b: Seq<Seq<Seq<char>>>, ai: int, bi: int) -> bool {
    &&& 0 <= ai < a.len()
    &&& 0 <= bi < b.len()
    &&& a[ai].len() > 0
    &&& b[bi].len() > 0
}

/// After `n` steps of the merge: the next index into `a`, into `b`, and the
/// orders taken so far.
pub open spec fn pick_state(a: Seq<Seq<Seq<char>>>, b: Seq<Seq<Seq<char>>>, is_ask: bool, n: nat) -> (int, int, Seq<Seq<Seq<char>>>)
    decreases n,
{
    if n == 0 {
        (0, 0, Seq::empty())
    } else {
        let st = pick_state(a, b, is_ask, (n - 1) as nat);
        if takes_first(a, b, is_ask, st.0, st.1) {
            (st.0 + 1, st.1, st.2.push(a[st.0]))
        } else {
            (st.0, st.1 + 1, st.2.push(b[st.1]))
        }
    }
}

/// Each of the first `n` steps of the merge finds both heads present.
pub open spec fn picks_defined(a: Seq<Seq<Seq<char>>>, b: Seq<Seq<Seq<char>>>, is_ask: bool, n: nat) -> bool {
    forall|k: nat| k < n ==> heads_present(a, b, #[trigger] pick_state(a, b, is_ask, k).0, pick_state(a, b, is_ask, k).1)
}

/// Ten orders taken from the heads of `orders_a` and `orders_b`, comparing
/// their price texts as strings.
pub fn merge_orders(is_ask: bool, orders_a: Vec<OrderUpdate>, orders_b: Vec<OrderUpdate>) -> (r: Vec<OrderUpdate>)
    requires
        picks_defined(orders_view(orders_a@), orders_view(orders_b@), is_ask, 10),
    ensures
        orders_view(r@) == pick_state(orders_view(orders_a@), orders_view(orders_b@), is_ask, 10).2,
{
    let ghost av = orders_view(orders_a@);
    let ghost bv = orders_view(orders_b@);
    let na = orders_a.len();
    let nb = orders_b.len();
    let mut aidx: usize = 0;
    let mut bidx: usize = 0;
    let mut merged: Vec<OrderUpdate> = Vec::new();
    let mut i: usize = 0;
    assert(orders_view(merged@) =~= Seq::<Seq<Seq<char>>>::empty());
    while i < 10
        invariant
            av == orders_view(orders_a@),
            bv == orders_view(orders_b@),
            picks_defined(av, bv, is_ask, 10),
            na == orders_a@.len(),
            nb == orders_b@.len(),
            i <= 10,
            pick_state(av, bv, is_ask, i as nat) == (aidx as int, bidx as int, orders_view(merged@)),
        decreases 10 - i,
    {
        assert(heads_present(av, bv, pick_state(av, bv, is_ask, i as nat).0, pick_state(av, bv, is_ask, i as nat).1));
        assert(av.len() == orders_a@.len() && bv.len() == orders_b@.len());
        assert(aidx < orders_a@.len() && bidx < orders_b@.len());
        let a = &orders_a[aidx];
        let b = &orders_b[bidx];
        assert(a@ == av[aidx as int]);
        assert(b@ == bv[bidx as int]);
        let a_price = &a.0[0];
        let b_price = &b.0[0];
        let ghost before = orders_view(merged@);
        if str_less(a_price, b_price) == is_ask {
            let o = orders_a[aidx].clone();
            merged.push(o);
            aidx = aidx + 1;
            assert(orders_view(merged@) =~= before.push(av[aidx - 1]));
        } else {
            let o = orders_b[bidx].clone();
            merged.push(o);
            bidx = bidx + 1;
            assert(orders_view(merged@) =~= before.push(bv[bidx - 1]));
        }
        i = i + 1;
    }
    merged
}

/// `x` may stand before `y` in a merged side: for asks, `y` does not come
/// before `x` in string order; for bids, `x` does not come before `y`.
pub open spec fn may_precede(x: Seq<char>, y: Seq<char>, is_ask: bool) -> bool {
    if is_ask {
        !lex_less(y, x)
    } else {
        !lex_less(x, y)
    }
}

/// Every order has a price text, and the price texts run in the order of the
/// side.
pub open spec fn orders_sorted(s: Seq<Seq<Seq<char>>>, is_ask: bool) -> bool {
    &&& forall|k: int| 0 <= k < s.len() ==> #[trigger] s[k].len() > 0
    &&& forall|i: int, j: int| 0 <= i < j < s.len() ==> may_precede(#[trigger] s[i][0], #[trigger] s[j][0], is_ask)
}

proof fn lemma_char_code_injective(x: char, y: char)
    ensures
        x != y ==> (x as u32) != (y as u32),
{
}

proof fn lemma_lex_less_irreflexive(a: Seq<char>)
    ensures
        !lex_less(a, a),
    decreases a.len(),
{
    if a.len() > 0 {
        lemma_lex_less_irreflexive(a.drop_first());
    }
}

proof fn lemma_lex_less_asymmetric(a: Seq<char>, b: Seq<char>)
    ensures
        lex_less(a, b) ==> !lex_less(b, a),
    decreases a.len(),
{
    if a.len() > 0 && b.len() > 0 && a[0] == b[0] {
        lemma_lex_less_asymmetric(a.drop_first(), b.drop_first());
    }
}

proof fn lemma_lex_less_transitive(a: Seq<char>, b: Seq<char>, c: Seq<char>)
    ensures
        lex_less(a, b) && lex_less(b, c) ==> lex_less(a, c),
    decreases a.len(),
{
    if a.len() > 0 && b.len() > 0 && c.len() > 0 && a[0] == b[0] && b[0] == c[0] {
        lemma_lex_less_transitive(a.drop_first(), b.drop_first(), c.drop_first());
    }
}

proof fn lemma_lex_less_total(a: Seq<char>, b: Seq<char>)
    ensures
        a != b ==> lex_less(a, b) || lex_less(b, a),
    decreases a.len(),
{
    if a.len() == 0 && b.len() == 0 {
        assert(a =~= b);
    } else if a.len() > 0 && b.len() > 0 {
        if a[0] == b[0] {
            lemma_lex_less_total(a.drop_first(), b.drop_first());
            if a.drop_first() == b.drop_first() {
                assert(a.len() == b.len());
                assert(a =~= b) by {
                    assert forall|i: int| 0 <= i < a.len() implies a[i] == b[i] by {
                        if i > 0 {
                            assert(a[i] == a.drop_first()[i - 1]);
                            assert(b[i] == b.drop_first()[i - 1]);
                        }
                    }
                }
            }
        } else {
            lemma_char_code_injective(a[0], b[0]);
        }
    }
}

proof fn lemma_may_precede_transitive(x: Seq<char>, y: Seq<char>, z: Seq<char>, is_ask: bool)
    requires
        may_precede(x, y, is_ask),
        may_precede(y, z, is_ask),
    ensures
        may_precede(x, z, is_ask),
{
    lemma_lex_less_total(x, y);
    lemma_lex_less_total(y, z);
    lemma_lex_less_transitive(x, y, z);
    lemma_lex_less_transitive(z, y, x);
    lemma_lex_less_asymmetric(x, z);
    lemma_lex_less_irreflexive(x);
}

/// The merge state after `n` steps, when both inputs run in the order of the
/// side: what was taken is the first `st.0` orders of `a` and the first
/// `st.1` of `b`, in the order of the side, and every order not yet taken
/// may follow the last one taken.
pub open spec fn merge_state_holds(a: Seq<Seq<Seq<char>>>, b: Seq<Seq<Seq<char>>>, is_ask: bool, n: nat) -> bool {
    let st = pick_state(a, b, is_ask, n);
    &&& 0 <= st.0 <= a.len()
    &&& 0 <= st.1 <= b.len()
    &&& st.0 + st.1 == n
    &&& st.2.len() == n
    &&& st.2.to_multiset() == a.take(st.0).to_multiset().add(b.take(st.1).to_multiset())
    &&& forall|i: int, j: int| 0 <= i < j < n ==> may_precede(#[trigger] st.2[i][0], #[trigger] st.2[j][0], is_ask)
    &&& n > 0 ==> forall|k: int| st.0 <= k < a.len() ==> may_precede(st.2[n - 1][0], #[trigger] a[k][0], is_ask)
    &&& n > 0 ==> forall|k: int| st.1 <= k < b.len() ==> may_precede(st.2[n - 1][0], #[trigger] b[k][0], is_ask)
}

proof fn lemma_merge_state(a: Seq<Seq<Seq<char>>>, b: Seq<Seq<Seq<char>>>, is_ask: bool, n: nat, m: nat)
    requires
        orders_sorted(a, is_ask),
        orders_sorted(b, is_ask),
        picks_defined(a, b, is_ask, m),
        n <= m,
    ensures
        merge_state_holds(a, b, is_ask, n),
    decreases n,
{
    broadcast use vstd::seq_lib::group_to_multiset_ensures;
    if n == 0 {
        assert(a.take(0) =~= Seq::<Seq<Seq<char>>>::empty());
        assert(b.take(0) =~= Seq::<Seq<Seq<char>>>::empty());
        assert(Seq::<Seq<Seq<char>>>::empty().to_multiset() =~= Seq::<Seq<Seq<char>>>::empty().to_multiset().add(
            Seq::<Seq<Seq<char>>>::empty().to_multiset(),
        ));
    } else {
        let p = (n - 1) as nat;
        lemma_merge_state(a, b, is_ask, p, m);
        let st = pick_state(a, b, is_ask, p);
        let nx = pick_state(a, b, is_ask, n);
        assert(heads_present(a, b, pick_state(a, b, is_ask, p).0, pick_state(a, b, is_ask, p).1));
        let x = a[st.0];
        let y = b[st.1];
        lemma_lex_less_asymmetric(x[0], y[0]);
        lemma_lex_less_asymmetric(y[0], x[0]);
        if takes_first(a, b, is_ask, st.0, st.1) {
            assert(may_precede(x[0], y[0], is_ask));
            assert(nx.2 == st.2.push(x));
            assert(a.take(st.0 + 1) =~= a.take(st.0).push(x));
            assert(nx.2.to_multiset() =~= a.take(nx.0).to_multiset().add(b.take(nx.1).to_multiset()));
            assert forall|i: int, j: int| 0 <= i < j < n implies may_precede(#[trigger] nx.2[i][0], #[trigger] nx.2[j][0], is_ask) by {
                if j == n - 1 && i < p {
                    lemma_lex_less_irreflexive(st.2[p - 1][0]);
                    assert(may_precede(st.2[i][0], st.2[p - 1][0], is_ask));
                    assert(may_precede(st.2[p - 1][0], a[st.0][0], is_ask));
                    lemma_may_precede_transitive(st.2[i][0], st.2[p - 1][0], x[0], is_ask);
                } else if j < n - 1 {
                    assert(nx.2[i] == st.2[i] && nx.2[j] == st.2[j]);
                }
            }
            assert forall|k: int| nx.0 <= k < a.len() implies may_precede(nx.2[n - 1][0], #[trigger] a[k][0], is_ask) by {
                assert(may_precede(a[st.0][0], a[k][0], is_ask));
            }
            assert forall|k: int| nx.1 <= k < b.len() implies may_precede(nx.2[n - 1][0], #[trigger] b[k][0], is_ask) by {
                if k > st.1 {
                    assert(may_precede(b[st.1][0], b[k][0], is_ask));
                    lemma_may_precede_transitive(x[0], y[0], b[k][0], is_ask);
                }
            }
        } else {
            assert(may_precede(y[0], x[0], is_ask));
            assert(nx.2 == st.2.push(y));
            assert(b.take(st.1 + 1) =~= b.take(st.1).push(y));
            assert(nx.2.to_multiset() =~= a.take(nx.0).to_multiset().add(b.take(nx.1).to_multiset()));
            assert forall|i: int, j: int| 0 <= i < j < n implies may_precede(#[trigger] nx.2[i][0], #[trigger] nx.2[j][0], is_ask) by {
                if j == n - 1 && i < p {
                    lemma_lex_less_irreflexive(st.2[p - 1][0]);
                    assert(may_precede(st.2[i][0], st.2[p - 1][0], is_ask));
                    assert(may_precede(st.2[p - 1][0], b[st.1][0], is_ask));
                    lemma_may_precede_transitive(st.2[i][0], st.2[p - 1][0], y[0], is_ask);
                } else if j < n - 1 {
                    assert(nx.2[i] == st.2[i] && nx.2[j] == st.2[j]);
                }
            }
            assert forall|k: int| nx.1 <= k < b.len() implies may_precede(nx.2[n - 1][0], #[trigger] b[k][0], is_ask) by {
                assert(may_precede(b[st.1][0], b[k][0], is_ask));
            }
            assert forall|k: int| nx.0 <= k < a.len() implies may_precede(nx.2[n - 1][0], #[trigger] a[k][0], is_ask) by {
                if k > st.0 {
                    assert(may_precede(a[st.0][0], a[k][0], is_ask));
                    lemma_may_precede_transitive(y[0], x[0], a[k][0], is_ask);
                }
            }
        }
    }
}

/// When both inputs run in the order of the side (ascending price text for
/// asks, descending for bids) and the merge is defined, its ten orders are
/// the first `i` of `a` and the first `j` of `b` with `i + j == 10`, they run
/// in the order of the side, and every order of either input that was left
/// out may follow the tenth: the ten are the best of the two inputs.
pub proof fn lemma_merge_orders_best(a: Seq<Seq<Seq<char>>>, b: Seq<Seq<Seq<char>>>, is_ask: bool)
    requires
        orders_sorted(a, is_ask),
        orders_sorted(b, is_ask),
        picks_defined(a, b, is_ask, 10),
    ensures
        merge_state_holds(a, b, is_ask, 10),
{
    lemma_merge_state(a, b, is_ask, 10, 10);
}

impl Summary {
    /// The summary of one exchange's book: its bids and asks as levels, and
    /// a spread of one; or the error of the first order that gives no level,
    /// the bids being read before the asks.
    pub fn from_orderbook(exchange: &str, orderbook_update: OrderbookUpdate) -> (r: OrderbookResult<Self>)
        ensures
            match (
                converted_orders(exchange@, orders_view(orderbook_update.bids@)),
                converted_orders(exchange@, orders_view(orderbook_update.asks@)),
            ) {
                (Ok(b), Ok(a)) => r matches Ok(s) && levels_view(s.bids@) == b && levels_view(s.asks@) == a
                    && s.spread == ONE,
                (Err(e), _) => r matches Err(x) && x@ == e,
                (Ok(_), Err(e)) => r matches Err(x) && x@ == e,
            },
    {
        let name = String::from_str(exchange);
        let bids = match convert_side(&name, &orderbook_update.bids) {
            Ok(v) => v,
            Err(e) => {
                return Err(e);
            },
        };
        let asks = match convert_side(&name, &orderbook_update.asks) {
            Ok(v) => v,
            Err(e) => {
                return Err(e);
            },
        };
        Ok(Summary { spread: ONE, bids, asks })
    }
}

} // verus!
