//! Merging of the levels of several exchanges into the best ten of each side.
use vstd::prelude::*;
use itertools::Itertools;
use vstd::multiset::Multiset;
use crate::decimal::{parse_result, saturate, saturating_diff, DecimalError};
use crate::error::{format_error, ErrorView, GeneralError, OrderbookResult};
use crate::exchange::exchange_client::{orders_view, OrderUpdate, OrderbookUpdate};
use crate::named::{lemma_named_map_len, lemma_named_map_push, lemma_without_name, named_map, names_distinct, without_name};
use crate::grpc::{level_from_order, levels_view, price_in_range, Level, LevelView, Summary};

verus! {

/// How many levels of each side the merged book keeps.
pub const DEPTH: usize = 10;

/// `x` comes out of a merge before `y`: when `higher_first`, a higher price
/// first (the order of bids); otherwise a price that is not higher first (the
/// order of asks).
pub open spec fn precedes(x: LevelView, y: LevelView, higher_first: bool) -> bool {
    (x.price > y.price) == higher_first
}

/// The merge of two runs of levels: at each step the head of `a` is taken
/// when it precedes the head of `b`, else the head of `b`.
pub open spec fn merge_views(a: Seq<LevelView>, b: Seq<LevelView>, higher_first: bool) -> Seq<LevelView>
    decreases a.len() + b.len(),
{
    if a.len() == 0 {
        b
    } else if b.len() == 0 {
        a
    } else if precedes(a[0], b[0], higher_first) {
        seq![a[0]] + merge_views(a.drop_first(), b, higher_first)
    } else {
        seq![b[0]] + merge_views(a, b.drop_first(), higher_first)
    }
}

/// The first `DEPTH` elements of `s`, or all of them when there are fewer.
pub open spec fn first_ten<T>(s: Seq<T>) -> Seq<T> {
    if s.len() <= 10 {
        s
    } else {
        s.take(10)
    }
}

/// The merge of the first ten levels of `a` and of `b`, cut to ten.
pub open spec fn merge_top(higher_first: bool, a: Seq<LevelView>, b: Seq<LevelView>) -> Seq<LevelView> {
    first_ten(merge_views(first_ten(a), first_ten(b), higher_first))
}

/// `x` may stand before `y` in a run in merge order: when `higher_first`
/// prices do not rise (bids), otherwise they do not fall (asks).
pub open spec fn in_order(x: LevelView, y: LevelView, higher_first: bool) -> bool {
    if higher_first {
        x.price >= y.price
    } else {
        x.price <= y.price
    }
}

pub open spec fn sorted_side(s: Seq<LevelView>, higher_first: bool) -> bool {
    forall|i: int, j: int| 0 <= i < j < s.len() ==> in_order(s[i], s[j], higher_first)
}

pub open spec fn all_in_range(s: Seq<LevelView>) -> bool {
    forall|i: int| 0 <= i < s.len() ==> price_in_range(#[trigger] s[i])
}

/// A merge holds every level of both runs, each as often as they do.
pub proof fn lemma_merge_permutes(a: Seq<LevelView>, b: Seq<LevelView>, higher_first: bool)
    ensures
        merge_views(a, b, higher_first).to_multiset() == a.to_multiset().add(b.to_multiset()),
        merge_views(a, b, higher_first).len() == a.len() + b.len(),
    decreases a.len() + b.len(),
{
    broadcast use vstd::seq_lib::lemma_multiset_commutative;
    broadcast use vstd::seq_lib::group_to_multiset_ensures;
    broadcast use vstd::multiset::group_multiset_axioms;
    broadcast use vstd::multiset::lemma_multiset_empty_len;

    if a.len() == 0 {
        assert(a.to_multiset() =~= Multiset::empty()) by {
            assert(a =~= Seq::<LevelView>::empty());
        }
        assert(merge_views(a, b, higher_first).to_multiset() =~= a.to_multiset().add(b.to_multiset()));
    } else if b.len() == 0 {
        assert(b.to_multiset() =~= Multiset::empty()) by {
            assert(b =~= Seq::<LevelView>::empty());
        }
        assert(merge_views(a, b, higher_first).to_multiset() =~= a.to_multiset().add(b.to_multiset()));
    } else if precedes(a[0], b[0], higher_first) {
        lemma_merge_permutes(a.drop_first(), b, higher_first);
        assert(a =~= seq![a[0]] + a.drop_first());
        assert(merge_views(a, b, higher_first).to_multiset() =~= a.to_multiset().add(b.to_multiset()));
    } else {
        lemma_merge_permutes(a, b.drop_first(), higher_first);
        assert(b =~= seq![b[0]] + b.drop_first());
        assert(merge_views(a, b, higher_first).to_multiset() =~= a.to_multiset().add(b.to_multiset()));
    }
}

/// Every level of a merge is a level of one of the two runs.
pub proof fn lemma_merge_contains(a: Seq<LevelView>, b: Seq<LevelView>, higher_first: bool, x: LevelView)
    requires
        merge_views(a, b, higher_first).contains(x),
    ensures
        a.contains(x) || b.contains(x),
{
    broadcast use vstd::seq_lib::group_to_multiset_ensures;

    lemma_merge_permutes(a, b, higher_first);
    assert(merge_views(a, b, higher_first).to_multiset().count(x) > 0);
}

/// Merging two runs in merge order gives a run in merge order.
pub proof fn lemma_merge_sorted(a: Seq<LevelView>, b: Seq<LevelView>, higher_first: bool)
    requires
        sorted_side(a, higher_first),
        sorted_side(b, higher_first),
    ensures
        sorted_side(merge_views(a, b, higher_first), higher_first),
    decreases a.len() + b.len(),
{
    if a.len() > 0 && b.len() > 0 {
        let m = merge_views(a, b, higher_first);
        if precedes(a[0], b[0], higher_first) {
            let rest = merge_views(a.drop_first(), b, higher_first);
            lemma_merge_sorted(a.drop_first(), b, higher_first);
            assert forall|j: int| 0 <= j < rest.len() implies in_order(a[0], #[trigger] rest[j], higher_first) by {
                assert(rest.contains(rest[j]));
                lemma_merge_contains(a.drop_first(), b, higher_first, rest[j]);
                if a.drop_first().contains(rest[j]) {
                    let k = choose|k: int| 0 <= k < a.drop_first().len() && a.drop_first()[k] == rest[j];
                    assert(a[k + 1] == rest[j]);
                } else {
                    let k = choose|k: int| 0 <= k < b.len() && b[k] == rest[j];
                    if k > 0 {
                        assert(in_order(b[0], b[k], higher_first));
                    }
                }
            }
            assert forall|i: int, j: int| 0 <= i < j < m.len() implies in_order(m[i], m[j], higher_first) by {
                assert(m[j] == rest[j - 1]);
                if i > 0 {
                    assert(m[i] == rest[i - 1]);
                }
            }
        } else {
            let rest = merge_views(a, b.drop_first(), higher_first);
            lemma_merge_sorted(a, b.drop_first(), higher_first);
            assert forall|j: int| 0 <= j < rest.len() implies in_order(b[0], #[trigger] rest[j], higher_first) by {
                assert(rest.contains(rest[j]));
                lemma_merge_contains(a, b.drop_first(), higher_first, rest[j]);
                if b.drop_first().contains(rest[j]) {
                    let k = choose|k: int| 0 <= k < b.drop_first().len() && b.drop_first()[k] == rest[j];
                    assert(b[k + 1] == rest[j]);
                } else {
                    let k = choose|k: int| 0 <= k < a.len() && a[k] == rest[j];
                    if k > 0 {
                        assert(in_order(a[0], a[k], higher_first));
                    }
                }
            }
            assert forall|i: int, j: int| 0 <= i < j < m.len() implies in_order(m[i], m[j], higher_first) by {
                assert(m[j] == rest[j - 1]);
                if i > 0 {
                    assert(m[i] == rest[i - 1]);
                }
            }
        }
    }
}

/// Merging keeps prices within range.
pub proof fn lemma_merge_in_range(a: Seq<LevelView>, b: Seq<LevelView>, higher_first: bool)
    requires
        all_in_range(a),
        all_in_range(b),
    ensures
        all_in_range(merge_views(a, b, higher_first)),
        all_in_range(merge_top(higher_first, a, b)),
{
    let m = merge_views(a, b, higher_first);
    assert forall|i: int| 0 <= i < m.len() implies price_in_range(#[trigger] m[i]) by {
        assert(m.contains(m[i]));
        lemma_merge_contains(a, b, higher_first, m[i]);
    }
    let m10 = merge_views(first_ten(a), first_ten(b), higher_first);
    assert forall|i: int| 0 <= i < m10.len() implies price_in_range(#[trigger] m10[i]) by {
        assert(m10.contains(m10[i]));
        lemma_merge_contains(first_ten(a), first_ten(b), higher_first, m10[i]);
        if first_ten(a).contains(m10[i]) {
            let k = choose|k: int| 0 <= k < first_ten(a).len() && first_ten(a)[k] == m10[i];
            assert(a[k] == m10[i]);
        } else {
            let k = choose|k: int| 0 <= k < first_ten(b).len() && first_ten(b)[k] == m10[i];
            assert(b[k] == m10[i]);
        }
    }
}

impl Level {
    /// Whether `a` comes out of a merge before `b`.
    pub fn precedes(a: &Level, b: &Level, higher_first: bool) -> (r: bool)
        ensures
            r == precedes(a@, b@, higher_first),
    {
        (a.price > b.price) == higher_first
    }
}

/// Merges two runs of levels with `Itertools::merge_by`, taking the head of
/// `a` whenever `Level::precedes` holds of the two heads. The contract states
/// what its documentation and source show: the merge described by
/// `merge_views`, with each level cloned.
#[verifier::external_body]
fn merge_by_price(a: &[Level], b: &[Level], higher_first: bool) -> (r: Vec<Level>)
    ensures
        levels_view(r@) == merge_views(levels_view(a@), levels_view(b@), higher_first),
{
    a.iter().merge_by(b.iter(), |x, y| Level::precedes(x, y, higher_first)).cloned().collect()
}

/// The first `DEPTH` levels of `v`, or all of them.
fn first_ten_of(v: &Vec<Level>) -> (r: &[Level])
    ensures
        levels_view(r@) == first_ten(levels_view(v@)),
{
    let n = if v.len() <= DEPTH {
        v.len()
    } else {
        DEPTH
    };
    let r = &v.as_slice()[0..n];
    assert(levels_view(r@) =~= first_ten(levels_view(v@)));
    r
}

/// The levels that one exchange last sent for one side of the book.
pub struct ExchangeLevels {
    pub name: String,
    pub levels: Vec<Level>,
}

impl View for ExchangeLevels {
    type V = (Seq<char>, Seq<LevelView>);

    open spec fn view(&self) -> (Seq<char>, Seq<LevelView>) {
        (self.name@, levels_view(self.levels@))
    }
}

/// One side of the book: each exchange's name with its levels, in the order
/// in which the exchanges last sent them.
pub open spec fn side_view(s: Seq<ExchangeLevels>) -> Seq<(Seq<char>, Seq<LevelView>)> {
    s.map_values(|e: ExchangeLevels| e@)
}

/// Keeps the latest levels of each exchange and merges them into a summary.
pub struct Merger {
    asks: Vec<ExchangeLevels>,
    bids: Vec<ExchangeLevels>,
}

/// The two sides of a merger as plain values.
pub struct MergerView {
    pub asks: Seq<(Seq<char>, Seq<LevelView>)>,
    pub bids: Seq<(Seq<char>, Seq<LevelView>)>,
}

impl View for Merger {
    type V = MergerView;

    closed spec fn view(&self) -> MergerView {
        MergerView { asks: side_view(self.asks@), bids: side_view(self.bids@) }
    }
}

pub open spec fn side_in_range(s: Seq<(Seq<char>, Seq<LevelView>)>) -> bool {
    forall|i: int| 0 <= i < s.len() ==> all_in_range(#[trigger] s[i].1)
}

/// Every exchange on a side holds at least one level.
pub open spec fn entries_nonempty(s: Seq<(Seq<char>, Seq<LevelView>)>) -> bool {
    forall|i: int| 0 <= i < s.len() ==> #[trigger] s[i].1.len() > 0
}

/// Each exchange occurs once on a side, with at least one level, and all its
/// prices are in range.
pub open spec fn side_wf(s: Seq<(Seq<char>, Seq<LevelView>)>) -> bool {
    names_distinct(s) && side_in_range(s) && entries_nonempty(s)
}

/// Both sides are well formed and hold the same exchanges.
pub open spec fn merger_wf(m: MergerView) -> bool {
    &&& side_wf(m.asks)
    &&& side_wf(m.bids)
    &&& named_map(m.asks).dom() == named_map(m.bids).dom()
}

/// A side after exchange `name` has sent `levels`.
pub open spec fn replaced(s: Seq<(Seq<char>, Seq<LevelView>)>, name: Seq<char>, levels: Seq<LevelView>) -> Seq<(Seq<char>, Seq<LevelView>)> {
    without_name(s, name).push((name, levels))
}

/// The levels that the order updates of exchange `name` give, or the error of
/// the first that gives none.
pub open spec fn converted_orders(name: Seq<char>, orders: Seq<Seq<Seq<char>>>) -> Result<Seq<LevelView>, ErrorView>
    decreases orders.len(),
{
    if orders.len() == 0 {
        Ok(Seq::empty())
    } else {
        match converted_orders(name, orders.drop_last()) {
            Err(e) => Err(e),
            Ok(v) => match level_from_order(name, orders.last()) {
                Err(e) => Err(e),
                Ok(l) => Ok(v.push(l)),
            },
        }
    }
}

/// A side merged, exchange after exchange in its order, into its best ten levels.
pub open spec fn fold_side(s: Seq<(Seq<char>, Seq<LevelView>)>, higher_first: bool) -> Seq<LevelView>
    decreases s.len(),
{
    if s.len() == 0 {
        Seq::empty()
    } else {
        merge_top(higher_first, fold_side(s.drop_last(), higher_first), s.last().1)
    }
}


/// The merged bids of a merger: highest price first.
pub open spec fn merged_bids(m: MergerView) -> Seq<LevelView> {
    fold_side(m.bids, true)
}

/// The merged asks of a merger: lowest price first.
pub open spec fn merged_asks(m: MergerView) -> Seq<LevelView> {
    fold_side(m.asks, false)
}

/// `r` is the summary of a merger that holds `m`: the bids merged into their
/// best ten levels, highest first, the asks into theirs, lowest first, and
/// the spread, the price of the first merged ask less that of the first
/// merged bid (held to the range of `i128`); or, when a merged side is empty,
/// the error for inconsistent data.
pub open spec fn summary_matches(m: MergerView, r: OrderbookResult<Summary>) -> bool {
    match r {
        Ok(s) => {
            &&& merged_bids(m).len() > 0
            &&& merged_asks(m).len() > 0
            &&& levels_view(s.bids@) == merged_bids(m)
            &&& levels_view(s.asks@) == merged_asks(m)
            &&& s.spread == saturate(merged_asks(m)[0].price - merged_bids(m)[0].price)
        },
        Err(e) => {
            &&& merged_bids(m).len() == 0 || merged_asks(m).len() == 0
            &&& e@ == format_error()
        },
    }
}

/// A merger after exchange `name` has sent `asks` and `bids`: the exchange is
/// removed from both sides and, when all its orders convert, its converted
/// asks are added at the end of the ask side and its converted bids at the
/// end of the bid side.
pub open spec fn updated_view(m: MergerView, name: Seq<char>, asks: Seq<Seq<Seq<char>>>, bids: Seq<Seq<Seq<char>>>) -> MergerView {
    match (converted_orders(name, asks), converted_orders(name, bids)) {
        (Ok(a), Ok(b)) => MergerView { asks: replaced(m.asks, name, a), bids: replaced(m.bids, name, b) },
        _ => MergerView { asks: without_name(m.asks, name), bids: without_name(m.bids, name) },
    }
}

/// What updating a merger with the message of an exchange returns.
pub open spec fn update_error(name: Seq<char>, asks: Seq<Seq<Seq<char>>>, bids: Seq<Seq<Seq<char>>>) -> Option<ErrorView> {
    match (converted_orders(name, asks), converted_orders(name, bids)) {
        (Err(e), _) => Some(e),
        (Ok(_), Err(e)) => Some(e),
        _ => None,
    }
}

/// Whether updating with these orders runs to its end: an update reads at
/// least the first `DEPTH` orders of each side, so each side must hold that
/// many unless an order before the missing ones fails to convert.
pub open spec fn update_defined(name: Seq<char>, asks: Seq<Seq<Seq<char>>>, bids: Seq<Seq<Seq<char>>>) -> bool {
    &&& converted_orders(name, asks) is Err || asks.len() >= DEPTH
    &&& converted_orders(name, asks) is Err || converted_orders(name, bids) is Err || bids.len() >= DEPTH
}

/// Removing an exchange from a side keeps it well formed.
pub proof fn lemma_without_name_wf(s: Seq<(Seq<char>, Seq<LevelView>)>, name: Seq<char>)
    requires
        side_wf(s),
    ensures
        side_wf(without_name(s, name)),
{
    let r = without_name(s, name);
    lemma_without_name(s, name);
    assert forall|i: int| 0 <= i < r.len() implies all_in_range(#[trigger] r[i].1) && r[i].1.len() > 0 by {
        assert(r.contains(r[i]));
        assert(s.contains(r[i]));
        let k = choose|k: int| 0 <= k < s.len() && s[k] == r[i];
        assert(all_in_range(s[k].1));
        assert(s[k].1.len() > 0);
    }
}

/// Converted order updates give one level each.
pub proof fn lemma_converted_len(name: Seq<char>, orders: Seq<Seq<Seq<char>>>)
    ensures
        converted_orders(name, orders) matches Ok(v) ==> v.len() == orders.len(),
    decreases orders.len(),
{
    if orders.len() > 0 {
        lemma_converted_len(name, orders.drop_last());
    }
}

/// Converting the order updates of an exchange succeeds exactly when every
/// one of them gives a level; then the levels are, one for one and in order,
/// what each order gives: the exchange's name, the first element read as the
/// price and the second read as the amount. On failure the error is that of
/// the first order that gives no level.
pub proof fn lemma_converted_levels(name: Seq<char>, orders: Seq<Seq<Seq<char>>>)
    ensures
        converted_orders(name, orders) is Ok <==> forall|i: int| 0 <= i < orders.len() ==> #[trigger] level_from_order(name, orders[i]) is Ok,
        converted_orders(name, orders) matches Ok(v) ==> {
            &&& v.len() == orders.len()
            &&& forall|i: int| 0 <= i < orders.len() ==> level_from_order(name, orders[i]) == Ok::<LevelView, ErrorView>(#[trigger] v[i])
            &&& forall|i: int| 0 <= i < orders.len() ==> {
                &&& (#[trigger] v[i]).exchange == name
                &&& orders[i].len() >= 2
                &&& parse_result(orders[i][0]) == Ok::<i128, DecimalError>(v[i].price)
                &&& parse_result(orders[i][1]) == Ok::<i128, DecimalError>(v[i].amount)
            }
        },
        converted_orders(name, orders) matches Err(e) ==> exists|k: int| {
            &&& 0 <= k < orders.len()
            &&& #[trigger] level_from_order(name, orders[k]) == Err::<LevelView, ErrorView>(e)
            &&& forall|j: int| 0 <= j < k ==> #[trigger] level_from_order(name, orders[j]) is Ok
        },
    decreases orders.len(),
{
    if orders.len() > 0 {
        let p = orders.drop_last();
        lemma_converted_levels(name, p);
        let n = orders.len() - 1;
        assert forall|i: int| 0 <= i < n implies orders[i] == p[i] by {}
        match converted_orders(name, p) {
            Err(e) => {
                let k = choose|k: int| {
                    &&& 0 <= k < p.len()
                    &&& #[trigger] level_from_order(name, p[k]) == Err::<LevelView, ErrorView>(e)
                    &&& forall|j: int| 0 <= j < k ==> #[trigger] level_from_order(name, p[j]) is Ok
                };
                assert(orders[k] == p[k]);
                assert forall|j: int| 0 <= j < k implies #[trigger] level_from_order(name, orders[j]) is Ok by {
                    assert(orders[j] == p[j]);
                    assert(level_from_order(name, p[j]) is Ok);
                }
                assert(!(level_from_order(name, orders[k]) is Ok));
            },
            Ok(v) => {
                assert(orders.last() == orders[n]);
                match level_from_order(name, orders.last()) {
                    Err(e) => {
                        assert forall|j: int| 0 <= j < n implies #[trigger] level_from_order(name, orders[j]) is Ok by {
                            assert(orders[j] == p[j]);
                            assert(level_from_order(name, p[j]) is Ok);
                        }
                        assert(level_from_order(name, orders[n]) == Err::<LevelView, ErrorView>(e));
                    },
                    Ok(l) => {
                        let w = v.push(l);
                        assert forall|i: int| 0 <= i < orders.len() implies level_from_order(name, orders[i]) == Ok::<LevelView, ErrorView>(#[trigger] w[i]) by {
                            if i < n {
                                assert(orders[i] == p[i]);
                                assert(level_from_order(name, p[i]) == Ok::<LevelView, ErrorView>(v[i]));
                            }
                        }
                        assert forall|i: int| 0 <= i < orders.len() implies #[trigger] level_from_order(name, orders[i]) is Ok by {
                            assert(level_from_order(name, orders[i]) == Ok::<LevelView, ErrorView>(w[i]));
                        }
                    },
                }
            },
        }
    }
}

/// Converting order updates stops at the first failure.
proof fn lemma_converted_prefix_err(name: Seq<char>, orders: Seq<Seq<Seq<char>>>, k: int)
    requires
        0 <= k <= orders.len(),
        converted_orders(name, orders.take(k)) is Err,
    ensures
        converted_orders(name, orders) == converted_orders(name, orders.take(k)),
    decreases orders.len(),
{
    if k == orders.len() {
        assert(orders.take(k) =~= orders);
    } else {
        assert(orders.drop_last().take(k) =~= orders.take(k));
        lemma_converted_prefix_err(name, orders.drop_last(), k);
    }
}

/// The entries of `entries` whose exchange is not `name`, in their order.
fn remove_named(entries: Vec<ExchangeLevels>, name: &String) -> (r: Vec<ExchangeLevels>)
    ensures
        side_view(r@) == without_name(side_view(entries@), name@),
{
    let ghost orig = side_view(entries@);
    let mut rest = entries;
    let mut kept: Vec<ExchangeLevels> = Vec::new();
    let ghost mut k: int = 0;
    assert(orig.take(0) =~= Seq::<(Seq<char>, Seq<LevelView>)>::empty());
    while rest.len() > 0
        invariant
            0 <= k <= orig.len(),
            side_view(rest@) == orig.skip(k),
            side_view(kept@) == without_name(orig.take(k), name@),
        decreases rest.len(),
    {
        let ghost before = rest@;
        let e = rest.remove(0);
        proof {
            assert(side_view(before).len() == before.len());
            assert(k < orig.len());
            assert(orig[k] == e@) by {
                assert(side_view(before)[0] == orig.skip(k)[0]);
            }
            assert(orig.take(k + 1).drop_last() =~= orig.take(k));
            assert forall|j: int| 0 <= j < rest@.len() implies side_view(rest@)[j] == orig.skip(k + 1)[j] by {
                assert(rest@[j] == before[j + 1]);
                assert(side_view(before)[j + 1] == orig.skip(k)[j + 1]);
            }
            assert(side_view(rest@) =~= orig.skip(k + 1));
        }
        if e.name == *name {
        } else {
            kept.push(e);
            assert(side_view(kept@) =~= without_name(orig.take(k), name@).push(e@));
        }
        proof {
            k = k + 1;
        }
    }
    assert(orig.take(k) =~= orig);
    kept
}

/// The levels that `orders` give for exchange `name`, or the first error.
pub(crate) fn convert_side(name: &String, orders: &Vec<OrderUpdate>) -> (r: OrderbookResult<Vec<Level>>)
    ensures
        match r {
            Ok(v) => converted_orders(name@, orders_view(orders@)) == Ok::<Seq<LevelView>, ErrorView>(levels_view(v@))
                && all_in_range(levels_view(v@)),
            Err(e) => converted_orders(name@, orders_view(orders@)) == Err::<Seq<LevelView>, ErrorView>(e@),
        },
{
    let ghost ov = orders_view(orders@);
    let n = orders.len();
    let mut out: Vec<Level> = Vec::new();
    let mut i: usize = 0;
    assert(ov.take(0) =~= Seq::<Seq<Seq<char>>>::empty());
    assert(levels_view(out@) =~= Seq::<LevelView>::empty());
    while i < n
        invariant
            n == orders@.len(),
            ov == orders_view(orders@),
            i <= n,
            converted_orders(name@, ov.take(i as int)) == Ok::<Seq<LevelView>, ErrorView>(levels_view(out@)),
            all_in_range(levels_view(out@)),
        decreases n - i,
    {
        assert(ov.take(i + 1).drop_last() =~= ov.take(i as int));
        assert(ov.take(i + 1).last() == orders@[i as int]@);
        let ghost before = levels_view(out@);
        match Level::from_order(name.as_str(), orders[i].clone()) {
            Ok(l) => {
                out.push(l);
                assert(levels_view(out@) =~= before.push(l@));
            },
            Err(e) => {
                proof {
                    lemma_converted_prefix_err(name@, ov, i + 1);
                }
                return Err(e);
            },
        }
        i = i + 1;
    }
    assert(ov.take(n as int) =~= ov);
    Ok(out)
}

/// Whether updating a merger with the message `orders` of exchange `name`
/// runs to its end, as `update_defined` says.
pub fn can_update(name: &String, orders: &OrderbookUpdate) -> (r: bool)
    ensures
        r == update_defined(name@, orders_view(orders.asks@), orders_view(orders.bids@)),
{
    match convert_side(name, &orders.asks) {
        Err(_) => {
            return true;
        },
        Ok(_) => {},
    }
    if orders.asks.len() < DEPTH {
        return false;
    }
    match convert_side(name, &orders.bids) {
        Err(_) => true,
        Ok(_) => orders.bids.len() >= DEPTH,
    }
}

impl Merger {
    /// The best ten levels of the first ten of `orders_a` and of `orders_b`,
    /// merged in the order of one side.
    pub fn merge_orders(higher_first: bool, orders_a: &Vec<Level>, orders_b: &Vec<Level>) -> (r: Vec<Level>)
        ensures
            levels_view(r@) == merge_top(higher_first, levels_view(orders_a@), levels_view(orders_b@)),
    {
        let a = first_ten_of(orders_a);
        let b = first_ten_of(orders_b);
        let mut merged = merge_by_price(a, b, higher_first);
        let ghost m = merged@;
        merged.truncate(DEPTH);
        assert(levels_view(merged@) =~= first_ten(levels_view(m)));
        merged
    }

    /// Both sides are well formed and hold the same exchanges; every merger
    /// keeps this.
    #[verifier::type_invariant]
    pub open spec fn wf(&self) -> bool {
        merger_wf(self@)
    }

    /// A merger that holds no exchange.
    pub fn new() -> (r: Self)
        ensures
            r.wf(),
            r@.asks == Seq::<(Seq<char>, Seq<LevelView>)>::empty(),
            r@.bids == Seq::<(Seq<char>, Seq<LevelView>)>::empty(),
    {
        let r = Merger { asks: Vec::new(), bids: Vec::new() };
        assert(r@.asks =~= Seq::<(Seq<char>, Seq<LevelView>)>::empty());
        assert(r@.bids =~= Seq::<(Seq<char>, Seq<LevelView>)>::empty());
        r
    }

    /// Replaces what exchange `name` last sent with `orders`. The exchange's
    /// entries are removed from both sides first; then all its asks and all
    /// its bids are converted to levels, and on success the converted asks are
    /// stored on the ask side and the converted bids on the bid side. On the
    /// first order that does not convert, its error is returned and the
    /// exchange stays removed.
    pub fn update_exchange(&mut self, name: String, orders: OrderbookUpdate) -> (r: OrderbookResult<()>)
        requires
            update_defined(name@, orders_view(orders.asks@), orders_view(orders.bids@)),
        ensures
            final(self).wf(),
            final(self)@ == updated_view(old(self)@, name@, orders_view(orders.asks@), orders_view(orders.bids@)),
            match update_error(name@, orders_view(orders.asks@), orders_view(orders.bids@)) {
                Some(e) => r matches Err(x) && x@ == e,
                None => r is Ok,
            },
            match (converted_orders(name@, orders_view(orders.asks@)), converted_orders(name@, orders_view(orders.bids@))) {
                (Ok(a), Ok(b)) => {
                    &&& r is Ok
                    &&& final(self)@.asks == replaced(old(self)@.asks, name@, a)
                    &&& final(self)@.bids == replaced(old(self)@.bids, name@, b)
                    &&& named_map(final(self)@.asks) == named_map(old(self)@.asks).insert(name@, a)
                    &&& named_map(final(self)@.bids) == named_map(old(self)@.bids).insert(name@, b)
                },
                (Err(e), _) => {
                    &&& r matches Err(x) && x@ == e
                    &&& final(self)@.bids == without_name(old(self)@.bids, name@)
                    &&& final(self)@.asks == without_name(old(self)@.asks, name@)
                    &&& named_map(final(self)@.bids) == named_map(old(self)@.bids).remove(name@)
                    &&& named_map(final(self)@.asks) == named_map(old(self)@.asks).remove(name@)
                },
                (Ok(_), Err(e)) => {
                    &&& r matches Err(x) && x@ == e
                    &&& final(self)@.bids == without_name(old(self)@.bids, name@)
                    &&& final(self)@.asks == without_name(old(self)@.asks, name@)
                    &&& named_map(final(self)@.bids) == named_map(old(self)@.bids).remove(name@)
                    &&& named_map(final(self)@.asks) == named_map(old(self)@.asks).remove(name@)
                },
            },
    {
        proof {
            use_type_invariant(&*self);
        }
        let ghost old_asks = self@.asks;
        let ghost old_bids = self@.bids;
        proof {
            lemma_without_name(old_asks, name@);
            lemma_without_name(old_bids, name@);
            lemma_without_name_wf(old_asks, name@);
            lemma_without_name_wf(old_bids, name@);
            lemma_converted_len(name@, orders_view(orders.asks@));
            lemma_converted_len(name@, orders_view(orders.bids@));
            assert(named_map(without_name(old_asks, name@)).dom() =~= named_map(without_name(old_bids, name@)).dom());
        }
        let mut taken = Merger::new();
        std::mem::swap(&mut taken, self);
        let Merger { asks, bids } = taken;
        let mut asks = remove_named(asks, &name);
        let mut bids = remove_named(bids, &name);
        let converted_asks = match convert_side(&name, &orders.asks) {
            Ok(v) => v,
            Err(e) => {
                *self = Merger { asks, bids };
                return Err(e);
            },
        };
        let converted_bids = match convert_side(&name, &orders.bids) {
            Ok(v) => v,
            Err(e) => {
                *self = Merger { asks, bids };
                return Err(e);
            },
        };
        let ghost cleared_asks = side_view(asks@);
        let ghost cleared_bids = side_view(bids@);
        let bids_entry = ExchangeLevels { name: name.clone(), levels: converted_bids };
        bids.push(bids_entry);
        let asks_entry = ExchangeLevels { name: name, levels: converted_asks };
        asks.push(asks_entry);
        proof {
            assert(side_view(bids@) =~= cleared_bids.push(bids_entry@));
            assert(side_view(asks@) =~= cleared_asks.push(asks_entry@));
            lemma_named_map_push(cleared_bids, bids_entry@);
            lemma_named_map_push(cleared_asks, asks_entry@);
            assert(named_map(side_view(bids@)) =~= named_map(old_bids).insert(name@, bids_entry@.1));
            assert(named_map(side_view(asks@)) =~= named_map(old_asks).insert(name@, asks_entry@.1));
            let nb = side_view(bids@);
            assert forall|i: int, j: int| 0 <= i < j < nb.len() implies #[trigger] nb[i].0 != #[trigger] nb[j].0 by {
                if j == nb.len() - 1 {
                    assert(nb[i] == cleared_bids[i]);
                }
            }
            let na = side_view(asks@);
            assert forall|i: int, j: int| 0 <= i < j < na.len() implies #[trigger] na[i].0 != #[trigger] na[j].0 by {
                if j == na.len() - 1 {
                    assert(na[i] == cleared_asks[i]);
                }
            }
            assert forall|i: int| 0 <= i < nb.len() implies all_in_range(#[trigger] nb[i].1) by {
                if i < nb.len() - 1 {
                    assert(nb[i] == cleared_bids[i]);
                }
            }
            assert forall|i: int| 0 <= i < na.len() implies all_in_range(#[trigger] na[i].1) by {
                if i < na.len() - 1 {
                    assert(na[i] == cleared_asks[i]);
                }
            }
            assert forall|i: int| 0 <= i < nb.len() implies #[trigger] nb[i].1.len() > 0 by {
                if i < nb.len() - 1 {
                    assert(nb[i] == cleared_bids[i]);
                }
            }
            assert forall|i: int| 0 <= i < na.len() implies #[trigger] na[i].1.len() > 0 by {
                if i < na.len() - 1 {
                    assert(na[i] == cleared_asks[i]);
                }
            }
            assert(named_map(side_view(asks@)).dom() =~= named_map(side_view(bids@)).dom());
        }
        *self = Merger { asks, bids };
        Ok(())
    }
}

impl Merger {
    /// Merges one side, exchange after exchange, into its best ten levels.
    fn merge_side(side: &Vec<ExchangeLevels>, higher_first: bool) -> (r: Vec<Level>)
        requires
            side_in_range(side_view(side@)),
        ensures
            levels_view(r@) == fold_side(side_view(side@), higher_first),
            all_in_range(levels_view(r@)),
    {
        let ghost sv = side_view(side@);
        let n = side.len();
        let mut merged: Vec<Level> = Vec::new();
        let mut i: usize = 0;
        assert(sv.take(0) =~= Seq::<(Seq<char>, Seq<LevelView>)>::empty());
        assert(levels_view(merged@) =~= Seq::<LevelView>::empty());
        while i < n
            invariant
                n == side@.len(),
                sv == side_view(side@),
                side_in_range(sv),
                i <= n,
                levels_view(merged@) == fold_side(sv.take(i as int), higher_first),
                all_in_range(levels_view(merged@)),
            decreases n - i,
        {
            assert(sv.take(i + 1).drop_last() =~= sv.take(i as int));
            assert(sv.take(i + 1).last() == side@[i as int]@);
            assert(all_in_range(sv[i as int].1));
            proof {
                lemma_merge_in_range(levels_view(merged@), sv[i as int].1, higher_first);
            }
            merged = Self::merge_orders(higher_first, &merged, &side[i].levels);
            i = i + 1;
        }
        assert(sv.take(n as int) =~= sv);
        merged
    }

    /// The summary of all exchanges: the bids merged into their best ten,
    /// highest first, the asks into their best ten, lowest first, and the
    /// spread, the best ask less the best bid (held to the range of `i128`).
    /// Fails when a merged side is empty.
    pub fn provide_summary(&self) -> (r: OrderbookResult<Summary>)
        ensures
            summary_matches(self@, r),
    {
        proof {
            use_type_invariant(self);
        }
        let merged_asks = Self::merge_side(&self.asks, false);
        let merged_bids = Self::merge_side(&self.bids, true);
        if merged_bids.len() == 0 {
            return Err(GeneralError::orders_format_error());
        }
        if merged_asks.len() == 0 {
            return Err(GeneralError::orders_format_error());
        }
        let spread = saturating_diff(merged_asks[0].price, merged_bids[0].price);
        Ok(Summary { spread, bids: merged_bids, asks: merged_asks })
    }
}

/// The first ten levels of a run in merge order are in merge order.
proof fn lemma_first_ten_sorted(a: Seq<LevelView>, higher_first: bool)
    requires
        sorted_side(a, higher_first),
    ensures
        sorted_side(first_ten(a), higher_first),
{
    let f = first_ten(a);
    assert forall|i: int, j: int| 0 <= i < j < f.len() implies in_order(f[i], f[j], higher_first) by {
        assert(f[i] == a[i] && f[j] == a[j]);
    }
}

/// Merging two runs in merge order keeps the best ten of their first tens:
/// the result is in merge order, as long as ten or the two tens together,
/// holds only levels of the two tens, and every level of the two tens that
/// it leaves out comes, in merge order, after its tenth level.
pub proof fn lemma_merge_top_best(higher_first: bool, a: Seq<LevelView>, b: Seq<LevelView>)
    requires
        sorted_side(a, higher_first),
        sorted_side(b, higher_first),
    ensures
        ({
            let m = merge_top(higher_first, a, b);
            let u = first_ten(a) + first_ten(b);
            &&& sorted_side(m, higher_first)
            &&& m.len() == (if u.len() <= 10 { u.len() } else { 10 })
            &&& m.to_multiset().subset_of(u.to_multiset())
            &&& forall|x: LevelView| u.to_multiset().count(x) > m.to_multiset().count(x)
                ==> m.len() == 10 && in_order(m[9], x, higher_first)
        }),
{
    broadcast use vstd::seq_lib::lemma_multiset_commutative;
    broadcast use vstd::seq_lib::group_to_multiset_ensures;
    broadcast use vstd::multiset::group_multiset_axioms;

    let a10 = first_ten(a);
    let b10 = first_ten(b);
    let u = a10 + b10;
    let full = merge_views(a10, b10, higher_first);
    let m = merge_top(higher_first, a, b);
    lemma_first_ten_sorted(a, higher_first);
    lemma_first_ten_sorted(b, higher_first);
    lemma_merge_sorted(a10, b10, higher_first);
    lemma_merge_permutes(a10, b10, higher_first);
    assert(full.to_multiset() == u.to_multiset());
    if full.len() <= 10 {
        assert(m == full);
    } else {
        let rest = full.skip(10);
        assert(full =~= m + rest);
        assert(full.to_multiset() == m.to_multiset().add(rest.to_multiset()));
        assert forall|i: int, j: int| 0 <= i < j < m.len() implies in_order(m[i], m[j], higher_first) by {
            assert(m[i] == full[i] && m[j] == full[j]);
        }
        assert forall|x: LevelView| u.to_multiset().count(x) > m.to_multiset().count(x)
            implies m.len() == 10 && in_order(m[9], x, higher_first) by {
            assert(rest.to_multiset().count(x) > 0);
            assert(rest.contains(x));
            let k = choose|k: int| 0 <= k < rest.len() && rest[k] == x;
            assert(full[10 + k] == x);
            assert(m[9] == full[9]);
        }
    }
}

/// When every exchange's levels are in merge order, so is the merged side.
pub proof fn lemma_fold_sorted(s: Seq<(Seq<char>, Seq<LevelView>)>, higher_first: bool)
    requires
        forall|i: int| 0 <= i < s.len() ==> sorted_side(#[trigger] s[i].1, higher_first),
    ensures
        sorted_side(fold_side(s, higher_first), higher_first),
    decreases s.len(),
{
    if s.len() > 0 {
        lemma_fold_sorted(s.drop_last(), higher_first);
        assert(sorted_side(s[s.len() - 1].1, higher_first));
        lemma_merge_top_best(higher_first, fold_side(s.drop_last(), higher_first), s.last().1);
    }
}

/// An update replaces whatever the same exchange sent before: updating
/// twice is updating once with the later message.
pub proof fn lemma_update_replaces(
    m: MergerView,
    name: Seq<char>,
    asks1: Seq<Seq<Seq<char>>>,
    bids1: Seq<Seq<Seq<char>>>,
    asks2: Seq<Seq<Seq<char>>>,
    bids2: Seq<Seq<Seq<char>>>,
)
    ensures
        updated_view(updated_view(m, name, asks1, bids1), name, asks2, bids2) == updated_view(m, name, asks2, bids2),
{
    lemma_without_name(m.asks, name);
    lemma_without_name(m.bids, name);
    let m1 = updated_view(m, name, asks1, bids1);
    if m1.asks != without_name(m.asks, name) {
        assert(m1.asks.drop_last() =~= without_name(m.asks, name));
    }
    if m1.bids != without_name(m.bids, name) {
        assert(m1.bids.drop_last() =~= without_name(m.bids, name));
    }
}

/// An update leaves the levels of every other exchange as they were.
pub proof fn lemma_update_keeps_others(
    m: MergerView,
    name: Seq<char>,
    asks: Seq<Seq<Seq<char>>>,
    bids: Seq<Seq<Seq<char>>>,
)
    ensures
        named_map(updated_view(m, name, asks, bids).asks).remove(name) == named_map(m.asks).remove(name),
        named_map(updated_view(m, name, asks, bids).bids).remove(name) == named_map(m.bids).remove(name),
{
    lemma_without_name(m.asks, name);
    lemma_without_name(m.bids, name);
    let u = updated_view(m, name, asks, bids);
    match (converted_orders(name, asks), converted_orders(name, bids)) {
        (Ok(a), Ok(b)) => {
            lemma_named_map_push(without_name(m.asks, name), (name, a));
            lemma_named_map_push(without_name(m.bids, name), (name, b));
            assert(named_map(u.asks).remove(name) =~= named_map(m.asks).remove(name));
            assert(named_map(u.bids).remove(name) =~= named_map(m.bids).remove(name));
        },
        _ => {
            assert(named_map(u.asks).remove(name) =~= named_map(m.asks).remove(name));
            assert(named_map(u.bids).remove(name) =~= named_map(m.bids).remove(name));
        },
    }
}

/// A merged side holds at most `DEPTH` levels.
pub proof fn lemma_fold_at_most_ten(s: Seq<(Seq<char>, Seq<LevelView>)>, higher_first: bool)
    ensures
        fold_side(s, higher_first).len() <= DEPTH,
{
}

/// A merged side is empty exactly when no exchange is on the side, as long as
/// each exchange on it holds a level.
pub proof fn lemma_fold_empty(s: Seq<(Seq<char>, Seq<LevelView>)>, higher_first: bool)
    requires
        entries_nonempty(s),
    ensures
        fold_side(s, higher_first).len() == 0 <==> s.len() == 0,
    decreases s.len(),
{
    if s.len() > 0 {
        let p = s.drop_last();
        assert(entries_nonempty(p)) by {
            assert forall|i: int| 0 <= i < p.len() implies #[trigger] p[i].1.len() > 0 by {
                assert(p[i] == s[i]);
            }
        }
        lemma_fold_empty(p, higher_first);
        assert(s[s.len() - 1].1.len() > 0);
        let f = fold_side(p, higher_first);
        lemma_merge_permutes(first_ten(f), first_ten(s.last().1), higher_first);
    }
}

/// With no name twice, a side is empty exactly when its map is.
proof fn lemma_side_empty_iff_map_empty(s: Seq<(Seq<char>, Seq<LevelView>)>)
    requires
        names_distinct(s),
    ensures
        s.len() == 0 <==> named_map(s).dom() == Set::<Seq<char>>::empty(),
{
    lemma_named_map_len(s);
    if s.len() > 0 {
        assert(named_map(s).dom().contains(s.last().0));
    } else {
        assert(named_map(s).dom() =~= Set::<Seq<char>>::empty());
    }
}

/// The spread of a summary is exactly the price of its first ask less that
/// of its first bid whenever that difference is in the range of `i128`; it
/// is `i128::MAX` or `i128::MIN` only when the difference lies beyond.
pub proof fn lemma_spread_exact(m: MergerView, r: OrderbookResult<Summary>)
    requires
        summary_matches(m, r),
    ensures
        r matches Ok(s) ==> {
            &&& s.bids@.len() > 0
            &&& s.asks@.len() > 0
            &&& (i128::MIN <= s.asks@[0].price - s.bids@[0].price <= i128::MAX
                ==> s.spread == s.asks@[0].price - s.bids@[0].price)
            &&& (s.asks@[0].price - s.bids@[0].price > i128::MAX ==> s.spread == i128::MAX)
            &&& (s.asks@[0].price - s.bids@[0].price < i128::MIN ==> s.spread == i128::MIN)
        },
{
    if r is Ok {
        let s = r->Ok_0;
        assert(levels_view(s.bids@).len() == s.bids@.len());
        assert(levels_view(s.asks@).len() == s.asks@.len());
        assert(levels_view(s.bids@)[0] == s.bids@[0]@);
        assert(levels_view(s.asks@)[0] == s.asks@[0]@);
    }
}

/// The summary of a well-formed merger fails exactly when it holds no
/// exchange, and then with the error for inconsistent data.
pub proof fn lemma_summary_fails_iff_empty(m: MergerView, r: OrderbookResult<Summary>)
    requires
        merger_wf(m),
        summary_matches(m, r),
    ensures
        r is Err <==> named_map(m.bids).dom() == Set::<Seq<char>>::empty(),
        r is Err <==> named_map(m.asks).dom() == Set::<Seq<char>>::empty(),
        r matches Err(e) ==> e@ == format_error(),
{
    lemma_fold_empty(m.bids, true);
    lemma_fold_empty(m.asks, false);
    lemma_side_empty_iff_map_empty(m.bids);
    lemma_side_empty_iff_map_empty(m.asks);
}

/// After an update an exchange is held exactly when its update converted;
/// every other exchange is held as before.
pub proof fn lemma_update_presence(
    m: MergerView,
    name: Seq<char>,
    asks: Seq<Seq<Seq<char>>>,
    bids: Seq<Seq<Seq<char>>>,
    other: Seq<char>,
)
    ensures
        named_map(updated_view(m, name, asks, bids).bids).dom().contains(name) <==> update_error(name, asks, bids) is None,
        named_map(updated_view(m, name, asks, bids).asks).dom().contains(name) <==> update_error(name, asks, bids) is None,
        other != name ==> (named_map(updated_view(m, name, asks, bids).bids).dom().contains(other)
            <==> named_map(m.bids).dom().contains(other)),
        other != name ==> (named_map(updated_view(m, name, asks, bids).asks).dom().contains(other)
            <==> named_map(m.asks).dom().contains(other)),
{
    lemma_without_name(m.asks, name);
    lemma_without_name(m.bids, name);
    match (converted_orders(name, asks), converted_orders(name, bids)) {
        (Ok(a), Ok(b)) => {
            lemma_named_map_push(without_name(m.asks, name), (name, a));
            lemma_named_map_push(without_name(m.bids, name), (name, b));
        },
        _ => {},
    }
}

/// The first `n` elements of `s`, or all of them when there are fewer.
pub open spec fn first_n<T>(s: Seq<T>, n: nat) -> Seq<T> {
    if s.len() <= n {
        s
    } else {
        s.take(n as int)
    }
}

/// The first `n` levels of a merge depend only on the first `n` of each run.
pub proof fn lemma_merge_prefix(a: Seq<LevelView>, b: Seq<LevelView>, higher_first: bool, n: nat)
    ensures
        first_n(merge_views(a, b, higher_first), n)
            == first_n(merge_views(first_n(a, n), first_n(b, n), higher_first), n),
    decreases a.len() + b.len(),
{
    let an = first_n(a, n);
    let bn = first_n(b, n);
    lemma_merge_permutes(a, b, higher_first);
    lemma_merge_permutes(an, bn, higher_first);
    if n == 0 {
        assert(first_n(merge_views(a, b, higher_first), n) =~= Seq::<LevelView>::empty());
        assert(first_n(merge_views(an, bn, higher_first), n) =~= Seq::<LevelView>::empty());
    } else if a.len() == 0 {
        assert(an =~= a);
        assert(first_n(merge_views(an, bn, higher_first), n) =~= first_n(bn, n));
        assert(first_n(bn, n) =~= first_n(b, n));
    } else if b.len() == 0 {
        assert(bn =~= b);
        assert(first_n(merge_views(an, bn, higher_first), n) =~= first_n(an, n));
        assert(first_n(an, n) =~= first_n(a, n));
    } else {
        let m = (n - 1) as nat;
        assert(an[0] == a[0] && bn[0] == b[0]);
        if precedes(a[0], b[0], higher_first) {
            let a1 = a.drop_first();
            assert(an.drop_first() =~= first_n(a1, m));
            lemma_merge_prefix(a1, b, higher_first, m);
            lemma_merge_prefix(first_n(a1, m), bn, higher_first, m);
            assert(first_n(first_n(a1, m), m) =~= first_n(a1, m));
            assert(first_n(bn, m) =~= first_n(b, m));
            let x = merge_views(a1, b, higher_first);
            let y = merge_views(first_n(a1, m), bn, higher_first);
            lemma_merge_permutes(first_n(a1, m), bn, higher_first);
            assert(first_n(seq![a[0]] + x, n) =~= seq![a[0]] + first_n(x, m));
            assert(first_n(seq![a[0]] + y, n) =~= seq![a[0]] + first_n(y, m));
        } else {
            let b1 = b.drop_first();
            assert(bn.drop_first() =~= first_n(b1, m));
            lemma_merge_prefix(a, b1, higher_first, m);
            lemma_merge_prefix(an, first_n(b1, m), higher_first, m);
            assert(first_n(first_n(b1, m), m) =~= first_n(b1, m));
            assert(first_n(an, m) =~= first_n(a, m));
            let x = merge_views(a, b1, higher_first);
            let y = merge_views(an, first_n(b1, m), higher_first);
            lemma_merge_permutes(an, first_n(b1, m), higher_first);
            assert(first_n(seq![b[0]] + x, n) =~= seq![b[0]] + first_n(x, m));
            assert(first_n(seq![b[0]] + y, n) =~= seq![b[0]] + first_n(y, m));
        }
    }
}

/// The first ten levels of every exchange on a side, together.
pub open spec fn tens_union(s: Seq<(Seq<char>, Seq<LevelView>)>) -> Multiset<LevelView>
    decreases s.len(),
{
    if s.len() == 0 {
        Multiset::empty()
    } else {
        tens_union(s.drop_last()).add(first_ten(s.last().1).to_multiset())
    }
}

/// Every exchange's levels on the side are in merge order.
pub open spec fn entries_sorted(s: Seq<(Seq<char>, Seq<LevelView>)>, higher_first: bool) -> bool {
    forall|i: int| 0 <= i < s.len() ==> sorted_side(#[trigger] s[i].1, higher_first)
}

/// A merged side is the first ten of a run in merge order that holds the
/// first ten levels of every exchange on the side.
proof fn lemma_fold_is_prefix(s: Seq<(Seq<char>, Seq<LevelView>)>, higher_first: bool) -> (q: Seq<LevelView>)
    requires
        entries_sorted(s, higher_first),
    ensures
        sorted_side(q, higher_first),
        q.to_multiset() == tens_union(s),
        fold_side(s, higher_first) == first_ten(q),
    decreases s.len(),
{
    broadcast use vstd::seq_lib::group_to_multiset_ensures;
    broadcast use vstd::multiset::group_multiset_axioms;
    broadcast use vstd::multiset::lemma_multiset_empty_len;

    if s.len() == 0 {
        let q = Seq::<LevelView>::empty();
        assert(q.to_multiset() =~= Multiset::empty());
        q
    } else {
        let p = s.drop_last();
        assert(entries_sorted(p, higher_first)) by {
            assert forall|i: int| 0 <= i < p.len() implies sorted_side(#[trigger] p[i].1, higher_first) by {
                assert(p[i] == s[i]);
            }
        }
        let qp = lemma_fold_is_prefix(p, higher_first);
        let l = s.last().1;
        assert(sorted_side(s[s.len() - 1].1, higher_first));
        lemma_first_ten_sorted(l, higher_first);
        let l10 = first_ten(l);
        let q = merge_views(qp, l10, higher_first);
        lemma_merge_sorted(qp, l10, higher_first);
        lemma_merge_permutes(qp, l10, higher_first);
        lemma_merge_prefix(qp, l10, higher_first, 10);
        let f = fold_side(p, higher_first);
        assert(first_n(qp, 10) == first_ten(qp));
        assert(first_n(l10, 10) =~= l10);
        assert(first_ten(f) =~= f);
        assert(first_ten(l10) =~= l10);
        assert(first_n(q, 10) == first_ten(q));
        assert(first_n(merge_views(first_n(qp, 10), first_n(l10, 10), higher_first), 10)
            == first_ten(merge_views(first_ten(f), first_ten(l), higher_first)));
        q
    }
}

/// A level among the first ten of an exchange on a side is in its union.
proof fn lemma_tens_union_contains(s: Seq<(Seq<char>, Seq<LevelView>)>, i: int, j: int)
    requires
        0 <= i < s.len(),
        0 <= j < first_ten(s[i].1).len(),
    ensures
        tens_union(s).count(first_ten(s[i].1)[j]) > 0,
    decreases s.len(),
{
    broadcast use vstd::seq_lib::group_to_multiset_ensures;
    broadcast use vstd::multiset::group_multiset_axioms;

    let x = first_ten(s[i].1)[j];
    if i == s.len() - 1 {
        assert(first_ten(s.last().1).contains(x));
    } else {
        assert(s.drop_last()[i] == s[i]);
        lemma_tens_union_contains(s.drop_last(), i, j);
    }
}

/// The first ten levels of an exchange on a side are, counted with their
/// repeats, part of the union.
proof fn lemma_tens_union_includes(s: Seq<(Seq<char>, Seq<LevelView>)>, i: int)
    requires
        0 <= i < s.len(),
    ensures
        first_ten(s[i].1).to_multiset().subset_of(tens_union(s)),
    decreases s.len(),
{
    broadcast use vstd::multiset::group_multiset_axioms;

    if i < s.len() - 1 {
        assert(s.drop_last()[i] == s[i]);
        lemma_tens_union_includes(s.drop_last(), i);
    }
}

/// When every exchange's levels on a side are in merge order, a level that
/// an exchange holds beyond its first ten comes, in merge order, after the
/// tenth level of the merged side.
proof fn lemma_beyond_ten(s: Seq<(Seq<char>, Seq<LevelView>)>, higher_first: bool, i: int, j: int)
    requires
        entries_sorted(s, higher_first),
        0 <= i < s.len(),
        10 <= j < s[i].1.len(),
    ensures
        fold_side(s, higher_first).len() == 10,
        in_order(fold_side(s, higher_first)[9], s[i].1[j], higher_first),
{
    broadcast use vstd::seq_lib::group_to_multiset_ensures;
    broadcast use vstd::multiset::group_multiset_axioms;

    lemma_fold_best_ten(s, higher_first);
    lemma_tens_union_includes(s, i);
    let l = s[i].1;
    let t = first_ten(l);
    let fm = t.to_multiset();
    let f = fold_side(s, higher_first);
    let bm = f.to_multiset();
    let u = tens_union(s);
    assert(t.len() == 10);
    assert(fm.len() == 10);
    assert(u.len() >= 10) by {
        assert((u.sub(fm)).len() == u.len() - fm.len());
    }
    assert(f.len() == 10);
    assert(sorted_side(l, higher_first));
    if !in_order(f[9], l[j], higher_first) {
        assert forall|k: int| 0 <= k < 10 implies !in_order(f[9], #[trigger] t[k], higher_first) by {
            assert(t[k] == l[k]);
            assert(in_order(l[k], l[j], higher_first));
        }
        assert forall|x: LevelView| fm.count(x) > 0 implies fm.count(x) <= bm.count(x) by {
            assert(t.contains(x));
            let k = choose|k: int| 0 <= k < t.len() && t[k] == x;
            assert(!in_order(f[9], t[k], higher_first));
            assert(u.count(x) <= bm.count(x));
        }
        let g = fm.insert(f[9]);
        assert(fm.count(f[9]) == 0) by {
            if fm.count(f[9]) > 0 {
                assert(t.contains(f[9]));
                let k = choose|k: int| 0 <= k < t.len() && t[k] == f[9];
                assert(!in_order(f[9], t[k], higher_first));
            }
        }
        assert(bm.count(f[9]) > 0) by {
            assert(f.contains(f[9]));
        }
        assert(g.subset_of(bm)) by {
            assert forall|x: LevelView| g.count(x) <= bm.count(x) by {
                if x != f[9] && fm.count(x) > 0 {
                    assert(fm.count(x) <= bm.count(x));
                }
            }
        }
        assert(g.len() == 11);
        assert((bm.sub(g)).len() == bm.len() - g.len());
        assert(bm.len() == 10);
        assert(false);
    }
}

/// When every exchange's levels on a side are in merge order, the merged
/// side holds the best ten of their first tens: it is in merge order, holds
/// only levels of the first tens, every level of the first tens that it
/// leaves out comes, in merge order, after its tenth level, and its first
/// level comes before or with every level of every exchange on the side.
pub proof fn lemma_fold_best_ten(s: Seq<(Seq<char>, Seq<LevelView>)>, higher_first: bool)
    requires
        entries_sorted(s, higher_first),
    ensures
        ({
            let f = fold_side(s, higher_first);
            let u = tens_union(s);
            &&& sorted_side(f, higher_first)
            &&& f.len() == (if u.len() <= 10 { u.len() } else { 10 })
            &&& f.to_multiset().subset_of(u)
            &&& forall|x: LevelView| u.count(x) > f.to_multiset().count(x)
                ==> f.len() == 10 && in_order(f[9], x, higher_first)
            &&& f.len() > 0 ==> forall|i: int, j: int| 0 <= i < s.len() && 0 <= j < s[i].1.len()
                ==> in_order(f[0], #[trigger] s[i].1[j], higher_first)
        }),
{
    broadcast use vstd::seq_lib::lemma_multiset_commutative;
    broadcast use vstd::seq_lib::group_to_multiset_ensures;
    broadcast use vstd::multiset::group_multiset_axioms;

    let q = lemma_fold_is_prefix(s, higher_first);
    let f = fold_side(s, higher_first);
    let u = tens_union(s);
    if q.len() <= 10 {
        assert(f == q);
    } else {
        let rest = q.skip(10);
        assert(q =~= f + rest);
        assert(q.to_multiset() == f.to_multiset().add(rest.to_multiset()));
        assert forall|i: int, j: int| 0 <= i < j < f.len() implies in_order(f[i], f[j], higher_first) by {
            assert(f[i] == q[i] && f[j] == q[j]);
        }
        assert forall|x: LevelView| u.count(x) > f.to_multiset().count(x)
            implies f.len() == 10 && in_order(f[9], x, higher_first) by {
            assert(rest.to_multiset().count(x) > 0);
            assert(rest.contains(x));
            let k = choose|k: int| 0 <= k < rest.len() && rest[k] == x;
            assert(q[10 + k] == x);
            assert(f[9] == q[9]);
        }
    }
    if f.len() > 0 {
        assert forall|i: int, j: int| 0 <= i < s.len() && 0 <= j < s[i].1.len()
            implies in_order(f[0], #[trigger] s[i].1[j], higher_first) by {
            assert(sorted_side(s[i].1, higher_first));
            let h = first_ten(s[i].1)[0];
            assert(h == s[i].1[0]);
            lemma_tens_union_contains(s, i, 0);
            assert(q.to_multiset().count(h) > 0);
            assert(q.contains(h));
            let k = choose|k: int| 0 <= k < q.len() && q[k] == h;
            assert(f[0] == q[0]);
            if k > 0 {
                assert(in_order(q[0], q[k], higher_first));
            }
            if j > 0 {
                assert(in_order(s[i].1[0], s[i].1[j], higher_first));
            }
        }
    }
}

/// The summary of a merger whose exchanges each sent their bids highest
/// first and their asks lowest first holds the best ten bids and the best ten
/// asks over all exchanges: every level that it leaves out, among the first
/// ten of an exchange or beyond them, is priced no better than its tenth.
/// Its spread is the best ask less the best bid (held to the range of
/// `i128`).
pub proof fn lemma_summary_best(m: MergerView, r: OrderbookResult<Summary>)
    requires
        summary_matches(m, r),
        entries_sorted(m.bids, true),
        entries_sorted(m.asks, false),
    ensures
        r matches Ok(s) ==> {
            &&& sorted_side(levels_view(s.bids@), true)
            &&& sorted_side(levels_view(s.asks@), false)
            &&& levels_view(s.bids@).to_multiset().subset_of(tens_union(m.bids))
            &&& levels_view(s.asks@).to_multiset().subset_of(tens_union(m.asks))
            &&& forall|x: LevelView| tens_union(m.bids).count(x) > levels_view(s.bids@).to_multiset().count(x)
                ==> s.bids@.len() == 10 && x.price <= s.bids@[9].price
            &&& forall|x: LevelView| tens_union(m.asks).count(x) > levels_view(s.asks@).to_multiset().count(x)
                ==> s.asks@.len() == 10 && x.price >= s.asks@[9].price
            &&& forall|i: int, j: int| 0 <= i < m.bids.len() && 0 <= j < m.bids[i].1.len()
                ==> #[trigger] m.bids[i].1[j].price <= s.bids@[0].price
            &&& forall|i: int, j: int| 0 <= i < m.asks.len() && 0 <= j < m.asks[i].1.len()
                ==> #[trigger] m.asks[i].1[j].price >= s.asks@[0].price
            &&& (exists|i: int| 0 <= i < m.bids.len() && #[trigger] m.bids[i].1.len() > 10) ==> s.bids@.len() == 10
            &&& (exists|i: int| 0 <= i < m.asks.len() && #[trigger] m.asks[i].1.len() > 10) ==> s.asks@.len() == 10
            &&& forall|i: int, j: int| 0 <= i < m.bids.len() && 10 <= j < m.bids[i].1.len()
                ==> #[trigger] m.bids[i].1[j].price <= s.bids@[9].price
            &&& forall|i: int, j: int| 0 <= i < m.asks.len() && 10 <= j < m.asks[i].1.len()
                ==> #[trigger] m.asks[i].1[j].price >= s.asks@[9].price
            &&& s.spread == saturate(s.asks@[0].price - s.bids@[0].price)
        },
{
    lemma_fold_best_ten(m.bids, true);
    lemma_fold_best_ten(m.asks, false);
    if r is Ok {
        let s = r->Ok_0;
        let b = levels_view(s.bids@);
        let a = levels_view(s.asks@);
        assert(b == merged_bids(m) && a == merged_asks(m));
        assert(b[0] == s.bids@[0]@);
        assert(a[0] == s.asks@[0]@);
        assert forall|x: LevelView| tens_union(m.bids).count(x) > b.to_multiset().count(x)
            implies s.bids@.len() == 10 && x.price <= s.bids@[9].price by {
            assert(in_order(b[9], x, true));
            assert(b[9] == s.bids@[9]@);
        }
        assert forall|x: LevelView| tens_union(m.asks).count(x) > a.to_multiset().count(x)
            implies s.asks@.len() == 10 && x.price >= s.asks@[9].price by {
            assert(in_order(a[9], x, false));
            assert(a[9] == s.asks@[9]@);
        }
        assert forall|i: int, j: int| 0 <= i < m.bids.len() && 0 <= j < m.bids[i].1.len()
            implies #[trigger] m.bids[i].1[j].price <= s.bids@[0].price by {
            assert(in_order(b[0], m.bids[i].1[j], true));
        }
        assert forall|i: int, j: int| 0 <= i < m.asks.len() && 0 <= j < m.asks[i].1.len()
            implies #[trigger] m.asks[i].1[j].price >= s.asks@[0].price by {
            assert(in_order(a[0], m.asks[i].1[j], false));
        }
        if exists|i: int| 0 <= i < m.bids.len() && #[trigger] m.bids[i].1.len() > 10 {
            let i = choose|i: int| 0 <= i < m.bids.len() && #[trigger] m.bids[i].1.len() > 10;
            lemma_beyond_ten(m.bids, true, i, 10);
        }
        if exists|i: int| 0 <= i < m.asks.len() && #[trigger] m.asks[i].1.len() > 10 {
            let i = choose|i: int| 0 <= i < m.asks.len() && #[trigger] m.asks[i].1.len() > 10;
            lemma_beyond_ten(m.asks, false, i, 10);
        }
        assert forall|i: int, j: int| 0 <= i < m.bids.len() && 10 <= j < m.bids[i].1.len()
            implies #[trigger] m.bids[i].1[j].price <= s.bids@[9].price by {
            lemma_beyond_ten(m.bids, true, i, j);
            assert(b.len() == s.bids@.len());
            assert(b[9] == s.bids@[9]@);
        }
        assert forall|i: int, j: int| 0 <= i < m.asks.len() && 10 <= j < m.asks[i].1.len()
            implies #[trigger] m.asks[i].1[j].price >= s.asks@[9].price by {
            lemma_beyond_ten(m.asks, false, i, j);
            assert(a.len() == s.asks@.len());
            assert(a[9] == s.asks@[9]@);
        }
    }
}

} // verus!
