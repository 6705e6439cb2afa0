//! An order book of one exchange: the amount traded at each price level.
use vstd::prelude::*;
use crate::named::{lemma_named_map_len, lemma_named_map_push, lemma_without_name, named_map, names_distinct, without_name};

verus! {

/// An amount, as a fixed-point value (units of 10^-18).
pub type TradedValue = i128;

/// A price level, as the text the exchange sends.
pub type PriceLevel = String;

/// The amount at each price level; a level with nothing left is not held.
pub struct Orderbook {
    data: Vec<(PriceLevel, TradedValue)>,
}

pub open spec fn entries_view(s: Seq<(PriceLevel, TradedValue)>) -> Seq<(Seq<char>, i128)> {
    s.map_values(|e: (PriceLevel, TradedValue)| (e.0@, e.1))
}

impl View for Orderbook {
    type V = Map<Seq<char>, i128>;

    closed spec fn view(&self) -> Map<Seq<char>, i128> {
        named_map(entries_view(self.data@))
    }
}

/// The entries whose level is not `level`, in their order.
fn remove_level(entries: Vec<(PriceLevel, TradedValue)>, level: &String) -> (r: Vec<(PriceLevel, TradedValue)>)
    ensures
        entries_view(r@) == without_name(entries_view(entries@), level@),
{
    let ghost orig = entries_view(entries@);
    let mut rest = entries;
    let mut kept: Vec<(PriceLevel, TradedValue)> = Vec::new();
    let ghost mut k: int = 0;
    assert(orig.take(0) =~= Seq::<(Seq<char>, i128)>::empty());
    while rest.len() > 0
        invariant
            0 <= k <= orig.len(),
            entries_view(rest@) == orig.skip(k),
            entries_view(kept@) == without_name(orig.take(k), level@),
        decreases rest.len(),
    {
        let ghost before = rest@;
        let e = rest.remove(0);
        proof {
            assert(entries_view(before).len() == before.len());
            assert(k < orig.len());
            assert(orig[k] == (e.0@, e.1)) by {
                assert(entries_view(before)[0] == orig.skip(k)[0]);
            }
            assert(orig.take(k + 1).drop_last() =~= orig.take(k));
            assert forall|j: int| 0 <= j < rest@.len() implies entries_view(rest@)[j] == orig.skip(k + 1)[j] by {
                assert(rest@[j] == before[j + 1]);
                assert(entries_view(before)[j + 1] == orig.skip(k)[j + 1]);
            }
            assert(entries_view(rest@) =~= orig.skip(k + 1));
        }
        if e.0 == *level {
        } else {
            kept.push(e);
            assert(entries_view(kept@) =~= without_name(orig.take(k), level@).push(orig[k]));
        }
        proof {
            k = k + 1;
        }
    }
    assert(orig.take(k) =~= orig);
    kept
}

impl Orderbook {
    /// No level is held twice.
    #[verifier::type_invariant]
    closed spec fn wf(&self) -> bool {
        names_distinct(entries_view(self.data@))
    }

    /// An order book that holds no level.
    pub fn new() -> (r: Self)
        ensures
            r@ == Map::<Seq<char>, i128>::empty(),
            r@.dom().finite(),
    {
        let r = Orderbook { data: Vec::new() };
        assert(entries_view(r.data@) =~= Seq::<(Seq<char>, i128)>::empty());
        r
    }

    /// How many price levels the book holds.
    pub fn get_amount(&self) -> (r: usize)
        ensures
            self@.dom().finite(),
            r == self@.len(),
    {
        proof {
            use_type_invariant(self);
            lemma_named_map_len(entries_view(self.data@));
        }
        self.data.len()
    }

    /// Sets the amount at `level` to `value`, or removes the level when
    /// `value` is zero.
    pub fn update_level(&mut self, level: PriceLevel, value: TradedValue)
        ensures
            final(self)@ == if value == 0 {
                old(self)@.remove(level@)
            } else {
                old(self)@.insert(level@, value)
            },
            old(self)@.dom().finite(),
            final(self)@.dom().finite(),
            final(self)@.len() == if value == 0 {
                if old(self)@.contains_key(level@) {
                    old(self)@.len() - 1
                } else {
                    old(self)@.len() as int
                }
            } else {
                if old(self)@.contains_key(level@) {
                    old(self)@.len() as int
                } else {
                    old(self)@.len() + 1int
                }
            },
    {
        broadcast use vstd::set::group_set_axioms;

        proof {
            use_type_invariant(&*self);
        }
        let ghost old_entries = entries_view(self.data@);
        proof {
            lemma_without_name(old_entries, level@);
            lemma_named_map_len(old_entries);
        }
        let mut data: Vec<(PriceLevel, TradedValue)> = Vec::new();
        std::mem::swap(&mut data, &mut self.data);
        let mut kept = remove_level(data, &level);
        if value != 0 {
            let ghost cleared = entries_view(kept@);
            let ghost name = level@;
            kept.push((level, value));
            proof {
                assert(entries_view(kept@) =~= cleared.push((name, value)));
                lemma_named_map_push(cleared, (name, value));
                let n = entries_view(kept@);
                assert forall|i: int, j: int| 0 <= i < j < n.len() implies #[trigger] n[i].0 != #[trigger] n[j].0 by {
                    if j == n.len() - 1 {
                        assert(n[i] == cleared[i]);
                    }
                }
            }
        }
        proof {
            lemma_named_map_len(entries_view(kept@));
        }
        self.data = kept;
    }
}

} // verus!
