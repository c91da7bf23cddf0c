//! The decisions of a price-streaming socket session: which symbols a client follows, how
//! its requests are answered, and which ticks it is sent.
use crate::investing::SymbolInDetail;
use crate::text::text_is;
use vstd::prelude::*;

verus! {

/// The (broker, symbol) pairs a session follows.
pub struct Subscriptions {
    pairs: Vec<(String, String)>,
}

/// The pairs as text.
pub open spec fn pair_views(pairs: Seq<(String, String)>) -> Seq<(Seq<char>, Seq<char>)> {
    pairs.map_values(|p: (String, String)| (p.0@, p.1@))
}

impl View for Subscriptions {
    type V = Set<(Seq<char>, Seq<char>)>;

    /// The followed pairs.
    closed spec fn view(&self) -> Set<(Seq<char>, Seq<char>)> {
        pair_views(self.pairs@).to_set()
    }
}

impl Subscriptions {
    /// Each pair is held once.
    pub closed spec fn wf(&self) -> bool {
        pair_views(self.pairs@).no_duplicates()
    }

    /// A session that follows nothing.
    pub fn new() -> (r: Self)
        ensures
            r.wf(),
            r@ == Set::<(Seq<char>, Seq<char>)>::empty(),
    {
        let r = Subscriptions { pairs: Vec::new() };
        proof {
            assert(pair_views(r.pairs@) =~= Seq::<(Seq<char>, Seq<char>)>::empty());
            assert(r@ =~= Set::<(Seq<char>, Seq<char>)>::empty());
        }
        r
    }

    /// Where the pair is held, if it is.
    fn position(&self, broker: &str, symbol: &str) -> (r: Option<usize>)
        ensures
            match r {
                Some(i) => i < self.pairs@.len() && pair_views(self.pairs@)[i as int] == (broker@, symbol@),
                None => !pair_views(self.pairs@).contains((broker@, symbol@)),
            },
    {
        let mut i: usize = 0;
        while i < self.pairs.len()
            invariant
                i <= self.pairs@.len(),
                forall|k: int| 0 <= k < i ==> pair_views(self.pairs@)[k] != (broker@, symbol@),
            decreases self.pairs@.len() - i,
        {
            if text_is(self.pairs[i].0.as_str(), broker) && text_is(self.pairs[i].1.as_str(), symbol) {
                return Some(i);
            }
            i = i + 1;
        }
        None
    }

    /// Whether the session follows the symbol of the broker.
    pub fn contains(&self, broker: &str, symbol: &str) -> (r: bool)
        requires
            self.wf(),
        ensures
            r == self@.contains((broker@, symbol@)),
    {
        match self.position(broker, symbol) {
            Some(i) => {
                proof {
                    assert(pair_views(self.pairs@).contains((broker@, symbol@)));
                }
                true
            },
            None => false,
        }
    }

    /// Follows the symbol of the broker; following it again changes nothing.
    pub fn insert(&mut self, broker: &str, symbol: &str)
        requires
            old(self).wf(),
        ensures
            final(self).wf(),
            final(self)@ == old(self)@.insert((broker@, symbol@)),
    {
        match self.position(broker, symbol) {
            Some(i) => {
                proof {
                    assert(pair_views(self.pairs@).contains((broker@, symbol@)));
                    assert(self@ =~= old(self)@.insert((broker@, symbol@)));
                }
            },
            None => {
                let ghost before = pair_views(self.pairs@);
                self.pairs.push((broker.to_owned(), symbol.to_owned()));
                proof {
                    assert(pair_views(self.pairs@) =~= before.push((broker@, symbol@)));
                    before.lemma_push_to_set_commute((broker@, symbol@));
                    assert(pair_views(self.pairs@).no_duplicates());
                }
            },
        }
    }

    /// Stops following the symbol of the broker.
    pub fn remove(&mut self, broker: &str, symbol: &str)
        requires
            old(self).wf(),
        ensures
            final(self).wf(),
            final(self)@ == old(self)@.remove((broker@, symbol@)),
    {
        match self.position(broker, symbol) {
            Some(i) => {
                let ghost before = pair_views(self.pairs@);
                self.pairs.remove(i);
                proof {
                    let after = pair_views(self.pairs@);
                    assert(after =~= before.remove(i as int));
                    assert forall|x: int, y: int| 0 <= x < after.len() && 0 <= y < after.len() && x != y implies after[x] != after[y] by {
                        let ox = if x < i { x } else { x + 1 };
                        let oy = if y < i { y } else { y + 1 };
                        assert(after[x] == before[ox] && after[y] == before[oy]);
                    }
                    assert forall|p: (Seq<char>, Seq<char>)| after.to_set().contains(p) <==> before.to_set().remove((broker@, symbol@)).contains(p) by {
                        if after.contains(p) {
                            let k = choose|k: int| 0 <= k < after.len() && after[k] == p;
                            let ok = if k < i { k } else { k + 1 };
                            assert(before[ok] == p);
                            assert(ok != i);
                        }
                        if before.contains(p) && p != (broker@, symbol@) {
                            let k = choose|k: int| 0 <= k < before.len() && before[k] == p;
                            assert(k != i);
                            let nk = if k < i { k } else { k - 1 };
                            assert(after[nk] == p);
                        }
                    }
                    assert(self@ =~= old(self)@.remove((broker@, symbol@)));
                }
            },
            None => {
                proof {
                    assert(self@ =~= old(self)@.remove((broker@, symbol@)));
                }
            },
        }
    }
}

/// What asking whether a broker is enabled gave.
pub enum BrokerCheck {
    Enabled,
    Disabled,
    /// The check failed, with this message.
    Failed(String),
}

/// The message for a broker that is not enabled.
pub open spec fn not_enabled_message(broker: Seq<char>) -> Seq<char> {
    "Broker '"@ + broker + "' is not enabled."@
}

/// Handles one symbol of a subscription, given whether its broker is enabled: an enabled
/// broker's symbol is followed; otherwise the symbol is not, and the client is told why.
pub fn subscribe_one(session: &mut Subscriptions, item: &SymbolInDetail, check: &BrokerCheck) -> (r: Option<String>)
    requires
        old(session).wf(),
    ensures
        final(session).wf(),
        match *check {
            BrokerCheck::Enabled => r is None && final(session)@ == old(session)@.insert((item.broker@, item.symbol@)),
            BrokerCheck::Disabled => (r matches Some(m) && m@ == not_enabled_message(item.broker@)) && final(session)@
                == old(session)@,
            BrokerCheck::Failed(e) => (r matches Some(m) && m@ == "Internal error: "@ + e@) && final(session)@
                == old(session)@,
        },
{
    match check {
        BrokerCheck::Enabled => {
            session.insert(item.broker.as_str(), item.symbol.as_str());
            None
        },
        BrokerCheck::Disabled => {
            let mut m = String::new();
            m.append("Broker '");
            m.append(item.broker.as_str());
            m.append("' is not enabled.");
            proof {
                assert(m@ =~= not_enabled_message(item.broker@));
            }
            Some(m)
        },
        BrokerCheck::Failed(e) => {
            let mut m = String::new();
            m.append("Internal error: ");
            m.append(e.as_str());
            Some(m)
        },
    }
}

/// Stops following each of the symbols.
pub fn unsubscribe(session: &mut Subscriptions, items: &Vec<SymbolInDetail>)
    requires
        old(session).wf(),
    ensures
        final(session).wf(),
        final(session)@ == old(session)@.difference(
            items@.map_values(|s: SymbolInDetail| (s.broker@, s.symbol@)).to_set(),
        ),
{
    let ghost gone = items@.map_values(|s: SymbolInDetail| (s.broker@, s.symbol@));
    let mut i: usize = 0;
    while i < items.len()
        invariant
            session.wf(),
            i <= items@.len(),
            gone == items@.map_values(|s: SymbolInDetail| (s.broker@, s.symbol@)),
            session@ == old(session)@.difference(gone.take(i as int).to_set()),
        decreases items@.len() - i,
    {
        session.remove(items[i].broker.as_str(), items[i].symbol.as_str());
        proof {
            assert(gone.take(i + 1) =~= gone.take(i as int).push(gone[i as int]));
            gone.take(i as int).lemma_push_to_set_commute(gone[i as int]);
            assert(session@ =~= old(session)@.difference(gone.take(i + 1).to_set()));
        }
        i = i + 1;
    }
    proof {
        assert(gone.take(i as int) =~= gone);
    }
}

/// Whether a tick of the symbol of the broker is sent to the session.
pub fn forwards(session: &Subscriptions, broker: &str, symbol: &str) -> (r: bool)
    requires
        session.wf(),
    ensures
        r == session@.contains((broker@, symbol@)),
{
    session.contains(broker, symbol)
}

/// A session forwards the ticks of a pair right after following it and stops right after
/// unfollowing it; following or unfollowing one pair leaves every other pair as it was.
pub proof fn lemma_follow_then_forward(
    followed: Set<(Seq<char>, Seq<char>)>,
    pair: (Seq<char>, Seq<char>),
    other: (Seq<char>, Seq<char>),
)
    ensures
        followed.insert(pair).contains(pair),
        !followed.remove(pair).contains(pair),
        other != pair ==> followed.insert(pair).contains(other) == followed.contains(other),
        other != pair ==> followed.remove(pair).contains(other) == followed.contains(other),
{
}

} // verus!
