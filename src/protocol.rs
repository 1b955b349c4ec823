//! Decisions of the peer protocol: height differences and the majority rule
//! that picks which chain length to download.
use vstd::prelude::*;

verus! {

/// How many responses equal `x`.
pub open spec fn count_of(s: Seq<i64>, x: i64) -> nat
    decreases s.len(),
{
    if s.len() == 0 {
        0
    } else {
        count_of(s.drop_last(), x) + if s.last() == x {
            1nat
        } else {
            0nat
        }
    }
}

/// `local_height − peer_height`, the answer to a height query.
pub fn height_difference(local_height: u64, peer_height: u32) -> (r: i128)
    ensures
        r == local_height as int - peer_height as int,
{
    local_height as i128 - peer_height as i128
}

fn count_in(s: &Vec<i64>, x: i64) -> (r: usize)
    ensures
        r == count_of(s@, x),
{
    let mut c: usize = 0;
    let mut i: usize = 0;
    while i < s.len()
        invariant
            i <= s@.len(),
            c == count_of(s@.subrange(0, i as int), x),
            c <= i,
        decreases s@.len() - i,
    {
        assert(s@.subrange(0, i + 1).drop_last() =~= s@.subrange(0, i as int));
        if s[i] == x {
            c += 1;
        }
        i += 1;
    }
    assert(s@.subrange(0, s@.len() as int) =~= s@);
    c
}

/// The chain length to trust among the peers' answers: one held by a strict
/// majority where there is one, else one of the largest groups (the first
/// such answer). None when there are no answers.
pub fn select_majority_height(responses: &Vec<i64>) -> (r: Option<i64>)
    ensures
        r.is_none() == (responses@.len() == 0),
        r.is_some() ==> responses@.contains(r.unwrap()),
        r.is_some() ==> forall|x: i64| #[trigger] count_of(responses@, x) <= count_of(responses@, r.unwrap()),
{
    if responses.len() == 0 {
        return None;
    }
    let mut best = responses[0];
    let mut best_count = count_in(responses, best);
    let mut i: usize = 1;
    while i < responses.len()
        invariant
            1 <= i <= responses@.len(),
            responses@.contains(best),
            best_count == count_of(responses@, best),
            forall|j: int| 0 <= j < i ==> count_of(responses@, #[trigger] responses@[j]) <= best_count,
        decreases responses@.len() - i,
    {
        let c = count_in(responses, responses[i]);
        if c > best_count {
            best = responses[i];
            best_count = c;
        }
        i += 1;
    }
    proof {
        assert forall|x: i64| #[trigger] count_of(responses@, x) <= count_of(responses@, best) by {
            if !responses@.contains(x) {
                lemma_count_absent(responses@, x);
            } else {
                let j = choose|j: int| 0 <= j < responses@.len() && responses@[j] == x;
                assert(count_of(responses@, responses@[j]) <= best_count);
            }
        }
    }
    Some(best)
}

proof fn lemma_count_absent(s: Seq<i64>, x: i64)
    requires
        !s.contains(x),
    ensures
        count_of(s, x) == 0,
    decreases s.len(),
{
    if s.len() > 0 {
        assert(!s.drop_last().contains(x)) by {
            if s.drop_last().contains(x) {
                let j = choose|j: int| 0 <= j < s.drop_last().len() && s.drop_last()[j] == x;
                assert(s[j] == x);
            }
        }
        lemma_count_absent(s.drop_last(), x);
        assert(s[s.len() - 1] != x);
    }
}

/// The kinds of message that peers exchange.
#[derive(Clone, Copy, Debug, PartialEq, Eq, Structural)]
pub enum MessageKind {
    DiscoverNodes,
    NodeList,
    AskDifference,
    Difference,
    FetchBlock,
    NewBlock,
    FetchAllBlocks,
    AllBlocks,
    FetchUTXOs,
    UTXOs,
    FetchTemplate,
    Template,
    ValidateTemplate,
    TemplateValidity,
    SubmitTemplate,
    SubmitTransaction,
    NewTransaction,
}

/// Responses, which a node only expects to requests of its own.
pub open spec fn is_response(k: MessageKind) -> bool {
    k == MessageKind::NodeList || k == MessageKind::Difference || k == MessageKind::AllBlocks || k
        == MessageKind::UTXOs || k == MessageKind::Template || k == MessageKind::TemplateValidity
}

/// Messages whose content, once accepted, is passed on to other peers.
pub open spec fn is_gossip(k: MessageKind) -> bool {
    k == MessageKind::NewBlock || k == MessageKind::NewTransaction || k == MessageKind::SubmitTemplate
        || k == MessageKind::SubmitTransaction
}

/// Whether receiving `k` unasked closes the connection.
pub fn closes_connection(k: MessageKind) -> (r: bool)
    ensures
        r == is_response(k),
{
    match k {
        MessageKind::NodeList | MessageKind::Difference | MessageKind::AllBlocks | MessageKind::UTXOs
        | MessageKind::Template | MessageKind::TemplateValidity => true,
        _ => false,
    }
}

/// Whether an accepted `k` is broadcast to the other peers.
pub fn gossips_when_accepted(k: MessageKind) -> (r: bool)
    ensures
        r == is_gossip(k),
{
    match k {
        MessageKind::NewBlock | MessageKind::NewTransaction | MessageKind::SubmitTemplate
        | MessageKind::SubmitTransaction => true,
        _ => false,
    }
}

} // verus!
