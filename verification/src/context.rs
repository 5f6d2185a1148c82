//! Context manager.
//!
//! Fits the history of a session into the context window of a model:
//!
//! 1. The system prompt is always kept.
//! 2. The most recent user message is always kept.
//! 3. Over budget, the oldest user/assistant pair is dropped first. A pair is
//!    never split, so that no reply is left without its question.

use vstd::prelude::*;
use vstd::string::*;

use crate::model::engine;
use crate::model::engine::{ChatTurn, TurnView};
use crate::text;
use crate::text::decimal_of_signed;
use crate::types;
use crate::types::{Memory, Message, Role};

verus! {

/// How many tokens are left free for the reply where the caller does not say.
pub const DEFAULT_RESPONSE_BUDGET: u32 = 1024;

// ---------------------------------------------------------------------------
// Pairs
// ---------------------------------------------------------------------------

/// One message of a history with the number of its tokens.
pub struct Entry {
    pub role: Role,
    pub content: Seq<char>,
    pub tokens: int,
}

/// The entries of a counted history.
pub open spec fn entries(history: Seq<(ChatTurn, i64)>) -> Seq<Entry> {
    history.map_values(
        |p: (ChatTurn, i64)|
            Entry { role: p.0.role, content: p.0.content@, tokens: p.1 as int },
    )
}

/// A user message with what was said in reply to it.
#[derive(Debug)]
pub struct Pair {
    /// Positions of the messages in the history.
    pub indices: Vec<usize>,
    /// Tokens of these messages together.
    pub tokens: i128,
}

/// A pair with its positions as integers.
pub struct PairView {
    pub indices: Seq<int>,
    pub tokens: int,
}

impl View for Pair {
    type V = PairView;

    open spec fn view(&self) -> PairView {
        PairView {
            indices: self.indices@.map_values(|i: usize| i as int),
            tokens: self.tokens as int,
        }
    }
}

/// The pairs of a list.
pub open spec fn pair_views(pairs: Seq<Pair>) -> Seq<PairView> {
    pairs.map_values(|p: Pair| p@)
}

/// Some message of the history comes from the user.
pub open spec fn has_user(h: Seq<Entry>) -> bool {
    exists|i: int| 0 <= i < h.len() && (#[trigger] h[i]).role == Role::User
}

/// The pair made of the message at position `i` alone.
pub open spec fn lone_pair(h: Seq<Entry>, i: int) -> PairView {
    PairView { indices: seq![i], tokens: h[i].tokens }
}

/// The history in pairs. A user message starts a pair, and what follows it belongs
/// to that pair until the next user message. What was said before the first user
/// message stands alone, and system messages belong to no pair.
pub open spec fn pairs_of(h: Seq<Entry>) -> Seq<PairView>
    decreases h.len(),
{
    if h.len() == 0 {
        Seq::empty()
    } else {
        let before = pairs_of(h.drop_last());
        let i = h.len() - 1;
        match h.last().role {
            Role::System => before,
            Role::User => before.push(lone_pair(h, i)),
            _ => if has_user(h.drop_last()) {
                before.drop_last().push(
                    PairView {
                        indices: before.last().indices.push(i),
                        tokens: before.last().tokens + h[i].tokens,
                    },
                )
            } else {
                before.push(lone_pair(h, i))
            },
        }
    }
}

/// How many messages the pairs of a list hold.
pub open spec fn pairs_len(pairs: Seq<PairView>) -> nat
    decreases pairs.len(),
{
    if pairs.len() == 0 {
        0
    } else {
        pairs_len(pairs.drop_last()) + pairs.last().indices.len()
    }
}

/// The bound on the tokens of a single message.
pub open spec fn token_bound() -> int {
    0x8000_0000_0000_0000
}

/// The pairs hold no more than the history does, and their token numbers stay
/// within what that many messages can have.
pub open spec fn pairs_bounded(h: Seq<Entry>, pairs: Seq<PairView>) -> bool {
    &&& pairs_len(pairs) <= h.len()
    &&& forall|k: int|
        0 <= k < pairs.len() ==> {
            &&& (#[trigger] pairs[k]).indices.len() >= 1
            &&& -(token_bound() * pairs[k].indices.len()) <= pairs[k].tokens <= token_bound()
                * pairs[k].indices.len()
            &&& forall|j: int|
                0 <= j < pairs[k].indices.len() ==> 0 <= #[trigger] pairs[k].indices[j] < h.len()
        }
}

/// The history holds token numbers that a machine word can hold.
pub open spec fn tokens_bounded(h: Seq<Entry>) -> bool {
    forall|i: int| 0 <= i < h.len() ==> -token_bound() <= (#[trigger] h[i]).tokens < token_bound()
}

proof fn lemma_pairs_bounded(h: Seq<Entry>)
    requires
        tokens_bounded(h),
    ensures
        pairs_bounded(h, pairs_of(h)),
        has_user(h) ==> pairs_of(h).len() > 0,
    decreases h.len(),
{
    if h.len() > 0 {
        let g = h.drop_last();
        assert forall|i: int| 0 <= i < g.len() implies -token_bound() <= (#[trigger] g[i]).tokens
            < token_bound() by {
            assert(g[i] == h[i]);
        }
        lemma_pairs_bounded(g);
        let before = pairs_of(g);
        let after = pairs_of(h);
        let i = h.len() - 1;
        assert(h[i].tokens == h.last().tokens);
        lemma_has_user(h);
        match h.last().role {
            Role::System => {},
            Role::User => {
                assert(after.drop_last() =~= before);
            },
            _ => {
                if has_user(g) {
                    assert(after.drop_last() =~= before.drop_last());
                } else {
                    assert(after.drop_last() =~= before);
                }
            },
        }
        assert forall|k: int| 0 <= k < after.len() implies {
            &&& (#[trigger] after[k]).indices.len() >= 1
            &&& -(token_bound() * after[k].indices.len()) <= after[k].tokens <= token_bound()
                * after[k].indices.len()
            &&& forall|j: int|
                0 <= j < after[k].indices.len() ==> 0 <= #[trigger] after[k].indices[j] < h.len()
        } by {
            if k < before.len() - 1 || k < after.len() - 1 {
                assert(after[k] == before[k]);
            } else if h.last().role is System {
                assert(after[k] == before[k]);
            } else if h.last().role !is User && has_user(g) {
                let b = before.last();
                assert(b == before[before.len() - 1]);
                assert forall|j: int| 0 <= j < after[k].indices.len() implies 0
                    <= #[trigger] after[k].indices[j] < h.len() by {
                    if j < b.indices.len() {
                        assert(after[k].indices[j] == b.indices[j]);
                    }
                }
            }
        }
    }
}

/// Whether a history has a user message is settled by its last message and the
/// rest.
proof fn lemma_has_user(h: Seq<Entry>)
    requires
        h.len() > 0,
    ensures
        has_user(h) <==> has_user(h.drop_last()) || h.last().role == Role::User,
{
    let g = h.drop_last();
    if has_user(g) {
        let i = choose|i: int| 0 <= i < g.len() && (#[trigger] g[i]).role == Role::User;
        assert(h[i] == g[i]);
    }
    if h.last().role == Role::User {
        assert(h[h.len() - 1].role == Role::User);
    }
    if has_user(h) {
        let i = choose|i: int| 0 <= i < h.len() && (#[trigger] h[i]).role == Role::User;
        if i < g.len() {
            assert(g[i] == h[i]);
        }
    }
}

/// Groups the messages of a history into pairs. A user message without a reply is
/// a pair of its own.
pub fn group_into_pairs(history: &[(ChatTurn, i64)]) -> (pairs: Vec<Pair>)
    ensures
        pair_views(pairs@) == pairs_of(entries(history@)),
{
    let ghost h = entries(history@);
    let mut pairs: Vec<Pair> = Vec::new();
    let mut open = false;
    let mut i: usize = 0;
    assert(h.take(0) =~= Seq::<Entry>::empty());
    assert(pair_views(pairs@) =~= Seq::<PairView>::empty());
    while i < history.len()
        invariant
            i <= history.len(),
            h == entries(history@),
            pair_views(pairs@) == pairs_of(h.take(i as int)),
            open == has_user(h.take(i as int)),
        decreases history.len() - i,
    {
        let ghost head = h.take(i + 1);
        let ghost before = pairs@;
        proof {
            assert(head.drop_last() =~= h.take(i as int));
            lemma_has_user(head);
            assert forall|k: int| 0 <= k < h.take(i as int).len() implies -token_bound() <= (
            #[trigger] h.take(i as int)[k]).tokens < token_bound() by {
                assert(h.take(i as int)[k] == h[k]);
            }
            lemma_pairs_bounded(h.take(i as int));
        }
        let role = history[i].0.role;
        let tokens = history[i].1;
        assert(head.last() == h[i as int]);
        match role {
            Role::System => {},
            Role::User => {
                pairs.push(Pair { indices: vec![i], tokens: tokens as i128 });
                open = true;
                proof {
                    assert(pairs@.last()@.indices =~= seq![i as int]);
                    assert(pair_views(pairs@) =~= pair_views(before).push(lone_pair(head, i as int)));
                }
            },
            Role::Assistant | Role::Tool => {
                if open {
                    assert(pair_views(pairs@).len() > 0);
                    let mut last = pairs.pop().unwrap();
                    let ghost b = last;
                    proof {
                        assert(pair_views(before)[before.len() - 1] == b@);
                        assert(b@.indices.len() == b.indices@.len());
                        lemma_pairs_len(pair_views(before), before.len() - 1);
                        assert(b.indices.len() <= i);
                    }
                    last.indices.push(i);
                    last.tokens = last.tokens + tokens as i128;
                    pairs.push(last);
                    proof {
                        assert(last@.indices =~= b@.indices.push(i as int));
                        assert(pair_views(pairs@) =~= pair_views(before).drop_last().push(last@));
                    }
                } else {
                    pairs.push(Pair { indices: vec![i], tokens: tokens as i128 });
                    proof {
                        assert(pairs@.last()@.indices =~= seq![i as int]);
                        assert(pair_views(pairs@) =~= pair_views(before).push(
                            lone_pair(head, i as int),
                        ));
                    }
                }
            },
        }
        i = i + 1;
    }
    assert(h.take(h.len() as int) =~= h);
    pairs
}

/// No pair holds more than all pairs together.
proof fn lemma_pairs_len(pairs: Seq<PairView>, k: int)
    requires
        0 <= k < pairs.len(),
    ensures
        pairs[k].indices.len() <= pairs_len(pairs),
    decreases pairs.len(),
{
    if k < pairs.len() - 1 {
        assert(pairs.drop_last()[k] == pairs[k]);
        lemma_pairs_len(pairs.drop_last(), k);
    }
}

/// The position of the last user message with no reply after it.
pub open spec fn trailing_user(h: Seq<Entry>) -> Option<int>
    decreases h.len(),
{
    if h.len() == 0 {
        None
    } else {
        match h.last().role {
            Role::User => Some(h.len() - 1),
            Role::System => trailing_user(h.drop_last()),
            _ => None,
        }
    }
}

/// Finds the trailing user message, the last one with no reply after it. It is the
/// message that the next generation answers.
pub fn trailing_user_index(history: &[(ChatTurn, i64)]) -> (r: Option<usize>)
    ensures
        match r {
            Some(i) => trailing_user(entries(history@)) == Some(i as int),
            None => trailing_user(entries(history@)) is None,
        },
{
    let ghost h = entries(history@);
    let mut i: usize = history.len();
    assert(h.take(i as int) =~= h);
    while i > 0
        invariant
            i <= history.len(),
            h == entries(history@),
            trailing_user(h.take(i as int)) == trailing_user(h),
        decreases i,
    {
        assert(h.take(i as int).last() == h[i - 1]);
        assert(h.take(i as int).drop_last() =~= h.take(i - 1));
        match history[i - 1].0.role {
            Role::User => {
                return Some(i - 1);
            },
            Role::Assistant | Role::Tool => {
                return None;
            },
            Role::System => {},
        }
        i = i - 1;
    }
    None
}

// ---------------------------------------------------------------------------
// The system block
// ---------------------------------------------------------------------------

/// What introduces the memories in the system block.
pub const MEMORIES_LEAD: &'static str = "The following facts about the user persist across all conversations. Honor them in every reply:\n";

/// Each memory on a line of its own.
pub open spec fn memory_lines(memories: Seq<Memory>) -> Seq<char>
    decreases memories.len(),
{
    if memories.len() == 0 {
        Seq::empty()
    } else {
        memory_lines(memories.drop_last()) + "- "@ + memories.last().content@ + "\n"@
    }
}

/// The memories with their lead, or nothing where there are none.
pub open spec fn memory_block(memories: Seq<Memory>) -> Seq<char> {
    if memories.len() == 0 {
        Seq::empty()
    } else {
        MEMORIES_LEAD@ + memory_lines(memories)
    }
}

/// The system block of a prompt: the preamble at the top, the memories below it
/// and the prompt of the session last, so that it can refine what is above.
pub open spec fn system_block(
    preamble: Seq<char>,
    memories: Seq<Memory>,
    prompt: Option<Seq<char>>,
) -> Seq<char> {
    let head = preamble + memory_block(memories);
    match prompt {
        Some(p) => if head.len() > 0 {
            head + "\n"@ + p
        } else {
            p
        },
        None => head,
    }
}

// ---------------------------------------------------------------------------
// Fitting
// ---------------------------------------------------------------------------

/// The history with its token numbers: the stored one where there is one, else
/// the one that the engine counted.
pub open spec fn counted(history: Seq<Message>, counts: Seq<usize>) -> Seq<Entry> {
    Seq::new(
        history.len(),
        |i: int|
            Entry {
                role: history[i].role,
                content: history[i].content@,
                tokens: if history[i].token_count > 0 {
                    history[i].token_count as int
                } else {
                    capped(counts[i])
                },
            },
    )
}

/// A message has no token number stored with it, so that the engine has to count.
pub open spec fn needs_count(m: Message) -> bool {
    m.token_count <= 0
}

/// The tokens that a prompt may have.
pub open spec fn prompt_budget(context_length: u32, response_budget: Option<u32>) -> int {
    let reply = match response_budget {
        Some(n) => n,
        None => DEFAULT_RESPONSE_BUDGET,
    };
    if context_length >= reply {
        context_length - reply
    } else {
        0
    }
}

/// How many of the newest pairs are kept: one after the other from the newest on,
/// for as long as they fit into `room`.
pub open spec fn kept(pairs: Seq<PairView>, room: int) -> nat
    decreases pairs.len(),
{
    if pairs.len() == 0 || pairs.last().tokens > room {
        0
    } else {
        1 + kept(pairs.drop_last(), room - pairs.last().tokens)
    }
}

/// How many pairs at the newest end are kept whatever they cost: the one of the
/// most recent user message.
pub open spec fn pinned(h: Seq<Entry>) -> int {
    if has_user(h) {
        1
    } else {
        0
    }
}

/// The pairs that are kept only if they fit.
pub open spec fn older_pairs(h: Seq<Entry>) -> Seq<PairView> {
    pairs_of(h).take(pairs_of(h).len() - pinned(h))
}

/// The tokens that are spent whatever the history: the system block and the pair
/// of the most recent user message.
pub open spec fn fixed_cost(system: Seq<char>, system_tokens: int, h: Seq<Entry>) -> int {
    (if system.len() > 0 {
        system_tokens
    } else {
        0
    }) + (if has_user(h) {
        pairs_of(h).last().tokens
    } else {
        0
    })
}

/// How many of the oldest pairs are dropped.
pub open spec fn dropped(system: Seq<char>, system_tokens: int, h: Seq<Entry>, budget: int) -> int {
    let older = older_pairs(h);
    older.len() - kept(older, budget - fixed_cost(system, system_tokens, h))
}

/// The turns at the positions of a list.
pub open spec fn turns_at(h: Seq<Entry>, indices: Seq<int>) -> Seq<TurnView> {
    indices.map_values(|i: int| TurnView { role: h[i].role, content: h[i].content })
}

/// The turns of a list of pairs, in order.
pub open spec fn turns_of(h: Seq<Entry>, pairs: Seq<PairView>) -> Seq<TurnView>
    decreases pairs.len(),
{
    if pairs.len() == 0 {
        Seq::empty()
    } else {
        turns_of(h, pairs.drop_last()) + turns_at(h, pairs.last().indices)
    }
}

/// The turn that carries the system block, where there is one.
pub open spec fn system_turn(system: Seq<char>) -> Seq<TurnView> {
    if system.len() > 0 {
        seq![TurnView { role: Role::System, content: system }]
    } else {
        Seq::empty()
    }
}

/// What is sent to the model: the system block and the newest pairs that fit.
pub open spec fn fitted(
    system: Seq<char>,
    system_tokens: int,
    h: Seq<Entry>,
    budget: int,
) -> Seq<TurnView> {
    system_turn(system) + turns_of(
        h,
        pairs_of(h).skip(dropped(system, system_tokens, h, budget)),
    )
}

/// The history and the memories that a prompt is built from.
pub struct ContextManager<'a> {
    pub history: &'a Vec<Message>,
    pub memories: &'a Vec<Memory>,
}

/// Copies the turns at the positions of a pair.
fn push_turns(out: &mut Vec<ChatTurn>, history: &Vec<(ChatTurn, i64)>, indices: &Vec<usize>)
    requires
        forall|j: int| 0 <= j < indices@.len() ==> (#[trigger] indices@[j]) < history@.len(),
    ensures
        engine::turn_views(final(out)@) == engine::turn_views(old(out)@) + turns_at(
            entries(history@),
            indices@.map_values(|i: usize| i as int),
        ),
{
    let ghost h = entries(history@);
    let ghost all = indices@.map_values(|i: usize| i as int);
    let ghost start = engine::turn_views(out@);
    let mut j: usize = 0;
    assert(start + turns_at(h, all.take(0)) =~= start);
    while j < indices.len()
        invariant
            j <= indices@.len(),
            h == entries(history@),
            all == indices@.map_values(|i: usize| i as int),
            forall|k: int| 0 <= k < indices@.len() ==> (#[trigger] indices@[k]) < history@.len(),
            engine::turn_views(out@) == start + turns_at(h, all.take(j as int)),
        decreases indices@.len() - j,
    {
        let ghost before = out@;
        let at = indices[j];
        out.push(ChatTurn { role: history[at].0.role, content: history[at].0.content.clone() });
        proof {
            assert(engine::turn_views(out@) =~= engine::turn_views(before).push(out@.last()@));
            assert(turns_at(h, all.take(j + 1)) =~= turns_at(h, all.take(j as int)).push(
                TurnView { role: h[at as int].role, content: h[at as int].content },
            ));
            assert(engine::turn_views(out@) =~= start + turns_at(h, all.take(j + 1)));
        }
        j = j + 1;
    }
    assert(all.take(all.len() as int) =~= all);
}

/// How many of the first `older` pairs are dropped so that the rest of them fits
/// into `room`.
fn first_kept(pairs: &Vec<Pair>, older: usize, room: i128) -> (r: usize)
    requires
        older <= pairs@.len(),
        forall|k: int| 0 <= k < pairs@.len() ==> 0 <= (#[trigger] pairs@[k]).tokens,
    ensures
        r <= older,
        r == older - kept(pair_views(pairs@).take(older as int), room as int),
{
    let ghost all = pair_views(pairs@);
    let mut at: usize = older;
    let mut left: i128 = room;
    while at > 0 && pairs[at - 1].tokens <= left
        invariant
            at <= older <= pairs@.len(),
            all == pair_views(pairs@),
            forall|k: int| 0 <= k < pairs@.len() ==> 0 <= (#[trigger] pairs@[k]).tokens,
            older - kept(all.take(older as int), room as int) == at - kept(
                all.take(at as int),
                left as int,
            ),
        decreases at,
    {
        assert(all.take(at as int).last() == pairs@[at - 1]@);
        assert(all.take(at as int).drop_last() =~= all.take(at - 1));
        left = left - pairs[at - 1].tokens;
        at = at - 1;
    }
    assert(at > 0 ==> all.take(at as int).last() == pairs@[at - 1]@);
    at
}

/// A number of tokens, as far as a machine word holds it.
pub open spec fn capped(n: usize) -> int {
    if n > i64::MAX {
        i64::MAX as int
    } else {
        n as int
    }
}

/// A number of tokens, as far as a machine word holds it.
pub fn cap(n: usize) -> (r: i64)
    ensures
        r == capped(n),
{
    if n as u64 > i64::MAX as u64 {
        i64::MAX
    } else {
        n as i64
    }
}

impl<'a> ContextManager<'a> {
    pub fn new(history: &'a Vec<Message>, memories: &'a Vec<Memory>) -> (cm: Self)
        ensures
            cm.history == history,
            cm.memories == memories,
    {
        ContextManager { history, memories }
    }

    /// The system block of a prompt.
    pub fn system_text(&self, preamble: &str, prompt: &Option<String>) -> (out: String)
        ensures
            out@ == system_block(preamble@, self.memories@, types::optional_text(*prompt)),
    {
        let memories = self.memories;
        let mut out = preamble.to_owned();
        if memories.len() > 0 {
            out.append(MEMORIES_LEAD);
            let ghost lead = out@;
            let mut i: usize = 0;
            assert(memories@.take(0) =~= Seq::<Memory>::empty());
            assert(lead + memory_lines(memories@.take(0)) =~= lead);
            while i < memories.len()
                invariant
                    i <= memories@.len(),
                    out@ == lead + memory_lines(memories@.take(i as int)),
                decreases memories@.len() - i,
            {
                let ghost before = out@;
                assert(memories@.take(i + 1).drop_last() =~= memories@.take(i as int));
                out.append("- ");
                out.append(memories[i].content.as_str());
                out.append("\n");
                assert(out@ =~= lead + memory_lines(memories@.take(i + 1)));
                i = i + 1;
            }
            assert(memories@.take(memories@.len() as int) =~= memories@);
            assert(out@ =~= preamble@ + memory_block(memories@));
        } else {
            assert(out@ =~= preamble@ + memory_block(memories@));
        }
        if let Some(p) = prompt {
            if !out.as_str().is_empty() {
                out.append("\n");
                out.append(p.as_str());
            } else {
                out.append(p.as_str());
                assert(out@ =~= p@);
            }
        }
        out
    }

    /// The turns of the history with their token numbers.
    fn count(&self, counts: &Vec<usize>) -> (out: Vec<(ChatTurn, i64)>)
        requires
            counts@.len() == self.history@.len(),
        ensures
            entries(out@) == counted(self.history@, counts@),
    {
        let history = self.history;
        let mut out: Vec<(ChatTurn, i64)> = Vec::new();
        let mut i: usize = 0;
        while i < history.len()
            invariant
                i <= history@.len(),
                history == self.history,
                counts@.len() == history@.len(),
                out@.len() == i,
                forall|k: int|
                    0 <= k < i ==> entries(out@)[k] == #[trigger] counted(history@, counts@)[k],
            decreases history@.len() - i,
        {
            let stored = history[i].token_count;
            let tokens: i64 = if stored > 0 {
                stored
            } else {
                cap(counts[i])
            };
            let ghost before = out@;
            out.push(
                (ChatTurn { role: history[i].role, content: history[i].content.clone() }, tokens),
            );
            proof {
                assert(entries(out@) =~= entries(before).push(entries(out@)[i as int]));
            }
            i = i + 1;
        }
        assert(entries(out@) =~= counted(history@, counts@));
        out
    }

    /// Builds the turns of a prompt: the system block with `system` as its text,
    /// and as much of the history as fits into the context window beside it and the
    /// reply.
    ///
    /// `counts` holds, for each message, what the engine counted for it; it is used
    /// where the message has no token number of its own. Pairs are dropped from the
    /// oldest end first. The system block and the most recent user message are never
    /// dropped.
    pub fn build(
        &self,
        system: &str,
        system_tokens: usize,
        counts: &Vec<usize>,
        context_length: u32,
        response_budget: Option<u32>,
    ) -> (out: Vec<ChatTurn>)
        requires
            counts@.len() == self.history@.len(),
        ensures
            engine::turn_views(out@) == fitted(
                system@,
                capped(system_tokens),
                counted(self.history@, counts@),
                prompt_budget(context_length, response_budget),
            ),
    {
        let reply = match response_budget {
            Some(n) => n,
            None => DEFAULT_RESPONSE_BUDGET,
        };
        let budget: u32 = if context_length >= reply {
            context_length - reply
        } else {
            0
        };
        let history = self.count(counts);
        let ghost h = entries(history@);
        let pairs = group_into_pairs(history.as_slice());
        let ghost all = pair_views(pairs@);
        proof {
            lemma_pairs_bounded(h);
            lemma_pairs_nonnegative(h);
        }
        let pinned_pairs: usize = if any_user(&history) {
            1
        } else {
            0
        };
        let older = pairs.len() - pinned_pairs;
        let mut fixed: i128 = if system.is_empty() {
            0
        } else {
            cap(system_tokens) as i128
        };
        if pinned_pairs > 0 {
            proof {
                assert(all.last() == pairs@[pairs.len() - 1]@);
                lemma_pairs_len(all, all.len() - 1);
            }
            fixed = fixed + pairs[pairs.len() - 1].tokens;
        }
        proof {
            assert forall|k: int| 0 <= k < pairs@.len() implies 0 <= (#[trigger] pairs@[k]).tokens by {
                assert(all[k] == pairs@[k]@);
            }
        }
        let from = first_kept(&pairs, older, budget as i128 - fixed);
        let mut out: Vec<ChatTurn> = Vec::new();
        if !system.is_empty() {
            out.push(ChatTurn { role: Role::System, content: system.to_owned() });
        }
        assert(engine::turn_views(out@) =~= system_turn(system@));
        let mut k: usize = from;
        let ghost lead = system_turn(system@);
        assert(all.subrange(from as int, from as int) =~= Seq::<PairView>::empty());
        assert(lead + turns_of(h, all.subrange(from as int, from as int)) =~= lead);
        while k < pairs.len()
            invariant
                from <= k <= pairs@.len(),
                all == pair_views(pairs@),
                h == entries(history@),
                pairs_bounded(h, all),
                engine::turn_views(out@) == lead + turns_of(
                    h,
                    all.subrange(from as int, k as int),
                ),
            decreases pairs@.len() - k,
        {
            let ghost before = out@;
            let ghost upto = all.subrange(from as int, k + 1);
            proof {
                assert(all[k as int] == pairs@[k as int]@);
                assert(upto.last() == all[k as int]);
                assert(upto.drop_last() =~= all.subrange(from as int, k as int));
                let indices = pairs@[k as int].indices@;
                assert forall|j: int| 0 <= j < indices.len() implies (#[trigger] indices[j])
                    < history@.len() by {
                    assert(all[k as int].indices[j] == indices[j] as int);
                }
            }
            push_turns(&mut out, &history, &pairs[k].indices);
            assert(engine::turn_views(out@) =~= lead + turns_of(h, upto));
            k = k + 1;
        }
        assert(all.subrange(from as int, all.len() as int) =~= all.skip(from as int));
        out
    }
}

/// Tells whether some message of a history comes from the user.
fn any_user(history: &Vec<(ChatTurn, i64)>) -> (r: bool)
    ensures
        r == has_user(entries(history@)),
{
    let ghost h = entries(history@);
    let mut i: usize = 0;
    while i < history.len()
        invariant
            i <= history@.len(),
            h == entries(history@),
            forall|k: int| 0 <= k < i ==> (#[trigger] h[k]).role != Role::User,
        decreases history@.len() - i,
    {
        assert(h[i as int].role == history@[i as int].0.role);
        if history[i].0.role == Role::User {
            return true;
        }
        i = i + 1;
    }
    false
}

/// Pairs cost nothing less than nothing where messages do.
proof fn lemma_pairs_nonnegative(h: Seq<Entry>)
    requires
        forall|i: int| 0 <= i < h.len() ==> 0 <= (#[trigger] h[i]).tokens < token_bound(),
    ensures
        forall|k: int| 0 <= k < pairs_of(h).len() ==> 0 <= (#[trigger] pairs_of(h)[k]).tokens,
    decreases h.len(),
{
    if h.len() > 0 {
        let g = h.drop_last();
        assert forall|i: int| 0 <= i < g.len() implies 0 <= (#[trigger] g[i]).tokens
            < token_bound() by {
            assert(g[i] == h[i]);
        }
        lemma_pairs_nonnegative(g);
        lemma_pairs_bounded(g);
        assert(h[h.len() - 1].tokens >= 0);
        let before = pairs_of(g);
        let after = pairs_of(h);
        assert forall|k: int| 0 <= k < after.len() implies 0 <= (#[trigger] after[k]).tokens by {
            if k < before.len() - 1 || k < after.len() - 1 || h.last().role is System {
                assert(after[k] == before[k]);
            } else if before.len() > 0 {
                assert(before[before.len() - 1].tokens >= 0);
            }
        }
    }
}

// ---------------------------------------------------------------------------
// Asking the engine for token numbers
// ---------------------------------------------------------------------------

/// How many messages have no token number stored with them.
pub open spec fn missing(history: Seq<Message>) -> nat
    decreases history.len(),
{
    if history.len() == 0 {
        0
    } else if needs_count(history.last()) {
        missing(history.drop_last()) + 1
    } else {
        missing(history.drop_last())
    }
}

/// The texts of these messages, in order.
pub open spec fn missing_texts(history: Seq<Message>) -> Seq<Seq<char>>
    decreases history.len(),
{
    if history.len() == 0 {
        Seq::empty()
    } else if needs_count(history.last()) {
        missing_texts(history.drop_last()).push(history.last().content@)
    } else {
        missing_texts(history.drop_last())
    }
}

/// The texts that the engine has to count: the system block, where there is one, and
/// the messages without a token number.
pub open spec fn queries(system: Seq<char>, history: Seq<Message>) -> Seq<Seq<char>> {
    (if system.len() > 0 {
        seq![system]
    } else {
        Seq::empty()
    }) + missing_texts(history)
}

/// The answers for the messages, each at the position of its message.
pub open spec fn spread(history: Seq<Message>, answers: Seq<usize>) -> Seq<usize>
    decreases history.len(),
{
    if history.len() == 0 {
        Seq::empty()
    } else {
        let front = history.drop_last();
        spread(front, answers).push(
            if needs_count(history.last()) {
                answers[missing(front) as int]
            } else {
                0
            },
        )
    }
}

/// The turns of a prompt, given what the engine answered to the queries.
pub open spec fn answered(
    system: Seq<char>,
    history: Seq<Message>,
    answers: Seq<usize>,
    context_length: u32,
    response_budget: Option<u32>,
) -> Seq<TurnView> {
    let system_tokens = if system.len() > 0 {
        capped(answers[0])
    } else {
        0
    };
    let rest = if system.len() > 0 {
        answers.skip(1)
    } else {
        answers
    };
    fitted(
        system,
        system_tokens,
        counted(history, spread(history, rest)),
        prompt_budget(context_length, response_budget),
    )
}

/// A prompt in the making: what it is built from and what the engine has counted so
/// far.
pub struct BuilderView {
    pub system: Seq<char>,
    pub history: Seq<Message>,
    pub answers: Seq<usize>,
    pub context_length: u32,
    pub response_budget: Option<u32>,
}

impl BuilderView {
    /// No more was answered than asked.
    pub open spec fn wf(self) -> bool {
        self.answers.len() <= queries(self.system, self.history).len()
    }

    /// Every query is answered.
    pub open spec fn complete(self) -> bool {
        self.answers.len() == queries(self.system, self.history).len()
    }
}

/// A prompt in the making.
pub struct PromptBuilder {
    system: String,
    history: Vec<Message>,
    memories: Vec<Memory>,
    pending: Vec<usize>,
    answers: Vec<usize>,
    context_length: u32,
    response_budget: Option<u32>,
}

impl View for PromptBuilder {
    type V = BuilderView;

    closed spec fn view(&self) -> BuilderView {
        BuilderView {
            system: self.system@,
            history: self.history@,
            answers: self.answers@,
            context_length: self.context_length,
            response_budget: self.response_budget,
        }
    }
}

impl PromptBuilder {
    /// The positions to ask for are those of the messages without a token number.
    pub closed spec fn wf(self) -> bool {
        &&& self@.wf()
        &&& self.pending@.len() == missing_texts(self.history@).len()
        &&& forall|j: int|
            0 <= j < self.pending@.len() ==> {
                &&& (#[trigger] self.pending@[j]) < self.history@.len()
                &&& self.history@[self.pending@[j] as int].content@ == missing_texts(
                    self.history@,
                )[j]
            }
    }

    /// Starts a prompt from a history, the memories and the prompt of the session,
    /// with `preamble` at the top of its system block.
    pub fn start(
        preamble: &str,
        prompt: &Option<String>,
        history: Vec<Message>,
        memories: Vec<Memory>,
        context_length: u32,
        response_budget: Option<u32>,
    ) -> (b: PromptBuilder)
        ensures
            b.wf(),
            b@ == (BuilderView {
                system: system_block(preamble@, memories@, types::optional_text(*prompt)),
                history: history@,
                answers: Seq::empty(),
                context_length,
                response_budget,
            }),
    {
        let system = ContextManager::new(&history, &memories).system_text(preamble, prompt);
        let mut pending: Vec<usize> = Vec::new();
        let mut i: usize = 0;
        assert(history@.take(0) =~= Seq::<Message>::empty());
        while i < history.len()
            invariant
                i <= history@.len(),
                pending@.len() == missing_texts(history@.take(i as int)).len(),
                forall|j: int|
                    0 <= j < pending@.len() ==> {
                        &&& (#[trigger] pending@[j]) < history@.len()
                        &&& history@[pending@[j] as int].content@ == missing_texts(
                            history@.take(i as int),
                        )[j]
                    },
            decreases history@.len() - i,
        {
            assert(history@.take(i + 1).drop_last() =~= history@.take(i as int));
            if history[i].token_count <= 0 {
                pending.push(i);
            }
            i = i + 1;
        }
        assert(history@.take(history@.len() as int) =~= history@);
        let b = PromptBuilder {
            system,
            history,
            memories,
            pending,
            answers: Vec::new(),
            context_length,
            response_budget,
        };
        assert(b@.answers =~= Seq::<usize>::empty());
        b
    }

    /// The next text that the engine has to count, or `None` where all are counted.
    pub fn next_text(&self) -> (r: Option<String>)
        requires
            self.wf(),
        ensures
            match r {
                Some(t) => !self@.complete() && t@ == queries(
                    self@.system,
                    self@.history,
                )[self@.answers.len() as int],
                None => self@.complete(),
            },
    {
        let n = self.answers.len();
        if self.system.as_str().is_empty() {
            if n < self.pending.len() {
                assert(missing_texts(self.history@)[n as int] == queries(
                    self@.system,
                    self@.history,
                )[n as int]);
                Some(self.history[self.pending[n]].content.clone())
            } else {
                None
            }
        } else if n == 0 {
            Some(self.system.clone())
        } else if n - 1 < self.pending.len() {
            assert(missing_texts(self.history@)[n - 1] == queries(
                self@.system,
                self@.history,
            )[n as int]);
            Some(self.history[self.pending[n - 1]].content.clone())
        } else {
            None
        }
    }

    /// Takes in what the engine counted for the text asked for last.
    pub fn answer(&mut self, n: usize)
        requires
            old(self).wf(),
            !old(self)@.complete(),
        ensures
            final(self).wf(),
            final(self)@ == (BuilderView { answers: old(self)@.answers.push(n), ..old(self)@ }),
    {
        self.answers.push(n);
    }

    /// The turns of the prompt.
    pub fn finish(self) -> (out: Vec<ChatTurn>)
        requires
            self.wf(),
            self@.complete(),
        ensures
            engine::turn_views(out@) == answered(
                self@.system,
                self@.history,
                self@.answers,
                self@.context_length,
                self@.response_budget,
            ),
    {
        let ghost history = self.history@;
        let lead: usize = if self.system.as_str().is_empty() {
            0
        } else {
            1
        };
        let ghost rest = self.answers@.skip(lead as int);
        let mut counts: Vec<usize> = Vec::new();
        let mut k: usize = 0;
        let mut i: usize = 0;
        proof {
            assert(history.take(0) =~= Seq::<Message>::empty());
            lemma_missing(history);
            assert(self.system@.len() > 0 ==> queries(self@.system, history).len() == 1
                + missing_texts(history).len());
            assert(self.system@.len() == 0 ==> rest =~= self.answers@);
        }
        while i < self.history.len()
            invariant
                i <= self.history@.len(),
                history == self.history@,
                lead <= self.answers@.len(),
                rest == self.answers@.skip(lead as int),
                rest.len() == missing(history),
                k == missing(history.take(i as int)),
                counts@ == spread(history.take(i as int), rest),
            decreases self.history@.len() - i,
        {
            assert(history.take(i + 1).drop_last() =~= history.take(i as int));
            proof {
                lemma_missing_prefix(history, i + 1);
            }
            if self.history[i].token_count <= 0 {
                assert(rest[k as int] == self.answers@[lead + k]);
                assert(lead + k < self.answers.len());
                counts.push(self.answers[lead + k]);
                k = k + 1;
            } else {
                counts.push(0);
            }
            i = i + 1;
        }
        assert(history.take(history.len() as int) =~= history);
        proof {
            lemma_spread_len(history, rest);
        }
        let cm = ContextManager::new(&self.history, &self.memories);
        let system_tokens: usize = if lead == 1 {
            self.answers[0]
        } else {
            0
        };
        let out = cm.build(
            self.system.as_str(),
            system_tokens,
            &counts,
            self.context_length,
            self.response_budget,
        );
        out
    }
}

proof fn lemma_missing(history: Seq<Message>)
    ensures
        missing_texts(history).len() == missing(history),
    decreases history.len(),
{
    if history.len() > 0 {
        lemma_missing(history.drop_last());
    }
}

proof fn lemma_missing_prefix(history: Seq<Message>, n: int)
    requires
        0 <= n <= history.len(),
    ensures
        missing(history.take(n)) <= missing(history),
    decreases history.len(),
{
    if n < history.len() {
        lemma_missing_prefix(history.drop_last(), n);
        assert(history.drop_last().take(n) =~= history.take(n));
    } else {
        assert(history.take(n) =~= history);
    }
}

proof fn lemma_spread_len(history: Seq<Message>, answers: Seq<usize>)
    ensures
        spread(history, answers).len() == history.len(),
    decreases history.len(),
{
    if history.len() > 0 {
        lemma_spread_len(history.drop_last(), answers);
    }
}

/// One message in a summary: its role and its token number.
pub open spec fn summary_item(m: Message) -> Seq<char> {
    types::role_text(m.role) + "("@ + text::decimal_int(m.token_count as int) + "t)"@
}

/// The messages of a history, one after the other, with commas between them.
pub open spec fn summary(history: Seq<Message>) -> Seq<char>
    decreases history.len(),
{
    if history.len() == 0 {
        Seq::empty()
    } else if history.len() == 1 {
        summary_item(history[0])
    } else {
        summary(history.drop_last()) + ", "@ + summary_item(history.last())
    }
}

/// Roles and token numbers of a history, on one line.
pub fn debug_summary(history: &[Message]) -> (out: String)
    ensures
        out@ == summary(history@),
{
    let mut out = String::new();
    let mut i: usize = 0;
    assert(history@.take(0) =~= Seq::<Message>::empty());
    while i < history.len()
        invariant
            i <= history.len(),
            out@ == summary(history@.take(i as int)),
        decreases history.len() - i,
    {
        let ghost head = history@.take(i + 1);
        assert(head.drop_last() =~= history@.take(i as int));
        assert(head.last() == history@[i as int]);
        if i > 0 {
            out.append(", ");
        }
        out.append(history[i].role.as_str());
        out.append("(");
        out.append(decimal_of_signed(history[i].token_count).as_str());
        out.append("t)");
        if i == 0 {
            assert(out@ =~= summary_item(head[0]));
        } else {
            assert(out@ =~= summary(history@.take(i as int)) + ", "@ + summary_item(head.last()));
        }
        i = i + 1;
    }
    assert(history@.take(history@.len() as int) =~= history@);
    out
}

// ---------------------------------------------------------------------------
// Laws
// ---------------------------------------------------------------------------

/// The tokens of a list of pairs.
pub open spec fn cost(pairs: Seq<PairView>) -> int
    decreases pairs.len(),
{
    if pairs.len() == 0 {
        0
    } else {
        cost(pairs.drop_last()) + pairs.last().tokens
    }
}

/// The positions of the messages that are not system messages.
pub open spec fn spoken(h: Seq<Entry>) -> Seq<int>
    decreases h.len(),
{
    if h.len() == 0 {
        Seq::empty()
    } else if h.last().role == Role::System {
        spoken(h.drop_last())
    } else {
        spoken(h.drop_last()).push(h.len() - 1)
    }
}

/// The positions that the pairs of a list hold, in order.
pub open spec fn positions(pairs: Seq<PairView>) -> Seq<int>
    decreases pairs.len(),
{
    if pairs.len() == 0 {
        Seq::empty()
    } else {
        positions(pairs.drop_last()) + pairs.last().indices
    }
}

/// The position of the most recent user message.
pub open spec fn last_user(h: Seq<Entry>) -> int
    decreases h.len(),
{
    if h.len() == 0 || h.last().role == Role::User {
        h.len() - 1
    } else {
        last_user(h.drop_last())
    }
}

/// Every message but the system messages is in exactly one pair, and the pairs keep
/// the order of the history.
pub proof fn law_pairs_partition(h: Seq<Entry>)
    ensures
        positions(pairs_of(h)) == spoken(h),
    decreases h.len(),
{
    if h.len() > 0 {
        let g = h.drop_last();
        let before = pairs_of(g);
        let after = pairs_of(h);
        law_pairs_partition(g);
        match h.last().role {
            Role::System => {},
            Role::User => {
                assert(after.drop_last() =~= before);
                assert(positions(after) =~= spoken(h));
            },
            _ => {
                if has_user(g) {
                    lemma_user_pair(g);
                    assert(after.drop_last() =~= before.drop_last());
                    assert(positions(after) =~= positions(before).push(h.len() - 1));
                } else {
                    assert(after.drop_last() =~= before);
                    assert(positions(after) =~= spoken(h));
                }
            },
        }
    }
}

/// The most recent user message starts the newest pair.
proof fn lemma_user_pair(h: Seq<Entry>)
    requires
        has_user(h),
    ensures
        pairs_of(h).len() > 0,
        pairs_of(h).last().indices.len() > 0,
        pairs_of(h).last().indices[0] == last_user(h),
        0 <= last_user(h) < h.len(),
        h[last_user(h)].role == Role::User,
    decreases h.len(),
{
    lemma_has_user(h);
    if h.last().role != Role::User {
        let g = h.drop_last();
        lemma_user_pair(g);
        assert(h[last_user(g)] == g[last_user(g)]);
    }
}

/// A pair is a question with its replies: a user message comes first in it and
/// nowhere else, and a reply starts a pair only where no user message came before.
pub proof fn law_no_reply_without_question(h: Seq<Entry>, k: int)
    requires
        0 <= k < pairs_of(h).len(),
    ensures
        pairs_of(h)[k].indices.len() > 0,
        forall|j: int|
            0 < j < pairs_of(h)[k].indices.len() ==> {
                &&& 0 <= #[trigger] pairs_of(h)[k].indices[j] < h.len()
                &&& h[pairs_of(h)[k].indices[j]].role != Role::User
                &&& h[pairs_of(h)[k].indices[0]].role == Role::User
            },
        0 <= pairs_of(h)[k].indices[0] < h.len(),
        h[pairs_of(h)[k].indices[0]].role != Role::User ==> !has_user(
            h.take(pairs_of(h)[k].indices[0]),
        ),
    decreases h.len(),
{
    let g = h.drop_last();
    let before = pairs_of(g);
    let after = pairs_of(h);
    let last = h.len() - 1;
    lemma_has_user(h);
    assert(h.take(last) =~= g);
    if k < before.len() {
        law_no_reply_without_question(g, k);
        let b = before[k].indices;
        assert(h[b[0]] == g[b[0]]);
        assert(h.take(b[0]) =~= g.take(b[0]));
        let extended = h.last().role != Role::System && h.last().role != Role::User && has_user(g)
            && k == before.len() - 1;
        if extended {
            lemma_user_pair(g);
            assert(after[k].indices == b.push(last));
        } else {
            assert(after[k] == before[k]);
        }
        assert forall|j: int| 0 < j < after[k].indices.len() implies {
            &&& 0 <= #[trigger] after[k].indices[j] < h.len()
            &&& h[after[k].indices[j]].role != Role::User
            &&& h[after[k].indices[0]].role == Role::User
        } by {
            if j < b.len() {
                assert(after[k].indices[j] == b[j]);
                assert(h[b[j]] == g[b[j]]);
            }
        }
    } else {
        if has_user(g) {
            lemma_user_pair(g);
        }
        assert(after[k] == lone_pair(h, last));
    }
}

/// The preamble stands at the top of the system block, above the memories and the
/// prompt of the session.
pub proof fn law_preamble_on_top(
    preamble: Seq<char>,
    memories: Seq<Memory>,
    prompt: Option<Seq<char>>,
)
    ensures
        preamble.is_prefix_of(system_block(preamble, memories, prompt)),
        (preamble + memory_block(memories)).is_prefix_of(system_block(preamble, memories, prompt)),
{
}

/// The prompt of the session closes the system block.
pub proof fn law_session_prompt_last(
    preamble: Seq<char>,
    memories: Seq<Memory>,
    prompt: Seq<char>,
)
    ensures
        prompt.is_suffix_of(system_block(preamble, memories, Some(prompt))),
{
    let block = system_block(preamble, memories, Some(prompt));
    assert(block.subrange(block.len() - prompt.len(), block.len() as int) =~= prompt);
}

/// Every memory has its line in every system block.
pub proof fn law_every_memory_injected(
    preamble: Seq<char>,
    memories: Seq<Memory>,
    prompt: Option<Seq<char>>,
    k: int,
)
    requires
        0 <= k < memories.len(),
    ensures
        text::has_text(
            system_block(preamble, memories, prompt),
            "- "@ + memories[k].content@ + "\n"@,
        ),
{
    let line = "- "@ + memories[k].content@ + "\n"@;
    lemma_memory_line(memories, k);
    let lines = memory_lines(memories);
    let i = choose|i: int| text::occurs_at(lines, line, i);
    let lead = preamble + MEMORIES_LEAD@;
    let block = system_block(preamble, memories, prompt);
    assert((lead + lines).is_prefix_of(block)) by {
        assert(lead + lines =~= preamble + memory_block(memories));
    }
    assert(block.subrange(lead.len() + i, lead.len() + i + line.len()) =~= lines.subrange(
        i,
        i + line.len(),
    ));
    assert(text::occurs_at(block, line, lead.len() + i));
}

proof fn lemma_memory_line(memories: Seq<Memory>, k: int)
    requires
        0 <= k < memories.len(),
    ensures
        text::has_text(memory_lines(memories), "- "@ + memories[k].content@ + "\n"@),
    decreases memories.len(),
{
    let line = "- "@ + memories[k].content@ + "\n"@;
    let front = memories.drop_last();
    let before = memory_lines(front);
    let all = memory_lines(memories);
    if k == memories.len() - 1 {
        assert(all =~= before + line);
        assert(all.subrange(before.len() as int, before.len() as int + line.len()) =~= line);
        assert(text::occurs_at(all, line, before.len() as int));
    } else {
        lemma_memory_line(front, k);
        let i = choose|i: int| text::occurs_at(before, line, i);
        assert(all.subrange(i, i + line.len()) =~= before.subrange(i, i + line.len()));
        assert(text::occurs_at(all, line, i));
    }
}

/// Where there is a system block, it comes first in the prompt, whatever the
/// history.
pub proof fn law_system_prompt_kept(system: Seq<char>, system_tokens: int, h: Seq<Entry>, budget: int)
    requires
        system.len() > 0,
    ensures
        fitted(system, system_tokens, h, budget).len() > 0,
        fitted(system, system_tokens, h, budget)[0] == (TurnView {
            role: Role::System,
            content: system,
        }),
{
}

proof fn lemma_kept(pairs: Seq<PairView>, room: int)
    ensures
        kept(pairs, room) <= pairs.len(),
        kept(pairs, room) > 0 ==> cost(pairs.skip(pairs.len() - kept(pairs, room))) <= room,
        kept(pairs, room) < pairs.len() ==> pairs[pairs.len() - kept(pairs, room) - 1].tokens + cost(
            pairs.skip(pairs.len() - kept(pairs, room)),
        ) > room,
    decreases pairs.len(),
{
    if pairs.len() == 0 || pairs.last().tokens > room {
        assert(pairs.skip(pairs.len() as int) =~= Seq::<PairView>::empty());
    } else {
        let front = pairs.drop_last();
        let left = room - pairs.last().tokens;
        lemma_kept(front, left);
        let n = kept(front, left);
        let tail = pairs.skip(pairs.len() - kept(pairs, room));
        assert(tail.drop_last() =~= front.skip(front.len() - n));
        if n == 0 {
            assert(tail.drop_last() =~= Seq::<PairView>::empty());
        }
        if n < front.len() {
            assert(front[front.len() - n - 1] == pairs[pairs.len() - kept(pairs, room) - 1]);
        }
    }
}

/// The prompt ends in the pair of the most recent user message, whatever it costs:
/// that message is never dropped.
pub proof fn law_most_recent_user_kept(
    system: Seq<char>,
    system_tokens: int,
    h: Seq<Entry>,
    budget: int,
)
    requires
        has_user(h),
    ensures
        ({
            let out = fitted(system, system_tokens, h, budget);
            let newest = pairs_of(h).last().indices;
            &&& newest[0] == last_user(h)
            &&& newest.len() <= out.len()
            &&& out.skip(out.len() - newest.len()) == turns_at(h, newest)
            &&& out.contains(
                TurnView { role: Role::User, content: h[last_user(h)].content },
            )
        }),
{
    lemma_user_pair(h);
    let pairs = pairs_of(h);
    let older = older_pairs(h);
    lemma_kept(older, budget - fixed_cost(system, system_tokens, h));
    let d = dropped(system, system_tokens, h, budget);
    let out = fitted(system, system_tokens, h, budget);
    let newest = pairs.last().indices;
    let front = pairs.skip(d).drop_last();
    assert(pairs.skip(d).last() == pairs.last());
    let lead = system_turn(system) + turns_of(h, front);
    assert(out =~= lead + turns_at(h, newest));
    assert(out.skip(out.len() - newest.len()) =~= turns_at(h, newest));
    assert(out[lead.len() as int] == turns_at(h, newest)[0]);
}

/// A user message that waits for its reply comes last in the prompt.
pub proof fn law_trailing_user_is_last(
    system: Seq<char>,
    system_tokens: int,
    h: Seq<Entry>,
    budget: int,
)
    requires
        trailing_user(h) is Some,
    ensures
        fitted(system, system_tokens, h, budget).len() > 0,
        0 <= trailing_user(h)->0 < h.len(),
        fitted(system, system_tokens, h, budget).last() == (TurnView {
            role: Role::User,
            content: h[trailing_user(h)->0].content,
        }),
{
    lemma_trailing_pair(h);
    law_most_recent_user_kept(system, system_tokens, h, budget);
    let out = fitted(system, system_tokens, h, budget);
    let newest = pairs_of(h).last().indices;
    assert(out.skip(out.len() - newest.len())[0] == turns_at(h, newest)[0]);
}

proof fn lemma_trailing_pair(h: Seq<Entry>)
    requires
        trailing_user(h) is Some,
    ensures
        has_user(h),
        pairs_of(h).len() > 0,
        pairs_of(h).last().indices == seq![trailing_user(h)->0],
        0 <= trailing_user(h)->0 < h.len(),
        h[trailing_user(h)->0].role == Role::User,
    decreases h.len(),
{
    lemma_has_user(h);
    if h.last().role == Role::System {
        lemma_trailing_pair(h.drop_last());
    }
}

/// Pairs are dropped from the oldest end first, and none that would still have
/// fitted: what is kept is the newest stretch of whole pairs, and the next older
/// pair is too much for the budget.
pub proof fn law_oldest_dropped_first(
    system: Seq<char>,
    system_tokens: int,
    h: Seq<Entry>,
    budget: int,
)
    ensures
        ({
            let d = dropped(system, system_tokens, h, budget);
            let all = pairs_of(h);
            &&& 0 <= d <= older_pairs(h).len() <= all.len()
            &&& fitted(system, system_tokens, h, budget) == system_turn(system) + turns_of(
                h,
                all.skip(d),
            )
            &&& d > 0 ==> (if system.len() > 0 {
                system_tokens
            } else {
                0
            }) + cost(all.skip(d)) + all[d - 1].tokens > budget
        }),
{
    if has_user(h) {
        lemma_user_pair(h);
    }
    let older = older_pairs(h);
    let room = budget - fixed_cost(system, system_tokens, h);
    lemma_kept(older, room);
    let d = dropped(system, system_tokens, h, budget);
    lemma_total_cost(h, d);
    if d > 0 {
        assert(older[d - 1] == pairs_of(h)[d - 1]);
    }
}

/// What is kept of the older pairs and the newest pair cost what they cost
/// together.
proof fn lemma_total_cost(h: Seq<Entry>, d: int)
    requires
        0 <= d <= older_pairs(h).len(),
        has_user(h) ==> pairs_of(h).len() > 0,
    ensures
        cost(pairs_of(h).skip(d)) == cost(older_pairs(h).skip(d)) + (if has_user(h) {
            pairs_of(h).last().tokens
        } else {
            0
        }),
{
    let all = pairs_of(h);
    let older = older_pairs(h);
    if has_user(h) {
        assert(all.skip(d).drop_last() =~= older.skip(d));
        assert(all.skip(d).last() == all.last());
    } else {
        assert(all.skip(d) =~= older.skip(d));
    }
}

/// The prompt stays within the budget wherever what is always kept does.
pub proof fn law_within_budget(system: Seq<char>, system_tokens: int, h: Seq<Entry>, budget: int)
    requires
        fixed_cost(system, system_tokens, h) <= budget,
    ensures
        (if system.len() > 0 {
            system_tokens
        } else {
            0
        }) + cost(pairs_of(h).skip(dropped(system, system_tokens, h, budget))) <= budget,
{
    if has_user(h) {
        lemma_user_pair(h);
    }
    let older = older_pairs(h);
    let room = budget - fixed_cost(system, system_tokens, h);
    lemma_kept(older, room);
    let d = dropped(system, system_tokens, h, budget);
    lemma_total_cost(h, d);
    if kept(older, room) == 0 {
        assert(older.skip(d) =~= Seq::<PairView>::empty());
    }
}

/// Nothing is dropped where everything fits.
pub proof fn law_all_kept_when_fitting(
    system: Seq<char>,
    system_tokens: int,
    h: Seq<Entry>,
    budget: int,
)
    requires
        forall|i: int| 0 <= i < h.len() ==> 0 <= (#[trigger] h[i]).tokens < token_bound(),
        (if system.len() > 0 {
            system_tokens
        } else {
            0
        }) + cost(pairs_of(h)) <= budget,
    ensures
        fitted(system, system_tokens, h, budget) == system_turn(system) + turns_of(h, pairs_of(h)),
{
    law_oldest_dropped_first(system, system_tokens, h, budget);
    lemma_pairs_nonnegative(h);
    let d = dropped(system, system_tokens, h, budget);
    let all = pairs_of(h);
    if d > 0 {
        lemma_cost_suffix(all, d - 1);
        lemma_cost_front(all, d);
    }
    assert(all.skip(0) =~= all);
}

/// A stretch of the newest pairs costs no more than all.
proof fn lemma_cost_suffix(pairs: Seq<PairView>, from: int)
    requires
        0 <= from <= pairs.len(),
        forall|k: int| 0 <= k < pairs.len() ==> 0 <= (#[trigger] pairs[k]).tokens,
    ensures
        cost(pairs.skip(from)) <= cost(pairs),
        0 <= cost(pairs),
    decreases pairs.len(),
{
    if pairs.len() > 0 {
        let front = pairs.drop_last();
        assert forall|k: int| 0 <= k < front.len() implies 0 <= (#[trigger] front[k]).tokens by {
            assert(front[k] == pairs[k]);
        }
        assert(pairs[pairs.len() - 1].tokens >= 0);
        if from == pairs.len() {
            lemma_cost_suffix(front, front.len() as int);
            assert(pairs.skip(from) =~= Seq::<PairView>::empty());
        } else {
            lemma_cost_suffix(front, from);
            assert(pairs.skip(from).drop_last() =~= front.skip(from));
        }
    } else {
        assert(pairs.skip(from) =~= Seq::<PairView>::empty());
    }
}

/// Taking one more pair in adds its cost.
proof fn lemma_cost_front(pairs: Seq<PairView>, d: int)
    requires
        0 < d <= pairs.len(),
    ensures
        cost(pairs.skip(d - 1)) == pairs[d - 1].tokens + cost(pairs.skip(d)),
    decreases pairs.len(),
{
    let s = pairs.skip(d - 1);
    let t = pairs.skip(d);
    if d == pairs.len() {
        assert(t =~= Seq::<PairView>::empty());
        assert(s.drop_last() =~= Seq::<PairView>::empty());
        assert(s.last() == pairs[d - 1]);
    } else {
        let front = pairs.drop_last();
        lemma_cost_front(front, d);
        assert(s.drop_last() =~= front.skip(d - 1));
        assert(t.drop_last() =~= front.skip(d));
        assert(s.last() == t.last());
    }
}

// ---------------------------------------------------------------------------
// Which messages a prompt quotes
// ---------------------------------------------------------------------------

/// The tokens that a message counts with, where the engine has counted what has no number
/// stored: the answers come in the order of the messages, behind that for the system block.
pub open spec fn price(system: Seq<char>, history: Seq<Message>, answers: Seq<usize>, i: int) -> int {
    if history[i].token_count > 0 {
        history[i].token_count as int
    } else {
        let n = answers[(if system.len() > 0 {
            1int
        } else {
            0int
        }) + uncounted(history, i)];
        if n <= i64::MAX {
            n as int
        } else {
            i64::MAX as int
        }
    }
}

/// How many of the first `n` messages have no token number stored with them.
pub open spec fn uncounted(history: Seq<Message>, n: int) -> int
    decreases n,
{
    if n <= 0 {
        0
    } else {
        uncounted(history, n - 1) + (if history[n - 1].token_count > 0 {
            0int
        } else {
            1int
        })
    }
}

/// The tokens of the messages from `from` up to `to` that are not system messages.
pub open spec fn spent(
    system: Seq<char>,
    history: Seq<Message>,
    answers: Seq<usize>,
    from: int,
    to: int,
) -> int
    decreases to - from,
{
    if to <= from {
        0
    } else {
        spent(system, history, answers, from, to - 1) + (if history[to - 1].role == Role::System {
            0
        } else {
            price(system, history, answers, to - 1)
        })
    }
}

/// The turns quote the messages at the positions `p` of a history, in order, each with the
/// role and the text of its message.
pub open spec fn quotes(turns: Seq<TurnView>, history: Seq<Message>, p: Seq<int>) -> bool {
    &&& turns.len() == p.len()
    &&& forall|k: int| 0 <= k < p.len() ==> 0 <= #[trigger] p[k] < history.len()
    &&& forall|k: int, l: int| 0 <= k < l < p.len() ==> #[trigger] p[k] < #[trigger] p[l]
    &&& forall|k: int|
        0 <= k < p.len() ==> (#[trigger] turns[k]).role == history[p[k]].role && turns[k].content
            == history[p[k]].content@
}

/// The positions are those of all messages from `cut` on that are not system messages.
pub open spec fn all_from(history: Seq<Message>, p: Seq<int>, cut: int) -> bool {
    forall|i: int| #[trigger]
        p.contains(i) <==> cut <= i < history.len() && history[i].role != Role::System
}

/// A prompt may start with the message at `i`: it asks something, or nothing was asked
/// before it.
pub open spec fn starts_whole(history: Seq<Message>, i: int) -> bool {
    &&& 0 <= i < history.len()
    &&& history[i].role != Role::System
    &&& history[i].role == Role::User || forall|j: int|
        0 <= j < i ==> (#[trigger] history[j]).role != Role::User
}

/// No message behind `i` asks something.
pub open spec fn asks_last(history: Seq<Message>, i: int) -> bool {
    forall|j: int| i < j < history.len() ==> (#[trigger] history[j]).role != Role::User
}

/// The tokens left for the prompt in a context window, beside the reply.
pub open spec fn room_beside(context_length: u32, response_budget: Option<u32>) -> int {
    let reply: int = match response_budget {
        Some(n) => n as int,
        None => 1024,
    };
    if context_length > reply {
        context_length - reply
    } else {
        0
    }
}

/// A history is cut at `cut` for a room: whole, with the most recent question behind the
/// cut, within the room unless that question and its replies alone go beyond it, and no
/// later than needed.
pub open spec fn cut_for(
    system: Seq<char>,
    history: Seq<Message>,
    answers: Seq<usize>,
    room: int,
    cut: int,
) -> bool {
    let n = history.len() as int;
    let lead: int = if system.len() > 0 {
        if answers[0] <= i64::MAX {
            answers[0] as int
        } else {
            i64::MAX as int
        }
    } else {
        0
    };
    &&& 0 <= cut <= n
    &&& cut < n ==> starts_whole(history, cut)
    &&& forall|i: int|
        0 <= i < n && (#[trigger] history[i]).role == Role::User && asks_last(history, i) ==> cut
            <= i
    &&& cut < n ==> lead + spent(system, history, answers, cut, n) <= room || (
    history[cut].role == Role::User && asks_last(history, cut))
    &&& forall|i: int|
        0 <= i < cut && #[trigger] starts_whole(history, i) ==> lead + spent(
            system,
            history,
            answers,
            i,
            n,
        ) > room
}

/// The turns are the system block, where there is one, and the messages of a history from
/// `cut` on.
pub open spec fn is_prompt(
    out: Seq<TurnView>,
    system: Seq<char>,
    history: Seq<Message>,
    answers: Seq<usize>,
    room: int,
    p: Seq<int>,
    cut: int,
) -> bool {
    let lead: int = if system.len() > 0 {
        1
    } else {
        0
    };
    &&& lead <= out.len()
    &&& lead == 1 ==> out[0].role == Role::System && out[0].content == system
    &&& quotes(out.skip(lead), history, p)
    &&& all_from(history, p, cut)
    &&& cut_for(system, history, answers, room, cut)
}

/// What a prompt is: the system block as a system turn, where there is one, and then the
/// messages of the history from some cut on, all of them but system messages, in order and
/// each with its own role and text. The cut is whole, keeps the most recent question, and is
/// the earliest for which the prompt fits beside the reply.
pub proof fn law_prompt_quotes_history(
    system: Seq<char>,
    history: Seq<Message>,
    answers: Seq<usize>,
    context_length: u32,
    response_budget: Option<u32>,
)
    requires
        answers.len() == queries(system, history).len(),
    ensures
        exists|p: Seq<int>, cut: int| #[trigger]
            is_prompt(
                answered(system, history, answers, context_length, response_budget),
                system,
                history,
                answers,
                room_beside(context_length, response_budget),
                p,
                cut,
            ),
{
    let lead: int = if system.len() > 0 {
        1
    } else {
        0
    };
    let rest = behind_system(system, answers);
    let tokens: int = if system.len() > 0 {
        capped(answers[0])
    } else {
        0
    };
    let room = prompt_budget(context_length, response_budget);
    let counts = spread(history, rest);
    let h = counted(history, counts);
    let all = pairs_of(h);
    let d = dropped(system, tokens, h, room);
    let out = answered(system, history, answers, context_length, response_budget);
    let n = history.len() as int;
    lemma_prices(system, history, answers);
    assert forall|i: int| 0 <= i < h.len() implies 0 <= (#[trigger] h[i]).tokens
        < token_bound() by {
        assert(h[i].tokens == price(system, history, answers, i));
    }
    lemma_pairs_nonnegative(h);
    lemma_pairs_bounded(h);
    law_oldest_dropped_first(system, tokens, h, room);
    if has_user(h) {
        lemma_user_pair(h);
    }
    let cut: int = if d < all.len() {
        all[d].indices[0]
    } else {
        n
    };
    let p = said_from(h, cut);
    lemma_said_from(h, cut);
    if d < all.len() {
        lemma_stretch(h, d);
        law_no_reply_without_question(h, d);
    } else {
        assert(all.skip(d) =~= Seq::<PairView>::empty());
        lemma_said_none(h, n);
    }
    lemma_turns_positions(h, all.skip(d));
    assert(positions(all.skip(d)) == p);
    assert(out == system_turn(system) + turns_at(h, p));
    assert(out.skip(lead) =~= turns_at(h, p));
    assert(quotes(out.skip(lead), history, p)) by {
        let turns = out.skip(lead);
        assert forall|k: int| 0 <= k < p.len() implies (#[trigger] turns[k]).role
            == history[p[k]].role && turns[k].content == history[p[k]].content@ by {
            assert(turns[k] == turns_at(h, p)[k]);
        }
    }
    assert(all_from(history, p, cut)) by {
        assert forall|i: int| #[trigger] p.contains(i) == (cut <= i < history.len()
            && history[i].role != Role::System) by {
            if cut <= i < h.len() {
                assert(h[i].role == history[i].role);
            }
            if p.contains(i) {
                let k = choose|k: int| 0 <= k < p.len() && p[k] == i;
                assert(h[p[k]].role == history[i].role);
            }
        }
    }
    // The cut.
    assert(cut < n ==> starts_whole(history, cut)) by {
        if cut < n {
            assert(h[cut].role == history[cut].role);
            assert(p.contains(cut)) by {
                assert(positions(all.skip(d)).len() > 0) by {
                    lemma_first_position(all.skip(d));
                }
                lemma_first_position(all.skip(d));
                assert(p[0] == cut);
            }
            if history[cut].role != Role::User {
                assert forall|j: int| 0 <= j < cut implies (#[trigger] history[j]).role
                    != Role::User by {
                    if history[j].role == Role::User {
                        assert(h.take(cut)[j].role == Role::User);
                        assert(has_user(h.take(cut)));
                    }
                }
            }
        }
    }
    assert forall|i: int|
        0 <= i < n && (#[trigger] history[i]).role == Role::User && asks_last(
            history,
            i,
        ) implies cut <= i by {
        assert(h[i].role == Role::User);
        assert(has_user(h));
        lemma_last_user_is_last(h, i, history);
        // The newest pair is kept.
        assert(d < all.len());
        lemma_starts_ordered(h, d, all.len() - 1);
    }
    assert forall|from: int| 0 <= from <= n implies #[trigger] spent_from(h, from) == spent(
        system,
        history,
        answers,
        from,
        n,
    ) by {
        lemma_spent(system, history, answers, h, from, n);
        assert(h.take(n) =~= h);
    }
    if cut < n {
        if tokens + spent_from(h, cut) > room {
            if fixed_cost(system, tokens, h) <= room {
                law_within_budget(system, tokens, h, room);
                assert(false);
            }
            let older = older_pairs(h);
            lemma_kept(older, room - fixed_cost(system, tokens, h));
            assert(has_user(h)) by {
                if !has_user(h) {
                    assert(older =~= all);
                    lemma_kept_positive(older, room - fixed_cost(system, tokens, h));
                    assert(cost(all.skip(d)) <= room - fixed_cost(system, tokens, h));
                }
            }
            lemma_kept_none(older, room - fixed_cost(system, tokens, h));
            assert(d == all.len() - 1);
            assert(cut == last_user(h));
            lemma_last_user_asks(h, history);
        }
    }
    assert forall|i: int|
        0 <= i < cut && #[trigger] starts_whole(history, i) implies tokens + spent(
        system,
        history,
        answers,
        i,
        n,
    ) > room by {
        lemma_start_of_pair(h, history, i);
        let k = choose|k: int| 0 <= k < all.len() && (#[trigger] all[k]).indices[0] == i;
        lemma_stretch(h, k);
        if k >= d {
            lemma_starts_ordered(h, d, k);
        }
        assert(k < d);
        lemma_cost_suffix(all.skip(k), d - 1 - k);
        assert(all.skip(k).skip(d - 1 - k) =~= all.skip(d - 1));
        lemma_cost_front(all, d);
        assert(spent_from(h, i) == spent(system, history, answers, i, n));
    }
    assert(cut_for(system, history, answers, room_beside(context_length, response_budget), cut));
    assert(is_prompt(
        out,
        system,
        history,
        answers,
        room_beside(context_length, response_budget),
        p,
        cut,
    ));
}

/// The positions from `from` on of the messages that are not system messages.
spec fn said_from(h: Seq<Entry>, from: int) -> Seq<int>
    decreases h.len(),
{
    if h.len() <= from || h.len() == 0 {
        Seq::empty()
    } else if h.last().role == Role::System {
        said_from(h.drop_last(), from)
    } else {
        said_from(h.drop_last(), from).push(h.len() - 1)
    }
}

/// The tokens of these messages.
spec fn spent_from(h: Seq<Entry>, from: int) -> int
    decreases h.len(),
{
    if h.len() <= from || h.len() == 0 {
        0
    } else {
        spent_from(h.drop_last(), from) + (if h.last().role == Role::System {
            0
        } else {
            h.last().tokens
        })
    }
}

proof fn lemma_said_none(h: Seq<Entry>, from: int)
    requires
        h.len() <= from,
    ensures
        said_from(h, from) == Seq::<int>::empty(),
{
}

proof fn lemma_said_from(h: Seq<Entry>, from: int)
    requires
        0 <= from,
    ensures
        forall|k: int|
            0 <= k < said_from(h, from).len() ==> from <= #[trigger] said_from(h, from)[k]
                < h.len() && h[said_from(h, from)[k]].role != Role::System,
        forall|k: int, l: int|
            0 <= k < l < said_from(h, from).len() ==> #[trigger] said_from(h, from)[k]
                < #[trigger] said_from(h, from)[l],
        forall|i: int|
            from <= i < h.len() && (#[trigger] h[i]).role != Role::System ==> said_from(
                h,
                from,
            ).contains(i),
    decreases h.len(),
{
    if h.len() > from && h.len() > 0 {
        let g = h.drop_last();
        lemma_said_from(g, from);
        let before = said_from(g, from);
        let p = said_from(h, from);
        assert forall|k: int| 0 <= k < p.len() implies from <= #[trigger] p[k] < h.len()
            && h[p[k]].role != Role::System by {
            if k < before.len() {
                assert(p[k] == before[k]);
                assert(h[p[k]] == g[p[k]]);
            }
        }
        assert forall|k: int, l: int| 0 <= k < l < p.len() implies #[trigger] p[k]
            < #[trigger] p[l] by {
            assert(p[k] == before[k]);
            if l < before.len() {
                assert(p[l] == before[l]);
            }
        }
        assert forall|i: int| from <= i < h.len() && (#[trigger] h[i]).role
            != Role::System implies p.contains(i) by {
            if i < g.len() {
                assert(g[i].role != Role::System);
                let k = choose|k: int| 0 <= k < before.len() && before[k] == i;
                assert(p[k] == i);
            } else {
                assert(p[p.len() - 1] == i);
            }
        }
    }
}

/// A stretch of the newest pairs holds all that was said from its start on.
proof fn lemma_stretch(h: Seq<Entry>, k: int)
    requires
        0 <= k < pairs_of(h).len(),
    ensures
        pairs_of(h)[k].indices.len() > 0,
        0 <= pairs_of(h)[k].indices[0] < h.len(),
        positions(pairs_of(h).skip(k)) == said_from(h, pairs_of(h)[k].indices[0]),
        cost(pairs_of(h).skip(k)) == spent_from(h, pairs_of(h)[k].indices[0]),
    decreases h.len(),
{
    let g = h.drop_last();
    let before = pairs_of(g);
    let after = pairs_of(h);
    let last = h.len() - 1;
    if h.last().role == Role::System {
        lemma_stretch(g, k);
    } else if h.last().role != Role::User && has_user(g) {
        lemma_user_pair(g);
        lemma_stretch(g, k);
        assert(after.skip(k).drop_last() =~= before.skip(k).drop_last());
        assert(after.skip(k).last() == after.last());
        assert(before.skip(k).last() == before.last());
        assert(positions(after.skip(k)) =~= positions(before.skip(k)).push(last));
    } else {
        assert(after == before.push(lone_pair(h, last)));
        assert(after.skip(k).last() == lone_pair(h, last));
        if k < before.len() {
            lemma_stretch(g, k);
            assert(after.skip(k).drop_last() =~= before.skip(k));
            assert(positions(after.skip(k)) =~= positions(before.skip(k)).push(last));
        } else {
            assert(after.skip(k).drop_last() =~= Seq::<PairView>::empty());
            lemma_said_none(g, last);
            reveal_with_fuel(positions, 2);
            reveal_with_fuel(cost, 2);
            reveal_with_fuel(spent_from, 2);
            reveal_with_fuel(said_from, 2);
            assert(positions(after.skip(k)) =~= seq![last]);
            assert(said_from(h, last) =~= seq![last]);
        }
    }
}

/// The turns of pairs are those at their positions.
proof fn lemma_turns_positions(h: Seq<Entry>, pairs: Seq<PairView>)
    ensures
        turns_of(h, pairs) == turns_at(h, positions(pairs)),
    decreases pairs.len(),
{
    if pairs.len() > 0 {
        lemma_turns_positions(h, pairs.drop_last());
        assert(turns_of(h, pairs) =~= turns_at(h, positions(pairs)));
    } else {
        assert(turns_of(h, pairs) =~= turns_at(h, positions(pairs)));
    }
}

/// The first position of a list of pairs is that of its first pair.
proof fn lemma_first_position(pairs: Seq<PairView>)
    requires
        pairs.len() > 0,
        pairs[0].indices.len() > 0,
    ensures
        positions(pairs).len() > 0,
        positions(pairs)[0] == pairs[0].indices[0],
    decreases pairs.len(),
{
    if pairs.len() > 1 {
        lemma_first_position(pairs.drop_last());
    } else {
        assert(pairs.drop_last() =~= Seq::<PairView>::empty());
        reveal_with_fuel(positions, 2);
        assert(positions(pairs) =~= pairs[0].indices);
    }
}

/// Pairs start one behind the other.
proof fn lemma_starts_ordered(h: Seq<Entry>, k: int, l: int)
    requires
        0 <= k <= l < pairs_of(h).len(),
    ensures
        pairs_of(h)[k].indices[0] <= pairs_of(h)[l].indices[0],
{
    let all = pairs_of(h);
    lemma_stretch(h, k);
    lemma_stretch(h, l);
    let c = all[k].indices[0];
    let p = said_from(h, c);
    lemma_said_from(h, c);
    lemma_positions_suffix(all.skip(k), l - k);
    assert(all.skip(k).skip(l - k) =~= all.skip(l));
    lemma_first_position(all.skip(l));
    let q = positions(all.skip(l));
    assert(q[0] == all[l].indices[0]);
    assert(p[p.len() - q.len()] == q[0]);
}

/// The positions of the newest pairs are the last positions of all.
proof fn lemma_positions_suffix(pairs: Seq<PairView>, from: int)
    requires
        0 <= from <= pairs.len(),
    ensures
        positions(pairs.skip(from)).is_suffix_of(positions(pairs)),
    decreases pairs.len(),
{
    if from == pairs.len() {
        assert(pairs.skip(from) =~= Seq::<PairView>::empty());
        assert(positions(pairs.skip(from)).is_suffix_of(positions(pairs)));
    } else {
        lemma_positions_suffix(pairs.drop_last(), from);
        assert(pairs.skip(from).drop_last() =~= pairs.drop_last().skip(from));
        assert(pairs.skip(from).last() == pairs.last());
        let a = positions(pairs.drop_last().skip(from));
        let b = positions(pairs.drop_last());
        let x = pairs.last().indices;
        assert(positions(pairs.skip(from)) =~= a + x);
        assert(positions(pairs) =~= b + x);
        assert((b + x).subrange((b + x).len() - (a + x).len(), (b + x).len() as int) =~= a + x);
    }
}

/// The last user message is the one behind which nothing is asked.
proof fn lemma_last_user_is_last(h: Seq<Entry>, i: int, history: Seq<Message>)
    requires
        h.len() == history.len(),
        forall|k: int| 0 <= k < h.len() ==> (#[trigger] h[k]).role == history[k].role,
        0 <= i < h.len(),
        history[i].role == Role::User,
        asks_last(history, i),
    ensures
        last_user(h) == i,
        pairs_of(h).len() > 0,
        pairs_of(h).last().indices[0] == i,
{
    assert(h[i].role == Role::User);
    assert(has_user(h));
    lemma_user_pair(h);
    let l = last_user(h);
    lemma_last_user_asks(h, history);
    if l < i {
        assert(history[i].role != Role::User);
    }
    if i < l {
        assert(h[l].role == history[l].role);
        assert(history[l].role != Role::User);
    }
}

proof fn lemma_last_user_asks(h: Seq<Entry>, history: Seq<Message>)
    requires
        h.len() == history.len(),
        forall|k: int| 0 <= k < h.len() ==> (#[trigger] h[k]).role == history[k].role,
        has_user(h),
    ensures
        0 <= last_user(h) < h.len(),
        history[last_user(h)].role == Role::User,
        asks_last(history, last_user(h)),
{
    lemma_user_pair(h);
    lemma_behind_last_user(h);
    let l = last_user(h);
    assert(h[l].role == history[l].role);
    assert forall|j: int| l < j < history.len() implies (#[trigger] history[j]).role
        != Role::User by {
        assert(h[j].role == history[j].role);
    }
}

proof fn lemma_behind_last_user(h: Seq<Entry>)
    ensures
        -1 <= last_user(h) < h.len(),
        forall|j: int| last_user(h) < j < h.len() ==> (#[trigger] h[j]).role != Role::User,
    decreases h.len(),
{
    if h.len() > 0 && h.last().role != Role::User {
        let g = h.drop_last();
        lemma_behind_last_user(g);
        assert forall|j: int| last_user(h) < j < h.len() implies (#[trigger] h[j]).role
            != Role::User by {
            if j < g.len() {
                assert(g[j] == h[j]);
            }
        }
    }
}

/// Where a prompt may start, a pair starts.
proof fn lemma_start_of_pair(h: Seq<Entry>, history: Seq<Message>, i: int)
    requires
        h.len() == history.len(),
        forall|k: int| 0 <= k < h.len() ==> (#[trigger] h[k]).role == history[k].role,
        starts_whole(history, i),
    ensures
        exists|k: int| 0 <= k < pairs_of(h).len() && (#[trigger] pairs_of(h)[k]).indices[0] == i,
    decreases h.len(),
{
    let g = h.drop_last();
    let before = pairs_of(g);
    let after = pairs_of(h);
    let last = h.len() - 1;
    assert(h[i].role == history[i].role);
    if i == last {
        if history[i].role != Role::User {
            if has_user(g) {
                let j = choose|j: int| 0 <= j < g.len() && (#[trigger] g[j]).role == Role::User;
                assert(h[j] == g[j]);
                assert(history[j].role == Role::User);
            }
        }
        assert(after == before.push(lone_pair(h, last)));
        assert(after[before.len() as int].indices[0] == i);
    } else {
        let shorter = history.drop_last();
        assert forall|k: int| 0 <= k < g.len() implies (#[trigger] g[k]).role
            == shorter[k].role by {
            assert(g[k] == h[k]);
        }
        assert(starts_whole(shorter, i)) by {
            if history[i].role != Role::User {
                assert forall|j: int| 0 <= j < i implies (#[trigger] shorter[j]).role
                    != Role::User by {
                    assert(history[j].role != Role::User);
                }
            }
        }
        lemma_start_of_pair(g, shorter, i);
        let k = choose|k: int| 0 <= k < before.len() && (#[trigger] before[k]).indices[0] == i;
        if h.last().role != Role::System && h.last().role != Role::User && has_user(g) && k
            == before.len() - 1 {
            lemma_user_pair(g);
            assert(after[k].indices[0] == i);
        } else {
            assert(after[k] == before[k]);
        }
    }
}

proof fn lemma_kept_positive(pairs: Seq<PairView>, room: int)
    requires
        kept(pairs, room) > 0,
    ensures
        cost(pairs.skip(pairs.len() - kept(pairs, room))) <= room,
{
    lemma_kept(pairs, room);
}

proof fn lemma_kept_none(pairs: Seq<PairView>, room: int)
    requires
        room < 0,
        forall|k: int| 0 <= k < pairs.len() ==> 0 <= (#[trigger] pairs[k]).tokens,
    ensures
        kept(pairs, room) == 0,
{
    if pairs.len() > 0 {
        assert(pairs[pairs.len() - 1].tokens >= 0);
    }
}

/// The answers for the messages: those behind the one for the system block.
spec fn behind_system(system: Seq<char>, answers: Seq<usize>) -> Seq<usize> {
    if system.len() > 0 {
        answers.skip(1)
    } else {
        answers
    }
}

/// Every message counts with its price.
proof fn lemma_prices(system: Seq<char>, history: Seq<Message>, answers: Seq<usize>)
    requires
        answers.len() == queries(system, history).len(),
    ensures
        ({
            let h = counted(history, spread(history, behind_system(system, answers)));
            &&& h.len() == history.len()
            &&& forall|i: int|
                0 <= i < h.len() ==> (#[trigger] h[i]).tokens == price(
                    system,
                    history,
                    answers,
                    i,
                ) && h[i].role == history[i].role && h[i].content == history[i].content@
        }),
{
    let lead: int = if system.len() > 0 {
        1
    } else {
        0
    };
    let rest = behind_system(system, answers);
    let h = counted(history, spread(history, rest));
    lemma_missing(history);
    assert(rest.len() == missing(history));
    assert forall|i: int| 0 <= i < h.len() implies (#[trigger] h[i]).tokens == price(
        system,
        history,
        answers,
        i,
    ) && h[i].role == history[i].role && h[i].content == history[i].content@ by {
        lemma_spread_at(history, rest, i);
        lemma_missing_prefix(history, i + 1);
        assert(history.take(i + 1).drop_last() =~= history.take(i));
        if history[i].token_count <= 0 {
            assert(rest[uncounted(history, i)] == answers[lead + uncounted(history, i)]);
        }
    }
}

/// The answer for a message stands behind those for the messages before it.
proof fn lemma_spread_at(history: Seq<Message>, answers: Seq<usize>, i: int)
    requires
        0 <= i < history.len(),
    ensures
        spread(history, answers).len() == history.len(),
        history[i].token_count <= 0 ==> spread(history, answers)[i] == answers[uncounted(
            history,
            i,
        )],
        uncounted(history, i) == missing(history.take(i)),
    decreases history.len(),
{
    lemma_spread_len(history, answers);
    lemma_uncounted(history, i);
    if i < history.len() - 1 {
        let front = history.drop_last();
        lemma_spread_at(front, answers, i);
        assert(front.take(i) =~= history.take(i));
        assert(spread(history, answers)[i] == spread(front, answers)[i]);
    } else {
        assert(history.take(i) =~= history.drop_last());
    }
}

proof fn lemma_uncounted(history: Seq<Message>, n: int)
    requires
        0 <= n <= history.len(),
    ensures
        uncounted(history, n) == missing(history.take(n)),
    decreases n,
{
    if n > 0 {
        lemma_uncounted(history, n - 1);
        assert(history.take(n).drop_last() =~= history.take(n - 1));
        assert(history.take(n).last() == history[n - 1]);
    }
}

proof fn lemma_spent(
    system: Seq<char>,
    history: Seq<Message>,
    answers: Seq<usize>,
    h: Seq<Entry>,
    from: int,
    to: int,
)
    requires
        h.len() == history.len(),
        forall|i: int|
            0 <= i < h.len() ==> (#[trigger] h[i]).tokens == price(system, history, answers, i)
                && h[i].role == history[i].role,
        0 <= from <= h.len(),
        0 <= to <= h.len(),
    ensures
        spent_from(h.take(to), from) == spent(system, history, answers, from, to),
    decreases to,
{
    if from < to {
        lemma_spent(system, history, answers, h, from, to - 1);
        assert(h.take(to).drop_last() =~= h.take(to - 1));
        assert(h.take(to).last() == h[to - 1]);
    }
}

/// What the engine is asked to count: the system block first, where there is one, and then
/// the text of each message without a token number, in order. The answer that a message
/// counts with is the answer for its own text.
pub proof fn law_each_text_is_counted(system: Seq<char>, history: Seq<Message>)
    ensures
        ({
            let lead: int = if system.len() > 0 {
                1
            } else {
                0
            };
            let asked = queries(system, history);
            &&& asked.len() == lead + uncounted(history, history.len() as int)
            &&& system.len() > 0 ==> asked[0] == system
            &&& forall|i: int|
                0 <= i < history.len() && (#[trigger] history[i]).token_count <= 0
                    ==> asked[lead + uncounted(history, i)] == history[i].content@
        }),
{
    let lead: int = if system.len() > 0 {
        1
    } else {
        0
    };
    let n = history.len() as int;
    lemma_missing(history);
    lemma_uncounted(history, n);
    assert(history.take(n) =~= history);
    assert forall|i: int|
        0 <= i < history.len() && (#[trigger] history[i]).token_count <= 0 implies queries(
        system,
        history,
    )[lead + uncounted(history, i)] == history[i].content@ by {
        lemma_missing_at(history, i);
    }
}

proof fn lemma_missing_at(history: Seq<Message>, i: int)
    requires
        0 <= i < history.len(),
        history[i].token_count <= 0,
    ensures
        0 <= uncounted(history, i) < missing_texts(history).len(),
        missing_texts(history)[uncounted(history, i)] == history[i].content@,
    decreases history.len(),
{
    let front = history.drop_last();
    lemma_missing(front);
    lemma_uncounted(history, i);
    if i < history.len() - 1 {
        lemma_missing_at(front, i);
        lemma_uncounted(front, i);
        assert(front.take(i) =~= history.take(i));
    } else {
        assert(history.take(i) =~= front);
    }
}

/// How the system block is put together: the preamble at the top; with the first memory its
/// lead, and for each memory a line behind those of the memories before it; and the prompt of
/// the session below, behind an empty line where anything stands above it.
pub proof fn law_system_block_parts(
    preamble: Seq<char>,
    memories: Seq<Memory>,
    next: Memory,
    prompt: Seq<char>,
)
    ensures
        system_block(preamble, Seq::empty(), None) == preamble,
        memories.len() == 0 ==> system_block(preamble, memories.push(next), None) == preamble
            + "The following facts about the user persist across all conversations. Honor them in every reply:\n"@
            + "- "@ + next.content@ + "\n"@,
        memories.len() > 0 ==> system_block(preamble, memories.push(next), None) == system_block(
            preamble,
            memories,
            None,
        ) + "- "@ + next.content@ + "\n"@,
        system_block(preamble, memories, None).len() == 0 ==> system_block(
            preamble,
            memories,
            Some(prompt),
        ) == prompt,
        system_block(preamble, memories, None).len() > 0 ==> system_block(
            preamble,
            memories,
            Some(prompt),
        ) == system_block(preamble, memories, None) + "\n"@ + prompt,
{
    let more = memories.push(next);
    assert(more.drop_last() =~= memories);
    assert(system_block(preamble, Seq::empty(), None) =~= preamble);
    if memories.len() == 0 {
        assert(memory_lines(memories) =~= Seq::empty());
        assert(system_block(preamble, more, None) =~= preamble + MEMORIES_LEAD@ + "- "@
            + next.content@ + "\n"@);
    } else {
        assert(system_block(preamble, more, None) =~= system_block(preamble, memories, None)
            + "- "@ + next.content@ + "\n"@);
    }
}

/// A summary names each message by its role and its token number, with commas between.
pub proof fn law_summary_names_each(history: Seq<Message>, next: Message)
    ensures
        summary(Seq::empty()) == Seq::<char>::empty(),
        history.len() > 0 ==> summary(history.push(next)) == summary(history) + ", "@ + summary(
            seq![next],
        ),
        summary(seq![next]) == types::role_text(next.role) + "("@ + text::decimal_int(
            next.token_count as int,
        ) + "t)"@,
{
    assert(history.push(next).drop_last() =~= history);
}

} // verus!
