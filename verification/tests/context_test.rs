use co_worker_lite::context::{
    debug_summary, group_into_pairs, trailing_user_index, ContextManager, PromptBuilder,
};
use co_worker_lite::model::engine::ChatTurn;
use co_worker_lite::types::{Memory, Message, Role, Timestamp};

fn t(role: Role, content: &str, tokens: i64) -> (ChatTurn, i64) {
    (
        ChatTurn {
            role,
            content: content.into(),
        },
        tokens,
    )
}

#[test]
fn pairs_group_user_then_assistant() {
    let h = vec![
        t(Role::User, "q1", 10),
        t(Role::Assistant, "a1", 20),
        t(Role::User, "q2", 5),
        t(Role::Assistant, "a2", 15),
        t(Role::User, "q3", 7),
    ];
    let pairs = group_into_pairs(&h);
    assert_eq!(pairs.len(), 3);
    assert_eq!(pairs[0].tokens, 30);
    assert_eq!(pairs[1].tokens, 20);
    assert_eq!(pairs[2].tokens, 7); // trailing user
}

#[test]
fn trailing_user_detected() {
    let h = vec![
        t(Role::User, "q1", 10),
        t(Role::Assistant, "a1", 20),
        t(Role::User, "q2", 5),
    ];
    assert_eq!(trailing_user_index(&h), Some(2));

    let h2 = vec![
        t(Role::User, "q1", 10),
        t(Role::Assistant, "a1", 20),
    ];
    assert_eq!(trailing_user_index(&h2), None);
}

fn at(secs: i64) -> Timestamp {
    Timestamp { secs, nanos: 0 }
}

fn message(role: Role, content: &str, tokens: i64) -> Message {
    Message {
        id: 1,
        session_id: 2,
        role,
        content: content.to_string(),
        token_count: tokens,
        created_at: at(0),
        metadata: serde_json::Value::Null,
    }
}

fn memory(content: &str) -> Memory {
    Memory {
        id: 3,
        content: content.to_string(),
        source: "manual".to_string(),
        created_at: at(0),
        updated_at: at(0),
    }
}

fn contents(turns: &[ChatTurn]) -> Vec<String> {
    turns.iter().map(|t| t.content.clone()).collect()
}

#[test]
fn replies_before_the_first_question_stand_alone() {
    let h = vec![
        t(Role::Assistant, "hi", 1),
        t(Role::System, "s", 100),
        t(Role::Tool, "r", 2),
        t(Role::User, "q", 3),
        t(Role::Tool, "r2", 4),
        t(Role::Assistant, "a", 5),
    ];
    let pairs = group_into_pairs(&h);
    let indices: Vec<Vec<usize>> = pairs.iter().map(|p| p.indices.clone()).collect();
    assert_eq!(indices, vec![vec![0], vec![2], vec![3, 4, 5]]);
    assert_eq!(pairs[2].tokens, 12);
}

#[test]
fn token_sums_do_not_overflow() {
    let h = vec![t(Role::User, "q", i64::MAX), t(Role::Assistant, "a", i64::MAX)];
    assert_eq!(group_into_pairs(&h)[0].tokens, 2 * (i64::MAX as i128));
}

#[test]
fn system_messages_do_not_hide_the_trailing_question() {
    let h = vec![t(Role::User, "q", 1), t(Role::System, "s", 1)];
    assert_eq!(trailing_user_index(&h), Some(0));
    assert_eq!(trailing_user_index(&[]), None);
}

#[test]
fn the_oldest_pairs_go_first() {
    let history = vec![
        message(Role::User, "q1", 10),
        message(Role::Assistant, "a1", 10),
        message(Role::User, "q2", 100),
        message(Role::Assistant, "a2", 100),
        message(Role::User, "q3", 5),
        message(Role::Assistant, "a3", 5),
        message(Role::User, "q4", 7),
    ];
    let memories = vec![];
    let cm = ContextManager::new(&history, &memories);
    let counts = vec![0; 7];
    // Room for the newest pair only: the middle one is too large, and the oldest does
    // not jump the queue.
    let turns = cm.build("", 0, &counts, 150, Some(100));
    assert_eq!(contents(&turns), vec!["q3", "a3", "q4"]);
    let all = cm.build("", 0, &counts, 237 + 100, Some(100));
    assert_eq!(all.len(), 7);
    let one_short = cm.build("", 0, &counts, 236 + 100, Some(100));
    assert_eq!(contents(&one_short), vec!["q2", "a2", "q3", "a3", "q4"]);
}

#[test]
fn the_newest_question_and_the_system_block_always_stay() {
    let history = vec![
        message(Role::User, "q1", 10),
        message(Role::User, "q2", 1000),
    ];
    let memories = vec![];
    let cm = ContextManager::new(&history, &memories);
    let turns = cm.build("be kind", 50, &vec![0, 0], 100, None);
    assert_eq!(contents(&turns), vec!["be kind", "q2"]);
    assert_eq!(turns[0].role, Role::System);

    // A question that was answered stays with its answer.
    let history = vec![
        message(Role::User, "q", 1000),
        message(Role::Assistant, "a", 1000),
        message(Role::Tool, "r", 1000),
    ];
    let cm = ContextManager::new(&history, &memories);
    let turns = cm.build("", 0, &vec![0, 0, 0], 10, None);
    assert_eq!(contents(&turns), vec!["q", "a", "r"]);
}

#[test]
fn the_reply_gets_its_share_of_the_window() {
    let history = vec![
        message(Role::User, "q1", 5),
        message(Role::Assistant, "a1", 5),
        message(Role::User, "q2", 5),
    ];
    let memories = vec![];
    let cm = ContextManager::new(&history, &memories);
    let counts = vec![0, 0, 0];
    assert_eq!(cm.build("", 0, &counts, 1024 + 15, None).len(), 3);
    assert_eq!(cm.build("", 0, &counts, 1024 + 14, None).len(), 1);
    assert_eq!(cm.build("", 0, &counts, 15, Some(0)).len(), 3);
}

#[test]
fn the_system_block_stacks_preamble_memories_and_prompt() {
    let history = vec![];
    let memories = vec![memory("The user's name is Bob."), memory("x")];
    let cm = ContextManager::new(&history, &memories);
    assert_eq!(
        cm.system_text("TOOLS\n", &Some("Be brief.".to_string())),
        "TOOLS\nThe following facts about the user persist across all conversations. Honor them in every reply:\n- The user's name is Bob.\n- x\n\nBe brief."
    );
    let none = vec![];
    let cm = ContextManager::new(&history, &none);
    assert_eq!(cm.system_text("", &Some("Be brief.".to_string())), "Be brief.");
    assert_eq!(cm.system_text("", &None), "");
}

#[test]
fn only_what_is_not_counted_yet_is_asked_for() {
    let history = vec![
        message(Role::User, "one two", 0),
        message(Role::Assistant, "stored", 9),
        message(Role::User, "three", -1),
    ];
    let mut b = PromptBuilder::start("", &Some("sys".to_string()), history, vec![], 1000, Some(10));
    let mut asked = Vec::new();
    while let Some(text) = b.next_text() {
        asked.push(text.clone());
        b.answer(text.len());
    }
    assert_eq!(asked, vec!["sys", "one two", "three"]);
    let turns = b.finish();
    assert_eq!(contents(&turns), vec!["sys", "one two", "stored", "three"]);
}

#[test]
fn summaries_name_roles_and_tokens() {
    let history = vec![
        message(Role::User, "q", 12),
        message(Role::Assistant, "a", 0),
        message(Role::Tool, "r", -3),
    ];
    assert_eq!(debug_summary(&history), "user(12t), assistant(0t), tool(-3t)");
    assert_eq!(debug_summary(&[]), "");
}
