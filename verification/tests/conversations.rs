use forge_ai::conversations::sort_newest_first;
use forge_ai::model::Conversation;
use forge_ai::records::{remove_by_id, upsert_by_id};

fn conversation(id: &str, updated_at: u64) -> Conversation {
    Conversation {
        id: id.to_string(),
        title: format!("Chat {id}"),
        connection_id: "c".to_string(),
        model: "m".to_string(),
        messages: vec![],
        updated_at,
    }
}

fn ids(list: &[Conversation]) -> Vec<&str> {
    list.iter().map(|c| c.id.as_str()).collect()
}

#[test]
fn newest_first_and_stable() {
    let items = vec![conversation("a", 5), conversation("b", 9), conversation("c", 5), conversation("d", 1), conversation("e", 9)];
    let sorted = sort_newest_first(items);
    assert_eq!(ids(&sorted), vec!["b", "e", "a", "c", "d"]);
    assert!(sort_newest_first(vec![]).is_empty());
}

#[test]
fn saved_conversation_replaces_or_appends() {
    let mut items = vec![conversation("a", 1), conversation("b", 2)];
    upsert_by_id(&mut items, conversation("a", 7));
    assert_eq!(ids(&items), vec!["a", "b"]);
    assert_eq!(items[0].updated_at, 7);
    upsert_by_id(&mut items, conversation("z", 3));
    assert_eq!(ids(&items), vec!["a", "b", "z"]);
    let kept = remove_by_id(items, &"b".to_string());
    assert_eq!(ids(&kept), vec!["a", "z"]);
    let kept = remove_by_id(kept, &"missing".to_string());
    assert_eq!(ids(&kept), vec!["a", "z"]);
}
