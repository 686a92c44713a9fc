use pim_core::ai::{AiMessage, AiStore, SaveConversationRequest, SaveMessageRequest};
use pim_core::books::{BookCreate, BookHighlightCreate, BookStore, BookUpdate, ReadingNoteCreate};
use pim_core::cardbox::{CardBoxUpdate, CardStore, CardUpdate};
use pim_core::error::StoreError;
use pim_core::habits::HabitStore;
use pim_core::knowledge::KnowledgeStore;
use pim_core::passwords::{PasswordEntry, PasswordStore};
use pim_core::tasks::{Task, TaskStore, TaskUpdate};
use pim_core::timeline::TimelineStore;

fn s(x: &str) -> String {
    x.to_string()
}

fn no_update() -> CardUpdate {
    CardUpdate {
        title: None,
        content: None,
        preview: None,
        color: None,
        tags: None,
        is_pinned: None,
        is_archived: None,
        sort_order: None,
    }
}

#[test]
fn cards_list_pinned_first_then_by_key() {
    let mut st = CardStore::new();
    st.insert_card_box(s("b"), s("B"), None, None, None, 1).unwrap();
    st.insert_card(s("x"), s("b"), s("x"), s(""), 30).unwrap();
    st.insert_card(s("y"), s("b"), s("y"), s(""), 10).unwrap();
    st.insert_card(s("z"), s("b"), s("z"), s(""), 20).unwrap();
    let mut pin = no_update();
    pin.is_pinned = Some(true);
    st.update_card("x", pin, 40);
    let order: Vec<String> = st.get_cards(None).into_iter().map(|c| c.id).collect();
    assert_eq!(order, vec![s("x"), s("y"), s("z")]);
    let mut touch = no_update();
    touch.color = Some(s("red"));
    st.update_card("y", touch, 50);
    let found: Vec<String> = st.search_cards("").into_iter().map(|c| c.id).collect();
    assert_eq!(found, vec![s("x"), s("y"), s("z")]);
    let card = st.get_card_by_id("y").unwrap();
    assert_eq!(card.color.as_deref(), Some("red"));
    assert_eq!(card.updated_at, 50);
}

fn task(title: &str, project: Option<i64>, status: &str, due: Option<&str>) -> Task {
    Task {
        id: None,
        title: s(title),
        description: None,
        status: s(status),
        priority: s("medium"),
        due_date: due.map(s),
        completed_at: None,
        project_id: project,
        created_at: s("c"),
        updated_at: s("u"),
        deleted_at: None,
    }
}

#[test]
fn task_updates_touch_only_given_fields() {
    let mut st = TaskStore::new();
    let id = st.create_task(task("write", None, "todo", Some("2024-02-01"))).unwrap();
    let upd = TaskUpdate {
        title: None,
        description: Some(s("details")),
        status: Some(s("in_progress")),
        priority: None,
        due_date: Some(s("")),
        completed_at: None,
        project_id: Some(4),
    };
    st.update_task(id, upd, s("later"));
    let t = st.get_all_tasks().pop().unwrap();
    assert_eq!(t.title, "write");
    assert_eq!(t.description.as_deref(), Some("details"));
    assert_eq!(t.status, "in_progress");
    assert_eq!(t.due_date, None);
    assert_eq!(t.project_id, Some(4));
    assert_eq!(t.updated_at, "later");
    let none = TaskUpdate {
        title: None,
        description: None,
        status: None,
        priority: None,
        due_date: None,
        completed_at: None,
        project_id: None,
    };
    st.update_task(id, none, s("never"));
    assert_eq!(st.get_all_tasks()[0].updated_at, "later");
}

#[test]
fn project_stats_count_live_tasks() {
    let mut st = TaskStore::new();
    let p = st.create_task_project(s("Home"), s("h"), None, None, s("now")).unwrap();
    st.create_task(task("a", Some(p), "todo", Some("2023-12-31"))).unwrap();
    st.create_task(task("b", Some(p), "completed", Some("2023-12-01"))).unwrap();
    st.create_task(task("c", Some(p), "todo", Some("2024-01-05"))).unwrap();
    let gone = st.create_task(task("d", Some(p), "todo", Some("2023-01-01"))).unwrap();
    st.create_task(task("e", None, "todo", Some("2023-01-01"))).unwrap();
    st.delete_task(gone, s("now"));
    let stats = st.get_task_project_stats(p, "2024-01-01");
    assert_eq!((stats.total, stats.completed, stats.overdue), (3, 1, 1));
    assert_eq!(st.get_all_task_projects().len(), 1);
}

#[test]
fn habit_stats_and_delete() {
    let mut st = HabitStore::new();
    let h = st.create_habit(s("Read"), None, s("b"), s("blue"), s("daily"), 1, s("t")).unwrap();
    st.record_habit_completion(h, "2024-01-01", 1, None, s("t")).unwrap();
    st.record_habit_completion(h, "2024-01-02", 1, None, s("t")).unwrap();
    let stats = st.get_habit_stats(h, "2024-01-02", 3);
    assert_eq!(stats.total_days, 4);
    assert_eq!(stats.completed_days, 2);
    assert_eq!(stats.current_streak, 1);
    assert_eq!(stats.longest_streak, 1);
    assert_eq!(stats.completion_percent, 50);
    assert_eq!(st.get_habit_stats(h, "2024-01-09", 0).current_streak, 0);
    assert_eq!(st.get_habit_stats(h, "2024-01-09", 0).completion_percent, 100);
    st.delete_habit(h);
    assert!(st.get_habit_by_id(h).is_none());
    assert!(st.get_habit_records(None, None, None).is_empty());
}

#[test]
fn timeline_newest_first() {
    let mut st = TimelineStore::new();
    st.create_timeline_entry(s("2024-01-01"), s("08:00"), s("early"), None, None, Some(100), s("t")).unwrap();
    let late = st.create_timeline_entry(s("2024-01-01"), s("20:00"), s("late"), None, None, Some(900), s("t")).unwrap();
    st.create_timeline_entry(s("2024-01-01"), s("?"), s("undated"), None, None, None, s("t")).unwrap();
    st.create_timeline_entry(s("2024-01-02"), s("09:00"), s("next day"), None, None, Some(1000), s("t")).unwrap();
    let day: Vec<String> = st.get_timeline_entries_by_date("2024-01-01").into_iter().map(|e| e.content).collect();
    assert_eq!(day, vec![s("late"), s("early"), s("undated")]);
    st.delete_timeline_entry(late);
    assert_eq!(st.get_timeline_entries_by_date("2024-01-01").len(), 2);
}

fn msg(id: &str, conv: &str, ts: i64) -> AiMessage {
    SaveMessageRequest {
        id: s(id),
        conversation_id: s(conv),
        role: s("user"),
        content: s("hi"),
        provider: None,
        model: None,
        error: false,
        timestamp: ts,
        created_at: s("t"),
    }
    .into_message()
}

#[test]
fn conversations_own_their_messages() {
    let mut st = AiStore::new();
    let req = SaveConversationRequest {
        id: s("c1"),
        title: s("First"),
        provider: s("p"),
        model: s("m"),
        created_at: s("t"),
        updated_at: s("t"),
    };
    st.save_ai_conversation(req.into_conversation());
    assert_eq!(st.save_ai_message(msg("m1", "nope", 1)), Err(StoreError::OwnerNotFound));
    st.save_ai_message(msg("m2", "c1", 20)).unwrap();
    st.save_ai_message(msg("m1", "c1", 10)).unwrap();
    st.save_ai_message(msg("m2", "c1", 5)).unwrap();
    let ids: Vec<String> = st.get_ai_messages("c1").into_iter().map(|m| m.id).collect();
    assert_eq!(ids, vec![s("m2"), s("m1")]);
    st.update_ai_conversation_title("c1", s("Renamed"), s("t2"));
    let detail = st.get_ai_conversation_detail("c1").unwrap();
    assert_eq!(detail.conversation.title, "Renamed");
    assert_eq!(detail.messages.len(), 2);
    let list = st.get_ai_conversations(Some(10));
    assert_eq!(list.total, 1);
    st.delete_ai_conversation("c1");
    assert!(st.get_ai_conversation_detail("c1").is_none());
    assert!(st.get_ai_messages("c1").is_empty());
    assert_eq!(st.get_ai_conversations(None).total, 0);
}

fn new_book(title: &str) -> BookCreate {
    BookCreate {
        title: s(title),
        author: Some(s("Ann Author")),
        isbn: None,
        cover: None,
        status: None,
        total_pages: Some(300),
        current_page: None,
        rating: None,
        tags: Some(s("classic")),
        description: None,
    }
}

#[test]
fn books_notes_and_highlights() {
    let mut st = BookStore::new();
    let b = st.insert_book(s("b1"), new_book("Dune"), 5).unwrap();
    assert_eq!(b.status, "wanted");
    assert_eq!(b.current_page, 0);
    assert_eq!(st.insert_book(s("b1"), new_book("Again"), 6).err(), Some(StoreError::DuplicateId));
    let n = st
        .insert_reading_note(s("n1"), ReadingNoteCreate { book_id: s("b1"), chapter: None, page_number: Some(3), content: s("spice"), note_type: None }, 7)
        .unwrap();
    assert_eq!(n.note_type, "note");
    let h = st
        .insert_book_highlight(s("h1"), BookHighlightCreate { book_id: s("b1"), note_id: None, text: s("fear"), page_number: None, color: None, notes: None }, 8)
        .unwrap();
    assert_eq!(h.color, "yellow");
    let orphan = ReadingNoteCreate { book_id: s("zz"), chapter: None, page_number: None, content: s("x"), note_type: None };
    assert_eq!(st.insert_reading_note(s("n2"), orphan, 9).err(), Some(StoreError::OwnerNotFound));
    let upd = BookUpdate {
        title: None,
        author: None,
        isbn: None,
        cover: None,
        status: Some(s("reading")),
        total_pages: None,
        current_page: Some(42),
        rating: None,
        tags: None,
        description: None,
        start_date: Some(1),
        finish_date: None,
    };
    st.update_book("b1", upd, 10);
    let got = st.get_book_by_id("b1").unwrap();
    assert_eq!((got.status.as_str(), got.current_page, got.updated_at), ("reading", 42, 10));
    assert_eq!(st.get_books(Some("reading")).len(), 1);
    assert_eq!(st.get_books(Some("wanted")).len(), 0);
    assert_eq!(st.search_books("Ann").len(), 1);
    assert_eq!(st.search_books("classic").len(), 1);
    assert_eq!(st.search_books("absent").len(), 0);
    assert_eq!(st.get_reading_notes("b1").len(), 1);
    assert_eq!(st.get_book_highlights("b1").len(), 1);
    st.delete_book("b1");
    assert!(st.get_book_by_id("b1").is_none());
    assert!(st.get_reading_notes("b1").is_empty());
    assert!(st.get_book_highlights("b1").is_empty());
}

fn entry(title: &str, category: Option<i64>, favorite: bool) -> PasswordEntry {
    PasswordEntry {
        id: None,
        title: s(title),
        username: None,
        password_encrypted: s("sealed"),
        url: None,
        notes: None,
        ip: None,
        db_type: None,
        db_ip: None,
        db_username: None,
        app_name: None,
        category_id: category,
        tags: None,
        is_favorite: favorite,
        last_used_at: None,
        created_at: s(""),
        updated_at: s(""),
    }
}

#[test]
fn deleting_a_category_uncategorises_its_entries() {
    let mut st = PasswordStore::new(vec![]);
    let c = st.create_password_category(s("work"), s("w"), None, s("t")).unwrap();
    st.create_password_entry(entry("a", Some(c), true), s("t")).unwrap();
    st.create_password_entry(entry("b", None, false), s("t")).unwrap();
    assert_eq!(st.get_favorite_password_entries().len(), 1);
    st.delete_password_category(c);
    assert!(st.get_password_categories().is_empty());
    assert!(st.get_password_entries().iter().all(|e| e.category_id.is_none()));
    assert_eq!(st.get_password_entries_by_category(c).len(), 0);
}

#[test]
fn page_and_block_updates() {
    let mut st = KnowledgeStore::new();
    st.insert_knowledge_base(s("kb"), s("Notes"), s("i"), Some(s("Daily Things")), 1).unwrap();
    st.insert_page(s("a"), s("kb"), s("A"), None, 2).unwrap();
    st.insert_page(s("b"), s("kb"), s("B"), Some(s("a")), 3).unwrap();
    assert_eq!(st.update_page("a", None, Some("b"), None, 4), Err(StoreError::CycleRejected));
    assert_eq!(st.update_page("a", Some(s("A2")), None, Some(9), 5), Ok(()));
    let a = st.get_page_by_id("a").unwrap();
    assert_eq!((a.title.as_str(), a.sort_order, a.updated_at), ("A2", 9, 5));
    st.insert_block(s("x"), s("a"), s("text"), s("old"), s("{}"), None, 6).unwrap();
    st.update_block("x", Some(s("new")), None, Some(4), 7);
    let x = st.get_block_by_id("x").unwrap();
    assert_eq!((x.content.as_str(), x.sort_order, x.updated_at), ("new", 4, 7));
    st.update_knowledge_base("kb", Some(s("Journal")), None, None, 8);
    assert_eq!(st.get_knowledge_bases()[0].name, "Journal");
    assert_eq!(st.search_knowledge_bases("daily").len(), 1);
    assert_eq!(st.search_knowledge_bases("JOUR").len(), 1);
    assert!(st.search_knowledge_bases("zzz").is_empty());
}

#[test]
fn task_queries() {
    let mut st = TaskStore::new();
    st.create_task(task("buy milk", Some(1), "todo", Some("2024-03-01"))).unwrap();
    st.create_task(task("file taxes", Some(2), "completed", Some("2024-04-15"))).unwrap();
    st.create_task(task("call mom", Some(1), "todo", None)).unwrap();
    let titles = |v: Vec<Task>| -> Vec<String> { v.into_iter().map(|t| t.title).collect() };
    assert_eq!(titles(st.get_tasks_by_status(s("completed"))), vec![s("file taxes")]);
    assert_eq!(titles(st.get_tasks_by_project(1)), vec![s("buy milk"), s("call mom")]);
    assert_eq!(titles(st.get_tasks_by_date_range(Some(s("2024-03-01")), Some(s("2024-03-31")))), vec![s("buy milk")]);
    assert_eq!(titles(st.get_tasks_by_date_range(None, None)).len(), 3);
    assert_eq!(titles(st.search_tasks(s("tax"))), vec![s("file taxes")]);
}

#[test]
fn page_content_and_versions() {
    let mut st = KnowledgeStore::new();
    st.insert_knowledge_base(s("kb"), s("KB"), s("i"), None, 1).unwrap();
    st.insert_page(s("p"), s("kb"), s("P"), None, 2).unwrap();
    assert_eq!(st.get_page_content("p").unwrap(), "{\"time\":0,\"blocks\":[],\"version\":\"2.30.8\"}");
    assert_eq!(st.save_page_content("nope", s("x"), None, s("v0"), 3), Err(StoreError::NotFound));
    st.save_page_content("p", s("first"), Some(1), s("v1"), 3).unwrap();
    st.save_page_content("p", s("second"), None, s("v2"), 4).unwrap();
    assert_eq!(st.get_page_content("p").unwrap(), "second");
    let versions = st.get_page_versions("p");
    assert_eq!(versions.len(), 1);
    assert_eq!((versions[0].content.as_str(), versions[0].version), ("first", 1));
    st.delete_page("p", 5);
    assert_eq!(st.get_page_content("p"), Err(StoreError::NotFound));
    st.delete_knowledge_base("kb");
    assert!(st.get_page_versions("p").is_empty());
}

#[test]
fn vault_search_and_update() {
    let mut st = PasswordStore::new(vec![]);
    let mut e = entry("GitHub", None, false);
    e.username = Some(s("octocat"));
    let id = st.create_password_entry(e, s("t0")).unwrap();
    let mut db = entry("Prod DB", None, false);
    db.db_ip = Some(s("10.0.0.5"));
    st.create_password_entry(db, s("t0")).unwrap();
    assert_eq!(st.search_password_entries("github").len(), 1);
    assert_eq!(st.search_password_entries("OCTO").len(), 1);
    assert_eq!(st.search_password_entries("10.0.0").len(), 1);
    assert!(st.search_password_entries("nothing").is_empty());
    let mut changed = entry("GitLab", None, true);
    changed.created_at = s("ignored");
    st.update_password_entry(id, changed, s("t1")).unwrap();
    let got = st.get_password_entries();
    assert_eq!(got[0].title, "GitLab");
    assert_eq!(got[0].id, Some(id));
    assert_eq!(got[0].created_at, "t0");
    assert_eq!(got[0].updated_at, "t1");
    assert!(got[0].is_favorite);
    assert_eq!(st.update_password_entry(id, entry("x", Some(77), false), s("t2")), Err(StoreError::OwnerNotFound));
}

#[test]
fn conversation_search_reads_titles_and_messages() {
    let mut st = AiStore::new();
    for (id, title) in [("c1", "Rust questions"), ("c2", "Cooking"), ("c3", "Travel")] {
        let req = SaveConversationRequest {
            id: s(id),
            title: s(title),
            provider: s("p"),
            model: s("m"),
            created_at: s("t"),
            updated_at: s("t"),
        };
        st.save_ai_conversation(req.into_conversation());
    }
    let mut m = msg("m1", "c2", 1);
    m.content = s("How long to boil RUST-colored beans?");
    st.save_ai_message(m).unwrap();
    let ids = |v: Vec<pim_core::ai::AiConversation>| -> Vec<String> { v.into_iter().map(|c| c.id).collect() };
    assert_eq!(ids(st.search_ai_conversations("rust", None)), vec![s("c1"), s("c2")]);
    assert_eq!(ids(st.search_ai_conversations("rust", Some(1))), vec![s("c1")]);
    assert!(st.search_ai_conversations("ski", None).is_empty());
}

#[test]
fn box_update_keeps_counter() {
    let mut st = CardStore::new();
    st.insert_card_box(s("b"), s("Old"), None, None, None, 1).unwrap();
    st.insert_card(s("c"), s("b"), s("t"), s(""), 2).unwrap();
    let upd = CardBoxUpdate { name: Some(s("New")), description: None, color: Some(s("blue")), icon: None, sort_order: Some(7) };
    st.update_card_box("b", upd, 3);
    let b = &st.get_card_boxes()[0];
    assert_eq!((b.name.as_str(), b.color.as_deref(), b.sort_order, b.cards_count, b.updated_at), ("New", Some("blue"), 7, 1, 3));
}

#[test]
fn project_delete_keeps_tasks() {
    let mut st = TaskStore::new();
    let p = st.create_task_project(s("P"), s("i"), None, None, s("t")).unwrap();
    st.create_task(task("a", Some(p), "todo", None)).unwrap();
    assert_eq!(st.get_task_project_by_id(p).unwrap().name, "P");
    st.delete_task_project(p);
    assert!(st.get_task_project_by_id(p).is_none());
    assert_eq!(st.get_all_tasks()[0].project_id, None);
}

#[test]
fn habit_update_and_record_delete() {
    let mut st = HabitStore::new();
    let h = st.create_habit(s("Walk"), None, s("w"), s("green"), s("daily"), 1, s("t0")).unwrap();
    st.update_habit(h, s("Walk more"), Some(s("10k steps")), s("w"), s("green"), s("daily"), 2, false, s("t1"));
    let got = st.get_habit_by_id(h).unwrap();
    assert_eq!((got.name.as_str(), got.target_count, got.is_active, got.created_at.as_str()), ("Walk more", 2, false, "t0"));
    let r = st.record_habit_completion(h, "2024-05-01", 1, None, s("t2")).unwrap();
    st.delete_habit_record(r);
    assert!(st.get_habit_records(Some(h), None, None).is_empty());
}

#[test]
fn conversation_sync_is_all_or_nothing() {
    let mut st = AiStore::new();
    let conv = |id: &str| SaveConversationRequest {
        id: s(id),
        title: s("t"),
        provider: s("p"),
        model: s("m"),
        created_at: s("t"),
        updated_at: s("t"),
    };
    let req = |id: &str, c: &str| SaveMessageRequest {
        id: s(id),
        conversation_id: s(c),
        role: s("user"),
        content: s("x"),
        provider: None,
        model: None,
        error: false,
        timestamp: 1,
        created_at: s("t"),
    };
    assert_eq!(st.sync_ai_conversation_with_messages(conv("c1"), vec![req("m1", "c1"), req("m2", "elsewhere")]), Err(StoreError::OwnerNotFound));
    assert!(st.get_ai_conversation_detail("c1").is_none());
    assert_eq!(st.sync_ai_conversation_with_messages(conv("c1"), vec![req("m1", "c1"), req("m2", "c1")]), Ok(()));
    assert_eq!(st.get_ai_messages("c1").len(), 2);
}

#[test]
fn stored_password_lookup_and_entry_delete() {
    let mut st = PasswordStore::new(vec![]);
    let id = st.create_password_entry(entry("mail", None, false), s("t0")).unwrap();
    assert_eq!(st.get_decrypted_password(id, s("t1")), Ok(s("sealed")));
    assert_eq!(st.get_password_entries()[0].last_used_at.as_deref(), Some("t1"));
    assert_eq!(st.get_decrypted_password(id + 1, s("t2")), Err(StoreError::NotFound));
    st.delete_password_entry(id);
    assert!(st.get_password_entries().is_empty());
}

#[test]
fn block_search_and_recent_timeline() {
    let mut st = KnowledgeStore::new();
    st.insert_knowledge_base(s("kb"), s("K"), s("i"), None, 1).unwrap();
    st.insert_page(s("p"), s("kb"), s("P"), None, 2).unwrap();
    st.insert_block(s("b1"), s("p"), s("text"), s("Hello World"), s("{}"), None, 3).unwrap();
    st.insert_block(s("b2"), s("p"), s("text"), s("goodbye"), s("{}"), None, 4).unwrap();
    let ids: Vec<String> = st.search_blocks("p", "WORLD").into_iter().map(|b| b.id).collect();
    assert_eq!(ids, vec![s("b1")]);
    let mut tl = TimelineStore::new();
    for (c, ts) in [("a", 5), ("b", 9), ("c", 1)] {
        tl.create_timeline_entry(s("2024-01-01"), s("t"), s(c), None, None, Some(ts), s("now")).unwrap();
    }
    let recent: Vec<String> = tl.get_recent_timeline_entries(2).into_iter().map(|e| e.content).collect();
    assert_eq!(recent, vec![s("b"), s("a")]);
    assert_eq!(tl.get_recent_timeline_entries(10).len(), 3);
}

#[test]
fn category_rename_keeps_names_unique() {
    let mut st = PasswordStore::new(vec![]);
    let a = st.create_password_category(s("a"), s("i"), None, s("t")).unwrap();
    st.create_password_category(s("b"), s("i"), None, s("t")).unwrap();
    assert_eq!(st.update_password_category(a, s("b"), s("x"), None), Err(StoreError::DuplicateId));
    assert_eq!(st.update_password_category(a, s("a2"), s("x"), Some(s("red"))), Ok(()));
    let cats = st.get_password_categories();
    assert_eq!((cats[0].name.as_str(), cats[0].icon.as_str(), cats[0].color.as_deref()), ("a2", "x", Some("red")));
}

#[test]
fn knowledge_page_search_newest_first_with_limit() {
    let mut st = KnowledgeStore::new();
    st.insert_knowledge_base(s("kb"), s("Notes"), s("i"), None, 1).unwrap();
    st.insert_knowledge_base(s("kb2"), s("Other"), s("i"), None, 1).unwrap();
    st.insert_page(s("a"), s("kb"), s("Rust basics"), None, 10).unwrap();
    st.insert_page(s("b"), s("kb"), s("Child"), Some(s("a")), 20).unwrap();
    st.insert_page(s("c"), s("kb2"), s("rust elsewhere"), None, 30).unwrap();
    st.insert_page(s("d"), s("kb"), s("Gone rust"), None, 40).unwrap();
    st.save_page_content("b", s("learning RUST"), None, s("v"), 25).unwrap();
    st.delete_page("d", 50);
    let r = st.search_knowledge_pages("rust", None, 10, false);
    let ids: Vec<&str> = r.iter().map(|p| p.id.as_str()).collect();
    assert_eq!(ids, vec!["c", "b", "a"]);
    assert_eq!(r[1].parent_title.as_deref(), Some("Rust basics"));
    assert_eq!(r[1].kb_name, "Notes");
    assert_eq!(r[1].content, None);
    let r = st.search_knowledge_pages("rust", Some("kb"), 1, true);
    assert_eq!(r.len(), 1);
    assert_eq!(r[0].id, "b");
    assert_eq!(r[0].content.as_deref(), Some("learning RUST"));
    assert_eq!(st.search_knowledge_pages("  ", Some("kb"), 10, false).len(), 2);
}

#[test]
fn migration_keeps_columns_single_and_reports_success() {
    let mut st = PasswordStore::new(vec![s("id"), s("ip")]);
    assert_eq!(st.migrate(s("t")), Ok(()));
    assert_eq!(st.migrate(s("t2")), Ok(()));
    assert_eq!(st.get_password_categories().len(), 4);
}

#[test]
fn orders_of_records_ranges_and_recent_pages() {
    let mut hs = HabitStore::new();
    let h = hs.create_habit(s("H"), None, s("i"), s("c"), s("daily"), 1, s("t")).unwrap();
    for d in ["2024-01-02", "2024-01-03", "2024-01-01"] {
        hs.record_habit_completion(h, d, 1, None, s("t")).unwrap();
    }
    let dates: Vec<String> = hs.get_habit_records(Some(h), None, None).into_iter().map(|r| r.date).collect();
    assert_eq!(dates, vec![s("2024-01-03"), s("2024-01-02"), s("2024-01-01")]);

    let mut ts = TaskStore::new();
    ts.create_task(task("late", None, "todo", Some("2024-05-01"))).unwrap();
    ts.create_task(task("none", None, "todo", None)).unwrap();
    ts.create_task(task("early", None, "todo", Some("2024-01-01"))).unwrap();
    let titles: Vec<String> = ts.get_tasks_by_date_range(None, None).into_iter().map(|t| t.title).collect();
    assert_eq!(titles, vec![s("early"), s("late"), s("none")]);
    let p = ts.create_task_project(s("P"), s("i"), None, None, s("t")).unwrap();
    ts.update_task_project(p, Some(s("Renamed")), None, Some(s("red")), None);
    let proj = ts.get_task_project_by_id(p).unwrap();
    assert_eq!((proj.name.as_str(), proj.color.as_deref()), ("Renamed", Some("red")));

    let mut ks = KnowledgeStore::new();
    ks.insert_knowledge_base(s("kb"), s("K"), s("i"), None, 1).unwrap();
    ks.insert_page(s("old"), s("kb"), s("alpha note"), None, 5).unwrap();
    ks.insert_page(s("new"), s("kb"), s("alpha other"), None, 9).unwrap();
    let recent: Vec<String> = ks.get_recent_pages(10).into_iter().map(|p| p.id).collect();
    assert_eq!(recent, vec![s("new"), s("old")]);
    let found: Vec<String> = ks.search_pages("kb", "alpha").into_iter().map(|p| p.id).collect();
    assert_eq!(found, vec![s("new"), s("old")]);
}

#[test]
fn old_conversations_are_cleaned_with_their_messages() {
    let mut st = AiStore::new();
    for (id, upd) in [("old", "2023-01-01 10:00:00"), ("new", "2024-06-01 10:00:00")] {
        let req = SaveConversationRequest {
            id: s(id),
            title: s("t"),
            provider: s("p"),
            model: s("m"),
            created_at: s(upd),
            updated_at: s(upd),
        };
        st.save_ai_conversation(req.into_conversation());
        st.save_ai_message(msg(&format!("m-{}", id), id, 1)).unwrap();
    }
    assert_eq!(st.cleanup_old_ai_conversations("2024-01-01 00:00:00"), 1);
    assert!(st.get_ai_conversation_detail("old").is_none());
    assert!(st.get_ai_messages("old").is_empty());
    assert_eq!(st.get_ai_messages("new").len(), 1);
}
