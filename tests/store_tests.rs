use pim_core::cardbox::{CardStore, CardUpdate};
use pim_core::error::StoreError;
use pim_core::habits::HabitStore;
use pim_core::knowledge::{key_between, KnowledgeStore};
use pim_core::passwords::{PasswordEntry, PasswordStore};
use pim_core::preview::generate_preview_from_html;
use pim_core::tasks::{FilterDates, Task, TaskFilter, TaskStore, parse_task_filter};

fn s(x: &str) -> String {
    x.to_string()
}

#[test]
fn preview_joins_heading_and_paragraphs() {
    let p = generate_preview_from_html("<h1>Title</h1><p>Line one</p><p>Line two</p>");
    assert_eq!(p, "Title\nLine one\nLine two");
}

#[test]
fn preview_keeps_five_lines() {
    let p = generate_preview_from_html("<p>1</p><p>2</p><p>3</p><p>4</p><p>5</p><p>6</p>");
    assert_eq!(p, "1\n2\n3\n4\n5");
}

#[test]
fn preview_strips_other_tags_and_blank_lines() {
    let p = generate_preview_from_html("<ul><li>a</li><li><b>b</b></li></ul><br><br>&nbsp;x&nbsp;<div>y</div>");
    assert_eq!(p, "\u{2022} a\n\u{2022} b\nx y");
    assert_eq!(generate_preview_from_html(""), "");
    assert_eq!(generate_preview_from_html("a < b"), "a < b");
}

#[test]
fn card_counts_follow_create_move_delete() {
    let mut st = CardStore::new();
    let a = st.insert_card_box(s("a"), s("A"), None, None, None, 1).unwrap();
    let b = st.insert_card_box(s("b"), s("B"), None, None, None, 2).unwrap();
    assert_eq!(a.cards_count, 0);
    assert_eq!(st.insert_card_box(s("a"), s("again"), None, None, None, 3).err(), Some(StoreError::DuplicateId));
    st.insert_card(s("c1"), s("a"), s("one"), s("<p>x</p>"), 10).unwrap();
    st.insert_card(s("c2"), s("a"), s("two"), s("<p>y</p>"), 11).unwrap();
    assert_eq!(st.insert_card(s("c3"), s("zz"), s("t"), s(""), 12).err(), Some(StoreError::OwnerNotFound));
    assert_eq!(st.insert_card(s("c1"), s("b"), s("t"), s(""), 12).err(), Some(StoreError::DuplicateId));
    let counts = |st: &CardStore| -> Vec<u64> { st.get_card_boxes().iter().map(|x| x.cards_count).collect() };
    assert_eq!(counts(&st), vec![2, 0]);
    st.move_card("c1", "b", 20).unwrap();
    assert_eq!(counts(&st), vec![1, 1]);
    assert_eq!(st.move_card("c1", "nowhere", 21), Err(StoreError::OwnerNotFound));
    assert_eq!(st.delete_card_box("a"), Err(StoreError::BoxNotEmpty));
    st.delete_card("c2");
    assert_eq!(counts(&st), vec![0, 1]);
    assert_eq!(st.delete_card_box("a"), Ok(()));
    assert_eq!(st.get_card_boxes().len(), 1);
    assert_eq!(b.id, "b");
}

#[test]
fn card_search_follows_writes() {
    let mut st = CardStore::new();
    st.insert_card_box(s("box"), s("Box"), None, None, None, 1).unwrap();
    let c = st.insert_card(s("c1"), s("box"), s("rust notes"), s("<p>borrow checker</p>"), 5).unwrap();
    assert_eq!(c.preview.as_deref(), Some("borrow checker"));
    let ids = |st: &CardStore, q: &str| -> Vec<String> { st.search_cards(q).into_iter().map(|x| x.id).collect() };
    assert_eq!(ids(&st, "rust"), vec![s("c1")]);
    assert_eq!(ids(&st, "checker"), vec![s("c1")]);
    let upd = CardUpdate {
        title: Some(s("go notes")),
        content: Some(s("<p>goroutines</p>")),
        preview: None,
        color: None,
        tags: None,
        is_pinned: Some(true),
        is_archived: None,
        sort_order: None,
    };
    st.update_card("c1", upd, 9);
    assert!(ids(&st, "rust").is_empty());
    assert_eq!(ids(&st, "goroutines"), vec![s("c1")]);
    let card = st.get_card_by_id("c1").unwrap();
    assert!(card.is_pinned);
    assert_eq!(card.updated_at, 9);
    assert_eq!(card.preview.as_deref(), Some("goroutines"));
    st.delete_card("c1");
    assert!(ids(&st, "go").is_empty());
    assert!(st.get_card_by_id("c1").is_none());
}

#[test]
fn archived_cards_are_not_listed() {
    let mut st = CardStore::new();
    st.insert_card_box(s("box"), s("Box"), None, None, None, 1).unwrap();
    st.insert_card(s("c1"), s("box"), s("kept"), s(""), 5).unwrap();
    st.insert_card(s("c2"), s("box"), s("hidden"), s(""), 6).unwrap();
    let upd = CardUpdate {
        title: None,
        content: None,
        preview: None,
        color: None,
        tags: None,
        is_pinned: None,
        is_archived: Some(true),
        sort_order: None,
    };
    st.update_card("c2", upd, 7);
    let listed: Vec<String> = st.get_cards(Some("box")).into_iter().map(|c| c.id).collect();
    assert_eq!(listed, vec![s("c1")]);
    assert!(st.search_cards("hidden").is_empty());
}

fn kb_with_tree() -> KnowledgeStore {
    let mut st = KnowledgeStore::new();
    st.insert_knowledge_base(s("kb"), s("KB"), s("book"), None, 1).unwrap();
    st.insert_knowledge_base(s("kb2"), s("Other"), s("book"), None, 1).unwrap();
    st.insert_page(s("root"), s("kb"), s("Root"), None, 2).unwrap();
    st.insert_page(s("child"), s("kb"), s("Child"), Some(s("root")), 3).unwrap();
    st.insert_page(s("grand"), s("kb"), s("Grand"), Some(s("child")), 4).unwrap();
    st.insert_page(s("other"), s("kb2"), s("Elsewhere"), None, 5).unwrap();
    st.insert_block(s("b1"), s("child"), s("text"), s("hello world"), s("{}"), None, 6).unwrap();
    st.insert_block(s("b2"), s("other"), s("text"), s("far away"), s("{}"), None, 7).unwrap();
    st
}

#[test]
fn sibling_keys_and_order() {
    let mut st = KnowledgeStore::new();
    st.insert_knowledge_base(s("kb"), s("KB"), s("i"), None, 1).unwrap();
    let p1 = st.insert_page(s("p1"), s("kb"), s("one"), None, 2).unwrap();
    let p2 = st.insert_page(s("p2"), s("kb"), s("two"), None, 3).unwrap();
    assert_eq!((p1.sort_order, p2.sort_order), (1, 2));
    assert_eq!(key_between(1, 2), None);
    assert_eq!(key_between(1, 3), Some(2));
    let k = key_between(10, 20).unwrap();
    assert!(10 < k && k < 20);
    st.insert_page(s("p3"), s("kb"), s("three"), None, 4).unwrap();
    st.move_page("p3", None, 0, 5).unwrap();
    let order: Vec<String> = st.get_pages("kb", None).into_iter().map(|p| p.id).collect();
    assert_eq!(order, vec![s("p3"), s("p1"), s("p2")]);
    assert_eq!(st.insert_page(s("px"), s("kb"), s("bad"), Some(s("missing")), 6).err(), Some(StoreError::OwnerNotFound));
    assert_eq!(st.insert_page(s("px"), s("nokb"), s("bad"), None, 6).err(), Some(StoreError::OwnerNotFound));
}

#[test]
fn soft_deleted_pages_are_hidden_but_stored() {
    let mut st = kb_with_tree();
    st.delete_page("child", 9);
    let all: Vec<String> = st.get_all_pages("kb").into_iter().map(|p| p.id).collect();
    assert_eq!(all, vec![s("root")]);
    assert!(st.get_pages("kb", Some("root")).is_empty());
    assert!(st.search_pages("kb", "grand").is_empty());
    assert!(st.get_page_by_id("grand").unwrap().is_deleted);
    assert!(st.get_page_by_id("child").unwrap().is_deleted);
    assert!(!st.get_page_by_id("root").unwrap().is_deleted);
    assert!(st.get_block_by_id("b1").unwrap().is_deleted);
    assert!(st.get_blocks("child", None).is_empty());
}

#[test]
fn deleting_a_knowledge_base_cascades() {
    let mut st = kb_with_tree();
    st.delete_knowledge_base("kb");
    assert!(st.get_page_by_id("root").is_none());
    assert!(st.get_page_by_id("grand").is_none());
    assert!(st.get_block_by_id("b1").is_none());
    assert!(st.get_page_by_id("other").is_some());
    assert!(st.get_block_by_id("b2").is_some());
    assert_eq!(st.get_knowledge_bases().len(), 1);
}

#[test]
fn breadcrumbs_and_cycle_guard() {
    let mut st = kb_with_tree();
    let crumbs: Vec<String> = st.get_page_breadcrumb("grand").into_iter().map(|p| p.id).collect();
    assert_eq!(crumbs, vec![s("root"), s("child"), s("grand")]);
    assert!(st.get_page_breadcrumb("nope").is_empty());
    assert_eq!(st.move_page("root", Some("grand"), 1, 10), Err(StoreError::CycleRejected));
    assert_eq!(st.move_page("root", Some("root"), 1, 10), Err(StoreError::CycleRejected));
    assert_eq!(st.move_page("root", Some("other"), 1, 10), Err(StoreError::OwnerNotFound));
    assert_eq!(st.move_page("grand", None, 7, 10), Ok(()));
    let crumbs: Vec<String> = st.get_page_breadcrumb("grand").into_iter().map(|p| p.id).collect();
    assert_eq!(crumbs, vec![s("grand")]);
}

#[test]
fn page_search_ignores_ascii_case_and_reads_blocks() {
    let st = kb_with_tree();
    let found: Vec<String> = st.search_pages("kb", "WORLD").into_iter().map(|p| p.id).collect();
    assert_eq!(found, vec![s("child")]);
    let found: Vec<String> = st.search_pages("kb", "gRaNd").into_iter().map(|p| p.id).collect();
    assert_eq!(found, vec![s("grand")]);
    assert!(st.search_pages("kb2", "hello").is_empty());
}

#[test]
fn blocks_order_and_delete() {
    let mut st = kb_with_tree();
    let b3 = st.insert_block(s("b3"), s("child"), s("text"), s("second"), s("{}"), None, 8).unwrap();
    assert_eq!(b3.sort_order, 2);
    st.move_block("b3", None, 0, 9);
    let order: Vec<String> = st.get_blocks("child", None).into_iter().map(|b| b.id).collect();
    assert_eq!(order, vec![s("b3"), s("b1")]);
    st.delete_block("b3");
    assert!(st.get_block_by_id("b3").is_none());
    assert_eq!(st.insert_block(s("b9"), s("ghost"), s("t"), s(""), s(""), None, 1).err(), Some(StoreError::OwnerNotFound));
}

#[test]
fn second_completion_replaces_first() {
    let mut st = HabitStore::new();
    let h = st.create_habit(s("Run"), None, s("r"), s("red"), s("daily"), 1, s("2024-01-01 08:00:00")).unwrap();
    st.record_habit_completion(h, "2024-01-02", 1, None, s("t1")).unwrap();
    st.record_habit_completion(h, "2024-01-02", 3, Some(s("more")), s("t2")).unwrap();
    st.record_habit_completion(h, "2024-01-03", 1, None, s("t3")).unwrap();
    let recs = st.get_habit_records(Some(h), Some("2024-01-02"), Some("2024-01-02"));
    assert_eq!(recs.len(), 1);
    assert_eq!(recs[0].completed_count, 3);
    assert_eq!(st.get_habit_records(Some(h), None, None).len(), 2);
    assert_eq!(st.record_habit_completion(99, "2024-01-02", 1, None, s("t")), Err(StoreError::OwnerNotFound));
    st.undo_habit_completion(h, "2024-01-03");
    assert_eq!(st.get_habit_records(None, None, None).len(), 1);
}

fn task(title: &str, priority: &str, due: Option<&str>, updated: &str) -> Task {
    Task {
        id: None,
        title: s(title),
        description: None,
        status: s("todo"),
        priority: s(priority),
        due_date: due.map(s),
        completed_at: None,
        project_id: None,
        created_at: s("2023-12-01 00:00:00"),
        updated_at: s(updated),
        deleted_at: None,
    }
}

fn dates() -> FilterDates {
    FilterDates { today: s("2024-01-01"), week_start: s("2024-01-01"), week_end: s("2024-01-07"), week_ago: s("2023-12-25") }
}

#[test]
fn today_filter_keeps_tasks_due_today() {
    let mut st = TaskStore::new();
    st.create_task(task("due today", "medium", Some("2024-01-01"), "2024-01-01 09:00:00")).unwrap();
    st.create_task(task("due later", "medium", Some("2024-01-02"), "2024-01-01 09:00:00")).unwrap();
    let got: Vec<String> = st.get_tasks_by_filter("today", &dates()).unwrap().into_iter().map(|t| t.title).collect();
    assert_eq!(got, vec![s("due today")]);
}

#[test]
fn filters_order_by_priority_then_due_date() {
    let mut st = TaskStore::new();
    st.create_task(task("low", "low", Some("2024-01-02"), "a")).unwrap();
    st.create_task(task("urgent nodate", "urgent", None, "a")).unwrap();
    st.create_task(task("urgent early", "urgent", Some("2024-01-03"), "a")).unwrap();
    let id = st.create_task(task("high", "high", Some("2024-01-01"), "a")).unwrap();
    let got: Vec<String> = st.get_tasks_by_filter("pending", &dates()).unwrap().into_iter().map(|t| t.title).collect();
    assert_eq!(got, vec![s("urgent early"), s("urgent nodate"), s("high"), s("low")]);
    let week: Vec<String> = st.get_tasks_by_filter("week", &dates()).unwrap().into_iter().map(|t| t.title).collect();
    assert_eq!(week, vec![s("urgent early"), s("high"), s("low")]);
    st.delete_task(id, s("2024-01-01"));
    let high: Vec<String> = st.get_tasks_by_filter("high", &dates()).unwrap().into_iter().map(|t| t.title).collect();
    assert_eq!(high, vec![s("urgent early"), s("urgent nodate")]);
    assert_eq!(st.get_tasks_by_filter("someday", &dates()).err(), Some(StoreError::UnsupportedFilter));
    assert_eq!(parse_task_filter("completed"), Ok(TaskFilter::Completed));
}

#[test]
fn filters_return_at_most_twenty() {
    let mut st = TaskStore::new();
    for _ in 0..25 {
        st.create_task(task("t", "low", None, "a")).unwrap();
    }
    assert_eq!(st.get_tasks_by_filter("pending", &dates()).unwrap().len(), 20);
}

fn entry(title: &str, category: Option<i64>) -> PasswordEntry {
    PasswordEntry {
        id: None,
        title: s(title),
        username: None,
        password_encrypted: s("sealed"),
        url: None,
        notes: None,
        ip: None,
        db_type: None,
        db_ip: None,
        db_username: None,
        app_name: None,
        category_id: category,
        tags: None,
        is_favorite: false,
        last_used_at: None,
        created_at: s(""),
        updated_at: s(""),
    }
}

#[test]
fn legacy_category_migration() {
    let mut st = PasswordStore::new(vec![s("id"), s("title")]);
    let mail = st.create_password_category(s("邮箱"), s("mail"), None, s("t0")).unwrap();
    let e = st.create_password_entry(entry("inbox", Some(mail)), s("t0")).unwrap();
    st.migrate(s("t1")).unwrap();
    let entries = st.get_password_entries();
    assert_eq!(entries.len(), 1);
    assert_eq!(entries[0].id, Some(e));
    assert_eq!(entries[0].category_id, None);
    let names: Vec<String> = st.get_password_categories().into_iter().map(|c| c.name).collect();
    assert_eq!(names, vec![s("网站"), s("应用软件"), s("服务器"), s("数据库")]);
}

#[test]
fn migration_twice_changes_nothing_more() {
    let mut st = PasswordStore::new(vec![s("id"), s("ip")]);
    let web = st.create_password_category(s("网站"), s("w"), None, s("t0")).unwrap();
    st.create_password_entry(entry("site", Some(web)), s("t0")).unwrap();
    st.migrate(s("t1")).unwrap();
    let cats1: Vec<(Option<i64>, String)> = st.get_password_categories().into_iter().map(|c| (c.id, c.name)).collect();
    st.migrate(s("t2")).unwrap();
    let cats2: Vec<(Option<i64>, String)> = st.get_password_categories().into_iter().map(|c| (c.id, c.name)).collect();
    assert_eq!(cats1, cats2);
    assert_eq!(cats2.len(), 4);
    assert_eq!(cats2[0], (Some(web), s("网站")));
    assert_eq!(st.get_password_entries_by_category(web).len(), 1);
    assert_eq!(st.create_password_category(s("网站"), s("x"), None, s("t3")), Err(StoreError::DuplicateId));
    assert_eq!(st.create_password_entry(entry("x", Some(999)), s("t3")), Err(StoreError::OwnerNotFound));
}

#[test]
fn filter_dates_from_day_number() {
    // 2024-01-03, a Wednesday, is day 738888 counting 0001-01-01 as day 1
    let d = pim_core::tasks::filter_dates_for(738888);
    assert_eq!(d.today, "2024-01-03");
    assert_eq!(d.week_start, "2024-01-01");
    assert_eq!(d.week_end, "2024-01-07");
    assert_eq!(d.week_ago, "2023-12-27");
    assert!(pim_core::tasks::filter_dates_now().is_some());
}
