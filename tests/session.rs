use std::collections::BTreeMap;

use feonancials::catalog::{get_months, FileEntry, YearEntry};
use feonancials::date::Date;
use feonancials::session::{
    parse_month_label, show_tui, ActionState, AddState, App, Intent, Key, Reply, Request,
    UpdateState,
};
use feonancials::store::{get_transactions, MonthKey};

/// A store held in memory: month key to record file text.
struct Store {
    files: BTreeMap<(u32, u32), String>,
}

impl Store {
    fn new() -> Store {
        Store { files: BTreeMap::new() }
    }

    fn catalog(&self) -> Vec<String> {
        let mut years: BTreeMap<u32, Vec<FileEntry>> = BTreeMap::new();
        for (y, m) in self.files.keys() {
            years.entry(*y).or_default().push(FileEntry { stem: format!("{:02}", m), is_dir: false });
        }
        let entries: Vec<YearEntry> = years
            .into_iter()
            .map(|(y, files)| YearEntry { stem: format!("{:04}", y), is_dir: true, files })
            .collect();
        get_months(&entries)
    }

    /// Answers requests until the session waits for input.
    fn run(&mut self, app: &mut App, mut req: Request) -> bool {
        loop {
            req = match req {
                Request::Nothing => return true,
                Request::Quit => return false,
                Request::Read(k) => {
                    let c = self.files.get(&(k.year, k.month)).cloned();
                    app.on_reply(Reply::Contents(c))
                }
                Request::Write(k, text) => {
                    self.files.insert((k.year, k.month), text);
                    app.on_reply(Reply::Written)
                }
                Request::ListMonths => {
                    let labels = self.catalog();
                    app.on_reply(Reply::Months(labels))
                }
            }
        }
    }

    fn send(&mut self, app: &mut App, intent: Intent) -> bool {
        let req = app.handle(intent);
        self.run(app, req)
    }

    fn type_text(&mut self, app: &mut App, s: &str) {
        for c in s.chars() {
            self.send(app, Intent::TypeChar(c));
        }
    }

    fn month(&self, y: u32, m: u32) -> Vec<(String, i64)> {
        let c = self.files.get(&(y, m)).cloned();
        get_transactions(&c)
            .unwrap()
            .into_iter()
            .map(|t| (t.date.to_text(), t.amount))
            .collect()
    }
}

fn start(store: &mut Store) -> App {
    let (mut app, req) = show_tui(store.catalog());
    store.run(&mut app, req);
    app
}

fn add(store: &mut Store, app: &mut App, date: &str, amount: &str, description: &str) {
    store.send(app, Intent::BeginAdd);
    store.type_text(app, date);
    store.send(app, Intent::Confirm);
    store.type_text(app, amount);
    store.send(app, Intent::Confirm);
    store.type_text(app, description);
    store.send(app, Intent::Confirm);
}

#[test]
fn add_flow_end_to_end() {
    let mut store = Store::new();
    let mut app = start(&mut store);
    assert!(app.months.is_empty());
    assert!(app.transactions.is_empty());
    add(&mut store, &mut app, "2024-03-15", "42.50", "coffee");
    assert!(matches!(app.state, ActionState::Normal));
    assert_eq!(app.input, "Added entry successfully");
    assert_eq!(app.months, vec!["2024-03"]);
    let stored = get_transactions(&store.files.get(&(2024, 3)).cloned()).unwrap();
    assert_eq!(stored.len(), 1);
    assert_eq!(stored[0].date, Date { year: 2024, month: 3, day: 15 });
    assert_eq!(stored[0].amount, -4250);
    assert_eq!(stored[0].description, "coffee");
    assert_eq!(app.transactions.len(), 1);
}

#[test]
fn session_starts_on_the_latest_month_with_its_sum() {
    let mut store = Store::new();
    let mut app = start(&mut store);
    add(&mut store, &mut app, "2024-01-10", "5", "a");
    add(&mut store, &mut app, "2024-02-10", "7.25", "b");
    let app = start(&mut store);
    assert_eq!(app.month_state, 1);
    assert_eq!(app.transactions.len(), 1);
    assert_eq!(app.input, "Sum for current month: -7.25");
}

#[test]
fn month_navigation_is_circular() {
    let mut store = Store::new();
    let mut app = start(&mut store);
    for m in 1..=3 {
        add(&mut store, &mut app, &format!("2024-0{}-01", m), "1", "x");
    }
    assert_eq!(app.months.len(), 3);
    let begin = app.month_state;
    for _ in 0..3 {
        store.send(&mut app, Intent::NextMonth);
    }
    assert_eq!(app.month_state, begin);
    store.send(&mut app, Intent::NextMonth);
    assert_eq!(app.month_state, (begin + 1) % 3);
    for _ in 0..3 {
        store.send(&mut app, Intent::PrevMonth);
    }
    assert_eq!(app.month_state, (begin + 1) % 3);
    let (mut app, req) = show_tui(store.catalog());
    store.run(&mut app, req);
    assert_eq!(app.month_state, 2);
    store.send(&mut app, Intent::NextMonth);
    assert_eq!(app.month_state, 0);
    assert_eq!(app.input, "Sum for current month: -1.00");
    store.send(&mut app, Intent::PrevMonth);
    assert_eq!(app.month_state, 2);
}

#[test]
fn transaction_navigation_is_circular() {
    let mut store = Store::new();
    let mut app = start(&mut store);
    for d in 1..=4 {
        add(&mut store, &mut app, &format!("2024-05-0{}", d), "1", "x");
    }
    assert_eq!(app.transactions.len(), 4);
    app.transaction_state = 2;
    for _ in 0..4 {
        store.send(&mut app, Intent::NextTransaction);
    }
    assert_eq!(app.transaction_state, 2);
    store.send(&mut app, Intent::NextTransaction);
    store.send(&mut app, Intent::NextTransaction);
    assert_eq!(app.transaction_state, 0);
    store.send(&mut app, Intent::PrevTransaction);
    assert_eq!(app.transaction_state, 3);
}

#[test]
fn deleting_the_last_entry_moves_the_cursor_back() {
    let mut store = Store::new();
    let mut app = start(&mut store);
    add(&mut store, &mut app, "2024-06-03", "3", "c");
    add(&mut store, &mut app, "2024-06-01", "1", "a");
    add(&mut store, &mut app, "2024-06-02", "2", "b");
    assert_eq!(app.transactions.len(), 3);
    app.transaction_state = 2;
    store.send(&mut app, Intent::Delete);
    assert_eq!(app.transaction_state, 1);
    assert_eq!(
        store.month(2024, 6),
        vec![("2024-06-01".to_string(), -100), ("2024-06-02".to_string(), -200)]
    );
    assert_eq!(app.transactions.len(), 2);
    store.send(&mut app, Intent::Delete);
    store.send(&mut app, Intent::Delete);
    assert_eq!(app.transactions.len(), 0);
    assert_eq!(app.transaction_state, 0);
    store.send(&mut app, Intent::Delete);
    assert_eq!(app.input, "Cannot delete entry");
}

#[test]
fn update_replaces_in_place() {
    let mut store = Store::new();
    let mut app = start(&mut store);
    add(&mut store, &mut app, "2024-07-01", "1", "a");
    add(&mut store, &mut app, "2024-07-05", "5", "e");
    add(&mut store, &mut app, "2024-07-09", "9", "i");
    app.transaction_state = 0;
    store.send(&mut app, Intent::BeginUpdate);
    assert_eq!(app.input, "2024-07-01");
    assert!(matches!(app.state, ActionState::Update(UpdateState::Date, _)));
    for _ in 0..2 {
        store.send(&mut app, Intent::Backspace);
    }
    store.type_text(&mut app, "07");
    store.send(&mut app, Intent::Confirm);
    assert_eq!(app.input, "-1.00");
    for _ in 0..5 {
        store.send(&mut app, Intent::Backspace);
    }
    store.type_text(&mut app, "2.00");
    store.send(&mut app, Intent::Confirm);
    assert_eq!(app.input, "a");
    store.send(&mut app, Intent::Backspace);
    store.type_text(&mut app, "changed");
    store.send(&mut app, Intent::Confirm);
    assert!(matches!(app.state, ActionState::Normal));
    assert_eq!(app.input, "Updated entry successfully");
    assert_eq!(
        store.month(2024, 7),
        vec![
            ("2024-07-05".to_string(), -500),
            ("2024-07-07".to_string(), 200),
            ("2024-07-09".to_string(), -900),
        ]
    );
    assert_eq!(app.transactions.len(), 3);
    assert_eq!(app.transactions[1].description, "changed");
}

#[test]
fn bad_date_keeps_the_step_and_bad_amount_aborts() {
    let mut store = Store::new();
    let mut app = start(&mut store);
    store.send(&mut app, Intent::BeginAdd);
    store.type_text(&mut app, "2024-02-30");
    store.send(&mut app, Intent::Confirm);
    assert!(matches!(app.state, ActionState::Add(AddState::Date, _)));
    assert_eq!(app.input, "2024-02-30");
    for _ in 0..2 {
        store.send(&mut app, Intent::Backspace);
    }
    store.type_text(&mut app, "28");
    store.send(&mut app, Intent::Confirm);
    assert!(matches!(app.state, ActionState::Add(AddState::Amount, _)));
    assert_eq!(app.input, "");
    store.type_text(&mut app, "ten");
    store.send(&mut app, Intent::Confirm);
    assert!(matches!(app.state, ActionState::Normal));
    assert_eq!(app.input, "Cannot read amount");
    assert!(store.files.is_empty());
}

#[test]
fn empty_date_means_today_and_cancel_discards() {
    let mut store = Store::new();
    let mut app = start(&mut store);
    app.set_today(Some((2024, 11, 30)));
    store.send(&mut app, Intent::BeginAdd);
    store.send(&mut app, Intent::Confirm);
    match &app.state {
        ActionState::Add(AddState::Amount, d) => assert_eq!(d.date, Date { year: 2024, month: 11, day: 30 }),
        _ => panic!("not at the amount step"),
    }
    store.type_text(&mut app, "3");
    store.send(&mut app, Intent::Cancel);
    assert!(matches!(app.state, ActionState::Normal));
    assert_eq!(app.input, "");
    assert!(store.files.is_empty());
}

#[test]
fn empty_date_without_a_clock_stays_on_the_step() {
    let mut store = Store::new();
    let mut app = start(&mut store);
    app.set_today(None);
    store.send(&mut app, Intent::BeginAdd);
    store.send(&mut app, Intent::Confirm);
    assert!(matches!(app.state, ActionState::Add(AddState::Date, _)));
}

#[test]
fn success_notice_survives_the_write_and_catalog_replies() {
    let mut store = Store::new();
    let mut app = start(&mut store);
    add(&mut store, &mut app, "2024-12-01", "1", "a");
    assert_eq!(app.input, "Added entry successfully");
    store.send(&mut app, Intent::BeginUpdate);
    store.send(&mut app, Intent::Confirm);
    store.send(&mut app, Intent::Confirm);
    store.send(&mut app, Intent::Confirm);
    assert_eq!(app.input, "Updated entry successfully");
}

#[test]
fn descriptions_may_hold_commas_but_not_line_breaks() {
    let mut store = Store::new();
    let mut app = start(&mut store);
    add(&mut store, &mut app, "2024-01-01", "1", "bread, milk, eggs");
    let stored = get_transactions(&store.files.get(&(2024, 1)).cloned()).unwrap();
    assert_eq!(stored[0].description, "bread, milk, eggs");
    add(&mut store, &mut app, "2024-01-02", "1", "two\nlines");
    assert!(matches!(app.state, ActionState::Normal));
    assert_eq!(app.input, "Cannot store that description");
    assert_eq!(store.month(2024, 1).len(), 1);
}

#[test]
fn begin_add_keeps_the_cursors() {
    let mut store = Store::new();
    let mut app = start(&mut store);
    add(&mut store, &mut app, "2024-08-01", "1", "a");
    add(&mut store, &mut app, "2024-08-02", "1", "b");
    app.transaction_state = 1;
    app.set_today(Some((2025, 4, 30)));
    store.send(&mut app, Intent::BeginAdd);
    assert_eq!(app.transaction_state, 1);
    assert_eq!(app.input, "");
    match &app.state {
        ActionState::Add(AddState::Date, d) => {
            assert_eq!(d.amount, 0);
            assert_eq!(d.date, Date { year: 2025, month: 4, day: 30 });
        }
        _ => panic!("not adding"),
    }
}

#[test]
fn update_into_another_month_moves_the_entry() {
    let mut store = Store::new();
    let mut app = start(&mut store);
    add(&mut store, &mut app, "2024-09-01", "1", "a");
    add(&mut store, &mut app, "2024-09-02", "2", "b");
    app.transaction_state = 0;
    store.send(&mut app, Intent::BeginUpdate);
    for _ in 0..10 {
        store.send(&mut app, Intent::Backspace);
    }
    store.type_text(&mut app, "2024-10-05");
    store.send(&mut app, Intent::Confirm);
    store.send(&mut app, Intent::Confirm);
    store.send(&mut app, Intent::Confirm);
    assert_eq!(app.input, "Updated entry successfully");
    assert_eq!(store.month(2024, 9), vec![("2024-09-02".to_string(), -200)]);
    assert_eq!(store.month(2024, 10), vec![("2024-10-05".to_string(), -100)]);
    assert_eq!(app.months, vec!["2024-09", "2024-10"]);
}

#[test]
fn transaction_navigation_on_an_empty_month_changes_nothing() {
    let mut store = Store::new();
    let mut app = start(&mut store);
    store.send(&mut app, Intent::NextTransaction);
    store.send(&mut app, Intent::PrevTransaction);
    assert_eq!(app.transaction_state, 0);
    assert_eq!(app.input, "");
}

#[test]
fn update_with_nothing_selected_is_refused() {
    let mut store = Store::new();
    let mut app = start(&mut store);
    store.send(&mut app, Intent::BeginUpdate);
    assert!(matches!(app.state, ActionState::Normal));
    assert_eq!(app.input, "No entry to update is selected");
    store.send(&mut app, Intent::Delete);
    assert_eq!(app.input, "No entry to delete is selected");
    assert!(!store.send(&mut app, Intent::Quit));
}

#[test]
fn keys_map_to_intents_by_mode() {
    let mut store = Store::new();
    let mut app = start(&mut store);
    assert_eq!(app.intent_for_key(Key::Char('q')), Some(Intent::Quit));
    assert_eq!(app.intent_for_key(Key::Char('n')), Some(Intent::NextMonth));
    assert_eq!(app.intent_for_key(Key::Char('x')), None);
    assert_eq!(app.intent_for_key(Key::Enter), None);
    store.send(&mut app, Intent::BeginAdd);
    assert_eq!(app.intent_for_key(Key::Char('q')), Some(Intent::TypeChar('q')));
    assert_eq!(app.intent_for_key(Key::Enter), Some(Intent::Confirm));
    assert_eq!(app.intent_for_key(Key::Esc), Some(Intent::Cancel));
    assert_eq!(app.intent_for_key(Key::Backspace), Some(Intent::Backspace));
}

#[test]
fn month_labels_are_read() {
    assert_eq!(parse_month_label("2024-03"), Some(MonthKey { year: 2024, month: 3 }));
    assert_eq!(parse_month_label("2024-13"), None);
    assert_eq!(parse_month_label("24-03"), None);
    assert_eq!(MonthKey { year: 2024, month: 3 }.label(), "2024-03");
}
