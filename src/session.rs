//! The interactive session: which month and transaction are selected, the guided entry
//! of a new or edited transaction, and deletion. Reading and writing record files is
//! outside work: a step that needs it returns a `Request`, and the caller answers it
//! with a `Reply`.

use vstd::prelude::*;
use vstd::pervasive::VecAdditionalExecFns;
use vstd::string::StringExecFns;
use crate::amount::{amount_from_text, amount_text, format_amount, parse_amount};
use crate::date::{date_from_clock, get_date, typed_date, Date};
use crate::error::LedgerError;
use crate::record::{
    all_storable, description_from_input, entries, file_text, read_description, storable, Entry,
    Repeat, Transaction,
};
use crate::store::{
    add_transaction, del_entry, get_sum_for_month, get_transactions_for_month, loaded, month_of,
    sort_by_date, sum_amounts, text_of, write_entries, MonthKey,
};
use crate::text::{
    all_digits, chars_of, digits_value, parse_digits, pop_char, push_char, push_str,
};

verus! {

/// The step of guided entry for a new transaction.
#[derive(Debug, Clone, Copy, PartialEq, Eq, Structural)]
pub enum AddState {
    Date,
    Amount,
    Description,
}

/// The step of guided entry for an edited transaction.
#[derive(Debug, Clone, Copy, PartialEq, Eq, Structural)]
pub enum UpdateState {
    Date,
    Amount,
    Description,
}

/// What the session is doing: browsing, or building a draft transaction.
pub enum ActionState {
    Normal,
    Add(AddState, Transaction),
    Update(UpdateState, Transaction),
}

/// One input intent.
#[derive(Debug, Clone, Copy, PartialEq, Eq, Structural)]
pub enum Intent {
    Quit,
    NextMonth,
    PrevMonth,
    NextTransaction,
    PrevTransaction,
    Delete,
    BeginAdd,
    BeginUpdate,
    Cancel,
    Confirm,
    TypeChar(char),
    Backspace,
}

/// A key that was pressed.
#[derive(Debug, Clone, Copy, PartialEq, Eq, Structural)]
pub enum Key {
    Char(char),
    Enter,
    Esc,
    Backspace,
    Other,
}

/// Outside work that the session asks for.
pub enum Request {
    /// Nothing: redraw and wait for the next intent.
    Nothing,
    /// End the session.
    Quit,
    /// Read the record file of this month; answer with `Reply::Contents` (`None` when the
    /// file does not exist) or `Reply::ReadFailed`.
    Read(MonthKey),
    /// Replace the record file of this month with this text, creating missing
    /// directories; answer with `Reply::Written` or `Reply::WriteFailed`.
    Write(MonthKey, String),
    /// Scan the storage root; answer with `Reply::Months` and the catalog.
    ListMonths,
}

/// The outcome of a request.
pub enum Reply {
    Contents(Option<String>),
    ReadFailed,
    Written,
    WriteFailed,
    Months(Vec<String>),
}

/// What the session waits for.
pub enum Pending {
    Idle,
    /// The selected month's file, to show it (with its sum, when `true`).
    Show(bool),
    /// The file of the draft's month, to add the draft to it.
    Append(Transaction),
    /// The selected month's file, to delete the entry at this position.
    Remove(usize),
    /// The end of the write that took an edited entry out of the selected month; then the
    /// entry is added to its own month.
    Relocate(Transaction),
    /// The end of a write; then the cursor goes to `cursor`, and the catalog is scanned
    /// again when `rescan` holds.
    Stored { rescan: bool, cursor: usize },
    /// The catalog.
    Catalog,
}

/// The position after `i` among `n`, wrapping to the first.
pub open spec fn next_index(i: int, n: int) -> int {
    if i + 1 >= n {
        0
    } else {
        i + 1
    }
}

/// The position before `i` among `n`, wrapping to the last.
pub open spec fn prev_index(i: int, n: int) -> int {
    if i == 0 {
        n - 1
    } else {
        i - 1
    }
}

/// The cursor after deleting the entry under it from a list of `n`: it moves back when it
/// was on the last of more than one.
pub open spec fn cursor_after_delete(i: int, n: int) -> int {
    if n > 1 && i == n - 1 {
        i - 1
    } else {
        i
    }
}

/// A cursor kept inside a list of `n`.
pub open spec fn clamped(i: int, n: int) -> int {
    if n == 0 {
        0
    } else if i >= n {
        n - 1
    } else {
        i
    }
}

/// The month that a label `YYYY-MM` names.
pub open spec fn month_from_label(s: Seq<char>) -> Option<MonthKey> {
    if s.len() == 7 && s[4] == '-' && all_digits(s.subrange(0, 4)) && all_digits(s.subrange(5, 7))
        && 1 <= digits_value(s.subrange(5, 7)) <= 12 && digits_value(s.subrange(0, 4)) <= 9999 {
        Some(
            MonthKey {
                year: digits_value(s.subrange(0, 4)) as u32,
                month: digits_value(s.subrange(5, 7)) as u32,
            },
        )
    } else {
        None
    }
}

/// Reads a month label `YYYY-MM`.
pub fn parse_month_label(label: &str) -> (r: Option<MonthKey>)
    ensures
        r == month_from_label(label@),
        r matches Some(k) ==> k.wf(),
{
    let cs = chars_of(label);
    if cs.len() != 7 || cs[4] != '-' {
        return None;
    }
    assert(cs@.subrange(0, 4) == label@.subrange(0, 4));
    let y = parse_digits(&cs, 0, 4, 9999);
    let m = parse_digits(&cs, 5, 7, 12);
    match (y, m) {
        (Some(y), Some(m)) => {
            if m >= 1 {
                Some(MonthKey { year: y as u32, month: m as u32 })
            } else {
                None
            }
        },
        _ => {
            proof {
                if all_digits(cs@.subrange(0, 4)) && all_digits(cs@.subrange(5, 7)) {
                    assert(y is None || m is None);
                }
            }
            None
        },
    }
}

/// A blank draft dated `today` (or 1970-01-01 when today is not known): the guided entry
/// fills in every field.
pub fn empty_draft(today: Option<Date>) -> (r: Transaction)
    requires
        today matches Some(d) ==> d.wf(),
    ensures
        storable(r@),
        r@.description.len() == 0,
        r@.amount == 0,
        r@.repeat == Repeat::Never,
        r.date == (match today {
            Some(d) => d,
            None => Date { year: 1970, month: 1, day: 1 },
        }),
{
    let date = match today {
        Some(d) => d,
        None => Date { year: 1970, month: 1, day: 1 },
    };
    let t = Transaction {
        date,
        amount: 0,
        description: String::new(),
        repeat: Repeat::Never,
    };
    assert(!t.description@.contains(','));
    assert(!t.description@.contains('\n'));
    t
}

/// A string holding the characters of a literal.
fn owned(s: &str) -> (r: String)
    ensures
        r@ == s@,
{
    String::from_str(s)
}

/// The browsing session.
pub struct App {
    /// The month catalog, ascending.
    pub months: Vec<String>,
    /// The selected month, a position in `months`.
    pub month_state: usize,
    /// The selected transaction, a position in `transactions`.
    pub transaction_state: usize,
    /// The transactions of the selected month, sorted by date.
    pub transactions: Vec<Transaction>,
    /// The text being typed, or a message.
    pub input: String,
    pub state: ActionState,
    pub pending: Pending,
    /// Today's date, from the latest reading of the local clock, when known.
    pub today: Option<Date>,
}

/// The date that the date step takes when nothing was typed.
pub open spec fn today_or_error(today: Option<Date>) -> Result<Date, LedgerError> {
    match today {
        Some(d) => Ok(d),
        None => Err(LedgerError::ParseFailure),
    }
}

impl ActionState {
    pub open spec fn wf(&self) -> bool {
        match self {
            ActionState::Normal => true,
            ActionState::Add(_, t) => storable(t@),
            ActionState::Update(_, t) => storable(t@),
        }
    }
}

impl Pending {
    pub open spec fn wf(&self) -> bool {
        match self {
            Pending::Append(t) => storable(t@),
            Pending::Relocate(t) => storable(t@),
            _ => true,
        }
    }
}

impl App {
    /// The cursors are inside their lists, and every transaction and draft can be stored.
    pub open spec fn wf(&self) -> bool {
        &&& (self.months@.len() == 0 ==> self.month_state == 0)
        &&& (self.months@.len() > 0 ==> self.month_state < self.months@.len())
        &&& (self.transactions@.len() == 0 ==> self.transaction_state == 0)
        &&& (self.transactions@.len() > 0 ==> self.transaction_state < self.transactions@.len())
        &&& all_storable(entries(self.transactions@))
        &&& self.state.wf()
        &&& self.pending.wf()
        &&& self.today matches Some(d) ==> d.wf()
    }

    /// The month of the selected label, if there is one and it names a month.
    pub open spec fn selected_key(&self) -> Option<MonthKey> {
        if self.months@.len() > 0 && self.month_state < self.months@.len() {
            month_from_label(self.months@[self.month_state as int]@)
        } else {
            None
        }
    }

    /// The month of the selected label, if there is one and it names a month.
    pub fn get_selected_month(&self) -> (r: Option<MonthKey>)
        ensures
            r == self.selected_key(),
            r matches Some(k) ==> k.wf(),
    {
        if self.month_state < self.months.len() {
            parse_month_label(self.months[self.month_state].as_str())
        } else {
            None
        }
    }

    pub open spec fn is_normal(&self) -> bool {
        self.state is Normal
    }

    /// Whether the session is in guided entry.
    pub fn is_editing(&self) -> (r: bool)
        ensures
            r == !self.is_normal(),
    {
        match self.state {
            ActionState::Normal => false,
            _ => true,
        }
    }

    /// The intent of a key: in guided entry characters are typed; while browsing they
    /// pick a command.
    pub fn intent_for_key(&self, key: Key) -> (r: Option<Intent>)
        ensures
            !self.is_normal() ==> r == (match key {
                Key::Char(c) => Some(Intent::TypeChar(c)),
                Key::Enter => Some(Intent::Confirm),
                Key::Esc => Some(Intent::Cancel),
                Key::Backspace => Some(Intent::Backspace),
                Key::Other => None::<Intent>,
            }),
            self.is_normal() ==> r == (match key {
                Key::Char('q') => Some(Intent::Quit),
                Key::Char('n') => Some(Intent::NextMonth),
                Key::Char('p') => Some(Intent::PrevMonth),
                Key::Char('j') => Some(Intent::NextTransaction),
                Key::Char('k') => Some(Intent::PrevTransaction),
                Key::Char('d') => Some(Intent::Delete),
                Key::Char('a') => Some(Intent::BeginAdd),
                Key::Char('u') => Some(Intent::BeginUpdate),
                _ => None::<Intent>,
            }),
    {
        if self.is_editing() {
            match key {
                Key::Char(c) => Some(Intent::TypeChar(c)),
                Key::Enter => Some(Intent::Confirm),
                Key::Esc => Some(Intent::Cancel),
                Key::Backspace => Some(Intent::Backspace),
                Key::Other => None,
            }
        } else {
            match key {
                Key::Char(c) => {
                    if c == 'q' {
                        Some(Intent::Quit)
                    } else if c == 'n' {
                        Some(Intent::NextMonth)
                    } else if c == 'p' {
                        Some(Intent::PrevMonth)
                    } else if c == 'j' {
                        Some(Intent::NextTransaction)
                    } else if c == 'k' {
                        Some(Intent::PrevTransaction)
                    } else if c == 'd' {
                        Some(Intent::Delete)
                    } else if c == 'a' {
                        Some(Intent::BeginAdd)
                    } else if c == 'u' {
                        Some(Intent::BeginUpdate)
                    } else {
                        None
                    }
                },
                _ => None,
            }
        }
    }
}

/// Starts a session over the month catalog `months`: the most recent month is selected,
/// and its record file is asked for, to show it with its sum.
pub fn show_tui(months: Vec<String>) -> (r: (App, Request))
    ensures
        r.0.wf(),
        r.0.is_normal(),
        r.0.months@ == months@,
        r.0.transactions@.len() == 0,
        r.0.transaction_state == 0,
        months@.len() > 0 ==> r.0.month_state == months@.len() - 1,
        r.0.selected_key() matches Some(k) ==> r.1 == Request::Read(k) && r.0.pending
            == Pending::Show(true),
        r.0.selected_key() is None ==> r.1 is Nothing && r.0.pending is Idle,
{
    let n = months.len();
    let mut app = App {
        months,
        month_state: if n > 0 {
            n - 1
        } else {
            0
        },
        transaction_state: 0,
        transactions: Vec::new(),
        input: String::new(),
        state: ActionState::Normal,
        pending: Pending::Idle,
        today: None,
    };
    assert(entries(app.transactions@) =~= Seq::<Entry>::empty());
    let req = app.refresh_transactions(true);
    (app, req)
}

impl App {
    /// Asks for the selected month's record file, to show it (with its sum when
    /// `with_sum`); with no month selected, the transaction list is emptied.
    pub fn refresh_transactions(&mut self, with_sum: bool) -> (r: Request)
        requires
            old(self).wf(),
        ensures
            final(self).wf(),
            final(self).months == old(self).months,
            final(self).month_state == old(self).month_state,
            final(self).state == old(self).state,
            old(self).selected_key() matches Some(k) ==> r == Request::Read(k) && final(self).pending == Pending::Show(with_sum) && final(self).transactions == old(self).transactions && final(self).transaction_state == old(self).transaction_state
                && final(self).input == old(self).input,
            old(self).selected_key() is None ==> r is Nothing && final(self).pending is Idle
                && final(self).transactions@.len() == 0 && final(self).transaction_state == 0,
            final(self).input == old(self).input,
    {
        let key = self.get_selected_month();
        match key {
            Some(k) => {
                self.pending = Pending::Show(with_sum);
                Request::Read(k)
            },
            None => {
                self.transactions = Vec::new();
                self.transaction_state = 0;
                self.pending = Pending::Idle;
                assert(entries(self.transactions@) =~= Seq::<Entry>::empty());
                Request::Nothing
            },
        }
    }

    /// Asks for the month catalog.
    pub fn refresh_months(&mut self) -> (r: Request)
        requires
            old(self).wf(),
        ensures
            final(self).wf(),
            r is ListMonths,
            final(self).pending is Catalog,
            final(self).months == old(self).months,
            final(self).month_state == old(self).month_state,
            final(self).transactions == old(self).transactions,
            final(self).transaction_state == old(self).transaction_state,
            final(self).state == old(self).state,
            final(self).input == old(self).input,
    {
        self.pending = Pending::Catalog;
        Request::ListMonths
    }

    /// Shows the sum of the selected month's amounts.
    pub fn set_input_to_sum(&mut self)
        requires
            old(self).wf(),
        ensures
            final(self).wf(),
            final(self).input@ == "Sum for current month: "@ + amount_text(
                sum_amounts(entries(old(self).transactions@)),
            ),
            final(self).months == old(self).months,
            final(self).month_state == old(self).month_state,
            final(self).transactions == old(self).transactions,
            final(self).transaction_state == old(self).transaction_state,
            final(self).state == old(self).state,
            final(self).pending == old(self).pending,
    {
        let sum = get_sum_for_month(&self.transactions);
        let mut msg = owned("Sum for current month: ");
        let amount = format_amount(sum);
        push_str(&mut msg, amount.as_str());
        self.input = msg;
    }

    fn say(&mut self, msg: &str)
        requires
            old(self).wf(),
        ensures
            final(self).wf(),
            final(self).input@ == msg@,
            final(self).months == old(self).months,
            final(self).month_state == old(self).month_state,
            final(self).transactions == old(self).transactions,
            final(self).transaction_state == old(self).transaction_state,
            final(self).state == old(self).state,
            final(self).pending == old(self).pending,
    {
        self.input = owned(msg);
    }
}

/// What an intent does while browsing: `a` before, `b` after, `r` the request.
pub open spec fn browse_step(a: App, b: App, intent: Intent, r: Request) -> bool {
    let n = a.months@.len() as int;
    let m = a.transactions@.len() as int;
    &&& intent == Intent::Quit ==> r is Quit && b == a
    &&& (intent == Intent::NextMonth || intent == Intent::PrevMonth) && n == 0 ==> r is Nothing
        && b == a
    &&& (intent == Intent::NextMonth || intent == Intent::PrevMonth) && n > 0 ==> {
        &&& b.month_state == (if intent == Intent::NextMonth {
            next_index(a.month_state as int, n)
        } else {
            prev_index(a.month_state as int, n)
        })
        &&& b.is_normal()
        &&& b.months == a.months
        &&& b.selected_key() matches Some(k) ==> r == Request::Read(k) && b.pending
            == Pending::Show(true) && b.transaction_state == 0
        &&& b.selected_key() is None ==> r is Nothing && b.transactions@.len() == 0
            && b.pending is Idle
    }
    &&& (intent == Intent::NextTransaction || intent == Intent::PrevTransaction) ==> {
        &&& r is Nothing
        &&& b.transaction_state == (if m == 0 {
            0
        } else if intent == Intent::NextTransaction {
            next_index(a.transaction_state as int, m)
        } else {
            prev_index(a.transaction_state as int, m)
        })
        &&& b.transactions == a.transactions
        &&& b.months == a.months
        &&& b.month_state == a.month_state
        &&& b.state == a.state
        &&& b.input == a.input
        &&& b.pending == a.pending
    }
    &&& (intent == Intent::NextTransaction || intent == Intent::PrevTransaction) && m == 0 ==> b
        == a
    &&& intent == Intent::Delete ==> {
        &&& b.transactions == a.transactions
        &&& b.transaction_state == a.transaction_state
        &&& b.months == a.months
        &&& b.month_state == a.month_state
        &&& b.is_normal()
        &&& match a.selected_key() {
            Some(k) => r == Request::Read(k) && b.pending == Pending::Remove(a.transaction_state),
            None => r is Nothing && b.input@ == "No entry to delete is selected"@,
        }
    }
    &&& intent == Intent::BeginAdd ==> {
        &&& r is Nothing
        &&& b.input@.len() == 0
        &&& b.state matches ActionState::Add(AddState::Date, d) && d@.amount == 0
            && d@.description.len() == 0 && d@.repeat == Repeat::Never && d.date == (match a.today {
                Some(x) => x,
                None => Date { year: 1970, month: 1, day: 1 },
            })
        &&& b.transactions == a.transactions
        &&& b.transaction_state == a.transaction_state
        &&& b.months == a.months
        &&& b.month_state == a.month_state
        &&& b.pending == a.pending
    }
    &&& intent == Intent::BeginUpdate && m > 0 ==> {
        &&& r is Nothing
        &&& b.state matches ActionState::Update(UpdateState::Date, d) && d
            == a.transactions@[a.transaction_state as int] && b.input@
            == crate::date::date_text(d.date)
        &&& b.transactions == a.transactions
        &&& b.transaction_state == a.transaction_state
        &&& b.months == a.months
        &&& b.month_state == a.month_state
        &&& b.pending == a.pending
    }
    &&& intent == Intent::BeginUpdate && m == 0 ==> r is Nothing && b.is_normal() && b.input@
        == "No entry to update is selected"@
    &&& (intent == Intent::Cancel || intent == Intent::Confirm || intent == Intent::Backspace
        || intent is TypeChar) ==> r is Nothing && b == a
}

impl App {
    /// Moves to the next month, wrapping to the first, and asks for its file.
    fn next_month(&mut self) -> (r: Request)
        requires
            old(self).wf(),
            old(self).months@.len() > 0,
        ensures
            final(self).wf(),
            final(self).months == old(self).months,
            final(self).month_state == next_index(
                old(self).month_state as int,
                old(self).months@.len() as int,
            ),
            final(self).state == old(self).state,
            final(self).selected_key() matches Some(k) ==> r == Request::Read(k) && final(self).pending
                == Pending::Show(true) && final(self).transaction_state == 0,
            final(self).selected_key() is None ==> r is Nothing && final(self).transactions@.len()
                == 0 && final(self).pending is Idle,
    {
        if self.month_state >= self.months.len() - 1 {
            self.month_state = 0;
        } else {
            self.month_state = self.month_state + 1;
        }
        self.transaction_state = 0;
        self.refresh_transactions(true)
    }

    /// Moves to the previous month, wrapping to the last, and asks for its file.
    fn prev_month(&mut self) -> (r: Request)
        requires
            old(self).wf(),
            old(self).months@.len() > 0,
        ensures
            final(self).wf(),
            final(self).months == old(self).months,
            final(self).month_state == prev_index(
                old(self).month_state as int,
                old(self).months@.len() as int,
            ),
            final(self).state == old(self).state,
            final(self).selected_key() matches Some(k) ==> r == Request::Read(k) && final(self).pending
                == Pending::Show(true) && final(self).transaction_state == 0,
            final(self).selected_key() is None ==> r is Nothing && final(self).transactions@.len()
                == 0 && final(self).pending is Idle,
    {
        if self.month_state > 0 {
            self.month_state = self.month_state - 1;
        } else {
            self.month_state = self.months.len() - 1;
        }
        self.transaction_state = 0;
        self.refresh_transactions(true)
    }

    /// Handles an intent while browsing.
    fn handle_normal(&mut self, intent: Intent) -> (r: Request)
        requires
            old(self).wf(),
            old(self).is_normal(),
        ensures
            final(self).wf(),
            browse_step(*old(self), *final(self), intent, r),
    {
        match intent {
            Intent::Quit => Request::Quit,
            Intent::NextMonth => {
                if self.months.len() == 0 {
                    Request::Nothing
                } else {
                    self.next_month()
                }
            },
            Intent::PrevMonth => {
                if self.months.len() == 0 {
                    Request::Nothing
                } else {
                    self.prev_month()
                }
            },
            Intent::NextTransaction => {
                let n = self.transactions.len();
                if n > 0 {
                    if self.transaction_state >= n - 1 {
                        self.transaction_state = 0;
                    } else {
                        self.transaction_state = self.transaction_state + 1;
                    }
                }
                Request::Nothing
            },
            Intent::PrevTransaction => {
                let n = self.transactions.len();
                if n > 0 {
                    if self.transaction_state > 0 {
                        self.transaction_state = self.transaction_state - 1;
                    } else {
                        self.transaction_state = n - 1;
                    }
                }
                Request::Nothing
            },
            Intent::Delete => {
                let key = self.get_selected_month();
                match key {
                    Some(k) => {
                        self.pending = Pending::Remove(self.transaction_state);
                        Request::Read(k)
                    },
                    None => {
                        self.say("No entry to delete is selected");
                        Request::Nothing
                    },
                }
            },
            Intent::BeginAdd => {
                self.state = ActionState::Add(AddState::Date, empty_draft(self.today));
                self.input = String::new();
                Request::Nothing
            },
            Intent::BeginUpdate => {
                if self.transactions.len() == 0 {
                    self.say("No entry to update is selected");
                } else {
                    let draft = self.transactions[self.transaction_state].duplicate();
                    proof {
                        assert(entries(self.transactions@)[self.transaction_state as int]
                            == draft@);
                    }
                    self.input = draft.date.to_text();
                    self.state = ActionState::Update(UpdateState::Date, draft);
                }
                Request::Nothing
            },
            _ => Request::Nothing,
        }
    }
}

/// A draft with another date.
pub open spec fn dated_draft(t: Entry, d: Date) -> Entry {
    Entry { date: d, amount: t.amount, description: t.description, repeat: t.repeat }
}

/// A draft with another amount.
pub open spec fn priced_draft(t: Entry, v: i64) -> Entry {
    Entry { date: t.date, amount: v, description: t.description, repeat: t.repeat }
}

/// A draft with another description.
pub open spec fn described_draft(t: Entry, s: Seq<char>) -> Entry {
    Entry { date: t.date, amount: t.amount, description: s, repeat: t.repeat }
}

/// `a` and `b` browse the same month and list.
pub open spec fn same_view(a: App, b: App) -> bool {
    &&& b.months == a.months
    &&& b.month_state == a.month_state
    &&& b.transactions == a.transactions
    &&& b.transaction_state == a.transaction_state
}

/// What the date step does with the date read from the input, `date`.
pub open spec fn date_step(a: App, b: App, date: Result<Date, LedgerError>) -> bool {
    &&& same_view(a, b)
    &&& b.pending == a.pending
    &&& match a.state {
        ActionState::Add(AddState::Date, t) => match date {
            Ok(d) => b.state matches ActionState::Add(AddState::Amount, t2) && t2@ == dated_draft(
                t@,
                d,
            ) && b.input@.len() == 0,
            Err(_) => b == a,
        },
        ActionState::Update(UpdateState::Date, t) => match date {
            Ok(d) => b.state matches ActionState::Update(UpdateState::Amount, t2) && t2@
                == dated_draft(t@, d) && b.input@ == amount_text(t@.amount as int),
            Err(_) => b == a,
        },
        _ => b == a,
    }
}

/// What confirming the amount or description step does.
pub open spec fn entry_step(a: App, b: App, r: Request) -> bool {
    match a.state {
        ActionState::Add(AddState::Amount, t) => same_view(a, b) && r is Nothing && match amount_from_text(
            a.input@,
        ) {
            Some(v) => b.state matches ActionState::Add(AddState::Description, t2) && t2@
                == priced_draft(t@, (-v) as i64) && b.input@.len() == 0,
            None => b.is_normal() && b.input@ == "Cannot read amount"@,
        },
        ActionState::Update(UpdateState::Amount, t) => same_view(a, b) && r is Nothing && match amount_from_text(
            a.input@,
        ) {
            Some(v) => b.state matches ActionState::Update(UpdateState::Description, t2) && t2@
                == priced_draft(t@, v as i64) && b.input@ == t@.description,
            None => b.is_normal() && b.input@ == "Cannot read amount"@,
        },
        ActionState::Add(AddState::Description, t) => same_view(a, b) && match description_from_input(
            a.input@,
        ) {
            Some(d) => b.is_normal() && b.input@ == "Added entry successfully"@ && (b.pending matches Pending::Append(t2)
                && t2@ == described_draft(t@, d) && r == Request::Read(month_of(t.date))),
            None => same_view(a, b) && r is Nothing && b.is_normal() && b.pending == a.pending
                && b.input@ == "Cannot store that description"@,
        },
        ActionState::Update(UpdateState::Description, t) => match description_from_input(a.input@) {
            Some(d) => b.is_normal() && b.months == a.months && b.month_state == a.month_state && if a.transactions@.len()
                > 0 && a.selected_key() is Some {
                let e = described_draft(t@, d);
                let i = a.transaction_state as int;
                if Some(month_of(e.date)) == a.selected_key() {
                    &&& entries(b.transactions@) == sort_by_date(entries(a.transactions@).update(i, e))
                    &&& r matches Request::Write(k, text) && Some(k) == a.selected_key() && text@
                        == file_text(entries(b.transactions@))
                    &&& b.pending == Pending::Stored { rescan: true, cursor: a.transaction_state }
                    &&& b.input@ == "Updated entry successfully"@
                } else {
                    &&& entries(b.transactions@) == sort_by_date(entries(a.transactions@).remove(i))
                    &&& r matches Request::Write(k, text) && Some(k) == a.selected_key() && text@
                        == file_text(entries(b.transactions@))
                    &&& b.pending matches Pending::Relocate(t2) && t2@ == e
                    &&& b.input@ == "Updated entry successfully"@
                }
            } else {
                r is Nothing && b.input@ == "Cannot update entry"@
            },
            None => same_view(a, b) && r is Nothing && b.is_normal() && b.pending == a.pending
                && b.input@ == "Cannot store that description"@,
        },
        _ => b == a && r is Nothing,
    }
}

/// What confirming the current step of guided entry does.
pub open spec fn confirm_step(a: App, b: App, r: Request) -> bool {
    let date_pending = (a.state matches ActionState::Add(AddState::Date, _)) || (
    a.state matches ActionState::Update(UpdateState::Date, _));
    &&& date_pending && a.input@.len() > 0 ==> r is Nothing && date_step(a, b, typed_date(a.input@))
    &&& date_pending && a.input@.len() == 0 ==> r is Nothing && date_step(
        a,
        b,
        today_or_error(a.today),
    )
    &&& !date_pending ==> entry_step(a, b, r)
}

/// What an intent does during guided entry.
pub open spec fn edit_step(a: App, b: App, intent: Intent, r: Request) -> bool {
    &&& intent == Intent::Cancel ==> r is Nothing && same_view(a, b) && b.is_normal() && b.input@.len()
        == 0
    &&& (intent matches Intent::TypeChar(c) ==> r is Nothing && same_view(a, b) && b.state == a.state
        && b.input@ == a.input@.push(c))
    &&& intent == Intent::Backspace ==> r is Nothing && same_view(a, b) && b.state == a.state
        && b.input@ == (if a.input@.len() > 0 {
        a.input@.drop_last()
    } else {
        a.input@
    })
    &&& intent == Intent::Confirm ==> confirm_step(a, b, r)
    &&& (intent != Intent::Cancel && intent != Intent::Confirm && intent != Intent::Backspace
        && !(intent is TypeChar)) ==> r is Nothing && b == a
}

impl App {
    /// Takes the date read for the date step: on a date the draft gets it and the next step
    /// begins; on an error the step stays as it is, with the text kept for editing.
    pub fn apply_date(&mut self, date: Result<Date, LedgerError>)
        requires
            old(self).wf(),
            date matches Ok(d) ==> d.wf(),
        ensures
            final(self).wf(),
            date_step(*old(self), *final(self), date),
    {
        if let Ok(d) = date {
            match &self.state {
                ActionState::Add(AddState::Date, t) => {
                    let mut t2 = t.duplicate();
                    t2.date = d;
                    self.state = ActionState::Add(AddState::Amount, t2);
                    self.input = String::new();
                },
                ActionState::Update(UpdateState::Date, t) => {
                    let mut t2 = t.duplicate();
                    t2.date = d;
                    let amount = format_amount(t2.amount as i128);
                    self.state = ActionState::Update(UpdateState::Amount, t2);
                    self.input = amount;
                },
                _ => {},
            }
        }
    }

    /// The date typed for the date step, or today's date when nothing was typed.
    fn read_date(&self) -> (r: Result<Date, LedgerError>)
        requires
            self.wf(),
        ensures
            self.input@.len() > 0 ==> r == typed_date(self.input@),
            self.input@.len() == 0 ==> r == today_or_error(self.today),
            r matches Ok(d) ==> d.wf(),
    {
        if self.input.as_str().unicode_len() == 0 {
            match self.today {
                Some(d) => Ok(d),
                None => Err(LedgerError::ParseFailure),
            }
        } else {
            let r = get_date(self.input.as_str());
            proof {
                if let Ok(d) = r {
                    let t = crate::date::calendar_parse(self.input@)->Some_0;
                    assert(crate::date::date_of(t.0, t.1, t.2) == Some(d));
                }
            }
            r
        }
    }

    /// Takes a reading of the local clock (year, month and day, or nothing when the clock
    /// could not be read) as today's date.
    pub fn set_today(&mut self, clock: Option<(i32, u32, u32)>)
        requires
            old(self).wf(),
        ensures
            final(self).wf(),
            final(self).today == (match crate::date::clock_date(clock) {
                Ok(d) => Some(d),
                Err(_) => None::<Date>,
            }),
            final(self).months == old(self).months,
            final(self).month_state == old(self).month_state,
            final(self).transactions == old(self).transactions,
            final(self).transaction_state == old(self).transaction_state,
            final(self).state == old(self).state,
            final(self).pending == old(self).pending,
            final(self).input == old(self).input,
    {
        self.today = match date_from_clock(clock) {
            Ok(d) => Some(d),
            Err(_) => None,
        };
    }

    /// Confirms a step of guided entry for a new transaction: the date (today's when
    /// none is typed), then the amount spent, recorded negated, then the description,
    /// after which the transaction is added to its month.
    pub fn add_enter(&mut self) -> (r: Request)
        requires
            old(self).wf(),
            old(self).state is Add,
        ensures
            final(self).wf(),
            confirm_step(*old(self), *final(self), r),
    {
        match &self.state {
            ActionState::Add(AddState::Date, _) => {
                let date = self.read_date();
                let ghost a = *self;
                self.apply_date(date);
                assert(date_step(a, *self, date));
                Request::Nothing
            },
            ActionState::Add(AddState::Amount, t) => {
                match parse_amount(self.input.as_str()) {
                    Ok(v) => {
                        proof {
                            crate::amount::lemma_amount_from_text_range(self.input@);
                        }
                        let mut t2 = t.duplicate();
                        t2.amount = -v;
                        self.state = ActionState::Add(AddState::Description, t2);
                        self.input = String::new();
                    },
                    Err(_) => {
                        self.state = ActionState::Normal;
                        self.say("Cannot read amount");
                    },
                }
                Request::Nothing
            },
            ActionState::Add(AddState::Description, t) => {
                match read_description(&self.input) {
                    Some(d) => {
                        let mut t2 = t.duplicate();
                        t2.description = d;
                        let key = MonthKey::of(t2.date);
                        self.state = ActionState::Normal;
                        self.pending = Pending::Append(t2);
                        self.say("Added entry successfully");
                        Request::Read(key)
                    },
                    None => {
                        self.state = ActionState::Normal;
                        self.say("Cannot store that description");
                        Request::Nothing
                    },
                }
            },
            _ => Request::Nothing,
        }
    }

    /// Confirms a step of guided entry for an edited transaction: the date (today's when
    /// none is typed), then the amount, then the description, after which the selected
    /// transaction is replaced and the month written again.
    pub fn update_enter(&mut self) -> (r: Request)
        requires
            old(self).wf(),
            old(self).state is Update,
        ensures
            final(self).wf(),
            confirm_step(*old(self), *final(self), r),
    {
        match &self.state {
            ActionState::Update(UpdateState::Date, _) => {
                let date = self.read_date();
                let ghost a = *self;
                self.apply_date(date);
                assert(date_step(a, *self, date));
                Request::Nothing
            },
            ActionState::Update(UpdateState::Amount, t) => {
                match parse_amount(self.input.as_str()) {
                    Ok(v) => {
                        proof {
                            crate::amount::lemma_amount_from_text_range(self.input@);
                        }
                        let mut t2 = t.duplicate();
                        t2.amount = v;
                        let description = t2.description.clone();
                        self.state = ActionState::Update(UpdateState::Description, t2);
                        self.input = description;
                    },
                    Err(_) => {
                        self.state = ActionState::Normal;
                        self.say("Cannot read amount");
                    },
                }
                Request::Nothing
            },
            ActionState::Update(UpdateState::Description, t) => {
                match read_description(&self.input) {
                    Some(d) => {
                        let mut t2 = t.duplicate();
                        t2.description = d;
                        self.state = ActionState::Normal;
                        let key = self.get_selected_month();
                        if self.transactions.len() == 0 || key.is_none() {
                            self.say("Cannot update entry");
                            return Request::Nothing;
                        }
                        let k = key.unwrap();
                        let i = self.transaction_state;
                        let ghost before = entries(self.transactions@);
                        let target = MonthKey::of(t2.date);
                        if target != k {
                            self.transactions.remove(i);
                            proof {
                                assert(entries(self.transactions@) =~= before.remove(i as int));
                                assert forall|j: int|
                                    0 <= j < entries(self.transactions@).len() implies storable(
                                    #[trigger] entries(self.transactions@)[j],
                                ) by {
                                    if j < i {
                                        assert(entries(self.transactions@)[j] == before[j]);
                                    } else {
                                        assert(entries(self.transactions@)[j] == before[j + 1]);
                                    }
                                }
                            }
                            let contents = write_entries(&mut self.transactions);
                            let n = self.transactions.len();
                            if n == 0 {
                                self.transaction_state = 0;
                            } else if i >= n {
                                self.transaction_state = n - 1;
                            }
                            self.pending = Pending::Relocate(t2);
                            self.say("Updated entry successfully");
                            return Request::Write(k, contents);
                        }
                        self.transactions.set(i, t2);
                        proof {
                            assert(entries(self.transactions@) =~= before.update(i as int, t2@));
                            assert forall|j: int|
                                0 <= j < entries(self.transactions@).len() implies storable(
                                #[trigger] entries(self.transactions@)[j],
                            ) by {
                                if j != i {
                                    assert(entries(self.transactions@)[j] == before[j]);
                                }
                            }
                        }
                        let contents = write_entries(&mut self.transactions);
                        proof {
                            crate::store::lemma_sort_by_date(before.update(i as int, t2@));
                        }
                        self.pending = Pending::Stored { rescan: true, cursor: i };
                        self.say("Updated entry successfully");
                        Request::Write(k, contents)
                    },
                    None => {
                        self.state = ActionState::Normal;
                        self.say("Cannot store that description");
                        Request::Nothing
                    },
                }
            },
            _ => Request::Nothing,
        }
    }

    /// Handles an intent during guided entry.
    fn handle_editing(&mut self, intent: Intent) -> (r: Request)
        requires
            old(self).wf(),
            !old(self).is_normal(),
        ensures
            final(self).wf(),
            edit_step(*old(self), *final(self), intent, r),
    {
        match intent {
            Intent::Cancel => {
                self.state = ActionState::Normal;
                self.input = String::new();
                Request::Nothing
            },
            Intent::TypeChar(c) => {
                push_char(&mut self.input, c);
                Request::Nothing
            },
            Intent::Backspace => {
                pop_char(&mut self.input);
                Request::Nothing
            },
            Intent::Confirm => {
                if let ActionState::Add(_, _) = self.state {
                    self.add_enter()
                } else {
                    self.update_enter()
                }
            },
            _ => Request::Nothing,
        }
    }

    /// Handles one intent: while browsing it navigates, deletes or begins guided entry;
    /// during guided entry it edits the text and moves through the steps.
    pub fn handle(&mut self, intent: Intent) -> (r: Request)
        requires
            old(self).wf(),
        ensures
            final(self).wf(),
            old(self).is_normal() ==> browse_step(*old(self), *final(self), intent, r),
            !old(self).is_normal() ==> edit_step(*old(self), *final(self), intent, r),
    {
        if self.is_editing() {
            self.handle_editing(intent)
        } else {
            self.handle_normal(intent)
        }
    }
}

/// What the answer to a request does: `a` before, `b` after, `r` the next request.
pub open spec fn reply_step(a: App, b: App, reply: Reply, r: Request) -> bool {
    &&& b.state == a.state
    &&& match a.pending {
        Pending::Idle => b == a && r is Nothing,
        Pending::Show(with_sum) => {
            &&& r is Nothing
            &&& b.pending is Idle
            &&& b.months == a.months
            &&& b.month_state == a.month_state
            &&& match reply {
                Reply::Contents(c) => match loaded(text_of(c)) {
                    Ok(es) => {
                        &&& entries(b.transactions@) == sort_by_date(es)
                        &&& b.transaction_state == clamped(a.transaction_state as int, es.len() as int)
                        &&& with_sum ==> b.input@ == "Sum for current month: "@ + amount_text(
                            sum_amounts(sort_by_date(es)),
                        )
                        &&& !with_sum ==> b.input == a.input
                    },
                    Err(_) => b.transactions@.len() == 0 && b.input@ == "Cannot read month"@,
                },
                _ => b.transactions@.len() == 0 && b.input@ == "Cannot read month"@,
            }
        },
        Pending::Append(t) => {
            &&& same_view(a, b)
            &&& match reply {
                Reply::Contents(c) => match loaded(text_of(c)) {
                    Ok(es) => r matches Request::Write(k, text) && k == month_of(t.date) && text@
                        == file_text(sort_by_date(es.push(t@))) && b.pending == Pending::Stored {
                        rescan: true,
                        cursor: a.transaction_state,
                    } && b.input == a.input,
                    Err(_) => r is Nothing && b.pending is Idle && b.input@ == "Cannot add entry"@,
                },
                _ => r is Nothing && b.pending is Idle && b.input@ == "Cannot add entry"@,
            }
        },
        Pending::Remove(i) => {
            &&& same_view(a, b)
            &&& match reply {
                Reply::Contents(c) => match loaded(text_of(c)) {
                    Ok(es) => if i < es.len() && a.selected_key() is Some {
                        &&& r matches Request::Write(k, text) && Some(k) == a.selected_key()
                            && text@ == file_text(sort_by_date(sort_by_date(es).remove(i as int)))
                        &&& b.pending == Pending::Stored {
                            rescan: false,
                            cursor: cursor_after_delete(i as int, a.transactions@.len() as int)
                                as usize,
                        }
                        &&& b.input == a.input
                    } else {
                        r is Nothing && b.pending is Idle && b.input@ == "Cannot delete entry"@
                    },
                    Err(_) => r is Nothing && b.pending is Idle && b.input@
                        == "Cannot delete entry"@,
                },
                _ => r is Nothing && b.pending is Idle && b.input@ == "Cannot delete entry"@,
            }
        },
        Pending::Relocate(t) => {
            &&& same_view(a, b)
            &&& match reply {
                Reply::Written => r == Request::Read(month_of(t.date)) && b.pending
                    == Pending::Append(t) && b.input == a.input,
                _ => r is Nothing && b.pending is Idle && b.input@ == "Cannot write entry"@,
            }
        },
        Pending::Stored { rescan, cursor } => {
            &&& b.months == a.months
            &&& b.month_state == a.month_state
            &&& match reply {
                Reply::Written => {
                    &&& b.input == a.input
                    &&& (rescan || a.selected_key() is Some) ==> b.transaction_state == clamped(
                        cursor as int,
                        a.transactions@.len() as int,
                    ) && b.transactions == a.transactions
                    &&& rescan ==> r is ListMonths && b.pending is Catalog
                    &&& !rescan ==> (a.selected_key() matches Some(k) ==> r == Request::Read(k)
                        && b.pending == Pending::Show(false))
                    &&& !rescan && a.selected_key() is None ==> r is Nothing
                        && b.transactions@.len() == 0
                },
                _ => r is Nothing && b.pending is Idle && b.input@ == "Cannot write entry"@
                    && b.transactions == a.transactions && b.transaction_state
                    == a.transaction_state,
            }
        },
        Pending::Catalog => match reply {
            Reply::Months(ls) => {
                &&& b.months@ == ls@
                &&& b.month_state == clamped(a.month_state as int, ls@.len() as int)
                &&& b.input == a.input
                &&& b.selected_key() matches Some(k) ==> r == Request::Read(k) && b.pending
                    == Pending::Show(false) && b.transactions == a.transactions
                &&& b.selected_key() is None ==> r is Nothing && b.transactions@.len() == 0
            },
            _ => r is Nothing && b.pending is Idle && same_view(a, b),
        },
    }
}

impl App {
    /// Shows the transactions of a month's file, or an error when it cannot be read.
    fn show_month(&mut self, contents: Option<String>, with_sum: bool)
        requires
            old(self).wf(),
        ensures
            final(self).wf(),
            final(self).months == old(self).months,
            final(self).month_state == old(self).month_state,
            final(self).state == old(self).state,
            final(self).pending == old(self).pending,
            match loaded(text_of(contents)) {
                Ok(es) => {
                    &&& entries(final(self).transactions@) == sort_by_date(es)
                    &&& final(self).transaction_state == clamped(
                        old(self).transaction_state as int,
                        es.len() as int,
                    )
                    &&& with_sum ==> final(self).input@ == "Sum for current month: "@ + amount_text(
                        sum_amounts(sort_by_date(es)),
                    )
                    &&& !with_sum ==> final(self).input == old(self).input
                },
                Err(_) => final(self).transactions@.len() == 0 && final(self).input@
                    == "Cannot read month"@,
            },
    {
        match get_transactions_for_month(&contents) {
            Ok(v) => {
                proof {
                    crate::store::lemma_sort_by_date(loaded(text_of(contents))->Ok_0);
                }
                let n = v.len();
                self.transactions = v;
                if n == 0 {
                    self.transaction_state = 0;
                } else if self.transaction_state >= n {
                    self.transaction_state = n - 1;
                }
                if with_sum {
                    self.set_input_to_sum();
                }
            },
            Err(_) => {
                self.clear_transactions();
                self.say("Cannot read month");
            },
        }
    }

    fn clear_transactions(&mut self)
        requires
            old(self).wf(),
        ensures
            final(self).wf(),
            final(self).transactions@.len() == 0,
            final(self).transaction_state == 0,
            final(self).months == old(self).months,
            final(self).month_state == old(self).month_state,
            final(self).state == old(self).state,
            final(self).pending == old(self).pending,
            final(self).input == old(self).input,
    {
        self.transactions = Vec::new();
        self.transaction_state = 0;
        assert(entries(self.transactions@) =~= Seq::<Entry>::empty());
    }

    /// Takes the answer to the last request, and gives the next request.
    pub fn on_reply(&mut self, reply: Reply) -> (r: Request)
        requires
            old(self).wf(),
        ensures
            final(self).wf(),
            reply_step(*old(self), *final(self), reply, r),
    {
        let mut pending = Pending::Idle;
        std::mem::swap(&mut self.pending, &mut pending);
        match pending {
            Pending::Idle => Request::Nothing,
            Pending::Show(with_sum) => {
                match reply {
                    Reply::Contents(c) => self.show_month(c, with_sum),
                    _ => {
                        self.clear_transactions();
                        self.say("Cannot read month");
                    },
                }
                Request::Nothing
            },
            Pending::Append(t) => {
                let key = MonthKey::of(t.date);
                match reply {
                    Reply::Contents(c) => match add_transaction(&c, t) {
                        Ok(text) => {
                            self.pending = Pending::Stored {
                                rescan: true,
                                cursor: self.transaction_state,
                            };
                            Request::Write(key, text)
                        },
                        Err(_) => {
                            self.say("Cannot add entry");
                            Request::Nothing
                        },
                    },
                    _ => {
                        self.say("Cannot add entry");
                        Request::Nothing
                    },
                }
            },
            Pending::Remove(i) => {
                let key = self.get_selected_month();
                match reply {
                    Reply::Contents(c) => match (del_entry(&c, i), key) {
                        (Ok(text), Some(k)) => {
                            let n = self.transactions.len();
                            let cursor = if n > 1 && i == n - 1 {
                                i - 1
                            } else {
                                i
                            };
                            self.pending = Pending::Stored { rescan: false, cursor };
                            Request::Write(k, text)
                        },
                        _ => {
                            self.say("Cannot delete entry");
                            Request::Nothing
                        },
                    },
                    _ => {
                        self.say("Cannot delete entry");
                        Request::Nothing
                    },
                }
            },
            Pending::Relocate(t) => match reply {
                Reply::Written => {
                    let key = MonthKey::of(t.date);
                    self.pending = Pending::Append(t);
                    Request::Read(key)
                },
                _ => {
                    self.say("Cannot write entry");
                    Request::Nothing
                },
            },
            Pending::Stored { rescan, cursor } => match reply {
                Reply::Written => {
                    let n = self.transactions.len();
                    self.transaction_state = if n == 0 {
                        0
                    } else if cursor >= n {
                        n - 1
                    } else {
                        cursor
                    };
                    if rescan {
                        self.refresh_months()
                    } else {
                        self.refresh_transactions(false)
                    }
                },
                _ => {
                    self.say("Cannot write entry");
                    Request::Nothing
                },
            },
            Pending::Catalog => match reply {
                Reply::Months(labels) => {
                    let n = labels.len();
                    self.months = labels;
                    if n == 0 {
                        self.month_state = 0;
                    } else if self.month_state >= n {
                        self.month_state = n - 1;
                    }
                    self.refresh_transactions(false)
                },
                _ => Request::Nothing,
            },
        }
    }
}

/// The position reached from `i` after `k` moves to the next of `n`.
pub open spec fn cycle_next(i: int, n: int, k: nat) -> int
    decreases k,
{
    if k == 0 {
        i
    } else {
        next_index(cycle_next(i, n, (k - 1) as nat), n)
    }
}

/// The position reached from `i` after `k` moves to the previous of `n`.
pub open spec fn cycle_prev(i: int, n: int, k: nat) -> int
    decreases k,
{
    if k == 0 {
        i
    } else {
        prev_index(cycle_prev(i, n, (k - 1) as nat), n)
    }
}

proof fn lemma_cycle_steps(i: int, n: int, k: nat)
    requires
        0 <= i < n,
        k <= n,
    ensures
        cycle_next(i, n, k) == if i + k < n {
            i + k
        } else {
            i + k - n
        },
        cycle_prev(i, n, k) == if i - k >= 0 {
            i - k
        } else {
            i - k + n
        },
    decreases k,
{
    if k > 0 {
        lemma_cycle_steps(i, n, (k - 1) as nat);
    }
}

/// Over `n` months (or transactions), `n` successive moves to the next one, or `n` to the
/// previous one, bring the cursor back to where it started.
pub proof fn lemma_circular_navigation(i: int, n: int)
    requires
        0 <= i < n,
    ensures
        cycle_next(i, n, n as nat) == i,
        cycle_prev(i, n, n as nat) == i,
{
    lemma_cycle_steps(i, n, n as nat);
}

/// Deleting the entry at `i` of a month's date-sorted list `sort_by_date(es)`: a cursor on
/// the last of more than one entry moves back by one, and reloading the month gives exactly
/// the sorted list without that entry.
pub proof fn lemma_delete_reindexing(es: Seq<Entry>, i: int)
    requires
        all_storable(es),
        0 <= i < es.len(),
    ensures
        es.len() > 1 && i == es.len() - 1 ==> cursor_after_delete(i, es.len() as int) == es.len()
            - 2,
        loaded(Some(file_text(sort_by_date(sort_by_date(es).remove(i))))) == Ok::<
            Seq<Entry>,
            LedgerError,
        >(sort_by_date(es).remove(i)),
        sort_by_date(es).remove(i).to_multiset() == es.to_multiset().remove(sort_by_date(es)[i]),
{
    crate::store::lemma_sort_by_date(es);
    crate::store::lemma_sort_storable(es);
    let s = sort_by_date(es);
    let t = s.remove(i);
    assert(crate::store::sorted_by_date(t)) by {
        assert forall|a: int, b: int| 0 <= a < b < t.len() implies (#[trigger] t[a]).date.key()
            <= (#[trigger] t[b]).date.key() by {
            let a2 = if a < i {
                a
            } else {
                a + 1
            };
            let b2 = if b < i {
                b
            } else {
                b + 1
            };
            assert(t[a] == s[a2] && t[b] == s[b2]);
        }
    }
    crate::store::lemma_sorted_is_fixed(t);
    assert(all_storable(t)) by {
        assert forall|a: int| 0 <= a < t.len() implies storable(#[trigger] t[a]) by {
            if a < i {
                assert(t[a] == s[a]);
            } else {
                assert(t[a] == s[a + 1]);
            }
        }
    }
    crate::store::lemma_save_then_load_is_sorted(t);
    vstd::seq_lib::to_multiset_remove(s, i);
}

/// Updating the entry at `i` of a month's list to `e`: reloading the month gives that list
/// with the slot replaced, sorted by date, of the same length.
pub proof fn lemma_update_in_place(es: Seq<Entry>, i: int, e: Entry)
    requires
        all_storable(es),
        storable(e),
        0 <= i < es.len(),
    ensures
        loaded(Some(file_text(sort_by_date(es.update(i, e))))) == Ok::<Seq<Entry>, LedgerError>(
            sort_by_date(es.update(i, e)),
        ),
        sort_by_date(es.update(i, e)).len() == es.len(),
        sort_by_date(es.update(i, e)).to_multiset() == es.to_multiset().insert(e).remove(es[i]),
{
    let u = es.update(i, e);
    assert(all_storable(u)) by {
        assert forall|a: int| 0 <= a < u.len() implies storable(#[trigger] u[a]) by {
            if a != i {
                assert(u[a] == es[a]);
            }
        }
    }
    crate::store::lemma_save_then_load_is_sorted(u);
    crate::store::lemma_sort_by_date(u);
    vstd::seq_lib::to_multiset_update(es, i, e);
}

/// One turn of the session while browsing: `intent` is handled, and the request it gives,
/// if any was answered, is answered once.
pub open spec fn turn(a: App, c: App, intent: Intent) -> bool {
    &&& a.is_normal()
    &&& exists|b: App, r: Request|
        #[trigger] browse_step(a, b, intent, r) && (c == b || exists|reply: Reply, r2: Request|
            #[trigger] reply_step(b, c, reply, r2))
}

/// A run of turns with one intent: `s[k + 1]` follows `s[k]`.
pub open spec fn run_of(s: Seq<App>, intent: Intent) -> bool {
    forall|k: int| 0 <= k < s.len() - 1 ==> #[trigger] turn(s[k], s[k + 1], intent)
}

proof fn lemma_month_turns_prefix(s: Seq<App>, intent: Intent, k: int)
    requires
        intent == Intent::NextMonth || intent == Intent::PrevMonth,
        s.len() >= 1,
        s[0].is_normal(),
        s[0].months@.len() > 0,
        run_of(s, intent),
        0 <= k < s.len(),
    ensures
        s[k].months == s[0].months,
        s[k].is_normal(),
        s[k].month_state == if intent == Intent::NextMonth {
            cycle_next(s[0].month_state as int, s[0].months@.len() as int, k as nat)
        } else {
            cycle_prev(s[0].month_state as int, s[0].months@.len() as int, k as nat)
        },
    decreases k,
{
    if k > 0 {
        lemma_month_turns_prefix(s, intent, k - 1);
        let j = k - 1;
        assert(turn(s[j], s[j + 1], intent));
        let a = s[j];
        let c = s[k];
        let (b, r) = choose|b: App, r: Request|
            #[trigger] browse_step(a, b, intent, r) && (c == b || exists|reply: Reply, r2: Request|
                #[trigger] reply_step(b, c, reply, r2));
        if c != b {
            let (reply, r2) = choose|reply: Reply, r2: Request| #[trigger] reply_step(b, c, reply, r2);
        }
    }
}

/// Over `n` months, `n` turns of moving to the next month, or `n` of moving to the
/// previous one, bring the month cursor back to where it started, still browsing.
pub proof fn lemma_month_navigation_cycles(s: Seq<App>, intent: Intent)
    requires
        intent == Intent::NextMonth || intent == Intent::PrevMonth,
        s.len() >= 1,
        s[0].wf(),
        s[0].is_normal(),
        s[0].months@.len() > 0,
        s.len() == s[0].months@.len() + 1,
        run_of(s, intent),
    ensures
        s.last().month_state == s[0].month_state,
        s.last().months == s[0].months,
        s.last().is_normal(),
{
    lemma_month_turns_prefix(s, intent, s.len() - 1);
    lemma_circular_navigation(s[0].month_state as int, s[0].months@.len() as int);
}

proof fn lemma_transaction_turns_prefix(s: Seq<App>, intent: Intent, k: int)
    requires
        intent == Intent::NextTransaction || intent == Intent::PrevTransaction,
        s.len() >= 1,
        s[0].is_normal(),
        s[0].transactions@.len() > 0,
        s[0].pending is Idle,
        run_of(s, intent),
        0 <= k < s.len(),
    ensures
        s[k].transactions == s[0].transactions,
        s[k].months == s[0].months,
        s[k].month_state == s[0].month_state,
        s[k].is_normal(),
        s[k].pending is Idle,
        s[k].transaction_state == if intent == Intent::NextTransaction {
            cycle_next(s[0].transaction_state as int, s[0].transactions@.len() as int, k as nat)
        } else {
            cycle_prev(s[0].transaction_state as int, s[0].transactions@.len() as int, k as nat)
        },
    decreases k,
{
    if k > 0 {
        lemma_transaction_turns_prefix(s, intent, k - 1);
        let j = k - 1;
        assert(turn(s[j], s[j + 1], intent));
        let a = s[j];
        let c = s[k];
        let (b, r) = choose|b: App, r: Request|
            #[trigger] browse_step(a, b, intent, r) && (c == b || exists|reply: Reply, r2: Request|
                #[trigger] reply_step(b, c, reply, r2));
        if c != b {
            let (reply, r2) = choose|reply: Reply, r2: Request| #[trigger] reply_step(b, c, reply, r2);
        }
    }
}

/// Over `n` transactions, `n` turns of moving to the next transaction, or `n` of moving to
/// the previous one, bring the transaction cursor back, with the month and list unchanged.
pub proof fn lemma_transaction_navigation_cycles(s: Seq<App>, intent: Intent)
    requires
        intent == Intent::NextTransaction || intent == Intent::PrevTransaction,
        s.len() >= 1,
        s[0].wf(),
        s[0].is_normal(),
        s[0].pending is Idle,
        s[0].transactions@.len() > 0,
        s.len() == s[0].transactions@.len() + 1,
        run_of(s, intent),
    ensures
        s.last().transaction_state == s[0].transaction_state,
        s.last().transactions == s[0].transactions,
        s.last().months == s[0].months,
        s.last().month_state == s[0].month_state,
        s.last().is_normal(),
{
    lemma_transaction_turns_prefix(s, intent, s.len() - 1);
    lemma_circular_navigation(s[0].transaction_state as int, s[0].transactions@.len() as int);
}

} // verus!
