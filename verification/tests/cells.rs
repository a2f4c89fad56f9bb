use riftpipe::sync::algo::cells::{
    delta_for, delta_since, is_ident, is_later, judge, local_change, state_bytes, state_vector, CellChange, Verdict,
};

/// A table store in memory: the log of winning writes, and a clock.
struct Store {
    site: String,
    clock: u64,
    log: Vec<CellChange>,
}

fn copy(c: &CellChange) -> CellChange {
    CellChange {
        table: c.table.clone(),
        id: c.id.clone(),
        column: c.column.clone(),
        value: c.value.clone(),
        lamport: c.lamport,
        site: c.site.clone(),
    }
}

impl Store {
    fn new(site: &str) -> Self {
        Store { site: site.to_string(), clock: 0, log: vec![] }
    }

    fn place(&self, table: &str, id: &str, column: &str) -> Option<usize> {
        self.log.iter().position(|c| c.table == table && c.id == id && c.column == column)
    }

    fn set(&mut self, table: &str, id: &str, column: &str, value: &[u8]) {
        let c = local_change(self.clock, &self.site, table, id, column, value.to_vec());
        self.clock += 1;
        self.take(c);
    }

    fn take(&mut self, c: CellChange) -> bool {
        let at = self.place(&c.table, &c.id, &c.column);
        let stored = at.map(|i| (self.log[i].lamport, self.log[i].site.as_str()));
        let (verdict, clock) = judge(self.clock, &c, stored);
        self.clock = clock;
        if verdict != Verdict::Wins {
            return false;
        }
        match at {
            Some(i) => self.log[i] = c,
            None => self.log.push(c),
        }
        true
    }

    fn get(&self, table: &str, id: &str, column: &str) -> Option<Vec<u8>> {
        self.place(table, id, column).map(|i| self.log[i].value.clone())
    }
}

/// Sync everything both ways until stable.
fn reconcile(a: &mut Store, b: &mut Store) {
    for _ in 0..2 {
        for c in delta_since(&a.log, &state_vector(&b.log)) {
            b.take(copy(&c));
        }
        for c in delta_since(&b.log, &state_vector(&a.log)) {
            a.take(copy(&c));
        }
    }
}

fn pair() -> (Store, Store) {
    (Store::new("a"), Store::new("b"))
}

/// Concurrent edits to *different columns* of the same row both survive
/// (per-column update, no whole-row clobber).
#[test]
fn different_columns_of_same_row_both_survive() {
    let (mut a, mut b) = pair();
    a.set("cards", "x", "title", b"Hello");
    b.set("cards", "x", "lane", b"Doing");
    reconcile(&mut a, &mut b);
    for s in [&a, &b] {
        assert_eq!(s.get("cards", "x", "title"), Some(b"Hello".to_vec()));
        assert_eq!(s.get("cards", "x", "lane"), Some(b"Doing".to_vec()));
    }
}

/// Same cell edited on both sides converges to one deterministic winner.
#[test]
fn same_cell_resolves_last_writer_wins() {
    let (mut a, mut b) = pair();
    a.set("cards", "y", "title", b"A");
    b.set("cards", "y", "title", b"B");
    reconcile(&mut a, &mut b);
    let av = a.get("cards", "y", "title");
    assert_eq!(av, b.get("cards", "y", "title"), "diverged");
    // equal lamport (1) -> tiebreak on larger site id: "b" > "a".
    assert_eq!(av, Some(b"B".to_vec()));
}

/// Updates are keyed on id: different rows are independent.
#[test]
fn updates_are_keyed_on_id() {
    let (mut a, mut b) = pair();
    a.set("cards", "r1", "title", b"one");
    a.set("cards", "r2", "title", b"two");
    reconcile(&mut a, &mut b);
    assert_eq!(b.get("cards", "r1", "title"), Some(b"one".to_vec()));
    assert_eq!(b.get("cards", "r2", "title"), Some(b"two".to_vec()));
}

/// A later edit to one column leaves the row's other columns untouched.
#[test]
fn updating_one_column_preserves_the_others() {
    let (mut a, mut b) = pair();
    a.set("cards", "z", "title", b"T");
    a.set("cards", "z", "done", b"0");
    reconcile(&mut a, &mut b);
    a.set("cards", "z", "done", b"1");
    reconcile(&mut a, &mut b);
    assert_eq!(b.get("cards", "z", "title"), Some(b"T".to_vec()));
    assert_eq!(b.get("cards", "z", "done"), Some(b"1".to_vec()));
}

/// Once converged, neither side has anything left to send.
#[test]
fn sqlite_nothing_to_send_when_in_sync() {
    let (mut a, mut b) = pair();
    a.set("cards", "x", "title", b"hi");
    reconcile(&mut a, &mut b);
    assert!(delta_since(&a.log, &state_vector(&b.log)).is_empty());
    assert!(delta_since(&b.log, &state_vector(&a.log)).is_empty());
}

#[test]
fn rejects_unsafe_identifiers() {
    let mut a = Store::new("a");
    // a bogus table/column name is refused.
    assert!(!is_ident("cards; DROP TABLE cards"));
    a.set("cards", "x", "title); DROP TABLE cards--", b"x");
    assert!(a.log.is_empty());
    assert!(a.get("cards", "x", "title").is_none());
}

#[test]
fn identifiers_are_words() {
    assert!(is_ident("cards") && is_ident("_a1") && is_ident("A_b"));
    assert!(!is_ident("") && !is_ident("a b") && !is_ident("é"));
}

#[test]
fn later_writes_win() {
    assert!(is_later(2, "a", 1, "b") && !is_later(1, "b", 2, "a"));
    assert!(is_later(1, "b", 1, "a") && !is_later(1, "a", 1, "a"));
    let c = local_change(4, "s", "t", "i", "c", vec![]);
    assert_eq!(c.lamport, 5);
    assert_eq!(judge(9, &c, None), (Verdict::Wins, 9));
    assert_eq!(judge(2, &c, Some((6, "a"))), (Verdict::Older, 5));
    let bad = local_change(4, "s", "t;", "i", "c", vec![]);
    assert_eq!(judge(2, &bad, None), (Verdict::Refused, 2));
}

#[test]
fn times_travel_as_json() {
    let mut a = Store::new("a");
    a.set("t", "1", "x", b"one");
    a.set("t", "1", "y", b"two");
    let mut b = Store::new("b");
    b.set("t", "2", "x", b"other");
    assert_eq!(state_bytes(&a.log), b"{\"a\":2}");
    assert!(delta_for(&a.log, &state_bytes(&a.log)).is_empty());
    assert_eq!(delta_for(&a.log, &state_bytes(&b.log)).len(), 2);
    let part = delta_for(&a.log, b"{\"a\":1}");
    assert_eq!((part.len(), part[0].value.as_slice()), (1, &b"two"[..]));
    // The last of two entries for one site counts.
    assert!(delta_for(&a.log, b"{\"a\":1,\"a\":2}").is_empty());
    // What cannot be read says nothing.
    for bad in [&b""[..], b"nonsense", b"[1]", b"{\"a\":-1}"] {
        assert_eq!(delta_for(&a.log, bad).len(), 2);
    }
}
