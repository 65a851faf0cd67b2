//! Contact names by handle: the table that maps phone and e-mail keys to the
//! display name of an address-book record, how address-book rows fill it,
//! and how a chat identifier is looked up in it.
use vstd::prelude::*;
use crate::keys::{email_key, identifier_keys, normalize_email, phone_keys, phone_keys_of, phone_or_email_keys};
use crate::text::{ascii_lowercased, push_char, trimmed};

verus! {

/// One row of the address book: the name parts of a record, the record's
/// row id in its address book, and one of its phone numbers or e-mail
/// addresses.
pub struct ContactRow {
    pub first: Option<String>,
    pub last: Option<String>,
    pub nick: Option<String>,
    pub org: Option<String>,
    pub value: String,
    pub record: i64,
}

/// The rows read from one address-book source, with a number that tells the
/// source apart from the others.
pub struct SourceRows {
    pub id: usize,
    pub phones: Vec<ContactRow>,
    pub emails: Vec<ContactRow>,
}

/// An address-book record: its source and its row id there.
pub type RecordKey = (usize, i64);

/// A contact as plain values: the display name, and the record it belongs
/// to.
pub type Contact = (Seq<char>, RecordKey);

/// A contact found in the table: the display name of an address-book record
/// and the record it belongs to.
pub struct ContactRef {
    pub name: String,
    pub source: usize,
    pub record: i64,
}

impl View for ContactRef {
    type V = Contact;

    open spec fn view(&self) -> Contact {
        (self.name@, (self.source, self.record))
    }
}

impl ContactRef {
    /// A copy of this contact.
    pub fn copy(&self) -> (r: ContactRef)
        ensures
            r == *self,
    {
        ContactRef { name: self.name.clone(), source: self.source, record: self.record }
    }
}

pub open spec fn opt_chars(o: Option<String>) -> Option<Seq<char>> {
    match o {
        Some(s) => Some(s@),
        None => None,
    }
}

/// A name part counts only when it is present and not empty.
pub open spec fn present(o: Option<Seq<char>>) -> Option<Seq<char>> {
    match o {
        Some(s) => if s.len() > 0 { Some(s) } else { None },
        None => None,
    }
}

/// The display name of a record: "first last", else whichever of the two is
/// there, else the nickname, else the organisation.
pub open spec fn display_name_of(
    first: Option<Seq<char>>,
    last: Option<Seq<char>>,
    nick: Option<Seq<char>>,
    org: Option<Seq<char>>,
) -> Option<Seq<char>> {
    match (present(first), present(last)) {
        (Some(f), Some(l)) => Some(f + seq![' '] + l),
        (Some(f), None) => Some(f),
        (None, Some(l)) => Some(l),
        (None, None) => if present(nick) is Some { present(nick) } else { present(org) },
    }
}

pub open spec fn row_name(r: ContactRow) -> Option<Seq<char>> {
    display_name_of(opt_chars(r.first), opt_chars(r.last), opt_chars(r.nick), opt_chars(r.org))
}

fn present_part(o: Option<String>) -> (r: Option<String>)
    ensures
        opt_chars(r) == present(opt_chars(o)),
{
    match o {
        Some(s) => if s.as_str().unicode_len() > 0 { Some(s) } else { None },
        None => None,
    }
}

/// The display name of an address-book record (see [`display_name_of`]).
pub fn build_name(
    first: Option<String>,
    last: Option<String>,
    nick: Option<String>,
    org: Option<String>,
) -> (name: Option<String>)
    ensures
        opt_chars(name) == display_name_of(opt_chars(first), opt_chars(last), opt_chars(nick), opt_chars(org)),
{
    let f = present_part(first);
    let l = present_part(last);
    match (f, l) {
        (Some(f), Some(l)) => {
            let mut full = f;
            push_char(&mut full, ' ');
            return Some(full.concat(l.as_str()));
        },
        (Some(f), None) => return Some(f),
        (None, Some(l)) => return Some(l),
        _ => {},
    }
    let n = present_part(nick);
    if n.is_some() {
        return n;
    }
    present_part(org)
}

fn clone_part(o: &Option<String>) -> (r: Option<String>)
    ensures
        r == *o,
{
    match o {
        Some(s) => Some(s.clone()),
        None => None,
    }
}

fn name_of_row(row: &ContactRow) -> (name: Option<String>)
    ensures
        opt_chars(name) == row_name(*row),
{
    build_name(clone_part(&row.first), clone_part(&row.last), clone_part(&row.nick), clone_part(&row.org))
}

/// The table a list of (key, contact) entries stands for.
pub open spec fn table_of(entries: Seq<(String, ContactRef)>) -> Map<Seq<char>, Contact>
    decreases entries.len(),
{
    if entries.len() == 0 {
        Map::empty()
    } else {
        table_of(entries.drop_last()).insert(entries.last().0@, entries.last().1@)
    }
}

pub open spec fn keys_distinct(entries: Seq<(String, ContactRef)>) -> bool {
    forall|i: int, j: int| 0 <= i < j < entries.len() ==> entries[i].0@ != entries[j].0@
}

proof fn lemma_table_of(entries: Seq<(String, ContactRef)>)
    requires
        keys_distinct(entries),
    ensures
        table_of(entries).dom().finite(),
        table_of(entries).dom().len() == entries.len(),
        forall|k: Seq<char>| #[trigger] table_of(entries).dom().contains(k)
            <==> exists|i: int| 0 <= i < entries.len() && entries[i].0@ == k,
        forall|i: int| 0 <= i < entries.len() ==> #[trigger] table_of(entries)[entries[i].0@] == entries[i].1@,
    decreases entries.len(),
{
    if entries.len() > 0 {
        let p = entries.drop_last();
        lemma_table_of(p);
        let last = entries.last();
        assert(!table_of(p).dom().contains(last.0@)) by {
            if table_of(p).dom().contains(last.0@) {
                let i = choose|i: int| 0 <= i < p.len() && p[i].0@ == last.0@;
                assert(entries[i].0@ == entries[entries.len() - 1].0@);
            }
        }
        assert forall|k: Seq<char>| #[trigger] table_of(entries).dom().contains(k)
            <==> exists|i: int| 0 <= i < entries.len() && entries[i].0@ == k by {
            if table_of(entries).dom().contains(k) && k != last.0@ {
                let i = choose|i: int| 0 <= i < p.len() && p[i].0@ == k;
                assert(entries[i].0@ == k);
            }
            if exists|i: int| 0 <= i < entries.len() && entries[i].0@ == k {
                let i = choose|i: int| 0 <= i < entries.len() && entries[i].0@ == k;
                if i < entries.len() - 1 {
                    assert(p[i].0@ == k);
                }
            }
        }
        assert forall|i: int| 0 <= i < entries.len() implies #[trigger] table_of(entries)[entries[i].0@] == entries[i].1@ by {
            if i < entries.len() - 1 {
                assert(p[i] == entries[i]);
                assert(entries[i].0@ != last.0@);
            }
        }
    }
}

/// `m` with every key of `keys` that it lacks filed under the contact `c`;
/// keys it already has keep their contacts.
pub open spec fn file_under(m: Map<Seq<char>, Contact>, keys: Seq<Seq<char>>, c: Contact) -> Map<Seq<char>, Contact> {
    Map::new(
        |k: Seq<char>| m.dom().contains(k) || keys.contains(k),
        |k: Seq<char>| if m.dom().contains(k) { m[k] } else { c },
    )
}

/// Whether some key of `keys` is missing from `m`.
pub open spec fn adds_key(m: Map<Seq<char>, Contact>, keys: Seq<Seq<char>>) -> bool {
    exists|i: int| 0 <= i < keys.len() && !m.dom().contains(keys[i])
}

/// The contact a named row of source `source` files.
pub open spec fn row_contact(r: ContactRow, source: usize, name: Seq<char>) -> Contact {
    (name, (source, r.record))
}

/// The table after the phone rows `rows` of source `source`, and how many
/// rows filed at least one new key.
pub open spec fn phones_loaded(m: Map<Seq<char>, Contact>, source: usize, rows: Seq<ContactRow>) -> (Map<Seq<char>, Contact>, nat)
    decreases rows.len(),
{
    if rows.len() == 0 {
        (m, 0)
    } else {
        let (p, n) = phones_loaded(m, source, rows.drop_last());
        let r = rows.last();
        match row_name(r) {
            Some(name) => {
                let ks = phone_keys_of(r.value@);
                (file_under(p, ks, row_contact(r, source, name)), if adds_key(p, ks) { n + 1 } else { n })
            },
            None => (p, n),
        }
    }
}

/// The table after the e-mail rows `rows` of source `source`, and how many
/// rows filed a new key.
pub open spec fn emails_loaded(m: Map<Seq<char>, Contact>, source: usize, rows: Seq<ContactRow>) -> (Map<Seq<char>, Contact>, nat)
    decreases rows.len(),
{
    if rows.len() == 0 {
        (m, 0)
    } else {
        let (p, n) = emails_loaded(m, source, rows.drop_last());
        let r = rows.last();
        let k = email_key(r.value@);
        match row_name(r) {
            Some(name) => if k.len() > 0 && !p.dom().contains(k) {
                (p.insert(k, row_contact(r, source, name)), n + 1)
            } else {
                (p, n)
            },
            None => (p, n),
        }
    }
}

/// The table after one source: its phone rows, then its e-mail rows.
pub open spec fn source_loaded(m: Map<Seq<char>, Contact>, src: SourceRows) -> Map<Seq<char>, Contact> {
    emails_loaded(phones_loaded(m, src.id, src.phones@).0, src.id, src.emails@).0
}

/// The table after the sources `srcs`, in order.
pub open spec fn sources_loaded(m: Map<Seq<char>, Contact>, srcs: Seq<SourceRows>) -> Map<Seq<char>, Contact>
    decreases srcs.len(),
{
    if srcs.len() == 0 {
        m
    } else {
        source_loaded(sources_loaded(m, srcs.drop_last()), srcs.last())
    }
}

/// The contact found for the keys `keys`: that of the first key in the
/// table.
pub open spec fn first_match(m: Map<Seq<char>, Contact>, keys: Seq<Seq<char>>) -> Option<Contact>
    decreases keys.len(),
{
    if keys.len() == 0 {
        None
    } else if m.dom().contains(keys[0]) {
        Some(m[keys[0]])
    } else {
        first_match(m, keys.drop_first())
    }
}

/// Address-book records (their display names and where they come from),
/// filed under the keys of their phone numbers and e-mail addresses. A key
/// keeps the first contact filed under it.
pub struct ContactResolver {
    handles: Vec<(String, ContactRef)>,
}

impl View for ContactResolver {
    type V = Map<Seq<char>, Contact>;

    closed spec fn view(&self) -> Map<Seq<char>, Contact> {
        table_of(self.handles@)
    }
}

impl ContactResolver {
    /// No key occurs twice.
    #[verifier::type_invariant]
    spec fn keys_unique(self) -> bool {
        keys_distinct(self.handles@)
    }

    /// An empty table.
    pub fn new() -> (r: Self)
        ensures
            r@ == Map::<Seq<char>, Contact>::empty(),
    {
        ContactResolver { handles: Vec::new() }
    }

    /// The number of keys in the table.
    pub fn len(&self) -> (n: usize)
        ensures
            self@.dom().finite(),
            n == self@.dom().len(),
    {
        proof {
            use_type_invariant(self);
            lemma_table_of(self.handles@);
        }
        self.handles.len()
    }

    fn find(&self, key: &String) -> (r: Option<usize>)
        ensures
            match r {
                Some(i) => i < self.handles@.len() && self.handles@[i as int].0@ == key@,
                None => !self@.dom().contains(key@),
            },
    {
        proof {
            use_type_invariant(self);
            lemma_table_of(self.handles@);
        }
        let mut i: usize = 0;
        while i < self.handles.len()
            invariant
                i <= self.handles@.len(),
                forall|j: int| 0 <= j < i ==> self.handles@[j].0@ != key@,
            decreases self.handles@.len() - i,
        {
            if self.handles[i].0 == *key {
                return Some(i);
            }
            i = i + 1;
        }
        None
    }

    /// Files `contact` under `key` unless the key is already there.
    fn insert_absent(&mut self, key: &String, contact: &ContactRef) -> (added: bool)
        ensures
            added == !old(self)@.dom().contains(key@),
            added ==> final(self)@ == old(self)@.insert(key@, contact@),
            !added ==> final(self)@ == old(self)@,
    {
        proof {
            use_type_invariant(&*self);
            lemma_table_of(self.handles@);
        }
        match self.find(key) {
            Some(_) => false,
            None => {
                let ghost before = self.handles@;
                let mut handles: Vec<(String, ContactRef)> = Vec::new();
                std::mem::swap(&mut handles, &mut self.handles);
                handles.push((key.clone(), contact.copy()));
                proof {
                    assert(handles@.drop_last() =~= before);
                    assert forall|i: int, j: int| 0 <= i < j < handles@.len()
                        implies handles@[i].0@ != handles@[j].0@ by {
                        if j == before.len() {
                            assert(before[i] == handles@[i]);
                        }
                    }
                }
                self.handles = handles;
                true
            },
        }
    }

    /// Files the phone rows `rows` of source `source`; returns how many of
    /// them filed at least one new key (a record with several numbers counts
    /// once per number).
    pub fn load_phones(&mut self, source: usize, rows: &Vec<ContactRow>) -> (n: usize)
        ensures
            (final(self)@, n as nat) == phones_loaded(old(self)@, source, rows@),
    {
        let mut n: usize = 0;
        let mut i: usize = 0;
        while i < rows.len()
            invariant
                i <= rows@.len(),
                n <= i,
                (self@, n as nat) == phones_loaded(old(self)@, source, rows@.take(i as int)),
            decreases rows@.len() - i,
        {
            let row = &rows[i];
            let ghost p = self@;
            assert(rows@.take(i + 1).drop_last() =~= rows@.take(i as int));
            match name_of_row(row) {
                Some(name) => {
                    let contact = ContactRef { name, source, record: row.record };
                    let keys = phone_keys(row.value.as_str());
                    let mut inserted_any = false;
                    let mut j: usize = 0;
                    assert(file_under(p, keys.deep_view().take(0), contact@) =~= p);
                    while j < keys.len()
                        invariant
                                            j <= keys@.len(),
                            self@ == file_under(p, keys.deep_view().take(j as int), contact@),
                            contact@ == row_contact(*row, source, contact.name@),
                            inserted_any == adds_key(p, keys.deep_view().take(j as int)),
                        decreases keys@.len() - j,
                    {
                        let ghost before = self@;
                        let ghost ks = keys.deep_view().take(j as int);
                        let ghost k = keys@[j as int]@;
                        assert(keys.deep_view().take(j + 1) =~= ks.push(k));
                        let added = self.insert_absent(&keys[j], &contact);
                        if added {
                            inserted_any = true;
                        }
                        assert forall|x: Seq<char>| ks.push(k).contains(x) <==> (ks.contains(x) || x == k) by {
                            if ks.push(k).contains(x) {
                                let w = choose|w: int| 0 <= w < ks.push(k).len() && ks.push(k)[w] == x;
                                if w < ks.len() {
                                    assert(ks[w] == x);
                                }
                            }
                            if ks.contains(x) {
                                let w = choose|w: int| 0 <= w < ks.len() && ks[w] == x;
                                assert(ks.push(k)[w] == x);
                            }
                            if x == k {
                                assert(ks.push(k)[ks.len() as int] == x);
                            }
                        }
                        assert(before.dom().contains(k) <==> (p.dom().contains(k) || ks.contains(k)));
                        assert(self@ =~= file_under(p, ks.push(k), contact@));
                        assert(adds_key(p, ks.push(k)) == (adds_key(p, ks) || !p.dom().contains(k))) by {
                            if adds_key(p, ks.push(k)) && !adds_key(p, ks) {
                                let w = choose|w: int| 0 <= w < ks.push(k).len() && !p.dom().contains(ks.push(k)[w]);
                                assert(w == ks.len());
                            }
                            if adds_key(p, ks) {
                                let w = choose|w: int| 0 <= w < ks.len() && !p.dom().contains(ks[w]);
                                assert(ks.push(k)[w] == ks[w]);
                            }
                            if !p.dom().contains(k) {
                                assert(ks.push(k)[ks.len() as int] == k);
                            }
                        }
                        assert(added == !before.dom().contains(k));
                        assert(!p.dom().contains(k) ==> (adds_key(p, ks) || !ks.contains(k))) by {
                            if !p.dom().contains(k) && ks.contains(k) {
                                let w = choose|w: int| 0 <= w < ks.len() && ks[w] == k;
                                assert(!p.dom().contains(ks[w]));
                            }
                        }
                        j = j + 1;
                    }
                    assert(keys.deep_view().take(keys@.len() as int) =~= phone_keys_of(row.value@));
                    if inserted_any {
                        n = n + 1;
                    }
                },
                None => {},
            }
            i = i + 1;
        }
        assert(rows@.take(rows@.len() as int) =~= rows@);
        n
    }

    /// Files the e-mail rows `rows` of source `source`; returns how many of
    /// them filed a new key.
    pub fn load_emails(&mut self, source: usize, rows: &Vec<ContactRow>) -> (n: usize)
        ensures
            (final(self)@, n as nat) == emails_loaded(old(self)@, source, rows@),
    {
        let mut n: usize = 0;
        let mut i: usize = 0;
        while i < rows.len()
            invariant
                i <= rows@.len(),
                n <= i,
                (self@, n as nat) == emails_loaded(old(self)@, source, rows@.take(i as int)),
            decreases rows@.len() - i,
        {
            let row = &rows[i];
            assert(rows@.take(i + 1).drop_last() =~= rows@.take(i as int));
            match name_of_row(row) {
                Some(name) => {
                    let contact = ContactRef { name, source, record: row.record };
                    let key = normalize_email(row.value.as_str());
                    if key.as_str().unicode_len() > 0 {
                        if self.insert_absent(&key, &contact) {
                            n = n + 1;
                        }
                    }
                },
                None => {},
            }
            i = i + 1;
        }
        assert(rows@.take(rows@.len() as int) =~= rows@);
        n
    }

    /// The table filled from the address-book sources `sources`, in order.
    pub fn load(sources: &Vec<SourceRows>) -> (r: Self)
        ensures
            r@ == sources_loaded(Map::empty(), sources@),
    {
        let mut r = ContactResolver::new();
        let mut i: usize = 0;
        while i < sources.len()
            invariant
                i <= sources@.len(),
                r@ == sources_loaded(Map::empty(), sources@.take(i as int)),
            decreases sources@.len() - i,
        {
            assert(sources@.take(i + 1).drop_last() =~= sources@.take(i as int));
            r.load_phones(sources[i].id, &sources[i].phones);
            r.load_emails(sources[i].id, &sources[i].emails);
            i = i + 1;
        }
        assert(sources@.take(sources@.len() as int) =~= sources@);
        r
    }

    /// The position of the entry whose contact a lookup of `chat_identifier`
    /// finds.
    fn first_index(&self, chat_identifier: &str) -> (r: Option<usize>)
        ensures
            match r {
                Some(j) => j < self.handles@.len()
                    && first_match(self@, identifier_keys(chat_identifier@)) == Some(self.handles@[j as int].1@),
                None => first_match(self@, identifier_keys(chat_identifier@)) is None,
            },
    {
        let keys = phone_or_email_keys(chat_identifier);
        let ghost all = keys.deep_view();
        let mut i: usize = 0;
        assert(all.skip(0) =~= all);
        while i < keys.len()
            invariant
                i <= keys@.len(),
                all == keys.deep_view(),
                all == identifier_keys(chat_identifier@),
                first_match(self@, all) == first_match(self@, all.skip(i as int)),
            decreases keys@.len() - i,
        {
            proof {
                use_type_invariant(self);
                lemma_table_of(self.handles@);
            }
            assert(all.skip(i as int)[0] == keys@[i as int]@);
            assert(all.skip(i as int).drop_first() =~= all.skip(i + 1));
            match self.find(&keys[i]) {
                Some(j) => {
                    assert(self@[self.handles@[j as int].0@] == self.handles@[j as int].1@);
                    assert(self@.dom().contains(all.skip(i as int)[0]));
                    return Some(j);
                },
                None => {},
            }
            i = i + 1;
        }
        None
    }

    /// The name of the contact filed under the first key of
    /// `chat_identifier` that the table holds (see [`identifier_keys`]).
    pub fn lookup(&self, chat_identifier: &str) -> (r: Option<&str>)
        ensures
            match r {
                Some(s) => (first_match(self@, identifier_keys(chat_identifier@)) matches Some(c) && c.0 == s@),
                None => first_match(self@, identifier_keys(chat_identifier@)) is None,
            },
    {
        match self.first_index(chat_identifier) {
            Some(j) => Some(self.handles[j].1.name.as_str()),
            None => None,
        }
    }

    /// The contact filed under the first key of `chat_identifier` that the
    /// table holds: its name and the record it belongs to.
    pub fn lookup_contact(&self, chat_identifier: &str) -> (r: Option<ContactRef>)
        ensures
            match r {
                Some(c) => first_match(self@, identifier_keys(chat_identifier@)) == Some(c@),
                None => first_match(self@, identifier_keys(chat_identifier@)) is None,
            },
    {
        match self.first_index(chat_identifier) {
            Some(j) => Some(self.handles[j].1.copy()),
            None => None,
        }
    }
}

/// The table after the sources that opened (`Ok`); one that failed to open
/// (`Err`) adds nothing.
pub open spec fn opened_loaded(m: Map<Seq<char>, Contact>, srcs: Seq<Result<SourceRows, String>>) -> Map<Seq<char>, Contact>
    decreases srcs.len(),
{
    if srcs.len() == 0 {
        m
    } else {
        let p = opened_loaded(m, srcs.drop_last());
        match srcs.last() {
            Ok(rows) => source_loaded(p, rows),
            Err(_) => p,
        }
    }
}

/// The sources that opened, in order.
pub open spec fn opened(srcs: Seq<Result<SourceRows, String>>) -> Seq<SourceRows>
    decreases srcs.len(),
{
    if srcs.len() == 0 {
        Seq::empty()
    } else {
        match srcs.last() {
            Ok(rows) => opened(srcs.drop_last()).push(rows),
            Err(_) => opened(srcs.drop_last()),
        }
    }
}

/// What the diagnosis reports of one source, given the table before it: the
/// phone and e-mail rows that filed new keys, or the reason it did not open.
pub open spec fn source_report(m: Map<Seq<char>, Contact>, src: Result<SourceRows, String>, out: Result<(usize, usize), String>) -> bool {
    match src {
        Ok(rows) => {
            let (after_phones, phones) = phones_loaded(m, rows.id, rows.phones@);
            let emails = emails_loaded(after_phones, rows.id, rows.emails@).1;
            out == Ok::<(usize, usize), String>((phones as usize, emails as usize))
        },
        Err(e) => match out {
            Err(msg) => msg@ == e@,
            Ok(_) => false,
        },
    }
}

/// Loads every source that opened into one table, as
/// [`ContactResolver::load`] does, and reports per source how many phone
/// and e-mail rows filed new keys, or why it did not open; also returns the
/// number of keys in the table.
pub fn diagnose_sources(sources: &Vec<Result<SourceRows, String>>) -> (r: (usize, Vec<Result<(usize, usize), String>>))
    ensures
        opened_loaded(Map::empty(), sources@).dom().finite(),
        r.0 == opened_loaded(Map::empty(), sources@).dom().len(),
        r.1@.len() == sources@.len(),
        forall|i: int| 0 <= i < sources@.len() ==>
            source_report(opened_loaded(Map::empty(), sources@.take(i)), #[trigger] sources@[i], r.1@[i]),
{
    let mut handles = ContactResolver::new();
    let mut results: Vec<Result<(usize, usize), String>> = Vec::new();
    let mut i: usize = 0;
    while i < sources.len()
        invariant
            i <= sources@.len(),
            results@.len() == i,
            handles@ == opened_loaded(Map::empty(), sources@.take(i as int)),
            forall|j: int| 0 <= j < i ==>
                source_report(opened_loaded(Map::empty(), sources@.take(j)), #[trigger] sources@[j], results@[j]),
        decreases sources@.len() - i,
    {
        assert(sources@.take(i + 1).drop_last() =~= sources@.take(i as int));
        let ghost before = handles@;
        match &sources[i] {
            Ok(rows) => {
                let phones = handles.load_phones(rows.id, &rows.phones);
                let emails = handles.load_emails(rows.id, &rows.emails);
                results.push(Ok((phones, emails)));
            },
            Err(e) => {
                results.push(Err(e.clone()));
            },
        }
        assert(source_report(before, sources@[i as int], results@[i as int]));
        i = i + 1;
    }
    assert(sources@.take(sources@.len() as int) =~= sources@);
    let n: usize = handles.len();
    (n, results)
}

/// The table a diagnosis builds is the one [`ContactResolver::load`] builds
/// from the sources that opened.
pub proof fn lemma_diagnosis_matches_load(m: Map<Seq<char>, Contact>, srcs: Seq<Result<SourceRows, String>>)
    ensures
        opened_loaded(m, srcs) == sources_loaded(m, opened(srcs)),
    decreases srcs.len(),
{
    if srcs.len() > 0 {
        lemma_diagnosis_matches_load(m, srcs.drop_last());
        match srcs.last() {
            Ok(rows) => {
                assert(opened(srcs).drop_last() =~= opened(srcs.drop_last()));
            },
            Err(_) => {},
        }
    }
}


/// `m` is kept by `r`: every key of `m` is in `r` with the same name.
pub open spec fn keeps(m: Map<Seq<char>, Contact>, r: Map<Seq<char>, Contact>) -> bool {
    forall|k: Seq<char>| #[trigger] m.dom().contains(k) ==> r.dom().contains(k) && r[k] == m[k]
}

/// Loading phone rows never drops a key nor changes the contact filed under
/// it.
pub proof fn lemma_phones_keep_filed(m: Map<Seq<char>, Contact>, source: usize, rows: Seq<ContactRow>)
    ensures
        keeps(m, phones_loaded(m, source, rows).0),
        phones_loaded(m, source, rows).1 <= rows.len(),
    decreases rows.len(),
{
    if rows.len() > 0 {
        lemma_phones_keep_filed(m, source, rows.drop_last());
    }
}

/// Loading e-mail rows never drops a key nor changes the contact filed
/// under it.
pub proof fn lemma_emails_keep_filed(m: Map<Seq<char>, Contact>, source: usize, rows: Seq<ContactRow>)
    ensures
        keeps(m, emails_loaded(m, source, rows).0),
        emails_loaded(m, source, rows).1 <= rows.len(),
    decreases rows.len(),
{
    if rows.len() > 0 {
        lemma_emails_keep_filed(m, source, rows.drop_last());
    }
}

/// Loading address-book sources never drops a key nor renames it: the first
/// name filed under a key stays.
pub proof fn lemma_sources_keep_filed(m: Map<Seq<char>, Contact>, srcs: Seq<SourceRows>)
    ensures
        keeps(m, sources_loaded(m, srcs)),
    decreases srcs.len(),
{
    if srcs.len() > 0 {
        let p = sources_loaded(m, srcs.drop_last());
        lemma_sources_keep_filed(m, srcs.drop_last());
        let src = srcs.last();
        lemma_phones_keep_filed(p, src.id, src.phones@);
        lemma_emails_keep_filed(phones_loaded(p, src.id, src.phones@).0, src.id, src.emails@);
    }
}

/// After loading phone rows, every key of every named row is in the table.
pub proof fn lemma_phone_keys_filed(m: Map<Seq<char>, Contact>, source: usize, rows: Seq<ContactRow>, i: int, k: Seq<char>)
    requires
        0 <= i < rows.len(),
        row_name(rows[i]) is Some,
        phone_keys_of(rows[i].value@).contains(k),
    ensures
        phones_loaded(m, source, rows).0.dom().contains(k),
    decreases rows.len(),
{
    if i < rows.len() - 1 {
        assert(rows.drop_last()[i] == rows[i]);
        lemma_phone_keys_filed(m, source, rows.drop_last(), i, k);
        let p = phones_loaded(m, source, rows.drop_last()).0;
        assert(p.dom().contains(k));
    }
}

/// After loading e-mail rows, the key of every named row with a non-empty
/// key is in the table.
pub proof fn lemma_email_key_filed(m: Map<Seq<char>, Contact>, source: usize, rows: Seq<ContactRow>, i: int)
    requires
        0 <= i < rows.len(),
        row_name(rows[i]) is Some,
        email_key(rows[i].value@).len() > 0,
    ensures
        emails_loaded(m, source, rows).0.dom().contains(email_key(rows[i].value@)),
    decreases rows.len(),
{
    if i < rows.len() - 1 {
        assert(rows.drop_last()[i] == rows[i]);
        lemma_email_key_filed(m, source, rows.drop_last(), i);
        let p = emails_loaded(m, source, rows.drop_last()).0;
        assert(p.dom().contains(email_key(rows[i].value@)));
    }
}

/// A lookup finds a name exactly when one of the keys is in the table, and
/// then it is the name of the first such key.
pub proof fn lemma_first_match(m: Map<Seq<char>, Contact>, keys: Seq<Seq<char>>)
    ensures
        first_match(m, keys) is Some <==> exists|i: int| 0 <= i < keys.len() && m.dom().contains(keys[i]),
        first_match(m, keys) is Some ==> exists|i: int|
            0 <= i < keys.len() && m.dom().contains(keys[i]) && first_match(m, keys) == Some(m[keys[i]])
            && forall|j: int| 0 <= j < i ==> !m.dom().contains(#[trigger] keys[j]),
    decreases keys.len(),
{
    if keys.len() > 0 {
        let rest = keys.drop_first();
        lemma_first_match(m, rest);
        if !m.dom().contains(keys[0]) {
            if exists|i: int| 0 <= i < keys.len() && m.dom().contains(keys[i]) {
                let i = choose|i: int| 0 <= i < keys.len() && m.dom().contains(keys[i]);
                assert(rest[i - 1] == keys[i]);
            }
            if first_match(m, keys) is Some {
                let i = choose|i: int|
                    0 <= i < rest.len() && m.dom().contains(rest[i]) && first_match(m, rest) == Some(m[rest[i]])
                    && forall|j: int| 0 <= j < i ==> !m.dom().contains(#[trigger] rest[j]);
                assert(keys[i + 1] == rest[i]);
                assert forall|j: int| 0 <= j < i + 1 implies !m.dom().contains(#[trigger] keys[j]) by {
                    if j > 0 {
                        assert(keys[j] == rest[j - 1]);
                    }
                }
            }
        }
    }
}

/// A record loaded under a phone number is found for every chat identifier
/// that shares a key with that number.
pub proof fn lemma_lookup_finds_loaded_phone(
    m: Map<Seq<char>, Contact>,
    source: usize,
    rows: Seq<ContactRow>,
    i: int,
    chat_identifier: Seq<char>,
    k: Seq<char>,
)
    requires
        0 <= i < rows.len(),
        row_name(rows[i]) is Some,
        phone_keys_of(rows[i].value@).contains(k),
        identifier_keys(chat_identifier).contains(k),
    ensures
        first_match(phones_loaded(m, source, rows).0, identifier_keys(chat_identifier)) is Some,
{
    lemma_phone_keys_filed(m, source, rows, i, k);
    lemma_first_match(phones_loaded(m, source, rows).0, identifier_keys(chat_identifier));
}

/// A key ends up in the table only if it was there or some named phone row
/// has it.
pub proof fn lemma_phones_dom(m: Map<Seq<char>, Contact>, source: usize, rows: Seq<ContactRow>, k: Seq<char>)
    requires
        phones_loaded(m, source, rows).0.dom().contains(k),
    ensures
        m.dom().contains(k) || exists|j: int|
            0 <= j < rows.len() && row_name(rows[j]) is Some && phone_keys_of(#[trigger] rows[j].value@).contains(k),
    decreases rows.len(),
{
    if rows.len() > 0 {
        let p = phones_loaded(m, source, rows.drop_last()).0;
        if p.dom().contains(k) {
            lemma_phones_dom(m, source, rows.drop_last(), k);
            if !m.dom().contains(k) {
                let j = choose|j: int|
                    0 <= j < rows.drop_last().len() && row_name(rows.drop_last()[j]) is Some
                    && phone_keys_of(#[trigger] rows.drop_last()[j].value@).contains(k);
                assert(rows[j] == rows.drop_last()[j]);
            }
        } else {
            let last: int = rows.len() - 1;
            assert(rows[last] == rows.last());
        }
    }
}

/// The contact filed under a new key is that of the first named phone row
/// that has the key: its name and its record.
pub proof fn lemma_first_row_names_key(m: Map<Seq<char>, Contact>, source: usize, rows: Seq<ContactRow>, i: int, k: Seq<char>)
    requires
        0 <= i < rows.len(),
        !m.dom().contains(k),
        row_name(rows[i]) is Some,
        phone_keys_of(rows[i].value@).contains(k),
        forall|j: int| 0 <= j < i ==> row_name(#[trigger] rows[j]) is None || !phone_keys_of(rows[j].value@).contains(k),
    ensures
        phones_loaded(m, source, rows).0.dom().contains(k),
        phones_loaded(m, source, rows).0[k] == (row_name(rows[i])->Some_0, (source, rows[i].record)),
    decreases rows.len(),
{
    let prefix = rows.drop_last();
    let p = phones_loaded(m, source, prefix).0;
    if i < rows.len() - 1 {
        assert forall|j: int| 0 <= j < i implies row_name(#[trigger] prefix[j]) is None
            || !phone_keys_of(prefix[j].value@).contains(k) by {
            assert(prefix[j] == rows[j]);
        }
        assert(prefix[i] == rows[i]);
        lemma_first_row_names_key(m, source, prefix, i, k);
    } else {
        if p.dom().contains(k) {
            lemma_phones_dom(m, source, prefix, k);
            let j = choose|j: int|
                0 <= j < prefix.len() && row_name(prefix[j]) is Some && phone_keys_of(#[trigger] prefix[j].value@).contains(k);
            assert(prefix[j] == rows[j]);
        }
        assert(rows.last() == rows[i]);
    }
}

/// A key ends up in the table after e-mail rows only if it was there or it
/// is the non-empty key of some named e-mail row.
pub proof fn lemma_emails_dom(m: Map<Seq<char>, Contact>, source: usize, rows: Seq<ContactRow>, k: Seq<char>)
    requires
        emails_loaded(m, source, rows).0.dom().contains(k),
    ensures
        m.dom().contains(k) || exists|j: int|
            0 <= j < rows.len() && row_name(rows[j]) is Some && ascii_lowercased(trimmed(#[trigger] rows[j].value@)) == k,
    decreases rows.len(),
{
    if rows.len() > 0 {
        let p = emails_loaded(m, source, rows.drop_last()).0;
        if p.dom().contains(k) {
            lemma_emails_dom(m, source, rows.drop_last(), k);
            if !m.dom().contains(k) {
                let j = choose|j: int|
                    0 <= j < rows.drop_last().len() && row_name(rows.drop_last()[j]) is Some
                    && ascii_lowercased(trimmed(#[trigger] rows.drop_last()[j].value@)) == k;
                assert(rows[j] == rows.drop_last()[j]);
            }
        } else {
            let last: int = rows.len() - 1;
            assert(rows[last] == rows.last());
        }
    }
}

/// The contact filed under a new e-mail key is that of the first named
/// e-mail row with that key: that row's own display name, and its own
/// record in source `source`.
pub proof fn lemma_first_email_row_names_key(m: Map<Seq<char>, Contact>, source: usize, rows: Seq<ContactRow>, i: int)
    requires
        0 <= i < rows.len(),
        !m.dom().contains(ascii_lowercased(trimmed(rows[i].value@))),
        ascii_lowercased(trimmed(rows[i].value@)).len() > 0,
        row_name(rows[i]) is Some,
        forall|j: int| 0 <= j < i ==> row_name(#[trigger] rows[j]) is None
            || ascii_lowercased(trimmed(rows[j].value@)) != ascii_lowercased(trimmed(rows[i].value@)),
    ensures
        emails_loaded(m, source, rows).0.dom().contains(ascii_lowercased(trimmed(rows[i].value@))),
        emails_loaded(m, source, rows).0[ascii_lowercased(trimmed(rows[i].value@))]
            == (row_name(rows[i])->Some_0, (source, rows[i].record)),
    decreases rows.len(),
{
    let k = ascii_lowercased(trimmed(rows[i].value@));
    let prefix = rows.drop_last();
    let p = emails_loaded(m, source, prefix).0;
    if i < rows.len() - 1 {
        assert forall|j: int| 0 <= j < i implies row_name(#[trigger] prefix[j]) is None
            || ascii_lowercased(trimmed(prefix[j].value@)) != ascii_lowercased(trimmed(prefix[i].value@)) by {
            assert(prefix[j] == rows[j]);
        }
        assert(prefix[i] == rows[i]);
        lemma_first_email_row_names_key(m, source, prefix, i);
        assert(p.dom().contains(k));
    } else {
        if p.dom().contains(k) {
            lemma_emails_dom(m, source, prefix, k);
            let j = choose|j: int|
                0 <= j < prefix.len() && row_name(prefix[j]) is Some && ascii_lowercased(trimmed(#[trigger] prefix[j].value@)) == k;
            assert(prefix[j] == rows[j]);
        }
        assert(rows.last() == rows[i]);
    }
}

/// After loading e-mail rows, a lookup of an address finds the contact of
/// the first named row filed under its key, when the key was new.
pub proof fn lemma_lookup_finds_loaded_email(m: Map<Seq<char>, Contact>, source: usize, rows: Seq<ContactRow>, i: int, address: Seq<char>)
    requires
        0 <= i < rows.len(),
        address.contains('@'),
        !m.dom().contains(ascii_lowercased(trimmed(rows[i].value@))),
        ascii_lowercased(trimmed(rows[i].value@)).len() > 0,
        ascii_lowercased(trimmed(address)) == ascii_lowercased(trimmed(rows[i].value@)),
        row_name(rows[i]) is Some,
        forall|j: int| 0 <= j < i ==> row_name(#[trigger] rows[j]) is None
            || ascii_lowercased(trimmed(rows[j].value@)) != ascii_lowercased(trimmed(rows[i].value@)),
    ensures
        first_match(emails_loaded(m, source, rows).0, identifier_keys(address))
            == Some((row_name(rows[i])->Some_0, (source, rows[i].record))),
{
    lemma_first_email_row_names_key(m, source, rows, i);
    let k = ascii_lowercased(trimmed(address));
    assert(identifier_keys(address) == seq![k]);
    assert(seq![k].drop_first() =~= Seq::<Seq<char>>::empty());
}

/// The count that loading e-mail rows returns is the number of keys they
/// added to the table.
pub proof fn lemma_emails_count(m: Map<Seq<char>, Contact>, source: usize, rows: Seq<ContactRow>)
    requires
        m.dom().finite(),
    ensures
        emails_loaded(m, source, rows).0.dom().finite(),
        emails_loaded(m, source, rows).0.dom().len() == m.dom().len() + emails_loaded(m, source, rows).1,
    decreases rows.len(),
{
    if rows.len() > 0 {
        lemma_emails_count(m, source, rows.drop_last());
    }
}

/// Every phone row that loading counts added at least one key to the table,
/// and when none is counted the table is left as it was.
pub proof fn lemma_phones_count(m: Map<Seq<char>, Contact>, source: usize, rows: Seq<ContactRow>)
    requires
        m.dom().finite(),
    ensures
        phones_loaded(m, source, rows).0.dom().finite(),
        m.dom().len() + phones_loaded(m, source, rows).1 <= phones_loaded(m, source, rows).0.dom().len(),
        phones_loaded(m, source, rows).1 == 0 ==> phones_loaded(m, source, rows).0 == m,
    decreases rows.len(),
{
    if rows.len() > 0 {
        let pre = rows.drop_last();
        lemma_phones_count(m, source, pre);
        let p = phones_loaded(m, source, pre).0;
        let r = rows.last();
        match row_name(r) {
            Some(name) => {
                let ks = phone_keys_of(r.value@);
                let q = file_under(p, ks, row_contact(r, source, name));
                broadcast use vstd::seq_lib::seq_to_set_is_finite;
                assert(q.dom() =~= p.dom().union(ks.to_set()));
                if adds_key(p, ks) {
                    let i = choose|i: int| 0 <= i < ks.len() && !p.dom().contains(ks[i]);
                    assert(p.dom().insert(ks[i]).subset_of(q.dom()));
                    vstd::set_lib::lemma_len_subset(p.dom().insert(ks[i]), q.dom());
                } else {
                    assert forall|k: Seq<char>| ks.contains(k) implies p.dom().contains(k) by {
                        let i = choose|i: int| 0 <= i < ks.len() && ks[i] == k;
                    }
                    assert(q =~= p);
                }
            },
            None => {},
        }
    }
}

/// A record has a display name exactly when one of its four name parts is
/// non-empty, and that name is never empty. With a first and a last name it
/// is the first name, a space and the last name; with one of the two it is
/// that one; with neither, the nickname when there is one, else the
/// organisation.
pub proof fn lemma_display_name(
    first: Option<Seq<char>>,
    last: Option<Seq<char>>,
    nick: Option<Seq<char>>,
    org: Option<Seq<char>>,
)
    ensures
        display_name_of(first, last, nick, org) is Some <==> (
            (first is Some && first->Some_0.len() > 0) || (last is Some && last->Some_0.len() > 0)
            || (nick is Some && nick->Some_0.len() > 0) || (org is Some && org->Some_0.len() > 0)),
        display_name_of(first, last, nick, org) is Some ==> display_name_of(first, last, nick, org)->Some_0.len() > 0,
        first is Some && first->Some_0.len() > 0 && last is Some && last->Some_0.len() > 0 ==> ({
            let n = display_name_of(first, last, nick, org)->Some_0;
            &&& n.len() == first->Some_0.len() + 1 + last->Some_0.len()
            &&& n.take(first->Some_0.len() as int) == first->Some_0
            &&& n[first->Some_0.len() as int] == ' '
            &&& n.skip(first->Some_0.len() as int + 1) == last->Some_0
        }),
        first is Some && first->Some_0.len() > 0 && !(last is Some && last->Some_0.len() > 0)
            ==> display_name_of(first, last, nick, org) == first,
        last is Some && last->Some_0.len() > 0 && !(first is Some && first->Some_0.len() > 0)
            ==> display_name_of(first, last, nick, org) == last,
        !(first is Some && first->Some_0.len() > 0) && !(last is Some && last->Some_0.len() > 0)
            && nick is Some && nick->Some_0.len() > 0 ==> display_name_of(first, last, nick, org) == nick,
        !(first is Some && first->Some_0.len() > 0) && !(last is Some && last->Some_0.len() > 0)
            && !(nick is Some && nick->Some_0.len() > 0) ==> display_name_of(first, last, nick, org) == present(org),
{
    if first is Some && first->Some_0.len() > 0 && last is Some && last->Some_0.len() > 0 {
        let f = first->Some_0;
        let l = last->Some_0;
        let n = f + seq![' '] + l;
        assert(n.take(f.len() as int) =~= f);
        assert(n.skip(f.len() as int + 1) =~= l);
    }
}

} // verus!
